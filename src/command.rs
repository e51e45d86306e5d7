//! The player's command language: a line of whitespace-separated words such
//! as `r 0 1` (reveal row 0, column 1), `f 2 4` (flag), `q 1 3` (question
//! mark), `n 5 5` (new board), `debug` or `quit`.
use crate::grid::Grid;
use vstd::prelude::*;

verus! {

/// A command of the player.
#[derive(Clone, Copy, Debug, PartialEq, Eq, Structural)]
pub enum Command {
    Quit,
    Debug,
    New(usize, usize),
    Reveal(usize, usize),
    Flag(usize, usize),
    Question(usize, usize),
}

/// Why a command line was refused.
#[derive(Clone, Copy, Debug, PartialEq, Eq, Structural)]
pub enum CommandError {
    /// A row or column is not a number that fits in a `usize`.
    InvalidIndex,
    /// A row or column is not below the board's number of rows or columns.
    IndexOutOfRange { index: usize, max: usize },
    /// The line is empty, its first word is unknown, or it has the wrong number of words.
    InvalidCommand,
}

/// The characters that separate words: those with the Unicode `White_Space`
/// property.
pub open spec fn is_blank(c: char) -> bool {
    ('\u{9}' <= c && c <= '\u{D}') || c == ' ' || c == '\u{85}' || c == '\u{A0}' || c == '\u{1680}'
        || ('\u{2000}' <= c && c <= '\u{200A}') || c == '\u{2028}' || c == '\u{2029}' || c == '\u{202F}'
        || c == '\u{205F}' || c == '\u{3000}'
}

/// Whether `c` separates words.
fn is_blank_char(c: char) -> (r: bool)
    ensures
        r == is_blank(c),
{
    ('\u{9}' <= c && c <= '\u{D}') || c == ' ' || c == '\u{85}' || c == '\u{A0}' || c == '\u{1680}'
        || ('\u{2000}' <= c && c <= '\u{200A}') || c == '\u{2028}' || c == '\u{2029}' || c == '\u{202F}'
        || c == '\u{205F}' || c == '\u{3000}'
}

/// The words of `s` after the word `cur` under way: maximal runs of
/// characters that are not blank.
pub open spec fn split_from(s: Seq<char>, cur: Seq<char>) -> Seq<Seq<char>>
    decreases s.len(),
{
    if s.len() == 0 {
        if cur.len() == 0 {
            Seq::empty()
        } else {
            seq![cur]
        }
    } else if is_blank(s[0]) {
        if cur.len() == 0 {
            split_from(s.drop_first(), Seq::empty())
        } else {
            seq![cur] + split_from(s.drop_first(), Seq::empty())
        }
    } else {
        split_from(s.drop_first(), cur.push(s[0]))
    }
}

/// The character sequences of `ws`.
pub open spec fn views(ws: Seq<Vec<char>>) -> Seq<Seq<char>> {
    ws.map_values(|w: Vec<char>| w@)
}

/// The words of `s`, in order.
pub open spec fn words(s: Seq<char>) -> Seq<Seq<char>> {
    split_from(s, Seq::empty())
}

/// Whether `c` is an ASCII decimal digit.
pub open spec fn is_digit(c: char) -> bool {
    '0' <= c && c <= '9'
}

/// The number the decimal digits `w` spell.
pub open spec fn digits_value(w: Seq<char>) -> int
    decreases w.len(),
{
    if w.len() == 0 {
        0
    } else {
        digits_value(w.drop_last()) * 10 + (w.last() as u32 - '0' as u32)
    }
}

/// The digits of an index word: the word without its optional leading `+`.
pub open spec fn index_digits(w: Seq<char>) -> Seq<char> {
    if w.len() > 0 && w[0] == '+' {
        w.drop_first()
    } else {
        w
    }
}

/// The index a word spells: one or more decimal digits after an optional
/// `+`, with a value that fits in a `usize`.
pub open spec fn index_value(w: Seq<char>) -> Option<usize> {
    let d = index_digits(w);
    if d.len() >= 1 && (forall|k: int| 0 <= k < d.len() ==> is_digit(#[trigger] d[k])) && digits_value(d)
        <= usize::MAX {
        Some(digits_value(d) as usize)
    } else {
        None
    }
}

/// The outcome of checking that `idx` lies in `0..max`.
pub open spec fn bounds_check(idx: usize, max: usize) -> Result<bool, CommandError> {
    if idx < max {
        Ok(true)
    } else {
        Err(CommandError::IndexOutOfRange { index: idx, max })
    }
}

/// The command that the move word `cmd` with row word `row` and column word
/// `col` stands for on a board of `rows` by `cols` cells.
pub open spec fn move_for(rows: usize, cols: usize, cmd: Seq<char>, row: Seq<char>, col: Seq<char>) -> Result<
    Command,
    CommandError,
> {
    match (index_value(row), index_value(col)) {
        (Some(r), Some(c)) => if r >= rows {
            Err(CommandError::IndexOutOfRange { index: r, max: rows })
        } else if c >= cols {
            Err(CommandError::IndexOutOfRange { index: c, max: cols })
        } else if cmd == seq!['r'] {
            Ok(Command::Reveal(r, c))
        } else if cmd == seq!['f'] {
            Ok(Command::Flag(r, c))
        } else if cmd == seq!['q'] {
            Ok(Command::Question(r, c))
        } else {
            Err(CommandError::InvalidCommand)
        },
        _ => Err(CommandError::InvalidIndex),
    }
}

/// The command that the words `ws` stand for on a board of `rows` by `cols` cells.
pub open spec fn command_for(rows: usize, cols: usize, ws: Seq<Seq<char>>) -> Result<Command, CommandError> {
    if ws.len() == 0 {
        Err(CommandError::InvalidCommand)
    } else if ws[0] == seq!['q', 'u', 'i', 't'] {
        Ok(Command::Quit)
    } else if ws[0] == seq!['d', 'e', 'b', 'u', 'g'] {
        Ok(Command::Debug)
    } else if ws[0] == seq!['n'] && ws.len() == 3 {
        match (index_value(ws[1]), index_value(ws[2])) {
            (Some(r), Some(c)) => Ok(Command::New(r, c)),
            _ => Err(CommandError::InvalidIndex),
        }
    } else if (ws[0] == seq!['r'] || ws[0] == seq!['f'] || ws[0] == seq!['q']) && ws.len() == 3 {
        move_for(rows, cols, ws[0], ws[1], ws[2])
    } else {
        Err(CommandError::InvalidCommand)
    }
}

/// The command words differ from one another.
proof fn lemma_keywords_distinct()
    ensures
        seq!['r'] != seq!['f'],
        seq!['r'] != seq!['q'],
        seq!['f'] != seq!['q'],
        seq!['n'] != seq!['r'],
        seq!['n'] != seq!['f'],
        seq!['n'] != seq!['q'],
        seq!['q', 'u', 'i', 't'] != seq!['d', 'e', 'b', 'u', 'g'],
        seq!['q', 'u', 'i', 't'] != seq!['n'],
        seq!['q', 'u', 'i', 't'] != seq!['r'],
        seq!['q', 'u', 'i', 't'] != seq!['f'],
        seq!['q', 'u', 'i', 't'] != seq!['q'],
        seq!['d', 'e', 'b', 'u', 'g'] != seq!['n'],
        seq!['d', 'e', 'b', 'u', 'g'] != seq!['r'],
        seq!['d', 'e', 'b', 'u', 'g'] != seq!['f'],
        seq!['d', 'e', 'b', 'u', 'g'] != seq!['q'],
{
    assert(seq!['r'][0] != seq!['f'][0]);
    assert(seq!['r'][0] != seq!['q'][0]);
    assert(seq!['f'][0] != seq!['q'][0]);
    assert(seq!['n'][0] != seq!['r'][0]);
    assert(seq!['n'][0] != seq!['f'][0]);
    assert(seq!['n'][0] != seq!['q'][0]);
    assert(seq!['q', 'u', 'i', 't'].len() != seq!['d', 'e', 'b', 'u', 'g'].len());
    assert(seq!['q', 'u', 'i', 't'].len() != seq!['n'].len());
    assert(seq!['d', 'e', 'b', 'u', 'g'].len() != seq!['n'].len());
}

/// Whether the characters of `w` are those of `lit`.
fn same_chars(w: &Vec<char>, lit: &Vec<char>) -> (r: bool)
    ensures
        r == (w@ == lit@),
{
    if w.len() != lit.len() {
        return false;
    }
    let mut i: usize = 0;
    while i < w.len()
        invariant
            w@.len() == lit@.len(),
            i <= w@.len(),
            forall|k: int| 0 <= k < i ==> w@[k] == lit@[k],
        decreases w@.len() - i,
    {
        if w[i] != lit[i] {
            return false;
        }
        i = i + 1;
    }
    assert(w@ =~= lit@);
    true
}

/// The characters of `s`.
fn chars_of(s: &str) -> (r: Vec<char>)
    ensures
        r@ == s@,
{
    let n = s.unicode_len();
    let mut r: Vec<char> = Vec::with_capacity(n);
    let mut i: usize = 0;
    while i < n
        invariant
            n == s@.len(),
            i <= n,
            r@ == s@.subrange(0, i as int),
        decreases n - i,
    {
        r.push(s.get_char(i));
        i = i + 1;
    }
    assert(r@ =~= s@);
    r
}

/// Splits `s` into its words.
fn split_words(s: &Vec<char>) -> (r: Vec<Vec<char>>)
    ensures
        views(r@) == words(s@),
{
    let mut r: Vec<Vec<char>> = Vec::new();
    let mut cur: Vec<char> = Vec::new();
    let mut i: usize = 0;
    assert(s@.skip(0) =~= s@);
    assert(views(r@) =~= Seq::<Seq<char>>::empty());
    assert(views(r@) + words(s@) =~= words(s@));
    while i < s.len()
        invariant
            i <= s@.len(),
            views(r@) + split_from(s@.skip(i as int), cur@) == words(s@),
        decreases s@.len() - i,
    {
        let ghost rest = s@.skip(i as int);
        assert(rest.drop_first() =~= s@.skip(i as int + 1));
        let ghost before = views(r@);
        let c = s[i];
        assert(rest[0] == c);
        let ghost cur_old = cur@;
        if is_blank_char(c) {
            if cur.len() == 0 {
                assert(cur@ =~= Seq::<char>::empty());
                assert(split_from(rest, cur_old) == split_from(s@.skip(i as int + 1), Seq::<char>::empty()));
            } else {
                assert(split_from(rest, cur_old) == seq![cur_old] + split_from(
                    s@.skip(i as int + 1),
                    Seq::<char>::empty(),
                ));
                let ghost word = cur@;
                r.push(cur);
                cur = Vec::new();
                assert(views(r@) =~= before.push(word));
                assert(before + (seq![word] + split_from(s@.skip(i as int + 1), cur@)) =~= before.push(word)
                    + split_from(s@.skip(i as int + 1), cur@));
            }
        } else {
            assert(split_from(rest, cur_old) == split_from(s@.skip(i as int + 1), cur_old.push(c)));
            cur.push(c);
        }
        i = i + 1;
    }
    assert(s@.skip(i as int) =~= Seq::<char>::empty());
    let ghost before = views(r@);
    if cur.len() == 0 {
        assert(views(r@) =~= words(s@));
    } else {
        let ghost word = cur@;
        r.push(cur);
        assert(views(r@) =~= before.push(word));
    }
    r
}

/// A longer run of digits spells at least the number of its prefix.
proof fn lemma_digits_prefix(w: Seq<char>, k: int)
    requires
        0 <= k <= w.len(),
        forall|t: int| 0 <= t < w.len() ==> is_digit(#[trigger] w[t]),
    ensures
        digits_value(w.take(k)) <= digits_value(w),
        0 <= digits_value(w.take(k)),
    decreases w.len() - k,
{
    if k < w.len() {
        lemma_digits_prefix(w, k + 1);
        assert(w.take(k + 1).drop_last() =~= w.take(k));
        lemma_digits_nonneg(w.take(k));
    } else {
        assert(w.take(k) =~= w);
        lemma_digits_nonneg(w);
    }
}

proof fn lemma_digits_nonneg(w: Seq<char>)
    requires
        forall|t: int| 0 <= t < w.len() ==> is_digit(#[trigger] w[t]),
    ensures
        0 <= digits_value(w),
    decreases w.len(),
{
    if w.len() > 0 {
        lemma_digits_nonneg(w.drop_last());
    }
}

/// Reads an index word: decimal digits after an optional `+`.
fn parse_index(w: &Vec<char>) -> (r: Result<usize, CommandError>)
    ensures
        r == (match index_value(w@) {
            Some(v) => Ok(v),
            None => Err(CommandError::InvalidIndex),
        }),
{
    let start: usize = if w.len() > 0 && w[0] == '+' { 1 } else { 0 };
    let ghost d = index_digits(w@);
    assert(d =~= w@.skip(start as int));
    if start >= w.len() {
        return Err(CommandError::InvalidIndex);
    }
    let mut i: usize = start;
    while i < w.len()
        invariant
            start <= i <= w@.len(),
            d == w@.skip(start as int),
            d == index_digits(w@),
            forall|k: int| 0 <= k < i - start ==> is_digit(#[trigger] d[k]),
        decreases w@.len() - i,
    {
        if !('0' <= w[i] && w[i] <= '9') {
            assert(d[i - start] == w@[i as int]);
            assert(!is_digit(d[i - start]));
            return Err(CommandError::InvalidIndex);
        }
        i = i + 1;
    }
    let mut value: usize = 0;
    i = start;
    while i < w.len()
        invariant
            start <= i <= w@.len(),
            d == w@.skip(start as int),
            d == index_digits(w@),
            forall|k: int| 0 <= k < d.len() ==> is_digit(#[trigger] d[k]),
            value == digits_value(d.take(i - start)),
        decreases w@.len() - i,
    {
        assert(d[i - start] == w@[i as int]);
        assert(is_digit(d[i - start]));
        let digit = (w[i] as u32 - '0' as u32) as usize;
        assert(d.take(i - start + 1).drop_last() =~= d.take(i - start));
        assert(d.take(i - start + 1).last() == w@[i as int]);
        assert(digits_value(d.take(i - start + 1)) == value * 10 + digit);
        proof {
            lemma_digits_prefix(d, i - start + 1);
        }
        if value > (usize::MAX - digit) / 10 {
            assert(value * 10 + digit > usize::MAX) by (nonlinear_arith)
                requires
                    value > (usize::MAX - digit) / 10,
                    digit <= 9,
            ;
            return Err(CommandError::InvalidIndex);
        }
        assert(value * 10 + digit <= usize::MAX) by (nonlinear_arith)
            requires
                value <= (usize::MAX - digit) / 10,
                digit <= 9,
        ;
        value = value * 10 + digit;
        i = i + 1;
    }
    assert(d.take(d.len() as int) =~= d);
    Ok(value)
}

/// Plays a game on a board from command lines.
pub struct CommandLineDriver {
    pub game: Grid,
}

impl CommandLineDriver {
    /// A driver for the game on `game`.
    pub fn new(game: Grid) -> (r: Self)
        ensures
            r.game == game,
    {
        CommandLineDriver { game }
    }

    /// Reads an index word: decimal digits after an optional `+`, with a value
    /// that fits in a `usize`.
    pub fn parse_int(&self, s: &Vec<char>) -> (r: Result<usize, CommandError>)
        ensures
            r == (match index_value(s@) {
                Some(v) => Ok(v),
                None => Err(CommandError::InvalidIndex),
            }),
    {
        parse_index(s)
    }

    /// `Ok(true)` when `idx` lies in `0..max`, else the out-of-range error.
    pub fn check_index_bounds(idx: usize, max_idx: usize) -> (r: Result<bool, CommandError>)
        ensures
            r == bounds_check(idx, max_idx),
    {
        if idx < max_idx {
            Ok(true)
        } else {
            Err(CommandError::IndexOutOfRange { index: idx, max: max_idx })
        }
    }

    /// The move `command` (`r`, `f` or `q`) at the row and column that `row`
    /// and `col` spell, which must lie on the board.
    pub fn map_move(&self, command: &Vec<char>, row: &Vec<char>, col: &Vec<char>) -> (r: Result<Command, CommandError>)
        ensures
            r == move_for(self.game@.rows as usize, self.game@.cols as usize, command@, row@, col@),
    {
        let (rows, cols) = self.game.dimensions();
        let row_idx = match self.parse_int(row) {
            Ok(v) => v,
            Err(e) => return Err(e),
        };
        let col_idx = match self.parse_int(col) {
            Ok(v) => v,
            Err(e) => return Err(e),
        };
        assert(index_value(row@) == Some(row_idx) && index_value(col@) == Some(col_idx));
        assert(rows == self.game@.rows as usize && cols == self.game@.cols as usize);
        if let Err(e) = Self::check_index_bounds(row_idx, rows) {
            return Err(e);
        }
        if let Err(e) = Self::check_index_bounds(col_idx, cols) {
            return Err(e);
        }
        proof {
            lemma_keywords_distinct();
        }
        let reveal_word = vec!['r'];
        let flag_word = vec!['f'];
        let question_word = vec!['q'];
        assert(reveal_word@ == seq!['r'] && flag_word@ == seq!['f'] && question_word@ == seq!['q']);
        if same_chars(command, &reveal_word) {
            Ok(Command::Reveal(row_idx, col_idx))
        } else if same_chars(command, &flag_word) {
            Ok(Command::Flag(row_idx, col_idx))
        } else if same_chars(command, &question_word) {
            Ok(Command::Question(row_idx, col_idx))
        } else {
            Err(CommandError::InvalidCommand)
        }
    }

    /// The command a line of input stands for.
    pub fn parse_command_line(&self, command_str: &str) -> (r: Result<Command, CommandError>)
        ensures
            r == command_for(self.game@.rows as usize, self.game@.cols as usize, words(command_str@)),
    {
        let chars = chars_of(command_str);
        let toks = split_words(&chars);
        let ghost ws = views(toks@);
        if toks.len() == 0 {
            return Err(CommandError::InvalidCommand);
        }
        assert(ws[0] == toks@[0]@);
        proof {
            lemma_keywords_distinct();
        }
        let quit_word = vec!['q', 'u', 'i', 't'];
        let debug_word = vec!['d', 'e', 'b', 'u', 'g'];
        let new_word = vec!['n'];
        let reveal_word = vec!['r'];
        let flag_word = vec!['f'];
        let question_word = vec!['q'];
        assert(quit_word@ == seq!['q', 'u', 'i', 't'] && debug_word@ == seq!['d', 'e', 'b', 'u', 'g']
            && new_word@ == seq!['n']);
        assert(reveal_word@ == seq!['r'] && flag_word@ == seq!['f'] && question_word@ == seq!['q']);
        if same_chars(&toks[0], &quit_word) {
            Ok(Command::Quit)
        } else if same_chars(&toks[0], &debug_word) {
            Ok(Command::Debug)
        } else if same_chars(&toks[0], &new_word) && toks.len() == 3 {
            assert(ws[1] == toks@[1]@ && ws[2] == toks@[2]@);
            let row_idx = match self.parse_int(&toks[1]) {
                Ok(v) => v,
                Err(e) => return Err(e),
            };
            let col_idx = match self.parse_int(&toks[2]) {
                Ok(v) => v,
                Err(e) => return Err(e),
            };
            Ok(Command::New(row_idx, col_idx))
        } else if (same_chars(&toks[0], &reveal_word) || same_chars(&toks[0], &flag_word) || same_chars(
            &toks[0],
            &question_word,
        )) && toks.len() == 3 {
            assert(ws[1] == toks@[1]@ && ws[2] == toks@[2]@);
            self.map_move(&toks[0], &toks[1], &toks[2])
        } else {
            Err(CommandError::InvalidCommand)
        }
    }
}


} // verus!
