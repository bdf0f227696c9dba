//! Byte classes and the elementary scanners that every parser is built from.

use vstd::prelude::*;

verus! {

/// The outcome of a failed parse: `cut` tells whether alternatives may
/// still be tried (`false`) or the whole parse is abandoned (`true`);
/// `at` is the offset at which the failure was noticed.
#[derive(Clone, Copy, Debug, PartialEq, Eq, Structural)]
pub struct SyntaxError {
    pub cut: bool,
    pub at: usize,
}

/// What a grammar rule yields at a position of a text: a value together
/// with the offset just behind it, a failure that lets the caller try
/// something else, or a failure that ends the parse.
pub enum Outcome<V> {
    Match { value: V, end: int },
    Backtrack { at: int },
    Cut { at: int },
}

/// The failure `o` as the outcome of a rule with another kind of value.
pub open spec fn failed<V, W>(o: Outcome<V>) -> Outcome<W> {
    match o {
        Outcome::Cut { at } => Outcome::Cut { at },
        Outcome::Backtrack { at } => Outcome::Backtrack { at },
        Outcome::Match { value: _, end } => Outcome::Backtrack { at: end },
    }
}

/// Whether the failure `e` is the one that the grammar assigns, and was
/// noticed inside `from ..= len`.
pub open spec fn failure_agrees<V>(e: SyntaxError, o: Outcome<V>, from: int, len: int) -> bool {
    &&& o == if e.cut {
        Outcome::<V>::Cut { at: e.at as int }
    } else {
        Outcome::<V>::Backtrack { at: e.at as int }
    }
    &&& from <= e.at
    &&& from <= len ==> e.at <= len
}

/// What a parser returns: the value with the offset just behind it, or the
/// failure.
pub type Parsed<T> = Result<(T, usize), SyntaxError>;

/// The tab.
pub const TAB: u8 = 0x09;

/// The line feed.
pub const LINE_FEED: u8 = 0x0a;

/// The carriage return.
pub const CARRIAGE_RETURN: u8 = 0x0d;

/// The space.
pub const SPACE: u8 = 0x20;

/// `"`
pub const QUOTE: u8 = 0x22;

/// `'`
pub const APOSTROPHE: u8 = 0x27;

/// `(`
pub const PAREN_OPEN: u8 = 0x28;

/// `)`
pub const PAREN_CLOSE: u8 = 0x29;

/// `+`
pub const PLUS: u8 = 0x2b;

/// `,`
pub const COMMA: u8 = 0x2c;

/// `-`
pub const MINUS: u8 = 0x2d;

/// `.`
pub const DOT: u8 = 0x2e;

/// `/`
pub const SLASH: u8 = 0x2f;

/// `0`
pub const ZERO: u8 = 0x30;

/// `;`
pub const SEMICOLON: u8 = 0x3b;

/// `=`
pub const EQUALS: u8 = 0x3d;

/// `\`
pub const BACKSLASH: u8 = 0x5c;

/// `_`
pub const UNDERSCORE: u8 = 0x5f;

/// `{`
pub const BRACE_OPEN: u8 = 0x7b;

/// `}`
pub const BRACE_CLOSE: u8 = 0x7d;

/// The sets of bytes that the grammar distinguishes.
#[derive(Clone, Copy, Debug, PartialEq, Eq, Structural)]
pub enum Class {
    /// `A-Z` and `a-z`.
    Alpha,
    /// `0-9`.
    Digit,
    /// Letters and digits.
    AlphaNum,
    /// Letters, digits and `_`.
    Word,
    /// Letters, digits, `_` and `/`.
    PathByte,
    /// Space and tab.
    Blank,
    /// Space, tab, carriage return and line feed.
    White,
    /// Every byte that may stand in a bare word: all but `,`, `)`, `=`,
    /// space and tab.
    Token,
}

/// Whether `b` is a letter, `A-Z` or `a-z`.
pub open spec fn is_alpha(b: u8) -> bool {
    (0x41 <= b <= 0x5a) || (0x61 <= b <= 0x7a)
}

/// Whether `b` is a digit, `0-9`.
pub open spec fn is_digit(b: u8) -> bool {
    0x30 <= b <= 0x39
}

/// Whether `b` belongs to the class `c`.
pub open spec fn in_class(c: Class, b: u8) -> bool {
    match c {
        Class::Alpha => is_alpha(b),
        Class::Digit => is_digit(b),
        Class::AlphaNum => is_alpha(b) || is_digit(b),
        Class::Word => is_alpha(b) || is_digit(b) || b == UNDERSCORE,
        Class::PathByte => is_alpha(b) || is_digit(b) || b == UNDERSCORE || b == SLASH,
        Class::Blank => b == SPACE || b == TAB,
        Class::White => b == SPACE || b == TAB || b == CARRIAGE_RETURN || b == LINE_FEED,
        Class::Token => !(b == COMMA || b == PAREN_CLOSE || b == EQUALS || b == SPACE || b == TAB),
    }
}

/// Whether `b` belongs to the class `c`.
pub fn class_has(c: Class, b: u8) -> (r: bool)
    ensures
        r == in_class(c, b),
{
    let alpha = (0x41 <= b && b <= 0x5a) || (0x61 <= b && b <= 0x7a);
    let digit = 0x30 <= b && b <= 0x39;
    match c {
        Class::Alpha => alpha,
        Class::Digit => digit,
        Class::AlphaNum => alpha || digit,
        Class::Word => alpha || digit || b == UNDERSCORE,
        Class::PathByte => alpha || digit || b == UNDERSCORE || b == SLASH,
        Class::Blank => b == SPACE || b == TAB,
        Class::White => b == SPACE || b == TAB || b == CARRIAGE_RETURN || b == LINE_FEED,
        Class::Token => !(b == COMMA || b == PAREN_CLOSE || b == EQUALS || b == SPACE || b == TAB),
    }
}

/// The byte at offset `i` of `s`, if there is one.
pub open spec fn byte_at(s: Seq<u8>, i: int) -> Option<u8> {
    if 0 <= i < s.len() {
        Some(s[i])
    } else {
        None
    }
}

/// Whether the byte at offset `i` of `s` is `b`.
pub open spec fn has_byte(s: Seq<u8>, i: int, b: u8) -> bool {
    byte_at(s, i) == Some(b)
}

/// Whether the byte at offset `pos` is `b`.
pub fn is_byte(text: &[u8], pos: usize, b: u8) -> (r: bool)
    ensures
        r == has_byte(text@, pos as int, b),
        r ==> pos < text.len(),
{
    pos < text.len() && text[pos] == b
}

/// Whether `word` stands in `s` at offset `i`.
pub open spec fn has_word(s: Seq<u8>, i: int, word: Seq<u8>) -> bool {
    0 <= i && i + word.len() <= s.len() && s.subrange(i, i + word.len()) == word
}

/// Whether `word` stands in the text at offset `pos`.
pub fn is_word(text: &[u8], pos: usize, word: &[u8]) -> (r: bool)
    ensures
        r == has_word(text@, pos as int, word@),
        r ==> pos + word@.len() <= text.len(),
{
    if pos > text.len() || word.len() > text.len() - pos {
        return false;
    }
    let mut k: usize = 0;
    while k < word.len()
        invariant
            pos + word.len() <= text.len(),
            k <= word.len(),
            forall|j: int| 0 <= j < k ==> text@[pos + j] == word@[j],
        decreases word.len() - k,
    {
        if text[pos + k] != word[k] {
            proof {
                let cut = text@.subrange(pos as int, pos + word.len());
                assert(cut[k as int] == text@[pos + k]);
            }
            return false;
        }
        k = k + 1;
    }
    assert(text@.subrange(pos as int, pos + word.len()) =~= word@);
    true
}

/// The offset behind a line ending (`\n` or `\r\n`) at offset `i`, or `i`
/// itself where none stands.
pub open spec fn eol_end(s: Seq<u8>, i: int) -> int {
    if has_byte(s, i, LINE_FEED) {
        i + 1
    } else if has_byte(s, i, CARRIAGE_RETURN) && has_byte(s, i + 1, LINE_FEED) {
        i + 2
    } else {
        i
    }
}

/// Skips one line ending, if one stands at `pos`.
pub fn skip_eol(text: &[u8], pos: usize) -> (end: usize)
    ensures
        end == eol_end(text@, pos as int),
        pos <= end,
        end > pos ==> end <= text.len(),
{
    if is_byte(text, pos, LINE_FEED) {
        pos + 1
    } else if is_byte(text, pos, CARRIAGE_RETURN) && is_byte(text, pos + 1, LINE_FEED) {
        pos + 2
    } else {
        pos
    }
}

/// Whether what a parser returned for the offset `from` of a text of `len`
/// bytes is the outcome that the grammar assigns: the same value and end
/// on a match, the same failure at the same offset otherwise.
pub open spec fn slice_agrees(r: Parsed<&[u8]>, o: Outcome<Seq<u8>>, from: int, len: int) -> bool {
    match r {
        Ok((v, end)) => o == (Outcome::Match { value: v@, end: end as int }) && from <= end && (from
            <= len ==> end <= len),
        Err(e) => failure_agrees(e, o, from, len),
    }
}

/// Whether what a parser returned is the outcome that the grammar assigns,
/// for a parser whose value is a plain one.
pub open spec fn value_agrees<T>(r: Parsed<T>, o: Outcome<T>, from: int, len: int) -> bool {
    match r {
        Ok((v, end)) => o == (Outcome::Match { value: v, end: end as int }) && from <= end && (from
            <= len ==> end <= len),
        Err(e) => failure_agrees(e, o, from, len),
    }
}

/// Whether what a parser returned is the outcome that the grammar assigns,
/// for a parser whose value is a list of slices.
pub open spec fn slices_agree(
    r: Parsed<Vec<&[u8]>>,
    o: Outcome<Seq<Seq<u8>>>,
    from: int,
    len: int,
) -> bool {
    match r {
        Ok((v, end)) => o == (Outcome::Match { value: slices_value(v@), end: end as int }) && from
            <= end && (from <= len ==> end <= len),
        Err(e) => failure_agrees(e, o, from, len),
    }
}

/// The outcome `o` of a repeated rule with the items `head` put in front of
/// what it matched.
pub open spec fn prepend<V>(head: Seq<V>, o: Outcome<Seq<V>>) -> Outcome<Seq<V>> {
    match o {
        Outcome::Match { value, end } => Outcome::Match { value: head + value, end },
        Outcome::Backtrack { at } => Outcome::Backtrack { at },
        Outcome::Cut { at } => Outcome::Cut { at },
    }
}

/// Putting items in front in two steps or in one gives the same outcome.
pub proof fn lemma_prepend_twice<V>(a: Seq<V>, b: Seq<V>, o: Outcome<Seq<V>>)
    ensures
        prepend(a, prepend(b, o)) == prepend(a + b, o),
        prepend(Seq::<V>::empty(), o) == o,
{
    match o {
        Outcome::Match { value, end } => {
            assert(a + (b + value) =~= (a + b) + value);
            assert(Seq::<V>::empty() + value =~= value);
        },
        _ => {},
    }
}

/// The byte strings that a sequence of slices holds.
pub open spec fn slices_value(v: Seq<&[u8]>) -> Seq<Seq<u8>> {
    Seq::new(v.len(), |i: int| v[i]@)
}

/// A failure at `at` that ends the parse.
pub fn cut<T>(at: usize) -> (r: Parsed<T>)
    ensures
        r == Err::<(T, usize), SyntaxError>(SyntaxError { cut: true, at }),
{
    Err(SyntaxError { cut: true, at })
}

/// A failure at `at` that leaves alternatives open.
pub fn backtrack<T>(at: usize) -> (r: Parsed<T>)
    ensures
        r == Err::<(T, usize), SyntaxError>(SyntaxError { cut: false, at }),
{
    Err(SyntaxError { cut: false, at })
}

/// The offset behind the longest run of bytes of class `c` that starts at
/// `from`.
pub open spec fn run_end(s: Seq<u8>, c: Class, from: int) -> int
    decreases s.len() - from,
{
    if 0 <= from < s.len() && in_class(c, s[from]) {
        run_end(s, c, from + 1)
    } else {
        from
    }
}

/// `run_end` is the first offset at or behind `from` that holds no byte of
/// the class.
pub proof fn lemma_run_end(s: Seq<u8>, c: Class, from: int)
    ensures
        from <= run_end(s, c, from),
        from <= s.len() ==> run_end(s, c, from) <= s.len(),
        forall|i: int| from <= i < run_end(s, c, from) ==> 0 <= i < s.len() && in_class(c, s[i]),
        match byte_at(s, run_end(s, c, from)) {
            Some(b) => !in_class(c, b),
            None => true,
        },
    decreases s.len() - from,
{
    if 0 <= from < s.len() && in_class(c, s[from]) {
        lemma_run_end(s, c, from + 1);
    }
}

/// A run that starts on a byte of its class is not empty.
pub proof fn lemma_run_starts(s: Seq<u8>, c: Class, from: int)
    requires
        0 <= from < s.len(),
        in_class(c, s[from]),
    ensures
        from < run_end(s, c, from) <= s.len(),
{
    lemma_run_end(s, c, from + 1);
}

/// Skips the longest run of bytes of class `c` that starts at `from`.
pub fn skip_run(text: &[u8], c: Class, from: usize) -> (end: usize)
    ensures
        end == run_end(text@, c, from as int),
        from <= end,
        from <= text.len() ==> end <= text.len(),
        from >= text.len() ==> end == from,
{
    let mut i: usize = from;
    while i < text.len() && class_has(c, text[i])
        invariant
            from <= i,
            from <= text.len() ==> i <= text.len(),
            from >= text.len() ==> i == from,
            run_end(text@, c, from as int) == run_end(text@, c, i as int),
        decreases text.len() - i,
    {
        i = i + 1;
    }
    i
}

} // verus!
