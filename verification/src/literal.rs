//! Typed literals of variable bindings.

use crate::prefabs::{parse_identifier, parse_path, spec_parse_identifier, spec_parse_path};
use crate::scan::{
    backtrack, cut, failed, failure_agrees, has_byte, has_word, is_byte, is_word,
    lemma_prepend_twice, lemma_run_end, prepend, run_end, skip_run, slice_agrees, value_agrees,
    Class, Outcome, Parsed, APOSTROPHE, BACKSLASH, COMMA, DOT, EQUALS, MINUS, PAREN_CLOSE, PLUS,
    QUOTE, SPACE, TAB,
};
use vstd::prelude::*;
use vstd::slice::slice_subrange;

verus! {

/// A value bound to a variable of a prefab. Each slice is a piece of the
/// text that was parsed.
#[derive(Debug, PartialEq)]
pub enum Literal<'s> {
    /// A number, as the text spells it: a decimal number with an optional
    /// exponent, or `nan`, `inf` or `infinity`.
    Number(&'s [u8]),
    /// A string, without its quotes and with its escapes as written.
    String(&'s [u8]),
    /// A path, with its leading `/`.
    Path(&'s [u8]),
    /// The name of a file, without its quotes and with its escapes as
    /// written.
    File(&'s [u8]),
    /// `null`
    Null,
    /// What was taken for no other kind of literal, as written.
    Fallback(&'s [u8]),
    /// The items of a list, in their order.
    List(Vec<Literal<'s>>),
    /// The pairs of an associative list, in their order. A key may occur
    /// more than once.
    AssocList(Vec<(Literal<'s>, Literal<'s>)>),
}

/// The mathematical value of a [`Literal`].
pub enum LiteralValue {
    Number(Seq<u8>),
    String(Seq<u8>),
    Path(Seq<u8>),
    File(Seq<u8>),
    Null,
    Fallback(Seq<u8>),
    List(Seq<LiteralValue>),
    AssocList(Seq<(LiteralValue, LiteralValue)>),
}

/// The value of a literal: the bytes of its token, or the values of its
/// items in their order.
pub open spec fn literal_value(l: Literal) -> LiteralValue
    decreases l,
{
    match l {
        Literal::Number(t) => LiteralValue::Number(t@),
        Literal::String(t) => LiteralValue::String(t@),
        Literal::Path(t) => LiteralValue::Path(t@),
        Literal::File(t) => LiteralValue::File(t@),
        Literal::Null => LiteralValue::Null,
        Literal::Fallback(t) => LiteralValue::Fallback(t@),
        Literal::List(items) => LiteralValue::List(
            Seq::new(
                items@.len(),
                |i: int|
                    if 0 <= i < items@.len() {
                        literal_value(items@[i])
                    } else {
                        LiteralValue::Null
                    },
            ),
        ),
        Literal::AssocList(pairs) => LiteralValue::AssocList(
            Seq::new(
                pairs@.len(),
                |i: int|
                    if 0 <= i < pairs@.len() {
                        pair_value(pairs@[i])
                    } else {
                        (LiteralValue::Null, LiteralValue::Null)
                    },
            ),
        ),
    }
}

/// The values of a key and of what it is bound to.
pub open spec fn pair_value(p: (Literal, Literal)) -> (LiteralValue, LiteralValue)
    decreases p,
{
    (literal_value(p.0), literal_value(p.1))
}

impl<'s> View for Literal<'s> {
    type V = LiteralValue;

    open spec fn view(&self) -> LiteralValue {
        literal_value(*self)
    }
}

/// The values of a sequence of literals.
pub open spec fn literals_value(items: Seq<Literal>) -> Seq<LiteralValue> {
    Seq::new(items.len(), |i: int| literal_value(items[i]))
}

/// The values of a sequence of pairs.
pub open spec fn pairs_value(pairs: Seq<(Literal, Literal)>) -> Seq<
    (LiteralValue, LiteralValue),
> {
    Seq::new(pairs.len(), |i: int| pair_value(pairs[i]))
}

/// The value of a list is the list of the values of its items.
pub proof fn lemma_list_value(items: Vec<Literal>)
    ensures
        literal_value(Literal::List(items)) == LiteralValue::List(literals_value(items@)),
{
    assert(literal_value(Literal::List(items))->List_0 =~= literals_value(items@));
}

/// The value of an associative list is the list of the values of its
/// pairs.
pub proof fn lemma_assoc_value(pairs: Vec<(Literal, Literal)>)
    ensures
        literal_value(Literal::AssocList(pairs)) == LiteralValue::AssocList(pairs_value(pairs@)),
{
    assert(literal_value(Literal::AssocList(pairs))->AssocList_0 =~= pairs_value(pairs@));
}

impl<'s> Clone for Literal<'s> {
    /// A literal of the same value.
    fn clone(&self) -> (r: Self)
        ensures
            literal_value(r) == literal_value(*self),
        decreases *self,
    {
        match self {
            Literal::Number(t) => Literal::Number(t),
            Literal::String(t) => Literal::String(t),
            Literal::Path(t) => Literal::Path(t),
            Literal::File(t) => Literal::File(t),
            Literal::Null => Literal::Null,
            Literal::Fallback(t) => Literal::Fallback(t),
            Literal::List(items) => {
                let mut copy: Vec<Literal<'s>> = Vec::new();
                let mut k: usize = 0;
                while k < items.len()
                    invariant
                        k <= items@.len(),
                        *self == Literal::List(*items),
                        copy@.len() == k,
                        forall|i: int|
                            0 <= i < k ==> literal_value(#[trigger] copy@[i]) == literal_value(
                                items@[i],
                            ),
                    decreases items@.len() - k,
                {
                    proof {
                        assert(decreases_to!(*items => items[k as int]));
                        assert(*self is List);
                        assert(decreases_to!(*self => self->List_0));
                    }
                    let item = items[k].clone();
                    copy.push(item);
                    k = k + 1;
                }
                proof {
                    lemma_list_value(copy);
                    lemma_list_value(*items);
                    assert(literals_value(copy@) =~= literals_value(items@));
                }
                Literal::List(copy)
            },
            Literal::AssocList(pairs) => {
                let mut copy: Vec<(Literal<'s>, Literal<'s>)> = Vec::new();
                let mut k: usize = 0;
                while k < pairs.len()
                    invariant
                        k <= pairs@.len(),
                        *self == Literal::AssocList(*pairs),
                        copy@.len() == k,
                        forall|i: int|
                            0 <= i < k ==> pair_value(#[trigger] copy@[i]) == pair_value(pairs@[i]),
                    decreases pairs@.len() - k,
                {
                    proof {
                        assert(decreases_to!(*pairs => pairs[k as int]));
                        assert(*self is AssocList);
                        assert(decreases_to!(*self => self->AssocList_0));
                        assert(decreases_to!(pairs[k as int] => pairs[k as int].0));
                        assert(decreases_to!(pairs[k as int] => pairs[k as int].1));
                    }
                    let key = pairs[k].0.clone();
                    let value = pairs[k].1.clone();
                    copy.push((key, value));
                    k = k + 1;
                }
                proof {
                    lemma_assoc_value(copy);
                    lemma_assoc_value(*pairs);
                    assert(pairs_value(copy@) =~= pairs_value(pairs@));
                }
                Literal::AssocList(copy)
            },
        }
    }
}

/// The offset of the quote `q` that closes a string whose body starts at
/// `pos`: the first `q` that does not stand behind a backslash which is
/// itself free. A backslash directly before `q` hides that one `q`.
pub open spec fn quote_close(s: Seq<u8>, pos: int, q: u8) -> Option<int>
    decreases s.len() - pos,
{
    if !(0 <= pos < s.len()) {
        None
    } else if s[pos] == BACKSLASH && has_byte(s, pos + 1, q) {
        quote_close(s, pos + 2, q)
    } else if s[pos] == q {
        Some(pos)
    } else {
        quote_close(s, pos + 1, q)
    }
}

/// A quoted token: `q`, a body, `q`. The value is the body with its
/// escapes as they stand in the text.
pub open spec fn spec_quoted(s: Seq<u8>, pos: int, q: u8) -> Outcome<Seq<u8>> {
    if !has_byte(s, pos, q) {
        Outcome::Backtrack { at: pos }
    } else {
        match quote_close(s, pos + 1, q) {
            Some(c) => Outcome::Match { value: s.subrange(pos + 1, c), end: c + 1 },
            None => Outcome::Backtrack { at: s.len() as int },
        }
    }
}

/// Parses a token quoted by `q` at `pos`.
fn parse_quoted<'s>(text: &'s [u8], pos: usize, q: u8) -> (r: Parsed<&'s [u8]>)
    ensures
        slice_agrees(r, spec_quoted(text@, pos as int, q), pos as int, text@.len() as int),
        r matches Ok((_, end)) ==> pos < end,
{
    if !is_byte(text, pos, q) {
        return backtrack(pos);
    }
    let mut i: usize = pos + 1;
    while i < text.len()
        invariant
            pos < i <= text.len(),
            has_byte(text@, pos as int, q),
            quote_close(text@, pos + 1, q) == quote_close(text@, i as int, q),
        decreases text.len() - i,
    {
        if text[i] == BACKSLASH && is_byte(text, i + 1, q) {
            i = i + 2;
        } else if text[i] == q {
            return Ok((slice_subrange(text, pos + 1, i), i + 1));
        } else {
            i = i + 1;
        }
    }
    backtrack(i)
}

/// A string literal: `"…"`, where `\"` does not close it.
pub open spec fn spec_parse_literal_string(s: Seq<u8>, pos: int) -> Outcome<Seq<u8>> {
    spec_quoted(s, pos, QUOTE)
}

/// Parses the string literal at `pos`; the value excludes the quotes.
pub fn parse_literal_string<'s>(text: &'s [u8], pos: usize) -> (r: Parsed<&'s [u8]>)
    ensures
        slice_agrees(
            r,
            spec_parse_literal_string(text@, pos as int),
            pos as int,
            text@.len() as int,
        ),
        r matches Ok((_, end)) ==> pos < end,
{
    parse_quoted(text, pos, QUOTE)
}

/// A file literal: `'…'`, where `\'` does not close it.
pub open spec fn spec_parse_literal_file(s: Seq<u8>, pos: int) -> Outcome<Seq<u8>> {
    spec_quoted(s, pos, APOSTROPHE)
}

/// Parses the file literal at `pos`; the value excludes the quotes.
pub fn parse_literal_file<'s>(text: &'s [u8], pos: usize) -> (r: Parsed<&'s [u8]>)
    ensures
        slice_agrees(r, spec_parse_literal_file(text@, pos as int), pos as int, text@.len() as int),
        r matches Ok((_, end)) ==> pos < end,
{
    parse_quoted(text, pos, APOSTROPHE)
}

/// The offset behind a sign at `pos`, or `pos` where none stands.
pub open spec fn sign_end(s: Seq<u8>, pos: int) -> int {
    if has_byte(s, pos, PLUS) || has_byte(s, pos, MINUS) {
        pos + 1
    } else {
        pos
    }
}

/// The offset behind the digits and the point of a decimal number at
/// `pos`: digits with an optional point and more digits, or a point and
/// digits.
pub open spec fn mantissa_end(s: Seq<u8>, pos: int) -> Option<int> {
    let whole = run_end(s, Class::Digit, pos);
    if whole > pos {
        if has_byte(s, whole, DOT) {
            Some(run_end(s, Class::Digit, whole + 1))
        } else {
            Some(whole)
        }
    } else if has_byte(s, pos, DOT) && run_end(s, Class::Digit, pos + 1) > pos + 1 {
        Some(run_end(s, Class::Digit, pos + 1))
    } else {
        None
    }
}

/// Whether the letter `lower` stands at `pos` in either case.
pub open spec fn has_letter(s: Seq<u8>, pos: int, lower: u8) -> bool {
    has_byte(s, pos, lower) || has_byte(s, pos, (lower - 0x20) as u8)
}

/// Whether the word `lower`, given in lower case, stands at `pos` in any
/// mix of cases.
pub open spec fn has_word_caseless(s: Seq<u8>, pos: int, lower: Seq<u8>) -> bool {
    forall|k: int| 0 <= k < lower.len() ==> has_letter(s, pos + k, #[trigger] lower[k])
}

/// A decimal number with an optional exponent: the end of the token. An
/// `e` behind the digits commits to an exponent: where no digit follows
/// it, the parse is cut.
pub open spec fn spec_decimal(s: Seq<u8>, pos: int) -> Outcome<()> {
    match mantissa_end(s, sign_end(s, pos)) {
        None => Outcome::Backtrack { at: sign_end(s, pos) },
        Some(m) => if has_letter(s, m, 0x65) {
            let digits = sign_end(s, m + 1);
            if run_end(s, Class::Digit, digits) > digits {
                Outcome::Match { value: (), end: run_end(s, Class::Digit, digits) }
            } else {
                Outcome::Cut { at: digits }
            }
        } else {
            Outcome::Match { value: (), end: m }
        },
    }
}

/// The bytes of `nan`.
pub open spec fn word_nan() -> Seq<u8> {
    seq![0x6e, 0x61, 0x6e]
}

/// The bytes of `inf`.
pub open spec fn word_inf() -> Seq<u8> {
    seq![0x69, 0x6e, 0x66]
}

/// The bytes of `infinity`.
pub open spec fn word_infinity() -> Seq<u8> {
    seq![0x69, 0x6e, 0x66, 0x69, 0x6e, 0x69, 0x74, 0x79]
}

/// A number token: a decimal number with an optional exponent, or `nan`,
/// or `infinity` or `inf` with an optional sign, the three words in any
/// mix of cases. The value is the token as it stands in the text.
pub open spec fn spec_parse_literal_number(s: Seq<u8>, pos: int) -> Outcome<Seq<u8>> {
    match spec_decimal(s, pos) {
        Outcome::Match { value: _, end } => Outcome::Match { value: s.subrange(pos, end), end },
        Outcome::Cut { at } => Outcome::Cut { at },
        Outcome::Backtrack { at: _ } => if has_word_caseless(s, pos, word_nan()) {
            Outcome::Match { value: s.subrange(pos, pos + 3), end: pos + 3 }
        } else if has_word_caseless(s, sign_end(s, pos), word_infinity()) {
            Outcome::Match {
                value: s.subrange(pos, sign_end(s, pos) + 8),
                end: sign_end(s, pos) + 8,
            }
        } else if has_word_caseless(s, sign_end(s, pos), word_inf()) {
            Outcome::Match {
                value: s.subrange(pos, sign_end(s, pos) + 3),
                end: sign_end(s, pos) + 3,
            }
        } else {
            Outcome::Backtrack { at: sign_end(s, pos) }
        },
    }
}

/// Skips a sign, if one stands at `pos`.
fn skip_sign(text: &[u8], pos: usize) -> (end: usize)
    ensures
        end == sign_end(text@, pos as int),
        pos <= end,
        end > pos ==> end <= text.len(),
{
    if is_byte(text, pos, PLUS) || is_byte(text, pos, MINUS) {
        pos + 1
    } else {
        pos
    }
}

/// Whether the letter `lower` stands at `pos` in either case.
fn is_letter(text: &[u8], pos: usize, lower: u8) -> (r: bool)
    requires
        0x61 <= lower <= 0x7a,
    ensures
        r == has_letter(text@, pos as int, lower),
        r ==> pos < text.len(),
{
    is_byte(text, pos, lower) || is_byte(text, pos, lower - 0x20)
}

/// The end of the decimal number at `pos`.
fn scan_decimal(text: &[u8], pos: usize) -> (r: Parsed<()>)
    ensures
        value_agrees(r, spec_decimal(text@, pos as int), pos as int, text@.len() as int),
        r matches Ok((_, end)) ==> pos < end,
{
    let start = skip_sign(text, pos);
    let whole = skip_run(text, Class::Digit, start);
    let mantissa = if whole > start {
        if is_byte(text, whole, DOT) {
            skip_run(text, Class::Digit, whole + 1)
        } else {
            whole
        }
    } else if is_byte(text, start, DOT) {
        let fraction = skip_run(text, Class::Digit, start + 1);
        if fraction == start + 1 {
            return backtrack(start);
        }
        fraction
    } else {
        return backtrack(start);
    };
    if is_letter(text, mantissa, 0x65) {
        let digits = skip_sign(text, mantissa + 1);
        let end = skip_run(text, Class::Digit, digits);
        if end == digits {
            return cut(digits);
        }
        Ok(((), end))
    } else {
        Ok(((), mantissa))
    }
}

/// Whether `inf` stands at `pos` in any mix of cases.
fn is_inf(text: &[u8], pos: usize) -> (r: bool)
    ensures
        r == has_word_caseless(text@, pos as int, word_inf()),
        r ==> pos + 3 <= text.len(),
{
    let r = is_letter(text, pos, 0x69) && is_letter(text, pos + 1, 0x6e) && is_letter(
        text,
        pos + 2,
        0x66,
    );
    proof {
        let w = word_inf();
        assert(w[0] == 0x69 && w[1] == 0x6e && w[2] == 0x66);
        if !r {
            assert(!has_letter(text@, pos + 0, w[0]) || !has_letter(text@, pos + 1, w[1])
                || !has_letter(text@, pos + 2, w[2]));
        }
    }
    r
}

/// Whether `inity` stands at `pos` in any mix of cases.
fn is_infinity_tail(text: &[u8], pos: usize) -> (r: bool)
    ensures
        r == (has_letter(text@, pos as int, 0x69) && has_letter(text@, pos + 1, 0x6e)
            && has_letter(text@, pos + 2, 0x69) && has_letter(text@, pos + 3, 0x74) && has_letter(
            text@,
            pos + 4,
            0x79,
        )),
        r ==> pos + 5 <= text.len(),
{
    is_letter(text, pos, 0x69) && is_letter(text, pos + 1, 0x6e) && is_letter(text, pos + 2, 0x69)
        && is_letter(text, pos + 3, 0x74) && is_letter(text, pos + 4, 0x79)
}

/// Parses the number token at `pos`.
pub fn parse_literal_number<'s>(text: &'s [u8], pos: usize) -> (r: Parsed<&'s [u8]>)
    ensures
        slice_agrees(
            r,
            spec_parse_literal_number(text@, pos as int),
            pos as int,
            text@.len() as int,
        ),
        r matches Ok((_, end)) ==> pos < end,
{
    match scan_decimal(text, pos) {
        Ok((_, end)) => {
            return Ok((slice_subrange(text, pos, end), end));
        },
        Err(e) => {
            if e.cut {
                return Err(e);
            }
        },
    }
    let nan = is_letter(text, pos, 0x6e) && is_letter(text, pos + 1, 0x61) && is_letter(
        text,
        pos + 2,
        0x6e,
    );
    proof {
        let w = word_nan();
        assert(w[0] == 0x6e && w[1] == 0x61 && w[2] == 0x6e);
        if !nan {
            assert(!has_letter(text@, pos + 0, w[0]) || !has_letter(text@, pos + 1, w[1])
                || !has_letter(text@, pos + 2, w[2]));
        }
    }
    if nan {
        return Ok((slice_subrange(text, pos, pos + 3), pos + 3));
    }
    let start = skip_sign(text, pos);
    if is_inf(text, start) {
        let long = is_infinity_tail(text, start + 3);
        proof {
            let w = word_infinity();
            assert(w[0] == 0x69 && w[1] == 0x6e && w[2] == 0x66 && w[3] == 0x69 && w[4] == 0x6e
                && w[5] == 0x69 && w[6] == 0x74 && w[7] == 0x79);
            let v = word_inf();
            assert(has_letter(text@, start + 0, v[0]) && has_letter(text@, start + 1, v[1])
                && has_letter(text@, start + 2, v[2]));
            if !long {
                assert(!has_letter(text@, start + 3, w[3]) || !has_letter(text@, start + 4, w[4])
                    || !has_letter(text@, start + 5, w[5]) || !has_letter(text@, start + 6, w[6])
                    || !has_letter(text@, start + 7, w[7]));
            }
        }
        if long {
            return Ok((slice_subrange(text, pos, start + 8), start + 8));
        }
        return Ok((slice_subrange(text, pos, start + 3), start + 3));
    }
    proof {
        let w = word_infinity();
        let v = word_inf();
        assert(w[0] == v[0] && w[1] == v[1] && w[2] == v[2]);
        if has_word_caseless(text@, start as int, w) {
            assert(has_letter(text@, start + 0, w[0]) && has_letter(text@, start + 1, w[1])
                && has_letter(text@, start + 2, w[2]));
        }
    }
    backtrack(start)
}

/// The bytes of `list(`.
pub open spec fn word_list() -> Seq<u8> {
    seq![0x6c, 0x69, 0x73, 0x74, 0x28]
}

/// The bytes of `null`.
pub open spec fn word_null() -> Seq<u8> {
    seq![0x6e, 0x75, 0x6c, 0x6c]
}

/// A bare key of an associative list: an identifier with a blank or `=`
/// behind it, which stays unread.
pub open spec fn spec_parse_bare_list_key(s: Seq<u8>, pos: int) -> Outcome<LiteralValue> {
    match spec_parse_identifier(s, pos) {
        Outcome::Match { value, end } => if has_byte(s, end, SPACE) || has_byte(s, end, TAB)
            || has_byte(s, end, EQUALS) {
            Outcome::Match { value: LiteralValue::Fallback(value), end }
        } else {
            Outcome::Backtrack { at: end }
        },
        o => failed(o),
    }
}

/// The bare word at `pos`: the bytes up to the next `,`, `)`, `=`, space
/// or tab, or to the end of the text. It may be empty.
pub open spec fn spec_bare_word(s: Seq<u8>, pos: int) -> Outcome<LiteralValue> {
    if 0 <= pos <= s.len() {
        Outcome::Match {
            value: LiteralValue::Fallback(s.subrange(pos, run_end(s, Class::Token, pos))),
            end: run_end(s, Class::Token, pos),
        }
    } else {
        Outcome::Match { value: LiteralValue::Fallback(Seq::empty()), end: pos }
    }
}

/// The offset behind `=` and the blanks around it, where `=` is the first
/// byte behind the blanks at `pos`.
pub open spec fn binder_end(s: Seq<u8>, pos: int) -> Option<int> {
    let at = run_end(s, Class::Blank, pos);
    if has_byte(s, at, EQUALS) {
        Some(run_end(s, Class::Blank, at + 1))
    } else {
        None
    }
}

/// The offset behind `,` or `)` and the blanks around it, where one of the
/// two is the first byte behind the blanks at `pos`.
pub open spec fn separator_end(s: Seq<u8>, pos: int) -> Option<int> {
    let at = run_end(s, Class::Blank, pos);
    if has_byte(s, at, COMMA) || has_byte(s, at, PAREN_CLOSE) {
        Some(run_end(s, Class::Blank, at + 1))
    } else {
        None
    }
}

/// Whether the separator behind the blanks at `pos` is the `)` that closes
/// the list.
pub open spec fn closes(s: Seq<u8>, pos: int) -> bool {
    has_byte(s, run_end(s, Class::Blank, pos), PAREN_CLOSE)
}

/// A literal: the first that matches of a number, a string, a list, a
/// path, a file and `null`. Where none matches, the literal is the bare
/// word at `pos` as a fallback.
pub open spec fn spec_parse_literal(s: Seq<u8>, pos: int) -> Outcome<LiteralValue>
    decreases s.len() - pos, 3int,
{
    match spec_parse_literal_number(s, pos) {
        Outcome::Match { value, end } => Outcome::Match { value: LiteralValue::Number(value), end },
        Outcome::Cut { at } => Outcome::Cut { at },
        Outcome::Backtrack { at: _ } => match spec_parse_literal_string(s, pos) {
            Outcome::Match { value, end } => Outcome::Match {
                value: LiteralValue::String(value),
                end,
            },
            _ => match spec_parse_literal_list(s, pos) {
                Outcome::Match { value, end } => Outcome::Match { value, end },
                Outcome::Cut { at } => Outcome::Cut { at },
                Outcome::Backtrack { at: _ } => match spec_parse_path(s, pos) {
                    Outcome::Match { value, end } => Outcome::Match {
                        value: LiteralValue::Path(value),
                        end,
                    },
                    _ => match spec_parse_literal_file(s, pos) {
                        Outcome::Match { value, end } => Outcome::Match {
                            value: LiteralValue::File(value),
                            end,
                        },
                        _ => if has_word(s, pos, word_null()) {
                            Outcome::Match { value: LiteralValue::Null, end: pos + 4 }
                        } else {
                            spec_bare_word(s, pos)
                        },
                    },
                },
            },
        },
    }
}

/// A list: `list(` and then either `)` at once, which is the empty list,
/// or entries of an associative list, or, where those do not match, items
/// of a plain list.
pub open spec fn spec_parse_literal_list(s: Seq<u8>, pos: int) -> Outcome<LiteralValue>
    decreases s.len() - pos, 2int,
{
    if !has_word(s, pos, word_list()) {
        Outcome::Backtrack { at: pos }
    } else if has_byte(s, pos + 5, PAREN_CLOSE) {
        Outcome::Match { value: LiteralValue::List(Seq::empty()), end: pos + 6 }
    } else {
        match spec_entries(s, pos + 5, true) {
            Outcome::Match { value, end } => Outcome::Match {
                value: LiteralValue::AssocList(value),
                end,
            },
            Outcome::Cut { at } => Outcome::Cut { at },
            Outcome::Backtrack { at: _ } => match spec_items(s, pos + 5, true) {
                Outcome::Match { value, end } => Outcome::Match {
                    value: LiteralValue::List(value),
                    end,
                },
                o => failed(o),
            },
        }
    }
}

/// The entries of an associative list from `pos` on, as many as match, up
/// to the one that `)` closes. The first must be there when `first` is
/// set. Each entry reads at least one byte.
pub open spec fn spec_entries(s: Seq<u8>, pos: int, first: bool) -> Outcome<
    Seq<(LiteralValue, LiteralValue)>,
>
    decreases s.len() - pos, 5int,
{
    match spec_entry(s, pos) {
        Outcome::Match { value, end } => if !(pos < end <= s.len()) {
            Outcome::Backtrack { at: pos }
        } else if value.1 {
            Outcome::Match { value: seq![value.0], end }
        } else {
            prepend(seq![value.0], spec_entries(s, end, false))
        },
        Outcome::Cut { at } => Outcome::Cut { at },
        Outcome::Backtrack { at } => if first {
            Outcome::Backtrack { at }
        } else {
            Outcome::Match { value: Seq::empty(), end: pos }
        },
    }
}

/// One entry of an associative list: a bare key or else a literal, `=`, a
/// literal, and `,` or `)`, with blanks allowed around `=` and around the
/// separator. The flag tells whether the separator is `)`.
pub open spec fn spec_entry(s: Seq<u8>, pos: int) -> Outcome<((LiteralValue, LiteralValue), bool)>
    decreases s.len() - pos, 4int,
{
    let key = match spec_parse_bare_list_key(s, pos) {
        Outcome::Match { value, end } => Outcome::Match { value, end },
        _ => spec_parse_literal(s, pos),
    };
    match key {
        Outcome::Match { value: k, end: key_end } => match binder_end(s, key_end) {
            Some(start) => if pos < start <= s.len() {
                match spec_parse_literal(s, start) {
                    Outcome::Match { value: v, end: value_end } => match separator_end(
                        s,
                        value_end,
                    ) {
                        Some(end) => Outcome::Match { value: ((k, v), closes(s, value_end)), end },
                        None => Outcome::Backtrack { at: value_end },
                    },
                    o => failed(o),
                }
            } else {
                Outcome::Backtrack { at: key_end }
            },
            None => Outcome::Backtrack { at: key_end },
        },
        o => failed(o),
    }
}

/// The items of a plain list from `pos` on, as many as match, up to the
/// one that `)` closes. The first must be there when `first` is set. Each
/// item reads at least one byte.
pub open spec fn spec_items(s: Seq<u8>, pos: int, first: bool) -> Outcome<Seq<LiteralValue>>
    decreases s.len() - pos, 5int,
{
    match spec_item(s, pos) {
        Outcome::Match { value, end } => if !(pos < end <= s.len()) {
            Outcome::Backtrack { at: pos }
        } else if value.1 {
            Outcome::Match { value: seq![value.0], end }
        } else {
            prepend(seq![value.0], spec_items(s, end, false))
        },
        Outcome::Cut { at } => Outcome::Cut { at },
        Outcome::Backtrack { at } => if first {
            Outcome::Backtrack { at }
        } else {
            Outcome::Match { value: Seq::empty(), end: pos }
        },
    }
}

/// One item of a plain list: a literal, and `,` or `)` with blanks allowed
/// around it. The flag tells whether the separator is `)`.
pub open spec fn spec_item(s: Seq<u8>, pos: int) -> Outcome<(LiteralValue, bool)>
    decreases s.len() - pos, 4int,
{
    match spec_parse_literal(s, pos) {
        Outcome::Match { value, end: value_end } => match separator_end(s, value_end) {
            Some(end) => Outcome::Match { value: (value, closes(s, value_end)), end },
            None => Outcome::Backtrack { at: value_end },
        },
        o => failed(o),
    }
}

/// Whether an exec literal agrees with the outcome that the grammar
/// assigns.
pub open spec fn literal_agrees(
    r: Parsed<Literal>,
    o: Outcome<LiteralValue>,
    from: int,
    len: int,
) -> bool {
    match r {
        Ok((v, end)) => o == (Outcome::Match { value: literal_value(v), end: end as int }) && from
            <= end && (from <= len ==> end <= len),
        Err(e) => failure_agrees(e, o, from, len),
    }
}

/// Whether an exec item and its flag agree with the outcome that the
/// grammar assigns.
pub open spec fn item_agrees(
    r: Parsed<(Literal, bool)>,
    o: Outcome<(LiteralValue, bool)>,
    from: int,
    len: int,
) -> bool {
    match r {
        Ok((v, end)) => o == (Outcome::Match {
            value: (literal_value(v.0), v.1),
            end: end as int,
        }) && from < end <= len,
        Err(e) => failure_agrees(e, o, from, len),
    }
}

/// Whether an exec entry and its flag agree with the outcome that the
/// grammar assigns.
pub open spec fn entry_agrees(
    r: Parsed<((Literal, Literal), bool)>,
    o: Outcome<((LiteralValue, LiteralValue), bool)>,
    from: int,
    len: int,
) -> bool {
    match r {
        Ok((v, end)) => o == (Outcome::Match { value: (pair_value(v.0), v.1), end: end as int })
            && from < end <= len,
        Err(e) => failure_agrees(e, o, from, len),
    }
}

/// Whether exec items agree with the outcome that the grammar assigns.
pub open spec fn literals_agree(
    r: Parsed<Vec<Literal>>,
    o: Outcome<Seq<LiteralValue>>,
    from: int,
    len: int,
) -> bool {
    match r {
        Ok((v, end)) => o == (Outcome::Match { value: literals_value(v@), end: end as int })
            && from <= end && (from <= len ==> end <= len),
        Err(e) => failure_agrees(e, o, from, len),
    }
}

/// Whether exec entries agree with the outcome that the grammar assigns.
pub open spec fn pairs_agree(
    r: Parsed<Vec<(Literal, Literal)>>,
    o: Outcome<Seq<(LiteralValue, LiteralValue)>>,
    from: int,
    len: int,
) -> bool {
    match r {
        Ok((v, end)) => o == (Outcome::Match { value: pairs_value(v@), end: end as int }) && from
            <= end && (from <= len ==> end <= len),
        Err(e) => failure_agrees(e, o, from, len),
    }
}

/// Parses a bare key of an associative list at `pos`.
pub fn parse_bare_list_key<'s>(text: &'s [u8], pos: usize) -> (r: Parsed<Literal<'s>>)
    ensures
        literal_agrees(
            r,
            spec_parse_bare_list_key(text@, pos as int),
            pos as int,
            text@.len() as int,
        ),
{
    let (word, end) = match parse_identifier(text, pos) {
        Ok(found) => found,
        Err(e) => {
            return backtrack(e.at);
        },
    };
    if is_byte(text, end, SPACE) || is_byte(text, end, TAB) || is_byte(text, end, EQUALS) {
        Ok((Literal::Fallback(word), end))
    } else {
        backtrack(end)
    }
}

/// Takes the bare word at `pos`.
fn bare_word<'s>(text: &'s [u8], pos: usize) -> (r: Parsed<Literal<'s>>)
    ensures
        literal_agrees(r, spec_bare_word(text@, pos as int), pos as int, text@.len() as int),
        r is Ok,
{
    if pos <= text.len() {
        let end = skip_run(text, Class::Token, pos);
        Ok((Literal::Fallback(slice_subrange(text, pos, end)), end))
    } else {
        let none = slice_subrange(text, 0, 0);
        assert(none@ =~= Seq::<u8>::empty());
        Ok((Literal::Fallback(none), pos))
    }
}

/// Skips blanks, `=` and blanks.
fn skip_binder(text: &[u8], pos: usize) -> (r: Option<usize>)
    ensures
        r is Some <==> binder_end(text@, pos as int) is Some,
        r matches Some(end) ==> pos < end <= text.len() && binder_end(text@, pos as int) == Some(
            end as int,
        ),
{
    let at = skip_run(text, Class::Blank, pos);
    if is_byte(text, at, EQUALS) {
        Some(skip_run(text, Class::Blank, at + 1))
    } else {
        None
    }
}

/// Skips blanks, `,` or `)`, and blanks, and tells whether it was `)`.
fn skip_separator(text: &[u8], pos: usize) -> (r: Option<(usize, bool)>)
    ensures
        r is Some <==> separator_end(text@, pos as int) is Some,
        r matches Some(found) ==> pos < found.0 <= text.len() && separator_end(text@, pos as int)
            == Some(found.0 as int) && found.1 == closes(text@, pos as int),
{
    let at = skip_run(text, Class::Blank, pos);
    if is_byte(text, at, COMMA) {
        Some((skip_run(text, Class::Blank, at + 1), false))
    } else if is_byte(text, at, PAREN_CLOSE) {
        Some((skip_run(text, Class::Blank, at + 1), true))
    } else {
        None
    }
}

/// Parses the literal at `pos`. A literal never fails in a way that leaves
/// alternatives open: what nothing else matches is a fallback.
pub fn parse_literal<'s>(text: &'s [u8], pos: usize) -> (r: Parsed<Literal<'s>>)
    ensures
        literal_agrees(r, spec_parse_literal(text@, pos as int), pos as int, text@.len() as int),
        r matches Err(e) ==> e.cut,
    decreases text@.len() - pos, 3int,
{
    match parse_literal_number(text, pos) {
        Ok((token, end)) => {
            return Ok((Literal::Number(token), end));
        },
        Err(e) => {
            if e.cut {
                return Err(e);
            }
        },
    }
    match parse_literal_string(text, pos) {
        Ok((body, end)) => {
            return Ok((Literal::String(body), end));
        },
        Err(_) => {},
    }
    match parse_literal_list(text, pos) {
        Ok(found) => {
            return Ok(found);
        },
        Err(e) => {
            if e.cut {
                return Err(e);
            }
        },
    }
    match parse_path(text, pos) {
        Ok((path, end)) => {
            return Ok((Literal::Path(path), end));
        },
        Err(_) => {},
    }
    match parse_literal_file(text, pos) {
        Ok((body, end)) => {
            return Ok((Literal::File(body), end));
        },
        Err(_) => {},
    }
    let null: [u8; 4] = [0x6e, 0x75, 0x6c, 0x6c];
    assert(null@ =~= word_null());
    if is_word(text, pos, null.as_slice()) {
        return Ok((Literal::Null, pos + 4));
    }
    bare_word(text, pos)
}

/// Parses the list at `pos`.
pub fn parse_literal_list<'s>(text: &'s [u8], pos: usize) -> (r: Parsed<Literal<'s>>)
    ensures
        literal_agrees(
            r,
            spec_parse_literal_list(text@, pos as int),
            pos as int,
            text@.len() as int,
        ),
    decreases text@.len() - pos, 2int,
{
    let list: [u8; 5] = [0x6c, 0x69, 0x73, 0x74, 0x28];
    assert(list@ =~= word_list());
    if !is_word(text, pos, list.as_slice()) {
        return backtrack(pos);
    }
    let start = pos + 5;
    if is_byte(text, start, PAREN_CLOSE) {
        let none: Vec<Literal<'s>> = Vec::new();
        proof {
            lemma_list_value(none);
            assert(literals_value(none@) =~= Seq::<LiteralValue>::empty());
        }
        return Ok((Literal::List(none), start + 1));
    }
    match parse_entries(text, start) {
        Ok((pairs, end)) => {
            proof {
                lemma_assoc_value(pairs);
            }
            return Ok((Literal::AssocList(pairs), end));
        },
        Err(e) => {
            if e.cut {
                return Err(e);
            }
        },
    }
    match parse_items(text, start) {
        Ok((items, end)) => {
            proof {
                lemma_list_value(items);
            }
            Ok((Literal::List(items), end))
        },
        Err(e) => Err(e),
    }
}

/// Parses one entry of an associative list at `pos`.
fn parse_entry<'s>(text: &'s [u8], pos: usize) -> (r: Parsed<((Literal<'s>, Literal<'s>), bool)>)
    ensures
        entry_agrees(r, spec_entry(text@, pos as int), pos as int, text@.len() as int),
    decreases text@.len() - pos, 4int,
{
    let (key, key_end) = match parse_bare_list_key(text, pos) {
        Ok(found) => found,
        Err(_) => match parse_literal(text, pos) {
            Ok(found) => found,
            Err(e) => {
                return Err(e);
            },
        },
    };
    let start = match skip_binder(text, key_end) {
        Some(start) => start,
        None => {
            return backtrack(key_end);
        },
    };
    let (value, value_end) = match parse_literal(text, start) {
        Ok(found) => found,
        Err(e) => {
            return Err(e);
        },
    };
    match skip_separator(text, value_end) {
        Some((end, closed)) => Ok((((key, value), closed), end)),
        None => backtrack(value_end),
    }
}

/// Parses the entries of an associative list at `pos`: one or more.
fn parse_entries<'s>(text: &'s [u8], pos: usize) -> (r: Parsed<Vec<(Literal<'s>, Literal<'s>)>>)
    ensures
        pairs_agree(r, spec_entries(text@, pos as int, true), pos as int, text@.len() as int),
    decreases text@.len() - pos, 5int,
{
    let mut pairs: Vec<(Literal<'s>, Literal<'s>)> = Vec::new();
    let mut cur: usize = pos;
    let mut first = true;
    loop
        invariant
            pos <= cur,
            pos <= text@.len() ==> cur <= text@.len(),
            first ==> cur == pos,
            spec_entries(text@, pos as int, true) == prepend(
                pairs_value(pairs@),
                spec_entries(text@, cur as int, first),
            ),
        decreases text@.len() - cur,
    {
        match parse_entry(text, cur) {
            Ok(((pair, closed), end)) => {
                let ghost before = pairs@;
                let ghost pv = pair_value(pair);
                pairs.push(pair);
                proof {
                    lemma_prepend_twice(
                        pairs_value(before),
                        seq![pv],
                        spec_entries(text@, end as int, false),
                    );
                    assert(pairs_value(pairs@) =~= pairs_value(before) + seq![pv]);
                }
                if closed {
                    return Ok((pairs, end));
                }
                cur = end;
                first = false;
            },
            Err(e) => {
                if e.cut || first {
                    return Err(e);
                }
                proof {
                    lemma_prepend_twice(
                        pairs_value(pairs@),
                        Seq::empty(),
                        Outcome::Backtrack { at: 0 },
                    );
                    assert(pairs_value(pairs@) + Seq::<(LiteralValue, LiteralValue)>::empty()
                        =~= pairs_value(pairs@));
                }
                return Ok((pairs, cur));
            },
        }
    }
}

/// Parses one item of a plain list at `pos`.
fn parse_item<'s>(text: &'s [u8], pos: usize) -> (r: Parsed<(Literal<'s>, bool)>)
    ensures
        item_agrees(r, spec_item(text@, pos as int), pos as int, text@.len() as int),
    decreases text@.len() - pos, 4int,
{
    let (value, value_end) = match parse_literal(text, pos) {
        Ok(found) => found,
        Err(e) => {
            return Err(e);
        },
    };
    match skip_separator(text, value_end) {
        Some((end, closed)) => Ok(((value, closed), end)),
        None => backtrack(value_end),
    }
}

/// Parses the items of a plain list at `pos`: one or more.
fn parse_items<'s>(text: &'s [u8], pos: usize) -> (r: Parsed<Vec<Literal<'s>>>)
    ensures
        literals_agree(r, spec_items(text@, pos as int, true), pos as int, text@.len() as int),
    decreases text@.len() - pos, 5int,
{
    let mut items: Vec<Literal<'s>> = Vec::new();
    let mut cur: usize = pos;
    let mut first = true;
    loop
        invariant
            pos <= cur,
            pos <= text@.len() ==> cur <= text@.len(),
            first ==> cur == pos,
            spec_items(text@, pos as int, true) == prepend(
                literals_value(items@),
                spec_items(text@, cur as int, first),
            ),
        decreases text@.len() - cur,
    {
        match parse_item(text, cur) {
            Ok(((item, closed), end)) => {
                let ghost before = items@;
                let ghost iv = literal_value(item);
                items.push(item);
                proof {
                    lemma_prepend_twice(
                        literals_value(before),
                        seq![iv],
                        spec_items(text@, end as int, false),
                    );
                    assert(literals_value(items@) =~= literals_value(before) + seq![iv]);
                }
                if closed {
                    return Ok((items, end));
                }
                cur = end;
                first = false;
            },
            Err(e) => {
                if e.cut || first {
                    return Err(e);
                }
                proof {
                    lemma_prepend_twice(
                        literals_value(items@),
                        Seq::empty(),
                        Outcome::Backtrack { at: 0 },
                    );
                    assert(literals_value(items@) + Seq::<LiteralValue>::empty()
                        =~= literals_value(items@));
                }
                return Ok((items, cur));
            },
        }
    }
}

/// A literal is total: its parse matches or is cut, and never fails in a
/// way that leaves alternatives open. What nothing else matches is a
/// fallback.
pub proof fn lemma_literal_total(s: Seq<u8>, pos: int)
    ensures
        !(spec_parse_literal(s, pos) is Backtrack),
{
}

/// The quote that closes a string stands inside the text, at or behind
/// the start of the body.
proof fn lemma_quote_close(s: Seq<u8>, pos: int, q: u8)
    ensures
        quote_close(s, pos, q) matches Some(c) ==> pos <= c < s.len(),
    decreases s.len() - pos,
{
    if 0 <= pos < s.len() {
        if s[pos] == BACKSLASH && has_byte(s, pos + 1, q) {
            lemma_quote_close(s, pos + 2, q);
        } else if s[pos] != q {
            lemma_quote_close(s, pos + 1, q);
        }
    }
}

/// A number token ends inside the text, behind where it starts.
proof fn lemma_number_bounds(s: Seq<u8>, pos: int)
    requires
        0 <= pos <= s.len(),
    ensures
        spec_parse_literal_number(s, pos) matches Outcome::Match { value, end } ==> pos < end
            <= s.len(),
{
    let start = sign_end(s, pos);
    lemma_run_end(s, Class::Digit, start);
    lemma_run_end(s, Class::Digit, start + 1);
    let whole = run_end(s, Class::Digit, start);
    lemma_run_end(s, Class::Digit, whole + 1);
    if let Some(m) = mantissa_end(s, start) {
        lemma_run_end(s, Class::Digit, sign_end(s, m + 1));
    }
    let nan = word_nan();
    let inf = word_inf();
    let infinity = word_infinity();
    if has_word_caseless(s, pos, nan) {
        assert(has_letter(s, pos + 2, nan[2]));
    }
    if has_word_caseless(s, start, infinity) {
        assert(has_letter(s, start + 7, infinity[7]));
    }
    if has_word_caseless(s, start, inf) {
        assert(has_letter(s, start + 2, inf[2]));
    }
}

/// The entries of a list end inside the text, at or behind where they
/// start.
proof fn lemma_entries_bounds(s: Seq<u8>, pos: int, first: bool)
    requires
        0 <= pos <= s.len(),
    ensures
        spec_entries(s, pos, first) matches Outcome::Match { value, end } ==> pos <= end
            <= s.len(),
    decreases s.len() - pos,
{
    if let Outcome::Match { value, end } = spec_entry(s, pos) {
        if pos < end <= s.len() && !value.1 {
            lemma_entries_bounds(s, end, false);
        }
    }
}

/// The items of a list end inside the text, at or behind where they start.
proof fn lemma_items_bounds(s: Seq<u8>, pos: int, first: bool)
    requires
        0 <= pos <= s.len(),
    ensures
        spec_items(s, pos, first) matches Outcome::Match { value, end } ==> pos <= end <= s.len(),
    decreases s.len() - pos,
{
    if let Outcome::Match { value, end } = spec_item(s, pos) {
        if pos < end <= s.len() && !value.1 {
            lemma_items_bounds(s, end, false);
        }
    }
}

/// A literal ends inside the text, at or behind where it starts.
pub proof fn lemma_literal_bounds(s: Seq<u8>, pos: int)
    requires
        0 <= pos <= s.len(),
    ensures
        spec_parse_literal(s, pos) matches Outcome::Match { value, end } ==> pos <= end <= s.len(),
{
    lemma_number_bounds(s, pos);
    lemma_quote_close(s, pos + 1, QUOTE);
    lemma_quote_close(s, pos + 1, APOSTROPHE);
    lemma_run_end(s, Class::PathByte, pos);
    lemma_run_end(s, Class::Token, pos);
    if has_word(s, pos, word_list()) {
        lemma_entries_bounds(s, pos + 5, true);
        lemma_items_bounds(s, pos + 5, true);
    }
}

/// An item ends inside the text, behind where it starts.
proof fn lemma_item_bounds(s: Seq<u8>, pos: int)
    requires
        0 <= pos <= s.len(),
    ensures
        spec_item(s, pos) matches Outcome::Match { value, end } ==> pos < end <= s.len(),
{
    lemma_literal_bounds(s, pos);
    if let Outcome::Match { value, end } = spec_parse_literal(s, pos) {
        lemma_run_end(s, Class::Blank, end);
        lemma_run_end(s, Class::Blank, run_end(s, Class::Blank, end) + 1);
    }
}

/// The items behind the first never fail: they end where no further item
/// stands.
proof fn lemma_items_go_on(s: Seq<u8>, pos: int)
    requires
        0 <= pos <= s.len(),
    ensures
        !(spec_items(s, pos, false) is Backtrack),
    decreases s.len() - pos,
{
    lemma_item_bounds(s, pos);
    if let Outcome::Match { value, end } = spec_item(s, pos) {
        if !value.1 {
            lemma_items_go_on(s, end);
        }
    }
}

/// A list is total but for its first separator: a list that is not the
/// empty one fails, in a way that leaves alternatives open, only where
/// its first item is not followed by `,` or `)`. Every other list is read
/// as an associative list or as a plain list, or is cut by a number that
/// is left unfinished.
pub proof fn lemma_list_total(s: Seq<u8>, pos: int)
    requires
        has_word(s, pos, word_list()),
        !has_byte(s, pos + 5, PAREN_CLOSE),
    ensures
        spec_parse_literal_list(s, pos) is Backtrack ==> spec_parse_literal(s, pos + 5) is Match
            && separator_end(s, spec_parse_literal(s, pos + 5)->end) is None,
{
    lemma_item_bounds(s, pos + 5);
    if let Outcome::Match { value, end } = spec_item(s, pos + 5) {
        if !value.1 {
            lemma_items_go_on(s, end);
        }
    }
}

/// The choice between the two kinds of list is settled by the entries
/// alone: a list that is not the empty one is associative where its
/// entries match, plain where they fail and its items match, and matches
/// in no other case.
pub proof fn lemma_list_tie_break(s: Seq<u8>, pos: int)
    requires
        has_word(s, pos, word_list()),
        !has_byte(s, pos + 5, PAREN_CLOSE),
    ensures
        spec_entries(s, pos + 5, true) matches Outcome::Match { value, end }
            ==> spec_parse_literal_list(s, pos) == (Outcome::Match {
            value: LiteralValue::AssocList(value),
            end,
        }),
        spec_entries(s, pos + 5, true) is Backtrack ==> (spec_items(s, pos + 5, true)
            matches Outcome::Match { value, end } ==> spec_parse_literal_list(s, pos)
            == (Outcome::Match { value: LiteralValue::List(value), end })),
        spec_parse_literal_list(s, pos) is Match <==> spec_entries(s, pos + 5, true) is Match || (
        spec_entries(s, pos + 5, true) is Backtrack && spec_items(s, pos + 5, true) is Match),
{
}

} // verus!
