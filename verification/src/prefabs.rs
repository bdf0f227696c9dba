//! Prefab lines: a key and the prefabs that it stands for, each a path
//! with optional variable bindings.

use crate::LocatedError;
use crate::literal::{literal_value, parse_literal, spec_parse_literal, Literal, LiteralValue};
use crate::scan::{
    backtrack, class_has, cut, eol_end, failed, failure_agrees, has_byte, has_word, in_class,
    is_byte, is_word, lemma_prepend_twice, lemma_run_end, lemma_run_starts, prepend, run_end,
    skip_eol, skip_run, slice_agrees, slices_agree, slices_value, Class, Outcome, Parsed,
    SyntaxError, BACKSLASH, BRACE_CLOSE, BRACE_OPEN, CARRIAGE_RETURN, COMMA, EQUALS, LINE_FEED,
    PAREN_CLOSE, PAREN_OPEN, QUOTE, SEMICOLON, SLASH, SPACE, TAB, UNDERSCORE,
};
use crate::search::{find_starts, inside, regex_starts, reversed, rising};
use crate::table::Prefabs;
use vstd::prelude::*;
use vstd::slice::slice_subrange;
use vstd::string::StringSliceAdditionalSpecFns;

verus! {

/// The key of a prefab line: an optional line ending, the key in quotes,
/// `=` between blanks, and `(`. The value is the key without its quotes.
pub open spec fn spec_parse_key(s: Seq<u8>, pos: int) -> Outcome<Seq<u8>> {
    let open = eol_end(s, pos);
    let close = run_end(s, Class::Alpha, open + 1);
    let eq = run_end(s, Class::Blank, close + 1);
    let paren = run_end(s, Class::Blank, eq + 1);
    if !has_byte(s, open, QUOTE) {
        Outcome::Backtrack { at: open }
    } else if close == open + 1 || !has_byte(s, close, QUOTE) {
        Outcome::Backtrack { at: close }
    } else if eq == close + 1 || !has_byte(s, eq, EQUALS) {
        Outcome::Backtrack { at: eq }
    } else if paren == eq + 1 || !has_byte(s, paren, PAREN_OPEN) {
        Outcome::Backtrack { at: paren }
    } else {
        Outcome::Match { value: s.subrange(open + 1, close), end: paren + 1 }
    }
}

/// Parses the key of a prefab line at `pos`. A key is never empty and holds
/// letters only.
pub fn parse_key<'s>(text: &'s [u8], pos: usize) -> (r: Parsed<&'s [u8]>)
    ensures
        slice_agrees(r, spec_parse_key(text@, pos as int), pos as int, text@.len() as int),
        r matches Ok((key, end)) ==> pos < end && key@.len() > 0 && forall|i: int|
            0 <= i < key@.len() ==> in_class(Class::Alpha, #[trigger] key@[i]),
{
    let open = skip_eol(text, pos);
    if !is_byte(text, open, QUOTE) {
        return backtrack(open);
    }
    let close = skip_run(text, Class::Alpha, open + 1);
    if close == open + 1 || !is_byte(text, close, QUOTE) {
        return backtrack(close);
    }
    let eq = skip_run(text, Class::Blank, close + 1);
    if eq == close + 1 || !is_byte(text, eq, EQUALS) {
        return backtrack(eq);
    }
    let paren = skip_run(text, Class::Blank, eq + 1);
    if paren == eq + 1 || !is_byte(text, paren, PAREN_OPEN) {
        return backtrack(paren);
    }
    proof {
        lemma_run_end(text@, Class::Alpha, open + 1);
    }
    Ok((slice_subrange(text, open + 1, close), paren + 1))
}

/// The first offset at or behind `from` at which a prefab key stands.
pub open spec fn first_key(s: Seq<u8>, from: int) -> Option<int>
    decreases s.len() - from,
{
    if from < 0 || from >= s.len() {
        None
    } else if spec_parse_key(s, from) is Match {
        Some(from)
    } else {
        first_key(s, from + 1)
    }
}

/// The first key stands where a key stands and none stands before.
pub proof fn lemma_first_key(s: Seq<u8>, from: int)
    requires
        0 <= from,
    ensures
        match first_key(s, from) {
            Some(p) => from <= p < s.len() && spec_parse_key(s, p) is Match && forall|i: int|
                from <= i < p ==> !(#[trigger] spec_parse_key(s, i) is Match),
            None => forall|i: int| from <= i ==> !(#[trigger] spec_parse_key(s, i) is Match),
        },
    decreases s.len() - from,
{
    if from < s.len() && !(spec_parse_key(s, from) is Match) {
        lemma_first_key(s, from + 1);
    }
}

/// Whether the text from `from` on is in the tabular dialect: whether a
/// line ending follows at once behind the `(` of the first prefab key.
pub open spec fn spec_detect_tgm_from(s: Seq<u8>, from: int) -> bool {
    match first_key(s, from) {
        Some(p) => eol_end(s, spec_parse_key(s, p)->end) > spec_parse_key(s, p)->end,
        None => false,
    }
}

/// Whether the text is in the tabular dialect.
pub open spec fn spec_detect_tgm(s: Seq<u8>) -> bool {
    spec_detect_tgm_from(s, 0)
}

/// Tells the tabular dialect from the dense one, looking for the first
/// prefab key from `from` on.
pub fn detect_tgm_from(text: &[u8], from: usize) -> (r: bool)
    ensures
        r == spec_detect_tgm_from(text@, from as int),
{
    let mut p: usize = from;
    while p < text.len()
        invariant
            from <= p,
            first_key(text@, from as int) == first_key(text@, p as int),
        decreases text.len() - p,
    {
        match parse_key(text, p) {
            Ok((_, end)) => {
                return skip_eol(text, end) > end;
            },
            Err(_) => {},
        }
        p = p + 1;
    }
    false
}

/// Tells the tabular dialect from the dense one: the text is tabular if
/// and only if its first prefab key, wherever it stands, is followed by a
/// line ending at once.
pub fn detect_tgm(text: &[u8]) -> (r: bool)
    ensures
        r == spec_detect_tgm(text@),
{
    detect_tgm_from(text, 0)
}

/// A path: `/` and then letters, digits, `_` and `/` as far as they go.
pub open spec fn spec_parse_path(s: Seq<u8>, pos: int) -> Outcome<Seq<u8>> {
    if has_byte(s, pos, SLASH) {
        Outcome::Match {
            value: s.subrange(pos, run_end(s, Class::PathByte, pos)),
            end: run_end(s, Class::PathByte, pos),
        }
    } else {
        Outcome::Backtrack { at: pos }
    }
}

/// Parses the path at `pos`; the value starts with its `/`.
pub fn parse_path<'s>(text: &'s [u8], pos: usize) -> (r: Parsed<&'s [u8]>)
    ensures
        slice_agrees(r, spec_parse_path(text@, pos as int), pos as int, text@.len() as int),
        r matches Ok((path, end)) ==> pos < end && path@.len() > 0 && path@[0] == SLASH,
{
    if !is_byte(text, pos, SLASH) {
        return backtrack(pos);
    }
    let end = skip_run(text, Class::PathByte, pos);
    proof {
        lemma_run_starts(text@, Class::PathByte, pos as int);
    }
    Ok((slice_subrange(text, pos, end), end))
}

/// An identifier: a letter or `_`, then letters, digits and `_` as far as
/// they go.
pub open spec fn spec_parse_identifier(s: Seq<u8>, pos: int) -> Outcome<Seq<u8>> {
    if 0 <= pos < s.len() && (in_class(Class::Alpha, s[pos]) || s[pos] == UNDERSCORE) {
        Outcome::Match {
            value: s.subrange(pos, run_end(s, Class::Word, pos)),
            end: run_end(s, Class::Word, pos),
        }
    } else {
        Outcome::Backtrack { at: pos }
    }
}

/// Parses the identifier at `pos`.
pub fn parse_identifier<'s>(text: &'s [u8], pos: usize) -> (r: Parsed<&'s [u8]>)
    ensures
        slice_agrees(r, spec_parse_identifier(text@, pos as int), pos as int, text@.len() as int),
        r matches Ok((_, end)) ==> pos < end,
{
    if pos >= text.len() {
        return backtrack(pos);
    }
    let first = text[pos];
    if !(class_has(Class::Alpha, first) || first == UNDERSCORE) {
        return backtrack(pos);
    }
    let end = skip_run(text, Class::Word, pos);
    proof {
        lemma_run_starts(text@, Class::Word, pos as int);
    }
    Ok((slice_subrange(text, pos, end), end))
}

/// The name of a binding: an identifier and ` = ` behind it.
pub open spec fn spec_parse_var_list_key(s: Seq<u8>, pos: int) -> Outcome<Seq<u8>> {
    match spec_parse_identifier(s, pos) {
        Outcome::Match { value, end } => if has_word(s, end, seq![SPACE, EQUALS, SPACE]) {
            Outcome::Match { value, end: end + 3 }
        } else {
            Outcome::Backtrack { at: end }
        },
        o => o,
    }
}

/// Parses the name of a binding at `pos`, with the ` = ` behind it.
pub fn parse_var_list_key<'s>(text: &'s [u8], pos: usize) -> (r: Parsed<&'s [u8]>)
    ensures
        slice_agrees(r, spec_parse_var_list_key(text@, pos as int), pos as int, text@.len() as int),
        r matches Ok((_, end)) ==> pos < end,
{
    let (name, end) = match parse_identifier(text, pos) {
        Ok(found) => found,
        Err(e) => {
            return backtrack(e.at);
        },
    };
    let binder: [u8; 3] = [SPACE, EQUALS, SPACE];
    if !is_word(text, end, binder.as_slice()) {
        assert(binder@ =~= seq![SPACE, EQUALS, SPACE]);
        return backtrack(end);
    }
    assert(binder@ =~= seq![SPACE, EQUALS, SPACE]);
    Ok((name, end + 3))
}

/// The offset behind the `}` that closes a block of variables scanned from
/// `pos` on: the first `}` outside a string. A `"` opens or closes a
/// string unless a backslash stands directly before it.
pub open spec fn brace_close(s: Seq<u8>, pos: int, in_str: bool) -> Option<int>
    decreases s.len() - pos,
{
    if !(0 <= pos < s.len()) {
        None
    } else if s[pos] == BACKSLASH && has_byte(s, pos + 1, QUOTE) {
        brace_close(s, pos + 2, in_str)
    } else if s[pos] == QUOTE {
        brace_close(s, pos + 1, !in_str)
    } else if s[pos] == BRACE_CLOSE && !in_str {
        Some(pos + 1)
    } else {
        brace_close(s, pos + 1, in_str)
    }
}

/// The raw block of variables at `pos`: from its `{` to the `}` that
/// closes it, both included.
pub open spec fn spec_parse_prefab_data(s: Seq<u8>, pos: int) -> Outcome<Seq<u8>> {
    if !has_byte(s, pos, BRACE_OPEN) {
        Outcome::Backtrack { at: pos }
    } else {
        match brace_close(s, pos, false) {
            Some(end) => Outcome::Match { value: s.subrange(pos, end), end },
            None => Outcome::Backtrack { at: s.len() as int },
        }
    }
}

/// Cuts the raw block of variables at `pos` out of the text.
pub fn parse_prefab_data<'s>(text: &'s [u8], pos: usize) -> (r: Parsed<&'s [u8]>)
    ensures
        slice_agrees(r, spec_parse_prefab_data(text@, pos as int), pos as int, text@.len() as int),
        r matches Ok((_, end)) ==> pos < end,
{
    if !is_byte(text, pos, BRACE_OPEN) {
        return backtrack(pos);
    }
    let mut i: usize = pos;
    let mut in_str = false;
    while i < text.len()
        invariant
            pos <= i <= text.len(),
            has_byte(text@, pos as int, BRACE_OPEN),
            brace_close(text@, pos as int, false) == brace_close(text@, i as int, in_str),
        decreases text.len() - i,
    {
        let b = text[i];
        if b == BACKSLASH && is_byte(text, i + 1, QUOTE) {
            i = i + 2;
        } else if b == QUOTE {
            in_str = !in_str;
            i = i + 1;
        } else if b == BRACE_CLOSE && !in_str {
            return Ok((slice_subrange(text, pos, i + 1), i + 1));
        } else {
            i = i + 1;
        }
    }
    backtrack(i)
}

/// Whether `b` is a white space character of one byte: a space, a tab, a
/// line feed, a vertical tab, a form feed or a carriage return.
pub open spec fn is_trim_space(b: u8) -> bool {
    b == SPACE || (TAB <= b <= CARRIAGE_RETURN)
}

/// Whether the two bytes are a white space character: U+0085 or U+00A0.
pub open spec fn is_space_pair(a: u8, b: u8) -> bool {
    a == 0xc2 && (b == 0x85 || b == 0xa0)
}

/// Whether the three bytes are a white space character: U+1680, one of
/// U+2000 to U+200A, U+2028, U+2029, U+202F, U+205F or U+3000.
pub open spec fn is_space_triple(a: u8, b: u8, c: u8) -> bool {
    ||| a == 0xe1 && b == 0x9a && c == 0x80
    ||| a == 0xe2 && b == 0x80 && (0x80 <= c <= 0x8a || c == 0xa8 || c == 0xa9 || c == 0xaf)
    ||| a == 0xe2 && b == 0x81 && c == 0x9f
    ||| a == 0xe3 && b == 0x80 && c == 0x80
}

/// The number of bytes of the white space character that starts at `from`
/// and ends at or before `to`; 0 where none does.
pub open spec fn space_ahead(s: Seq<u8>, from: int, to: int) -> int {
    if !(0 <= from < to <= s.len()) {
        0
    } else if is_trim_space(s[from]) {
        1
    } else if from + 2 <= to && is_space_pair(s[from], s[from + 1]) {
        2
    } else if from + 3 <= to && is_space_triple(s[from], s[from + 1], s[from + 2]) {
        3
    } else {
        0
    }
}

/// The number of bytes of the white space character that ends at `to` and
/// starts at or behind `from`; 0 where none does.
pub open spec fn space_behind(s: Seq<u8>, from: int, to: int) -> int {
    if !(0 <= from < to <= s.len()) {
        0
    } else if is_trim_space(s[to - 1]) {
        1
    } else if from + 2 <= to && is_space_pair(s[to - 2], s[to - 1]) {
        2
    } else if from + 3 <= to && is_space_triple(s[to - 3], s[to - 2], s[to - 1]) {
        3
    } else {
        0
    }
}

/// The first offset in `from..to` at which no white space character
/// starts, or `to`.
pub open spec fn trim_start(s: Seq<u8>, from: int, to: int) -> int
    decreases to - from,
{
    if space_ahead(s, from, to) > 0 {
        trim_start(s, from + space_ahead(s, from, to), to)
    } else {
        from
    }
}

/// The last offset in `from..to` at which no white space character ends,
/// or `from`.
pub open spec fn trim_end(s: Seq<u8>, from: int, to: int) -> int
    decreases to - from,
{
    if space_behind(s, from, to) > 0 {
        trim_end(s, from, to - space_behind(s, from, to))
    } else {
        to
    }
}

/// The bytes `from..to` of `s` without the white space at both ends.
pub open spec fn trimmed(s: Seq<u8>, from: int, to: int) -> Seq<u8> {
    s.subrange(trim_start(s, from, to), trim_end(s, trim_start(s, from, to), to))
}

/// The piece `from..to` as a list: empty where the piece holds white space
/// only, else the one trimmed piece.
pub open spec fn piece(s: Seq<u8>, from: int, to: int) -> Seq<Seq<u8>> {
    if trim_start(s, from, to) >= trim_end(s, trim_start(s, from, to), to) {
        Seq::empty()
    } else {
        seq![trimmed(s, from, to)]
    }
}

/// Whether `b` is a white space character of one byte.
fn trim_space(b: u8) -> (r: bool)
    ensures
        r == is_trim_space(b),
{
    b == SPACE || (TAB <= b && b <= CARRIAGE_RETURN)
}

/// Whether the two bytes are a white space character.
fn space_pair(a: u8, b: u8) -> (r: bool)
    ensures
        r == is_space_pair(a, b),
{
    a == 0xc2 && (b == 0x85 || b == 0xa0)
}

/// Whether the three bytes are a white space character.
fn space_triple(a: u8, b: u8, c: u8) -> (r: bool)
    ensures
        r == is_space_triple(a, b, c),
{
    (a == 0xe1 && b == 0x9a && c == 0x80) || (a == 0xe2 && b == 0x80 && ((0x80 <= c && c <= 0x8a)
        || c == 0xa8 || c == 0xa9 || c == 0xaf)) || (a == 0xe2 && b == 0x81 && c == 0x9f) || (a
        == 0xe3 && b == 0x80 && c == 0x80)
}

/// The number of bytes of the white space character that starts at `from`.
fn width_ahead(text: &[u8], from: usize, to: usize) -> (r: usize)
    requires
        from <= to <= text.len(),
    ensures
        r == space_ahead(text@, from as int, to as int),
        from + r <= to,
{
    if from == to {
        0
    } else if trim_space(text[from]) {
        1
    } else if to - from >= 2 && space_pair(text[from], text[from + 1]) {
        2
    } else if to - from >= 3 && space_triple(text[from], text[from + 1], text[from + 2]) {
        3
    } else {
        0
    }
}

/// The number of bytes of the white space character that ends at `to`.
fn width_behind(text: &[u8], from: usize, to: usize) -> (r: usize)
    requires
        from <= to <= text.len(),
    ensures
        r == space_behind(text@, from as int, to as int),
        from + r <= to,
{
    if from == to {
        0
    } else if trim_space(text[to - 1]) {
        1
    } else if to - from >= 2 && space_pair(text[to - 2], text[to - 1]) {
        2
    } else if to - from >= 3 && space_triple(text[to - 3], text[to - 2], text[to - 1]) {
        3
    } else {
        0
    }
}

/// Cuts the white space off both ends of `from..to`.
fn trim(text: &[u8], from: usize, to: usize) -> (r: (usize, usize))
    requires
        from <= to <= text.len(),
    ensures
        r.0 == trim_start(text@, from as int, to as int),
        r.1 == trim_end(text@, r.0 as int, to as int),
        from <= r.0 <= r.1 <= to,
{
    let mut a: usize = from;
    loop
        invariant
            from <= a <= to <= text.len(),
            trim_start(text@, from as int, to as int) == trim_start(text@, a as int, to as int),
        ensures
            space_ahead(text@, a as int, to as int) == 0,
        decreases to - a,
    {
        let width = width_ahead(text, a, to);
        if width == 0 {
            break ;
        }
        a = a + width;
    }
    let mut b: usize = to;
    loop
        invariant
            a <= b <= to <= text.len(),
            trim_end(text@, a as int, to as int) == trim_end(text@, a as int, b as int),
        ensures
            space_behind(text@, a as int, b as int) == 0,
        decreases b - a,
    {
        let width = width_behind(text, a, b);
        if width == 0 {
            break ;
        }
        b = b - width;
    }
    (a, b)
}

/// The pieces of a block of variables, scanned from `pos` on with the
/// current piece starting at `start`. A `;` outside a string ends a piece,
/// and white space behind it is skipped. A line feed inside a string drops
/// the piece read so far: the string was left open. The first `}` outside a
/// string ends the block. A text that ends before that cuts the parse.
/// Pieces are trimmed, and one that holds nothing is left out.
pub open spec fn spec_split(s: Seq<u8>, start: int, pos: int, in_str: bool) -> Outcome<
    Seq<Seq<u8>>,
>
    decreases s.len() - pos,
{
    if !(0 <= pos < s.len()) {
        Outcome::Cut { at: s.len() as int }
    } else if s[pos] == BACKSLASH && has_byte(s, pos + 1, QUOTE) {
        spec_split(s, start, pos + 2, in_str)
    } else if s[pos] == QUOTE {
        spec_split(s, start, pos + 1, !in_str)
    } else if s[pos] == SEMICOLON && !in_str {
        proof {
            lemma_run_end(s, Class::White, pos + 1);
        }
        prepend(
            piece(s, start, pos),
            spec_split(
                s,
                run_end(s, Class::White, pos + 1),
                run_end(s, Class::White, pos + 1),
                false,
            ),
        )
    } else if s[pos] == LINE_FEED && in_str {
        proof {
            lemma_run_end(s, Class::White, pos + 1);
        }
        spec_split(
            s,
            run_end(s, Class::White, pos + 1),
            run_end(s, Class::White, pos + 1),
            false,
        )
    } else if s[pos] == BRACE_CLOSE && !in_str {
        Outcome::Match { value: piece(s, start, pos), end: pos + 1 }
    } else {
        spec_split(s, start, pos + 1, in_str)
    }
}

/// The pieces of the block of variables at `pos`, which starts with `{`.
pub open spec fn spec_separate_var_list(s: Seq<u8>, pos: int) -> Outcome<Seq<Seq<u8>>> {
    if has_byte(s, pos, BRACE_OPEN) {
        spec_split(s, pos + 1, pos + 1, false)
    } else {
        Outcome::Backtrack { at: pos }
    }
}

/// Splits the block of variables at `pos` into its pieces, one for each
/// binding. No piece is empty.
pub fn separate_var_list<'s>(text: &'s [u8], pos: usize) -> (r: Parsed<Vec<&'s [u8]>>)
    ensures
        slices_agree(r, spec_separate_var_list(text@, pos as int), pos as int, text@.len() as int),
        r matches Ok((pieces, end)) ==> pos < end && forall|i: int|
            0 <= i < pieces@.len() ==> (#[trigger] pieces@[i])@.len() > 0,
{
    if !is_byte(text, pos, BRACE_OPEN) {
        return backtrack(pos);
    }
    let mut pieces: Vec<&'s [u8]> = Vec::new();
    let mut start: usize = pos + 1;
    let mut i: usize = pos + 1;
    let mut in_str = false;
    while i < text.len()
        invariant
            pos < start <= i <= text.len(),
            has_byte(text@, pos as int, BRACE_OPEN),
            spec_split(text@, pos + 1, pos + 1, false) == prepend(
                slices_value(pieces@),
                spec_split(text@, start as int, i as int, in_str),
            ),
            forall|k: int| 0 <= k < pieces@.len() ==> (#[trigger] pieces@[k])@.len() > 0,
        decreases text.len() - i,
    {
        let b = text[i];
        if b == BACKSLASH && is_byte(text, i + 1, QUOTE) {
            i = i + 2;
        } else if b == QUOTE {
            in_str = !in_str;
            i = i + 1;
        } else if b == SEMICOLON && !in_str {
            let (from, to) = trim(text, start, i);
            let next = skip_run(text, Class::White, i + 1);
            let ghost before = pieces@;
            if from < to {
                pieces.push(slice_subrange(text, from, to));
            }
            proof {
                lemma_prepend_twice(
                    slices_value(before),
                    piece(text@, start as int, i as int),
                    spec_split(text@, next as int, next as int, false),
                );
                assert(slices_value(pieces@) =~= slices_value(before) + piece(
                    text@,
                    start as int,
                    i as int,
                ));
            }
            start = next;
            i = next;
        } else if b == LINE_FEED && in_str {
            let next = skip_run(text, Class::White, i + 1);
            start = next;
            i = next;
            in_str = false;
        } else if b == BRACE_CLOSE && !in_str {
            let (from, to) = trim(text, start, i);
            let ghost before = pieces@;
            if from < to {
                pieces.push(slice_subrange(text, from, to));
            }
            proof {
                assert(slices_value(pieces@) =~= slices_value(before) + piece(
                    text@,
                    start as int,
                    i as int,
                ));
            }
            return Ok((pieces, i + 1));
        } else {
            i = i + 1;
        }
    }
    cut(i)
}

/// The offsets of the quotes that open strings which a line feed cuts
/// short, in a block of variables scanned from `pos` on; `quote` is the
/// offset of the quote seen last. Each of them stands for a piece that
/// `spec_split` drops.
pub open spec fn spec_open_strings(s: Seq<u8>, pos: int, in_str: bool, quote: usize) -> Seq<usize>
    decreases s.len() - pos,
{
    if !(0 <= pos < s.len()) {
        Seq::empty()
    } else if s[pos] == BACKSLASH && has_byte(s, pos + 1, QUOTE) {
        spec_open_strings(s, pos + 2, in_str, quote)
    } else if s[pos] == QUOTE {
        spec_open_strings(s, pos + 1, !in_str, pos as usize)
    } else if s[pos] == SEMICOLON && !in_str {
        proof {
            lemma_run_end(s, Class::White, pos + 1);
        }
        spec_open_strings(s, run_end(s, Class::White, pos + 1), false, quote)
    } else if s[pos] == LINE_FEED && in_str {
        proof {
            lemma_run_end(s, Class::White, pos + 1);
        }
        seq![quote] + spec_open_strings(s, run_end(s, Class::White, pos + 1), false, quote)
    } else if s[pos] == BRACE_CLOSE && !in_str {
        Seq::empty()
    } else {
        spec_open_strings(s, pos + 1, in_str, quote)
    }
}

/// The strings that are left open in the block of variables at `pos`,
/// none where no block stands there.
pub open spec fn open_strings_at(s: Seq<u8>, pos: int) -> Seq<usize> {
    if has_byte(s, pos, BRACE_OPEN) {
        spec_open_strings(s, pos + 1, false, pos as usize)
    } else {
        Seq::empty()
    }
}

/// The strings that are left open in the block of variables at `pos`: for
/// each the offset of its opening quote. A block has as many of them as
/// `separate_var_list` drops pieces; there are none where no block stands
/// at `pos`.
pub fn unterminated_strings(text: &[u8], pos: usize) -> (r: Vec<usize>)
    ensures
        r@ == open_strings_at(text@, pos as int),
{
    let mut found: Vec<usize> = Vec::new();
    if !is_byte(text, pos, BRACE_OPEN) {
        return found;
    }
    let mut i: usize = pos + 1;
    let mut in_str = false;
    let mut quote: usize = pos;
    while i < text.len()
        invariant
            pos < i <= text.len(),
            has_byte(text@, pos as int, BRACE_OPEN),
            spec_open_strings(text@, pos + 1, false, pos) == found@ + spec_open_strings(
                text@,
                i as int,
                in_str,
                quote,
            ),
        decreases text.len() - i,
    {
        let b = text[i];
        if b == BACKSLASH && is_byte(text, i + 1, QUOTE) {
            i = i + 2;
        } else if b == QUOTE {
            in_str = !in_str;
            quote = i;
            i = i + 1;
        } else if b == SEMICOLON && !in_str {
            i = skip_run(text, Class::White, i + 1);
        } else if b == LINE_FEED && in_str {
            let next = skip_run(text, Class::White, i + 1);
            let ghost before = found@;
            found.push(quote);
            proof {
                let rest = spec_open_strings(text@, next as int, false, quote);
                assert(found@ + rest =~= before + (seq![quote] + rest));
            }
            i = next;
            in_str = false;
        } else if b == BRACE_CLOSE && !in_str {
            assert(found@ + Seq::<usize>::empty() =~= found@);
            return found;
        } else {
            i = i + 1;
        }
    }
    assert(found@ + Seq::<usize>::empty() =~= found@);
    found
}

/// A binding of a variable: its name and its value.
pub type Binding<'s> = (&'s [u8], Literal<'s>);

/// A prefab: its path and, where a block of variables follows the path, its
/// bindings.
pub type Prefab<'s> = (&'s [u8], Option<Vec<Binding<'s>>>);

/// A prefab line: the key and the prefabs that it stands for.
pub type PrefabLine<'s> = (&'s [u8], Vec<Prefab<'s>>);

/// The mathematical value of a binding.
pub type BindingValue = (Seq<u8>, LiteralValue);

/// The mathematical value of a prefab.
pub type PrefabValue = (Seq<u8>, Option<Seq<BindingValue>>);

/// The name of a binding and the value of its literal.
pub open spec fn binding_value(b: Binding) -> BindingValue {
    (b.0@, literal_value(b.1))
}

/// The values of a sequence of bindings.
pub open spec fn bindings_value(v: Seq<Binding>) -> Seq<BindingValue> {
    Seq::new(v.len(), |i: int| binding_value(v[i]))
}

/// The path of a prefab and the values of its bindings.
pub open spec fn prefab_value(p: Prefab) -> PrefabValue {
    (
        p.0@,
        match p.1 {
            Some(vars) => Some(bindings_value(vars@)),
            None => None,
        },
    )
}

/// The values of a sequence of prefabs.
pub open spec fn prefabs_value(v: Seq<Prefab>) -> Seq<PrefabValue> {
    Seq::new(v.len(), |i: int| prefab_value(v[i]))
}

/// The binding that a piece spells: a name, ` = `, and a literal. What
/// stands behind the literal is not read.
pub open spec fn spec_binding(piece: Seq<u8>) -> Outcome<BindingValue> {
    match spec_parse_var_list_key(piece, 0) {
        Outcome::Match { value: name, end } => match spec_parse_literal(piece, end) {
            Outcome::Match { value, end } => Outcome::Match { value: (name, value), end },
            o => failed(o),
        },
        o => failed(o),
    }
}

/// The bindings that the pieces from index `from` on spell; the first piece
/// that spells none fails them all.
pub open spec fn spec_bindings(pieces: Seq<Seq<u8>>, from: int) -> Outcome<Seq<BindingValue>>
    decreases pieces.len() - from,
{
    if !(0 <= from < pieces.len()) {
        Outcome::Match { value: Seq::empty(), end: 0 }
    } else {
        match spec_binding(pieces[from]) {
            Outcome::Match { value, end: _ } => prepend(
                seq![value],
                spec_bindings(pieces, from + 1),
            ),
            o => failed(o),
        }
    }
}

/// The bindings of the block of variables at `pos`. A piece that spells
/// no binding fails the block at its end.
pub open spec fn spec_parse_var_list(s: Seq<u8>, pos: int) -> Outcome<Seq<BindingValue>> {
    match spec_separate_var_list(s, pos) {
        Outcome::Match { value: pieces, end } => match spec_bindings(pieces, 0) {
            Outcome::Match { value, end: _ } => Outcome::Match { value, end },
            Outcome::Cut { at: _ } => Outcome::Cut { at: end },
            Outcome::Backtrack { at: _ } => Outcome::Backtrack { at: end },
        },
        o => failed(o),
    }
}

/// Whether exec bindings agree with the outcome that the grammar assigns.
pub open spec fn bindings_agree(
    r: Parsed<Vec<Binding>>,
    o: Outcome<Seq<BindingValue>>,
    from: int,
    len: int,
) -> bool {
    match r {
        Ok((v, end)) => o == (Outcome::Match { value: bindings_value(v@), end: end as int })
            && from <= end && (from <= len ==> end <= len),
        Err(e) => failure_agrees(e, o, from, len),
    }
}

/// Parses the binding that `piece` spells. On failure the result tells
/// whether the parse is cut.
fn parse_binding<'s>(piece: &'s [u8]) -> (r: Result<Binding<'s>, bool>)
    ensures
        match r {
            Ok(b) => spec_binding(piece@) matches Outcome::Match { value, end: _ } && value
                == binding_value(b),
            Err(cut) => if cut {
                spec_binding(piece@) is Cut
            } else {
                spec_binding(piece@) is Backtrack
            },
        },
{
    let (name, after) = match parse_var_list_key(piece, 0) {
        Ok(found) => found,
        Err(_) => {
            return Err(false);
        },
    };
    match parse_literal(piece, after) {
        Ok((value, _)) => Ok((name, value)),
        Err(e) => Err(e.cut),
    }
}

/// Parses the block of variables at `pos` into its bindings.
pub fn parse_var_list<'s>(text: &'s [u8], pos: usize) -> (r: Parsed<Vec<Binding<'s>>>)
    ensures
        bindings_agree(r, spec_parse_var_list(text@, pos as int), pos as int, text@.len() as int),
        r matches Ok((_, end)) ==> pos < end,
{
    let (pieces, end) = match separate_var_list(text, pos) {
        Ok(found) => found,
        Err(e) => {
            return Err(e);
        },
    };
    let ghost spelled = slices_value(pieces@);
    let mut vars: Vec<Binding<'s>> = Vec::new();
    let mut k: usize = 0;
    while k < pieces.len()
        invariant
            k <= pieces@.len(),
            spelled == slices_value(pieces@),
            spec_separate_var_list(text@, pos as int) == (Outcome::Match {
                value: spelled,
                end: end as int,
            }),
            pos < end <= text@.len(),
            spec_bindings(spelled, 0) == prepend(
                bindings_value(vars@),
                spec_bindings(spelled, k as int),
            ),
        decreases pieces@.len() - k,
    {
        let one = pieces[k];
        assert(spelled[k as int] == one@);
        let binding = match parse_binding(one) {
            Ok(binding) => binding,
            Err(cut) => {
                return Err(SyntaxError { cut, at: end });
            },
        };
        let ghost before = vars@;
        let ghost bv = binding_value(binding);
        vars.push(binding);
        proof {
            lemma_prepend_twice(bindings_value(before), seq![bv], spec_bindings(spelled, k + 1));
            assert(bindings_value(vars@) =~= bindings_value(before) + seq![bv]);
        }
        k = k + 1;
    }
    proof {
        lemma_prepend_twice(
            bindings_value(vars@),
            Seq::empty(),
            Outcome::<Seq<BindingValue>>::Backtrack { at: 0 },
        );
        assert(bindings_value(vars@) + Seq::<BindingValue>::empty() =~= bindings_value(vars@));
    }
    Ok((vars, end))
}

/// A prefab: a path and, where one follows at once, a block of variables.
/// A block that is no list of bindings is left unread.
#[verifier::opaque]
pub open spec fn spec_parse_prefab(s: Seq<u8>, pos: int) -> Outcome<PrefabValue> {
    match spec_parse_path(s, pos) {
        Outcome::Match { value: path, end } => match spec_parse_var_list(s, end) {
            Outcome::Match { value: vars, end } => Outcome::Match {
                value: (path, Some(vars)),
                end,
            },
            Outcome::Cut { at } => Outcome::Cut { at },
            Outcome::Backtrack { at: _ } => Outcome::Match { value: (path, None), end },
        },
        o => failed(o),
    }
}

/// Whether an exec prefab agrees with the outcome that the grammar assigns.
pub open spec fn prefab_agrees(
    r: Parsed<Prefab>,
    o: Outcome<PrefabValue>,
    from: int,
    len: int,
) -> bool {
    match r {
        Ok((v, end)) => o == (Outcome::Match { value: prefab_value(v), end: end as int }) && from
            <= end && (from <= len ==> end <= len),
        Err(e) => failure_agrees(e, o, from, len),
    }
}

/// Parses the prefab at `pos`.
pub fn parse_prefab<'s>(text: &'s [u8], pos: usize) -> (r: Parsed<Prefab<'s>>)
    ensures
        prefab_agrees(r, spec_parse_prefab(text@, pos as int), pos as int, text@.len() as int),
        r matches Ok((p, end)) ==> pos < end <= text@.len() && p.0@.len() > 0 && p.0@[0] == SLASH,
{
    reveal(spec_parse_prefab);
    let (path, end) = match parse_path(text, pos) {
        Ok(found) => found,
        Err(e) => {
            return backtrack(e.at);
        },
    };
    match parse_var_list(text, end) {
        Ok((vars, after)) => Ok(((path, Some(vars)), after)),
        Err(e) => {
            if e.cut {
                Err(e)
            } else {
                Ok(((path, None), end))
            }
        },
    }
}

/// The offset behind a prefab's trailer: an optional `,` with any white
/// space before and behind it.
pub open spec fn trailer_end(s: Seq<u8>, pos: int) -> int {
    run_end(
        s,
        Class::White,
        if has_byte(s, run_end(s, Class::White, pos), COMMA) {
            run_end(s, Class::White, pos) + 1
        } else {
            run_end(s, Class::White, pos)
        },
    )
}

/// The prefabs of a line from `pos` on, as many as match, each with its
/// trailer. The first must be there when `first` is set. Each prefab reads
/// at least one byte.
pub open spec fn spec_prefabs(s: Seq<u8>, pos: int, first: bool) -> Outcome<Seq<PrefabValue>>
    decreases s.len() - pos,
{
    match spec_parse_prefab(s, pos) {
        Outcome::Match { value, end } => if pos < trailer_end(s, end) <= s.len() {
            prepend(seq![value], spec_prefabs(s, trailer_end(s, end), false))
        } else {
            Outcome::Backtrack { at: pos }
        },
        Outcome::Cut { at } => Outcome::Cut { at },
        Outcome::Backtrack { at } => if first {
            Outcome::Backtrack { at }
        } else {
            Outcome::Match { value: Seq::empty(), end: pos }
        },
    }
}

/// A prefab line: the key, white space, one prefab or more, and `)`.
pub open spec fn spec_parse_prefab_line(s: Seq<u8>, pos: int) -> Outcome<
    (Seq<u8>, Seq<PrefabValue>),
> {
    match spec_parse_key(s, pos) {
        Outcome::Match { value: key, end } => match spec_prefabs(
            s,
            run_end(s, Class::White, end),
            true,
        ) {
            Outcome::Match { value: list, end } => if has_byte(s, end, PAREN_CLOSE) {
                Outcome::Match { value: (key, list), end: end + 1 }
            } else {
                Outcome::Backtrack { at: end }
            },
            o => failed(o),
        },
        o => failed(o),
    }
}

/// Whether an exec prefab line agrees with the outcome that the grammar
/// assigns.
pub open spec fn line_agrees(
    r: Parsed<PrefabLine>,
    o: Outcome<(Seq<u8>, Seq<PrefabValue>)>,
    from: int,
    len: int,
) -> bool {
    match r {
        Ok((v, end)) => o == (Outcome::Match {
            value: (v.0@, prefabs_value(v.1@)),
            end: end as int,
        }) && from <= end && (from <= len ==> end <= len),
        Err(e) => failure_agrees(e, o, from, len),
    }
}

/// Whether exec prefabs agree with the outcome that the grammar assigns.
pub open spec fn prefabs_agree(
    r: Parsed<Vec<Prefab>>,
    o: Outcome<Seq<PrefabValue>>,
    from: int,
    len: int,
) -> bool {
    match r {
        Ok((v, end)) => o == (Outcome::Match { value: prefabs_value(v@), end: end as int })
            && from <= end && (from <= len ==> end <= len),
        Err(e) => failure_agrees(e, o, from, len),
    }
}

/// Parses the prefabs of a line at `pos`: one or more, each with its
/// trailer.
fn parse_prefabs<'s>(text: &'s [u8], pos: usize) -> (r: Parsed<Vec<Prefab<'s>>>)
    ensures
        prefabs_agree(r, spec_prefabs(text@, pos as int, true), pos as int, text@.len() as int),
        r matches Ok((list, end)) ==> pos < end && list@.len() > 0,
{
    let mut list: Vec<Prefab<'s>> = Vec::new();
    let mut cur: usize = pos;
    let mut first = true;
    loop
        invariant
            pos <= cur,
            pos <= text@.len() ==> cur <= text@.len(),
            first ==> cur == pos,
            !first ==> pos < cur,
            first <==> list@.len() == 0,
            spec_prefabs(text@, pos as int, true) == prepend(
                prefabs_value(list@),
                spec_prefabs(text@, cur as int, first),
            ),
        decreases text@.len() - cur,
    {
        match parse_prefab(text, cur) {
            Ok((prefab, end)) => {
                let comma = skip_run(text, Class::White, end);
                let after_comma = if is_byte(text, comma, COMMA) {
                    comma + 1
                } else {
                    comma
                };
                let next = skip_run(text, Class::White, after_comma);
                let ghost before = list@;
                let ghost pv = prefab_value(prefab);
                list.push(prefab);
                proof {
                    lemma_prepend_twice(
                        prefabs_value(before),
                        seq![pv],
                        spec_prefabs(text@, next as int, false),
                    );
                    assert(prefabs_value(list@) =~= prefabs_value(before) + seq![pv]);
                }
                cur = next;
                first = false;
            },
            Err(e) => {
                if e.cut || first {
                    return Err(e);
                }
                proof {
                    lemma_prepend_twice(
                        prefabs_value(list@),
                        Seq::empty(),
                        Outcome::<Seq<PrefabValue>>::Backtrack { at: 0 },
                    );
                    assert(prefabs_value(list@) + Seq::<PrefabValue>::empty() =~= prefabs_value(
                        list@,
                    ));
                }
                return Ok((list, cur));
            },
        }
    }
}

/// Parses the prefab line at `pos`. Its key is not empty and holds letters
/// only, and it has at least one prefab.
pub fn parse_prefab_line<'s>(text: &'s [u8], pos: usize) -> (r: Parsed<PrefabLine<'s>>)
    ensures
        line_agrees(r, spec_parse_prefab_line(text@, pos as int), pos as int, text@.len() as int),
        r matches Ok((line, end)) ==> pos < end && line.0@.len() > 0 && line.1@.len() > 0
            && forall|i: int|
            0 <= i < line.0@.len() ==> in_class(Class::Alpha, #[trigger] line.0@[i]),
{
    let (key, after_key) = match parse_key(text, pos) {
        Ok(found) => found,
        Err(e) => {
            return backtrack(e.at);
        },
    };
    let start = skip_run(text, Class::White, after_key);
    let (list, end) = match parse_prefabs(text, start) {
        Ok(found) => found,
        Err(e) => {
            return Err(e);
        },
    };
    if !is_byte(text, end, PAREN_CLOSE) {
        return backtrack(end);
    }
    Ok(((key, list), end + 1))
}

/// The strings that are left open in the prefabs from `pos` on: those of
/// each prefab's block of variables, which stands behind its path, as far
/// as prefabs match.
pub open spec fn spec_open_in_prefabs(s: Seq<u8>, pos: int) -> Seq<usize>
    decreases s.len() - pos,
{
    match spec_parse_prefab(s, pos) {
        Outcome::Match { value: _, end } => if pos < trailer_end(s, end) <= s.len() {
            open_strings_at(s, run_end(s, Class::PathByte, pos)) + spec_open_in_prefabs(
                s,
                trailer_end(s, end),
            )
        } else {
            Seq::empty()
        },
        _ => Seq::empty(),
    }
}

/// The strings that are left open in the prefab line at `pos`, none where
/// no key stands there.
pub open spec fn spec_line_open_strings(s: Seq<u8>, pos: int) -> Seq<usize> {
    match spec_parse_key(s, pos) {
        Outcome::Match { value: _, end } => spec_open_in_prefabs(s, run_end(s, Class::White, end)),
        _ => Seq::empty(),
    }
}

/// Lists the strings that a line feed cuts short in the prefab line at
/// `pos`, each by the offset of its opening quote. Each of them stands for
/// a binding that the line's parser drops.
pub fn line_open_strings(text: &[u8], pos: usize) -> (r: Vec<usize>)
    ensures
        r@ == spec_line_open_strings(text@, pos as int),
{
    let mut found: Vec<usize> = Vec::new();
    let after_key = match parse_key(text, pos) {
        Ok((_, end)) => end,
        Err(_) => {
            return found;
        },
    };
    let mut cur = skip_run(text, Class::White, after_key);
    loop
        invariant
            spec_line_open_strings(text@, pos as int) == found@ + spec_open_in_prefabs(
                text@,
                cur as int,
            ),
        decreases text@.len() - cur,
    {
        let end = match parse_prefab(text, cur) {
            Ok((_, end)) => end,
            Err(_) => {
                assert(found@ + Seq::<usize>::empty() =~= found@);
                return found;
            },
        };
        let block = skip_run(text, Class::PathByte, cur);
        let mut open = unterminated_strings(text, block);
        let ghost before = found@;
        found.append(&mut open);
        let comma = skip_run(text, Class::White, end);
        let after_comma = if is_byte(text, comma, COMMA) {
            comma + 1
        } else {
            comma
        };
        let next = skip_run(text, Class::White, after_comma);
        assert(found@ + spec_open_in_prefabs(text@, next as int) =~= before + (open_strings_at(
            text@,
            block as int,
        ) + spec_open_in_prefabs(text@, next as int)));
        cur = next;
    }
}

/// The strings that are left open in the first `n` of the prefab lines at
/// `starts`, line by line.
pub open spec fn open_upto(s: Seq<u8>, starts: Seq<usize>, n: int) -> Seq<usize>
    decreases n,
{
    if n <= 0 || n > starts.len() {
        Seq::empty()
    } else {
        open_upto(s, starts, n - 1) + spec_line_open_strings(s, starts[n - 1] as int)
    }
}

/// Lists the strings that a line feed cuts short in the prefab lines at
/// `starts`, line by line, each by the offset of its opening quote.
pub fn map_open_strings(text: &[u8], starts: &Vec<usize>) -> (r: Vec<usize>)
    ensures
        r@ == open_upto(text@, starts@, starts@.len() as int),
{
    let mut found: Vec<usize> = Vec::new();
    let mut k: usize = 0;
    while k < starts.len()
        invariant
            k <= starts@.len(),
            found@ == open_upto(text@, starts@, k as int),
        decreases starts@.len() - k,
    {
        let mut open = line_open_strings(text, starts[k]);
        found.append(&mut open);
        k = k + 1;
    }
    found
}

/// The pattern that finds where prefab lines start.
pub const PREFAB_PATTERN: &'static str = "\"([a-zA-Z]+)\" = \\(";

/// The byte offsets at which `PREFAB_PATTERN` matches in `text`.
pub open spec fn prefab_starts(text: Seq<char>) -> Seq<usize> {
    match regex_starts(PREFAB_PATTERN@, text) {
        Some(starts) => starts,
        None => Seq::empty(),
    }
}

/// Finds where the prefab lines of `i` start: the offsets at which
/// `PREFAB_PATTERN` matches, which rise and lie inside the text.
pub fn get_prefab_locations(i: &str) -> (r: Vec<usize>)
    ensures
        r@ == prefab_starts(i@),
        rising(r@),
        inside(r@, i.spec_bytes().len() as int),
{
    match find_starts(PREFAB_PATTERN, i) {
        Some(starts) => starts,
        None => Vec::new(),
    }
}

/// Whether each of the first `n` starts is the start of a prefab line.
pub open spec fn all_lines_match(s: Seq<u8>, starts: Seq<usize>, n: int) -> bool {
    forall|k: int|
        0 <= k < n && k < starts.len() ==> #[trigger] spec_parse_prefab_line(
            s,
            starts[k] as int,
        ) is Match
}

/// The table that the prefab lines at the first `n` starts make, a later
/// line taking the place of an earlier one with the same key.
pub open spec fn table_upto(s: Seq<u8>, starts: Seq<usize>, n: int) -> Map<
    Seq<u8>,
    Seq<PrefabValue>,
>
    decreases n,
{
    if n <= 0 || n > starts.len() {
        Map::empty()
    } else {
        match spec_parse_prefab_line(s, starts[n - 1] as int) {
            Outcome::Match { value, end: _ } => table_upto(s, starts, n - 1).insert(
                value.0,
                value.1,
            ),
            _ => table_upto(s, starts, n - 1),
        }
    }
}

/// What parsing the prefab lines at `starts` yields: the table of all of
/// them where each one parses, else the failure of the first that does
/// not, located at its start.
pub open spec fn lines_outcome(
    r: Result<Prefabs, LocatedError>,
    s: Seq<u8>,
    starts: Seq<usize>,
) -> bool {
    match r {
        Ok(table) => all_lines_match(s, starts, starts.len() as int) && table@ == table_upto(
            s,
            starts,
            starts.len() as int,
        ),
        Err(e) => exists|j: int|
            0 <= j < starts.len() && all_lines_match(s, starts, j) && #[trigger] starts[j]
                == e.key_offset && e.main_offset == e.underlying.at && e.key_offset
                <= e.main_offset && spec_parse_prefab_line(s, starts[j] as int) == (
            if e.underlying.cut {
                Outcome::<(Seq<u8>, Seq<PrefabValue>)>::Cut { at: e.main_offset as int }
            } else {
                Outcome::<(Seq<u8>, Seq<PrefabValue>)>::Backtrack { at: e.main_offset as int }
            }),
    }
}

/// Parses the prefab lines of `text` that start at `starts`, in their
/// order, into a table. Each line is parsed on its own, so the work may as
/// well be shared out; the outcome is the same.
pub fn parse_prefab_lines<'s>(text: &'s [u8], starts: &Vec<usize>) -> (r: Result<
    Prefabs<'s>,
    LocatedError,
>)
    ensures
        lines_outcome(r, text@, starts@),
        r matches Ok(table) ==> forall|k: int|
            0 <= k < table.lines().len() ==> (#[trigger] table.lines()[k]).0@.len() > 0,
{
    let mut table = Prefabs::new();
    let mut k: usize = 0;
    while k < starts.len()
        invariant
            k <= starts@.len(),
            all_lines_match(text@, starts@, k as int),
            table@ == table_upto(text@, starts@, k as int),
            forall|j: int|
                0 <= j < table.lines().len() ==> (#[trigger] table.lines()[j]).0@.len() > 0,
        decreases starts@.len() - k,
    {
        let start = starts[k];
        match parse_prefab_line(text, start) {
            Ok(((key, list), _)) => {
                let ghost before = table.lines();
                table.insert(key, list);
                proof {
                    assert forall|j: int| 0 <= j < table.lines().len() implies (
                    #[trigger] table.lines()[j]).0@.len() > 0 by {
                        if j < before.len() && table.lines()[j] == before[j] {
                            assert(before[j].0@.len() > 0);
                        }
                    }
                }
            },
            Err(e) => {
                return Err(LocatedError { key_offset: start, main_offset: e.at, underlying: e });
            },
        }
        k = k + 1;
    }
    Ok(table)
}

/// The failure `e` of the parser that was started at `start`.
pub open spec fn located(start: usize, e: SyntaxError) -> LocatedError {
    LocatedError { key_offset: start, main_offset: e.at, underlying: e }
}

/// The start of the `k`-th line; 0 where there are fewer starts.
pub open spec fn start_of(starts: Seq<usize>, k: int) -> usize {
    if 0 <= k < starts.len() {
        starts[k]
    } else {
        0
    }
}

/// The table that the first `n` of the results make, a later line taking
/// the place of an earlier one with the same key.
pub open spec fn table_from(results: Seq<Parsed<PrefabLine>>, n: int) -> Map<
    Seq<u8>,
    Seq<PrefabValue>,
>
    decreases n,
{
    if n <= 0 || n > results.len() {
        Map::empty()
    } else {
        match results[n - 1] {
            Ok((line, _)) => table_from(results, n - 1).insert(line.0@, prefabs_value(line.1@)),
            Err(_) => table_from(results, n - 1),
        }
    }
}

/// What gathering the results of the parsers that were started at `starts`
/// yields: the table of all lines where each result is a line, else the
/// first failure, located at its start.
pub open spec fn lines_gathered(
    r: Result<Prefabs, LocatedError>,
    starts: Seq<usize>,
    results: Seq<Parsed<PrefabLine>>,
) -> bool {
    match r {
        Ok(table) => table@ == table_from(results, results.len() as int) && forall|k: int|
            0 <= k < results.len() ==> #[trigger] results[k] is Ok,
        Err(e) => exists|j: int|
            0 <= j < results.len() && (#[trigger] results[j]) is Err && e == located(
                start_of(starts, j),
                results[j]->Err_0,
            ) && forall|k: int| 0 <= k < j ==> #[trigger] results[k] is Ok,
    }
}

/// Whether the results are what the parser of prefab lines yields at the
/// starts, one for each.
pub open spec fn lines_parsed(
    results: Seq<Parsed<PrefabLine>>,
    s: Seq<u8>,
    starts: Seq<usize>,
) -> bool {
    results.len() == starts.len() && forall|k: int|
        0 <= k < results.len() ==> line_agrees(
            #[trigger] results[k],
            spec_parse_prefab_line(s, starts[k] as int),
            starts[k] as int,
            s.len() as int,
        )
}

/// Gathers into a table what the parsers of the prefab lines of `text`
/// have yielded, each started on its own at one of `starts`. Where the
/// results are those of `parse_prefab_line` at the starts, the outcome is
/// that of `parse_prefab_lines`.
pub fn gather_prefab_lines<'s>(
    text: &'s [u8],
    starts: &Vec<usize>,
    results: Vec<Parsed<PrefabLine<'s>>>,
) -> (r: Result<Prefabs<'s>, LocatedError>)
    ensures
        lines_gathered(r, starts@, results@),
        lines_parsed(results@, text@, starts@) ==> lines_outcome(r, text@, starts@),
{
    let ghost given = results@;
    let ghost parsed = lines_parsed(given, text@, starts@);
    let n = results.len();
    let mut rest = reversed(results);
    let mut table = Prefabs::new();
    let mut k: usize = 0;
    while k < n
        invariant
            n == given.len(),
            given == results@,
            k <= n,
            parsed == lines_parsed(given, text@, starts@),
            rest@.len() == n - k,
            forall|i: int| 0 <= i < rest@.len() ==> rest@[i] == given[n - 1 - i],
            forall|j: int| 0 <= j < k ==> #[trigger] given[j] is Ok,
            table@ == table_from(given, k as int),
            parsed ==> all_lines_match(text@, starts@, k as int) && table@ == table_upto(
                text@,
                starts@,
                k as int,
            ),
        decreases n - k,
    {
        let start = if k < starts.len() {
            starts[k]
        } else {
            0
        };
        let result = rest.pop();
        assert(result == Some(given[k as int]));
        match result {
            Some(Ok(((key, list), _))) => {
                table.insert(key, list);
            },
            Some(Err(e)) => {
                proof {
                    assert(given[k as int] is Err && given[k as int]->Err_0 == e);
                    if parsed {
                        assert(starts@[k as int] == start);
                    }
                }
                return Err(LocatedError { key_offset: start, main_offset: e.at, underlying: e });
            },
            None => {},
        }
        k = k + 1;
    }
    Ok(table)
}

/// Finds the prefab lines of `i` and parses them into a table.
pub fn multithreaded_parse_map_prefabs<'s>(i: &'s str) -> (r: Result<Prefabs<'s>, LocatedError>)
    ensures
        lines_outcome(r, i.spec_bytes(), prefab_starts(i@)),
        r matches Ok(table) ==> forall|k: int|
            0 <= k < table.lines().len() ==> (#[trigger] table.lines()[k]).0@.len() > 0,
{
    let starts = get_prefab_locations(i);
    parse_prefab_lines(i.as_bytes(), &starts)
}

} // verus!
