//! What a parser yields at an offset depends on nothing but the text from
//! that offset on: two texts that are the same from two offsets on are
//! parsed there to the same outcome, up to the distance between the
//! offsets. A prefab line or a block can therefore be parsed where it
//! stands, whatever stands before it.

use crate::block::{
    digits_value, spec_dec_uint, spec_parse_block, spec_parse_coords, spec_parse_map_lines,
    spec_rows,
};
use crate::prefabs::{
    piece, space_ahead, space_behind, spec_parse_key, spec_parse_path, spec_parse_prefab,
    spec_parse_prefab_line, spec_parse_var_list, spec_prefabs, spec_separate_var_list, spec_split,
    trailer_end, trim_end, trim_start,
};
use crate::scan::{
    byte_at, eol_end, has_byte, has_word, in_class, lemma_run_end, lemma_run_starts, run_end, Class,
    Outcome, BACKSLASH, BRACE_CLOSE, BRACE_OPEN, COMMA, EQUALS, LINE_FEED, PAREN_OPEN, QUOTE,
    SEMICOLON, SLASH,
};
use vstd::prelude::*;

verus! {

/// Whether `s` from `p` on is the same text as `t` from `q` on.
pub open spec fn same_rest(s: Seq<u8>, p: int, t: Seq<u8>, q: int) -> bool {
    &&& 0 <= p <= s.len()
    &&& 0 <= q <= t.len()
    &&& s.subrange(p, s.len() as int) == t.subrange(q, t.len() as int)
}

/// The outcome `o` with its offsets moved by `by`.
pub open spec fn moved<V>(o: Outcome<V>, by: int) -> Outcome<V> {
    match o {
        Outcome::Match { value, end } => Outcome::Match { value, end: end + by },
        Outcome::Backtrack { at } => Outcome::Backtrack { at: at + by },
        Outcome::Cut { at } => Outcome::Cut { at: at + by },
    }
}

/// Texts that are the same from two offsets on have as much text behind
/// the offsets, hold the same bytes there, and are the same from any two
/// offsets on that lie as far behind the first two.
pub proof fn lemma_rest(s: Seq<u8>, p: int, t: Seq<u8>, q: int, k: int)
    requires
        same_rest(s, p, t, q),
        0 <= k,
    ensures
        s.len() - p == t.len() - q,
        byte_at(s, p + k) == byte_at(t, q + k),
        k <= s.len() - p ==> same_rest(s, p + k, t, q + k),
{
    let a = s.subrange(p, s.len() as int);
    let b = t.subrange(q, t.len() as int);
    assert(a.len() == b.len());
    if k < s.len() - p {
        assert(a[k] == s[p + k]);
        assert(b[k] == t[q + k]);
    }
    if k <= s.len() - p {
        assert(s.subrange(p + k, s.len() as int) =~= a.subrange(k, a.len() as int));
        assert(t.subrange(q + k, t.len() as int) =~= b.subrange(k, b.len() as int));
    }
}

/// The same pieces are cut out of both texts.
pub proof fn lemma_rest_cut(s: Seq<u8>, p: int, t: Seq<u8>, q: int, from: int, to: int)
    requires
        same_rest(s, p, t, q),
        0 <= from <= to <= s.len() - p,
    ensures
        s.subrange(p + from, p + to) == t.subrange(q + from, q + to),
{
    let a = s.subrange(p, s.len() as int);
    let b = t.subrange(q, t.len() as int);
    assert(a.len() == b.len());
    assert(s.subrange(p + from, p + to) =~= a.subrange(from, to));
    assert(t.subrange(q + from, q + to) =~= b.subrange(from, to));
}

/// The same words stand in both texts.
pub proof fn lemma_rest_word(s: Seq<u8>, p: int, t: Seq<u8>, q: int, word: Seq<u8>)
    requires
        same_rest(s, p, t, q),
    ensures
        has_word(s, p, word) == has_word(t, q, word),
{
    lemma_rest(s, p, t, q, 0);
    if word.len() <= s.len() - p {
        lemma_rest_cut(s, p, t, q, 0, word.len() as int);
    }
}

/// Runs are as long in both texts.
pub proof fn lemma_rest_run(s: Seq<u8>, p: int, t: Seq<u8>, q: int, c: Class)
    requires
        same_rest(s, p, t, q),
    ensures
        run_end(s, c, p) - p == run_end(t, c, q) - q,
        p <= run_end(s, c, p) <= s.len(),
    decreases s.len() - p,
{
    lemma_rest(s, p, t, q, 0);
    lemma_rest(s, p, t, q, 1);
    lemma_run_end(s, c, p);
    if p < s.len() && in_class(c, s[p]) {
        lemma_rest_run(s, p + 1, t, q + 1, c);
    }
}

/// Line endings are as long in both texts.
pub proof fn lemma_rest_eol(s: Seq<u8>, p: int, t: Seq<u8>, q: int)
    requires
        same_rest(s, p, t, q),
    ensures
        eol_end(s, p) - p == eol_end(t, q) - q,
        p <= eol_end(s, p) <= s.len(),
{
    lemma_rest(s, p, t, q, 0);
    lemma_rest(s, p, t, q, 1);
}

/// Digits spell the same number in both texts.
proof fn lemma_rest_digits(s: Seq<u8>, p: int, t: Seq<u8>, q: int, n: int)
    requires
        same_rest(s, p, t, q),
        0 <= n <= s.len() - p,
    ensures
        digits_value(s, p, p + n) == digits_value(t, q, q + n),
    decreases n,
{
    if n > 0 {
        lemma_rest_digits(s, p, t, q, n - 1);
        lemma_rest(s, p, t, q, n - 1);
    }
}

/// An unsigned decimal number is read alike in both texts.
pub proof fn lemma_local_dec_uint(s: Seq<u8>, p: int, t: Seq<u8>, q: int)
    requires
        same_rest(s, p, t, q),
    ensures
        spec_dec_uint(s, p) == moved(spec_dec_uint(t, q), p - q),
        spec_dec_uint(s, p) matches Outcome::Match { value, end } ==> p < end <= s.len(),
{
    lemma_rest(s, p, t, q, 0);
    lemma_rest_run(s, p, t, q, Class::Digit);
    lemma_rest_digits(s, p, t, q, run_end(s, Class::Digit, p) - p);
}

/// A coordinate is read alike in both texts.
pub proof fn lemma_local_coords(s: Seq<u8>, p: int, t: Seq<u8>, q: int)
    requires
        same_rest(s, p, t, q),
    ensures
        spec_parse_coords(s, p) == moved(spec_parse_coords(t, q), p - q),
        spec_parse_coords(s, p) matches Outcome::Match { value, end } ==> p < end <= s.len(),
{
    lemma_rest(s, p, t, q, 0);
    if has_byte(s, p, PAREN_OPEN) {
        lemma_rest(s, p, t, q, 1);
        lemma_local_dec_uint(s, p + 1, t, q + 1);
        if let Outcome::Match { value: x, end: after_x } = spec_dec_uint(s, p + 1) {
            lemma_rest(s, p, t, q, after_x - p);
            if has_byte(s, after_x, COMMA) {
                lemma_rest(s, p, t, q, after_x + 1 - p);
                lemma_local_dec_uint(s, after_x + 1, t, after_x + 1 - p + q);
                if let Outcome::Match { value: y, end: after_y } = spec_dec_uint(s, after_x + 1) {
                    lemma_rest(s, p, t, q, after_y - p);
                    if has_byte(s, after_y, COMMA) {
                        lemma_rest(s, p, t, q, after_y + 1 - p);
                        lemma_local_dec_uint(s, after_y + 1, t, after_y + 1 - p + q);
                        if let Outcome::Match { value: z, end: after_z } = spec_dec_uint(
                            s,
                            after_y + 1,
                        ) {
                            lemma_rest(s, p, t, q, after_z - p);
                        }
                    }
                }
            }
        }
    }
}

/// The rows of a grid are read alike in both texts.
pub proof fn lemma_local_rows(s: Seq<u8>, p: int, t: Seq<u8>, q: int, first: bool)
    requires
        same_rest(s, p, t, q),
    ensures
        spec_rows(s, p, first) == moved(spec_rows(t, q, first), p - q),
        spec_rows(s, p, first) matches Outcome::Match { value, end } ==> p <= end <= s.len(),
    decreases s.len() - p,
{
    lemma_rest(s, p, t, q, 0);
    lemma_rest_run(s, p, t, q, Class::Alpha);
    let end = run_end(s, Class::Alpha, p);
    if p < end {
        lemma_rest_cut(s, p, t, q, 0, end - p);
        lemma_rest(s, p, t, q, end - p);
        lemma_rest_eol(s, end, t, end - p + q);
        let next = eol_end(s, end);
        lemma_rest(s, p, t, q, next - p);
        lemma_local_rows(s, next, t, next - p + q, false);
    }
}

/// The rows of a block are read alike in both texts.
pub proof fn lemma_local_map_lines(s: Seq<u8>, p: int, t: Seq<u8>, q: int)
    requires
        same_rest(s, p, t, q),
    ensures
        spec_parse_map_lines(s, p) == moved(spec_parse_map_lines(t, q), p - q),
{
    let opener = seq![BRACE_OPEN, QUOTE];
    let closer = seq![QUOTE, BRACE_CLOSE];
    lemma_rest_word(s, p, t, q, opener);
    if has_word(s, p, opener) {
        lemma_rest(s, p, t, q, 2);
        lemma_rest_eol(s, p + 2, t, q + 2);
        let start = eol_end(s, p + 2);
        lemma_rest(s, p, t, q, start - p);
        lemma_local_rows(s, start, t, start - p + q, true);
        if let Outcome::Match { value, end } = spec_rows(s, start, true) {
            lemma_rest(s, p, t, q, end - p);
            lemma_rest_eol(s, end, t, end - p + q);
            let close = eol_end(s, end);
            lemma_rest(s, p, t, q, close - p);
            lemma_rest_word(s, close, t, close - p + q, closer);
        }
    }
}

/// A block is read alike in both texts: what stands before a block does
/// not change what the block is.
pub proof fn lemma_local_block(s: Seq<u8>, p: int, t: Seq<u8>, q: int)
    requires
        same_rest(s, p, t, q),
    ensures
        spec_parse_block(s, p) == moved(spec_parse_block(t, q), p - q),
{
    lemma_local_coords(s, p, t, q);
    if let Outcome::Match { value: anchor, end } = spec_parse_coords(s, p) {
        lemma_rest(s, p, t, q, end - p);
        lemma_rest_run(s, end, t, end - p + q, Class::Blank);
        let eq = run_end(s, Class::Blank, end);
        lemma_rest(s, p, t, q, eq - p);
        if has_byte(s, eq, EQUALS) {
            lemma_rest(s, p, t, q, eq + 1 - p);
            lemma_rest_run(s, eq + 1, t, eq + 1 - p + q, Class::Blank);
            let open = run_end(s, Class::Blank, eq + 1);
            lemma_rest(s, p, t, q, open - p);
            lemma_local_map_lines(s, open, t, open - p + q);
        }
    }
}

/// The key of a prefab line is read alike in both texts.
pub proof fn lemma_local_key(s: Seq<u8>, p: int, t: Seq<u8>, q: int)
    requires
        same_rest(s, p, t, q),
    ensures
        spec_parse_key(s, p) == moved(spec_parse_key(t, q), p - q),
        spec_parse_key(s, p) matches Outcome::Match { value, end } ==> p < end <= s.len(),
{
    lemma_rest_eol(s, p, t, q);
    let open = eol_end(s, p);
    lemma_rest(s, p, t, q, open - p);
    if has_byte(s, open, QUOTE) {
        lemma_rest(s, p, t, q, open + 1 - p);
        lemma_rest_run(s, open + 1, t, open + 1 - p + q, Class::Alpha);
        let close = run_end(s, Class::Alpha, open + 1);
        lemma_rest(s, p, t, q, close - p);
        if has_byte(s, close, QUOTE) {
            lemma_rest(s, p, t, q, close + 1 - p);
            lemma_rest_run(s, close + 1, t, close + 1 - p + q, Class::Blank);
            let eq = run_end(s, Class::Blank, close + 1);
            lemma_rest(s, p, t, q, eq - p);
            if has_byte(s, eq, EQUALS) {
                lemma_rest(s, p, t, q, eq + 1 - p);
                lemma_rest_run(s, eq + 1, t, eq + 1 - p + q, Class::Blank);
                let paren = run_end(s, Class::Blank, eq + 1);
                lemma_rest(s, p, t, q, paren - p);
                lemma_rest_cut(s, p, t, q, open + 1 - p, close - p);
            }
        }
    }
}

/// A path is read alike in both texts.
pub proof fn lemma_local_path(s: Seq<u8>, p: int, t: Seq<u8>, q: int)
    requires
        same_rest(s, p, t, q),
    ensures
        spec_parse_path(s, p) == moved(spec_parse_path(t, q), p - q),
        spec_parse_path(s, p) matches Outcome::Match { value, end } ==> p < end <= s.len(),
{
    lemma_rest(s, p, t, q, 0);
    lemma_rest_run(s, p, t, q, Class::PathByte);
    if has_byte(s, p, SLASH) {
        lemma_run_starts(s, Class::PathByte, p);
        lemma_rest_cut(s, p, t, q, 0, run_end(s, Class::PathByte, p) - p);
    }
}

/// White space stands at the same places of both texts.
proof fn lemma_rest_space(s: Seq<u8>, p: int, t: Seq<u8>, q: int, from: int, to: int)
    requires
        same_rest(s, p, t, q),
        0 <= from <= to <= s.len() - p,
    ensures
        space_ahead(s, p + from, p + to) == space_ahead(t, q + from, q + to),
        space_behind(s, p + from, p + to) == space_behind(t, q + from, q + to),
{
    lemma_rest(s, p, t, q, from);
    lemma_rest(s, p, t, q, from + 1);
    lemma_rest(s, p, t, q, from + 2);
    if to >= 1 {
        lemma_rest(s, p, t, q, to - 1);
    }
    if to >= 2 {
        lemma_rest(s, p, t, q, to - 2);
    }
    if to >= 3 {
        lemma_rest(s, p, t, q, to - 3);
    }
}

/// White space is cut off the start alike in both texts.
proof fn lemma_rest_trim_start(s: Seq<u8>, p: int, t: Seq<u8>, q: int, from: int, to: int)
    requires
        same_rest(s, p, t, q),
        0 <= from <= to <= s.len() - p,
    ensures
        trim_start(s, p + from, p + to) - p == trim_start(t, q + from, q + to) - q,
        p + from <= trim_start(s, p + from, p + to) <= p + to,
    decreases to - from,
{
    lemma_rest_space(s, p, t, q, from, to);
    let width = space_ahead(s, p + from, p + to);
    if width > 0 {
        lemma_rest_trim_start(s, p, t, q, from + width, to);
    }
}

/// White space is cut off the end alike in both texts.
proof fn lemma_rest_trim_end(s: Seq<u8>, p: int, t: Seq<u8>, q: int, from: int, to: int)
    requires
        same_rest(s, p, t, q),
        0 <= from <= to <= s.len() - p,
    ensures
        trim_end(s, p + from, p + to) - p == trim_end(t, q + from, q + to) - q,
        p + from <= trim_end(s, p + from, p + to) <= p + to,
    decreases to - from,
{
    lemma_rest_space(s, p, t, q, from, to);
    let width = space_behind(s, p + from, p + to);
    if width > 0 {
        lemma_rest_trim_end(s, p, t, q, from, to - width);
    }
}

/// The same piece is cut out of both texts.
proof fn lemma_rest_piece(s: Seq<u8>, p: int, t: Seq<u8>, q: int, from: int, to: int)
    requires
        same_rest(s, p, t, q),
        0 <= from <= to <= s.len() - p,
    ensures
        piece(s, p + from, p + to) == piece(t, q + from, q + to),
{
    lemma_rest_trim_start(s, p, t, q, from, to);
    let a = trim_start(s, p + from, p + to) - p;
    lemma_rest_trim_end(s, p, t, q, a, to);
    let b = trim_end(s, p + a, p + to) - p;
    if a < b {
        lemma_rest_cut(s, p, t, q, a, b);
    }
}

/// A block of variables is split alike in both texts.
proof fn lemma_local_split(
    s: Seq<u8>,
    start: int,
    pos: int,
    t: Seq<u8>,
    begin: int,
    in_str: bool,
)
    requires
        same_rest(s, start, t, begin),
        start <= pos <= s.len(),
    ensures
        spec_split(s, start, pos, in_str) == moved(
            spec_split(t, begin, pos - start + begin, in_str),
            start - begin,
        ),
        spec_split(s, start, pos, in_str) matches Outcome::Match { value, end } ==> pos < end
            <= s.len(),
    decreases s.len() - pos,
{
    let by = start - begin;
    lemma_rest(s, start, t, begin, pos - start);
    lemma_rest(s, start, t, begin, pos - start + 1);
    if pos < s.len() {
        if s[pos] == BACKSLASH && has_byte(s, pos + 1, QUOTE) {
            lemma_local_split(s, start, pos + 2, t, begin, in_str);
        } else if s[pos] == QUOTE {
            lemma_local_split(s, start, pos + 1, t, begin, !in_str);
        } else if s[pos] == SEMICOLON && !in_str {
            lemma_rest_run(s, pos + 1, t, pos + 1 - by, Class::White);
            let next = run_end(s, Class::White, pos + 1);
            lemma_rest(s, start, t, begin, next - start);
            lemma_rest_piece(s, start, t, begin, 0, pos - start);
            lemma_local_split(s, next, next, t, next - by, false);
        } else if s[pos] == LINE_FEED && in_str {
            lemma_rest_run(s, pos + 1, t, pos + 1 - by, Class::White);
            let next = run_end(s, Class::White, pos + 1);
            lemma_rest(s, start, t, begin, next - start);
            lemma_local_split(s, next, next, t, next - by, false);
        } else if s[pos] == BRACE_CLOSE && !in_str {
            lemma_rest_piece(s, start, t, begin, 0, pos - start);
        } else {
            lemma_local_split(s, start, pos + 1, t, begin, in_str);
        }
    }
}

/// The bindings of a block of variables are read alike in both texts.
pub proof fn lemma_local_var_list(s: Seq<u8>, p: int, t: Seq<u8>, q: int)
    requires
        same_rest(s, p, t, q),
    ensures
        spec_separate_var_list(s, p) == moved(spec_separate_var_list(t, q), p - q),
        spec_parse_var_list(s, p) == moved(spec_parse_var_list(t, q), p - q),
        spec_parse_var_list(s, p) matches Outcome::Match { value, end } ==> p < end <= s.len(),
{
    lemma_rest(s, p, t, q, 0);
    if has_byte(s, p, BRACE_OPEN) {
        lemma_rest(s, p, t, q, 1);
        lemma_local_split(s, p + 1, p + 1, t, q + 1, false);
    }
}

/// A prefab is read alike in both texts.
pub proof fn lemma_local_prefab(s: Seq<u8>, p: int, t: Seq<u8>, q: int)
    requires
        same_rest(s, p, t, q),
    ensures
        spec_parse_prefab(s, p) == moved(spec_parse_prefab(t, q), p - q),
        spec_parse_prefab(s, p) matches Outcome::Match { value, end } ==> p < end <= s.len(),
{
    reveal(spec_parse_prefab);
    lemma_local_path(s, p, t, q);
    if let Outcome::Match { value: path, end } = spec_parse_path(s, p) {
        lemma_rest(s, p, t, q, end - p);
        lemma_local_var_list(s, end, t, end - p + q);
    }
}

/// The prefabs of a line are read alike in both texts.
pub proof fn lemma_local_prefabs(s: Seq<u8>, p: int, t: Seq<u8>, q: int, first: bool)
    requires
        same_rest(s, p, t, q),
    ensures
        spec_prefabs(s, p, first) == moved(spec_prefabs(t, q, first), p - q),
        spec_prefabs(s, p, first) matches Outcome::Match { value, end } ==> p <= end <= s.len(),
    decreases s.len() - p,
{
    lemma_local_prefab(s, p, t, q);
    if let Outcome::Match { value, end } = spec_parse_prefab(s, p) {
        lemma_rest(s, p, t, q, end - p);
        lemma_rest_run(s, end, t, end - p + q, Class::White);
        let comma = run_end(s, Class::White, end);
        lemma_rest(s, p, t, q, comma - p);
        let after_comma = if has_byte(s, comma, COMMA) {
            comma + 1
        } else {
            comma
        };
        lemma_rest(s, p, t, q, after_comma - p);
        lemma_rest_run(s, after_comma, t, after_comma - p + q, Class::White);
        let next = trailer_end(s, end);
        lemma_rest(s, p, t, q, next - p);
        lemma_local_prefabs(s, next, t, next - p + q, false);
    }
}

/// A prefab line is read alike in both texts: what stands before a prefab
/// line does not change what the line is.
pub proof fn lemma_local_prefab_line(s: Seq<u8>, p: int, t: Seq<u8>, q: int)
    requires
        same_rest(s, p, t, q),
    ensures
        spec_parse_prefab_line(s, p) == moved(spec_parse_prefab_line(t, q), p - q),
{
    lemma_local_key(s, p, t, q);
    if let Outcome::Match { value: key, end } = spec_parse_key(s, p) {
        lemma_rest(s, p, t, q, end - p);
        lemma_rest_run(s, end, t, end - p + q, Class::White);
        let start = run_end(s, Class::White, end);
        lemma_rest(s, p, t, q, start - p);
        lemma_local_prefabs(s, start, t, start - p + q, true);
        if let Outcome::Match { value: list, end: after } = spec_prefabs(s, start, true) {
            lemma_rest(s, p, t, q, after - p);
        }
    }
}

} // verus!
