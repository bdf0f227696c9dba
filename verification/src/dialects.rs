//! The two dialects of the format differ in line endings only: the
//! tabular one has a line ending behind the `(` of each prefab line and
//! behind the `{"` of each block. Such a line ending changes nothing in
//! what a prefab line or a block holds, nor in what a whole map holds;
//! it changes the dialect, which the first key decides.

use crate::block::{
    blocks_outcome, digits_value, parses_to, spec_dec_uint, spec_parse_block, spec_parse_coords,
    spec_parse_map_lines, spec_rows, Block,
};
use crate::locality::{
    lemma_local_block, lemma_local_coords, lemma_local_key, lemma_local_prefab,
    lemma_local_prefab_line, lemma_local_prefabs, lemma_local_rows, lemma_local_var_list,
    lemma_rest, lemma_rest_eol, lemma_rest_run, lemma_rest_word, moved, same_rest,
};
use crate::prefabs::{
    all_lines_match, first_key, lemma_first_key, lines_outcome, piece, space_ahead, space_behind,
    spec_detect_tgm_from, spec_parse_key, spec_parse_prefab, spec_parse_prefab_line,
    spec_parse_var_list, spec_prefabs, spec_split, table_upto, trailer_end, trim_end, trim_start,
};
use crate::scan::{
    byte_at, eol_end, has_byte, has_word, in_class, lemma_run_end, run_end, Class, Outcome,
    BACKSLASH, BRACE_CLOSE, BRACE_OPEN, CARRIAGE_RETURN, COMMA, EQUALS, LINE_FEED, PAREN_CLOSE,
    PAREN_OPEN, QUOTE, SEMICOLON, ZERO,
};
use crate::table::Prefabs;
use crate::LocatedError;
use vstd::prelude::*;

verus! {

/// Whether `eol` is a line ending.
pub open spec fn is_line_ending(eol: Seq<u8>) -> bool {
    eol == seq![LINE_FEED] || eol == seq![CARRIAGE_RETURN, LINE_FEED]
}

/// The text `s` with `eol` put in at the offset `k`.
pub open spec fn with_line_ending(s: Seq<u8>, k: int, eol: Seq<u8>) -> Seq<u8> {
    s.subrange(0, k) + eol + s.subrange(k, s.len() as int)
}

/// Whether `s` and `t` are the same up to the offset `k`.
pub open spec fn same_front(s: Seq<u8>, t: Seq<u8>, k: int) -> bool {
    0 <= k <= s.len() && k <= t.len() && s.subrange(0, k) == t.subrange(0, k)
}

/// Texts that are the same up to an offset hold the same bytes before it.
proof fn lemma_front(s: Seq<u8>, t: Seq<u8>, k: int, i: int)
    requires
        same_front(s, t, k),
        i < k,
    ensures
        byte_at(s, i) == byte_at(t, i),
{
    if 0 <= i {
        assert(s.subrange(0, k)[i] == s[i]);
        assert(t.subrange(0, k)[i] == t[i]);
    }
}

/// A run that ends before the offset up to which two texts are the same
/// ends at the same place in both.
proof fn lemma_front_run(s: Seq<u8>, t: Seq<u8>, k: int, c: Class, from: int)
    requires
        same_front(s, t, k),
        run_end(s, c, from) < k,
    ensures
        run_end(t, c, from) == run_end(s, c, from),
    decreases s.len() - from,
{
    lemma_run_end(s, c, from);
    lemma_front(s, t, k, from);
    if 0 <= from < s.len() && in_class(c, s[from]) {
        lemma_front_run(s, t, k, c, from + 1);
    }
}

/// Digits before the offset spell the same number in both texts.
proof fn lemma_front_digits(s: Seq<u8>, t: Seq<u8>, k: int, from: int, to: int)
    requires
        same_front(s, t, k),
        0 <= from <= to <= k,
    ensures
        digits_value(s, from, to) == digits_value(t, from, to),
    decreases to - from,
{
    if from < to {
        lemma_front_digits(s, t, k, from, to - 1);
        lemma_front(s, t, k, to - 1);
    }
}

/// A number that ends before the offset is read alike in both texts.
proof fn lemma_front_dec_uint(s: Seq<u8>, t: Seq<u8>, k: int, from: int)
    requires
        same_front(s, t, k),
        spec_dec_uint(s, from) matches Outcome::Match { value, end } && end < k,
    ensures
        spec_dec_uint(t, from) == spec_dec_uint(s, from),
{
    lemma_front(s, t, k, from);
    lemma_run_end(s, Class::Digit, from);
    if !has_byte(s, from, ZERO) {
        lemma_front_run(s, t, k, Class::Digit, from);
        lemma_front_digits(s, t, k, from, run_end(s, Class::Digit, from));
    }
}

/// A key that ends at or before the offset is read alike in both texts.
proof fn lemma_front_key(s: Seq<u8>, t: Seq<u8>, k: int, pos: int)
    requires
        same_front(s, t, k),
        spec_parse_key(s, pos) matches Outcome::Match { value, end } && end <= k,
    ensures
        spec_parse_key(t, pos) == spec_parse_key(s, pos),
{
    let open = eol_end(s, pos);
    let close = run_end(s, Class::Alpha, open + 1);
    let eq = run_end(s, Class::Blank, close + 1);
    let paren = run_end(s, Class::Blank, eq + 1);
    lemma_run_end(s, Class::Alpha, open + 1);
    lemma_run_end(s, Class::Blank, close + 1);
    lemma_run_end(s, Class::Blank, eq + 1);
    lemma_front(s, t, k, pos);
    lemma_front(s, t, k, pos + 1);
    lemma_front(s, t, k, open);
    lemma_front_run(s, t, k, Class::Alpha, open + 1);
    lemma_front(s, t, k, close);
    lemma_front_run(s, t, k, Class::Blank, close + 1);
    lemma_front(s, t, k, eq);
    lemma_front_run(s, t, k, Class::Blank, eq + 1);
    lemma_front(s, t, k, paren);
    assert(s.subrange(open + 1, close) =~= s.subrange(0, k).subrange(open + 1, close));
    assert(t.subrange(open + 1, close) =~= t.subrange(0, k).subrange(open + 1, close));
}

/// The text with a line ending put in is the same up to where it was put
/// in, and the same behind it.
proof fn lemma_with_line_ending(s: Seq<u8>, k: int, eol: Seq<u8>)
    requires
        0 <= k <= s.len(),
        is_line_ending(eol),
    ensures
        same_front(s, with_line_ending(s, k, eol), k),
        same_rest(with_line_ending(s, k, eol), k + eol.len(), s, k),
        eol_end(with_line_ending(s, k, eol), k) == k + eol.len(),
        run_end(with_line_ending(s, k, eol), Class::White, k) == run_end(
            with_line_ending(s, k, eol),
            Class::White,
            k + eol.len(),
        ),
{
    let t = with_line_ending(s, k, eol);
    assert(t.subrange(0, k) =~= s.subrange(0, k));
    assert(t.subrange(k + eol.len(), t.len() as int) =~= s.subrange(k, s.len() as int));
    assert(t[k] == eol[0]);
    if eol.len() == 2 {
        assert(t[k + 1] == eol[1]);
        assert(run_end(t, Class::White, k + 1) == run_end(t, Class::White, k + 2));
    }
}

/// A line ending behind the `(` of a prefab line changes nothing in what
/// the line holds: the line with the line ending is parsed to the same
/// key and the same prefabs, and ends as much later as the line ending is
/// long; if the line fails, so does the other, as much later.
pub proof fn lemma_line_ending_behind_key(s: Seq<u8>, pos: int, eol: Seq<u8>)
    requires
        spec_parse_key(s, pos) is Match,
        is_line_ending(eol),
    ensures
        spec_parse_prefab_line(with_line_ending(s, spec_parse_key(s, pos)->end, eol), pos) == moved(
            spec_parse_prefab_line(s, pos),
            eol.len() as int,
        ),
{
    let k = spec_parse_key(s, pos)->end;
    let t = with_line_ending(s, k, eol);
    let by = eol.len() as int;
    lemma_with_line_ending(s, k, eol);
    lemma_front_key(s, t, k, pos);
    lemma_rest_run(t, k + by, s, k, Class::White);
    let start = run_end(s, Class::White, k);
    lemma_rest(t, k + by, s, k, start - k);
    lemma_local_prefabs(t, start + by, s, start, true);
    if let Outcome::Match { value, end } = spec_prefabs(s, start, true) {
        lemma_rest(t, k + by, s, k, end - k);
    }
}

/// Whether a block starts at `pos` and has the `{"` of its rows at
/// `open`.
pub open spec fn opens_at(s: Seq<u8>, pos: int, open: int) -> bool {
    &&& spec_parse_coords(s, pos) is Match
    &&& has_byte(s, run_end(s, Class::Blank, spec_parse_coords(s, pos)->end), EQUALS)
    &&& open == run_end(
        s,
        Class::Blank,
        run_end(s, Class::Blank, spec_parse_coords(s, pos)->end) + 1,
    )
    &&& has_word(s, open, seq![BRACE_OPEN, QUOTE])
}

/// The head of a block, up to its `{"`, is read alike in two texts that
/// are the same up to behind the `{"`.
proof fn lemma_front_head(s: Seq<u8>, t: Seq<u8>, pos: int, open: int)
    requires
        opens_at(s, pos, open),
        same_front(s, t, open + 2),
    ensures
        opens_at(t, pos, open),
        spec_parse_coords(t, pos) == spec_parse_coords(s, pos),
{
    let k = open + 2;
    let after = spec_parse_coords(s, pos)->end;
    lemma_run_end(s, Class::Blank, after);
    let eq = run_end(s, Class::Blank, after);
    lemma_run_end(s, Class::Blank, eq + 1);
    lemma_front_coords(s, t, k, pos);
    lemma_front_run(s, t, k, Class::Blank, after);
    lemma_front(s, t, k, eq);
    lemma_front_run(s, t, k, Class::Blank, eq + 1);
    assert(t.subrange(open, open + 2) =~= t.subrange(0, k).subrange(open, open + 2));
    assert(s.subrange(open, open + 2) =~= s.subrange(0, k).subrange(open, open + 2));
}

/// The rows behind a `{"` are read alike with and without a line ending
/// behind the `{"`, where there was none.
proof fn lemma_rows_behind_opener(s: Seq<u8>, open: int, eol: Seq<u8>)
    requires
        has_word(s, open, seq![BRACE_OPEN, QUOTE]),
        has_word(with_line_ending(s, open + 2, eol), open, seq![BRACE_OPEN, QUOTE]),
        eol_end(s, open + 2) == open + 2,
        is_line_ending(eol),
    ensures
        spec_parse_map_lines(with_line_ending(s, open + 2, eol), open) == moved(
            spec_parse_map_lines(s, open),
            eol.len() as int,
        ),
{
    let k = open + 2;
    let t = with_line_ending(s, k, eol);
    let by = eol.len() as int;
    lemma_with_line_ending(s, k, eol);
    lemma_local_rows(t, k + by, s, k, true);
    if let Outcome::Match { value, end } = spec_rows(s, k, true) {
        lemma_rest(t, k + by, s, k, end - k);
        lemma_rest_eol(t, end + by, s, end);
        let close = eol_end(s, end);
        lemma_rest(t, k + by, s, k, close - k);
        lemma_rest_word(t, close + by, s, close, seq![QUOTE, BRACE_CLOSE]);
    }
}

/// A line ending behind the `{"` of a block that has none there changes
/// nothing in what the block holds: the block with the line ending is
/// parsed to the same anchor and the same rows, and ends as much later as
/// the line ending is long; if the block fails behind its `{"`, so does
/// the other, as much later.
pub proof fn lemma_line_ending_behind_opener(s: Seq<u8>, pos: int, open: int, eol: Seq<u8>)
    requires
        opens_at(s, pos, open),
        eol_end(s, open + 2) == open + 2,
        is_line_ending(eol),
    ensures
        spec_parse_block(with_line_ending(s, open + 2, eol), pos) == moved(
            spec_parse_block(s, pos),
            eol.len() as int,
        ),
{
    let t = with_line_ending(s, open + 2, eol);
    lemma_with_line_ending(s, open + 2, eol);
    lemma_front_head(s, t, pos, open);
    lemma_rows_behind_opener(s, open, eol);
}

/// A coordinate that ends before the offset is read alike in both texts.
proof fn lemma_front_coords(s: Seq<u8>, t: Seq<u8>, k: int, pos: int)
    requires
        same_front(s, t, k),
        spec_parse_coords(s, pos) matches Outcome::Match { value, end } && end < k,
    ensures
        spec_parse_coords(t, pos) == spec_parse_coords(s, pos),
{
    lemma_front(s, t, k, pos);
    let after_x = spec_dec_uint(s, pos + 1)->end;
    let after_y = spec_dec_uint(s, after_x + 1)->end;
    let after_z = spec_dec_uint(s, after_y + 1)->end;
    lemma_dec_uint_forward(s, pos + 1);
    lemma_dec_uint_forward(s, after_x + 1);
    lemma_dec_uint_forward(s, after_y + 1);
    lemma_front_dec_uint(s, t, k, pos + 1);
    lemma_front(s, t, k, after_x);
    lemma_front_dec_uint(s, t, k, after_x + 1);
    lemma_front(s, t, k, after_y);
    lemma_front_dec_uint(s, t, k, after_y + 1);
    lemma_front(s, t, k, after_z);
}

/// A number that is read ends behind where it starts.
proof fn lemma_dec_uint_forward(s: Seq<u8>, from: int)
    ensures
        spec_dec_uint(s, from) matches Outcome::Match { value, end } ==> from < end <= s.len(),
{
    lemma_run_end(s, Class::Digit, from);
}

/// Bytes before the offset are cut out of both texts alike.
proof fn lemma_front_cut(s: Seq<u8>, t: Seq<u8>, k: int, from: int, to: int)
    requires
        same_front(s, t, k),
        0 <= from <= to <= k,
    ensures
        s.subrange(from, to) == t.subrange(from, to),
{
    assert(s.subrange(from, to) =~= s.subrange(0, k).subrange(from, to));
    assert(t.subrange(from, to) =~= t.subrange(0, k).subrange(from, to));
}

/// White space before the offset stands at the same places of both texts.
proof fn lemma_front_space(s: Seq<u8>, t: Seq<u8>, k: int, from: int, to: int)
    requires
        same_front(s, t, k),
        0 <= from <= to <= k,
    ensures
        space_ahead(s, from, to) == space_ahead(t, from, to),
        space_behind(s, from, to) == space_behind(t, from, to),
{
    if from < to {
        lemma_front(s, t, k, from);
        lemma_front(s, t, k, to - 1);
        if from + 2 <= to {
            lemma_front(s, t, k, from + 1);
            lemma_front(s, t, k, to - 2);
        }
        if from + 3 <= to {
            lemma_front(s, t, k, from + 2);
            lemma_front(s, t, k, to - 3);
        }
    }
}

/// White space before the offset is cut off the start alike in both
/// texts.
proof fn lemma_front_trim_start(s: Seq<u8>, t: Seq<u8>, k: int, from: int, to: int)
    requires
        same_front(s, t, k),
        0 <= from <= to <= k,
    ensures
        trim_start(s, from, to) == trim_start(t, from, to),
        from <= trim_start(s, from, to) <= to,
    decreases to - from,
{
    lemma_front_space(s, t, k, from, to);
    let width = space_ahead(s, from, to);
    if width > 0 {
        lemma_front_trim_start(s, t, k, from + width, to);
    }
}

/// White space before the offset is cut off the end alike in both texts.
proof fn lemma_front_trim_end(s: Seq<u8>, t: Seq<u8>, k: int, from: int, to: int)
    requires
        same_front(s, t, k),
        0 <= from <= to <= k,
    ensures
        trim_end(s, from, to) == trim_end(t, from, to),
        from <= trim_end(s, from, to) <= to,
    decreases to - from,
{
    lemma_front_space(s, t, k, from, to);
    let width = space_behind(s, from, to);
    if width > 0 {
        lemma_front_trim_end(s, t, k, from, to - width);
    }
}

/// The same piece is cut out of both texts before the offset.
proof fn lemma_front_piece(s: Seq<u8>, t: Seq<u8>, k: int, from: int, to: int)
    requires
        same_front(s, t, k),
        0 <= from <= to <= k,
    ensures
        piece(s, from, to) == piece(t, from, to),
{
    lemma_front_trim_start(s, t, k, from, to);
    let a = trim_start(s, from, to);
    lemma_front_trim_end(s, t, k, a, to);
    let b = trim_end(s, a, to);
    if a < b {
        lemma_front_cut(s, t, k, a, b);
    }
}

/// A block of variables that closes is split behind where the scan
/// stands, and inside the text.
proof fn lemma_split_forward(s: Seq<u8>, start: int, pos: int, in_str: bool)
    requires
        0 <= start <= pos,
    ensures
        spec_split(s, start, pos, in_str) matches Outcome::Match { value, end } ==> pos < end
            <= s.len(),
    decreases s.len() - pos,
{
    if pos < s.len() {
        if s[pos] == BACKSLASH && has_byte(s, pos + 1, QUOTE) {
            lemma_split_forward(s, start, pos + 2, in_str);
        } else if s[pos] == QUOTE {
            lemma_split_forward(s, start, pos + 1, !in_str);
        } else if (s[pos] == SEMICOLON && !in_str) || (s[pos] == LINE_FEED && in_str) {
            lemma_run_end(s, Class::White, pos + 1);
            let next = run_end(s, Class::White, pos + 1);
            lemma_split_forward(s, next, next, false);
        } else if s[pos] == BRACE_CLOSE && !in_str {
        } else {
            lemma_split_forward(s, start, pos + 1, in_str);
        }
    }
}

/// A block of variables that closes at or before the offset is split
/// alike in both texts.
proof fn lemma_front_split(s: Seq<u8>, t: Seq<u8>, k: int, start: int, pos: int, in_str: bool)
    requires
        same_front(s, t, k),
        0 <= start <= pos,
        spec_split(s, start, pos, in_str) matches Outcome::Match { value, end } && end <= k,
    ensures
        spec_split(t, start, pos, in_str) == spec_split(s, start, pos, in_str),
    decreases s.len() - pos,
{
    lemma_split_forward(s, start, pos, in_str);
    lemma_front(s, t, k, pos);
    if s[pos] == BACKSLASH {
        lemma_split_forward(s, start, pos + 1, in_str);
        lemma_split_forward(s, start, pos + 2, in_str);
        lemma_front(s, t, k, pos + 1);
    }
    if s[pos] == BACKSLASH && has_byte(s, pos + 1, QUOTE) {
        lemma_front_split(s, t, k, start, pos + 2, in_str);
    } else if s[pos] == QUOTE {
        lemma_front_split(s, t, k, start, pos + 1, !in_str);
    } else if (s[pos] == SEMICOLON && !in_str) || (s[pos] == LINE_FEED && in_str) {
        lemma_run_end(s, Class::White, pos + 1);
        let next = run_end(s, Class::White, pos + 1);
        lemma_split_forward(s, next, next, false);
        lemma_front_run(s, t, k, Class::White, pos + 1);
        lemma_front_piece(s, t, k, start, pos);
        lemma_front_split(s, t, k, next, next, false);
    } else if s[pos] == BRACE_CLOSE && !in_str {
        lemma_front_piece(s, t, k, start, pos);
    } else {
        lemma_front_split(s, t, k, start, pos + 1, in_str);
    }
}

/// The bindings of a block of variables that closes at or before the
/// offset are read alike in both texts; and where no block starts before
/// the offset in one, none does in the other.
proof fn lemma_front_var_list(s: Seq<u8>, t: Seq<u8>, k: int, p: int)
    requires
        same_front(s, t, k),
        0 <= p < k,
        !has_byte(s, p, BRACE_OPEN) || (spec_parse_var_list(s, p) matches Outcome::Match {
            value,
            end,
        } && end <= k),
    ensures
        spec_parse_var_list(t, p) == spec_parse_var_list(s, p),
{
    lemma_front(s, t, k, p);
    if has_byte(s, p, BRACE_OPEN) {
        lemma_front_split(s, t, k, p + 1, p + 1, false);
    }
}

/// A prefab that ends before the offset, with no `{` behind it, is read
/// alike in both texts.
proof fn lemma_front_prefab(s: Seq<u8>, t: Seq<u8>, k: int, p: int)
    requires
        same_front(s, t, k),
        0 <= p,
        spec_parse_prefab(s, p) matches Outcome::Match { value, end } && end < k && !has_byte(
            s,
            end,
            BRACE_OPEN,
        ),
    ensures
        spec_parse_prefab(t, p) == spec_parse_prefab(s, p),
{
    reveal(spec_parse_prefab);
    lemma_run_end(s, Class::PathByte, p);
    let after = run_end(s, Class::PathByte, p);
    lemma_local_var_list(s, after, s, after);
    lemma_front(s, t, k, p);
    lemma_front_run(s, t, k, Class::PathByte, p);
    lemma_front_cut(s, t, k, p, after);
    lemma_front_var_list(s, t, k, after);
}

/// The prefabs of a line that end before the offset, with `)` behind
/// them, are read alike in both texts.
proof fn lemma_front_prefabs(s: Seq<u8>, t: Seq<u8>, k: int, p: int, first: bool)
    requires
        same_front(s, t, k),
        0 <= p <= s.len(),
        spec_prefabs(s, p, first) matches Outcome::Match { value, end } && end < k && has_byte(
            s,
            end,
            PAREN_CLOSE,
        ),
    ensures
        spec_prefabs(t, p, first) == spec_prefabs(s, p, first),
    decreases s.len() - p,
{
    reveal(spec_parse_prefab);
    lemma_local_prefab(s, p, s, p);
    lemma_local_prefabs(s, p, s, p, first);
    lemma_front(s, t, k, p);
    if let Outcome::Match { value, end } = spec_parse_prefab(s, p) {
        lemma_run_end(s, Class::White, end);
        let comma = run_end(s, Class::White, end);
        let after_comma = if has_byte(s, comma, COMMA) {
            comma + 1
        } else {
            comma
        };
        lemma_run_end(s, Class::White, after_comma);
        let next = trailer_end(s, end);
        lemma_local_prefabs(s, next, s, next, false);
        lemma_front_run(s, t, k, Class::White, end);
        lemma_front(s, t, k, comma);
        lemma_front_run(s, t, k, Class::White, after_comma);
        lemma_front_prefab(s, t, k, p);
        lemma_front_prefabs(s, t, k, next, false);
    }
}

/// A prefab line that ends at or before the offset is read alike in both
/// texts: what stands behind a prefab line does not change what the line
/// is.
pub proof fn lemma_front_prefab_line(s: Seq<u8>, t: Seq<u8>, k: int, p: int)
    requires
        same_front(s, t, k),
        0 <= p <= s.len(),
        spec_parse_prefab_line(s, p) matches Outcome::Match { value, end } && end <= k,
    ensures
        spec_parse_prefab_line(t, p) == spec_parse_prefab_line(s, p),
{
    lemma_local_key(s, p, s, p);
    let after = spec_parse_key(s, p)->end;
    lemma_run_end(s, Class::White, after);
    let start = run_end(s, Class::White, after);
    lemma_local_prefabs(s, start, s, start, true);
    let close = spec_prefabs(s, start, true)->end;
    lemma_front_key(s, t, k, p);
    lemma_front_run(s, t, k, Class::White, after);
    lemma_front_prefabs(s, t, k, start, true);
    lemma_front(s, t, k, close);
}

/// The text `s` from `p` on.
pub open spec fn behind(s: Seq<u8>, p: int) -> Seq<u8> {
    s.subrange(p, s.len() as int)
}

/// A text from an offset on is the same text as itself from its start.
proof fn lemma_behind(s: Seq<u8>, p: int)
    requires
        0 <= p <= s.len(),
    ensures
        same_rest(s, p, behind(s, p), 0),
        behind(s, p).len() == s.len() - p,
{
    let a = behind(s, p);
    assert(a.subrange(0, a.len() as int) =~= a);
}

/// Two texts that hold the same `n` bytes from two offsets on are the same
/// up to `n`, taken from those offsets on.
proof fn lemma_behind_front(s: Seq<u8>, p: int, t: Seq<u8>, q: int, n: int)
    requires
        0 <= p,
        0 <= q,
        0 <= n,
        p + n <= s.len(),
        q + n <= t.len(),
        s.subrange(p, p + n) == t.subrange(q, q + n),
    ensures
        same_front(behind(s, p), behind(t, q), n),
{
    assert(behind(s, p).subrange(0, n) =~= s.subrange(p, p + n));
    assert(behind(t, q).subrange(0, n) =~= t.subrange(q, q + n));
}

/// A prefab line is what its own bytes spell: a text that holds the bytes
/// of a prefab line at some offset holds that line there, whatever stands
/// before and behind.
pub proof fn lemma_line_by_its_bytes(s: Seq<u8>, p: int, t: Seq<u8>, q: int)
    requires
        0 <= p <= s.len(),
        spec_parse_prefab_line(s, p) is Match,
        0 <= q,
        q + (spec_parse_prefab_line(s, p)->end - p) <= t.len(),
        t.subrange(q, q + (spec_parse_prefab_line(s, p)->end - p)) == s.subrange(
            p,
            spec_parse_prefab_line(s, p)->end,
        ),
    ensures
        spec_parse_prefab_line(t, q) == moved(spec_parse_prefab_line(s, p), q - p),
{
    let end = spec_parse_prefab_line(s, p)->end;
    lemma_line_forward(s, p);
    lemma_behind(s, p);
    lemma_behind(t, q);
    lemma_behind_front(s, p, t, q, end - p);
    lemma_local_prefab_line(s, p, behind(s, p), 0);
    lemma_local_prefab_line(t, q, behind(t, q), 0);
    lemma_front_prefab_line(behind(s, p), behind(t, q), end - p, 0);
    lemma_moved_twice(spec_parse_prefab_line(behind(s, p), 0), p, q - p);
}

/// A line ending that ends before the offset is as long in both texts.
proof fn lemma_front_eol(s: Seq<u8>, t: Seq<u8>, k: int, pos: int)
    requires
        same_front(s, t, k),
        pos + 1 < k,
    ensures
        eol_end(t, pos) == eol_end(s, pos),
{
    lemma_front(s, t, k, pos);
    lemma_front(s, t, k, pos + 1);
}

/// Rows with two bytes more behind them before the offset are read alike
/// in both texts.
proof fn lemma_front_rows(s: Seq<u8>, t: Seq<u8>, k: int, pos: int, first: bool)
    requires
        same_front(s, t, k),
        0 <= pos <= s.len(),
        spec_rows(s, pos, first) matches Outcome::Match { value, end } && end + 2 <= k,
    ensures
        spec_rows(t, pos, first) == spec_rows(s, pos, first),
    decreases s.len() - pos,
{
    lemma_local_rows(s, pos, s, pos, first);
    lemma_run_end(s, Class::Alpha, pos);
    let end = run_end(s, Class::Alpha, pos);
    if pos < end {
        lemma_rest_eol(s, end, s, end);
        let next = eol_end(s, end);
        lemma_local_rows(s, next, s, next, false);
        lemma_front_run(s, t, k, Class::Alpha, pos);
        lemma_front_cut(s, t, k, pos, end);
        lemma_front_eol(s, t, k, end);
        lemma_front_rows(s, t, k, next, false);
    } else {
        lemma_front_run(s, t, k, Class::Alpha, pos);
    }
}

/// A block that ends at or before the offset is read alike in both texts:
/// what stands behind a block does not change what the block is.
pub proof fn lemma_front_block(s: Seq<u8>, t: Seq<u8>, k: int, p: int)
    requires
        same_front(s, t, k),
        0 <= p <= s.len(),
        spec_parse_block(s, p) matches Outcome::Match { value, end } && end <= k,
    ensures
        spec_parse_block(t, p) == spec_parse_block(s, p),
{
    let after = spec_parse_coords(s, p)->end;
    lemma_local_coords(s, p, s, p);
    lemma_run_end(s, Class::Blank, after);
    let eq = run_end(s, Class::Blank, after);
    lemma_run_end(s, Class::Blank, eq + 1);
    let open = run_end(s, Class::Blank, eq + 1);
    lemma_rest_eol(s, open + 2, s, open + 2);
    let start = eol_end(s, open + 2);
    lemma_local_rows(s, start, s, start, true);
    let last = spec_rows(s, start, true)->end;
    lemma_rest_eol(s, last, s, last);
    let close = eol_end(s, last);
    lemma_front_coords(s, t, k, p);
    lemma_front_run(s, t, k, Class::Blank, after);
    lemma_front(s, t, k, eq);
    lemma_front_run(s, t, k, Class::Blank, eq + 1);
    lemma_front_cut(s, t, k, open, open + 2);
    lemma_front_eol(s, t, k, open + 2);
    lemma_front_rows(s, t, k, start, true);
    lemma_front_eol(s, t, k, last);
    lemma_front_cut(s, t, k, close, close + 2);
}

/// A block is what its own bytes spell: a text that holds the bytes of a
/// block at some offset holds that block there, whatever stands before
/// and behind.
pub proof fn lemma_block_by_its_bytes(s: Seq<u8>, p: int, t: Seq<u8>, q: int)
    requires
        0 <= p <= s.len(),
        spec_parse_block(s, p) is Match,
        0 <= q,
        q + (spec_parse_block(s, p)->end - p) <= t.len(),
        t.subrange(q, q + (spec_parse_block(s, p)->end - p)) == s.subrange(
            p,
            spec_parse_block(s, p)->end,
        ),
    ensures
        spec_parse_block(t, q) == moved(spec_parse_block(s, p), q - p),
{
    let end = spec_parse_block(s, p)->end;
    lemma_block_forward(s, p);
    lemma_behind(s, p);
    lemma_behind(t, q);
    lemma_behind_front(s, p, t, q, end - p);
    lemma_local_block(s, p, behind(s, p), 0);
    lemma_local_block(t, q, behind(t, q), 0);
    lemma_front_block(behind(s, p), behind(t, q), end - p, 0);
    lemma_moved_twice(spec_parse_block(behind(s, p), 0), p, q - p);
}

/// A block that is read ends behind where it starts, inside the text.
proof fn lemma_block_forward(s: Seq<u8>, p: int)
    requires
        0 <= p <= s.len(),
    ensures
        spec_parse_block(s, p) matches Outcome::Match { value, end } ==> p < end <= s.len(),
{
    if spec_parse_block(s, p) is Match {
        let after = spec_parse_coords(s, p)->end;
        lemma_local_coords(s, p, s, p);
        lemma_run_end(s, Class::Blank, after);
        let eq = run_end(s, Class::Blank, after);
        lemma_run_end(s, Class::Blank, eq + 1);
        let open = run_end(s, Class::Blank, eq + 1);
        lemma_rest_eol(s, open + 2, s, open + 2);
        let start = eol_end(s, open + 2);
        lemma_local_rows(s, start, s, start, true);
        let last = spec_rows(s, start, true)->end;
        lemma_rest_eol(s, last, s, last);
    }
}

/// The bytes of the prefab line at `p`.
pub open spec fn line_bytes(s: Seq<u8>, p: int) -> Seq<u8> {
    s.subrange(p, spec_parse_prefab_line(s, p)->end)
}

/// The prefab line `line` with the line ending `eol` behind the `(` of
/// its key.
pub open spec fn tabular_line(line: Seq<u8>, eol: Seq<u8>) -> Seq<u8> {
    with_line_ending(line, spec_parse_key(line, 0)->end, eol)
}

/// Whether `t` holds at `q` the prefab line that `s` holds at `p`, with
/// the line ending `eol` behind the `(` of its key.
pub open spec fn line_made_tabular(s: Seq<u8>, p: int, t: Seq<u8>, q: int, eol: Seq<u8>) -> bool {
    &&& 0 <= p <= s.len()
    &&& spec_parse_prefab_line(s, p) is Match
    &&& is_line_ending(eol)
    &&& has_word(t, q, tabular_line(line_bytes(s, p), eol))
}

/// A prefab line that is read has a key, which ends inside the line, and
/// the line ends inside the text.
proof fn lemma_line_forward(s: Seq<u8>, p: int)
    requires
        0 <= p <= s.len(),
    ensures
        spec_parse_prefab_line(s, p) matches Outcome::Match { value, end } ==> spec_parse_key(
            s,
            p,
        ) is Match && p < spec_parse_key(s, p)->end < end <= s.len(),
{
    if spec_parse_prefab_line(s, p) is Match {
        lemma_local_key(s, p, s, p);
        let after = spec_parse_key(s, p)->end;
        lemma_run_end(s, Class::White, after);
        let start = run_end(s, Class::White, after);
        lemma_local_prefabs(s, start, s, start, true);
    }
}

/// Moving an outcome twice moves it by the sum.
proof fn lemma_moved_twice<V>(o: Outcome<V>, a: int, b: int)
    ensures
        moved(moved(o, a), b) == moved(o, a + b),
        moved(o, a) is Match <==> o is Match,
        o is Match ==> moved(o, a)->end == o->end + a,
{
}

/// The bytes of a prefab line, taken alone, are that prefab line.
proof fn lemma_line_alone(s: Seq<u8>, p: int)
    requires
        0 <= p <= s.len(),
        spec_parse_prefab_line(s, p) is Match,
    ensures
        spec_parse_prefab_line(line_bytes(s, p), 0) == moved(spec_parse_prefab_line(s, p), -p),
        line_bytes(s, p).len() == spec_parse_prefab_line(s, p)->end - p,
{
    let end = spec_parse_prefab_line(s, p)->end;
    let line = line_bytes(s, p);
    lemma_line_forward(s, p);
    assert(line.subrange(0, end - p) =~= line);
    lemma_line_by_its_bytes(s, p, line, 0);
}

/// A text that holds nothing but a prefab line holds the same line when a
/// line ending is put in behind the `(` of its key, and is longer by that
/// line ending.
proof fn lemma_tabular_line_alone(line: Seq<u8>, eol: Seq<u8>)
    requires
        spec_parse_prefab_line(line, 0) is Match,
        is_line_ending(eol),
    ensures
        spec_parse_prefab_line(tabular_line(line, eol), 0) == moved(
            spec_parse_prefab_line(line, 0),
            eol.len() as int,
        ),
        tabular_line(line, eol).len() == line.len() + eol.len(),
{
    lemma_line_forward(line, 0);
    lemma_line_ending_behind_key(line, 0, eol);
}

/// A text that holds at `q` all the bytes of a text that is a prefab line
/// holds that line there.
proof fn lemma_line_placed(line: Seq<u8>, t: Seq<u8>, q: int)
    requires
        spec_parse_prefab_line(line, 0) is Match,
        spec_parse_prefab_line(line, 0)->end == line.len(),
        has_word(t, q, line),
    ensures
        spec_parse_prefab_line(t, q) == moved(spec_parse_prefab_line(line, 0), q),
{
    assert(line.subrange(0, line.len() as int) =~= line);
    lemma_line_by_its_bytes(line, 0, t, q);
}

/// A prefab line holds the same in both dialects, wherever it stands and
/// whatever stands around it: the line with a line ending behind the `(`
/// of its key is parsed to the same key and the same prefabs.
pub proof fn lemma_tabular_line(s: Seq<u8>, p: int, t: Seq<u8>, q: int, eol: Seq<u8>)
    requires
        line_made_tabular(s, p, t, q, eol),
    ensures
        spec_parse_prefab_line(t, q) == moved(
            spec_parse_prefab_line(s, p),
            q - p + eol.len() as int,
        ),
{
    let line = line_bytes(s, p);
    let tabular = tabular_line(line, eol);
    lemma_line_alone(s, p);
    lemma_moved_twice(spec_parse_prefab_line(s, p), -p, eol.len() as int);
    lemma_tabular_line_alone(line, eol);
    lemma_moved_twice(spec_parse_prefab_line(line, 0), eol.len() as int, q);
    lemma_line_placed(tabular, t, q);
    lemma_moved_twice(spec_parse_prefab_line(s, p), -p + eol.len() as int, q);
}

/// The bytes of the block at `p`.
pub open spec fn block_bytes(s: Seq<u8>, p: int) -> Seq<u8> {
    s.subrange(p, spec_parse_block(s, p)->end)
}

/// The offset of the `{"` of the block at `p`.
pub open spec fn opener(s: Seq<u8>, p: int) -> int {
    run_end(s, Class::Blank, run_end(s, Class::Blank, spec_parse_coords(s, p)->end) + 1)
}

/// The block `block` with the line ending `eol` behind its `{"`.
pub open spec fn tabular_block(block: Seq<u8>, eol: Seq<u8>) -> Seq<u8> {
    with_line_ending(block, opener(block, 0) + 2, eol)
}

/// Whether `t` holds at `q` the block that `s` holds at `p`, which has no
/// line ending behind its `{"`, with the line ending `eol` there.
pub open spec fn block_made_tabular(s: Seq<u8>, p: int, t: Seq<u8>, q: int, eol: Seq<u8>) -> bool {
    &&& 0 <= p <= s.len()
    &&& spec_parse_block(s, p) is Match
    &&& eol_end(s, opener(s, p) + 2) == opener(s, p) + 2
    &&& is_line_ending(eol)
    &&& has_word(t, q, tabular_block(block_bytes(s, p), eol))
}

/// A block that is read opens with `{"` behind its anchor.
proof fn lemma_block_opens(s: Seq<u8>, p: int)
    requires
        0 <= p <= s.len(),
        spec_parse_block(s, p) is Match,
    ensures
        opens_at(s, p, opener(s, p)),
        p < opener(s, p) + 2 < spec_parse_block(s, p)->end <= s.len(),
{
    let after = spec_parse_coords(s, p)->end;
    lemma_local_coords(s, p, s, p);
    lemma_run_end(s, Class::Blank, after);
    let eq = run_end(s, Class::Blank, after);
    lemma_run_end(s, Class::Blank, eq + 1);
    let open = run_end(s, Class::Blank, eq + 1);
    lemma_rest_eol(s, open + 2, s, open + 2);
    let start = eol_end(s, open + 2);
    lemma_local_rows(s, start, s, start, true);
    let last = spec_rows(s, start, true)->end;
    lemma_rest_eol(s, last, s, last);
}

/// The bytes of a block, taken alone, are that block, and no line ending
/// stands behind its `{"` where none does in the text.
proof fn lemma_block_alone(s: Seq<u8>, p: int)
    requires
        0 <= p <= s.len(),
        spec_parse_block(s, p) is Match,
    ensures
        spec_parse_block(block_bytes(s, p), 0) == moved(spec_parse_block(s, p), -p),
        block_bytes(s, p).len() == spec_parse_block(s, p)->end - p,
        eol_end(s, opener(s, p) + 2) == opener(s, p) + 2 ==> eol_end(
            block_bytes(s, p),
            opener(block_bytes(s, p), 0) + 2,
        ) == opener(block_bytes(s, p), 0) + 2,
{
    let end = spec_parse_block(s, p)->end;
    let block = block_bytes(s, p);
    lemma_block_forward(s, p);
    assert(block.subrange(0, end - p) =~= block);
    lemma_block_by_its_bytes(s, p, block, 0);
    lemma_opener_by_its_bytes(s, p);
}

/// A text that holds nothing but a block holds the same block when a line
/// ending is put in behind its `{"`, where there was none, and is longer
/// by that line ending.
proof fn lemma_tabular_block_alone(block: Seq<u8>, eol: Seq<u8>)
    requires
        spec_parse_block(block, 0) is Match,
        eol_end(block, opener(block, 0) + 2) == opener(block, 0) + 2,
        is_line_ending(eol),
    ensures
        spec_parse_block(tabular_block(block, eol), 0) == moved(
            spec_parse_block(block, 0),
            eol.len() as int,
        ),
        tabular_block(block, eol).len() == block.len() + eol.len(),
{
    lemma_block_opens(block, 0);
    lemma_line_ending_behind_opener(block, 0, opener(block, 0), eol);
}

/// A text that holds at `q` all the bytes of a text that is a block holds
/// that block there.
proof fn lemma_block_placed(block: Seq<u8>, t: Seq<u8>, q: int)
    requires
        spec_parse_block(block, 0) is Match,
        spec_parse_block(block, 0)->end == block.len(),
        has_word(t, q, block),
    ensures
        spec_parse_block(t, q) == moved(spec_parse_block(block, 0), q),
{
    assert(block.subrange(0, block.len() as int) =~= block);
    lemma_block_by_its_bytes(block, 0, t, q);
}

/// A block holds the same in both dialects, wherever it stands and
/// whatever stands around it: the block with a line ending behind its
/// `{"` is parsed to the same anchor and the same rows.
pub proof fn lemma_tabular_block(s: Seq<u8>, p: int, t: Seq<u8>, q: int, eol: Seq<u8>)
    requires
        block_made_tabular(s, p, t, q, eol),
    ensures
        spec_parse_block(t, q) == moved(spec_parse_block(s, p), q - p + eol.len() as int),
{
    let block = block_bytes(s, p);
    let tabular = tabular_block(block, eol);
    lemma_block_alone(s, p);
    lemma_moved_twice(spec_parse_block(s, p), -p, eol.len() as int);
    lemma_tabular_block_alone(block, eol);
    lemma_moved_twice(spec_parse_block(block, 0), eol.len() as int, q);
    lemma_block_placed(tabular, t, q);
    lemma_moved_twice(spec_parse_block(s, p), -p + eol.len() as int, q);
}

/// The `{"` of a block stands as far behind the start of the block in
/// the rest of the text as in the text, and the same bytes follow it.
proof fn lemma_opener_rest(s: Seq<u8>, p: int, a: Seq<u8>)
    requires
        same_rest(s, p, a, 0),
        spec_parse_block(s, p) is Match,
    ensures
        opener(a, 0) == opener(s, p) - p,
        eol_end(a, opener(s, p) - p + 2) == eol_end(s, opener(s, p) + 2) - p,
{
    lemma_local_coords(s, p, a, 0);
    let after = spec_parse_coords(s, p)->end;
    lemma_rest(s, p, a, 0, after - p);
    lemma_rest_run(s, after, a, after - p, Class::Blank);
    let eq = run_end(s, Class::Blank, after);
    lemma_rest(s, p, a, 0, eq + 1 - p);
    lemma_rest_run(s, eq + 1, a, eq + 1 - p, Class::Blank);
    let open = opener(s, p);
    lemma_rest(s, p, a, 0, open + 2 - p);
    lemma_rest_eol(s, open + 2, a, open + 2 - p);
}

/// The `{"` of a block that ends at or before the offset stands at the
/// same place in both texts, and the same bytes follow it.
proof fn lemma_opener_front(a: Seq<u8>, b: Seq<u8>, k: int)
    requires
        same_front(a, b, k),
        spec_parse_block(a, 0) matches Outcome::Match { value, end } && end <= k,
    ensures
        opener(b, 0) == opener(a, 0),
        eol_end(b, opener(a, 0) + 2) == eol_end(a, opener(a, 0) + 2),
{
    lemma_block_opens(a, 0);
    let after = spec_parse_coords(a, 0)->end;
    lemma_run_end(a, Class::Blank, after);
    let eq = run_end(a, Class::Blank, after);
    lemma_run_end(a, Class::Blank, eq + 1);
    let open = opener(a, 0);
    lemma_rest_eol(a, open + 2, a, open + 2);
    let start = eol_end(a, open + 2);
    lemma_local_rows(a, start, a, start, true);
    lemma_front_coords(a, b, k, 0);
    lemma_front_run(a, b, k, Class::Blank, after);
    lemma_front_run(a, b, k, Class::Blank, eq + 1);
    lemma_front_eol(a, b, k, open + 2);
}

/// The `{"` of a block stands as far behind the start of the block in the
/// bytes of the block alone as in the text, and the same bytes follow it.
proof fn lemma_opener_by_its_bytes(s: Seq<u8>, p: int)
    requires
        0 <= p <= s.len(),
        spec_parse_block(s, p) is Match,
    ensures
        opener(block_bytes(s, p), 0) == opener(s, p) - p,
        eol_end(block_bytes(s, p), opener(s, p) - p + 2) == eol_end(s, opener(s, p) + 2) - p,
{
    let end = spec_parse_block(s, p)->end;
    let block = block_bytes(s, p);
    lemma_block_forward(s, p);
    lemma_behind(s, p);
    let a = behind(s, p);
    assert(a.subrange(0, end - p) =~= block);
    assert(block.subrange(0, end - p) =~= block);
    lemma_local_block(s, p, a, 0);
    lemma_moved_twice(spec_parse_block(a, 0), p, 0);
    lemma_opener_rest(s, p, a);
    lemma_opener_front(a, block, end - p);
}

/// Whether `t` holds at `q` the prefab line that `s` holds at `p`, with a
/// line ending behind the `(` of its key.
pub open spec fn tabular_line_at(s: Seq<u8>, p: int, t: Seq<u8>, q: int) -> bool {
    line_made_tabular(s, p, t, q, seq![LINE_FEED]) || line_made_tabular(
        s,
        p,
        t,
        q,
        seq![CARRIAGE_RETURN, LINE_FEED],
    )
}

/// Whether `t` holds at `q` the block that `s` holds at `p`, with a line
/// ending behind its `{"`, where `s` has none.
pub open spec fn tabular_block_at(s: Seq<u8>, p: int, t: Seq<u8>, q: int) -> bool {
    block_made_tabular(s, p, t, q, seq![LINE_FEED]) || block_made_tabular(
        s,
        p,
        t,
        q,
        seq![CARRIAGE_RETURN, LINE_FEED],
    )
}

/// Whether the two texts hold the same map, `d` in the dense dialect and
/// `t` in the tabular one: `t` holds at `lines_t` and `blocks_t` the
/// prefab lines and the blocks that `d` holds at `lines_d` and
/// `blocks_d`, each with a line ending behind its opener.
pub open spec fn made_tabular(
    d: Seq<u8>,
    lines_d: Seq<usize>,
    blocks_d: Seq<usize>,
    t: Seq<u8>,
    lines_t: Seq<usize>,
    blocks_t: Seq<usize>,
) -> bool {
    &&& lines_d.len() == lines_t.len()
    &&& forall|k: int|
        0 <= k < lines_d.len() ==> #[trigger] tabular_line_at(
            d,
            lines_d[k] as int,
            t,
            lines_t[k] as int,
        )
    &&& blocks_d.len() == blocks_t.len()
    &&& forall|k: int|
        0 <= k < blocks_d.len() ==> #[trigger] tabular_block_at(
            d,
            blocks_d[k] as int,
            t,
            blocks_t[k] as int,
        )
}

/// The prefab lines of the two texts are the same, one by one, and make
/// the same table.
proof fn lemma_tables_agree(
    d: Seq<u8>,
    lines_d: Seq<usize>,
    t: Seq<u8>,
    lines_t: Seq<usize>,
    n: int,
)
    requires
        lines_d.len() == lines_t.len(),
        forall|k: int|
            0 <= k < lines_d.len() ==> #[trigger] tabular_line_at(
                d,
                lines_d[k] as int,
                t,
                lines_t[k] as int,
            ),
    ensures
        all_lines_match(d, lines_d, n),
        all_lines_match(t, lines_t, n),
        table_upto(t, lines_t, n) == table_upto(d, lines_d, n),
    decreases n,
{
    assert forall|k: int| 0 <= k < lines_d.len() implies (#[trigger] spec_parse_prefab_line(
        d,
        lines_d[k] as int,
    )) is Match && spec_parse_prefab_line(t, lines_t[k] as int) is Match && spec_parse_prefab_line(
        t,
        lines_t[k] as int,
    )->value == spec_parse_prefab_line(d, lines_d[k] as int)->value by {
        assert(tabular_line_at(d, lines_d[k] as int, t, lines_t[k] as int));
        if line_made_tabular(d, lines_d[k] as int, t, lines_t[k] as int, seq![LINE_FEED]) {
            lemma_tabular_line(d, lines_d[k] as int, t, lines_t[k] as int, seq![LINE_FEED]);
        } else {
            lemma_tabular_line(
                d,
                lines_d[k] as int,
                t,
                lines_t[k] as int,
                seq![CARRIAGE_RETURN, LINE_FEED],
            );
        }
    }
    assert forall|k: int| 0 <= k < n && k < lines_t.len() implies (#[trigger] spec_parse_prefab_line(
        t,
        lines_t[k] as int,
    )) is Match by {
        assert(spec_parse_prefab_line(d, lines_d[k] as int) is Match);
    }
    if 0 < n <= lines_d.len() {
        lemma_tables_agree(d, lines_d, t, lines_t, n - 1);
        assert(spec_parse_prefab_line(d, lines_d[n - 1] as int) is Match);
    }
}

/// A map holds the same in both dialects. Where two texts hold the same
/// prefab lines and the same blocks, one without and one with a line
/// ending behind each opener, parsing the one at its starts yields what
/// parsing the other at its starts yields: the same table and the same
/// blocks in the same order, and no failure.
pub proof fn lemma_dialects_agree(
    d: Seq<u8>,
    lines_d: Seq<usize>,
    blocks_d: Seq<usize>,
    t: Seq<u8>,
    lines_t: Seq<usize>,
    blocks_t: Seq<usize>,
    lines: Result<Prefabs, LocatedError>,
    blocks: Result<Vec<Block>, LocatedError>,
)
    requires
        made_tabular(d, lines_d, blocks_d, t, lines_t, blocks_t),
    ensures
        lines_outcome(lines, t, lines_t) <==> lines_outcome(lines, d, lines_d),
        lines_outcome(lines, d, lines_d) ==> lines is Ok,
        blocks_outcome(blocks, t, blocks_t) <==> blocks_outcome(blocks, d, blocks_d),
        blocks_outcome(blocks, d, blocks_d) ==> blocks is Ok,
{
    lemma_tables_agree(d, lines_d, t, lines_t, lines_d.len() as int);
    assert forall|k: int| 0 <= k < blocks_d.len() implies (#[trigger] spec_parse_block(
        d,
        blocks_d[k] as int,
    )) is Match && spec_parse_block(t, blocks_t[k] as int) is Match && spec_parse_block(
        t,
        blocks_t[k] as int,
    )->value == spec_parse_block(d, blocks_d[k] as int)->value by {
        assert(tabular_block_at(d, blocks_d[k] as int, t, blocks_t[k] as int));
        if block_made_tabular(d, blocks_d[k] as int, t, blocks_t[k] as int, seq![LINE_FEED]) {
            lemma_tabular_block(d, blocks_d[k] as int, t, blocks_t[k] as int, seq![LINE_FEED]);
        } else {
            lemma_tabular_block(
                d,
                blocks_d[k] as int,
                t,
                blocks_t[k] as int,
                seq![CARRIAGE_RETURN, LINE_FEED],
            );
        }
    }
    assert forall|k: int| 0 <= k < blocks_t.len() implies (#[trigger] spec_parse_block(
        t,
        blocks_t[k] as int,
    )) is Match && spec_parse_block(t, blocks_t[k] as int)->value == spec_parse_block(
        d,
        blocks_d[k] as int,
    )->value by {
        assert(spec_parse_block(d, blocks_d[k] as int) is Match);
    }
    if let Ok(list) = blocks {
        if blocks_outcome(blocks, d, blocks_d) {
            assert forall|k: int| 0 <= k < blocks_t.len() implies #[trigger] parses_to(
                t,
                blocks_t[k] as int,
                list@[k],
            ) by {
                assert(parses_to(d, blocks_d[k] as int, list@[k]));
                assert(spec_parse_block(t, blocks_t[k] as int) is Match);
            }
        }
        if blocks_outcome(blocks, t, blocks_t) {
            assert forall|k: int| 0 <= k < blocks_d.len() implies #[trigger] parses_to(
                d,
                blocks_d[k] as int,
                list@[k],
            ) by {
                assert(parses_to(t, blocks_t[k] as int, list@[k]));
                assert(spec_parse_block(d, blocks_d[k] as int) is Match);
            }
        }
    }
}

/// No `(` stands inside a key before the one that ends it.
proof fn lemma_key_inside(s: Seq<u8>, i: int, j: int)
    requires
        spec_parse_key(s, i) is Match,
        i <= j < spec_parse_key(s, i)->end - 1,
    ensures
        0 <= j < s.len(),
        s[j] != PAREN_OPEN,
{
    let open = eol_end(s, i);
    let close = run_end(s, Class::Alpha, open + 1);
    let eq = run_end(s, Class::Blank, close + 1);
    lemma_run_end(s, Class::Alpha, open + 1);
    lemma_run_end(s, Class::Blank, close + 1);
    lemma_run_end(s, Class::Blank, eq + 1);
}

/// The dialect is decided by the first key and by what follows it at
/// once. Two texts that are the same up to behind the `(` of the first
/// key of one have their first key at the same place, and each of them is
/// tabular just if a line ending follows there.
pub proof fn lemma_first_key_decides(d: Seq<u8>, t: Seq<u8>, from: int)
    requires
        0 <= from,
        first_key(d, from) is Some,
        same_front(d, t, spec_parse_key(d, first_key(d, from)->Some_0)->end),
    ensures
        first_key(t, from) == first_key(d, from),
        spec_parse_key(t, first_key(d, from)->Some_0) == spec_parse_key(
            d,
            first_key(d, from)->Some_0,
        ),
        spec_detect_tgm_from(d, from) == (eol_end(
            d,
            spec_parse_key(d, first_key(d, from)->Some_0)->end,
        ) > spec_parse_key(d, first_key(d, from)->Some_0)->end),
        spec_detect_tgm_from(t, from) == (eol_end(
            t,
            spec_parse_key(d, first_key(d, from)->Some_0)->end,
        ) > spec_parse_key(d, first_key(d, from)->Some_0)->end),
{
    let p = first_key(d, from)->Some_0;
    let k = spec_parse_key(d, p)->end;
    lemma_first_key(d, from);
    lemma_first_key(t, from);
    lemma_local_key(d, p, d, p);
    lemma_front_key(d, t, k, p);
    let close = run_end(d, Class::Alpha, eol_end(d, p) + 1);
    lemma_run_end(d, Class::Blank, run_end(d, Class::Blank, close + 1) + 1);
    lemma_front(d, t, k, k - 1);
    assert forall|i: int| from <= i < p implies !(#[trigger] spec_parse_key(t, i) is Match) by {
        if spec_parse_key(t, i) is Match {
            if spec_parse_key(t, i)->end <= k {
                lemma_front_key(t, d, k, i);
            } else {
                lemma_key_inside(t, i, k - 1);
            }
        }
    }
}

} // verus!
