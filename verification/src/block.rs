//! Location blocks: an anchor coordinate and a rectangular grid of keys.

use crate::prefabs::{located, start_of};
use crate::search::{find_starts, inside, regex_starts, reversed, rising};
use crate::LocatedError;
use crate::scan::{
    backtrack, eol_end, failed, failure_agrees, has_byte, has_word, is_byte, is_digit,
    lemma_prepend_twice, lemma_run_end, prepend, run_end, skip_eol, skip_run, slice_agrees,
    slices_agree, slices_value, value_agrees, Class, Outcome, Parsed, BRACE_CLOSE, BRACE_OPEN,
    COMMA, EQUALS, PAREN_CLOSE, PAREN_OPEN, QUOTE, ZERO,
};
use vstd::prelude::*;
use vstd::slice::slice_subrange;
use vstd::string::StringSliceAdditionalSpecFns;

verus! {

/// An anchor coordinate and the rows of keys placed at it, top row first.
pub type Block<'s> = ((usize, usize, usize), Vec<&'s [u8]>);

/// The number that the decimal digits `s[from..to]` spell.
pub open spec fn digits_value(s: Seq<u8>, from: int, to: int) -> nat
    decreases to - from,
{
    if to <= from {
        0
    } else {
        digits_value(s, from, to - 1) * 10 + (s[to - 1] - ZERO) as nat
    }
}

/// Reading more digits never makes the number smaller.
pub proof fn lemma_digits_grow(s: Seq<u8>, from: int, mid: int, to: int)
    requires
        0 <= from <= mid <= to <= s.len(),
        forall|i: int| from <= i < to ==> is_digit(s[i]),
    ensures
        digits_value(s, from, mid) <= digits_value(s, from, to),
    decreases to - mid,
{
    if mid < to {
        lemma_digits_grow(s, from, mid, to - 1);
    }
}

/// An unsigned decimal number: a lone `0`, or digits that do not start with
/// `0` and spell a number that a `usize` holds.
pub open spec fn spec_dec_uint(s: Seq<u8>, pos: int) -> Outcome<usize> {
    let end = run_end(s, Class::Digit, pos);
    if has_byte(s, pos, ZERO) {
        Outcome::Match { value: 0, end: pos + 1 }
    } else if end > pos && digits_value(s, pos, end) <= usize::MAX {
        Outcome::Match { value: digits_value(s, pos, end) as usize, end }
    } else {
        Outcome::Backtrack { at: pos }
    }
}

/// Parses an unsigned decimal number at `pos`.
pub fn parse_dec_uint(text: &[u8], pos: usize) -> (r: Parsed<usize>)
    ensures
        value_agrees(r, spec_dec_uint(text@, pos as int), pos as int, text@.len() as int),
{
    if is_byte(text, pos, ZERO) {
        return Ok((0, pos + 1));
    }
    let end = skip_run(text, Class::Digit, pos);
    if end == pos {
        return backtrack(pos);
    }
    proof {
        lemma_run_end(text@, Class::Digit, pos as int);
    }
    let mut value: usize = 0;
    let mut i: usize = pos;
    while i < end
        invariant
            pos <= i <= end <= text.len(),
            pos < end,
            end == run_end(text@, Class::Digit, pos as int),
            !has_byte(text@, pos as int, ZERO),
            value == digits_value(text@, pos as int, i as int),
            forall|j: int| pos <= j < end ==> is_digit(text@[j]),
        decreases end - i,
    {
        let digit = (text[i] - ZERO) as usize;
        proof {
            lemma_digits_grow(text@, pos as int, i + 1, end as int);
            assert(digits_value(text@, pos as int, i + 1) == value * 10 + digit);
        }
        let scaled = match value.checked_mul(10) {
            Some(scaled) => scaled,
            None => {
                return backtrack(pos);
            },
        };
        value = match scaled.checked_add(digit) {
            Some(sum) => sum,
            None => {
                return backtrack(pos);
            },
        };
        i = i + 1;
    }
    Ok((value, end))
}

/// A coordinate: `(x,y,z)`, three unsigned decimal numbers.
pub open spec fn spec_parse_coords(s: Seq<u8>, pos: int) -> Outcome<(usize, usize, usize)> {
    if !has_byte(s, pos, PAREN_OPEN) {
        Outcome::Backtrack { at: pos }
    } else {
        match spec_dec_uint(s, pos + 1) {
            Outcome::Match { value: x, end: after_x } => if !has_byte(s, after_x, COMMA) {
                Outcome::Backtrack { at: after_x }
            } else {
                match spec_dec_uint(s, after_x + 1) {
                    Outcome::Match { value: y, end: after_y } => if !has_byte(s, after_y, COMMA) {
                        Outcome::Backtrack { at: after_y }
                    } else {
                        match spec_dec_uint(s, after_y + 1) {
                            Outcome::Match { value: z, end: after_z } => if has_byte(
                                s,
                                after_z,
                                PAREN_CLOSE,
                            ) {
                                Outcome::Match { value: (x, y, z), end: after_z + 1 }
                            } else {
                                Outcome::Backtrack { at: after_z }
                            },
                            o => failed(o),
                        }
                    },
                    o => failed(o),
                }
            },
            o => failed(o),
        }
    }
}

/// Parses the coordinate `(x,y,z)` at `pos`.
pub fn parse_coords(text: &[u8], pos: usize) -> (r: Parsed<(usize, usize, usize)>)
    ensures
        value_agrees(r, spec_parse_coords(text@, pos as int), pos as int, text@.len() as int),
{
    if !is_byte(text, pos, PAREN_OPEN) {
        return backtrack(pos);
    }
    let (x, after_x) = match parse_dec_uint(text, pos + 1) {
        Ok(found) => found,
        Err(e) => {
            return backtrack(e.at);
        },
    };
    if !is_byte(text, after_x, COMMA) {
        return backtrack(after_x);
    }
    let (y, after_y) = match parse_dec_uint(text, after_x + 1) {
        Ok(found) => found,
        Err(e) => {
            return backtrack(e.at);
        },
    };
    if !is_byte(text, after_y, COMMA) {
        return backtrack(after_y);
    }
    let (z, after_z) = match parse_dec_uint(text, after_y + 1) {
        Ok(found) => found,
        Err(e) => {
            return backtrack(e.at);
        },
    };
    if !is_byte(text, after_z, PAREN_CLOSE) {
        return backtrack(after_z);
    }
    Ok(((x, y, z), after_z + 1))
}

/// A row of keys: one letter or more.
pub open spec fn spec_map_characters(s: Seq<u8>, pos: int) -> Outcome<Seq<u8>> {
    let end = run_end(s, Class::Alpha, pos);
    if 0 <= pos < end <= s.len() {
        Outcome::Match { value: s.subrange(pos, end), end }
    } else {
        Outcome::Backtrack { at: pos }
    }
}

/// Parses the longest run of letters at `pos`, which must not be empty.
pub fn map_characters<'s>(text: &'s [u8], pos: usize) -> (r: Parsed<&'s [u8]>)
    ensures
        slice_agrees(r, spec_map_characters(text@, pos as int), pos as int, text@.len() as int),
{
    let end = skip_run(text, Class::Alpha, pos);
    if end == pos {
        return backtrack(pos);
    }
    Ok((slice_subrange(text, pos, end), end))
}

/// The rows of a grid from `pos` on: each a run of letters and an optional
/// line ending. The first row must be there when `first` is set.
pub open spec fn spec_rows(s: Seq<u8>, pos: int, first: bool) -> Outcome<Seq<Seq<u8>>>
    decreases s.len() - pos,
{
    let end = run_end(s, Class::Alpha, pos);
    if 0 <= pos < end <= s.len() {
        prepend(seq![s.subrange(pos, end)], spec_rows(s, eol_end(s, end), false))
    } else if first {
        Outcome::Backtrack { at: pos }
    } else {
        Outcome::Match { value: Seq::empty(), end: pos }
    }
}

/// The rows of a block between `{"` and `"}`; a line ending may follow the
/// opening and precede the closing.
pub open spec fn spec_parse_map_lines(s: Seq<u8>, pos: int) -> Outcome<Seq<Seq<u8>>> {
    if !has_word(s, pos, seq![BRACE_OPEN, QUOTE]) {
        Outcome::Backtrack { at: pos }
    } else {
        match spec_rows(s, eol_end(s, pos + 2), true) {
            Outcome::Match { value, end } => if has_word(
                s,
                eol_end(s, end),
                seq![QUOTE, BRACE_CLOSE],
            ) {
                Outcome::Match { value, end: eol_end(s, end) + 2 }
            } else {
                Outcome::Backtrack { at: eol_end(s, end) }
            },
            o => failed(o),
        }
    }
}

/// Whether the two bytes `a`, `b` stand at `pos`.
fn is_pair(text: &[u8], pos: usize, a: u8, b: u8) -> (r: bool)
    ensures
        r == has_word(text@, pos as int, seq![a, b]),
        r ==> pos + 2 <= text.len(),
{
    if is_byte(text, pos, a) && is_byte(text, pos + 1, b) {
        assert(text@.subrange(pos as int, pos + 2) =~= seq![a, b]);
        true
    } else {
        proof {
            if pos + 2 <= text@.len() {
                let cut = text@.subrange(pos as int, pos + 2);
                assert(cut[0] == text@[pos as int]);
                assert(cut[1] == text@[pos + 1]);
            }
        }
        false
    }
}

/// Parses the rows of a block at `pos`: `{"`, the rows, `"}`.
pub fn parse_map_lines<'s>(text: &'s [u8], pos: usize) -> (r: Parsed<Vec<&'s [u8]>>)
    ensures
        slices_agree(r, spec_parse_map_lines(text@, pos as int), pos as int, text@.len() as int),
        r matches Ok((rows, _)) ==> rows@.len() > 0 && forall|i: int|
            0 <= i < rows@.len() ==> (#[trigger] rows@[i])@.len() > 0,
{
    if !is_pair(text, pos, BRACE_OPEN, QUOTE) {
        return backtrack(pos);
    }
    let start = skip_eol(text, pos + 2);
    let mut rows: Vec<&'s [u8]> = Vec::new();
    let mut cur: usize = start;
    let mut first = true;
    loop
        invariant
            pos + 2 <= start <= cur <= text.len(),
            first <==> rows@.len() == 0,
            spec_rows(text@, start as int, true) == prepend(
                slices_value(rows@),
                spec_rows(text@, cur as int, first),
            ),
            forall|i: int| 0 <= i < rows@.len() ==> (#[trigger] rows@[i])@.len() > 0,
        ensures
            run_end(text@, Class::Alpha, cur as int) == cur,
        decreases text.len() - cur,
    {
        let end = skip_run(text, Class::Alpha, cur);
        if end == cur {
            break ;
        }
        let ghost before = rows@;
        let row = slice_subrange(text, cur, end);
        rows.push(row);
        let next = skip_eol(text, end);
        proof {
            lemma_prepend_twice(
                slices_value(before),
                seq![row@],
                spec_rows(text@, next as int, false),
            );
            assert(slices_value(rows@) =~= slices_value(before) + seq![row@]);
        }
        cur = next;
        first = false;
    }
    if first {
        return backtrack(cur);
    }
    let close = skip_eol(text, cur);
    if !is_pair(text, close, QUOTE, BRACE_CLOSE) {
        return backtrack(close);
    }
    proof {
        lemma_prepend_twice(slices_value(rows@), Seq::empty(), Outcome::Backtrack { at: 0 });
        assert(slices_value(rows@) + Seq::<Seq<u8>>::empty() =~= slices_value(rows@));
    }
    Ok((rows, close + 2))
}

/// Whether an exec block agrees with the outcome that the grammar assigns.
pub open spec fn block_agrees(
    r: Parsed<Block>,
    o: Outcome<((usize, usize, usize), Seq<Seq<u8>>)>,
    from: int,
    len: int,
) -> bool {
    match r {
        Ok((b, end)) => o == (Outcome::Match { value: (b.0, slices_value(b.1@)), end: end as int })
            && from <= end && (from <= len ==> end <= len),
        Err(e) => failure_agrees(e, o, from, len),
    }
}

/// A block: a coordinate, `=` with optional blanks around it, and the rows.
pub open spec fn spec_parse_block(s: Seq<u8>, pos: int) -> Outcome<
    ((usize, usize, usize), Seq<Seq<u8>>),
> {
    match spec_parse_coords(s, pos) {
        Outcome::Match { value: anchor, end } => {
            let eq = run_end(s, Class::Blank, end);
            if !has_byte(s, eq, EQUALS) {
                Outcome::Backtrack { at: eq }
            } else {
                match spec_parse_map_lines(s, run_end(s, Class::Blank, eq + 1)) {
                    Outcome::Match { value: rows, end } => Outcome::Match {
                        value: (anchor, rows),
                        end,
                    },
                    o => failed(o),
                }
            }
        },
        o => failed(o),
    }
}

/// Parses the block at `pos`. No row of a block is empty, and a block has
/// at least one row.
pub fn parse_block<'s>(text: &'s [u8], pos: usize) -> (r: Parsed<Block<'s>>)
    ensures
        block_agrees(r, spec_parse_block(text@, pos as int), pos as int, text@.len() as int),
        r matches Ok((b, _)) ==> b.1@.len() > 0 && forall|i: int|
            0 <= i < b.1@.len() ==> (#[trigger] b.1@[i])@.len() > 0,
{
    let (anchor, after) = match parse_coords(text, pos) {
        Ok(found) => found,
        Err(e) => {
            return backtrack(e.at);
        },
    };
    let eq = skip_run(text, Class::Blank, after);
    if !is_byte(text, eq, EQUALS) {
        return backtrack(eq);
    }
    let open = skip_run(text, Class::Blank, eq + 1);
    match parse_map_lines(text, open) {
        Ok((rows, end)) => Ok(((anchor, rows), end)),
        Err(e) => Err(e),
    }
}

/// The pattern that finds where blocks start.
pub const BLOCK_PATTERN: &'static str = "\\((\\d+),(\\d+),(\\d+)\\) = \\{";

/// The byte offsets at which `BLOCK_PATTERN` matches in `text`.
pub open spec fn block_starts(text: Seq<char>) -> Seq<usize> {
    match regex_starts(BLOCK_PATTERN@, text) {
        Some(starts) => starts,
        None => Seq::empty(),
    }
}

/// Finds where the blocks of `i` start: the offsets at which
/// `BLOCK_PATTERN` matches, which rise and lie inside the text.
pub fn get_block_locations(i: &str) -> (r: Vec<usize>)
    ensures
        r@ == block_starts(i@),
        rising(r@),
        inside(r@, i.spec_bytes().len() as int),
{
    match find_starts(BLOCK_PATTERN, i) {
        Some(starts) => starts,
        None => Vec::new(),
    }
}

/// The mathematical value of a block.
pub type BlockValue = ((usize, usize, usize), Seq<Seq<u8>>);

/// The anchor of a block and the bytes of its rows.
pub open spec fn block_value(b: Block) -> BlockValue {
    (b.0, slices_value(b.1@))
}

/// Whether the block at `start` is `b`.
pub open spec fn parses_to(s: Seq<u8>, start: int, b: Block) -> bool {
    match spec_parse_block(s, start) {
        Outcome::Match { value, end: _ } => value == block_value(b),
        _ => false,
    }
}

/// Whether each of the first `n` starts is the start of a block.
pub open spec fn all_blocks_match(s: Seq<u8>, starts: Seq<usize>, n: int) -> bool {
    forall|k: int|
        0 <= k < n && k < starts.len() ==> #[trigger] spec_parse_block(s, starts[k] as int) is Match
}

/// What parsing the blocks at `starts` yields: the blocks in the order of
/// their starts where each one parses, else the failure of the first that
/// does not, located at its start.
pub open spec fn blocks_outcome(
    r: Result<Vec<Block>, LocatedError>,
    s: Seq<u8>,
    starts: Seq<usize>,
) -> bool {
    match r {
        Ok(blocks) => blocks@.len() == starts.len() && forall|k: int|
            0 <= k < starts.len() ==> #[trigger] parses_to(s, starts[k] as int, blocks@[k]),
        Err(e) => exists|j: int|
            0 <= j < starts.len() && all_blocks_match(s, starts, j) && #[trigger] starts[j]
                == e.key_offset && e.main_offset == e.underlying.at && e.key_offset
                <= e.main_offset && spec_parse_block(s, starts[j] as int) == (
            if e.underlying.cut {
                Outcome::<BlockValue>::Cut { at: e.main_offset as int }
            } else {
                Outcome::<BlockValue>::Backtrack { at: e.main_offset as int }
            }),
    }
}

/// Whether a block has a row and none of its rows is empty.
pub open spec fn block_filled(b: Block) -> bool {
    b.1@.len() > 0 && forall|i: int| 0 <= i < b.1@.len() ==> (#[trigger] b.1@[i])@.len() > 0
}

/// Parses the blocks of `text` that start at `starts`, in their order.
/// Each block is parsed on its own, so the work may as well be shared out;
/// the outcome is the same.
pub fn parse_blocks<'s>(text: &'s [u8], starts: &Vec<usize>) -> (r: Result<
    Vec<Block<'s>>,
    LocatedError,
>)
    ensures
        blocks_outcome(r, text@, starts@),
        r matches Ok(blocks) ==> forall|k: int|
            0 <= k < blocks@.len() ==> block_filled(#[trigger] blocks@[k]),
{
    let mut blocks: Vec<Block<'s>> = Vec::new();
    let mut k: usize = 0;
    while k < starts.len()
        invariant
            k <= starts@.len(),
            blocks@.len() == k,
            forall|j: int|
                0 <= j < k ==> #[trigger] parses_to(text@, starts@[j] as int, blocks@[j]),
            forall|j: int| 0 <= j < blocks@.len() ==> block_filled(#[trigger] blocks@[j]),
        decreases starts@.len() - k,
    {
        let start = starts[k];
        match parse_block(text, start) {
            Ok((block, _)) => {
                blocks.push(block);
            },
            Err(e) => {
                proof {
                    assert forall|j: int| 0 <= j < k && j < starts@.len() implies (
                    #[trigger] spec_parse_block(text@, starts@[j] as int)) is Match by {
                        assert(parses_to(text@, starts@[j] as int, blocks@[j]));
                    }
                    assert(starts@[k as int] == start);
                }
                return Err(LocatedError { key_offset: start, main_offset: e.at, underlying: e });
            },
        }
        k = k + 1;
    }
    Ok(blocks)
}

/// What gathering the results of the parsers that were started at `starts`
/// yields: the blocks in their order where each result is a block, else
/// the first failure, located at its start.
pub open spec fn blocks_gathered(
    r: Result<Vec<Block>, LocatedError>,
    starts: Seq<usize>,
    results: Seq<Parsed<Block>>,
) -> bool {
    match r {
        Ok(blocks) => blocks@.len() == results.len() && forall|k: int|
            0 <= k < results.len() ==> (#[trigger] results[k]) is Ok && results[k]->Ok_0.0
                == blocks@[k],
        Err(e) => exists|j: int|
            0 <= j < results.len() && (#[trigger] results[j]) is Err && e == located(
                start_of(starts, j),
                results[j]->Err_0,
            ) && forall|k: int| 0 <= k < j ==> #[trigger] results[k] is Ok,
    }
}

/// Whether the results are what the parser of blocks yields at the
/// starts, one for each.
pub open spec fn blocks_parsed(
    results: Seq<Parsed<Block>>,
    s: Seq<u8>,
    starts: Seq<usize>,
) -> bool {
    results.len() == starts.len() && forall|k: int|
        0 <= k < results.len() ==> block_agrees(
            #[trigger] results[k],
            spec_parse_block(s, starts[k] as int),
            starts[k] as int,
            s.len() as int,
        )
}

/// Gathers what the parsers of the blocks of `text` have yielded, each
/// started on its own at one of `starts`. Where the results are those of
/// `parse_block` at the starts, the outcome is that of `parse_blocks`.
pub fn gather_blocks<'s>(
    text: &'s [u8],
    starts: &Vec<usize>,
    results: Vec<Parsed<Block<'s>>>,
) -> (r: Result<Vec<Block<'s>>, LocatedError>)
    ensures
        blocks_gathered(r, starts@, results@),
        blocks_parsed(results@, text@, starts@) ==> blocks_outcome(r, text@, starts@),
{
    let ghost given = results@;
    let ghost parsed = blocks_parsed(given, text@, starts@);
    let n = results.len();
    let mut rest = reversed(results);
    let mut blocks: Vec<Block<'s>> = Vec::new();
    let mut k: usize = 0;
    while k < n
        invariant
            n == given.len(),
            given == results@,
            k <= n,
            parsed == blocks_parsed(given, text@, starts@),
            rest@.len() == n - k,
            forall|i: int| 0 <= i < rest@.len() ==> rest@[i] == given[n - 1 - i],
            blocks@.len() == k,
            forall|j: int|
                0 <= j < k ==> (#[trigger] given[j]) is Ok && given[j]->Ok_0.0 == blocks@[j],
            parsed ==> forall|j: int|
                0 <= j < k ==> #[trigger] parses_to(text@, starts@[j] as int, blocks@[j]),
        decreases n - k,
    {
        let start = if k < starts.len() {
            starts[k]
        } else {
            0
        };
        let result = rest.pop();
        assert(result == Some(given[k as int]));
        match result {
            Some(Ok((block, _))) => {
                blocks.push(block);
            },
            Some(Err(e)) => {
                proof {
                    assert(given[k as int] is Err && given[k as int]->Err_0 == e);
                    if parsed {
                        assert(starts@[k as int] == start);
                        assert forall|j: int| 0 <= j < k && j < starts@.len() implies (
                        #[trigger] spec_parse_block(text@, starts@[j] as int)) is Match by {
                            assert(parses_to(text@, starts@[j] as int, blocks@[j]));
                        }
                    }
                }
                return Err(LocatedError { key_offset: start, main_offset: e.at, underlying: e });
            },
            None => {},
        }
        k = k + 1;
    }
    Ok(blocks)
}

/// Finds the blocks of `i` and parses them.
pub fn multithreaded_parse_map_locations<'s>(i: &'s str) -> (r: Result<
    Vec<Block<'s>>,
    LocatedError,
>)
    ensures
        blocks_outcome(r, i.spec_bytes(), block_starts(i@)),
        r matches Ok(blocks) ==> forall|k: int|
            0 <= k < blocks@.len() ==> block_filled(#[trigger] blocks@[k]),
{
    let starts = get_block_locations(i);
    parse_blocks(i.as_bytes(), &starts)
}

} // verus!
