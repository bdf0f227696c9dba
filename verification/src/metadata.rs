//! What a host is told of a parsed map before it is placed: the length of
//! a key, the length of a row, and the extent that the blocks span.

use crate::block::Block;
use crate::load_buffer::{clamp, least, most};
use crate::table::Prefabs;
use vstd::prelude::*;

verus! {

/// The measures of a parsed map.
#[derive(Clone, Copy, Debug, PartialEq, Eq)]
pub struct Metadata {
    /// The length of the key of the first prefab line, 0 where there is
    /// none.
    pub key_len: usize,
    /// The length of the first row of the first block, 0 where there is
    /// none.
    pub line_len: usize,
    /// The least x, y, z and the largest x, y, z that the blocks span;
    /// nothing where there is no block or no key.
    pub parsed_bounds: Option<(usize, usize, usize, usize, usize, usize)>,
}

/// The length of the first key, 0 where the table has no key.
pub open spec fn first_key_len(prefabs: Prefabs) -> nat {
    if prefabs.lines().len() == 0 {
        0
    } else {
        prefabs.lines()[0].0@.len()
    }
}

/// The length of the first row.
pub open spec fn first_line_len(blocks: Seq<Block>) -> nat {
    if blocks.len() == 0 || blocks[0].1@.len() == 0 {
        0
    } else {
        blocks[0].1@[0]@.len()
    }
}

/// The extent of one block of rows `width` keys wide: from its anchor, the
/// lower left corner, to the right by the width and up by the number of
/// rows.
pub open spec fn block_span(b: Block, width: int) -> (usize, usize, usize, usize, usize, usize) {
    (b.0.0, b.0.1, b.0.2, clamp(b.0.0 + width - 1), clamp(b.0.1 + b.1@.len() - 1), b.0.2)
}

/// The smallest box that holds two boxes.
pub open spec fn join(
    a: (usize, usize, usize, usize, usize, usize),
    b: (usize, usize, usize, usize, usize, usize),
) -> (usize, usize, usize, usize, usize, usize) {
    (
        least(a.0, b.0),
        least(a.1, b.1),
        least(a.2, b.2),
        most(a.3, b.3),
        most(a.4, b.4),
        most(a.5, b.5),
    )
}

/// The smallest box that holds the first `n` blocks, of which there is at
/// least one.
pub open spec fn span_upto(blocks: Seq<Block>, width: int, n: int) -> (
    usize,
    usize,
    usize,
    usize,
    usize,
    usize,
)
    decreases n,
{
    if n <= 1 {
        block_span(blocks[0], width)
    } else {
        join(span_upto(blocks, width, n - 1), block_span(blocks[n - 1], width))
    }
}

/// The measures of a map.
pub open spec fn spec_metadata(prefabs: Prefabs, blocks: Seq<Block>) -> Metadata {
    Metadata {
        key_len: first_key_len(prefabs) as usize,
        line_len: first_line_len(blocks) as usize,
        parsed_bounds: if blocks.len() == 0 || first_key_len(prefabs) == 0 {
            None
        } else {
            Some(
                span_upto(
                    blocks,
                    first_line_len(blocks) as int / first_key_len(prefabs) as int,
                    blocks.len() as int,
                ),
            )
        },
    }
}

/// `a + b - 1`, kept inside what a `usize` holds.
fn span_end(a: usize, b: usize) -> (r: usize)
    ensures
        r == clamp(a + b - 1),
{
    if b == 0 {
        if a == 0 {
            0
        } else {
            a - 1
        }
    } else {
        match a.checked_add(b - 1) {
            Some(sum) => sum,
            None => usize::MAX,
        }
    }
}

/// Takes the measures of a parsed map.
pub fn find_metadata(prefabs: &Prefabs, blocks: &Vec<Block>) -> (r: Metadata)
    ensures
        r == spec_metadata(*prefabs, blocks@),
{
    let key_len = if prefabs.len() == 0 {
        0
    } else {
        prefabs.line(0).0.len()
    };
    let line_len = if blocks.len() == 0 || blocks[0].1.len() == 0 {
        0
    } else {
        blocks[0].1[0].len()
    };
    if blocks.len() == 0 || key_len == 0 {
        return Metadata { key_len, line_len, parsed_bounds: None };
    }
    let width = line_len / key_len;
    let first = &blocks[0];
    let mut span = (
        first.0.0,
        first.0.1,
        first.0.2,
        span_end(first.0.0, width),
        span_end(first.0.1, first.1.len()),
        first.0.2,
    );
    let mut k: usize = 1;
    while k < blocks.len()
        invariant
            1 <= k <= blocks@.len(),
            span == span_upto(blocks@, width as int, k as int),
        decreases blocks@.len() - k,
    {
        let b = &blocks[k];
        let top = span_end(b.0.1, b.1.len());
        let right = span_end(b.0.0, width);
        span = (
            if span.0 <= b.0.0 {
                span.0
            } else {
                b.0.0
            },
            if span.1 <= b.0.1 {
                span.1
            } else {
                b.0.1
            },
            if span.2 <= b.0.2 {
                span.2
            } else {
                b.0.2
            },
            if span.3 >= right {
                span.3
            } else {
                right
            },
            if span.4 >= top {
                span.4
            } else {
                top
            },
            if span.5 >= b.0.2 {
                span.5
            } else {
                b.0.2
            },
        );
        k = k + 1;
    }
    Metadata { key_len, line_len, parsed_bounds: Some(span) }
}

/// Whether the keys of the table all have `key_len` bytes and the rows of
/// the blocks are all cut into keys of that length without a rest.
pub open spec fn uniform(prefabs: Prefabs, blocks: Seq<Block>, key_len: nat) -> bool {
    &&& key_len > 0
    &&& forall|i: int|
        0 <= i < prefabs.lines().len() ==> (#[trigger] prefabs.lines()[i]).0@.len() == key_len
    &&& forall|b: int, r: int|
        0 <= b < blocks.len() && 0 <= r < blocks[b].1@.len() ==> (#[trigger] blocks[b].1@[r])@.len()
            > 0 && blocks[b].1@[r]@.len() % key_len == 0
}

/// Tells whether the keys all have `key_len` bytes and each row is a
/// positive multiple of that long.
pub fn check_uniform(prefabs: &Prefabs, blocks: &Vec<Block>, key_len: usize) -> (r: bool)
    ensures
        r == uniform(*prefabs, blocks@, key_len as nat),
{
    if key_len == 0 {
        return false;
    }
    let mut i: usize = 0;
    while i < prefabs.len()
        invariant
            i <= prefabs.lines().len(),
            forall|j: int| 0 <= j < i ==> (#[trigger] prefabs.lines()[j]).0@.len() == key_len,
        decreases prefabs.lines().len() - i,
    {
        if prefabs.line(i).0.len() != key_len {
            return false;
        }
        i = i + 1;
    }
    let mut b: usize = 0;
    while b < blocks.len()
        invariant
            b <= blocks@.len(),
            key_len > 0,
            forall|j: int|
                0 <= j < prefabs.lines().len() ==> (#[trigger] prefabs.lines()[j]).0@.len()
                    == key_len,
            forall|p: int, r: int|
                0 <= p < b && 0 <= r < blocks@[p].1@.len() ==> (#[trigger] blocks@[p].1@[r])@.len()
                    > 0 && blocks@[p].1@[r]@.len() % (key_len as nat) == 0,
        decreases blocks@.len() - b,
    {
        let rows = &blocks[b].1;
        let mut r: usize = 0;
        while r < rows.len()
            invariant
                r <= rows@.len(),
                b < blocks@.len(),
                rows@ == blocks@[b as int].1@,
                key_len > 0,
                forall|q: int|
                    0 <= q < r ==> (#[trigger] rows@[q])@.len() > 0 && rows@[q]@.len() % (
                    key_len as nat) == 0,
            decreases rows@.len() - r,
        {
            let n = rows[r].len();
            if n == 0 || n % key_len != 0 {
                assert(blocks@[b as int].1@[r as int]@.len() == n);
                return false;
            }
            r = r + 1;
        }
        b = b + 1;
    }
    true
}

/// Whether every row of every block has `line_len` bytes.
pub open spec fn same_rows(blocks: Seq<Block>, line_len: nat) -> bool {
    forall|b: int, r: int|
        0 <= b < blocks.len() && 0 <= r < blocks[b].1@.len() ==> (#[trigger] blocks[b].1@[r])@.len()
            == line_len
}

/// Tells whether every row of every block has `line_len` bytes.
pub fn check_rows(blocks: &Vec<Block>, line_len: usize) -> (r: bool)
    ensures
        r == same_rows(blocks@, line_len as nat),
{
    let mut b: usize = 0;
    while b < blocks.len()
        invariant
            b <= blocks@.len(),
            forall|p: int, r: int|
                0 <= p < b && 0 <= r < blocks@[p].1@.len() ==> (#[trigger] blocks@[p].1@[r])@.len()
                    == line_len,
        decreases blocks@.len() - b,
    {
        let rows = &blocks[b].1;
        let mut r: usize = 0;
        while r < rows.len()
            invariant
                r <= rows@.len(),
                b < blocks@.len(),
                rows@ == blocks@[b as int].1@,
                forall|q: int| 0 <= q < r ==> (#[trigger] rows@[q])@.len() == line_len,
            decreases rows@.len() - r,
        {
            if rows[r].len() != line_len {
                assert(blocks@[b as int].1@[r as int]@.len() != line_len);
                return false;
            }
            r = r + 1;
        }
        b = b + 1;
    }
    true
}

/// Whether the map hangs together: it has a key, its keys all have the
/// length of the first, which a `usize` holds, every row of every block
/// is a positive multiple of that long, and the rows all have the length
/// of the first.
pub open spec fn well_measured(prefabs: Prefabs, blocks: Seq<Block>) -> bool {
    &&& first_key_len(prefabs) <= usize::MAX
    &&& uniform(prefabs, blocks, first_key_len(prefabs))
    &&& same_rows(blocks, first_line_len(blocks))
}

/// Tells whether the map hangs together.
pub fn check_measures(prefabs: &Prefabs, blocks: &Vec<Block>) -> (r: bool)
    ensures
        r == well_measured(*prefabs, blocks@),
{
    let key_len = if prefabs.len() == 0 {
        0
    } else {
        prefabs.line(0).0.len()
    };
    let line_len = if blocks.len() == 0 || blocks[0].1.len() == 0 {
        0
    } else {
        blocks[0].1[0].len()
    };
    check_uniform(prefabs, blocks, key_len) && check_rows(blocks, line_len)
}

/// In a map that hangs together, the measured length of a key is above 0
/// and is the length of every key, and every row of every block has the
/// measured length of a row, a positive multiple of that of a key.
pub proof fn lemma_measures(prefabs: Prefabs, blocks: Seq<Block>)
    requires
        well_measured(prefabs, blocks),
    ensures
        spec_metadata(prefabs, blocks).key_len > 0,
        forall|i: int|
            0 <= i < prefabs.lines().len() ==> (#[trigger] prefabs.lines()[i]).0@.len()
                == spec_metadata(prefabs, blocks).key_len,
        forall|b: int, r: int|
            0 <= b < blocks.len() && 0 <= r < blocks[b].1@.len() ==> (
            #[trigger] blocks[b].1@[r])@.len() > 0 && blocks[b].1@[r]@.len() % (spec_metadata(
                prefabs,
                blocks,
            ).key_len as nat) == 0,
        forall|b: int, r: int|
            0 <= b < blocks.len() && 0 <= r < blocks[b].1@.len() ==> (
            #[trigger] blocks[b].1@[r])@.len() == first_line_len(blocks),
{
}

} // verus!
