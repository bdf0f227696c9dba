//! The splitter of variable blocks gives back what it is given: the pieces
//! of a block, joined by `; ` and put between braces, split into the same
//! pieces.

use crate::prefabs::{
    is_trim_space, piece, space_ahead, space_behind, spec_separate_var_list, spec_split, trim_end,
    trim_start, trimmed,
};
use crate::scan::{
    has_byte, lemma_run_end, run_end, Class, Outcome, BACKSLASH, BRACE_CLOSE, BRACE_OPEN, LINE_FEED,
    QUOTE, SEMICOLON, SPACE,
};
use vstd::prelude::*;

verus! {

/// Whether the splitter, reading `s` from `pos` on with `in_str` telling
/// whether it is inside a string, comes to stand at `to` without having
/// ended a piece, dropped one or ended the block; and if so, whether it is
/// inside a string there.
pub open spec fn passes(s: Seq<u8>, pos: int, to: int, in_str: bool) -> Option<bool>
    decreases to - pos,
{
    if pos == to {
        Some(in_str)
    } else if pos < 0 || pos > to || to > s.len() {
        None
    } else if s[pos] == BACKSLASH && has_byte(s, pos + 1, QUOTE) {
        if pos + 2 <= to {
            passes(s, pos + 2, to, in_str)
        } else {
            None
        }
    } else if s[pos] == QUOTE {
        passes(s, pos + 1, to, !in_str)
    } else if (s[pos] == SEMICOLON && !in_str) || (s[pos] == LINE_FEED && in_str) || (s[pos]
        == BRACE_CLOSE && !in_str) {
        None
    } else {
        passes(s, pos + 1, to, in_str)
    }
}

/// Whether `p` can stand as a piece: it is not empty, has no white space
/// at its ends, and the splitter passes over it from outside a string to
/// outside a string.
pub open spec fn clean(p: Seq<u8>) -> bool {
    &&& p.len() > 0
    &&& space_ahead(p, 0, p.len() as int) == 0
    &&& space_behind(p, 0, p.len() as int) == 0
    &&& passes(p, 0, p.len() as int, false) == Some(false)
}

/// Whether `b` is a byte of a white space character: a white space
/// character of one byte, or a byte that no character of one byte has.
pub open spec fn inert(b: u8) -> bool {
    is_trim_space(b) || b >= 0x80
}

/// What follows the `k`-th piece in the joined text: `; ` and the next
/// piece and what follows that, or the closing brace.
pub open spec fn after(pieces: Seq<Seq<u8>>, k: int) -> Seq<u8>
    decreases pieces.len() - k,
{
    if k < 0 || k + 1 >= pieces.len() {
        seq![BRACE_CLOSE]
    } else {
        seq![SEMICOLON, SPACE] + pieces[k + 1] + after(pieces, k + 1)
    }
}

/// The pieces joined by `; ` between braces.
pub open spec fn joined(pieces: Seq<Seq<u8>>) -> Seq<u8> {
    if pieces.len() == 0 {
        seq![BRACE_OPEN, BRACE_CLOSE]
    } else {
        seq![BRACE_OPEN] + pieces[0] + after(pieces, 0)
    }
}

/// Where the splitter passes from `pos` to `to`, splitting from `pos` and
/// splitting from `to` give the same.
proof fn lemma_split_follows(s: Seq<u8>, start: int, pos: int, to: int, in_str: bool)
    requires
        passes(s, pos, to, in_str) is Some,
    ensures
        spec_split(s, start, pos, in_str) == spec_split(
            s,
            start,
            to,
            passes(s, pos, to, in_str)->0,
        ),
    decreases to - pos,
{
    if pos != to {
        if s[pos] == BACKSLASH && has_byte(s, pos + 1, QUOTE) {
            lemma_split_follows(s, start, pos + 2, to, in_str);
        } else if s[pos] == QUOTE {
            lemma_split_follows(s, start, pos + 1, to, !in_str);
        } else {
            lemma_split_follows(s, start, pos + 1, to, in_str);
        }
    }
}

/// The splitter passes over a copy of `p` inside `s` as it passes over `p`
/// itself, where no quote stands behind the copy.
proof fn lemma_passes_copy(s: Seq<u8>, a: int, p: Seq<u8>, i: int, in_str: bool)
    requires
        0 <= a,
        0 <= i <= p.len(),
        a + p.len() <= s.len(),
        s.subrange(a, a + p.len()) == p,
        !has_byte(s, a + p.len(), QUOTE),
    ensures
        passes(s, a + i, a + p.len(), in_str) == passes(p, i, p.len() as int, in_str),
    decreases p.len() - i,
{
    if i < p.len() {
        assert(s[a + i] == s.subrange(a, a + p.len())[i]);
        if i + 1 < p.len() {
            assert(s[a + i + 1] == s.subrange(a, a + p.len())[i + 1]);
        }
        if p[i] == BACKSLASH && has_byte(p, i + 1, QUOTE) {
            lemma_passes_copy(s, a, p, i + 2, in_str);
        } else if p[i] == QUOTE {
            lemma_passes_copy(s, a, p, i + 1, !in_str);
        } else if (p[i] == SEMICOLON && !in_str) || (p[i] == LINE_FEED && in_str) || (p[i]
            == BRACE_CLOSE && !in_str) {
        } else {
            lemma_passes_copy(s, a, p, i + 1, in_str);
        }
    }
}

/// One more step at the end: where the splitter passes from `a` to `pos`
/// and then from `pos` to `to`, it passes from `a` to `to`.
proof fn lemma_passes_chain(s: Seq<u8>, a: int, pos: int, to: int, in_str: bool)
    requires
        passes(s, a, pos, in_str) is Some,
        passes(s, pos, to, passes(s, a, pos, in_str)->0) is Some,
    ensures
        passes(s, a, to, in_str) == passes(s, pos, to, passes(s, a, pos, in_str)->0),
    decreases pos - a,
{
    if a != pos {
        lemma_passes_bounds(s, pos, to, passes(s, a, pos, in_str)->0);
        if s[a] == BACKSLASH && has_byte(s, a + 1, QUOTE) {
            lemma_passes_bounds(s, a + 2, pos, in_str);
            lemma_passes_chain(s, a + 2, pos, to, in_str);
        } else if s[a] == QUOTE {
            lemma_passes_bounds(s, a + 1, pos, !in_str);
            lemma_passes_chain(s, a + 1, pos, to, !in_str);
        } else {
            lemma_passes_bounds(s, a + 1, pos, in_str);
            lemma_passes_chain(s, a + 1, pos, to, in_str);
        }
    }
}

/// The splitter passes forward only, and inside the text.
proof fn lemma_passes_bounds(s: Seq<u8>, pos: int, to: int, in_str: bool)
    requires
        passes(s, pos, to, in_str) is Some,
    ensures
        pos <= to,
        pos < to ==> 0 <= pos && to <= s.len(),
{
}

/// A byte of a white space character is passed over outside a string in
/// one step.
proof fn lemma_passes_inert(s: Seq<u8>, from: int, to: int)
    requires
        0 <= from < to <= s.len(),
        inert(s[from]),
    ensures
        passes(s, from, to, false) == passes(s, from + 1, to, false),
{
}

/// White space that is passed over outside a string may be left out at
/// the start.
proof fn lemma_passes_trim_start(s: Seq<u8>, from: int, to: int)
    requires
        0 <= from <= to <= s.len(),
        passes(s, from, to, false) is Some,
    ensures
        passes(s, trim_start(s, from, to), to, false) == passes(s, from, to, false),
        from <= trim_start(s, from, to) <= to,
        space_ahead(s, trim_start(s, from, to), to) == 0,
    decreases to - from,
{
    let width = space_ahead(s, from, to);
    if width > 0 {
        lemma_passes_inert(s, from, to);
        if width >= 2 {
            lemma_passes_inert(s, from + 1, to);
        }
        if width >= 3 {
            lemma_passes_inert(s, from + 2, to);
        }
        lemma_passes_trim_start(s, from + width, to);
    }
}

/// A byte of a white space character at the end that the splitter has
/// passed over, ending outside a string, was passed over outside a
/// string.
proof fn lemma_passes_before_inert(s: Seq<u8>, a: int, to: int, in_str: bool)
    requires
        0 <= a < to <= s.len(),
        inert(s[to - 1]),
        passes(s, a, to, in_str) == Some(false),
    ensures
        passes(s, a, to - 1, in_str) == Some(false),
    decreases to - a,
{
    if a < to - 1 {
        if s[a] == BACKSLASH && has_byte(s, a + 1, QUOTE) {
            lemma_passes_before_inert(s, a + 2, to, in_str);
        } else if s[a] == QUOTE {
            lemma_passes_before_inert(s, a + 1, to, !in_str);
        } else {
            lemma_passes_before_inert(s, a + 1, to, in_str);
        }
    }
}

/// White space that is passed over outside a string may be left out at
/// the end.
proof fn lemma_passes_trim_end(s: Seq<u8>, from: int, to: int)
    requires
        0 <= from <= to <= s.len(),
        passes(s, from, to, false) == Some(false),
    ensures
        passes(s, from, trim_end(s, from, to), false) == Some(false),
        from <= trim_end(s, from, to) <= to,
        space_behind(s, from, trim_end(s, from, to)) == 0,
        trim_end(s, from, to) < to ==> inert(s[trim_end(s, from, to)]),
    decreases to - from,
{
    let width = space_behind(s, from, to);
    if width > 0 {
        lemma_passes_before_inert(s, from, to, false);
        if width >= 2 {
            lemma_passes_before_inert(s, from, to - 1, false);
        }
        if width >= 3 {
            lemma_passes_before_inert(s, from, to - 2, false);
        }
        lemma_passes_trim_end(s, from, to - width);
    }
}

/// The piece that the splitter has passed over, from outside a string to
/// outside a string, is clean if it is there at all.
proof fn lemma_piece_clean(s: Seq<u8>, start: int, pos: int)
    requires
        0 <= start <= pos < s.len(),
        passes(s, start, pos, false) == Some(false),
        s[pos] == SEMICOLON || s[pos] == BRACE_CLOSE,
    ensures
        forall|k: int|
            0 <= k < piece(s, start, pos).len() ==> clean(#[trigger] piece(s, start, pos)[k]),
{
    lemma_passes_trim_start(s, start, pos);
    let a = trim_start(s, start, pos);
    lemma_passes_trim_end(s, a, pos);
    let b = trim_end(s, a, pos);
    if a < b {
        let p = s.subrange(a, b);
        assert(p == trimmed(s, start, pos));
        lemma_space_copy(s, a, p);
        assert(space_ahead(s, a, b) == 0);
        lemma_passes_copy(s, a, p, 0, false);
        assert(piece(s, start, pos) =~= seq![p]);
    }
}

/// Every piece that the splitter yields is clean.
proof fn lemma_pieces_clean(s: Seq<u8>, start: int, pos: int, in_str: bool)
    requires
        0 <= start <= pos,
        passes(s, start, pos, false) == Some(in_str),
        spec_split(s, start, pos, in_str) is Match,
    ensures
        forall|k: int|
            0 <= k < spec_split(s, start, pos, in_str)->value.len() ==> clean(
                #[trigger] spec_split(s, start, pos, in_str)->value[k],
            ),
    decreases s.len() - pos,
{
    if 0 <= pos < s.len() {
        if s[pos] == BACKSLASH && has_byte(s, pos + 1, QUOTE) {
            assert(passes(s, pos, pos + 2, in_str) == Some(in_str)) by {
                assert(passes(s, pos + 2, pos + 2, in_str) == Some(in_str));
            }
            lemma_passes_chain(s, start, pos, pos + 2, false);
            lemma_pieces_clean(s, start, pos + 2, in_str);
        } else if s[pos] == QUOTE {
            assert(passes(s, pos, pos + 1, in_str) == Some(!in_str)) by {
                assert(passes(s, pos + 1, pos + 1, !in_str) == Some(!in_str));
            }
            lemma_passes_chain(s, start, pos, pos + 1, false);
            lemma_pieces_clean(s, start, pos + 1, !in_str);
        } else if s[pos] == SEMICOLON && !in_str {
            lemma_run_end(s, Class::White, pos + 1);
            let next = run_end(s, Class::White, pos + 1);
            lemma_piece_clean(s, start, pos);
            let rest = spec_split(s, next, next, false);
            assert(rest is Match);
            lemma_pieces_clean(s, next, next, false);
            let head = piece(s, start, pos);
            let all = spec_split(s, start, pos, in_str)->value;
            assert(all == head + rest->value);
            assert forall|k: int| 0 <= k < all.len() implies clean(#[trigger] all[k]) by {
                if k < head.len() {
                    assert(all[k] == head[k]);
                } else {
                    assert(all[k] == rest->value[k - head.len()]);
                }
            }
        } else if s[pos] == LINE_FEED && in_str {
            lemma_run_end(s, Class::White, pos + 1);
            let next = run_end(s, Class::White, pos + 1);
            lemma_pieces_clean(s, next, next, false);
        } else if s[pos] == BRACE_CLOSE && !in_str {
            lemma_piece_clean(s, start, pos);
        } else {
            assert(passes(s, pos, pos + 1, in_str) == Some(in_str)) by {
                assert(passes(s, pos + 1, pos + 1, in_str) == Some(in_str));
            }
            lemma_passes_chain(s, start, pos, pos + 1, false);
            lemma_pieces_clean(s, start, pos + 1, in_str);
        }
    }
}

/// White space stands at the ends of a copy of `p` inside `s` just where
/// it stands at the ends of `p`.
proof fn lemma_space_copy(s: Seq<u8>, a: int, p: Seq<u8>)
    requires
        0 <= a,
        a + p.len() <= s.len(),
        s.subrange(a, a + p.len()) == p,
    ensures
        space_ahead(s, a, a + p.len()) == space_ahead(p, 0, p.len() as int),
        space_behind(s, a, a + p.len()) == space_behind(p, 0, p.len() as int),
{
    let n = p.len() as int;
    let copy = s.subrange(a, a + n);
    if n >= 1 {
        assert(copy[0] == s[a]);
        assert(copy[n - 1] == s[a + n - 1]);
    }
    if n >= 2 {
        assert(copy[1] == s[a + 1]);
        assert(copy[n - 2] == s[a + n - 2]);
    }
    if n >= 3 {
        assert(copy[2] == s[a + 2]);
        assert(copy[n - 3] == s[a + n - 3]);
    }
}

/// A clean piece is its own trimmed piece.
proof fn lemma_clean_is_trimmed(t: Seq<u8>, a: int, p: Seq<u8>)
    requires
        0 <= a,
        a + p.len() <= t.len(),
        t.subrange(a, a + p.len()) == p,
        clean(p),
    ensures
        piece(t, a, a + p.len()) == seq![p],
{
    lemma_space_copy(t, a, p);
    assert(trim_start(t, a, a + p.len()) == a);
    assert(trim_end(t, a, a + p.len()) == a + p.len());
    assert(piece(t, a, a + p.len()) =~= seq![p]);
}

/// Split from the start of the `k`-th piece on, the joined text gives the
/// pieces from the `k`-th on and is read to its end.
proof fn lemma_split_joined(t: Seq<u8>, front: Seq<u8>, pieces: Seq<Seq<u8>>, k: int)
    requires
        0 <= k < pieces.len(),
        forall|i: int| 0 <= i < pieces.len() ==> clean(#[trigger] pieces[i]),
        t == front + pieces[k] + after(pieces, k),
    ensures
        spec_split(t, front.len() as int, front.len() as int, false) == (Outcome::Match {
            value: pieces.subrange(k, pieces.len() as int),
            end: t.len() as int,
        }),
    decreases pieces.len() - k,
{
    let a = front.len() as int;
    let p = pieces[k];
    let b = a + p.len();
    assert(clean(p));
    assert(t.subrange(a, b) =~= p);
    assert(t[b] == after(pieces, k)[0]);
    assert(t[b] == SEMICOLON || t[b] == BRACE_CLOSE);
    lemma_passes_copy(t, a, p, 0, false);
    lemma_split_follows(t, a, a, b, false);
    lemma_clean_is_trimmed(t, a, p);
    if k + 1 >= pieces.len() {
        assert(after(pieces, k) =~= seq![BRACE_CLOSE]);
        assert(t.len() == b + 1);
        assert(pieces.subrange(k, pieces.len() as int) =~= seq![p]);
    } else {
        let q = pieces[k + 1];
        assert(clean(q));
        let tail = after(pieces, k + 1);
        assert(after(pieces, k) == seq![SEMICOLON, SPACE] + q + tail);
        assert(t[b] == SEMICOLON);
        assert(t[b + 1] == SPACE);
        assert(t[b + 2] == q[0]);
        assert(run_end(t, Class::White, b + 2) == b + 2);
        assert(run_end(t, Class::White, b + 1) == b + 2);
        let front2 = front + p + seq![SEMICOLON, SPACE];
        assert(t =~= front2 + q + tail);
        lemma_split_joined(t, front2, pieces, k + 1);
        assert(seq![p] + pieces.subrange(k + 1, pieces.len() as int) =~= pieces.subrange(
            k,
            pieces.len() as int,
        ));
    }
}

/// Joining the pieces of a block of variables with `; `, putting them
/// between braces and splitting that gives the same pieces in the same
/// order, and the joined text is read to its end.
pub proof fn lemma_split_round_trip(s: Seq<u8>, pos: int)
    requires
        spec_separate_var_list(s, pos) is Match,
    ensures
        spec_separate_var_list(joined(spec_separate_var_list(s, pos)->value), 0) == (
        Outcome::Match {
            value: spec_separate_var_list(s, pos)->value,
            end: joined(spec_separate_var_list(s, pos)->value).len() as int,
        }),
{
    let pieces = spec_separate_var_list(s, pos)->value;
    assert(passes(s, pos + 1, pos + 1, false) == Some(false));
    lemma_pieces_clean(s, pos + 1, pos + 1, false);
    let t = joined(pieces);
    if pieces.len() == 0 {
        assert(piece(t, 1, 1) =~= Seq::<Seq<u8>>::empty());
        assert(pieces =~= Seq::<Seq<u8>>::empty());
    } else {
        lemma_split_joined(t, seq![BRACE_OPEN], pieces, 0);
        assert(pieces.subrange(0, pieces.len() as int) =~= pieces);
    }
}

} // verus!
