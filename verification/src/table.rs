//! The table of prefabs of a map: for each key the prefabs that it stands
//! for.

use crate::prefabs::{prefabs_value, Prefab, PrefabLine, PrefabValue};
use std::collections::HashMap;
use vstd::prelude::*;

verus! {

broadcast use vstd::std_specs::hash::group_hash_axioms;

/// Whether two slices hold the same bytes.
pub fn same_bytes(a: &[u8], b: &[u8]) -> (r: bool)
    ensures
        r == (a@ == b@),
{
    if a.len() != b.len() {
        return false;
    }
    let mut i: usize = 0;
    while i < a.len()
        invariant
            a@.len() == b@.len(),
            i <= a@.len(),
            forall|j: int| 0 <= j < i ==> a@[j] == b@[j],
        decreases a@.len() - i,
    {
        if a[i] != b[i] {
            return false;
        }
        i = i + 1;
    }
    assert(a@ =~= b@);
    true
}

/// The prefab table of a map. Each key occurs once; a line whose key is in
/// the table already takes the place of the earlier one. Keys of up to
/// eight bytes are found through an index, longer ones by looking through
/// the lines.
#[derive(Debug)]
pub struct Prefabs<'s> {
    lines: Vec<PrefabLine<'s>>,
    index: HashMap<u128, usize>,
}

/// Whether no two of the lines have the same key.
pub open spec fn distinct_keys(lines: Seq<PrefabLine>) -> bool {
    forall|i: int, j: int|
        0 <= i < lines.len() && 0 <= j < lines.len() && (#[trigger] lines[i]).0@ == (
        #[trigger] lines[j]).0@ ==> i == j
}

/// Whether `key` is the key of one of the lines.
pub open spec fn has_key(lines: Seq<PrefabLine>, key: Seq<u8>) -> bool {
    exists|i: int| 0 <= i < lines.len() && (#[trigger] lines[i]).0@ == key
}

/// The index of a line with the key `key`.
pub open spec fn index_of_key(lines: Seq<PrefabLine>, key: Seq<u8>) -> int {
    choose|i: int| 0 <= i < lines.len() && (#[trigger] lines[i]).0@ == key
}

/// The number that stands for a key in the index: its bytes as digits to
/// the base 256 behind a leading 1.
pub closed spec fn code(key: Seq<u8>) -> nat
    decreases key.len(),
{
    if key.len() == 0 {
        1
    } else {
        code(key.drop_last()) * 256 + key.last() as nat
    }
}

/// The least number that is no code of a key of `n` bytes.
spec fn code_limit(n: nat) -> nat
    decreases n,
{
    if n == 0 {
        2
    } else {
        code_limit((n - 1) as nat) * 256
    }
}

/// The code of a key is at least 1 and below the limit of its length.
proof fn lemma_code_bound(key: Seq<u8>)
    ensures
        1 <= code(key) < code_limit(key.len()),
    decreases key.len(),
{
    if key.len() > 0 {
        lemma_code_bound(key.drop_last());
    }
}

/// No two keys have the same code.
proof fn lemma_code_injective(a: Seq<u8>, b: Seq<u8>)
    requires
        code(a) == code(b),
    ensures
        a == b,
    decreases a.len(),
{
    lemma_code_bound(a);
    lemma_code_bound(b);
    if a.len() == 0 || b.len() == 0 {
        if a.len() > 0 {
            lemma_code_bound(a.drop_last());
        }
        if b.len() > 0 {
            lemma_code_bound(b.drop_last());
        }
        assert(a =~= b);
    } else {
        lemma_code_injective(a.drop_last(), b.drop_last());
        assert(a =~= a.drop_last().push(a.last()));
        assert(b =~= b.drop_last().push(b.last()));
    }
}

/// Whether the index holds just the lines with keys of up to eight bytes,
/// each under the code of its key.
spec fn indexed(lines: Seq<PrefabLine>, index: Map<u128, usize>) -> bool {
    &&& forall|i: int|
        0 <= i < lines.len() && (#[trigger] lines[i]).0@.len() <= 8 ==> index.contains_key(
            code(lines[i].0@) as u128,
        ) && index[code(lines[i].0@) as u128] == i
    &&& forall|c: u128| #[trigger]
        index.contains_key(c) ==> index[c] < lines.len() && lines[index[c] as int].0@.len() <= 8
            && code(lines[index[c] as int].0@) == c
}

/// The code of a key of up to eight bytes.
fn code_of(key: &[u8]) -> (r: Option<u128>)
    ensures
        match r {
            Some(c) => key@.len() <= 8 && c == code(key@),
            None => key@.len() > 8,
        },
{
    if key.len() > 8 {
        return None;
    }
    let mut c: u128 = 1;
    let mut i: usize = 0;
    while i < key.len()
        invariant
            i <= key@.len() <= 8,
            c == code(key@.take(i as int)),
            c < code_limit(i as nat),
        decreases key@.len() - i,
    {
        proof {
            reveal_with_fuel(code_limit, 10);
            assert(key@.take(i + 1).drop_last() =~= key@.take(i as int));
            assert(key@.take(i + 1).last() == key@[i as int]);
            lemma_code_bound(key@.take(i + 1));
        }
        c = c * 256 + key[i] as u128;
        i = i + 1;
    }
    assert(key@.take(key@.len() as int) =~= key@);
    Some(c)
}

impl<'s> Prefabs<'s> {
    #[verifier::type_invariant]
    spec fn well_formed(&self) -> bool {
        distinct_keys(self.lines@) && indexed(self.lines@, self.index@)
    }

    /// The lines of the table, in the order in which their keys came in.
    pub closed spec fn lines(&self) -> Seq<PrefabLine<'s>> {
        self.lines@
    }

    /// An empty table.
    pub fn new() -> (r: Self)
        ensures
            r.lines().len() == 0,
            r@ == Map::<Seq<u8>, Seq<PrefabValue>>::empty(),
    {
        let r = Prefabs { lines: Vec::new(), index: HashMap::new() };
        assert(r@ =~= Map::<Seq<u8>, Seq<PrefabValue>>::empty());
        r
    }

    /// The number of keys.
    pub fn len(&self) -> (r: usize)
        ensures
            r == self.lines().len(),
    {
        self.lines.len()
    }

    /// The `i`-th line, in the order in which the keys came in.
    pub fn line(&self, i: usize) -> (r: &PrefabLine<'s>)
        requires
            i < self.lines().len(),
        ensures
            *r == self.lines()[i as int],
            distinct_keys(self.lines()),
    {
        proof {
            use_type_invariant(self);
        }
        &self.lines[i]
    }

    /// Which line has the key `key`.
    pub fn position(&self, key: &[u8]) -> (r: Option<usize>)
        ensures
            distinct_keys(self.lines()),
            match r {
                Some(i) => i < self.lines().len() && self.lines()[i as int].0@ == key@ && has_key(
                    self.lines(),
                    key@,
                ) && i == index_of_key(self.lines(), key@),
                None => !has_key(self.lines(), key@),
            },
    {
        proof {
            use_type_invariant(self);
        }
        match code_of(key) {
            Some(c) => {
                match self.index.get(&c) {
                    Some(i) => {
                        proof {
                            lemma_code_injective(self.lines@[*i as int].0@, key@);
                        }
                        Some(*i)
                    },
                    None => {
                        assert forall|j: int| 0 <= j < self.lines@.len() implies (
                        #[trigger] self.lines@[j]).0@ != key@ by {
                            if self.lines@[j].0@ == key@ {
                                assert(self.index@.contains_key(code(self.lines@[j].0@) as u128));
                            }
                        }
                        None
                    },
                }
            },
            None => {
                let mut i: usize = 0;
                while i < self.lines.len()
                    invariant
                        i <= self.lines@.len(),
                        distinct_keys(self.lines@),
                        forall|j: int| 0 <= j < i ==> (#[trigger] self.lines@[j]).0@ != key@,
                    decreases self.lines@.len() - i,
                {
                    if same_bytes(self.lines[i].0, key) {
                        assert(self.lines@[i as int].0@ == key@);
                        return Some(i);
                    }
                    i = i + 1;
                }
                None
            },
        }
    }

    /// The prefabs that `key` stands for.
    pub fn get(&self, key: &[u8]) -> (r: Option<&Vec<Prefab<'s>>>)
        ensures
            match r {
                Some(list) => self@.contains_key(key@) && self@[key@] == prefabs_value(list@)
                    && has_key(self.lines(), key@) && *list == self.lines()[index_of_key(
                    self.lines(),
                    key@,
                )].1,
                None => !self@.contains_key(key@),
            },
    {
        match self.position(key) {
            Some(i) => {
                assert(self.lines()[i as int].0@ == key@);
                Some(&self.lines[i].1)
            },
            None => None,
        }
    }

    /// Puts the line of `key` into the table, in place of an earlier line
    /// of the same key if there is one.
    pub fn insert(&mut self, key: &'s [u8], list: Vec<Prefab<'s>>)
        ensures
            final(self)@ == old(self)@.insert(key@, prefabs_value(list@)),
            final(self).lines() == if has_key(old(self).lines(), key@) {
                old(self).lines().update(index_of_key(old(self).lines(), key@), (key, list))
            } else {
                old(self).lines().push((key, list))
            },
    {
        proof {
            use_type_invariant(&*self);
        }
        let ghost before = self.lines@;
        let ghost index_before = self.index@;
        let found = self.position(key);
        let mut taken = Prefabs { lines: Vec::new(), index: HashMap::new() };
        core::mem::swap(self, &mut taken);
        let Prefabs { lines, index } = taken;
        let mut lines = lines;
        let mut index = index;
        match found {
            Some(i) => {
                assert(before[i as int].0@ == key@);
                lines.set(i, (key, list));
                proof {
                    let after = lines@;
                    assert forall|a: int, b: int|
                        0 <= a < after.len() && 0 <= b < after.len() && (#[trigger] after[a]).0@
                            == (#[trigger] after[b]).0@ implies a == b by {
                        assert(after[a].0@ == before[a].0@);
                        assert(after[b].0@ == before[b].0@);
                    }
                    assert forall|k: Seq<u8>| has_key(after, k) == has_key(before, k) by {
                        if has_key(after, k) {
                            let j = index_of_key(after, k);
                            assert(before[j].0@ == k);
                        }
                        if has_key(before, k) {
                            let j = index_of_key(before, k);
                            assert(after[j].0@ == k);
                        }
                    }
                    assert forall|j: int|
                        0 <= j < after.len() && (#[trigger] after[j]).0@.len()
                            <= 8 implies index@.contains_key(code(after[j].0@) as u128)
                        && index@[code(after[j].0@) as u128] == j by {
                        assert(before[j].0@ == after[j].0@);
                    }
                    assert forall|c: u128| #[trigger] index@.contains_key(c) implies index@[c]
                        < after.len() && after[index@[c] as int].0@.len() <= 8 && code(
                        after[index@[c] as int].0@,
                    ) == c by {
                        assert(before[index@[c] as int].0@ == after[index@[c] as int].0@);
                    }
                }
            },
            None => {
                let at = lines.len();
                lines.push((key, list));
                match code_of(key) {
                    Some(c) => {
                        index.insert(c, at);
                    },
                    None => {},
                }
                proof {
                    let after = lines@;
                    assert forall|a: int, b: int|
                        0 <= a < after.len() && 0 <= b < after.len() && (#[trigger] after[a]).0@
                            == (#[trigger] after[b]).0@ implies a == b by {
                        if a < before.len() {
                            assert(before[a].0@ == after[a].0@);
                        }
                        if b < before.len() {
                            assert(before[b].0@ == after[b].0@);
                        }
                    }
                    assert forall|j: int|
                        0 <= j < after.len() && (#[trigger] after[j]).0@.len()
                            <= 8 implies index@.contains_key(code(after[j].0@) as u128)
                        && index@[code(after[j].0@) as u128] == j by {
                        lemma_code_bound(after[j].0@);
                        reveal_with_fuel(code_limit, 10);
                        if j < before.len() {
                            assert(before[j].0@ == after[j].0@);
                            if code(after[j].0@) == code(key@) {
                                lemma_code_injective(after[j].0@, key@);
                            }
                        }
                    }
                    assert forall|c: u128| #[trigger] index@.contains_key(c) implies index@[c]
                        < after.len() && after[index@[c] as int].0@.len() <= 8 && code(
                        after[index@[c] as int].0@,
                    ) == c by {
                        if index_before.contains_key(c) && index@[c] == index_before[c] {
                            assert(before[index@[c] as int].0@ == after[index@[c] as int].0@);
                        }
                    }
                }
            },
        }
        proof {
            let after = lines@;
            let want = table_of(before).insert(key@, prefabs_value(list@));
            assert(distinct_keys(after));
            assert forall|k: Seq<u8>| #[trigger]
                table_of(after).dom().contains(k) == want.dom().contains(k) by {
                if has_key(after, k) && k != key@ {
                    let j = index_of_key(after, k);
                    assert(before[j].0@ == k);
                }
                if has_key(before, k) {
                    let j = index_of_key(before, k);
                    assert(after[j].0@ == k || k == key@);
                }
                if k == key@ {
                    if has_key(before, k) {
                        assert(after[index_of_key(before, k)].0@ == k);
                    } else {
                        assert(after[after.len() - 1].0@ == k);
                    }
                }
            }
            assert forall|k: Seq<u8>| #[trigger]
                table_of(after).dom().contains(k) implies table_of(after)[k] == want[k] by {
                let j = index_of_key(after, k);
                if k == key@ {
                    if has_key(before, k) {
                        assert(after[index_of_key(before, k)].0@ == k);
                    } else {
                        assert(after[after.len() - 1].0@ == k);
                    }
                } else {
                    assert(before[j].0@ == k);
                    let i = index_of_key(before, k);
                    assert(after[i].0@ == k);
                }
            }
            assert(table_of(after) =~= want);
        }
        *self = Prefabs { lines, index };
    }
}

/// The table that the lines spell: each key with the prefabs of its line.
pub open spec fn table_of(lines: Seq<PrefabLine>) -> Map<Seq<u8>, Seq<PrefabValue>> {
    Map::new(
        |k: Seq<u8>| has_key(lines, k),
        |k: Seq<u8>| prefabs_value(lines[index_of_key(lines, k)].1@),
    )
}

impl<'s> View for Prefabs<'s> {
    type V = Map<Seq<u8>, Seq<PrefabValue>>;

    open spec fn view(&self) -> Map<Seq<u8>, Seq<PrefabValue>> {
        table_of(self.lines())
    }
}

} // verus!
