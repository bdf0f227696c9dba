//! The second phase of loading: the commands of a plan are carried out a
//! slice at a time. What is decided here is which call on the host comes
//! next; the calls themselves are made by whoever drives the buffer, who
//! hands back what the host returned.

use crate::load_buffer::{in_table, prefab_of, Command, PrefabRef};
use crate::table::{same_bytes, Prefabs};
use std::collections::HashMap;
use vstd::prelude::*;

verus! {

broadcast use vstd::std_specs::hash::group_hash_axioms;

/// The number that stands for the pair `(y, z)`; no two pairs share one.
pub open spec fn pack(y: usize, z: usize) -> u128 {
    (y * 0x1_0000_0000_0000_0000 + z) as u128
}

/// The number that stands for the pair `(y, z)`.
fn pack_pair(y: usize, z: usize) -> (r: u128)
    ensures
        r == pack(y, z),
{
    (y as u128) * 0x1_0000_0000_0000_0000u128 + (z as u128)
}

/// Two pairs with the same number are the same pair.
proof fn lemma_pack_injective(y1: usize, z1: usize, y2: usize, z2: usize)
    requires
        pack(y1, z1) == pack(y2, z2),
    ensures
        y1 == y2 && z1 == z2,
{
}

/// References to tiles of the host's world, kept by coordinate. They are
/// good for as long as the world keeps its bounds.
pub struct CachedTurfs<T> {
    world_bounds: (usize, usize, usize),
    columns: HashMap<usize, HashMap<u128, T>>,
}

impl<T> CachedTurfs<T> {
    /// The bounds of the world that the references belong to.
    pub closed spec fn bounds(&self) -> (usize, usize, usize) {
        self.world_bounds
    }

    /// The bounds of the world that the references belong to.
    pub fn world_bounds(&self) -> (r: (usize, usize, usize))
        ensures
            r == self.bounds(),
    {
        self.world_bounds
    }

    /// The references that are kept, by coordinate.
    pub closed spec fn tiles(&self) -> Map<(usize, usize, usize), T> {
        Map::new(
            |c: (usize, usize, usize)|
                self.columns@.contains_key(c.0) && self.columns@[c.0]@.contains_key(pack(c.1, c.2)),
            |c: (usize, usize, usize)| self.columns@[c.0]@[pack(c.1, c.2)],
        )
    }

    /// A cache without references for a world of the bounds `world_bounds`.
    pub fn new(world_bounds: (usize, usize, usize)) -> (r: Self)
        ensures
            r.bounds() == world_bounds,
            r.tiles() == Map::<(usize, usize, usize), T>::empty(),
    {
        let r = CachedTurfs { world_bounds, columns: HashMap::new() };
        assert(r.tiles() =~= Map::<(usize, usize, usize), T>::empty());
        r
    }

    /// Takes note of the bounds that the world has now. Where they differ
    /// from those that the references belong to, every reference is
    /// dropped.
    pub fn check_invalidate(&mut self, world_bounds: (usize, usize, usize))
        ensures
            final(self).bounds() == world_bounds,
            final(self).tiles() == still_good(old(self).tiles(), old(self).bounds(), world_bounds),
    {
        if world_bounds.0 != self.world_bounds.0 || world_bounds.1 != self.world_bounds.1
            || world_bounds.2 != self.world_bounds.2 {
            self.columns = HashMap::new();
            self.world_bounds = world_bounds;
            assert(self.tiles() =~= Map::<(usize, usize, usize), T>::empty());
        } else {
            assert(self.tiles() =~= old(self).tiles());
        }
    }

    /// The reference kept for `coord`, if one is.
    pub fn resolve_coord(&self, coord: (usize, usize, usize)) -> (r: Option<&T>)
        ensures
            match r {
                Some(turf) => self.tiles().contains_key(coord) && *turf == self.tiles()[coord],
                None => !self.tiles().contains_key(coord),
            },
    {
        match self.columns.get(&coord.0) {
            Some(column) => column.get(&pack_pair(coord.1, coord.2)),
            None => None,
        }
    }

    /// Keeps `turf` as the reference for `coord`, unless one is kept for
    /// it already.
    pub fn cache(&mut self, coord: (usize, usize, usize), turf: T)
        ensures
            final(self).bounds() == old(self).bounds(),
            final(self).tiles() == keep(old(self).tiles(), coord, turf),
    {
        let key = pack_pair(coord.1, coord.2);
        let mut column = match self.columns.remove(&coord.0) {
            Some(column) => column,
            None => HashMap::new(),
        };
        let ghost known = column@.contains_key(key);
        if !column.contains_key(&key) {
            column.insert(key, turf);
        }
        self.columns.insert(coord.0, column);
        proof {
            let want = if old(self).tiles().contains_key(coord) {
                old(self).tiles()
            } else {
                old(self).tiles().insert(coord, turf)
            };
            assert forall|c: (usize, usize, usize)| #[trigger]
                self.tiles().contains_key(c) == want.contains_key(c) by {
                if c.0 == coord.0 && pack(c.1, c.2) == key {
                    lemma_pack_injective(c.1, c.2, coord.1, coord.2);
                }
            }
            assert forall|c: (usize, usize, usize)| #[trigger]
                self.tiles().contains_key(c) implies self.tiles()[c] == want[c] by {
                if c.0 == coord.0 && pack(c.1, c.2) == key {
                    lemma_pack_injective(c.1, c.2, coord.1, coord.2);
                }
            }
            assert(self.tiles() =~= want);
        }
    }
}

/// References of the host that are kept by path.
pub struct PathCache<'s, T> {
    entries: Vec<(&'s [u8], T)>,
}

/// Whether one of the entries has the path `path`.
pub open spec fn has_path<T>(entries: Seq<(&[u8], T)>, path: Seq<u8>) -> bool {
    exists|i: int| 0 <= i < entries.len() && (#[trigger] entries[i]).0@ == path
}

/// The index of the first entry with the path `path`.
pub open spec fn first_with<T>(entries: Seq<(&[u8], T)>, path: Seq<u8>, from: int) -> int
    decreases entries.len() - from,
{
    if from < 0 || from >= entries.len() || entries[from].0@ == path {
        from
    } else {
        first_with(entries, path, from + 1)
    }
}

/// The first entry with the path is one with the path, if there is one.
pub proof fn lemma_first_with<T>(entries: Seq<(&[u8], T)>, path: Seq<u8>, from: int)
    requires
        0 <= from,
    ensures
        from <= first_with(entries, path, from),
        (exists|i: int| from <= i < entries.len() && (#[trigger] entries[i]).0@ == path)
            ==> first_with(entries, path, from) < entries.len() && entries[first_with(
            entries,
            path,
            from,
        )].0@ == path,
    decreases entries.len() - from,
{
    if from < entries.len() && entries[from].0@ != path {
        lemma_first_with(entries, path, from + 1);
        if exists|i: int| from <= i < entries.len() && (#[trigger] entries[i]).0@ == path {
            let i = choose|i: int| from <= i < entries.len() && (#[trigger] entries[i]).0@ == path;
            assert(from + 1 <= i < entries.len() && entries[i].0@ == path);
        }
    }
}

/// What the entries keep: for each path the reference of the first entry
/// that has it.
pub open spec fn kept<T>(entries: Seq<(&[u8], T)>) -> Map<Seq<u8>, T> {
    Map::new(
        |path: Seq<u8>| has_path(entries, path),
        |path: Seq<u8>| entries[first_with(entries, path, 0)].1,
    )
}

impl<'s, T> PathCache<'s, T> {
    /// What is kept, by path.
    pub closed spec fn view(&self) -> Map<Seq<u8>, T> {
        kept(self.entries@)
    }

    /// A cache that keeps nothing.
    pub fn new() -> (r: Self)
        ensures
            r.view() == Map::<Seq<u8>, T>::empty(),
    {
        let r = PathCache { entries: Vec::new() };
        assert(r.view() =~= Map::<Seq<u8>, T>::empty());
        r
    }

    /// The reference kept for `path`, if one is.
    pub fn get(&self, path: &[u8]) -> (r: Option<&T>)
        ensures
            match r {
                Some(found) => self.view().contains_key(path@) && *found == self.view()[path@],
                None => !self.view().contains_key(path@),
            },
    {
        let mut i: usize = 0;
        while i < self.entries.len()
            invariant
                i <= self.entries@.len(),
                forall|j: int| 0 <= j < i ==> (#[trigger] self.entries@[j]).0@ != path@,
                first_with(self.entries@, path@, 0) == first_with(self.entries@, path@, i as int),
            decreases self.entries@.len() - i,
        {
            if same_bytes(self.entries[i].0, path) {
                assert(self.entries@[i as int].0@ == path@);
                return Some(&self.entries[i].1);
            }
            i = i + 1;
        }
        None
    }

    /// Keeps `value` as the reference for `path`, unless one is kept for
    /// it already.
    pub fn insert(&mut self, path: &'s [u8], value: T)
        ensures
            final(self).view() == keep(old(self).view(), path@, value),
    {
        let ghost before = self.entries@;
        if self.get(path).is_some() {
            return ;
        }
        self.entries.push((path, value));
        proof {
            let after = self.entries@;
            let want = kept(before).insert(path@, value);
            assert(after[after.len() - 1].0@ == path@);
            assert forall|p: Seq<u8>| #[trigger]
                kept(after).contains_key(p) == want.contains_key(p) by {
                if has_path(before, p) {
                    let i = choose|i: int| 0 <= i < before.len() && (#[trigger] before[i]).0@ == p;
                    assert(after[i].0@ == p);
                }
                if has_path(after, p) && p != path@ {
                    let i = choose|i: int| 0 <= i < after.len() && (#[trigger] after[i]).0@ == p;
                    assert(before[i].0@ == p);
                }
            }
            assert forall|p: Seq<u8>| #[trigger] kept(after).contains_key(p) implies kept(after)[p]
                == want[p] by {
                lemma_first_with(after, p, 0);
                let i = first_with(after, p, 0);
                if p == path@ {
                    if i < before.len() {
                        assert(before[i].0@ == p);
                    }
                } else {
                    assert(before[i].0@ == p);
                    lemma_first_with(before, p, 0);
                    lemma_same_first(before, after, p, 0);
                }
            }
            assert(kept(after) =~= want);
        }
    }
}

/// An entry at the end does not change which entry is the first with a
/// path that an earlier entry has.
proof fn lemma_same_first<T>(
    before: Seq<(&[u8], T)>,
    after: Seq<(&[u8], T)>,
    path: Seq<u8>,
    from: int,
)
    requires
        0 <= from,
        after.len() == before.len() + 1,
        forall|i: int| 0 <= i < before.len() ==> before[i] == after[i],
        exists|i: int| from <= i < before.len() && (#[trigger] before[i]).0@ == path,
    ensures
        first_with(before, path, from) == first_with(after, path, from),
    decreases before.len() - from,
{
    if from < before.len() && before[from].0@ != path {
        let i = choose|i: int| from <= i < before.len() && (#[trigger] before[i]).0@ == path;
        assert(from + 1 <= i < before.len() && before[i].0@ == path);
        lemma_same_first(before, after, path, from + 1);
    }
}

/// The map `m` with `v` kept for `k`, unless something is kept for it.
pub open spec fn keep<K, V>(m: Map<K, V>, k: K, v: V) -> Map<K, V> {
    if m.contains_key(k) {
        m
    } else {
        m.insert(k, v)
    }
}

/// The tiles that are still good when the world has the bounds `now`: all
/// of them where those are the bounds `kept_for` that they belong to, else
/// none.
pub open spec fn still_good<T>(
    tiles: Map<(usize, usize, usize), T>,
    kept_for: (usize, usize, usize),
    now: (usize, usize, usize),
) -> Map<(usize, usize, usize), T> {
    if now == kept_for {
        tiles
    } else {
        Map::empty()
    }
}

/// After the bounds of the world have changed, no coordinate has a
/// reference, so each one is asked of the host anew. Once the answer for a
/// coordinate is kept, that coordinate has a reference and is not asked
/// for again, a second answer for it changes nothing, and every other
/// coordinate is still to be asked for.
pub proof fn lemma_requery_once<T>(
    tiles: Map<(usize, usize, usize), T>,
    kept_for: (usize, usize, usize),
    now: (usize, usize, usize),
    coord: (usize, usize, usize),
    turf: T,
    again: T,
    other: (usize, usize, usize),
)
    requires
        now != kept_for,
        other != coord,
    ensures
        !still_good(tiles, kept_for, now).contains_key(coord),
        keep(still_good(tiles, kept_for, now), coord, turf).contains_key(coord),
        keep(still_good(tiles, kept_for, now), coord, turf)[coord] == turf,
        keep(keep(still_good(tiles, kept_for, now), coord, turf), coord, again) == keep(
            still_good(tiles, kept_for, now),
            coord,
            turf,
        ),
        !keep(still_good(tiles, kept_for, now), coord, turf).contains_key(other),
{
}

/// The source of the keys under which command buffers are kept while they
/// are carried out: each key is larger by one than the one before.
#[derive(Debug)]
pub struct ResumeKeys {
    last: usize,
}

impl ResumeKeys {
    /// The key that was given out last; 0 where none was.
    pub closed spec fn last(&self) -> usize {
        self.last
    }

    /// A source that has given out no key.
    pub fn new() -> (r: Self)
        ensures
            r.last() == 0,
    {
        ResumeKeys { last: 0 }
    }

    /// The next key; none where the keys are used up, which changes
    /// nothing.
    pub fn next(&mut self) -> (r: Option<usize>)
        ensures
            match r {
                Some(key) => key == old(self).last() + 1 && final(self).last() == key,
                None => old(self).last() == usize::MAX && final(self).last() == old(self).last(),
            },
    {
        if self.last == usize::MAX {
            None
        } else {
            self.last = self.last + 1;
            Some(self.last)
        }
    }
}

/// The number of commands after which the host is asked whether the
/// slice is used up.
pub const MIN_PAUSE: usize = 100;

/// A command together with what it needs to know of its prefab.
#[derive(Clone, Copy, Debug, PartialEq, Eq)]
pub struct Order<'s> {
    pub command: Command,
    /// The path of the prefab.
    pub path: &'s [u8],
    /// Whether the prefab has a block of variables.
    pub has_vars: bool,
}

/// What the driver hands to the buffer: the start of a slice, or what the
/// host returned to the last call.
pub enum Event<T> {
    /// A slice begins.
    Start,
    /// The bounds of the world.
    Bounds((usize, usize, usize)),
    /// The reference that was asked for.
    Reference(T),
    /// The tile that was asked for; nothing where the host has none there.
    Tile(Option<T>),
    /// The call is done.
    Done,
    /// Whether the slice is used up.
    Tick(bool),
}

/// What the driver is to do next.
#[derive(Clone, Copy, Debug, PartialEq, Eq)]
pub enum Action {
    /// Ask the host for the bounds of its world.
    AskBounds,
    /// Ask the host for the area of the prefab's path, creating it if need
    /// be.
    WantArea { prefab: PrefabRef },
    /// Ask the host for the tile at `loc`.
    WantTile { loc: (usize, usize, usize) },
    /// Ask the host for the type that the prefab's path names.
    WantPath { prefab: PrefabRef },
    /// Put the tile at `loc` into the area of the prefab's path, after
    /// taking it out of the area that it is in if `reassign` is set.
    JoinArea { loc: (usize, usize, usize), prefab: PrefabRef, reassign: bool },
    /// Create the turf of the prefab on the tile at `loc`.
    MakeTurf {
        loc: (usize, usize, usize),
        prefab: PrefabRef,
        place_on_top: bool,
        no_changeturf: bool,
    },
    /// Create an instance of the prefab's type on the tile at `loc`, with
    /// the prefab's variables staged before if `preload` is set, and apply
    /// what was staged to the instance.
    Spawn { loc: (usize, usize, usize), prefab: PrefabRef, preload: bool },
    /// Tell the host that nothing is created at `loc`: it has no tile
    /// there.
    WarnNull { loc: (usize, usize, usize) },
    /// Ask the host whether the slice is used up.
    AskTick,
    /// End the slice; there is more to do.
    Suspend,
    /// End the slice; all is done.
    Finish,
    /// The event does not answer what was asked. Nothing has changed.
    Refuse,
}

/// The state of a buffer.
pub struct Machine<'s, T> {
    /// The commands that are left. The last is carried out first.
    pub orders: Seq<Order<'s>>,
    pub areas: Map<Seq<u8>, T>,
    pub types: Map<Seq<u8>, T>,
    pub tiles: Map<(usize, usize, usize), Option<T>>,
    /// The bounds of the world that the tiles belong to.
    pub bounds: (usize, usize, usize),
    /// What the driver was told last.
    pub pending: Action,
    /// The command that is being carried out.
    pub current: Option<Order<'s>>,
    /// The commands carried out since the host was last asked whether the
    /// slice is used up.
    pub count: usize,
}

/// What the command `order` asks of the driver next: the area unless it is
/// kept, then the tile unless it is kept, for an area; the tile, for a
/// turf; the tile and then the type, for anything else. Where the host has
/// no tile, a warning. Where all is at hand, the creation itself.
pub open spec fn need<T>(m: Machine<T>, order: Order) -> Action {
    match order.command {
        Command::CreateArea { loc, prefab, new_z } => if !m.areas.contains_key(order.path@) {
            Action::WantArea { prefab }
        } else if !m.tiles.contains_key(loc) {
            Action::WantTile { loc }
        } else if m.tiles[loc] is None {
            Action::WarnNull { loc }
        } else {
            Action::JoinArea { loc, prefab, reassign: !new_z }
        },
        Command::CreateTurf { loc, prefab, no_changeturf, place_on_top } => if !m.tiles.contains_key(
            loc,
        ) {
            Action::WantTile { loc }
        } else if m.tiles[loc] is None {
            Action::WarnNull { loc }
        } else {
            Action::MakeTurf { loc, prefab, place_on_top, no_changeturf }
        },
        Command::CreateAtom { loc, prefab } => if !m.tiles.contains_key(loc) {
            Action::WantTile { loc }
        } else if m.tiles[loc] is None {
            Action::WarnNull { loc }
        } else if !m.types.contains_key(order.path@) {
            Action::WantPath { prefab }
        } else {
            Action::Spawn { loc, prefab, preload: order.has_vars }
        },
    }
}

/// The state `m` with `a` as what the driver was told last.
pub open spec fn told<'s, T>(m: Machine<'s, T>, a: Action) -> (Machine<'s, T>, Action) {
    (Machine { pending: a, ..m }, a)
}

/// Goes on with the command that is being carried out.
pub open spec fn resume<'s, T>(m: Machine<'s, T>) -> (Machine<'s, T>, Action) {
    match m.current {
        Some(order) => told(m, need(m, order)),
        None => (m, Action::Refuse),
    }
}

/// Takes the last command that is left, or finishes where none is.
pub open spec fn next<'s, T>(m: Machine<'s, T>) -> (Machine<'s, T>, Action) {
    if m.orders.len() == 0 {
        told(Machine { current: None, ..m }, Action::Finish)
    } else {
        resume(Machine { orders: m.orders.drop_last(), current: Some(m.orders.last()), ..m })
    }
}

/// What the buffer does with an event: its state after it, and what the
/// driver is to do next.
pub open spec fn step<'s, T>(m: Machine<'s, T>, e: Event<T>) -> (Machine<'s, T>, Action) {
    match (m.pending, e) {
        (Action::Suspend, Event::Start) => told(Machine { count: 0, ..m }, Action::AskBounds),
        (Action::AskBounds, Event::Bounds(b)) => next(
            Machine {
                tiles: still_good(m.tiles, m.bounds, b),
                bounds: b,
                ..m
            },
        ),
        (Action::WantArea { prefab }, Event::Reference(t)) => match m.current {
            Some(order) => resume(Machine { areas: keep(m.areas, order.path@, t), ..m }),
            None => (m, Action::Refuse),
        },
        (Action::WantPath { prefab }, Event::Reference(t)) => match m.current {
            Some(order) => resume(Machine { types: keep(m.types, order.path@, t), ..m }),
            None => (m, Action::Refuse),
        },
        (Action::WantTile { loc }, Event::Tile(t)) => resume(
            Machine { tiles: keep(m.tiles, loc, t), ..m },
        ),
        (Action::JoinArea { .. }, Event::Done)
        | (Action::MakeTurf { .. }, Event::Done)
        | (Action::Spawn { .. }, Event::Done) => if m.count + 1 >= MIN_PAUSE {
            told(Machine { count: 0, current: None, ..m }, Action::AskTick)
        } else {
            next(Machine { count: (m.count + 1) as usize, current: None, ..m })
        },
        (Action::WarnNull { loc }, Event::Done) => next(Machine { current: None, ..m }),
        (Action::AskTick, Event::Tick(used_up)) => if used_up {
            told(m, Action::Suspend)
        } else {
            next(m)
        },
        _ => (m, Action::Refuse),
    }
}

/// The commands of a plan on their way into the world, with the
/// references that they share.
pub struct CommandBuffer<'s, T> {
    created_areas: PathCache<'s, T>,
    known_types: PathCache<'s, T>,
    cached_turfs: CachedTurfs<Option<T>>,
    commands: Vec<Order<'s>>,
    pending: Action,
    current: Option<Order<'s>>,
    count: usize,
}

/// The command `c` with what it needs to know of its prefab.
pub open spec fn order_of<'s>(prefabs: Prefabs<'s>, c: Command) -> Order<'s> {
    let at = prefab_of(c);
    Order {
        command: c,
        path: prefabs.lines()[at.line as int].1@[at.index as int].0,
        has_vars: prefabs.lines()[at.line as int].1@[at.index as int].1 is Some,
    }
}

impl<'s, T> CommandBuffer<'s, T> {
    /// The state of the buffer.
    pub closed spec fn model(&self) -> Machine<'s, T> {
        Machine {
            orders: self.commands@,
            areas: self.created_areas.view(),
            types: self.known_types.view(),
            tiles: self.cached_turfs.tiles(),
            bounds: self.cached_turfs.bounds(),
            pending: self.pending,
            current: self.current,
            count: self.count,
        }
    }

    /// The buffer of the commands of a plan whose prefabs are those of
    /// `prefabs`, for a world of the bounds `world_bounds`. There is none
    /// where a command is about a prefab that is not in the table.
    pub fn new(
        commands: &Vec<Command>,
        prefabs: &Prefabs<'s>,
        world_bounds: (usize, usize, usize),
    ) -> (r: Option<Self>)
        ensures
            r is Some <==> forall|i: int|
                0 <= i < commands@.len() ==> in_table(
                    prefabs.lines(),
                    prefab_of(#[trigger] commands@[i]),
                ),
            r matches Some(buffer) ==> {
                let m = buffer.model();
                &&& m.orders.len() == commands@.len()
                &&& forall|i: int|
                    0 <= i < commands@.len() ==> #[trigger] m.orders[i] == order_of(
                        *prefabs,
                        commands@[i],
                    )
                &&& m.areas == Map::<Seq<u8>, T>::empty()
                &&& m.types == Map::<Seq<u8>, T>::empty()
                &&& m.tiles == Map::<(usize, usize, usize), Option<T>>::empty()
                &&& m.bounds == world_bounds
                &&& m.pending == Action::Suspend
                &&& m.current is None
                &&& m.count == 0
                &&& settled(m)
            },
    {
        let mut orders: Vec<Order<'s>> = Vec::new();
        let mut k: usize = 0;
        while k < commands.len()
            invariant
                k <= commands@.len(),
                orders@.len() == k,
                forall|i: int|
                    0 <= i < k ==> in_table(prefabs.lines(), prefab_of(#[trigger] commands@[i])),
                forall|i: int|
                    0 <= i < k ==> #[trigger] orders@[i] == order_of(*prefabs, commands@[i]),
            decreases commands@.len() - k,
        {
            let command = commands[k];
            let at = match command {
                Command::CreateArea { loc, prefab, new_z } => prefab,
                Command::CreateTurf { loc, prefab, no_changeturf, place_on_top } => prefab,
                Command::CreateAtom { loc, prefab } => prefab,
            };
            if at.line >= prefabs.len() {
                return None;
            }
            let list = &prefabs.line(at.line).1;
            if at.index >= list.len() {
                return None;
            }
            let prefab = &list[at.index];
            orders.push(Order { command, path: prefab.0, has_vars: prefab.1.is_some() });
            k = k + 1;
        }
        Some(
            CommandBuffer {
                created_areas: PathCache::new(),
                known_types: PathCache::new(),
                cached_turfs: CachedTurfs::new(world_bounds),
                commands: orders,
                pending: Action::Suspend,
                current: None,
                count: 0,
            },
        )
    }

    /// The number of commands that are left.
    pub fn remaining(&self) -> (r: usize)
        ensures
            r == self.model().orders.len(),
    {
        self.commands.len()
    }

    /// The area kept for `path`.
    pub fn area(&self, path: &[u8]) -> (r: Option<&T>)
        ensures
            match r {
                Some(found) => self.model().areas.contains_key(path@) && *found
                    == self.model().areas[path@],
                None => !self.model().areas.contains_key(path@),
            },
    {
        self.created_areas.get(path)
    }

    /// The type kept for `path`.
    pub fn known_type(&self, path: &[u8]) -> (r: Option<&T>)
        ensures
            match r {
                Some(found) => self.model().types.contains_key(path@) && *found
                    == self.model().types[path@],
                None => !self.model().types.contains_key(path@),
            },
    {
        self.known_types.get(path)
    }

    /// The tile kept for `loc`.
    pub fn tile(&self, loc: (usize, usize, usize)) -> (r: Option<&Option<T>>)
        ensures
            match r {
                Some(found) => self.model().tiles.contains_key(loc) && *found
                    == self.model().tiles[loc],
                None => !self.model().tiles.contains_key(loc),
            },
    {
        self.cached_turfs.resolve_coord(loc)
    }

    /// Keeps `tile` as what the host has at `loc`, unless something is kept
    /// for it already. A plan names the tiles that its commands are about;
    /// whoever has looked them up ahead of time hands them in here.
    pub fn cache_tile(&mut self, loc: (usize, usize, usize), tile: Option<T>)
        ensures
            final(self).model() == (Machine {
                tiles: keep(old(self).model().tiles, loc, tile),
                ..old(self).model()
            }),
    {
        self.cached_turfs.cache(loc, tile);
    }

    /// The command that is being carried out.
    pub fn current(&self) -> (r: Option<Order<'s>>)
        ensures
            r == self.model().current,
    {
        self.current
    }

    /// What the command `order` asks of the driver next.
    fn need(&self, order: &Order<'s>) -> (r: Action)
        ensures
            r == need(self.model(), *order),
    {
        match order.command {
            Command::CreateArea { loc, prefab, new_z } => {
                if self.created_areas.get(order.path).is_none() {
                    return Action::WantArea { prefab };
                }
                match self.cached_turfs.resolve_coord(loc) {
                    None => Action::WantTile { loc },
                    Some(None) => Action::WarnNull { loc },
                    Some(Some(_)) => Action::JoinArea { loc, prefab, reassign: !new_z },
                }
            },
            Command::CreateTurf { loc, prefab, no_changeturf, place_on_top } => {
                match self.cached_turfs.resolve_coord(loc) {
                    None => Action::WantTile { loc },
                    Some(None) => Action::WarnNull { loc },
                    Some(Some(_)) => Action::MakeTurf { loc, prefab, place_on_top, no_changeturf },
                }
            },
            Command::CreateAtom { loc, prefab } => {
                match self.cached_turfs.resolve_coord(loc) {
                    None => Action::WantTile { loc },
                    Some(None) => Action::WarnNull { loc },
                    Some(Some(_)) => {
                        if self.known_types.get(order.path).is_none() {
                            Action::WantPath { prefab }
                        } else {
                            Action::Spawn { loc, prefab, preload: order.has_vars }
                        }
                    },
                }
            },
        }
    }

    /// Goes on with the command that is being carried out.
    fn resume(&mut self) -> (r: Action)
        ensures
            (final(self).model(), r) == resume(old(self).model()),
    {
        match self.current {
            Some(order) => {
                let action = self.need(&order);
                self.pending = action;
                action
            },
            None => Action::Refuse,
        }
    }

    /// Takes the last command that is left, or finishes where none is.
    fn next(&mut self) -> (r: Action)
        ensures
            (final(self).model(), r) == next(old(self).model()),
    {
        match self.commands.pop() {
            Some(order) => {
                self.current = Some(order);
                self.resume()
            },
            None => {
                self.current = None;
                self.pending = Action::Finish;
                Action::Finish
            },
        }
    }

    /// Takes an event and tells what the driver is to do next. A slice
    /// starts with `Event::Start` and ends when `Action::Suspend` or
    /// `Action::Finish` comes back; in between, each event is the host's
    /// answer to the action before it.
    pub fn advance(&mut self, event: Event<T>) -> (r: Action)
        ensures
            (final(self).model(), r) == step(old(self).model(), event),
    {
        match (self.pending, event) {
            (Action::Suspend, Event::Start) => {
                self.count = 0;
                self.pending = Action::AskBounds;
                Action::AskBounds
            },
            (Action::AskBounds, Event::Bounds(b)) => {
                self.cached_turfs.check_invalidate(b);
                self.next()
            },
            (Action::WantArea { prefab }, Event::Reference(t)) => {
                match self.current {
                    Some(order) => {
                        self.created_areas.insert(order.path, t);
                        self.resume()
                    },
                    None => Action::Refuse,
                }
            },
            (Action::WantPath { prefab }, Event::Reference(t)) => {
                match self.current {
                    Some(order) => {
                        self.known_types.insert(order.path, t);
                        self.resume()
                    },
                    None => Action::Refuse,
                }
            },
            (Action::WantTile { loc }, Event::Tile(t)) => {
                self.cached_turfs.cache(loc, t);
                self.resume()
            },
            (Action::JoinArea { .. }, Event::Done)
            | (Action::MakeTurf { .. }, Event::Done)
            | (Action::Spawn { .. }, Event::Done) => {
                self.current = None;
                if self.count >= MIN_PAUSE - 1 {
                    self.count = 0;
                    self.pending = Action::AskTick;
                    Action::AskTick
                } else {
                    self.count = self.count + 1;
                    self.next()
                }
            },
            (Action::WarnNull { loc }, Event::Done) => {
                self.current = None;
                self.next()
            },
            (Action::AskTick, Event::Tick(used_up)) => {
                if used_up {
                    self.pending = Action::Suspend;
                    Action::Suspend
                } else {
                    self.next()
                }
            },
            _ => Action::Refuse,
        }
    }

    /// Gives up the command that is being carried out, after a call on the
    /// host has failed. The commands that are left stay; a new slice may
    /// start.
    pub fn abort(&mut self)
        ensures
            final(self).model() == (Machine {
                pending: Action::Suspend,
                current: None,
                count: 0,
                ..old(self).model()
            }),
            settled(final(self).model()),
    {
        self.pending = Action::Suspend;
        self.current = None;
        self.count = 0;
    }
}

/// A tile is taken out of the area that it is in only for a command that
/// does not add a level: where the command says that the level is new,
/// the tile is put into its area and nothing else.
pub proof fn lemma_new_z_suppresses_reassign<T>(m: Machine<T>, order: Order)
    ensures
        need(m, order) matches Action::JoinArea { loc, prefab, reassign } ==> (
        order.command matches Command::CreateArea { loc: at, prefab: of, new_z } && reassign
            == !new_z && at == loc && of == prefab),
        order.command matches Command::CreateArea { loc, prefab, new_z } ==> new_z ==> need(
            m,
            order,
        ) != (Action::JoinArea { loc, prefab, reassign: true }),
{
}

/// The slice ends early only on the host's word: the buffer suspends just
/// when it has asked whether the slice is used up and the host has said
/// that it is. It asks only after a creation, and only when that creation
/// is the `MIN_PAUSE`-th since it last asked or since the slice began.
pub proof fn lemma_yield<T>(m: Machine<T>, e: Event<T>)
    ensures
        step(m, e).1 == Action::Suspend <==> m.pending == Action::AskTick && e == Event::<T>::Tick(
            true,
        ),
        step(m, e).1 == Action::AskTick <==> e is Done && (m.pending is JoinArea
            || m.pending is MakeTurf || m.pending is Spawn) && m.count + 1 >= MIN_PAUSE,
        m.orders.len() > 0 && m.pending == Action::AskTick && e == Event::<T>::Tick(false)
            ==> step(m, e).0.current == Some(m.orders.last()) && step(m, e).0.orders
            == m.orders.drop_last(),
{
}

/// The buffer takes its commands from the end, one at a time, and never
/// gets a new one: after an event the commands that are left are those
/// that were left before, or those without the last, which is then the
/// command that is being carried out.
pub proof fn lemma_last_first<T>(m: Machine<T>, e: Event<T>)
    ensures
        step(m, e).0.orders == m.orders || (m.orders.len() > 0 && step(m, e).0.orders
            == m.orders.drop_last() && step(m, e).0.current == Some(m.orders.last())),
{
}

/// The count of the commands carried out since the host was last asked
/// stays below `MIN_PAUSE`. A creation that is done raises it by one, or
/// brings it back to zero where the host is asked whether the slice is
/// used up; a warning that is done leaves it as it is.
pub proof fn lemma_count<T>(m: Machine<T>, e: Event<T>)
    requires
        m.count < MIN_PAUSE,
    ensures
        step(m, e).0.count < MIN_PAUSE,
        e is Done && (m.pending is JoinArea || m.pending is MakeTurf || m.pending is Spawn) ==> (
        if step(m, e).1 == Action::AskTick {
            m.count + 1 == MIN_PAUSE && step(m, e).0.count == 0
        } else {
            step(m, e).0.count == m.count + 1
        }),
        e is Done && m.pending is WarnNull ==> step(m, e).0.count == m.count,
{
}

/// Whether the action is a creation.
pub open spec fn is_creation(a: Action) -> bool {
    a is JoinArea || a is MakeTurf || a is Spawn
}

/// The number of commands that are being carried out: 1 or 0.
pub open spec fn busy<T>(m: Machine<T>) -> nat {
    if m.current is Some {
        1
    } else {
        0
    }
}

/// Whether the state hangs together: a command is being carried out just
/// while the driver is asked for something that the command needs, or to
/// create or to warn; the count stays below `MIN_PAUSE` and is zero
/// between slices and while the host is asked whether the slice is used
/// up; and all is done only when no command is left.
pub open spec fn settled<T>(m: Machine<T>) -> bool {
    &&& m.current is Some <==> m.pending is WantArea || m.pending is WantTile
        || m.pending is WantPath || m.pending is WarnNull || is_creation(m.pending)
    &&& m.count < MIN_PAUSE
    &&& m.pending is Suspend || m.pending is AskTick ==> m.count == 0
    &&& m.pending is Finish ==> m.orders.len() == 0
}

/// The state after the events, one after the other.
pub open spec fn run<'s, T>(m: Machine<'s, T>, events: Seq<Event<T>>) -> Machine<'s, T>
    decreases events.len(),
{
    if events.len() == 0 {
        m
    } else {
        step(run(m, events.drop_last()), events.last()).0
    }
}

/// The number of creations that were done in the course of the events.
pub open spec fn created<T>(m: Machine<T>, events: Seq<Event<T>>) -> nat
    decreases events.len(),
{
    if events.len() == 0 {
        0
    } else if is_creation(run(m, events.drop_last()).pending) && events.last() is Done {
        created(m, events.drop_last()) + 1
    } else {
        created(m, events.drop_last())
    }
}

/// The number of commands that ended in a warning in the course of the
/// events, for want of a tile.
pub open spec fn warned<T>(m: Machine<T>, events: Seq<Event<T>>) -> nat
    decreases events.len(),
{
    if events.len() == 0 {
        0
    } else if run(m, events.drop_last()).pending is WarnNull && events.last() is Done {
        warned(m, events.drop_last()) + 1
    } else {
        warned(m, events.drop_last())
    }
}

/// The number of times that the host was asked in the course of the
/// events whether the slice is used up.
pub open spec fn asked<T>(m: Machine<T>, events: Seq<Event<T>>) -> nat
    decreases events.len(),
{
    if events.len() == 0 {
        0
    } else if step(run(m, events.drop_last()), events.last()).1 == Action::AskTick {
        asked(m, events.drop_last()) + 1
    } else {
        asked(m, events.drop_last())
    }
}

/// The number of times that the slice ended early in the course of the
/// events.
pub open spec fn suspended<T>(m: Machine<T>, events: Seq<Event<T>>) -> nat
    decreases events.len(),
{
    if events.len() == 0 {
        0
    } else if step(run(m, events.drop_last()), events.last()).1 == Action::Suspend {
        suspended(m, events.drop_last()) + 1
    } else {
        suspended(m, events.drop_last())
    }
}

/// The number of times that the host said in the course of the events
/// that the slice is used up, when it was asked.
pub open spec fn used_up<T>(m: Machine<T>, events: Seq<Event<T>>) -> nat
    decreases events.len(),
{
    if events.len() == 0 {
        0
    } else if run(m, events.drop_last()).pending == Action::AskTick && events.last()
        == Event::<T>::Tick(true) {
        used_up(m, events.drop_last()) + 1
    } else {
        used_up(m, events.drop_last())
    }
}

/// One event keeps a state that hangs together so, and does to the
/// commands and the count what the tally of a run says.
proof fn lemma_step_tally<T>(m: Machine<T>, e: Event<T>)
    requires
        settled(m),
    ensures
        settled(step(m, e).0),
        step(m, e).0.orders.len() <= m.orders.len(),
        step(m, e).0.orders == m.orders.take(step(m, e).0.orders.len() as int),
        m.orders.len() + busy(m) == step(m, e).0.orders.len() + busy(step(m, e).0) + (if e is Done
            && (is_creation(m.pending) || m.pending is WarnNull) {
            1nat
        } else {
            0nat
        }),
        m.count + (if e is Done && is_creation(m.pending) {
            1nat
        } else {
            0nat
        }) == step(m, e).0.count + (if step(m, e).1 == Action::AskTick {
            MIN_PAUSE as nat
        } else {
            0nat
        }),
{
    let after = step(m, e).0;
    assert(m.orders.take(m.orders.len() as int) =~= m.orders);
    if m.orders.len() > 0 {
        assert(m.orders.take(m.orders.len() - 1) =~= m.orders.drop_last());
    }
}

/// The tally of a run. Whatever the events, from a state that hangs
/// together:
/// the commands that are left are the earliest of those that were left
/// before; each of the others is being carried out, has been created or
/// has ended in a warning; and the host has been asked whether the slice
/// is used up once for every `MIN_PAUSE` creations, the count being what
/// is over. The slice ended early just as often as the host said that it
/// is used up.
pub proof fn lemma_run_tally<T>(m: Machine<T>, events: Seq<Event<T>>)
    requires
        settled(m),
    ensures
        settled(run(m, events)),
        run(m, events).orders.len() <= m.orders.len(),
        run(m, events).orders == m.orders.take(run(m, events).orders.len() as int),
        m.orders.len() + busy(m) == run(m, events).orders.len() + busy(run(m, events)) + created(
            m,
            events,
        ) + warned(m, events),
        m.count + created(m, events) == MIN_PAUSE * asked(m, events) + run(m, events).count,
        suspended(m, events) == used_up(m, events),
    decreases events.len(),
{
    if events.len() > 0 {
        let before = run(m, events.drop_last());
        lemma_run_tally(m, events.drop_last());
        lemma_step_tally(before, events.last());
        lemma_yield(before, events.last());
        let after = run(m, events);
        assert(after.orders =~= m.orders.take(after.orders.len() as int));
    } else {
        assert(m.orders.take(m.orders.len() as int) =~= m.orders);
    }
}

/// A slice that ends early has carried out `MIN_PAUSE` commands for each
/// time that the host was asked, and nothing is half done: where no tile
/// was missing, the commands that are left are the earliest, fewer than
/// before by `MIN_PAUSE` times the number of askings.
pub proof fn lemma_slice_ends_early<T>(m: Machine<T>, events: Seq<Event<T>>)
    requires
        settled(m),
        m.pending == Action::Suspend,
        run(m, events).pending == Action::Suspend,
    ensures
        created(m, events) == MIN_PAUSE * asked(m, events),
        run(m, events).orders.len() + created(m, events) + warned(m, events) == m.orders.len(),
        run(m, events).orders == m.orders.take(run(m, events).orders.len() as int),
{
    lemma_run_tally(m, events);
}

/// A run that ends with all done has left no command: each of those that
/// were left before has been created or has ended in a warning.
pub proof fn lemma_slice_finishes<T>(m: Machine<T>, events: Seq<Event<T>>)
    requires
        settled(m),
        m.pending == Action::Suspend,
        run(m, events).pending == Action::Finish,
    ensures
        run(m, events).orders.len() == 0,
        created(m, events) + warned(m, events) == m.orders.len(),
        created(m, events) < MIN_PAUSE * (asked(m, events) + 1),
{
    lemma_run_tally(m, events);
    assert(MIN_PAUSE * (asked(m, events) + 1) == MIN_PAUSE * asked(m, events) + MIN_PAUSE)
        by (nonlinear_arith);
}

} // verus!
