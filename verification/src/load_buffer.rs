//! Loading in two phases. The first walks the blocks of a map against the
//! bounds of the host's world and writes down what is to be created where:
//! a list of commands. The second, which may be spread over many ticks,
//! carries the commands out.
//!
//! This file holds the first phase. It calls nothing: what it needs to know
//! of the host comes in as plain values, and what the host is to be told
//! goes out as plain values.

use crate::block::Block;
use crate::grid::{chunk, chunk_count, separate_turfs};
use crate::prefabs::{Prefab, PrefabLine};
use crate::scan::{has_word, is_word};
use crate::table::{has_key, index_of_key, same_bytes, Prefabs};
use vstd::prelude::*;

verus! {

/// One side of a range of coordinates: a whole number, or no limit at
/// all in one of the two directions.
#[derive(Clone, Copy, Debug, PartialEq, Eq, Structural)]
pub enum Bound {
    NegInfinity,
    Finite(i128),
    Infinity,
}

/// Whether the coordinate `c` lies above the bound `b`.
pub open spec fn above(c: int, b: Bound) -> bool {
    match b {
        Bound::NegInfinity => true,
        Bound::Finite(n) => c > n,
        Bound::Infinity => false,
    }
}

/// Whether the coordinate `c` lies below the bound `b`.
pub open spec fn below(c: int, b: Bound) -> bool {
    match b {
        Bound::NegInfinity => false,
        Bound::Finite(n) => c < n,
        Bound::Infinity => true,
    }
}

/// Whether `c` lies above `b`.
pub fn is_above(c: i128, b: Bound) -> (r: bool)
    ensures
        r == above(c as int, b),
{
    match b {
        Bound::NegInfinity => true,
        Bound::Finite(n) => c > n,
        Bound::Infinity => false,
    }
}

/// Whether `c` lies below `b`.
pub fn is_below(c: i128, b: Bound) -> (r: bool)
    ensures
        r == below(c as int, b),
{
    match b {
        Bound::NegInfinity => false,
        Bound::Finite(n) => c < n,
        Bound::Infinity => true,
    }
}

/// Whether a coordinate of `check` is larger than that of `bounds`.
pub fn exceeds_upper_bounds(check: (usize, usize, usize), bounds: (usize, usize, usize)) -> (r:
    bool)
    ensures
        r == (check.0 > bounds.0 || check.1 > bounds.1 || check.2 > bounds.2),
{
    check.0 > bounds.0 || check.1 > bounds.1 || check.2 > bounds.2
}

/// Whether a coordinate of `check` is smaller than that of `bounds`.
pub fn exceeds_lower_bounds(check: (usize, usize, usize), bounds: (usize, usize, usize)) -> (r:
    bool)
    ensures
        r == (check.0 < bounds.0 || check.1 < bounds.1 || check.2 < bounds.2),
{
    check.0 < bounds.0 || check.1 < bounds.1 || check.2 < bounds.2
}

/// Whether a coordinate of `check` lies above its upper bound. No
/// coordinate lies above `Infinity`, and each lies above `NegInfinity`.
pub fn float_exceeds_upper_bounds(
    check: (usize, usize, usize),
    bounds: (Bound, Bound, Bound),
) -> (r: bool)
    ensures
        r == (above(check.0 as int, bounds.0) || above(check.1 as int, bounds.1) || above(
            check.2 as int,
            bounds.2,
        )),
{
    is_above(check.0 as i128, bounds.0) || is_above(check.1 as i128, bounds.1) || is_above(
        check.2 as i128,
        bounds.2,
    )
}

/// Whether a coordinate of `check` lies below its lower bound. No
/// coordinate lies below `NegInfinity`, and each lies below `Infinity`.
pub fn float_exceeds_lower_bounds(
    check: (usize, usize, usize),
    bounds: (Bound, Bound, Bound),
) -> (r: bool)
    ensures
        r == (below(check.0 as int, bounds.0) || below(check.1 as int, bounds.1) || below(
            check.2 as int,
            bounds.2,
        )),
{
    is_below(check.0 as i128, bounds.0) || is_below(check.1 as i128, bounds.1) || is_below(
        check.2 as i128,
        bounds.2,
    )
}

/// A bound without a limit shuts no coordinate out, and a finite bound
/// shuts out just the coordinates beyond it.
pub proof fn lemma_bounds_compare(c: int, n: i128)
    ensures
        !above(c, Bound::Infinity),
        !below(c, Bound::NegInfinity),
        above(c, Bound::NegInfinity),
        below(c, Bound::Infinity),
        above(c, Bound::Finite(n)) <==> c > n,
        below(c, Bound::Finite(n)) <==> c < n,
        !(above(c, Bound::Finite(n)) && below(c, Bound::Finite(n))),
{
}

/// A prefab of the table: the `index`-th prefab of the `line`-th line.
#[derive(Clone, Copy, Debug, PartialEq, Eq, Structural)]
pub struct PrefabRef {
    pub line: usize,
    pub index: usize,
}

/// Something to create in the host's world.
#[derive(Clone, Copy, Debug, PartialEq, Eq)]
pub enum Command {
    CreateArea { loc: (usize, usize, usize), prefab: PrefabRef, new_z: bool },
    CreateTurf {
        loc: (usize, usize, usize),
        prefab: PrefabRef,
        no_changeturf: bool,
        place_on_top: bool,
    },
    CreateAtom { loc: (usize, usize, usize), prefab: PrefabRef },
}

/// The prefab that a command is about.
pub open spec fn prefab_of(c: Command) -> PrefabRef {
    match c {
        Command::CreateArea { loc, prefab, new_z } => prefab,
        Command::CreateTurf { loc, prefab, no_changeturf, place_on_top } => prefab,
        Command::CreateAtom { loc, prefab } => prefab,
    }
}

/// Whether `r` is a prefab of the table with the lines `lines`.
pub open spec fn in_table(lines: Seq<PrefabLine>, r: PrefabRef) -> bool {
    r.line < lines.len() && r.index < lines[r.line as int].1@.len()
}

/// Whether each of the commands is about a prefab of the table.
pub open spec fn all_in_table(lines: Seq<PrefabLine>, commands: Seq<Command>) -> bool {
    forall|i: int| 0 <= i < commands.len() ==> in_table(lines, prefab_of(#[trigger] commands[i]))
}

/// Where a key stands in the blocks of a map: in which block, in which
/// row from the top, and which key of the row it is.
#[derive(Clone, Copy, Debug, PartialEq, Eq, Structural)]
pub struct TileAt {
    pub block: usize,
    pub row: usize,
    pub column: usize,
}

/// What the host is told about a tile that was not placed as written.
#[derive(Clone, Copy, Debug, PartialEq, Eq, Structural)]
pub enum Warning {
    /// The load adds levels to the world although turfs were to be changed
    /// the slow way; they are changed the fast way.
    ZExpansion,
    /// The tile would lie at a coordinate below 1.
    NegativeSpace { tile: TileAt },
    /// The tile would lie at a coordinate that no `usize` holds.
    OutOfReach { tile: TileAt },
    /// The key of the tile is not in the table.
    InvalidKey { tile: TileAt },
    /// The line of the key has fewer than two prefabs.
    TooShort { tile: TileAt, line: usize },
    /// The last prefab of the line is no area.
    NotArea { tile: TileAt, prefab: PrefabRef },
    /// The last prefab but one of the line is no turf.
    NotTurf { tile: TileAt, prefab: PrefabRef },
    /// A prefab before the last two is a turf; it is left out.
    SecondaryTurf { tile: TileAt, prefab: PrefabRef },
    /// A prefab before the last two is neither an object nor a mob; it is
    /// created like one.
    StrangeMovable { tile: TileAt, prefab: PrefabRef },
}

/// What the planner is given: what the host says of its world and of the
/// map, and how the caller wants the map placed.
pub struct PlanInput<'h> {
    /// The length of a key.
    pub key_len: usize,
    /// The extent that the map declares: least x, y, z, then largest.
    pub parsed_bounds: (usize, usize, usize, usize, usize, usize),
    /// The largest coordinates of the world.
    pub world_bounds: (usize, usize, usize),
    /// The path of the turf that fills the world by default.
    pub world_turf: &'h [u8],
    /// The path of the area that fills the world by default.
    pub world_area: &'h [u8],
    /// The coordinate of the world at which the map's `(1,1,1)` is placed.
    pub offset: (usize, usize, usize),
    pub crop_map: bool,
    pub no_changeturf: bool,
    pub place_on_top: bool,
    pub new_z: bool,
    /// The least coordinates of the map that are placed.
    pub lower_bounds: (Bound, Bound, Bound),
    /// The largest coordinates of the map that are placed.
    pub upper_bounds: (Bound, Bound, Bound),
}

/// The largest coordinates that the map reaches in the world.
pub open spec fn extent(input: PlanInput) -> (int, int, int) {
    (
        input.offset.0 + input.parsed_bounds.3 - 1,
        input.offset.1 + input.parsed_bounds.4 - 1,
        input.offset.2 + input.parsed_bounds.5 - 1,
    )
}

/// The `usize` nearest to `i`.
pub open spec fn clamp(i: int) -> usize {
    if i < 0 {
        0
    } else if i > usize::MAX {
        usize::MAX
    } else {
        i as usize
    }
}

/// The size that the host is asked to give its world before anything is
/// placed: none when the map is cropped, or fits.
pub open spec fn expansion(input: PlanInput) -> Option<(usize, usize, usize)> {
    if !input.crop_map && (extent(input).0 > input.world_bounds.0 || extent(input).1
        > input.world_bounds.1 || extent(input).2 > input.world_bounds.2) {
        Some((clamp(extent(input).0), clamp(extent(input).1), clamp(extent(input).2)))
    } else {
        None
    }
}

/// Whether the map reaches above the levels of the world.
pub open spec fn z_grows(input: PlanInput) -> bool {
    extent(input).2 > input.world_bounds.2
}

/// Whether turfs are changed the fast way.
pub open spec fn no_afterchange(input: PlanInput) -> bool {
    input.no_changeturf || z_grows(input)
}

/// The bytes of `/area`.
pub open spec fn word_area() -> Seq<u8> {
    seq![0x2f, 0x61, 0x72, 0x65, 0x61]
}

/// The bytes of `/turf`.
pub open spec fn word_turf() -> Seq<u8> {
    seq![0x2f, 0x74, 0x75, 0x72, 0x66]
}

/// The bytes of `/obj`.
pub open spec fn word_obj() -> Seq<u8> {
    seq![0x2f, 0x6f, 0x62, 0x6a]
}

/// The bytes of `/mob`.
pub open spec fn word_mob() -> Seq<u8> {
    seq![0x2f, 0x6d, 0x6f, 0x62]
}

/// The bytes of `/template_noop`, which behind `/area` or `/turf` names
/// the area or the turf that stands for nothing to create.
pub open spec fn word_noop() -> Seq<u8> {
    seq![0x2f, 0x74, 0x65, 0x6d, 0x70, 0x6c, 0x61, 0x74, 0x65, 0x5f, 0x6e, 0x6f, 0x6f, 0x70]
}

/// What a path is taken for, by how it starts.
#[derive(Clone, Copy, Debug, PartialEq, Eq, Structural)]
pub enum PathKind {
    /// `/area/template_noop…`
    NoopArea,
    /// `/area…`
    Area,
    /// `/turf/template_noop…`
    NoopTurf,
    /// `/turf…`
    Turf,
    /// `/obj…` or `/mob…`
    Movable,
    Other,
}

/// What the path `path` is taken for.
pub open spec fn path_kind(path: Seq<u8>) -> PathKind {
    if has_word(path, 0, word_area()) {
        if has_word(path, 5, word_noop()) {
            PathKind::NoopArea
        } else {
            PathKind::Area
        }
    } else if has_word(path, 0, word_turf()) {
        if has_word(path, 5, word_noop()) {
            PathKind::NoopTurf
        } else {
            PathKind::Turf
        }
    } else if has_word(path, 0, word_obj()) || has_word(path, 0, word_mob()) {
        PathKind::Movable
    } else {
        PathKind::Other
    }
}

/// Tells what a path is taken for.
pub fn classify(path: &[u8]) -> (r: PathKind)
    ensures
        r == path_kind(path@),
{
    let area: [u8; 5] = [0x2f, 0x61, 0x72, 0x65, 0x61];
    let turf: [u8; 5] = [0x2f, 0x74, 0x75, 0x72, 0x66];
    let obj: [u8; 4] = [0x2f, 0x6f, 0x62, 0x6a];
    let mob: [u8; 4] = [0x2f, 0x6d, 0x6f, 0x62];
    let noop: [u8; 14] = [
        0x2f,
        0x74,
        0x65,
        0x6d,
        0x70,
        0x6c,
        0x61,
        0x74,
        0x65,
        0x5f,
        0x6e,
        0x6f,
        0x6f,
        0x70,
    ];
    assert(area@ =~= word_area());
    assert(turf@ =~= word_turf());
    assert(obj@ =~= word_obj());
    assert(mob@ =~= word_mob());
    assert(noop@ =~= word_noop());
    if is_word(path, 0, area.as_slice()) {
        if is_word(path, 5, noop.as_slice()) {
            PathKind::NoopArea
        } else {
            PathKind::Area
        }
    } else if is_word(path, 0, turf.as_slice()) {
        if is_word(path, 5, noop.as_slice()) {
            PathKind::NoopTurf
        } else {
            PathKind::Turf
        }
    } else if is_word(path, 0, obj.as_slice()) || is_word(path, 0, mob.as_slice()) {
        PathKind::Movable
    } else {
        PathKind::Other
    }
}

/// What a plan has gathered: the commands and the warnings in their
/// order, the coordinates of the tiles that something is placed on, and
/// the least and the largest of those coordinates.
pub struct Tally {
    pub commands: Seq<Command>,
    pub warnings: Seq<Warning>,
    pub tiles: Seq<(usize, usize, usize)>,
    pub bounds: (usize, usize, usize, usize, usize, usize),
}

/// The tally `t` with one more warning.
pub open spec fn warn(t: Tally, w: Warning) -> Tally {
    Tally { warnings: t.warnings.push(w), ..t }
}

/// The tally `t` with one more command.
pub open spec fn cmd(t: Tally, c: Command) -> Tally {
    Tally { commands: t.commands.push(c), ..t }
}

/// The smaller of two numbers.
pub open spec fn least(a: usize, b: usize) -> usize {
    if a <= b {
        a
    } else {
        b
    }
}

/// The larger of two numbers.
pub open spec fn most(a: usize, b: usize) -> usize {
    if a >= b {
        a
    } else {
        b
    }
}

/// The tally `t` with the tile at `loc` counted in.
pub open spec fn commit(t: Tally, loc: (usize, usize, usize)) -> Tally {
    Tally {
        tiles: t.tiles.push(loc),
        bounds: (
            least(t.bounds.0, loc.0),
            least(t.bounds.1, loc.1),
            least(t.bounds.2, loc.2),
            most(t.bounds.3, loc.0),
            most(t.bounds.4, loc.1),
            most(t.bounds.5, loc.2),
        ),
        ..t
    }
}

/// The coordinate, in the map, of the key that stands at `at` in a block
/// of `rows` rows anchored at `anchor`: the last row lies at the anchor.
pub open spec fn relative(anchor: (usize, usize, usize), rows: int, at: TileAt) -> (int, int, int) {
    (anchor.0 + at.column, anchor.1 + (rows - 1 - at.row), anchor.2 as int)
}

/// The coordinate, in the world, of the map's coordinate `rel`.
pub open spec fn exact(input: PlanInput, rel: (int, int, int)) -> (int, int, int) {
    (rel.0 + input.offset.0 - 1, rel.1 + input.offset.1 - 1, rel.2 + input.offset.2 - 1)
}

/// Whether `list` is what an untouched tile of the world holds: the
/// world's turf and the world's area, both without variables.
pub open spec fn is_space_list(list: Seq<Prefab>, turf: Seq<u8>, area: Seq<u8>) -> bool {
    list.len() == 2 && list[0].0@ == turf && list[0].1 is None && list[1].0@ == area
        && list[1].1 is None
}

/// The first line from `from` on that holds what an untouched tile holds.
pub open spec fn first_space(
    lines: Seq<PrefabLine>,
    turf: Seq<u8>,
    area: Seq<u8>,
    from: int,
) -> Option<usize>
    decreases lines.len() - from,
{
    if from < 0 || from >= lines.len() {
        None
    } else if is_space_list(lines[from].1@, turf, area) {
        Some(from as usize)
    } else {
        first_space(lines, turf, area, from + 1)
    }
}

/// The line whose tiles need not be placed: none unless turfs are changed
/// the fast way by request.
pub open spec fn space_line(lines: Seq<PrefabLine>, input: PlanInput) -> Option<usize> {
    if input.no_changeturf {
        first_space(lines, input.world_turf@, input.world_area@, 0)
    } else {
        None
    }
}

/// What the prefabs before the last two of a line add to the tally, from
/// the `from`-th on: a command for each but the turfs among them, and a
/// warning for each that is neither an object nor a mob.
pub open spec fn movables(
    list: Seq<Prefab>,
    t: Tally,
    at: TileAt,
    line: usize,
    loc: (usize, usize, usize),
    from: int,
) -> Tally
    decreases list.len() - from,
{
    if from < 0 || from + 2 >= list.len() {
        t
    } else {
        let prefab = PrefabRef { line, index: from as usize };
        movables(
            list,
            match path_kind(list[from].0@) {
                PathKind::Movable => cmd(t, Command::CreateAtom { loc, prefab }),
                PathKind::Turf | PathKind::NoopTurf => warn(
                    t,
                    Warning::SecondaryTurf { tile: at, prefab },
                ),
                _ => cmd(
                    warn(t, Warning::StrangeMovable { tile: at, prefab }),
                    Command::CreateAtom { loc, prefab },
                ),
            },
            at,
            line,
            loc,
            from + 1,
        )
    }
}

/// What a line of two prefabs or more adds to the tally for the tile at
/// `loc`: the area unless it is the one that stands for none, then the
/// turf unless it is the one that stands for none, then the rest in their
/// order. A last prefab that is no area ends the tile with a warning, and
/// so does a last but one that is no turf.
pub open spec fn stack(
    list: Seq<Prefab>,
    input: PlanInput,
    t: Tally,
    at: TileAt,
    line: usize,
    loc: (usize, usize, usize),
) -> Tally {
    let area = PrefabRef { line, index: (list.len() - 1) as usize };
    let turf = PrefabRef { line, index: (list.len() - 2) as usize };
    let area_kind = path_kind(list[list.len() - 1].0@);
    let turf_kind = path_kind(list[list.len() - 2].0@);
    let with_area = if area_kind == PathKind::Area {
        cmd(t, Command::CreateArea { loc, prefab: area, new_z: input.new_z })
    } else {
        t
    };
    let with_turf = if turf_kind == PathKind::Turf {
        cmd(
            with_area,
            Command::CreateTurf {
                loc,
                prefab: turf,
                no_changeturf: no_afterchange(input),
                place_on_top: input.place_on_top,
            },
        )
    } else {
        with_area
    };
    if area_kind != PathKind::Area && area_kind != PathKind::NoopArea {
        warn(t, Warning::NotArea { tile: at, prefab: area })
    } else if turf_kind != PathKind::Turf && turf_kind != PathKind::NoopTurf {
        warn(with_area, Warning::NotTurf { tile: at, prefab: turf })
    } else {
        movables(list, with_turf, at, line, loc, 0)
    }
}

/// What the key `key` at `at`, which lies at `rel` in the map, adds to the
/// tally.
pub open spec fn place(
    lines: Seq<PrefabLine>,
    input: PlanInput,
    space: Option<usize>,
    t: Tally,
    at: TileAt,
    key: Seq<u8>,
    rel: (int, int, int),
) -> Tally {
    let e = exact(input, rel);
    if above(rel.0, input.upper_bounds.0) || above(rel.1, input.upper_bounds.1) || above(
        rel.2,
        input.upper_bounds.2,
    ) || below(rel.0, input.lower_bounds.0) || below(rel.1, input.lower_bounds.1) || below(
        rel.2,
        input.lower_bounds.2,
    ) {
        t
    } else if e.0 < 1 || e.1 < 1 || e.2 < 1 {
        warn(t, Warning::NegativeSpace { tile: at })
    } else if input.crop_map && (e.0 > input.world_bounds.0 || e.1 > input.world_bounds.1 || e.2
        > input.world_bounds.2) {
        t
    } else if e.0 > usize::MAX || e.1 > usize::MAX || e.2 > usize::MAX {
        warn(t, Warning::OutOfReach { tile: at })
    } else if space is Some && space->0 < lines.len() && lines[space->0 as int].0@ == key {
        t
    } else if !has_key(lines, key) {
        warn(t, Warning::InvalidKey { tile: at })
    } else if lines[index_of_key(lines, key)].1@.len() < 2 {
        warn(t, Warning::TooShort { tile: at, line: index_of_key(lines, key) as usize })
    } else {
        stack(
            lines[index_of_key(lines, key)].1@,
            input,
            commit(t, (e.0 as usize, e.1 as usize, e.2 as usize)),
            at,
            index_of_key(lines, key) as usize,
            (e.0 as usize, e.1 as usize, e.2 as usize),
        )
    }
}

/// Why no plan was made.
#[derive(Clone, Copy, Debug, PartialEq, Eq, Structural)]
pub enum PlanError {
    /// The host gave zero as the length of a key.
    NoKeyLength,
}

/// A plan: what the host is to be asked before the commands are carried
/// out, and the commands.
#[derive(Debug)]
pub struct Plan {
    /// The size to which the host is to expand its world first.
    pub expand_to: Option<(usize, usize, usize)>,
    /// The bounds of the world that cached tiles belong to.
    pub cache_bounds: (usize, usize, usize),
    /// Whether turfs are changed the fast way.
    pub no_afterchange: bool,
    /// The commands, in the order in which they were written. They are
    /// carried out from the last to the first.
    pub commands: Vec<Command>,
    pub warnings: Vec<Warning>,
    /// The tiles that something is placed on, each to be looked up once.
    pub tiles: Vec<(usize, usize, usize)>,
    /// The least and the largest coordinates of the tiles that something
    /// is placed on.
    pub bounds: (usize, usize, usize, usize, usize, usize),
}

/// What a plan has gathered.
pub open spec fn tally_of(plan: Plan) -> Tally {
    Tally {
        commands: plan.commands@,
        warnings: plan.warnings@,
        tiles: plan.tiles@,
        bounds: plan.bounds,
    }
}

/// Adds to the plan what the prefabs before the last two of a line ask
/// for.
fn place_movables(
    list: &Vec<Prefab>,
    plan: &mut Plan,
    at: TileAt,
    line: usize,
    loc: (usize, usize, usize),
    Ghost(lines): Ghost<Seq<PrefabLine>>,
)
    requires
        list@.len() >= 2,
        line < lines.len(),
        lines[line as int].1 == *list,
        all_in_table(lines, old(plan).commands@),
    ensures
        all_in_table(lines, final(plan).commands@),
        tally_of(*final(plan)) == movables(list@, tally_of(*old(plan)), at, line, loc, 0),
        final(plan).expand_to == old(plan).expand_to,
        final(plan).cache_bounds == old(plan).cache_bounds,
        final(plan).no_afterchange == old(plan).no_afterchange,
{
    let rest = list.len() - 2;
    let mut k: usize = 0;
    while k < rest
        invariant
            rest == list@.len() - 2,
            list@.len() >= 2,
            line < lines.len(),
            lines[line as int].1 == *list,
            all_in_table(lines, plan.commands@),
            k + 2 <= list@.len(),
            movables(list@, tally_of(*old(plan)), at, line, loc, 0) == movables(
                list@,
                tally_of(*plan),
                at,
                line,
                loc,
                k as int,
            ),
            plan.expand_to == old(plan).expand_to,
            plan.cache_bounds == old(plan).cache_bounds,
            plan.no_afterchange == old(plan).no_afterchange,
        decreases list@.len() - k,
    {
        let prefab = PrefabRef { line, index: k };
        match classify(list[k].0) {
            PathKind::Movable => {
                plan.commands.push(Command::CreateAtom { loc, prefab });
            },
            PathKind::Turf | PathKind::NoopTurf => {
                plan.warnings.push(Warning::SecondaryTurf { tile: at, prefab });
            },
            _ => {
                plan.warnings.push(Warning::StrangeMovable { tile: at, prefab });
                plan.commands.push(Command::CreateAtom { loc, prefab });
            },
        }
        k = k + 1;
    }
}

/// Adds to the plan what a line of two prefabs or more asks for at `loc`.
fn place_stack(
    list: &Vec<Prefab>,
    input: &PlanInput,
    plan: &mut Plan,
    at: TileAt,
    line: usize,
    loc: (usize, usize, usize),
    Ghost(lines): Ghost<Seq<PrefabLine>>,
)
    requires
        list@.len() >= 2,
        old(plan).no_afterchange == no_afterchange(*input),
        line < lines.len(),
        lines[line as int].1 == *list,
        all_in_table(lines, old(plan).commands@),
    ensures
        all_in_table(lines, final(plan).commands@),
        tally_of(*final(plan)) == stack(list@, *input, tally_of(*old(plan)), at, line, loc),
        final(plan).expand_to == old(plan).expand_to,
        final(plan).cache_bounds == old(plan).cache_bounds,
        final(plan).no_afterchange == old(plan).no_afterchange,
{
    let n = list.len();
    let area = PrefabRef { line, index: n - 1 };
    let turf = PrefabRef { line, index: n - 2 };
    let area_kind = classify(list[n - 1].0);
    let turf_kind = classify(list[n - 2].0);
    match area_kind {
        PathKind::Area => {
            plan.commands.push(Command::CreateArea { loc, prefab: area, new_z: input.new_z });
        },
        PathKind::NoopArea => {},
        _ => {
            plan.warnings.push(Warning::NotArea { tile: at, prefab: area });
            return ;
        },
    }
    match turf_kind {
        PathKind::Turf => {
            plan.commands.push(
                Command::CreateTurf {
                    loc,
                    prefab: turf,
                    no_changeturf: plan.no_afterchange,
                    place_on_top: input.place_on_top,
                },
            );
        },
        PathKind::NoopTurf => {},
        _ => {
            plan.warnings.push(Warning::NotTurf { tile: at, prefab: turf });
            return ;
        },
    }
    place_movables(list, plan, at, line, loc, Ghost(lines));
}

/// The smaller of two numbers.
fn min_of(a: usize, b: usize) -> (r: usize)
    ensures
        r == least(a, b),
{
    if a <= b {
        a
    } else {
        b
    }
}

/// The larger of two numbers.
fn max_of(a: usize, b: usize) -> (r: usize)
    ensures
        r == most(a, b),
{
    if a >= b {
        a
    } else {
        b
    }
}

/// Adds to the plan what the key `key` asks for, which stands at `at` in a
/// block of `rows` rows anchored at `anchor`.
fn place_tile(
    prefabs: &Prefabs,
    input: &PlanInput,
    space: Option<usize>,
    plan: &mut Plan,
    at: TileAt,
    key: &[u8],
    anchor: (usize, usize, usize),
    rows: usize,
)
    requires
        at.row < rows,
        old(plan).no_afterchange == no_afterchange(*input),
        all_in_table(prefabs.lines(), old(plan).commands@),
    ensures
        all_in_table(prefabs.lines(), final(plan).commands@),
        tally_of(*final(plan)) == place(
            prefabs.lines(),
            *input,
            space,
            tally_of(*old(plan)),
            at,
            key@,
            relative(anchor, rows as int, at),
        ),
        final(plan).expand_to == old(plan).expand_to,
        final(plan).cache_bounds == old(plan).cache_bounds,
        final(plan).no_afterchange == old(plan).no_afterchange,
{
    let rel_x: i128 = anchor.0 as i128 + at.column as i128;
    let rel_y: i128 = anchor.1 as i128 + (rows - 1 - at.row) as i128;
    let rel_z: i128 = anchor.2 as i128;
    if is_above(rel_x, input.upper_bounds.0) || is_above(rel_y, input.upper_bounds.1) || is_above(
        rel_z,
        input.upper_bounds.2,
    ) || is_below(rel_x, input.lower_bounds.0) || is_below(rel_y, input.lower_bounds.1)
        || is_below(rel_z, input.lower_bounds.2) {
        return ;
    }
    let x: i128 = rel_x + input.offset.0 as i128 - 1;
    let y: i128 = rel_y + input.offset.1 as i128 - 1;
    let z: i128 = rel_z + input.offset.2 as i128 - 1;
    if x < 1 || y < 1 || z < 1 {
        plan.warnings.push(Warning::NegativeSpace { tile: at });
        return ;
    }
    if input.crop_map && (x > input.world_bounds.0 as i128 || y > input.world_bounds.1 as i128 || z
        > input.world_bounds.2 as i128) {
        return ;
    }
    if x > usize::MAX as i128 || y > usize::MAX as i128 || z > usize::MAX as i128 {
        plan.warnings.push(Warning::OutOfReach { tile: at });
        return ;
    }
    let loc = (x as usize, y as usize, z as usize);
    match space {
        Some(i) => {
            if i < prefabs.len() && same_bytes(prefabs.line(i).0, key) {
                return ;
            }
        },
        None => {},
    }
    let line = match prefabs.position(key) {
        Some(line) => line,
        None => {
            plan.warnings.push(Warning::InvalidKey { tile: at });
            return ;
        },
    };
    let list = &prefabs.line(line).1;
    if list.len() < 2 {
        plan.warnings.push(Warning::TooShort { tile: at, line });
        return ;
    }
    plan.tiles.push(loc);
    plan.bounds = (
        min_of(plan.bounds.0, loc.0),
        min_of(plan.bounds.1, loc.1),
        min_of(plan.bounds.2, loc.2),
        max_of(plan.bounds.3, loc.0),
        max_of(plan.bounds.4, loc.1),
        max_of(plan.bounds.5, loc.2),
    );
    place_stack(list, input, plan, at, line, loc, Ghost(prefabs.lines()));
}

/// What the keys of a row add to the tally, from the `from`-th on, each in
/// its turn.
pub open spec fn plan_cells(
    lines: Seq<PrefabLine>,
    input: PlanInput,
    space: Option<usize>,
    t: Tally,
    block: usize,
    anchor: (usize, usize, usize),
    rows: int,
    row: usize,
    text: Seq<u8>,
    from: int,
) -> Tally
    decreases chunk_count(text.len() as int, input.key_len as int) - from,
{
    if from < 0 || from >= chunk_count(text.len() as int, input.key_len as int) {
        t
    } else {
        plan_cells(
            lines,
            input,
            space,
            place(
                lines,
                input,
                space,
                t,
                TileAt { block, row, column: from as usize },
                chunk(text, input.key_len as int, from),
                relative(anchor, rows, TileAt { block, row, column: from as usize }),
            ),
            block,
            anchor,
            rows,
            row,
            text,
            from + 1,
        )
    }
}

/// What the rows of a block add to the tally, from the `from`-th on, the
/// top row first.
pub open spec fn plan_rows(
    lines: Seq<PrefabLine>,
    input: PlanInput,
    space: Option<usize>,
    t: Tally,
    block: usize,
    anchor: (usize, usize, usize),
    rows: Seq<&[u8]>,
    from: int,
) -> Tally
    decreases rows.len() - from,
{
    if from < 0 || from >= rows.len() {
        t
    } else {
        plan_rows(
            lines,
            input,
            space,
            plan_cells(
                lines,
                input,
                space,
                t,
                block,
                anchor,
                rows.len() as int,
                from as usize,
                rows[from]@,
                0,
            ),
            block,
            anchor,
            rows,
            from + 1,
        )
    }
}

/// What the blocks add to the tally, from the `from`-th on, in their
/// order.
pub open spec fn plan_blocks(
    lines: Seq<PrefabLine>,
    input: PlanInput,
    space: Option<usize>,
    t: Tally,
    blocks: Seq<Block>,
    from: int,
) -> Tally
    decreases blocks.len() - from,
{
    if from < 0 || from >= blocks.len() {
        t
    } else {
        plan_blocks(
            lines,
            input,
            space,
            plan_rows(
                lines,
                input,
                space,
                t,
                from as usize,
                blocks[from].0,
                blocks[from].1@,
                0,
            ),
            blocks,
            from + 1,
        )
    }
}

/// The tally before the first tile: nothing but the warning that levels
/// are added where that is so and turfs were to be changed the slow way.
pub open spec fn first_tally(input: PlanInput) -> Tally {
    Tally {
        commands: Seq::empty(),
        warnings: if z_grows(input) && !input.no_changeturf {
            seq![Warning::ZExpansion]
        } else {
            Seq::empty()
        },
        tiles: Seq::empty(),
        bounds: (usize::MAX, usize::MAX, usize::MAX, 1, 1, 1),
    }
}

/// Whether `plan` is the plan for placing the map as `input` says.
pub open spec fn is_plan(
    plan: Plan,
    prefabs: Prefabs,
    blocks: Seq<Block>,
    input: PlanInput,
) -> bool {
    &&& plan.expand_to == expansion(input)
    &&& plan.cache_bounds == match expansion(input) {
        Some(size) => size,
        None => input.world_bounds,
    }
    &&& plan.no_afterchange == no_afterchange(input)
    &&& tally_of(plan) == plan_blocks(
        prefabs.lines(),
        input,
        space_line(prefabs.lines(), input),
        first_tally(input),
        blocks,
        0,
    )
}

/// Planning is a function of what it is given: two plans for the same map
/// and the same input hold the same commands, warnings, tiles and bounds.
pub proof fn lemma_plan_deterministic(
    a: Plan,
    b: Plan,
    prefabs: Prefabs,
    blocks: Seq<Block>,
    input: PlanInput,
)
    requires
        is_plan(a, prefabs, blocks, input),
        is_plan(b, prefabs, blocks, input),
    ensures
        a.commands@ == b.commands@,
        a.warnings@ == b.warnings@,
        a.tiles@ == b.tiles@,
        a.bounds == b.bounds,
        a.expand_to == b.expand_to,
        a.no_afterchange == b.no_afterchange,
{
}

/// A map that is cropped never asks for the world to be expanded.
pub proof fn lemma_crop_never_expands(input: PlanInput)
    requires
        input.crop_map,
    ensures
        expansion(input) is None,
{
}

/// Whether a prefab is `path` without variables.
fn is_bare(prefab: &Prefab, path: &[u8]) -> (r: bool)
    ensures
        r == (prefab.0@ == path@ && prefab.1 is None),
{
    prefab.1.is_none() && same_bytes(prefab.0, path)
}

/// Finds the line whose tiles need not be placed.
fn find_space(prefabs: &Prefabs, input: &PlanInput) -> (r: Option<usize>)
    ensures
        r == space_line(prefabs.lines(), *input),
{
    if !input.no_changeturf {
        return None;
    }
    let mut k: usize = 0;
    while k < prefabs.len()
        invariant
            k <= prefabs.lines().len(),
            input.no_changeturf,
            space_line(prefabs.lines(), *input) == first_space(
                prefabs.lines(),
                input.world_turf@,
                input.world_area@,
                k as int,
            ),
        decreases prefabs.lines().len() - k,
    {
        let list = &prefabs.line(k).1;
        if list.len() == 2 && is_bare(&list[0], input.world_turf) && is_bare(
            &list[1],
            input.world_area,
        ) {
            return Some(k);
        }
        k = k + 1;
    }
    None
}

/// `a + b - 1`, kept inside what a `usize` holds.
fn reach(a: usize, b: usize) -> (r: usize)
    ensures
        r == clamp(a + b - 1),
{
    let sum: i128 = a as i128 + b as i128 - 1;
    if sum < 0 {
        0
    } else if sum > usize::MAX as i128 {
        usize::MAX
    } else {
        sum as usize
    }
}

/// Plans the placing of a map. The blocks are walked in their order, each
/// row by row from the top and each row from the left, and every key adds
/// to the plan what `place` says. Nothing of the host is touched: the plan
/// says what the host is to be asked.
///
/// A map that is cropped asks for no expansion of the world.
pub fn generate_command_buffer(prefabs: &Prefabs, blocks: &Vec<Block>, input: &PlanInput) -> (r:
    Result<Plan, PlanError>)
    ensures
        r is Err <==> input.key_len == 0,
        r matches Ok(plan) ==> is_plan(plan, *prefabs, blocks@, *input),
        r matches Ok(plan) ==> (input.crop_map ==> plan.expand_to is None),
        r matches Ok(plan) ==> all_in_table(prefabs.lines(), plan.commands@),
{
    if input.key_len == 0 {
        return Err(PlanError::NoKeyLength);
    }
    let world = input.world_bounds;
    let reach_x = input.offset.0 as i128 + input.parsed_bounds.3 as i128 - 1;
    let reach_y = input.offset.1 as i128 + input.parsed_bounds.4 as i128 - 1;
    let reach_z = input.offset.2 as i128 + input.parsed_bounds.5 as i128 - 1;
    let expand_to = if !input.crop_map && (reach_x > world.0 as i128 || reach_y > world.1 as i128
        || reach_z > world.2 as i128) {
        Some(
            (
                reach(input.offset.0, input.parsed_bounds.3),
                reach(input.offset.1, input.parsed_bounds.4),
                reach(input.offset.2, input.parsed_bounds.5),
            ),
        )
    } else {
        None
    };
    let cache_bounds = match expand_to {
        Some(size) => size,
        None => world,
    };
    let grows = reach_z > world.2 as i128;
    let mut warnings: Vec<Warning> = Vec::new();
    if grows && !input.no_changeturf {
        warnings.push(Warning::ZExpansion);
    }
    assert(warnings@ =~= first_tally(*input).warnings);
    let space = find_space(prefabs, input);
    let mut plan = Plan {
        expand_to,
        cache_bounds,
        no_afterchange: input.no_changeturf || grows,
        commands: Vec::new(),
        warnings,
        tiles: Vec::new(),
        bounds: (usize::MAX, usize::MAX, usize::MAX, 1, 1, 1),
    };
    let ghost lines = prefabs.lines();
    let ghost whole = plan_blocks(lines, *input, space, first_tally(*input), blocks@, 0);
    let mut b: usize = 0;
    while b < blocks.len()
        invariant
            b <= blocks@.len(),
            input.key_len > 0,
            lines == prefabs.lines(),
            plan.expand_to == expand_to,
            plan.cache_bounds == cache_bounds,
            plan.no_afterchange == no_afterchange(*input),
            all_in_table(lines, plan.commands@),
            whole == plan_blocks(lines, *input, space, tally_of(plan), blocks@, b as int),
        decreases blocks@.len() - b,
    {
        let anchor = blocks[b].0;
        let rows = &blocks[b].1;
        let ghost after_block = plan_rows(
            lines,
            *input,
            space,
            tally_of(plan),
            b,
            anchor,
            rows@,
            0,
        );
        let mut r: usize = 0;
        while r < rows.len()
            invariant
                r <= rows@.len(),
                input.key_len > 0,
                lines == prefabs.lines(),
                plan.expand_to == expand_to,
                plan.cache_bounds == cache_bounds,
                plan.no_afterchange == no_afterchange(*input),
                all_in_table(lines, plan.commands@),
                after_block == plan_rows(
                    lines,
                    *input,
                    space,
                    tally_of(plan),
                    b,
                    anchor,
                    rows@,
                    r as int,
                ),
            decreases rows@.len() - r,
        {
            let keys = separate_turfs(rows[r], input.key_len);
            let ghost text = rows@[r as int]@;
            let ghost after_row = plan_cells(
                lines,
                *input,
                space,
                tally_of(plan),
                b,
                anchor,
                rows@.len() as int,
                r,
                text,
                0,
            );
            let mut c: usize = 0;
            while c < keys.len()
                invariant
                    c <= keys@.len(),
                    r < rows@.len(),
                    input.key_len > 0,
                    lines == prefabs.lines(),
                    keys@.len() == chunk_count(text.len() as int, input.key_len as int),
                    forall|i: int|
                        0 <= i < keys@.len() ==> (#[trigger] keys@[i])@ == chunk(
                            text,
                            input.key_len as int,
                            i,
                        ),
                    plan.expand_to == expand_to,
                    plan.cache_bounds == cache_bounds,
                    plan.no_afterchange == no_afterchange(*input),
                    all_in_table(lines, plan.commands@),
                    after_row == plan_cells(
                        lines,
                        *input,
                        space,
                        tally_of(plan),
                        b,
                        anchor,
                        rows@.len() as int,
                        r,
                        text,
                        c as int,
                    ),
                decreases keys@.len() - c,
            {
                place_tile(
                    prefabs,
                    input,
                    space,
                    &mut plan,
                    TileAt { block: b, row: r, column: c },
                    keys[c],
                    anchor,
                    rows.len(),
                );
                c = c + 1;
            }
            r = r + 1;
        }
        b = b + 1;
    }
    Ok(plan)
}

/// The tile that a command is about.
pub open spec fn loc_of(c: Command) -> (usize, usize, usize) {
    match c {
        Command::CreateArea { loc, prefab, new_z } => loc,
        Command::CreateTurf { loc, prefab, no_changeturf, place_on_top } => loc,
        Command::CreateAtom { loc, prefab } => loc,
    }
}

/// Whether the tile `t` lies inside the box `b`.
pub open spec fn within(
    b: (usize, usize, usize, usize, usize, usize),
    t: (usize, usize, usize),
) -> bool {
    b.0 <= t.0 <= b.3 && b.1 <= t.1 <= b.4 && b.2 <= t.2 <= b.5
}

/// Whether a tally hangs together: its tiles have no coordinate below 1,
/// lie inside its bounds and, where the map is cropped, inside the world;
/// and each of its commands is about one of its tiles.
pub open spec fn sound(t: Tally, input: PlanInput) -> bool {
    &&& forall|i: int|
        0 <= i < t.tiles.len() ==> {
            let tile = #[trigger] t.tiles[i];
            &&& within(t.bounds, tile)
            &&& tile.0 >= 1 && tile.1 >= 1 && tile.2 >= 1
            &&& input.crop_map ==> tile.0 <= input.world_bounds.0 && tile.1
                <= input.world_bounds.1 && tile.2 <= input.world_bounds.2
        }
    &&& forall|i: int|
        0 <= i < t.commands.len() ==> t.tiles.contains(loc_of(#[trigger] t.commands[i]))
}

/// A warning leaves a sound tally sound.
proof fn lemma_warn_sound(t: Tally, w: Warning, input: PlanInput)
    requires
        sound(t, input),
    ensures
        sound(warn(t, w), input),
{
}

/// A command about a tile of the tally leaves a sound tally sound.
proof fn lemma_cmd_sound(t: Tally, c: Command, input: PlanInput)
    requires
        sound(t, input),
        t.tiles.contains(loc_of(c)),
    ensures
        sound(cmd(t, c), input),
        cmd(t, c).tiles == t.tiles,
{
    let after = cmd(t, c);
    assert forall|i: int| 0 <= i < after.commands.len() implies after.tiles.contains(
        loc_of(#[trigger] after.commands[i]),
    ) by {
        if i < t.commands.len() {
            assert(after.commands[i] == t.commands[i]);
        }
    }
}

/// The prefabs before the last two leave a sound tally sound.
proof fn lemma_movables_sound(
    list: Seq<Prefab>,
    t: Tally,
    at: TileAt,
    line: usize,
    loc: (usize, usize, usize),
    from: int,
    input: PlanInput,
)
    requires
        sound(t, input),
        t.tiles.contains(loc),
    ensures
        sound(movables(list, t, at, line, loc, from), input),
    decreases list.len() - from,
{
    if !(from < 0 || from + 2 >= list.len()) {
        let prefab = PrefabRef { line, index: from as usize };
        let with_warning = warn(t, Warning::StrangeMovable { tile: at, prefab });
        lemma_cmd_sound(t, Command::CreateAtom { loc, prefab }, input);
        lemma_cmd_sound(with_warning, Command::CreateAtom { loc, prefab }, input);
        let next = match path_kind(list[from].0@) {
            PathKind::Movable => cmd(t, Command::CreateAtom { loc, prefab }),
            PathKind::Turf | PathKind::NoopTurf => warn(
                t,
                Warning::SecondaryTurf { tile: at, prefab },
            ),
            _ => cmd(with_warning, Command::CreateAtom { loc, prefab }),
        };
        lemma_movables_sound(list, next, at, line, loc, from + 1, input);
    }
}

/// A key leaves a sound tally sound.
proof fn lemma_place_sound(
    lines: Seq<PrefabLine>,
    input: PlanInput,
    space: Option<usize>,
    t: Tally,
    at: TileAt,
    key: Seq<u8>,
    rel: (int, int, int),
)
    requires
        sound(t, input),
    ensures
        sound(place(lines, input, space, t, at, key, rel), input),
{
    let e = exact(input, rel);
    let after = place(lines, input, space, t, at, key, rel);
    let untouched = after == t || after == warn(t, Warning::NegativeSpace { tile: at }) || after
        == warn(t, Warning::OutOfReach { tile: at }) || after == warn(
        t,
        Warning::InvalidKey { tile: at },
    );
    if !untouched && has_key(lines, key) && lines[index_of_key(lines, key)].1@.len() >= 2 {
        let line = index_of_key(lines, key) as usize;
        let list = lines[index_of_key(lines, key)].1@;
        let loc = (e.0 as usize, e.1 as usize, e.2 as usize);
        let c = commit(t, loc);
        assert(c.tiles[c.tiles.len() - 1] == loc);
        assert forall|i: int| 0 <= i < c.tiles.len() implies {
            let tile = #[trigger] c.tiles[i];
            &&& within(c.bounds, tile)
            &&& tile.0 >= 1 && tile.1 >= 1 && tile.2 >= 1
            &&& input.crop_map ==> tile.0 <= input.world_bounds.0 && tile.1
                <= input.world_bounds.1 && tile.2 <= input.world_bounds.2
        } by {
            if i < t.tiles.len() {
                assert(c.tiles[i] == t.tiles[i]);
            }
        }
        assert forall|i: int| 0 <= i < c.commands.len() implies c.tiles.contains(
            loc_of(#[trigger] c.commands[i]),
        ) by {
            let j = choose|j: int| 0 <= j < t.tiles.len() && t.tiles[j] == loc_of(t.commands[i]);
            assert(c.tiles[j] == t.tiles[j]);
        }
        assert(sound(c, input));
        let area = PrefabRef { line, index: (list.len() - 1) as usize };
        let turf = PrefabRef { line, index: (list.len() - 2) as usize };
        let make_area = Command::CreateArea { loc, prefab: area, new_z: input.new_z };
        lemma_cmd_sound(c, make_area, input);
        let with_area = if path_kind(list[list.len() - 1].0@) == PathKind::Area {
            cmd(c, make_area)
        } else {
            c
        };
        let make_turf = Command::CreateTurf {
            loc,
            prefab: turf,
            no_changeturf: no_afterchange(input),
            place_on_top: input.place_on_top,
        };
        lemma_cmd_sound(with_area, make_turf, input);
        let with_turf = if path_kind(list[list.len() - 2].0@) == PathKind::Turf {
            cmd(with_area, make_turf)
        } else {
            with_area
        };
        lemma_movables_sound(list, with_turf, at, line, loc, 0, input);
    }
}

/// The keys of a row leave a sound tally sound.
proof fn lemma_cells_sound(
    lines: Seq<PrefabLine>,
    input: PlanInput,
    space: Option<usize>,
    t: Tally,
    block: usize,
    anchor: (usize, usize, usize),
    rows: int,
    row: usize,
    text: Seq<u8>,
    from: int,
)
    requires
        sound(t, input),
    ensures
        sound(plan_cells(lines, input, space, t, block, anchor, rows, row, text, from), input),
    decreases chunk_count(text.len() as int, input.key_len as int) - from,
{
    if !(from < 0 || from >= chunk_count(text.len() as int, input.key_len as int)) {
        let at = TileAt { block, row, column: from as usize };
        let key = chunk(text, input.key_len as int, from);
        lemma_place_sound(lines, input, space, t, at, key, relative(anchor, rows, at));
        lemma_cells_sound(
            lines,
            input,
            space,
            place(lines, input, space, t, at, key, relative(anchor, rows, at)),
            block,
            anchor,
            rows,
            row,
            text,
            from + 1,
        );
    }
}

/// The rows of a block leave a sound tally sound.
proof fn lemma_rows_sound(
    lines: Seq<PrefabLine>,
    input: PlanInput,
    space: Option<usize>,
    t: Tally,
    block: usize,
    anchor: (usize, usize, usize),
    rows: Seq<&[u8]>,
    from: int,
)
    requires
        sound(t, input),
    ensures
        sound(plan_rows(lines, input, space, t, block, anchor, rows, from), input),
    decreases rows.len() - from,
{
    if !(from < 0 || from >= rows.len()) {
        lemma_cells_sound(
            lines,
            input,
            space,
            t,
            block,
            anchor,
            rows.len() as int,
            from as usize,
            rows[from]@,
            0,
        );
        lemma_rows_sound(
            lines,
            input,
            space,
            plan_cells(
                lines,
                input,
                space,
                t,
                block,
                anchor,
                rows.len() as int,
                from as usize,
                rows[from]@,
                0,
            ),
            block,
            anchor,
            rows,
            from + 1,
        );
    }
}

/// The blocks leave a sound tally sound.
proof fn lemma_blocks_sound(
    lines: Seq<PrefabLine>,
    input: PlanInput,
    space: Option<usize>,
    t: Tally,
    blocks: Seq<Block>,
    from: int,
)
    requires
        sound(t, input),
    ensures
        sound(plan_blocks(lines, input, space, t, blocks, from), input),
    decreases blocks.len() - from,
{
    if !(from < 0 || from >= blocks.len()) {
        lemma_rows_sound(lines, input, space, t, from as usize, blocks[from].0, blocks[from].1@, 0);
        lemma_blocks_sound(
            lines,
            input,
            space,
            plan_rows(lines, input, space, t, from as usize, blocks[from].0, blocks[from].1@, 0),
            blocks,
            from + 1,
        );
    }
}

/// In every plan, each command is about a tile that the plan lists; each
/// such tile has coordinates of at least 1 and lies inside the bounds
/// that the plan records; and where the map is cropped, no tile lies
/// outside the world.
pub proof fn lemma_plan_sound(plan: Plan, prefabs: Prefabs, blocks: Seq<Block>, input: PlanInput)
    requires
        is_plan(plan, prefabs, blocks, input),
    ensures
        sound(tally_of(plan), input),
{
    assert(sound(first_tally(input), input));
    lemma_blocks_sound(
        prefabs.lines(),
        input,
        space_line(prefabs.lines(), input),
        first_tally(input),
        blocks,
        0,
    );
}

/// The commands for the prefabs before the last two of a line, from the
/// `from`-th on: one for each that is no turf, in the order of the line.
pub open spec fn atoms(
    list: Seq<Prefab>,
    line: usize,
    loc: (usize, usize, usize),
    from: int,
) -> Seq<Command>
    decreases list.len() - from,
{
    if from < 0 || from + 2 >= list.len() {
        Seq::empty()
    } else {
        let rest = atoms(list, line, loc, from + 1);
        match path_kind(list[from].0@) {
            PathKind::Turf | PathKind::NoopTurf => rest,
            _ => seq![Command::CreateAtom { loc, prefab: PrefabRef { line, index: from as usize } }]
                + rest,
        }
    }
}

/// The prefabs before the last two add their commands behind those that
/// are there, and change no other command.
proof fn lemma_movables_commands(
    list: Seq<Prefab>,
    t: Tally,
    at: TileAt,
    line: usize,
    loc: (usize, usize, usize),
    from: int,
)
    ensures
        movables(list, t, at, line, loc, from).commands == t.commands + atoms(
            list,
            line,
            loc,
            from,
        ),
    decreases list.len() - from,
{
    if from < 0 || from + 2 >= list.len() {
        assert(t.commands + Seq::<Command>::empty() =~= t.commands);
    } else {
        let prefab = PrefabRef { line, index: from as usize };
        let make = Command::CreateAtom { loc, prefab };
        let next = match path_kind(list[from].0@) {
            PathKind::Movable => cmd(t, make),
            PathKind::Turf | PathKind::NoopTurf => warn(
                t,
                Warning::SecondaryTurf { tile: at, prefab },
            ),
            _ => cmd(warn(t, Warning::StrangeMovable { tile: at, prefab }), make),
        };
        lemma_movables_commands(list, next, at, line, loc, from + 1);
        let rest = atoms(list, line, loc, from + 1);
        assert(t.commands.push(make) + rest =~= t.commands + (seq![make] + rest));
    }
}

/// The commands for one tile come in a fixed order: for a line that ends
/// in a turf and an area, first the area unless it stands for none, then
/// the turf unless it stands for none, then the rest in the order of the
/// line. They are carried out from the last to the first.
pub proof fn lemma_tile_order(
    list: Seq<Prefab>,
    input: PlanInput,
    t: Tally,
    at: TileAt,
    line: usize,
    loc: (usize, usize, usize),
)
    requires
        list.len() >= 2,
        path_kind(list[list.len() - 1].0@) == PathKind::Area || path_kind(list[list.len() - 1].0@)
            == PathKind::NoopArea,
        path_kind(list[list.len() - 2].0@) == PathKind::Turf || path_kind(list[list.len() - 2].0@)
            == PathKind::NoopTurf,
    ensures
        stack(list, input, t, at, line, loc).commands == t.commands + (if path_kind(
            list[list.len() - 1].0@,
        ) == PathKind::Area {
            seq![
                Command::CreateArea {
                    loc,
                    prefab: PrefabRef { line, index: (list.len() - 1) as usize },
                    new_z: input.new_z,
                },
            ]
        } else {
            Seq::empty()
        }) + (if path_kind(list[list.len() - 2].0@) == PathKind::Turf {
            seq![
                Command::CreateTurf {
                    loc,
                    prefab: PrefabRef { line, index: (list.len() - 2) as usize },
                    no_changeturf: no_afterchange(input),
                    place_on_top: input.place_on_top,
                },
            ]
        } else {
            Seq::empty()
        }) + atoms(list, line, loc, 0),
        stack(list, input, t, at, line, loc).tiles == t.tiles,
{
    let area = PrefabRef { line, index: (list.len() - 1) as usize };
    let turf = PrefabRef { line, index: (list.len() - 2) as usize };
    let make_area = Command::CreateArea { loc, prefab: area, new_z: input.new_z };
    let make_turf = Command::CreateTurf {
        loc,
        prefab: turf,
        no_changeturf: no_afterchange(input),
        place_on_top: input.place_on_top,
    };
    let with_area = if path_kind(list[list.len() - 1].0@) == PathKind::Area {
        cmd(t, make_area)
    } else {
        t
    };
    let with_turf = if path_kind(list[list.len() - 2].0@) == PathKind::Turf {
        cmd(with_area, make_turf)
    } else {
        with_area
    };
    lemma_movables_commands(list, with_turf, at, line, loc, 0);
    lemma_movables_tiles(list, with_turf, at, line, loc, 0);
    let area_part = if path_kind(list[list.len() - 1].0@) == PathKind::Area {
        seq![make_area]
    } else {
        Seq::empty()
    };
    let turf_part = if path_kind(list[list.len() - 2].0@) == PathKind::Turf {
        seq![make_turf]
    } else {
        Seq::empty()
    };
    assert(with_area.commands =~= t.commands + area_part);
    assert(with_turf.commands =~= t.commands + area_part + turf_part);
}

/// The prefabs before the last two add no tile.
proof fn lemma_movables_tiles(
    list: Seq<Prefab>,
    t: Tally,
    at: TileAt,
    line: usize,
    loc: (usize, usize, usize),
    from: int,
)
    ensures
        movables(list, t, at, line, loc, from).tiles == t.tiles,
        movables(list, t, at, line, loc, from).bounds == t.bounds,
    decreases list.len() - from,
{
    if !(from < 0 || from + 2 >= list.len()) {
        let prefab = PrefabRef { line, index: from as usize };
        let make = Command::CreateAtom { loc, prefab };
        let next = match path_kind(list[from].0@) {
            PathKind::Movable => cmd(t, make),
            PathKind::Turf | PathKind::NoopTurf => warn(
                t,
                Warning::SecondaryTurf { tile: at, prefab },
            ),
            _ => cmd(warn(t, Warning::StrangeMovable { tile: at, prefab }), make),
        };
        lemma_movables_tiles(list, next, at, line, loc, from + 1);
    }
}

/// The line whose tiles need not be placed, if there is one, is a line of
/// the table that holds the world's turf and the world's area and nothing
/// else, and no line before it does.
pub proof fn lemma_first_space(lines: Seq<PrefabLine>, turf: Seq<u8>, area: Seq<u8>, from: int)
    requires
        0 <= from,
        lines.len() <= usize::MAX,
    ensures
        match first_space(lines, turf, area, from) {
            Some(i) => from <= i < lines.len() && is_space_list(lines[i as int].1@, turf, area)
                && forall|j: int|
                from <= j < i ==> !is_space_list((#[trigger] lines[j]).1@, turf, area),
            None => forall|j: int|
                from <= j < lines.len() ==> !is_space_list((#[trigger] lines[j]).1@, turf, area),
        },
    decreases lines.len() - from,
{
    if from < lines.len() && !is_space_list(lines[from].1@, turf, area) {
        lemma_first_space(lines, turf, area, from + 1);
    }
}

/// Where turfs are changed the fast way by request, a tile whose key is
/// that of the line which holds what an untouched tile holds gets no
/// command, and is counted neither among the tiles nor in the bounds.
pub proof fn lemma_space_tile_untouched(
    lines: Seq<PrefabLine>,
    input: PlanInput,
    t: Tally,
    at: TileAt,
    rel: (int, int, int),
)
    requires
        space_line(lines, input) is Some,
        lines.len() <= usize::MAX,
    ensures
        input.no_changeturf,
        space_line(lines, input)->0 < lines.len(),
        place(
            lines,
            input,
            space_line(lines, input),
            t,
            at,
            lines[space_line(lines, input)->0 as int].0@,
            rel,
        ).commands == t.commands,
        place(
            lines,
            input,
            space_line(lines, input),
            t,
            at,
            lines[space_line(lines, input)->0 as int].0@,
            rel,
        ).tiles == t.tiles,
        place(
            lines,
            input,
            space_line(lines, input),
            t,
            at,
            lines[space_line(lines, input)->0 as int].0@,
            rel,
        ).bounds == t.bounds,
{
    lemma_first_space(lines, input.world_turf@, input.world_area@, 0);
}

} // verus!
