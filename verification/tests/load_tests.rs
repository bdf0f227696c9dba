use dmm_lite::command_buffer::{
    Action, CachedTurfs, CommandBuffer, Event, PathCache, ResumeKeys, MIN_PAUSE,
};
use dmm_lite::load_buffer::{
    classify, exceeds_lower_bounds, exceeds_upper_bounds, float_exceeds_lower_bounds,
    float_exceeds_upper_bounds, generate_command_buffer, Bound, Command, PathKind, Plan, PlanError,
    PlanInput, PrefabRef, TileAt, Warning,
};
use dmm_lite::metadata::{
    check_measures, check_rows, check_uniform, find_metadata, Metadata,
};
use dmm_lite::block::multithreaded_parse_map_locations;
use dmm_lite::parse_map_multithreaded;
use dmm_lite::prefabs::multithreaded_parse_map_prefabs;
use dmm_lite::MapError;
use dmm_lite::table::Prefabs;

const MAP: &str = "\"a\" = (/turf/space,/area/space)\n\"b\" = (/obj/thing{name = \"x\"},/mob/cat,/turf/floor,/area/base)\n\"c\" = (/turf/template_noop,/area/template_noop)\n\"d\" = (/obj/only)\n\"e\" = (/turf/floor,/obj/last)\n\"f\" = (/obj/x,/area/base)\n\"g\" = (/turf/extra,/datum/odd,/turf/floor,/area/base)\n(1,1,1) = {\"\nab\nca\n\"}\n";

const NO_BOUNDS: (Bound, Bound, Bound) = (Bound::Infinity, Bound::Infinity, Bound::Infinity);
const NO_FLOOR: (Bound, Bound, Bound) = (
    Bound::NegInfinity,
    Bound::NegInfinity,
    Bound::NegInfinity,
);

fn input(world: (usize, usize, usize)) -> PlanInput<'static> {
    PlanInput {
        key_len: 1,
        parsed_bounds: (1, 1, 1, 2, 2, 1),
        world_bounds: world,
        world_turf: b"/turf/space",
        world_area: b"/area/space",
        offset: (1, 1, 1),
        crop_map: false,
        no_changeturf: false,
        place_on_top: false,
        new_z: false,
        lower_bounds: NO_FLOOR,
        upper_bounds: NO_BOUNDS,
    }
}

fn plan_of(text: &str, input: &PlanInput) -> Plan {
    let prefabs = multithreaded_parse_map_prefabs(text).unwrap();
    let blocks = multithreaded_parse_map_locations(text).unwrap();
    generate_command_buffer(&prefabs, &blocks, input).unwrap()
}

fn at(line: usize, index: usize) -> PrefabRef {
    PrefabRef { line, index }
}

#[test]
fn plan_walks_rows_from_the_top_and_writes_area_turf_movables() {
    let plan = plan_of(MAP, &input((10, 10, 10)));
    assert_eq!(plan.expand_to, None);
    assert_eq!(plan.cache_bounds, (10, 10, 10));
    assert!(!plan.no_afterchange);
    assert_eq!(plan.warnings, vec![]);
    assert_eq!(plan.tiles, vec![(1, 2, 1), (2, 2, 1), (1, 1, 1), (2, 1, 1)]);
    assert_eq!(plan.bounds, (1, 1, 1, 2, 2, 1));
    assert_eq!(
        plan.commands,
        vec![
            Command::CreateArea { loc: (1, 2, 1), prefab: at(0, 1), new_z: false },
            Command::CreateTurf {
                loc: (1, 2, 1),
                prefab: at(0, 0),
                no_changeturf: false,
                place_on_top: false
            },
            Command::CreateArea { loc: (2, 2, 1), prefab: at(1, 3), new_z: false },
            Command::CreateTurf {
                loc: (2, 2, 1),
                prefab: at(1, 2),
                no_changeturf: false,
                place_on_top: false
            },
            Command::CreateAtom { loc: (2, 2, 1), prefab: at(1, 0) },
            Command::CreateAtom { loc: (2, 2, 1), prefab: at(1, 1) },
            Command::CreateArea { loc: (2, 1, 1), prefab: at(0, 1), new_z: false },
            Command::CreateTurf {
                loc: (2, 1, 1),
                prefab: at(0, 0),
                no_changeturf: false,
                place_on_top: false
            },
        ]
    );
}

#[test]
fn plan_is_the_same_each_time() {
    let first = plan_of(MAP, &input((10, 10, 10)));
    let second = plan_of(MAP, &input((10, 10, 10)));
    assert_eq!(first.commands, second.commands);
    assert_eq!(first.warnings, second.warnings);
    assert_eq!(first.tiles, second.tiles);
    assert_eq!(first.bounds, second.bounds);
}

#[test]
fn space_key_shortcut() {
    let mut i = input((10, 10, 10));
    i.no_changeturf = true;
    let plan = plan_of(MAP, &i);
    assert!(plan.no_afterchange);
    assert_eq!(plan.tiles, vec![(2, 2, 1), (1, 1, 1)]);
    assert_eq!(plan.bounds, (1, 1, 1, 2, 2, 1));
    assert!(plan.commands.iter().all(|c| match c {
        Command::CreateArea { prefab, .. }
        | Command::CreateTurf { prefab, .. }
        | Command::CreateAtom { prefab, .. } => prefab.line != 0,
    }));
    assert_eq!(plan.commands.len(), 4);
    assert_eq!(
        plan.commands[1],
        Command::CreateTurf {
            loc: (2, 2, 1),
            prefab: at(1, 2),
            no_changeturf: true,
            place_on_top: false
        }
    );

    let only_space = "\"a\" = (/turf/space,/area/space)\n(1,1,1) = {\"\naa\naa\n\"}\n";
    let plan = plan_of(only_space, &i);
    assert_eq!(plan.commands, vec![]);
    assert_eq!(plan.tiles, vec![]);
    assert_eq!(plan.bounds, (usize::MAX, usize::MAX, usize::MAX, 1, 1, 1));
    i.no_changeturf = false;
    assert_eq!(plan_of(only_space, &i).commands.len(), 8);
}

#[test]
fn space_key_needs_both_prefabs_bare() {
    let mut i = input((10, 10, 10));
    i.no_changeturf = true;
    let with_vars = "\"a\" = (/turf/space{x = 1},/area/space)\n(1,1,1) = {\"a\"}\n";
    assert_eq!(plan_of(with_vars, &i).commands.len(), 2);
    i.world_area = b"/area/other";
    let bare = "\"a\" = (/turf/space,/area/space)\n(1,1,1) = {\"a\"}\n";
    assert_eq!(plan_of(bare, &i).commands.len(), 2);
}

#[test]
fn crop_never_expands() {
    let mut i = input((1, 1, 1));
    i.crop_map = true;
    let plan = plan_of(MAP, &i);
    assert_eq!(plan.expand_to, None);
    assert_eq!(plan.cache_bounds, (1, 1, 1));
    assert_eq!(plan.tiles, vec![(1, 1, 1)]);
    assert_eq!(plan.commands, vec![]);

    i.crop_map = false;
    let plan = plan_of(MAP, &i);
    assert_eq!(plan.expand_to, Some((2, 2, 1)));
    assert_eq!(plan.cache_bounds, (2, 2, 1));
    assert_eq!(plan.tiles.len(), 4);
}

#[test]
fn z_expansion_forces_the_fast_way() {
    let mut i = input((10, 10, 1));
    i.offset = (1, 1, 3);
    let plan = plan_of(MAP, &i);
    assert_eq!(plan.expand_to, Some((2, 2, 3)));
    assert!(plan.no_afterchange);
    assert_eq!(plan.warnings, vec![Warning::ZExpansion]);
    assert!(plan.commands.iter().all(|c| match c {
        Command::CreateTurf { no_changeturf, .. } => *no_changeturf,
        _ => true,
    }));
    assert_eq!(plan.bounds, (1, 1, 3, 2, 2, 3));

    i.no_changeturf = true;
    let plan = plan_of(MAP, &i);
    assert!(plan.warnings.is_empty());
}

#[test]
fn bounds_of_the_map_shut_tiles_out() {
    let mut i = input((10, 10, 10));
    i.upper_bounds = (Bound::Finite(1), Bound::Infinity, Bound::Infinity);
    assert_eq!(plan_of(MAP, &i).tiles, vec![(1, 2, 1), (1, 1, 1)]);
    i.upper_bounds = NO_BOUNDS;
    i.lower_bounds = (Bound::NegInfinity, Bound::Finite(2), Bound::NegInfinity);
    assert_eq!(plan_of(MAP, &i).tiles, vec![(1, 2, 1), (2, 2, 1)]);
    i.lower_bounds = (Bound::Finite(-5), Bound::Finite(0), Bound::NegInfinity);
    assert_eq!(plan_of(MAP, &i).tiles.len(), 4);
    i.lower_bounds = (Bound::Infinity, Bound::NegInfinity, Bound::NegInfinity);
    assert_eq!(plan_of(MAP, &i).tiles, vec![]);
    i.lower_bounds = NO_FLOOR;
    i.upper_bounds = (Bound::Infinity, Bound::NegInfinity, Bound::Infinity);
    assert_eq!(plan_of(MAP, &i).tiles, vec![]);
}

#[test]
fn infinite_bounds_compare_with_every_coordinate() {
    for c in [0usize, 1, 77, usize::MAX] {
        let p = (c, c, c);
        assert!(!float_exceeds_upper_bounds(p, NO_BOUNDS));
        assert!(!float_exceeds_lower_bounds(p, NO_FLOOR));
        assert!(float_exceeds_upper_bounds(p, (Bound::Infinity, Bound::NegInfinity, Bound::Infinity)));
        assert!(float_exceeds_lower_bounds(p, (Bound::NegInfinity, Bound::NegInfinity, Bound::Infinity)));
    }
    let f = |n: i128| (Bound::Finite(n), Bound::Finite(n), Bound::Finite(n));
    assert!(!float_exceeds_upper_bounds((5, 5, 5), f(5)));
    assert!(float_exceeds_upper_bounds((5, 6, 5), f(5)));
    assert!(!float_exceeds_lower_bounds((5, 5, 5), f(5)));
    assert!(float_exceeds_lower_bounds((5, 5, 4), f(5)));
    assert!(float_exceeds_upper_bounds((0, 0, 0), f(-1)));
    assert!(!float_exceeds_upper_bounds((usize::MAX, 0, 0), f(i128::MAX)));
    assert!(exceeds_upper_bounds((1, 2, 3), (1, 1, 3)));
    assert!(!exceeds_upper_bounds((1, 1, 3), (1, 1, 3)));
    assert!(exceeds_lower_bounds((1, 0, 3), (1, 1, 1)));
    assert!(!exceeds_lower_bounds((1, 1, 1), (1, 1, 1)));
}

#[test]
fn negative_space_and_far_space_are_warned_of() {
    let mut i = input((10, 10, 10));
    i.offset = (0, 1, 1);
    let text = "\"a\" = (/turf/floor,/area/base)\n(1,1,1) = {\"aa\"}\n";
    let plan = plan_of(text, &i);
    assert_eq!(
        plan.warnings,
        vec![Warning::NegativeSpace { tile: TileAt { block: 0, row: 0, column: 0 } }]
    );
    assert_eq!(plan.tiles, vec![(1, 1, 1)]);

    i.offset = (usize::MAX, 1, 1);
    let plan = plan_of(text, &i);
    assert_eq!(plan.tiles, vec![(usize::MAX, 1, 1)]);
    assert_eq!(
        plan.warnings,
        vec![Warning::OutOfReach { tile: TileAt { block: 0, row: 0, column: 1 } }]
    );
    assert_eq!(plan.expand_to, Some((usize::MAX, 2, 1)));
    i.crop_map = true;
    let plan = plan_of(text, &i);
    assert_eq!(plan.tiles, vec![]);
    assert_eq!(plan.warnings, vec![]);
}

#[test]
fn bad_lines_are_warned_of_and_their_tiles_skipped() {
    let text = format!("{}(1,1,2) = {{\"\ndefgz\n\"}}\n", MAP);
    let mut i = input((10, 10, 10));
    i.upper_bounds = (Bound::Infinity, Bound::Infinity, Bound::Infinity);
    i.lower_bounds = (Bound::NegInfinity, Bound::NegInfinity, Bound::Finite(2));
    let plan = plan_of(&text, &i);
    let tile = |column| TileAt { block: 1, row: 0, column };
    assert_eq!(
        plan.warnings,
        vec![
            Warning::TooShort { tile: tile(0), line: 3 },
            Warning::NotArea { tile: tile(1), prefab: at(4, 1) },
            Warning::NotTurf { tile: tile(2), prefab: at(5, 0) },
            Warning::SecondaryTurf { tile: tile(3), prefab: at(6, 0) },
            Warning::StrangeMovable { tile: tile(3), prefab: at(6, 1) },
            Warning::InvalidKey { tile: tile(4) },
        ]
    );
    assert_eq!(plan.tiles, vec![(2, 1, 2), (3, 1, 2), (4, 1, 2)]);
    assert_eq!(
        plan.commands,
        vec![
            Command::CreateArea { loc: (3, 1, 2), prefab: at(5, 1), new_z: false },
            Command::CreateArea { loc: (4, 1, 2), prefab: at(6, 3), new_z: false },
            Command::CreateTurf {
                loc: (4, 1, 2),
                prefab: at(6, 2),
                no_changeturf: false,
                place_on_top: false
            },
            Command::CreateAtom { loc: (4, 1, 2), prefab: at(6, 1) },
        ]
    );
}

#[test]
fn flags_go_into_the_commands() {
    let mut i = input((10, 10, 10));
    i.new_z = true;
    i.place_on_top = true;
    let text = "\"a\" = (/turf/floor,/area/base)\n(1,1,1) = {\"a\"}\n";
    assert_eq!(
        plan_of(text, &i).commands,
        vec![
            Command::CreateArea { loc: (1, 1, 1), prefab: at(0, 1), new_z: true },
            Command::CreateTurf {
                loc: (1, 1, 1),
                prefab: at(0, 0),
                no_changeturf: false,
                place_on_top: true
            },
        ]
    );
}

#[test]
fn no_key_length_no_plan() {
    let (_, (prefabs, blocks)) = parse_map_multithreaded("test".to_string(), MAP).unwrap();
    let mut i = input((10, 10, 10));
    i.key_len = 0;
    assert_eq!(
        generate_command_buffer(&prefabs, &blocks, &i).err(),
        Some(PlanError::NoKeyLength)
    );
}

#[test]
fn paths_are_classified_by_their_start() {
    assert_eq!(classify(b"/area/station"), PathKind::Area);
    assert_eq!(classify(b"/area"), PathKind::Area);
    assert_eq!(classify(b"/area/template_noop"), PathKind::NoopArea);
    assert_eq!(classify(b"/area/template_noop/x"), PathKind::NoopArea);
    assert_eq!(classify(b"/turf/template_noop"), PathKind::NoopTurf);
    assert_eq!(classify(b"/turf/open"), PathKind::Turf);
    assert_eq!(classify(b"/turfy"), PathKind::Turf);
    assert_eq!(classify(b"/obj/item"), PathKind::Movable);
    assert_eq!(classify(b"/mob"), PathKind::Movable);
    assert_eq!(classify(b"/datum/x"), PathKind::Other);
    assert_eq!(classify(b""), PathKind::Other);
}

#[test]
fn metadata_of_a_map() {
    let (_, (prefabs, blocks)) = parse_map_multithreaded("test".to_string(), MAP).unwrap();
    assert_eq!(
        find_metadata(&prefabs, &blocks),
        Metadata { key_len: 1, line_len: 2, parsed_bounds: Some((1, 1, 1, 2, 2, 1)) }
    );
    assert!(check_uniform(&prefabs, &blocks, 1));
    assert!(!check_uniform(&prefabs, &blocks, 2));
    assert!(!check_uniform(&prefabs, &blocks, 0));

    let two = "\"aa\" = (/turf/x,/area/y)\n(3,4,2) = {\"\naaaaaa\naaaaaa\n\"}\n(1,9,5) = {\"\naaaaaa\n\"}\n";
    let (_, (prefabs, blocks)) = parse_map_multithreaded("two".to_string(), two).unwrap();
    assert_eq!(
        find_metadata(&prefabs, &blocks),
        Metadata { key_len: 2, line_len: 6, parsed_bounds: Some((1, 4, 2, 5, 9, 5)) }
    );
    assert!(check_uniform(&prefabs, &blocks, 2));
    assert!(!check_uniform(&prefabs, &blocks, 4));

    let none = Prefabs::new();
    assert_eq!(
        find_metadata(&none, &blocks),
        Metadata { key_len: 0, line_len: 6, parsed_bounds: None }
    );
    assert_eq!(
        find_metadata(&prefabs, &vec![]),
        Metadata { key_len: 2, line_len: 0, parsed_bounds: None }
    );
    assert!(!check_measures(&none, &blocks));
    assert!(check_measures(&prefabs, &blocks));
}

#[test]
fn a_parsed_map_hangs_together() {
    let ragged = "\"aa\" = (/turf/x,/area/y)\n(1,1,1) = {\"aaa\"}\n";
    assert_eq!(
        parse_map_multithreaded("r".to_string(), ragged).unwrap_err(),
        MapError::Uneven
    );
    let keys = "\"aa\" = (/turf/x,/area/y)\n\"b\" = (/turf/x,/area/y)\n(1,1,1) = {\"aa\"}\n";
    assert_eq!(parse_map_multithreaded("k".to_string(), keys).unwrap_err(), MapError::Uneven);
    let no_key = "(1,1,1) = {\"aa\"}\n";
    assert_eq!(parse_map_multithreaded("n".to_string(), no_key).unwrap_err(), MapError::Uneven);
    assert_eq!(parse_map_multithreaded("e".to_string(), "").unwrap_err(), MapError::Uneven);
    let rows = "\"a\" = (/turf/x,/area/y)\n(1,1,1) = {\"aa\na\"}\n";
    assert_eq!(parse_map_multithreaded("w".to_string(), rows).unwrap_err(), MapError::Uneven);
    let levels = "\"a\" = (/turf/x,/area/y)\n(1,1,1) = {\"aa\"}\n(1,1,2) = {\"aaa\"}\n";
    assert_eq!(parse_map_multithreaded("l".to_string(), levels).unwrap_err(), MapError::Uneven);
    let even = "\"aa\" = (/turf/x,/area/y)\n(1,1,1) = {\"aaab\"}\n";
    let (_, (prefabs, blocks)) = parse_map_multithreaded("e".to_string(), even).unwrap();
    assert!(check_measures(&prefabs, &blocks));
    assert!(find_metadata(&prefabs, &blocks).key_len > 0);
    assert!(check_rows(&blocks, 4));
    assert!(!check_rows(&blocks, 2));
    assert!(check_rows(&vec![], 7));
    assert!(!check_rows(&vec![((1, 1, 1), vec![&b"ab"[..], &b"abc"[..]])], 2));
}

#[test]
fn tile_cache_forgets_when_the_bounds_change() {
    let mut cache: CachedTurfs<u32> = CachedTurfs::new((5, 5, 1));
    assert_eq!(cache.world_bounds(), (5, 5, 1));
    assert_eq!(cache.resolve_coord((1, 2, 3)), None);
    cache.cache((1, 2, 3), 7);
    cache.cache((1, 3, 2), 8);
    cache.cache((1, 2, 3), 9);
    assert_eq!(cache.resolve_coord((1, 2, 3)), Some(&7));
    assert_eq!(cache.resolve_coord((1, 3, 2)), Some(&8));
    assert_eq!(cache.resolve_coord((2, 1, 3)), None);
    cache.check_invalidate((5, 5, 1));
    assert_eq!(cache.resolve_coord((1, 2, 3)), Some(&7));
    cache.check_invalidate((5, 5, 2));
    assert_eq!(cache.world_bounds(), (5, 5, 2));
    assert_eq!(cache.resolve_coord((1, 2, 3)), None);
    assert_eq!(cache.resolve_coord((1, 3, 2)), None);
    cache.cache((1, 2, 3), 10);
    assert_eq!(cache.resolve_coord((1, 2, 3)), Some(&10));
    cache.cache((usize::MAX, usize::MAX, usize::MAX), 1);
    cache.cache((usize::MAX, usize::MAX, 0), 2);
    assert_eq!(cache.resolve_coord((usize::MAX, usize::MAX, usize::MAX)), Some(&1));
    assert_eq!(cache.resolve_coord((usize::MAX, usize::MAX, 0)), Some(&2));
    assert_eq!(cache.resolve_coord((usize::MAX, 0, usize::MAX)), None);
}

#[test]
fn path_cache_keeps_the_first_reference() {
    let mut cache: PathCache<u32> = PathCache::new();
    assert_eq!(cache.get(b"/area/a"), None);
    cache.insert(b"/area/a", 1);
    cache.insert(b"/area/b", 2);
    cache.insert(b"/area/a", 3);
    assert_eq!(cache.get(b"/area/a"), Some(&1));
    assert_eq!(cache.get(b"/area/b"), Some(&2));
    assert_eq!(cache.get(b"/area"), None);
}

/// A host that counts what it is asked and says that the slice is used up
/// on every `every`-th question.
struct Host {
    every: usize,
    ticks: usize,
    located: Vec<(usize, usize, usize)>,
    areas: Vec<PrefabRef>,
    paths: Vec<PrefabRef>,
    joined: Vec<((usize, usize, usize), bool)>,
    turfs: usize,
    spawned: Vec<bool>,
    nulls: Vec<(usize, usize, usize)>,
    bounds: (usize, usize, usize),
    hole: Option<(usize, usize, usize)>,
}

impl Host {
    fn new(every: usize) -> Host {
        Host {
            every,
            ticks: 0,
            located: vec![],
            areas: vec![],
            paths: vec![],
            joined: vec![],
            turfs: 0,
            spawned: vec![],
            nulls: vec![],
            bounds: (10, 10, 10),
            hole: None,
        }
    }

    fn done(&self) -> usize {
        self.joined.len() + self.turfs + self.spawned.len()
    }

    /// One slice: the number that the host gets back.
    fn work(&mut self, buffer: &mut CommandBuffer<u32>) -> u8 {
        let mut event = Event::Start;
        loop {
            event = match buffer.advance(event) {
                Action::AskBounds => Event::Bounds(self.bounds),
                Action::WantArea { prefab } => {
                    self.areas.push(prefab);
                    Event::Reference(100 + self.areas.len() as u32)
                }
                Action::WantPath { prefab } => {
                    self.paths.push(prefab);
                    Event::Reference(200 + self.paths.len() as u32)
                }
                Action::WantTile { loc } => {
                    self.located.push(loc);
                    if self.hole == Some(loc) {
                        Event::Tile(None)
                    } else {
                        Event::Tile(Some(self.located.len() as u32))
                    }
                }
                Action::JoinArea { loc, prefab: _, reassign } => {
                    assert!(buffer.tile(loc).unwrap().is_some());
                    self.joined.push((loc, reassign));
                    Event::Done
                }
                Action::MakeTurf { .. } => {
                    self.turfs += 1;
                    Event::Done
                }
                Action::Spawn { preload, .. } => {
                    self.spawned.push(preload);
                    Event::Done
                }
                Action::WarnNull { loc } => {
                    self.nulls.push(loc);
                    Event::Done
                }
                Action::AskTick => {
                    self.ticks += 1;
                    Event::Tick(self.ticks % self.every == 0)
                }
                Action::Suspend => return 1,
                Action::Finish => return 0,
                Action::Refuse => panic!("refused"),
            }
        }
    }
}

fn table() -> &'static str {
    "\"a\" = (/obj/thing{name = \"x\"},/mob/cat,/turf/floor,/area/base)\n"
}

#[test]
fn cooperative_yield() {
    let (_, (prefabs, _)) = parse_map_multithreaded("t".to_string(), table()).unwrap();
    let commands: Vec<Command> = (0..450)
        .map(|k| Command::CreateAtom { loc: (1 + k % 7, 1, 1), prefab: at(0, k % 2) })
        .collect();
    let mut buffer: CommandBuffer<u32> = CommandBuffer::new(&commands, &prefabs, (10, 10, 10)).unwrap();
    assert_eq!(buffer.remaining(), 450);
    let mut host = Host::new(3);
    assert_eq!(host.work(&mut buffer), 1);
    assert_eq!(host.done(), 300);
    assert_eq!(buffer.remaining(), 150);
    assert_eq!(host.ticks, 3);
    assert_eq!(host.work(&mut buffer), 0);
    assert_eq!(host.done(), 450);
    assert_eq!(buffer.remaining(), 0);
    assert_eq!(host.ticks, 4);
    assert_eq!(host.located.len(), 7);
    assert_eq!(host.paths.len(), 2);
    assert_eq!(buffer.advance(Event::Start), Action::Refuse);
    assert_eq!(MIN_PAUSE, 100);
}

#[test]
fn commands_are_carried_out_from_the_last() {
    let (_, (prefabs, _)) = parse_map_multithreaded("t".to_string(), table()).unwrap();
    let commands = vec![
        Command::CreateArea { loc: (1, 1, 1), prefab: at(0, 3), new_z: false },
        Command::CreateTurf {
            loc: (1, 1, 1),
            prefab: at(0, 2),
            no_changeturf: true,
            place_on_top: false,
        },
        Command::CreateAtom { loc: (1, 1, 1), prefab: at(0, 0) },
        Command::CreateAtom { loc: (1, 1, 1), prefab: at(0, 1) },
    ];
    let mut buffer: CommandBuffer<u32> = CommandBuffer::new(&commands, &prefabs, (10, 10, 10)).unwrap();
    assert_eq!(buffer.advance(Event::Start), Action::AskBounds);
    assert_eq!(
        buffer.advance(Event::Bounds((10, 10, 10))),
        Action::WantTile { loc: (1, 1, 1) }
    );
    assert_eq!(buffer.current().unwrap().command, commands[3]);
    assert_eq!(buffer.current().unwrap().path, b"/mob/cat");
    assert_eq!(
        buffer.advance(Event::Tile(Some(5))),
        Action::WantPath { prefab: at(0, 1) }
    );
    assert_eq!(
        buffer.advance(Event::Reference(6)),
        Action::Spawn { loc: (1, 1, 1), prefab: at(0, 1), preload: false }
    );
    assert_eq!(buffer.known_type(b"/mob/cat"), Some(&6));
    assert_eq!(
        buffer.advance(Event::Done),
        Action::WantPath { prefab: at(0, 0) }
    );
    assert_eq!(
        buffer.advance(Event::Reference(7)),
        Action::Spawn { loc: (1, 1, 1), prefab: at(0, 0), preload: true }
    );
    assert_eq!(
        buffer.advance(Event::Done),
        Action::MakeTurf {
            loc: (1, 1, 1),
            prefab: at(0, 2),
            place_on_top: false,
            no_changeturf: true
        }
    );
    assert_eq!(
        buffer.advance(Event::Done),
        Action::WantArea { prefab: at(0, 3) }
    );
    assert_eq!(buffer.advance(Event::Tick(true)), Action::Refuse);
    assert_eq!(
        buffer.advance(Event::Reference(8)),
        Action::JoinArea { loc: (1, 1, 1), prefab: at(0, 3), reassign: true }
    );
    assert_eq!(buffer.area(b"/area/base"), Some(&8));
    assert_eq!(buffer.tile((1, 1, 1)), Some(&Some(5)));
    assert_eq!(buffer.advance(Event::Done), Action::Finish);
    assert_eq!(buffer.advance(Event::Start), Action::Refuse);
}

#[test]
fn new_z_suppresses_the_reassignment() {
    let (_, (prefabs, _)) = parse_map_multithreaded("t".to_string(), table()).unwrap();
    let commands = vec![
        Command::CreateArea { loc: (1, 1, 1), prefab: at(0, 3), new_z: true },
        Command::CreateArea { loc: (2, 1, 1), prefab: at(0, 3), new_z: false },
    ];
    let mut buffer: CommandBuffer<u32> = CommandBuffer::new(&commands, &prefabs, (10, 10, 10)).unwrap();
    let mut host = Host::new(1);
    assert_eq!(host.work(&mut buffer), 0);
    assert_eq!(host.joined, vec![((2, 1, 1), true), ((1, 1, 1), false)]);
    assert_eq!(host.areas.len(), 1);
}

#[test]
fn null_tile_is_warned_of_and_not_counted() {
    let (_, (prefabs, _)) = parse_map_multithreaded("t".to_string(), table()).unwrap();
    let mut commands: Vec<Command> = (0..100)
        .map(|_| Command::CreateAtom { loc: (1, 1, 1), prefab: at(0, 0) })
        .collect();
    commands.push(Command::CreateAtom { loc: (3, 3, 3), prefab: at(0, 0) });
    commands.push(Command::CreateAtom { loc: (3, 3, 3), prefab: at(0, 1) });
    let mut buffer: CommandBuffer<u32> = CommandBuffer::new(&commands, &prefabs, (10, 10, 10)).unwrap();
    let mut host = Host::new(1);
    host.hole = Some((3, 3, 3));
    assert_eq!(host.work(&mut buffer), 1);
    assert_eq!(host.nulls, vec![(3, 3, 3), (3, 3, 3)]);
    assert_eq!(host.located, vec![(3, 3, 3), (1, 1, 1)]);
    assert_eq!(host.done(), 100);
    assert_eq!(buffer.remaining(), 0);
    assert_eq!(host.work(&mut buffer), 0);
}

#[test]
fn changed_bounds_make_the_buffer_ask_for_tiles_again() {
    let (_, (prefabs, _)) = parse_map_multithreaded("t".to_string(), table()).unwrap();
    let commands: Vec<Command> = (0..250)
        .map(|k| Command::CreateAtom { loc: (1 + k % 5, 1, 1), prefab: at(0, 0) })
        .collect();
    let mut buffer: CommandBuffer<u32> = CommandBuffer::new(&commands, &prefabs, (10, 10, 10)).unwrap();
    let mut host = Host::new(1);
    assert_eq!(host.work(&mut buffer), 1);
    assert_eq!(host.located.len(), 5);
    assert_eq!(host.work(&mut buffer), 1);
    assert_eq!(host.located.len(), 5);
    host.bounds = (10, 10, 11);
    assert_eq!(host.work(&mut buffer), 0);
    assert_eq!(host.located.len(), 10);
    assert_eq!(host.paths.len(), 1);
}

#[test]
fn buffer_refuses_commands_about_prefabs_that_are_not_there() {
    let (_, (prefabs, _)) = parse_map_multithreaded("t".to_string(), table()).unwrap();
    let bad_line = vec![Command::CreateAtom { loc: (1, 1, 1), prefab: at(1, 0) }];
    assert!(CommandBuffer::<u32>::new(&bad_line, &prefabs, (1, 1, 1)).is_none());
    let bad_index = vec![Command::CreateAtom { loc: (1, 1, 1), prefab: at(0, 4) }];
    assert!(CommandBuffer::<u32>::new(&bad_index, &prefabs, (1, 1, 1)).is_none());
}

#[test]
fn abort_keeps_what_is_left() {
    let (_, (prefabs, _)) = parse_map_multithreaded("t".to_string(), table()).unwrap();
    let commands = vec![
        Command::CreateAtom { loc: (1, 1, 1), prefab: at(0, 0) },
        Command::CreateAtom { loc: (2, 1, 1), prefab: at(0, 0) },
    ];
    let mut buffer: CommandBuffer<u32> = CommandBuffer::new(&commands, &prefabs, (10, 10, 10)).unwrap();
    assert_eq!(buffer.advance(Event::Start), Action::AskBounds);
    assert_eq!(
        buffer.advance(Event::Bounds((10, 10, 10))),
        Action::WantTile { loc: (2, 1, 1) }
    );
    buffer.abort();
    assert_eq!(buffer.remaining(), 1);
    assert_eq!(buffer.current(), None);
    assert_eq!(buffer.advance(Event::Start), Action::AskBounds);
    assert_eq!(
        buffer.advance(Event::Bounds((10, 10, 10))),
        Action::WantTile { loc: (1, 1, 1) }
    );
}

#[test]
fn tiles_handed_in_ahead_are_not_asked_for() {
    let (_, (prefabs, _)) = parse_map_multithreaded("t".to_string(), table()).unwrap();
    let commands = vec![
        Command::CreateAtom { loc: (1, 1, 1), prefab: at(0, 0) },
        Command::CreateAtom { loc: (2, 1, 1), prefab: at(0, 0) },
        Command::CreateAtom { loc: (3, 1, 1), prefab: at(0, 0) },
    ];
    let mut buffer: CommandBuffer<u32> = CommandBuffer::new(&commands, &prefabs, (10, 10, 10)).unwrap();
    buffer.cache_tile((1, 1, 1), Some(11));
    buffer.cache_tile((2, 1, 1), None);
    buffer.cache_tile((1, 1, 1), Some(12));
    assert_eq!(buffer.tile((1, 1, 1)), Some(&Some(11)));
    let mut host = Host::new(1);
    assert_eq!(host.work(&mut buffer), 0);
    assert_eq!(host.located, vec![(3, 1, 1)]);
    assert_eq!(host.nulls, vec![(2, 1, 1)]);
    assert_eq!(host.spawned.len(), 2);
}

#[test]
fn resume_keys_count_up_from_one() {
    let mut keys = ResumeKeys::new();
    assert_eq!(keys.next(), Some(1));
    assert_eq!(keys.next(), Some(2));
    assert_eq!(keys.next(), Some(3));
}
