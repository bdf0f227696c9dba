use dmm_lite::block::{gather_blocks, get_block_locations, parse_block, parse_blocks};
use dmm_lite::literal::Literal;
use dmm_lite::prefabs::{
    gather_prefab_lines, get_prefab_locations, multithreaded_parse_map_prefabs, parse_prefab_line,
    parse_prefab_lines, Prefab,
};
use dmm_lite::scan::SyntaxError;
use dmm_lite::search::reversed;
use dmm_lite::{assemble_map, parse_map_multithreaded, LocatedError, MapError};
use dmm_lite::table::Prefabs;

const DENSE: &str = "\"aaa\" = (/turf/space{name = \"meow\"},/area/space)\n\"aab\" = (/obj/thing,/turf/floor,/area/space)\n\"aac\" = (/turf/floor,/area/base)\n\n(1,1,1) = {\"\naaaaabaac\naabaacaaa\n\"}\n(1,1,2) = {\"\naacaacaac\naaaaaaaaa\n\"}\n";

const TABULAR: &str = "//MAP CONVERTED BY dmm2tgm.py THIS HEADER COMMENT PREVENTS RECONVERSION, DO NOT REMOVE\n\"aaa\" = (\n/turf/space{\n\tname = \"meow\"\n\t},\n/area/space)\n\"aab\" = (\n/obj/thing,\n/turf/floor,\n/area/space)\n\"aac\" = (\n/turf/floor,\n/area/base)\n\n(1,1,1) = {\"\naaaaabaac\naabaacaaa\n\"}\n(1,1,2) = {\"\naacaacaac\naaaaaaaaa\n\"}\n";

fn contents(table: &Prefabs, keys: &[&str]) -> Vec<(Vec<u8>, String)> {
    keys.iter()
        .map(|k| {
            (
                k.as_bytes().to_vec(),
                format!("{:?}", table.get(k.as_bytes())),
            )
        })
        .collect()
}

#[test]
fn header_skip() {
    let text = "//MAP CONVERTED BY dmm2tgm.py THIS HEADER COMMENT PREVENTS RECONVERSION, DO NOT REMOVE\n\"aa\" = (/turf/x,/area/y)\n(1,1,1) = {\"aa\"}";
    let (info, (prefabs, blocks)) = parse_map_multithreaded("Meow".to_string(), text).unwrap();
    assert_eq!(info.name, "Meow");
    assert!(!info.is_tgm);
    assert_eq!(prefabs.len(), 1);
    assert_eq!(blocks.len(), 1);
    let expected: Vec<Prefab> = vec![(b"/turf/x", None), (b"/area/y", None)];
    assert_eq!(prefabs.get(b"aa"), Some(&expected));
    assert_eq!(blocks[0], ((1, 1, 1), vec![&b"aa"[..]]));
}

#[test]
fn dialect_equivalence() {
    let (dense_info, (dense_prefabs, dense_blocks)) =
        parse_map_multithreaded("dense".to_string(), DENSE).unwrap();
    let (tab_info, (tab_prefabs, tab_blocks)) =
        parse_map_multithreaded("tabular".to_string(), TABULAR).unwrap();
    assert!(!dense_info.is_tgm);
    assert!(tab_info.is_tgm);
    assert_eq!(dense_prefabs.len(), 3);
    assert_eq!(tab_prefabs.len(), 3);
    let keys = ["aaa", "aab", "aac"];
    assert_eq!(contents(&dense_prefabs, &keys), contents(&tab_prefabs, &keys));
    assert_eq!(dense_blocks, tab_blocks);
    assert_eq!(dense_blocks.len(), 2);
    assert_eq!(
        dense_prefabs.get(b"aaa").unwrap()[0],
        (
            &b"/turf/space"[..],
            Some(vec![(&b"name"[..], Literal::String(b"meow"))])
        )
    );
}

#[test]
fn locations_are_where_the_pattern_matches() {
    assert_eq!(get_prefab_locations(DENSE), vec![0, 49, 94]);
    let blocks = get_block_locations(DENSE);
    assert_eq!(blocks.len(), 2);
    assert!(DENSE[blocks[0]..].starts_with("(1,1,1) = {"));
    assert!(DENSE[blocks[1]..].starts_with("(1,1,2) = {"));
    assert_eq!(get_prefab_locations("nothing here"), Vec::<usize>::new());
    assert_eq!(get_block_locations("(1,2) = {"), Vec::<usize>::new());
    assert_eq!(get_block_locations("x(1,2,3) = {(4,5,6) = {"), vec![1, 12]);
}

fn syntax(e: MapError) -> LocatedError {
    match e {
        MapError::Syntax(located) => located,
        MapError::Uneven => panic!("the map is uneven"),
    }
}

#[test]
fn first_bad_line_fails_the_map() {
    let text = "\"aa\" = (/turf/x,/area/y)\n\"ab\" = (turf)\n\"ac\" = (/obj/a{x = 1)\n";
    let e = syntax(parse_map_multithreaded("bad".to_string(), text).unwrap_err());
    assert_eq!(e.key_offset, 25);
    assert!(e.main_offset >= e.key_offset);
    assert!(!e.underlying.cut);

    let cut = "\"aa\" = (/turf/x,/area/y)\n\"ac\" = (/obj/a{x = 1)\n";
    let e = syntax(parse_map_multithreaded("cut".to_string(), cut).unwrap_err());
    assert_eq!(e.key_offset, 25);
    assert!(e.underlying.cut);
    assert_eq!(e.main_offset, cut.len());
}

#[test]
fn bad_block_fails_the_map() {
    let text = "\"aa\" = (/turf/x,/area/y)\n(1,1,1) = {\"a1\"}";
    let e = syntax(parse_map_multithreaded("bad".to_string(), text).unwrap_err());
    assert_eq!(e.key_offset, 25);
    assert!(!e.underlying.cut);
}

#[test]
fn later_line_replaces_earlier_line_of_same_key() {
    let text = "\"aa\" = (/turf/x,/area/y)\n\"aa\" = (/turf/z,/area/y)\n";
    let starts = get_prefab_locations(text);
    assert_eq!(starts.len(), 2);
    let table = parse_prefab_lines(text.as_bytes(), &starts).unwrap();
    assert_eq!(table.len(), 1);
    assert_eq!(table.get(b"aa").unwrap()[0].0, b"/turf/z");
    assert_eq!(table.get(b"ab"), None);
}

#[test]
fn starts_need_not_come_from_the_search() {
    let text = b"xx(1,1,1) = {\"ab\"}(2,2,2) = {\"cd\"}";
    let blocks = parse_blocks(text, &vec![18, 2]).unwrap();
    assert_eq!(blocks[0], ((2, 2, 2), vec![&b"cd"[..]]));
    assert_eq!(blocks[1], ((1, 1, 1), vec![&b"ab"[..]]));
    let e = parse_blocks(text, &vec![2, 3]).unwrap_err();
    assert_eq!(e.key_offset, 3);
    assert!(parse_blocks(text, &vec![1000]).is_err());
}

#[test]
fn document_has_keys_and_rows_that_are_not_empty() {
    let (_, (prefabs, blocks)) = parse_map_multithreaded("dense".to_string(), DENSE).unwrap();
    for (_, rows) in &blocks {
        assert!(!rows.is_empty());
        for row in rows {
            assert!(!row.is_empty());
            assert_eq!(row.len() % 3, 0);
        }
    }
    for k in 0..prefabs.len() {
        assert!(!prefabs.line(k).0.is_empty());
    }
}

#[test]
fn long_keys_are_found_as_well_as_short_ones() {
    let mut table = Prefabs::new();
    let keys: Vec<&[u8]> = vec![b"a", b"ab", b"abcdefgh", b"abcdefghi", b"abcdefghj", b"b", b"", b"ba"];
    for (n, key) in keys.iter().enumerate() {
        table.insert(key, vec![(&b"/obj"[..], None); n + 1]);
    }
    assert_eq!(table.len(), keys.len());
    for (n, key) in keys.iter().enumerate() {
        assert_eq!(table.position(key), Some(n));
        assert_eq!(table.get(key).unwrap().len(), n + 1);
        assert_eq!(table.line(n).0, *key);
    }
    assert_eq!(table.position(b"abcdefgi"), None);
    assert_eq!(table.position(b"abcdefghk"), None);
    assert_eq!(table.position(b"c"), None);
    table.insert(b"abcdefghi", vec![]);
    table.insert(b"ab", vec![]);
    assert_eq!(table.len(), keys.len());
    assert_eq!(table.get(b"abcdefghi").unwrap().len(), 0);
    assert_eq!(table.get(b"ab").unwrap().len(), 0);
    assert_eq!(table.position(b"abcdefghj"), Some(4));
    assert_eq!(table.get(b"abcdefghj").unwrap().len(), 5);
}

/// The text with a line ending behind the `(` of each prefab line and
/// behind the `{"` of each block.
fn broken_into_lines(text: &str, ending: &str) -> String {
    let mut out = String::new();
    let mut rest = text;
    while !rest.is_empty() {
        let cut = if rest.starts_with("\" = (") {
            5
        } else if rest.starts_with("= {\"") {
            4
        } else {
            let width = rest.chars().next().unwrap().len_utf8();
            out.push_str(&rest[..width]);
            rest = &rest[width..];
            continue;
        };
        out.push_str(&rest[..cut]);
        out.push_str(ending);
        rest = &rest[cut..];
    }
    out
}

#[test]
fn line_endings_behind_the_openers_change_nothing_but_the_dialect() {
    let dense = [
        "\"a\" = (/turf/x,/area/y)\n(1,1,1) = {\"a\"}\n",
        "\"aa\" = (/obj/o{n = list(1, 2); s = \"( = {\\\"\"},/turf/x{d = 2},/area/y)\n\"ab\" = (/turf/t,/area/y)\n(1,1,1) = {\"aaab\nabaa\"}\n(1,1,2) = {\"abab\"}\n",
        "\"k\" = (/mob/m{name = 'f.dmi'; e = null; z = zz},/turf/t,/area/a)\n(5,6,7) = {\"kkk\nkkk\nkkk\"}",
    ];
    for text in dense {
        for ending in ["\n", "\r\n"] {
            let tabular = broken_into_lines(text, ending);
            assert_ne!(tabular, text);
            let (info, (prefabs, blocks)) =
                parse_map_multithreaded("dense".to_string(), text).unwrap();
            let (tab_info, (tab_prefabs, tab_blocks)) =
                parse_map_multithreaded("tabular".to_string(), &tabular).unwrap();
            assert!(!info.is_tgm);
            assert!(tab_info.is_tgm);
            assert_eq!(blocks, tab_blocks);
            assert_eq!(prefabs.len(), tab_prefabs.len());
            assert!(prefabs.len() > 0);
            for k in 0..prefabs.len() {
                assert_eq!(prefabs.line(k), tab_prefabs.line(k));
            }
        }
    }
}

#[test]
fn the_dialect_of_a_map_is_that_of_its_first_key() {
    let header =
        "//MAP CONVERTED BY dmm2tgm.py THIS HEADER COMMENT PREVENTS RECONVERSION, DO NOT REMOVE";
    for lead in [String::new(), "\n".to_string(), format!("{header}\n"), format!("{header}\n\n")] {
        let tabular = format!("{lead}\"a\" = (\n/turf/x,\n/area/y)\n(1,1,1) = {{\"\na\n\"}}\n");
        let (info, _) = parse_map_multithreaded("t".to_string(), &tabular).unwrap();
        assert!(info.is_tgm, "{:?}", lead);
        let dense = format!("{lead}\"a\" = (/turf/x,/area/y)\n(1,1,1) = {{\"a\"}}\n");
        let (info, _) = parse_map_multithreaded("d".to_string(), &dense).unwrap();
        assert!(!info.is_tgm, "{:?}", lead);
    }
}

#[test]
fn locations_rise_and_lie_inside_the_text() {
    for text in [DENSE, TABULAR, "", "\"a\" = (\"b\" = (", "(1,1,1) = {(2,2,2) = {"] {
        for starts in [get_prefab_locations(text), get_block_locations(text)] {
            for pair in starts.windows(2) {
                assert!(pair[0] < pair[1]);
            }
            for start in &starts {
                assert!(*start < text.len());
            }
        }
    }
    assert_eq!(get_prefab_locations("\"a\" = (\"b\" = ("), vec![0, 7]);
    assert_eq!(get_prefab_locations("\"a1\" = (\"\" = (\"b\"= ("), Vec::<usize>::new());
}

#[test]
fn gathered_results_are_those_of_parsing_in_turn() {
    let bad = "\"aa\" = (/turf/x,/area/y)\n\"ab\" = (turf)\n\"ac\" = (/obj/a{x = 1)\n(1,1,1) = {\"aa\"}\n(1,1,2) = {\"a1\"}\n(1,1,3) = {\"\"}";
    for text in [DENSE, TABULAR, bad, ""] {
        let bytes = text.as_bytes();
        let starts = get_prefab_locations(text);
        let results = starts.iter().map(|s| parse_prefab_line(bytes, *s)).collect();
        let gathered = gather_prefab_lines(bytes, &starts, results);
        let in_turn = parse_prefab_lines(bytes, &starts);
        match (gathered, in_turn) {
            (Ok(a), Ok(b)) => {
                assert_eq!(a.len(), b.len());
                for k in 0..a.len() {
                    assert_eq!(a.line(k), b.line(k));
                }
            }
            (Err(a), Err(b)) => assert_eq!(a, b),
            _ => panic!("{:?}", text),
        }

        let starts = get_block_locations(text);
        let results = starts.iter().map(|s| parse_block(bytes, *s)).collect();
        assert_eq!(gather_blocks(bytes, &starts, results), parse_blocks(bytes, &starts));
    }
    let e = gather_prefab_lines(
        bad.as_bytes(),
        &vec![0, 25, 39],
        vec![
            parse_prefab_line(bad.as_bytes(), 0),
            Err(SyntaxError { cut: false, at: 33 }),
            Err(SyntaxError { cut: true, at: 60 }),
        ],
    )
    .unwrap_err();
    assert_eq!(
        e,
        LocatedError {
            key_offset: 25,
            main_offset: 33,
            underlying: SyntaxError { cut: false, at: 33 }
        }
    );
    let e = gather_blocks(b"", &vec![], vec![Err(SyntaxError { cut: true, at: 7 })]).unwrap_err();
    assert_eq!(e.key_offset, 0);
    assert_eq!(e.main_offset, 7);
}

#[test]
fn a_map_is_assembled_from_lines_and_blocks() {
    let text = "\"aa\" = (/turf/x,/area/y)\n(1,1,1) = {\"aaaa\"}\n";
    let lines = || multithreaded_parse_map_prefabs(text);
    let blocks = || parse_blocks(text.as_bytes(), &get_block_locations(text));
    let first = LocatedError {
        key_offset: 1,
        main_offset: 2,
        underlying: SyntaxError { cut: true, at: 2 },
    };
    let second = LocatedError {
        key_offset: 3,
        main_offset: 4,
        underlying: SyntaxError { cut: false, at: 4 },
    };
    let (info, (prefabs, placed)) =
        assemble_map("m".to_string(), text.as_bytes(), lines(), blocks()).unwrap();
    assert_eq!(info.name, "m");
    assert!(!info.is_tgm);
    assert_eq!(prefabs.len(), 1);
    assert_eq!(placed, blocks().unwrap());
    assert_eq!(
        assemble_map("m".to_string(), text.as_bytes(), Err(first), Err(second)).unwrap_err(),
        MapError::Syntax(first)
    );
    assert_eq!(
        assemble_map("m".to_string(), text.as_bytes(), Err(first), blocks()).unwrap_err(),
        MapError::Syntax(first)
    );
    assert_eq!(
        assemble_map("m".to_string(), text.as_bytes(), lines(), Err(second)).unwrap_err(),
        MapError::Syntax(second)
    );
    assert_eq!(
        assemble_map("m".to_string(), text.as_bytes(), lines(), Ok(vec![((1, 1, 1), vec![&b"a"[..]])]))
            .unwrap_err(),
        MapError::Uneven
    );
    assert_eq!(
        assemble_map("m".to_string(), text.as_bytes(), Ok(Prefabs::new()), Ok(vec![])).unwrap_err(),
        MapError::Uneven
    );
}

#[test]
fn reversed_turns_the_order_round() {
    assert_eq!(reversed(vec![1, 2, 3]), vec![3, 2, 1]);
    assert_eq!(reversed(vec!["a"]), vec!["a"]);
    assert_eq!(reversed(Vec::<u8>::new()), Vec::<u8>::new());
}
