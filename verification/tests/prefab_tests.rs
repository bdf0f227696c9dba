use dmm_lite::scan::SyntaxError;
use dmm_lite::literal::{
    parse_bare_list_key, parse_literal, parse_literal_file, parse_literal_list,
    parse_literal_number, parse_literal_string, Literal,
};
use dmm_lite::prefabs::{
    detect_tgm, detect_tgm_from, line_open_strings, map_open_strings, parse_identifier, parse_key,
    parse_path, parse_prefab, parse_prefab_data, parse_prefab_line, parse_var_list,
    parse_var_list_key, separate_var_list, unterminated_strings, Prefab,
};

fn number(text: &'static str) -> Literal<'static> {
    Literal::Number(text.as_bytes())
}

fn string(text: &'static str) -> Literal<'static> {
    Literal::String(text.as_bytes())
}

fn path(text: &'static str) -> Literal<'static> {
    Literal::Path(text.as_bytes())
}

fn fallback(text: &'static str) -> Literal<'static> {
    Literal::Fallback(text.as_bytes())
}

fn file(text: &'static str) -> Literal<'static> {
    Literal::File(text.as_bytes())
}

/// The number that a number token spells.
fn spelled(l: &Literal) -> f32 {
    match l {
        Literal::Number(t) => std::str::from_utf8(t).unwrap().parse::<f32>().unwrap(),
        other => panic!("no number: {:?}", other),
    }
}

fn bare(p: &'static str) -> Prefab<'static> {
    (p.as_bytes(), None)
}

fn with_vars(p: &'static str, vars: Vec<(&'static str, Literal<'static>)>) -> Prefab<'static> {
    (
        p.as_bytes(),
        Some(vars.into_iter().map(|(k, v)| (k.as_bytes(), v)).collect()),
    )
}

#[test]
fn test_parse_key() {
    let key = r#""abc" = ("#;
    let newline_key = "\n\"abc\" = (";
    let winnewline_key = "\r\n\"abc\" = (";

    assert_eq!(parse_key(key.as_bytes(), 0).map(|r| r.0), Ok(&b"abc"[..]));
    assert_eq!(
        parse_key(newline_key.as_bytes(), 0).map(|r| r.0),
        Ok(&b"abc"[..])
    );
    assert_eq!(
        parse_key(winnewline_key.as_bytes(), 0).map(|r| r.0),
        Ok(&b"abc"[..])
    );

    let badkey = r#" "abc" = ("#;
    parse_key(badkey.as_bytes(), 0).expect_err("Bad key was parsed");
}

#[test]
fn tgm_detection() {
    let dmm_key = r#""abc" = (/turf"#;
    let tgm_key = "\"abc\" = (\n/turf";

    assert!(!detect_tgm(dmm_key.as_bytes()));
    assert!(detect_tgm(tgm_key.as_bytes()));
}

#[test]
fn test_parse_path() {
    let path = r#"/turf/open/space/basic"#;

    assert_eq!(
        parse_path(path.as_bytes(), 0).map(|r| r.0),
        Ok("/turf/open/space/basic".as_bytes())
    );
}

#[test]
fn test_prefab_data() {
    let prefab_data = r#"{name = "meow"}"#;
    let prefab_data_evil = r#"{name = "me\"ow}"}"#;

    assert_eq!(
        parse_prefab_data(prefab_data.as_bytes(), 0).map(|r| r.0),
        Ok(prefab_data.as_bytes())
    );
    assert_eq!(
        parse_prefab_data(prefab_data_evil.as_bytes(), 0).map(|r| r.0),
        Ok(prefab_data_evil.as_bytes())
    );
}

#[test]
fn test_parse_prefab() {
    let prefab_path_only = r#"/turf/open/space/basic,"#;
    let prefab_with_vars = r#"/turf/open/space/basic{name = "meow"},"#;
    let attack_prefab = r#"/turf/open/space/basic{name = "meo\"w}"},"#;

    assert_eq!(
        parse_prefab(prefab_path_only.as_bytes(), 0).map(|r| r.0),
        Ok(bare("/turf/open/space/basic"))
    );
    assert_eq!(
        parse_prefab(prefab_with_vars.as_bytes(), 0).map(|r| r.0),
        Ok(with_vars(
            "/turf/open/space/basic",
            vec![("name", string("meow"))]
        ))
    );
    assert_eq!(
        parse_prefab(attack_prefab.as_bytes(), 0).map(|r| r.0),
        Ok(with_vars(
            "/turf/open/space/basic",
            vec![("name", string(r#"meo\"w}"#))]
        ))
    );
}

#[test]
fn prefabs_test_prefab_line() {
    let prefab_line = r#""aaa" = (/turf/open/space/basic,/area/space)"#;
    let complicated_prefab_line = r#""aar" = (/mob/living/basic/bot/cleanbot/autopatrol,/obj/structure/disposalpipe/segment{dir = 4},/obj/effect/turf_decal/tile/neutral,/turf/open/floor/iron,/area/station/hallway/primary/central)"#;

    assert_eq!(
        parse_prefab_line(prefab_line.as_bytes(), 0).map(|r| r.0),
        Ok((
            "aaa".as_bytes(),
            vec![bare("/turf/open/space/basic"), bare("/area/space"),]
        ))
    );

    let (line, end) = parse_prefab_line(complicated_prefab_line.as_bytes(), 0).unwrap();
    assert_eq!(end, complicated_prefab_line.len());
    assert_eq!(
        line,
        (
            "aar".as_bytes(),
            vec![
                bare("/mob/living/basic/bot/cleanbot/autopatrol"),
                with_vars(
                    "/obj/structure/disposalpipe/segment",
                    vec![("dir", number("4"))]
                ),
                bare("/obj/effect/turf_decal/tile/neutral"),
                bare("/turf/open/floor/iron"),
                bare("/area/station/hallway/primary/central")
            ]
        )
    );
    assert_eq!(spelled(&line.1[1].1.as_ref().unwrap()[0].1), 4.);
}

fn pieces(v: &[&'static str]) -> Vec<&'static [u8]> {
    v.iter().map(|s| s.as_bytes()).collect()
}

#[test]
fn test_prefab_var_separation() {
    let variables_dmm = r#"{dir = 10; network = list("Nadzedha Wall Colony")}"#;
    let variables_tgm = r#"{
    dir = 10;
    network = list("Nadzedha Wall Colony")
    }"#;
    assert_eq!(
        separate_var_list(variables_dmm.as_bytes(), 0).map(|r| r.0),
        Ok(pieces(&[
            "dir = 10",
            "network = list(\"Nadzedha Wall Colony\")"
        ]))
    );
    assert_eq!(
        separate_var_list(variables_tgm.as_bytes(), 0).map(|r| r.0),
        Ok(pieces(&[
            "dir = 10",
            "network = list(\"Nadzedha Wall Colony\")"
        ]))
    );

    let cursed_test_case =
        r#"{dir = 10; network = list(a = "\";meower\"", b = "mro;wl", c = "me}o;w")}"#;

    assert_eq!(
        separate_var_list(cursed_test_case.as_bytes(), 0).map(|r| r.0),
        Ok(pieces(&[
            "dir = 10",
            r#"network = list(a = "\";meower\"", b = "mro;wl", c = "me}o;w")"#
        ]))
    )
}

#[test]
fn test_identifier() {
    let valid_identifier = "abc1 = ";
    let bad_identifier = "bc~ = ";

    assert_eq!(
        parse_var_list_key(valid_identifier.as_bytes(), 0).map(|r| r.0),
        Ok("abc1".as_bytes())
    );

    if let Ok(r) = parse_var_list_key(bad_identifier.as_bytes(), 0) {
        panic!("Bad identifier produced {r:?}")
    }
}

#[test]
fn test_parse_literal() {
    let string_literal = r#""me\"ow""#;
    assert_eq!(
        parse_literal(string_literal.as_bytes(), 0).map(|r| r.0),
        Ok(string(r#"me\"ow"#))
    );

    let list_of_strings = r#"list("meow", "meow2")"#;
    assert_eq!(
        parse_literal(list_of_strings.as_bytes(), 0).map(|r| r.0),
        Ok(Literal::List(vec![string("meow"), string("meow2")]))
    );

    let assoc_list = r#"list("meow"="meow2")"#;
    assert_eq!(
        parse_literal(assoc_list.as_bytes(), 0).map(|r| r.0),
        Ok(Literal::AssocList(vec![(string("meow"), string("meow2"))]))
    );

    let float = parse_literal(b"1.4", 0).unwrap().0;
    let fake_float = parse_literal(b"1", 0).unwrap().0;
    let scary_float = parse_literal(b"1e3", 0).unwrap().0;
    assert_eq!(float, number("1.4"));
    assert_eq!(spelled(&float), 1.4);
    assert_eq!(fake_float, number("1"));
    assert_eq!(spelled(&fake_float), 1.);
    assert_eq!(scary_float, number("1e3"));
    assert_eq!(spelled(&scary_float), 1e3);

    assert_eq!(
        parse_literal(b"/obj/item", 0).map(|r| r.0),
        Ok(path("/obj/item"))
    );
    assert_eq!(
        parse_literal(b"obj/item", 0).map(|r| r.0),
        Ok(fallback("obj/item"))
    );

    let file_literal = r#"'icons/meow/me\'ow.png'"#;
    assert_eq!(
        parse_literal(file_literal.as_bytes(), 0).map(|r| r.0),
        Ok(file(r#"icons/meow/me\'ow.png"#))
    );
}

#[test]
fn test_parse_bare_list_key() {
    let evil_key = r#"aaa = 2"#;
    let (key, end) = parse_bare_list_key(evil_key.as_bytes(), 0).unwrap();
    assert_eq!(key, fallback("aaa"));
    assert_eq!(&evil_key[end..], " = 2");

    let evil_list = "list(aaa = 2)";
    let list = parse_literal_list(evil_list.as_bytes(), 0).unwrap().0;
    assert_eq!(
        list,
        Literal::AssocList(vec![(fallback("aaa"), number("2"))])
    );
    match &list {
        Literal::AssocList(pairs) => assert_eq!(spelled(&pairs[0].1), 2.),
        other => panic!("no associative list: {:?}", other),
    }
}

#[test]
fn test_parse_var_list_full() {
    let omega_list = r#"{icon = 'icons/\'obj/crate.dmi'; name = "\"funny\" girl"; req_access = list(1, 2); req_one_access = list("meow" = 2, aaaa = 4); pixel_x = -7; spawns = /obj/item/meower; haha = 4e4; death = null; invalid = gmddmf}"#;

    let vars = parse_var_list(omega_list.as_bytes(), 0).unwrap().0;
    let expected: Vec<(&[u8], Literal)> = vec![
        ("icon".as_bytes(), file(r#"icons/\'obj/crate.dmi"#)),
        ("name".as_bytes(), string(r#"\"funny\" girl"#)),
        (
            "req_access".as_bytes(),
            Literal::List(vec![number("1"), number("2")]),
        ),
        (
            "req_one_access".as_bytes(),
            Literal::AssocList(vec![
                (string("meow"), number("2")),
                (fallback("aaaa"), number("4")),
            ]),
        ),
        ("pixel_x".as_bytes(), number("-7")),
        ("spawns".as_bytes(), path("/obj/item/meower")),
        ("haha".as_bytes(), number("4e4")),
        ("death".as_bytes(), Literal::Null),
        ("invalid".as_bytes(), fallback("gmddmf")),
    ];
    assert_eq!(vars, expected);
    assert_eq!(spelled(&vars[4].1), -7.);
    assert_eq!(spelled(&vars[6].1), 4e4);
    match &vars[2].1 {
        Literal::List(items) => {
            assert_eq!(spelled(&items[0]), 1.);
            assert_eq!(spelled(&items[1]), 2.);
        }
        other => panic!("no list: {:?}", other),
    }
}

#[test]
fn test_weird_error_from_virgo() {
    let list = r#""ii" = (
/obj/machinery/vending/engivend{
	products = list(/obj/item/device/geiger = 4, /obj/item/clothing/glasses/meson = 2);
	req_access = list(301);
	req_log_access = 301
	},
/turf/simulated/floor/tiled/techfloor/grid,
/area/talon_v2/engineering/star_store)"#;

    let ((key, prefabs), _) = parse_prefab_line(list.as_bytes(), 0).unwrap();
    assert_eq!(key, "ii".as_bytes());
    assert_eq!(
        prefabs,
        vec![
            with_vars(
                "/obj/machinery/vending/engivend",
                vec![
                    (
                        "products",
                        Literal::AssocList(vec![
                            (path("/obj/item/device/geiger"), number("4")),
                            (path("/obj/item/clothing/glasses/meson"), number("2"))
                        ])
                    ),
                    ("req_access", Literal::List(vec![number("301")])),
                    ("req_log_access", number("301"))
                ]
            ),
            bare("/turf/simulated/floor/tiled/techfloor/grid"),
            bare("/area/talon_v2/engineering/star_store"),
        ]
    );
    assert_eq!(spelled(&prefabs[0].1.as_ref().unwrap()[2].1), 301.);
}

#[test]
fn test_empty_list() {
    let list = r#""bd" = (
/obj/structure/closet/secure_closet/guncabinet/sidearm{
	anchored = 1;
	starts_with = list()
	})"#;
    let ((key, prefabs), _) = parse_prefab_line(list.as_bytes(), 0).unwrap();

    assert_eq!(key, "bd".as_bytes());
    assert_eq!(
        prefabs,
        vec![with_vars(
            "/obj/structure/closet/secure_closet/guncabinet/sidearm",
            vec![
                ("anchored", number("1")),
                ("starts_with", Literal::List(vec![]))
            ]
        )]
    );
    assert_eq!(spelled(&prefabs[0].1.as_ref().unwrap()[0].1), 1.);
}

#[test]
fn identifier_starts_with_letter_or_underscore() {
    assert_eq!(parse_identifier(b"_a1 x", 0), Ok((&b"_a1"[..], 3)));
    assert!(parse_identifier(b"1a", 0).is_err());
    assert!(parse_identifier(b"", 0).is_err());
}

#[test]
fn string_and_file_need_their_closing_quote() {
    assert!(parse_literal_string(b"\"abc", 0).is_err());
    assert!(parse_literal_string(b"\"abc\\\"", 0).is_err());
    assert_eq!(parse_literal_string(b"\"\"x", 0), Ok((&b""[..], 2)));
    assert!(parse_literal_file(b"'abc", 0).is_err());
    assert_eq!(parse_literal_file(b"'a\"b'", 0), Ok((&b"a\"b"[..], 5)));
}

#[test]
fn numbers_follow_the_float_grammar() {
    let ok = |t: &'static str, n: usize| {
        assert_eq!(
            parse_literal_number(t.as_bytes(), 0),
            Ok((&t.as_bytes()[..n], n)),
            "{}",
            t
        )
    };
    ok("1", 1);
    ok("-7", 2);
    ok("+7.5x", 4);
    ok("1.", 2);
    ok(".5", 2);
    ok("1.5e-3,", 6);
    ok("123K-01", 3);
    ok("nan", 3);
    ok("NaN", 3);
    ok("inf", 3);
    ok("-Infinity", 9);
    ok("+INFx", 4);
    ok("infinit", 3);
    for bad in ["", ".", "-", "+.", "abc", "e5", "+nan", "na"] {
        let e = parse_literal_number(bad.as_bytes(), 0).unwrap_err();
        assert!(!e.cut, "{}", bad);
    }
    for cut in ["1e", "1e+", "2.5Ex", ".5e-"] {
        let e = parse_literal_number(cut.as_bytes(), 0).unwrap_err();
        assert!(e.cut, "{}", cut);
    }
}

#[test]
fn literal_takes_a_bare_word_as_fallback_and_reads_it() {
    assert_eq!(
        parse_literal(b"x = gmddmf", 4),
        Ok((fallback("gmddmf"), 10))
    );
    assert_eq!(parse_literal(b"abc, d", 0), Ok((fallback("abc"), 3)));
    assert_eq!(parse_literal(b"a.c)d", 0), Ok((fallback("a.c"), 3)));
    assert_eq!(parse_literal(b"a{=b", 0), Ok((fallback("a{"), 2)));
    assert_eq!(parse_literal(b"a\nb c", 0), Ok((fallback("a\nb"), 3)));
    assert_eq!(parse_literal(b"a\tb", 0), Ok((fallback("a"), 1)));
    assert_eq!(parse_literal(b", x", 0), Ok((fallback(""), 0)));
    assert_eq!(parse_literal(b"", 0), Ok((fallback(""), 0)));
    assert_eq!(parse_literal(b"ab", 7), Ok((fallback(""), 7)));
    assert_eq!(parse_literal(b"nullx", 0), Ok((Literal::Null, 4)));
    let e = parse_literal(b"1e", 0).unwrap_err();
    assert!(e.cut);
}

#[test]
fn unclosed_block_of_variables_cuts_the_parse() {
    let e = separate_var_list(b"{a = 1; b = \"x", 0).unwrap_err();
    assert!(e.cut);
    let e = parse_prefab(b"/obj/x{a = 1", 0).unwrap_err();
    assert!(e.cut);
    let e = separate_var_list(b"a = 1}", 0).unwrap_err();
    assert!(!e.cut);
}

#[test]
fn unterminated_string_drops_its_piece() {
    let text = b"{a = \"open\n b = 2; c = 3}";
    assert_eq!(
        separate_var_list(text, 0).map(|r| r.0),
        Ok(pieces(&["b = 2", "c = 3"]))
    );
}

#[test]
fn unterminated_strings_are_listed_by_their_opening_quote() {
    let text = b"{a = \"open\n b = 2; c = \"x\n d = \"fine\"}";
    assert_eq!(unterminated_strings(text, 0), vec![5, 23]);
    assert_eq!(
        separate_var_list(text, 0).map(|r| r.0),
        Ok(pieces(&["b = 2", "d = \"fine\""]))
    );
    assert_eq!(unterminated_strings(b"{a = \"x\"; b = 1}", 0), Vec::<usize>::new());
    assert_eq!(unterminated_strings(b"a = \"x\n", 0), Vec::<usize>::new());
    assert_eq!(unterminated_strings(b"{a = \"\\\"\n", 0), vec![5]);
}

#[test]
fn failures_say_where_they_were_noticed() {
    let at = |cut, at| SyntaxError { cut, at };
    assert_eq!(parse_key(b"\"abc\" =(", 0).unwrap_err(), at(false, 7));
    assert_eq!(parse_key(b"\"abc = (", 0).unwrap_err(), at(false, 4));
    assert_eq!(parse_key(b"abc", 0).unwrap_err(), at(false, 0));
    assert_eq!(parse_path(b"obj", 0).unwrap_err(), at(false, 0));
    assert_eq!(parse_literal_string(b"\"abc", 0).unwrap_err(), at(false, 4));
    assert_eq!(parse_literal_number(b"-x", 0).unwrap_err(), at(false, 1));
    assert_eq!(parse_literal_number(b"1e+x", 0).unwrap_err(), at(true, 3));
    assert_eq!(parse_literal_list(b"list(1; 2)", 0).unwrap_err(), at(false, 6));
    assert_eq!(parse_var_list_key(b"abc= 1", 0).unwrap_err(), at(false, 3));
    assert_eq!(separate_var_list(b"{a = 1", 0).unwrap_err(), at(true, 6));
    assert_eq!(parse_var_list(b"{a = 1; 2 = 3}x", 0).unwrap_err(), at(false, 14));
    assert_eq!(parse_prefab_line(b"\"a\" = (/obj/x,/turf/y", 0).unwrap_err(), at(false, 21));
    assert_eq!(parse_prefab_line(b"\"a\" = (x)", 0).unwrap_err(), at(false, 7));
    assert_eq!(parse_prefab_data(b"{abc", 0).unwrap_err(), at(false, 4));
}

#[test]
fn empty_pieces_are_left_out() {
    assert_eq!(separate_var_list(b"{}", 0), Ok((vec![], 2)));
    assert_eq!(separate_var_list(b"{ }", 0), Ok((vec![], 3)));
    assert_eq!(
        separate_var_list(b"{a = 1;; b = 2;}", 0).map(|r| r.0),
        Ok(pieces(&["a = 1", "b = 2"]))
    );
}

#[test]
fn prefab_with_unreadable_block_keeps_its_path() {
    assert_eq!(
        parse_prefab(b"/obj/x{1 = 2}", 0),
        Ok((bare("/obj/x"), 6))
    );
    assert!(parse_prefab_line(b"\"a\" = (/obj/x{1 = 2})", 0).is_err());
}

#[test]
fn plain_list_after_failed_associative_list() {
    assert_eq!(
        parse_literal_list(b"list(1, 2)", 0).map(|r| r.0),
        Ok(Literal::List(vec![number("1"), number("2")]))
    );
    assert_eq!(
        parse_literal_list(b"list(\"a\"=1, b=2)", 0).map(|r| r.0),
        Ok(Literal::AssocList(vec![
            (string("a"), number("1")),
            (fallback("b"), number("2"))
        ]))
    );
    assert!(parse_literal_list(b"list(a b)", 0).is_err());
    assert_eq!(
        parse_literal(b"list(a b)", 0),
        Ok((fallback("list(a"), 6))
    );
    assert_eq!(
        parse_literal_list(b"list(a, b)", 0),
        Ok((Literal::List(vec![fallback("a"), fallback("b")]), 10))
    );
    assert_eq!(
        parse_literal_list(b"list(a)", 0),
        Ok((Literal::List(vec![fallback("a")]), 7))
    );
    assert_eq!(
        parse_literal_list(b"list(/obj/x, null, 'f')", 0),
        Ok((Literal::List(vec![Literal::Path(b"/obj/x"), Literal::Null, Literal::File(b"f")]), 23))
    );
    assert_eq!(
        parse_literal_list(b"list(a = b, c = d)x", 0),
        Ok((
            Literal::AssocList(vec![
                (fallback("a"), fallback("b")),
                (fallback("c"), fallback("d"))
            ]),
            18
        ))
    );
    assert_eq!(
        parse_literal_list(b"list(list(1, 2), list(a = 1))", 0),
        Ok((
            Literal::List(vec![
                Literal::List(vec![number("1"), number("2")]),
                Literal::AssocList(vec![(fallback("a"), number("1"))])
            ]),
            29
        ))
    );
    assert_eq!(parse_literal_list(b"list()", 0), Ok((Literal::List(vec![]), 6)));
    assert_eq!(parse_literal_list(b"list()x", 0), Ok((Literal::List(vec![]), 6)));
    assert!(parse_literal_list(b"lis(1)", 0).is_err());
}

#[test]
fn parsing_at_an_offset_is_parsing_the_rest() {
    let text = "xx\"ab\" = (/obj/x{a = list(1, \"b\" = 2); c = 'f'; d = 1e5; e = zz},\n/turf/y,/area/z)yy list(1, 2) {a = \"x\ny = 2; z = 3}";
    let bytes = text.as_bytes();
    for start in 0..=bytes.len() {
        let rest = &bytes[start..];
        let moved = |e: SyntaxError| SyntaxError { cut: e.cut, at: e.at + start };
        assert_eq!(
            parse_prefab_line(bytes, start),
            parse_prefab_line(rest, 0)
                .map(|(v, end)| (v, end + start))
                .map_err(moved)
        );
        assert_eq!(
            parse_prefab(bytes, start),
            parse_prefab(rest, 0)
                .map(|(v, end)| (v, end + start))
                .map_err(moved)
        );
        assert_eq!(
            parse_literal(bytes, start),
            parse_literal(rest, 0)
                .map(|(v, end)| (v, end + start))
                .map_err(moved)
        );
        assert_eq!(
            parse_var_list(bytes, start),
            parse_var_list(rest, 0)
                .map(|(v, end)| (v, end + start))
                .map_err(moved)
        );
        assert_eq!(
            separate_var_list(bytes, start),
            separate_var_list(rest, 0)
                .map(|(v, end)| (v, end + start))
                .map_err(moved)
        );
        assert_eq!(
            unterminated_strings(bytes, start),
            unterminated_strings(rest, 0)
                .into_iter()
                .map(|at| at + start)
                .collect::<Vec<_>>()
        );
    }
    assert_eq!(unterminated_strings(bytes, text.find("{a = \"x").unwrap()).len(), 1);
}

#[test]
fn the_first_key_decides_the_dialect_wherever_it_stands() {
    let header =
        "//MAP CONVERTED BY dmm2tgm.py THIS HEADER COMMENT PREVENTS RECONVERSION, DO NOT REMOVE";
    let tabular = format!("{header}\n\"a\" = (\n/turf/x,\n/area/y)\n");
    assert!(detect_tgm(tabular.as_bytes()));
    let dense = format!("{header}\n\"a\" = (/turf/x,/area/y)\n\"b\" = (\n/turf/x)\n");
    assert!(!detect_tgm(dense.as_bytes()));
    assert!(detect_tgm(b"\n\n\"a\" = (\r\n/turf/x)"));
    assert!(detect_tgm(b"// a note\n\n\"abc\" = (\n/turf/x)"));
    assert!(!detect_tgm(b"// a note\n\n\"abc\" = (/turf/x)\n\"abd\" = (\n/turf/x)"));
    assert!(detect_tgm(b"\"a1\" = (/turf/x)\n\"b\" = (\n/turf/x)"));
    assert!(!detect_tgm(b""));
    assert!(!detect_tgm(b"(1,1,1) = {\"\na\n\"}"));
    assert!(!detect_tgm(b"\"a\" = ("));
    assert!(!detect_tgm(b"\"a\" = (\r"));

    let both = b"\"a\" = (/turf/x)\n\"b\" = (\n/turf/x)";
    assert!(!detect_tgm_from(both, 0));
    assert!(detect_tgm_from(both, 1));
    assert!(detect_tgm_from(both, 15));
    assert!(detect_tgm_from(both, 16));
    assert!(!detect_tgm_from(both, 17));
    assert!(!detect_tgm_from(both, 1000));
}

#[test]
fn white_space_may_stand_between_prefabs() {
    let expected: Vec<Prefab> = vec![(b"/t", None), (b"/a", None)];
    for text in [
        "\"a\" = (/t,/a)",
        "\"a\" = (/t, /a)",
        "\"a\" = (/t,\n/a)",
        "\"a\" = (/t,\r\n\t/a)",
        "\"a\" = (/t ,  /a )",
        "\"a\" = (/t,/a,)",
        "\"a\" = (/t,/a,\n)",
        "\"a\" = ( /t,/a)",
    ] {
        let (line, end) = parse_prefab_line(text.as_bytes(), 0).unwrap();
        assert_eq!(line, (&b"a"[..], expected.clone()), "{}", text);
        assert_eq!(end, text.len(), "{}", text);
    }
    assert!(parse_prefab_line(b"\"a\" = (/t,,/a)", 0).is_err());
    assert!(parse_prefab_line(b"\"a\" = (/t;/a)", 0).is_err());
}

#[test]
fn a_bare_list_key_is_an_identifier_before_a_blank_or_an_equals_sign() {
    assert_eq!(parse_bare_list_key(b"my_key = 1", 0), Ok((fallback("my_key"), 6)));
    assert_eq!(parse_bare_list_key(b"_k2=1", 0), Ok((fallback("_k2"), 3)));
    assert_eq!(parse_bare_list_key(b"k\t= 1", 0), Ok((fallback("k"), 1)));
    assert!(parse_bare_list_key(b"2k = 1", 0).is_err());
    assert!(parse_bare_list_key(b" = 1", 0).is_err());
    assert!(parse_bare_list_key(b"k, 1", 0).is_err());
    assert!(parse_bare_list_key(b"k", 0).is_err());
    assert_eq!(
        parse_literal_list(b"list(my_key = 1)", 0),
        Ok((Literal::AssocList(vec![(fallback("my_key"), number("1"))]), 16))
    );
}

#[test]
fn open_strings_of_a_line_are_listed_block_by_block() {
    let text = b"xx\"a\" = (/obj/o{n = \"open\n m = 1},/obj/p,\n/turf/t{d = 2; e = \"x\n},/area/a)";
    assert!(parse_prefab_line(text, 2).is_ok());
    assert_eq!(line_open_strings(text, 2), vec![20, 61]);
    assert_eq!(text[20], b'"');
    assert_eq!(text[61], b'"');
    assert_eq!(line_open_strings(text, 0), Vec::<usize>::new());
    assert_eq!(line_open_strings(text, 1000), Vec::<usize>::new());
    assert_eq!(
        line_open_strings(b"\"a\" = (/obj/o{n = \"shut\"; m = 1},/area/a)", 0),
        Vec::<usize>::new()
    );

    let two = b"\"a\" = (/obj/o{n = \"open\n})\n\"b\" = (/t)\n\"c\" = (/obj/o{n = \"open\n})\n";
    assert_eq!(map_open_strings(two, &vec![0, 27, 38]), vec![18, 56]);
    assert_eq!(map_open_strings(two, &vec![38, 0]), vec![56, 18]);
    assert_eq!(map_open_strings(two, &vec![]), Vec::<usize>::new());
}
