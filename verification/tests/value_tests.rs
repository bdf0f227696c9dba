use dmm_lite::literal::Literal;
use dmm_lite::prefabs::parse_var_list;
use dmm_lite::values::{convert_literal, convert_vars_list_to_byondlist, ValueOp};

#[test]
fn variable_literal_omnibus() {
    let text = r#""k" = (/o{icon = 'i.png'; name = "\"x\""; l = list(1,2); a = list("m"=2, bare=4); n = -7; p = /obj/q; e = 4e4; d = null; u = zzz})"#;
    let ((key, prefabs), _) =
        dmm_lite::prefabs::parse_prefab_line(text.as_bytes(), 0).unwrap();
    assert_eq!(key, b"k");
    assert_eq!(prefabs.len(), 1);
    assert_eq!(prefabs[0].0, b"/o");
    let vars = prefabs[0].1.as_ref().unwrap();
    let values: Vec<&Literal> = vars.iter().map(|v| &v.1).collect();
    let number = |l: &Literal| match l {
        Literal::Number(t) => std::str::from_utf8(t).unwrap().parse::<f32>().unwrap(),
        other => panic!("no number: {:?}", other),
    };
    assert_eq!(values[0], &Literal::File(b"i.png"));
    assert_eq!(values[1], &Literal::String(br#"\"x\""#));
    match values[2] {
        Literal::List(items) => {
            assert_eq!(items.len(), 2);
            assert_eq!(number(&items[0]), 1.);
            assert_eq!(number(&items[1]), 2.);
        }
        other => panic!("no list: {:?}", other),
    }
    match values[3] {
        Literal::AssocList(pairs) => {
            assert_eq!(pairs.len(), 2);
            assert_eq!(pairs[0].0, Literal::String(b"m"));
            assert_eq!(number(&pairs[0].1), 2.);
            assert_eq!(pairs[1].0, Literal::Fallback(b"bare"));
            assert_eq!(number(&pairs[1].1), 4.);
        }
        other => panic!("no associative list: {:?}", other),
    }
    assert_eq!(number(values[4]), -7.);
    assert_eq!(values[5], &Literal::Path(b"/obj/q"));
    assert_eq!(number(values[6]), 40000.);
    assert_eq!(values[7], &Literal::Null);
    assert_eq!(values[8], &Literal::Fallback(b"zzz"));
    let names: Vec<&[u8]> = vars.iter().map(|v| v.0).collect();
    let expected: Vec<&[u8]> = vec![b"icon", b"name", b"l", b"a", b"n", b"p", b"e", b"d", b"u"];
    assert_eq!(names, expected);
}

#[test]
fn plain_literals_are_one_push() {
    assert_eq!(convert_literal(b"v", &Literal::Number(b"4")), vec![ValueOp::Number(b"4")]);
    assert_eq!(convert_literal(b"v", &Literal::String(b"s")), vec![ValueOp::Text(b"s")]);
    assert_eq!(convert_literal(b"v", &Literal::Path(b"/a")), vec![ValueOp::Path(b"/a")]);
    assert_eq!(convert_literal(b"v", &Literal::File(b"f")), vec![ValueOp::File(b"f")]);
    assert_eq!(convert_literal(b"v", &Literal::Null), vec![ValueOp::Null]);
    assert_eq!(
        convert_literal(b"v", &Literal::Fallback(b"zz")),
        vec![ValueOp::Fallback { name: b"v", text: b"zz" }]
    );
}

#[test]
fn lists_are_built_item_by_item() {
    let list = Literal::List(vec![
        Literal::Number(b"1"),
        Literal::List(vec![Literal::Null]),
        Literal::Fallback(b"q"),
    ]);
    assert_eq!(
        convert_literal(b"v", &list),
        vec![
            ValueOp::NewList,
            ValueOp::Number(b"1"),
            ValueOp::Append,
            ValueOp::NewList,
            ValueOp::Null,
            ValueOp::Append,
            ValueOp::Append,
            ValueOp::Fallback { name: b"v", text: b"q" },
            ValueOp::Append,
        ]
    );
    let assoc = Literal::AssocList(vec![
        (Literal::String(b"m"), Literal::Number(b"2")),
        (Literal::Fallback(b"bare"), Literal::Path(b"/x")),
    ]);
    assert_eq!(
        convert_literal(b"v", &assoc),
        vec![
            ValueOp::NewList,
            ValueOp::Text(b"m"),
            ValueOp::Number(b"2"),
            ValueOp::Bind,
            ValueOp::Fallback { name: b"v", text: b"bare" },
            ValueOp::Path(b"/x"),
            ValueOp::Bind,
        ]
    );
    assert_eq!(convert_literal(b"v", &Literal::List(vec![])), vec![ValueOp::NewList]);
}

#[test]
fn variables_become_a_list_bound_by_name() {
    assert_eq!(convert_vars_list_to_byondlist(&None), vec![ValueOp::Null]);
    assert_eq!(convert_vars_list_to_byondlist(&Some(vec![])), vec![ValueOp::NewList]);
    let vars = parse_var_list(b"{dir = 4; name = \"x\"; odd = what}", 0).unwrap().0;
    assert_eq!(
        convert_vars_list_to_byondlist(&Some(vars)),
        vec![
            ValueOp::NewList,
            ValueOp::Text(b"dir"),
            ValueOp::Number(b"4"),
            ValueOp::Bind,
            ValueOp::Text(b"name"),
            ValueOp::Text(b"x"),
            ValueOp::Bind,
            ValueOp::Text(b"odd"),
            ValueOp::Fallback { name: b"odd", text: b"what" },
            ValueOp::Bind,
        ]
    );
}
