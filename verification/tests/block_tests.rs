use dmm_lite::scan::SyntaxError;
use dmm_lite::block::{map_characters, parse_block, parse_coords, parse_dec_uint, parse_map_lines};

fn rows(v: &[&'static str]) -> Vec<&'static [u8]> {
    v.iter().map(|s| s.as_bytes()).collect()
}

#[test]
fn test_parse_coords() {
    let coords = "(1,2,3)";
    let bigger_coords = "(100,241,2)";

    assert_eq!(parse_coords(coords.as_bytes(), 0), Ok(((1, 2, 3), 7)));
    assert_eq!(
        parse_coords(bigger_coords.as_bytes(), 0).map(|r| r.0),
        Ok((100, 241, 2))
    );
}

#[test]
fn test_parse_map_lines() {
    let map_lines = "{\"aaaaabaac\naabaacaaa\naacaabaaa\"}";

    assert_eq!(
        parse_map_lines(map_lines.as_bytes(), 0).map(|r| r.0),
        Ok(rows(&["aaaaabaac", "aabaacaaa", "aacaabaaa"]))
    );
}

#[test]
fn test_parse_block() {
    let block = "(1,1,1) = {\"aaaaabaac\naabaacaaa\"}";
    let tgm_block = "(1,1,1) = {\"\naaa\naab\naac\naab\naac\naaa\"}";

    assert_eq!(
        parse_block(block.as_bytes(), 0).map(|r| r.0),
        Ok(((1, 1, 1), rows(&["aaaaabaac", "aabaacaaa"])))
    );
    assert_eq!(
        parse_block(tgm_block.as_bytes(), 0).map(|r| r.0),
        Ok(((1, 1, 1), rows(&["aaa", "aab", "aac", "aab", "aac", "aaa"])))
    );
}

#[test]
fn block_ends_behind_closing_brace() {
    let text = b"xx(1,1,1) = {\"ab\r\ncd\r\n\"}rest";
    let (block, end) = parse_block(text, 2).unwrap();
    assert_eq!(block, ((1, 1, 1), rows(&["ab", "cd"])));
    assert_eq!(&text[end..], b"rest");
}

#[test]
fn block_without_rows_fails() {
    assert!(parse_block(b"(1,1,1) = {\"\"}", 0).is_err());
    assert!(parse_block(b"(1,1,1) = {\"a1\"}", 0).is_err());
    assert!(parse_block(b"(1,1,1) = {\"ab\"", 0).is_err());
    assert!(parse_block(b"(1,1,1) {\"ab\"}", 0).is_err());
}

#[test]
fn dec_uint_takes_a_lone_zero() {
    assert_eq!(parse_dec_uint(b"007", 0), Ok((0, 1)));
    assert_eq!(parse_dec_uint(b"70x", 0), Ok((70, 2)));
    assert!(parse_dec_uint(b"x", 0).is_err());
    assert!(parse_dec_uint(b"", 0).is_err());
    assert!(parse_dec_uint(b"12", 5).is_err());
}

#[test]
fn dec_uint_rejects_what_no_usize_holds() {
    let max = usize::MAX.to_string();
    assert_eq!(
        parse_dec_uint(max.as_bytes(), 0),
        Ok((usize::MAX, max.len()))
    );
    let over = format!("{}0", max);
    let e = parse_dec_uint(over.as_bytes(), 0).unwrap_err();
    assert!(!e.cut);
    let next = "18446744073709551616";
    if usize::MAX as u128 == u64::MAX as u128 {
        assert!(parse_dec_uint(next.as_bytes(), 0).is_err());
    }
}

#[test]
fn coords_reject_leading_zero_and_blanks() {
    assert!(parse_coords(b"(01,2,3)", 0).is_err());
    assert!(parse_coords(b"(1, 2,3)", 0).is_err());
    assert!(parse_coords(b"(1,2,3", 0).is_err());
    assert_eq!(parse_coords(b"(0,0,0)", 0), Ok(((0, 0, 0), 7)));
}

#[test]
fn map_characters_takes_letters_only() {
    assert_eq!(map_characters(b"abC1", 0), Ok((&b"abC"[..], 3)));
    assert!(map_characters(b"1abc", 0).is_err());
    assert!(map_characters(b"abc", 3).is_err());
}

#[test]
fn block_failures_say_where_they_were_noticed() {
    let at = |at| SyntaxError { cut: false, at };
    assert_eq!(parse_coords(b"(1,x,3)", 0).unwrap_err(), at(3));
    assert_eq!(parse_coords(b"(1;2,3)", 0).unwrap_err(), at(2));
    assert_eq!(parse_coords(b"1,2,3)", 0).unwrap_err(), at(0));
    assert_eq!(parse_dec_uint(b"99999999999999999999999999", 0).unwrap_err(), at(0));
    assert_eq!(parse_map_lines(b"{\"ab\ncd", 0).unwrap_err(), at(7));
    assert_eq!(parse_map_lines(b"{\"\n1\"}", 0).unwrap_err(), at(3));
    assert_eq!(parse_block(b"(1,1,1) : {\"a\"}", 0).unwrap_err(), at(8));
    assert_eq!(parse_block(b"(1,1,1) = [\"a\"]", 0).unwrap_err(), at(10));
}
