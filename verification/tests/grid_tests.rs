use dmm_lite::grid::{separate_turfs, Grid, GridError, Rotation};

fn rows(v: &[&'static str]) -> Vec<&'static [u8]> {
    v.iter().map(|s| s.as_bytes()).collect()
}

fn cells(v: Vec<((usize, usize, usize), &'static str)>) -> Vec<((usize, usize, usize), &'static [u8])> {
    v.into_iter().map(|(at, key)| (at, key.as_bytes())).collect()
}

#[test]
fn test_tgm() {
    /* a
     * b
     * c
     */
    let grid = Grid::new((1, 1, 1), 1, &rows(&["a", "b", "c"])).unwrap();

    assert_eq!(
        grid.rotate(Rotation::Zero),
        cells(vec![((1, 3, 1), "a"), ((1, 2, 1), "b"), ((1, 1, 1), "c")])
    );

    assert_eq!(
        grid.rotate(Rotation::OneEighty),
        cells(vec![((1, 3, 1), "c"), ((1, 2, 1), "b"), ((1, 1, 1), "a")])
    );

    assert_eq!(
        grid.rotate(Rotation::Ninety),
        cells(vec![((1, 1, 1), "a"), ((2, 1, 1), "b"), ((3, 1, 1), "c")])
    );

    assert_eq!(
        grid.rotate(Rotation::TwoSeventy),
        cells(vec![((1, 1, 1), "c"), ((2, 1, 1), "b"), ((3, 1, 1), "a")])
    )
}

#[test]
fn test_iteration_order() {
    let map = rows(&["abc", "def", "ghi"]);
    let grid = Grid::new((1, 1, 1), 1, &map).unwrap();

    assert_eq!(
        grid.rotate(Rotation::Zero),
        cells(vec![
            ((1, 3, 1), "a"),
            ((2, 3, 1), "b"),
            ((3, 3, 1), "c"),
            ((1, 2, 1), "d"),
            ((2, 2, 1), "e"),
            ((3, 2, 1), "f"),
            ((1, 1, 1), "g"),
            ((2, 1, 1), "h"),
            ((3, 1, 1), "i"),
        ])
    );

    assert_eq!(
        grid.rotate(Rotation::OneEighty),
        cells(vec![
            ((1, 3, 1), "i"),
            ((2, 3, 1), "h"),
            ((3, 3, 1), "g"),
            ((1, 2, 1), "f"),
            ((2, 2, 1), "e"),
            ((3, 2, 1), "d"),
            ((1, 1, 1), "c"),
            ((2, 1, 1), "b"),
            ((3, 1, 1), "a"),
        ])
    );

    assert_eq!(
        grid.rotate(Rotation::Ninety),
        cells(vec![
            ((1, 3, 1), "c"),
            ((2, 3, 1), "f"),
            ((3, 3, 1), "i"),
            ((1, 2, 1), "b"),
            ((2, 2, 1), "e"),
            ((3, 2, 1), "h"),
            ((1, 1, 1), "a"),
            ((2, 1, 1), "d"),
            ((3, 1, 1), "g"),
        ])
    );

    assert_eq!(
        grid.rotate(Rotation::TwoSeventy),
        cells(vec![
            ((1, 3, 1), "g"),
            ((2, 3, 1), "d"),
            ((3, 3, 1), "a"),
            ((1, 2, 1), "h"),
            ((2, 2, 1), "e"),
            ((3, 2, 1), "b"),
            ((1, 1, 1), "i"),
            ((2, 1, 1), "f"),
            ((3, 1, 1), "c"),
        ])
    );
}

#[test]
fn wide_grid_with_long_keys() {
    let grid = Grid::new((5, 7, 2), 2, &rows(&["aabbcc", "ddeeff"])).unwrap();
    assert_eq!(
        grid.rotate(Rotation::Zero),
        cells(vec![
            ((5, 8, 2), "aa"),
            ((6, 8, 2), "bb"),
            ((7, 8, 2), "cc"),
            ((5, 7, 2), "dd"),
            ((6, 7, 2), "ee"),
            ((7, 7, 2), "ff"),
        ])
    );
    assert_eq!(
        grid.rotate(Rotation::Ninety),
        cells(vec![
            ((5, 9, 2), "cc"),
            ((6, 9, 2), "ff"),
            ((5, 8, 2), "bb"),
            ((6, 8, 2), "ee"),
            ((5, 7, 2), "aa"),
            ((6, 7, 2), "dd"),
        ])
    );
    assert_eq!(
        grid.rotate(Rotation::TwoSeventy),
        cells(vec![
            ((5, 9, 2), "dd"),
            ((6, 9, 2), "aa"),
            ((5, 8, 2), "ee"),
            ((6, 8, 2), "bb"),
            ((5, 7, 2), "ff"),
            ((6, 7, 2), "cc"),
        ])
    );
}

#[test]
fn half_turn_twice_is_no_turn() {
    let grid = Grid::new((1, 1, 1), 1, &rows(&["abc", "def"])).unwrap();
    let plain = grid.rotate(Rotation::Zero);
    let turned = grid.rotate(Rotation::OneEighty);
    let n = plain.len();
    for k in 0..n {
        assert_eq!(plain[k].0, turned[k].0);
        assert_eq!(plain[k].1, turned[n - 1 - k].1);
    }
}

#[test]
fn grid_errors() {
    assert_eq!(Grid::new((1, 1, 1), 1, &[]).err(), Some(GridError::NoRows));
    assert_eq!(
        Grid::new((1, 1, 1), 0, &rows(&["a"])).err(),
        Some(GridError::NoKeyLength)
    );
    assert_eq!(
        Grid::new((1, 1, 1), 1, &rows(&["abc", "de"])).err(),
        Some(GridError::UnevenRows)
    );
    assert_eq!(
        Grid::new((usize::MAX, 1, 1), 1, &rows(&["a"])).err(),
        Some(GridError::TooLarge)
    );
    assert_eq!(
        Grid::new((1, usize::MAX - 1, 1), 1, &rows(&["ab"])).err(),
        Some(GridError::TooLarge)
    );
}

#[test]
fn rows_of_a_grid_hold_as_many_keys_as_the_first() {
    assert_eq!(
        Grid::new((1, 1, 1), 1, &rows(&["ab", "c", "def"])).err(),
        Some(GridError::UnevenRows)
    );
    assert_eq!(
        Grid::new((1, 1, 1), 2, &rows(&["aabb", "ccd"])).err(),
        None
    );
    assert_eq!(
        Grid::new((1, 1, 1), 2, &rows(&["aabb", "cc"])).err(),
        Some(GridError::UnevenRows)
    );
    let grid = Grid::new((1, 1, 1), 2, &rows(&["aabb", "ccdd"])).unwrap();
    assert_eq!(
        grid.rotate(Rotation::Zero),
        cells(vec![((1, 2, 1), "aa"), ((2, 2, 1), "bb"), ((1, 1, 1), "cc"), ((2, 1, 1), "dd")])
    );
}

#[test]
fn separate_turfs_cuts_keys() {
    assert_eq!(separate_turfs(b"aaabbbccc", 3), rows(&["aaa", "bbb", "ccc"]));
    assert_eq!(separate_turfs(b"aaabbbc", 3), rows(&["aaa", "bbb", "c"]));
    assert_eq!(separate_turfs(b"", 3), rows(&[]));
    assert_eq!(separate_turfs(b"ab", 5), rows(&["ab"]));
    assert_eq!(separate_turfs(b"abc", 1), rows(&["a", "b", "c"]));
}
