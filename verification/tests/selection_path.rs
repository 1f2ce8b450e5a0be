use nonogram::selection::SelectionPath;

fn collect(mut path: SelectionPath) -> Vec<(i32, i32)> {
    let mut cells = Vec::new();
    while let Some(cell) = path.next() {
        cells.push(cell);
    }
    cells
}

#[test]
fn path_walks_longer_axis_first() {
    // start (0,0), end (4,3): length 1 + 4 + 3 = 8, first leg along axis 0
    let path = SelectionPath::new((0, 0), (4, 3));
    assert_eq!(path.len(), 8);
    assert_eq!(
        collect(path),
        vec![
            (0, 0),
            (1, 0),
            (2, 0),
            (3, 0),
            (4, 0),
            (4, 1),
            (4, 2),
            (4, 3)
        ]
    );
}

#[test]
fn path_reversed_bends_at_the_other_corner() {
    let path = SelectionPath::new((4, 3), (0, 0));
    assert_eq!(path.len(), 8);
    assert_eq!(
        collect(path),
        vec![
            (4, 3),
            (3, 3),
            (2, 3),
            (1, 3),
            (0, 3),
            (0, 2),
            (0, 1),
            (0, 0)
        ]
    );
}

#[test]
fn degenerate_path_yields_one_cell() {
    let mut path = SelectionPath::new((5, 5), (5, 5));
    assert_eq!(path.len(), 1);
    assert_eq!(path.next(), Some((5, 5)));
    assert_eq!(path.next(), None);
}

#[test]
fn tie_walks_axis_zero_first() {
    let path = SelectionPath::new((0, 0), (2, 2));
    assert_eq!(collect(path), vec![(0, 0), (1, 0), (2, 0), (2, 1), (2, 2)]);
}

#[test]
fn second_axis_first_when_it_is_longer() {
    let path = SelectionPath::new((1, 1), (2, 4));
    assert_eq!(collect(path), vec![(1, 1), (1, 2), (1, 3), (1, 4), (2, 4)]);
}

#[test]
fn straight_path_reverses_exactly() {
    let forward = collect(SelectionPath::new((2, 1), (2, 4)));
    let mut backward = collect(SelectionPath::new((2, 4), (2, 1)));
    backward.reverse();
    assert_eq!(forward, backward);
    let forward = collect(SelectionPath::new((7, 3), (1, 3)));
    let mut backward = collect(SelectionPath::new((1, 3), (7, 3)));
    backward.reverse();
    assert_eq!(forward, backward);
}

#[test]
fn negative_coordinates_are_walked_exactly() {
    let path = SelectionPath::new((-1, -2), (-3, -1));
    assert_eq!(path.len(), 4);
    assert_eq!(collect(path), vec![(-1, -2), (-2, -2), (-3, -2), (-3, -1)]);
}
