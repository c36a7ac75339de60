use cgol::error::LoadError;
use cgol::field::{neighbours, Field};
use cgol::game::Game;
use cgol::rule::AutomataRule;
use cgol::torus::wrap;

const BLINKER_PUFFER_2: &str = "x=17,y=25,rule=B3/S23\n\
13b3o$12b5o$11b2ob3o$12b2o3$9bobo$2bo5bo2bo$b5o3bobo$2o3b2ob2o$bo7bo$\n\
2b2o2bo2bo$10bo$2b2o2bo2bo$bo7bo$2o3b2ob2o$b5o3bobo$2bo5bo2bo$9bobo3$\n\
12b2o$11b2ob3o$12b5o$13b3o!\n";

#[test]
fn field_test_rle() {
    let s = BLINKER_PUFFER_2;
    let p = Field::from_rle(s).unwrap();
    let ss = format!("{}", Game::new(p, AutomataRule::cgol()).to_string());

    assert_eq!("\u{1b}[1;1H\u{1b}[38;5;15m\u{25ac}\u{25ac}\u{25ac}\u{25ac}\u{25ac}\u{25ac}\u{25ac}\u{25ac}\u{25ac}\u{25ac}\u{25ac}\u{25ac}\u{25ac}\u{25ac}\u{25ac}\u{25ac}\u{25ac}\n             \u{1b}[38;5;34m\u{2588}\u{2588}\u{2588} \n            \u{2588}\u{2588}\u{2588}\u{2588}\u{2588}\n           \u{2588}\u{2588} \u{2588}\u{2588}\u{2588}\n            \u{2588}\u{2588}   \n                 \n                 \n         \u{2588} \u{2588}     \n  \u{2588}     \u{2588}  \u{2588}     \n \u{2588}\u{2588}\u{2588}\u{2588}\u{2588}   \u{2588} \u{2588}     \n\u{2588}\u{2588}   \u{2588}\u{2588} \u{2588}\u{2588}       \n \u{2588}       \u{2588}       \n  \u{2588}\u{2588}  \u{2588}  \u{2588}       \n          \u{2588}      \n  \u{2588}\u{2588}  \u{2588}  \u{2588}       \n \u{2588}       \u{2588}       \n\u{2588}\u{2588}   \u{2588}\u{2588} \u{2588}\u{2588}       \n \u{2588}\u{2588}\u{2588}\u{2588}\u{2588}   \u{2588} \u{2588}     \n  \u{2588}     \u{2588}  \u{2588}     \n         \u{2588} \u{2588}     \n                 \n                 \n            \u{2588}\u{2588}   \n           \u{2588}\u{2588} \u{2588}\u{2588}\u{2588}\n            \u{2588}\u{2588}\u{2588}\u{2588}\u{2588}\n             \u{2588}\u{2588}\u{2588} \n\u{1b}[38;5;15m\u{25ac}\u{25ac}\u{25ac}\u{25ac}\u{25ac}\u{25ac}\u{25ac}\u{25ac}\u{25ac}\u{25ac}\u{25ac}\u{25ac}\u{25ac}\u{25ac}\u{25ac}\u{25ac}\u{25ac}\n0", ss);
}

#[test]
fn test_neighbours() {
    {
        let r: Vec<&[bool]> = vec!(&[true, true, true], &[false, false, false], &[true, true, true]);
        let n = neighbours(&r, 1, 1);
        assert_eq!(6, n);
    }
    {
        let r: Vec<&[bool]> = vec!(&[true, false, true], &[false, true, false], &[true, false, true]);
        let n = neighbours(&r, 1, 1);
        assert_eq!(4, n);
    }
    {
        let r: Vec<&[bool]> = vec!(&[false, false, false], &[false, true, false], &[false, false, false]);
        let n = neighbours(&r, 1, 1);
        assert_eq!(0, n);
    }
    {
        let r: Vec<&[bool]> = vec!(&[true, false, false], &[true, false, false], &[true, false, false]);
        let n = neighbours(&r, 1, 1);
        assert_eq!(3, n);
    }
    {
        let r: Vec<&[bool]> = vec!(&[true, true, true], &[true, false, true], &[false, true, false]);
        let n = neighbours(&r, 0, 0);
        assert_eq!(5, n);
    }
    {
        let r: Vec<&[bool]> = vec!(&[true, true, false], &[true, false, false], &[false, false, false]);
        let n = neighbours(&r, 2, 2);
        assert_eq!(3, n);
    }
    {
        let r: Vec<&[bool]> = vec!(&[true, true, false], &[false, false, false], &[false, false, false], &[true, true, true]);
        let n = neighbours(&r, 0, 0);
        assert_eq!(4, n);
    }
}

#[test]
fn neighbours_of_ring_centre() {
    let r: Vec<&[bool]> = vec!(&[true, true, true], &[true, false, true], &[true, true, true]);
    assert_eq!(8, neighbours(&r, 1, 1));
}

#[test]
fn neighbours_agree_under_half_turn() {
    // the grid is its own image under a half turn
    let r: Vec<&[bool]> = vec!(
        &[true, false, false, true],
        &[false, true, false, false],
        &[false, false, true, false],
        &[true, false, false, true]
    );
    for y in 0..4usize {
        for x in 0..4usize {
            assert_eq!(neighbours(&r, x, y), neighbours(&r, 3 - x, 3 - y));
        }
    }
}

#[test]
fn neighbours_wrap_on_each_axis_alone() {
    // one live cell in the upper right corner of a 3 by 4 grid
    let r: Vec<&[bool]> = vec!(
        &[false, false, false, true],
        &[false, false, false, false],
        &[false, false, false, false]
    );
    assert_eq!(1, neighbours(&r, 0, 0));
    assert_eq!(1, neighbours(&r, 0, 2));
    assert_eq!(1, neighbours(&r, 2, 2));
    assert_eq!(0, neighbours(&r, 1, 1));
    assert_eq!(0, neighbours(&r, 3, 0));
}

#[test]
fn wrap_stays_on_the_axis_and_turns_back() {
    for rows in 1..7usize {
        for r in 0..rows {
            for delta in [-1i32, 0, 1] {
                let w = wrap(r, delta, rows);
                assert!(w < rows);
                assert_eq!(r, wrap(w, -delta, rows));
            }
        }
    }
}

#[test]
fn wrap_exact_values() {
    assert_eq!(4, wrap(0, -1, 5));
    assert_eq!(0, wrap(4, 1, 5));
    assert_eq!(2, wrap(2, 0, 5));
    assert_eq!(0, wrap(0, -1, 1));
    assert_eq!(3, wrap(1, 7, 5));
    assert_eq!(4, wrap(1, -7, 5));
    assert_eq!(1, wrap(0, i32::MIN, 3));
    assert_eq!(1, wrap(0, i32::MAX, 3));
    assert_eq!(2, wrap(usize::MAX, 2, 5));
}

#[test]
fn with_size_fills_with_default() {
    let f: Field<bool> = Field::with_size(2, 3);
    assert_eq!(2, f.rows);
    assert_eq!(3, f.columns);
    assert_eq!(vec![false; 6], f.cells);
    let g: Field<u32> = Field::with_size(3, 1);
    assert_eq!(vec![0u32; 3], g.cells);
    let e: Field<u32> = Field::with_size(0, 5);
    assert!(e.cells.is_empty());
}

#[test]
fn new_keeps_its_arguments() {
    let f = Field::new(vec![1u32, 2, 3, 4, 5, 6], 2, 3);
    assert_eq!(vec![1u32, 2, 3, 4, 5, 6], f.cells);
    assert_eq!(2, f.rows);
    assert_eq!(3, f.columns);
}

#[test]
fn proj2d_gives_the_rows() {
    let f = Field::new(vec![1u32, 2, 3, 4, 5, 6], 2, 3);
    let rows = f.proj2d();
    assert_eq!(2, rows.len());
    assert_eq!(&[1u32, 2, 3][..], rows[0]);
    assert_eq!(&[4u32, 5, 6][..], rows[1]);
}

#[test]
fn insert_copies_into_the_corner() {
    let mut f: Field<u32> = Field::with_size(3, 4);
    f.insert(Field::new(vec![1, 2, 3, 4], 2, 2));
    assert_eq!(vec![1u32, 2, 0, 0, 3, 4, 0, 0, 0, 0, 0, 0], f.cells);
}

#[test]
fn insert_clips_to_the_overlap() {
    let mut f: Field<u32> = Field::new(vec![9, 9, 9, 9], 2, 2);
    f.insert(Field::new(vec![1, 2, 3, 4, 5, 6, 7, 8, 9], 3, 3));
    assert_eq!(vec![1u32, 2, 4, 5], f.cells);
    assert_eq!(2, f.rows);
    assert_eq!(2, f.columns);

    let mut wide: Field<u32> = Field::new(vec![9, 9, 9, 9, 9, 9], 1, 6);
    wide.insert(Field::new(vec![1, 2, 3, 4], 2, 2));
    assert_eq!(vec![1u32, 2, 9, 9, 9, 9], wide.cells);
}

#[test]
fn find_pattern_of_a_grid_in_itself() {
    let glider = Field::from_cells(".O.\n..O\nOOO");
    assert_eq!(vec![(0usize, 0usize)], glider.find_pattern(&glider));
}

#[test]
fn find_pattern_of_a_uniform_grid_in_itself() {
    let dead: Field<bool> = Field::with_size(2, 2);
    assert_eq!(vec![(0usize, 0usize), (0, 1), (1, 0), (1, 1)], dead.find_pattern(&dead));
}

#[test]
fn find_pattern_over_the_edges() {
    // a block whose cells are the four corners of the grid
    let scene = Field::from_cells("O..O\n....\n....\nO..O");
    let block = Field::from_cells("OO\nOO");
    assert_eq!(vec![(3usize, 3usize)], scene.find_pattern(&block));
}

#[test]
fn find_pattern_reports_in_row_major_order() {
    let scene = Field::from_cells("O.O.\n....\nO.O.\n....");
    let dot = Field::from_cells("O.\n..");
    assert_eq!(vec![(0usize, 0usize), (0, 2), (2, 0), (2, 2)], scene.find_pattern(&dot));
    let none = Field::from_cells("OO");
    assert!(scene.find_pattern(&none).is_empty());
}

#[test]
fn find_pattern_larger_than_the_grid() {
    let scene = Field::from_cells("O.");
    let pattern = Field::from_cells("O.O.");
    assert_eq!(vec![(0usize, 0usize)], scene.find_pattern(&pattern));
}

#[test]
fn matches_tests_one_anchor() {
    let scene = Field::from_cells(".O.\n..O\nOOO");
    let pair = Field::from_cells("OO");
    assert!(scene.matches(&pair, 2, 0));
    assert!(scene.matches(&pair, 2, 1));
    assert!(scene.matches(&pair, 2, 2));
    assert!(!scene.matches(&pair, 0, 0));
}

#[test]
fn from_random_has_the_size() {
    let f = Field::from_random(7, 9);
    assert_eq!(7, f.rows);
    assert_eq!(9, f.columns);
    assert_eq!(63, f.cells.len());
    let e = Field::from_random(0, 9);
    assert!(e.cells.is_empty());
}

#[test]
fn from_text_goes_by_the_extension() {
    let plain = Field::from_text("cells", ".O.\n..O\nOOO").unwrap();
    let rle = Field::from_text("rle", "x=3,y=3\nbob$2bo$3o!").unwrap();
    assert!(plain == rle);
    assert_eq!(Err(LoadError::UnsupportedFormat), Field::from_text("txt", ".O."));
    assert_eq!(Err(LoadError::UnsupportedFormat), Field::from_text("", ".O."));
    assert_eq!(Err(LoadError::UnsupportedFormat), Field::from_text("RLE", "x=3,y=3\nbob$2bo$3o!"));
    assert_eq!(Err(LoadError::MalformedHeader), Field::from_text("rle", ".O.\n..O\nOOO"));
    assert_eq!(Err(LoadError::Empty), Field::from_text("cells", "!no pattern\n"));
}

#[test]
fn calculate_neighbours_counts_every_cell() {
    let f = Field::from_cells(".O.\n..O\nOOO");
    let rows = f.proj2d();
    assert_eq!(vec![5usize, 4, 5, 5, 5, 4, 4, 4, 4], f.calculate_neighbours(&rows));
}

#[test]
fn apply_rule_goes_by_the_shorter_length() {
    let f = Field::from_cells("OO.\n...");
    let rule = AutomataRule::cgol();
    assert_eq!(vec![true, false, true, false, false, false], f.apply_rule(vec![2, 1, 3, 2, 0, 8], &rule));
    assert_eq!(vec![true, false], f.apply_rule(vec![3, 4], &rule));
    assert!(f.apply_rule(vec![], &rule).is_empty());
}
