use cgol::error::LoadError;
use cgol::field::Field;
use cgol::plain;
use cgol::rle::{self, RleHeader, RleRun, RleTag};
use cgol::text::chars_of;

fn grid(rows: usize, columns: usize, picture: &str) -> Field<bool> {
    Field::new(picture.chars().filter(|c| *c != ' ').map(|c| c == 'O').collect(), rows, columns)
}

#[test]
fn plain_glider() {
    assert!(Field::from_cells(".O.\n..O\nOOO") == grid(3, 3, ".O. ..O OOO"));
}

#[test]
fn rle_glider_is_the_plain_glider() {
    assert!(Field::from_rle("x=3,y=3\nbob$2bo$3o!").unwrap() == Field::from_cells(".O.\n..O\nOOO"));
}

#[test]
fn plain_short_lines_are_filled_up() {
    assert!(Field::from_cells("O\nOOO\n\nOO") == grid(4, 3, "O.. OOO ... OO."));
}

#[test]
fn plain_comments_are_left_out() {
    assert!(Field::from_cells("!Name: Glider\n!\n.O.\n..O\n!in between\nOOO\n") == grid(3, 3, ".O. ..O OOO"));
    // a line is a comment only if the mark comes first
    assert!(Field::from_cells(" !\nO") == grid(2, 2, ".. O."));
}

#[test]
fn plain_white_space_at_the_end_is_dropped() {
    assert!(Field::from_cells("O.  \t\r\nOO.\u{a0}\u{3000}\r\n") == grid(2, 3, "O.. OO."));
    // white space in front and inside counts
    assert!(Field::from_cells("  O\nO O") == grid(2, 3, "..O O.O"));
    // a line of white space is an empty row
    assert!(Field::from_cells("O\n   \nO") == grid(3, 1, "O . O"));
}

#[test]
fn plain_other_glyphs_are_dead() {
    assert!(Field::from_cells("oO0*\n#O.x") == grid(2, 4, ".O.. .O.."));
}

#[test]
fn plain_width_is_counted_in_bytes() {
    // the first line has three characters and takes six bytes
    let f = Field::from_cells("\u{e9}O\u{20ac}\nO");
    assert_eq!(2, f.rows);
    assert_eq!(6, f.columns);
    assert_eq!(
        vec![false, true, false, false, false, false, true, false, false, false, false, false],
        f.cells
    );
    assert_eq!(4, Field::from_cells("\u{1f600}").columns);
}

#[test]
fn plain_text_without_lines_holds_no_pattern() {
    for text in ["", "!only a comment", "!one\n!two\n"] {
        assert_eq!(Err(LoadError::Empty), Field::from_text("cells", text), "{:?}", text);
        assert_eq!(Err(LoadError::Empty), plain::load(&chars_of(text)), "{:?}", text);
    }
    // empty lines are rows without columns
    let blank = Field::from_cells("\n\n");
    assert_eq!(2, blank.rows);
    assert_eq!(0, blank.columns);
    assert!(blank.cells.is_empty());
    assert!(Field::from_text("cells", "\n\n").unwrap() == blank);
}

#[test]
fn plain_load_works_on_characters() {
    let chars = chars_of(".O.\n..O\nOOO");
    assert_eq!(11, chars.len());
    assert!(plain::load(&chars).unwrap() == grid(3, 3, ".O. ..O OOO"));
}

#[test]
fn rle_header_forms() {
    let glider = grid(3, 3, ".O. ..O OOO");
    for text in [
        "x=3,y=3\nbob$2bo$3o!",
        "x=3,y=3,rule=B3/S23\nbob$2bo$3o!",
        "x = 3, y = 3, rule = B3/S23\nbob$2bo$3o!",
        "  x=3 ,\ty=3\r\nbob$2bo$3o!",
        "x=3,y=3,rule=\nbob$2bo$3o!",
        "x=3,y=3,rule=anything, at all\nbob$2bo$3o!",
        "x=03,y=003\nbob$2bo$3o!",
    ] {
        assert!(Field::from_rle(text).unwrap() == glider, "{:?}", text);
    }
}

#[test]
fn rle_body_forms() {
    let glider = grid(3, 3, ".O. ..O OOO");
    for text in [
        "x=3,y=3\nbob$2bo$3o!",
        "x=3,y=3\nbob$\n2bo$\n3o!\n",
        "x=3,y=3\n bob $ 2bo $\t3o !",
        "x=3,y=3\nbob$bbo$ooo!",
        "x=3,y=3\nbo$2bo$3o!",
        "x=3,y=3\n1b1o1b1$2b1o$3o$!",
        "x=3,y=3\nbob$2bo$3o!this is not read",
        "x=3,y=3\n0o0$bob$2bo$3o0b!",
        "x=3,y=3\nbob2bo3o!",
    ] {
        assert!(Field::from_rle(text).unwrap() == glider, "{:?}", text);
    }
}

#[test]
fn rle_cells_that_are_not_named_stay_dead() {
    assert!(Field::from_rle("x=4,y=3\n$bo!").unwrap() == grid(3, 4, ".... .O.. ...."));
    assert!(Field::from_rle("x=2,y=2\n!").unwrap() == grid(2, 2, ".. .."));
    assert!(Field::from_rle("x=2,y=2,rule=B3/S23").is_err());
    assert!(Field::from_rle("x=0,y=0\n!").unwrap() == Field::new(Vec::new(), 0, 0));
    assert!(Field::from_rle("x=0,y=7\n3$!").unwrap() == Field::new(Vec::new(), 7, 0));
}

#[test]
fn rle_ends_of_rows_may_pass_the_grid() {
    assert!(Field::from_rle("x=2,y=2\noo$oo$$$!").unwrap() == grid(2, 2, "OO OO"));
    assert!(Field::from_rle("x=2,y=2\n2o18446744073709551615$!").unwrap() == grid(2, 2, "OO .."));
    assert!(Field::from_rle("x=2,y=2\n2o18446744073709551615$18446744073709551615$0o!").unwrap() == grid(2, 2, "OO .."));
    assert_eq!(Err(LoadError::OutOfGrid), Field::from_rle("x=2,y=2\n2o18446744073709551615$18446744073709551615$o!"));
}

#[test]
fn rle_a_later_run_overwrites_an_earlier_one() {
    assert!(Field::from_rle("x=2,y=2\n4o$2b!").unwrap() == grid(2, 2, "OO .."));
}

#[test]
fn rle_malformed_headers() {
    for text in [
        "",
        "bob$2bo$3o!",
        "x=3\nbob$2bo$3o!",
        "y=3,x=3\nbob$2bo$3o!",
        "x=3;y=3\nbob$2bo$3o!",
        "x=,y=3\nbob$2bo$3o!",
        "x=3,y=\nbob$2bo$3o!",
        "x=-3,y=3\nbob$2bo$3o!",
        "X=3,Y=3\nbob$2bo$3o!",
        "x=3,y=3 bob$2bo$3o!",
        "x=3,y=3,\nbob$2bo$3o!",
        "x=3,y=3,rules=B3/S23\nbob$2bo$3o!",
        "x=3,y=3,rule B3/S23\nbob$2bo$3o!",
        "x=3,\ny=3\nbob$2bo$3o!",
        "\nx=3,y=3\nbob$2bo$3o!",
        "#C a comment\nx=3,y=3\nbob$2bo$3o!",
        "x=3 3,y=3\nbob$2bo$3o!",
        "x=99999999999999999999999999,z=3\n!",
    ] {
        assert_eq!(Err(LoadError::MalformedHeader), Field::from_rle(text), "{:?}", text);
    }
}

#[test]
fn rle_grids_that_are_too_large() {
    for text in [
        "x=18446744073709551616,y=1\n!",
        "x=0,y=18446744073709551616\n!",
        "x=4294967296,y=4294967296\n!",
        "x=18446744073709551615,y=2\n!",
        "x=99999999999999999999999999,y=3\nthe body is not read",
    ] {
        assert_eq!(Err(LoadError::TooLarge), Field::from_rle(text), "{:?}", text);
    }
}

#[test]
fn rle_malformed_bodies() {
    for text in [
        "x=3,y=3\nbob$2bo$3o",
        "x=3,y=3\n",
        "x=3,y=3",
        "x=3,y=3\nbob$2bo$3!",
        "x=3,y=3\nbob$2 bo$3o!",
        "x=3,y=3\nbob$2bo$3o2",
        "x=3,y=3\nbob$2bO$3o!",
        "x=3,y=3\nbob$2bo$3o.!",
        "x=3,y=3\nbxb$2bo$3o!",
        "x=3,y=3\n18446744073709551616$!",
        "x=3,y=3\n99999999999999999999999999b!",
        "x=1,y=1\n5o5",
    ] {
        assert_eq!(Err(LoadError::MalformedBody), Field::from_rle(text), "{:?}", text);
    }
}

#[test]
fn rle_runs_that_pass_the_end_of_the_grid() {
    for text in [
        "x=3,y=3\n10o!",
        "x=3,y=3\n9ob!",
        "x=3,y=3\n3$o!",
        "x=3,y=3\n2$4b!",
        "x=0,y=3\nb!",
        "x=3,y=0\no!",
        "x=3,y=3\n18446744073709551615o!",
        "x=3,y=3\no18446744073709551615b!",
    ] {
        assert_eq!(Err(LoadError::OutOfGrid), Field::from_rle(text), "{:?}", text);
    }
    assert!(Field::from_rle("x=3,y=3\n9o!").unwrap() == grid(3, 3, "OOO OOO OOO"));
    assert!(Field::from_rle("x=3,y=3\n2$3b!").unwrap() == grid(3, 3, "... ... ..."));
}

#[test]
fn rle_a_run_that_passes_the_right_edge_goes_on_in_the_next_row() {
    assert!(Field::from_rle("x=3,y=3\n4o!").unwrap() == grid(3, 3, "OOO O.. ..."));
    assert!(Field::from_rle("x=3,y=3\n4o$o!").unwrap() == grid(3, 3, "OOO O.. ..."));
    assert!(Field::from_rle("x=3,y=3\n4bo!").unwrap() == grid(3, 3, "... .O. ..."));
}

#[test]
fn rle_in_three_steps() {
    let text = chars_of("x=4,y=2,rule=B3/S23\n2o$b12o 0$!rest");
    let header = rle::read_header(&text).unwrap();
    assert_eq!(RleHeader { columns: 4, rows: 2, body: 20 }, header);
    let runs = rle::read_runs(&text, header.body).unwrap();
    assert_eq!(
        vec![
            RleRun { count: 2, tag: RleTag::Alive },
            RleRun { count: 1, tag: RleTag::EndOfRow },
            RleRun { count: 1, tag: RleTag::Dead },
            RleRun { count: 12, tag: RleTag::Alive },
            RleRun { count: 0, tag: RleTag::EndOfRow },
        ],
        runs
    );
    assert_eq!(None, rle::paint(&runs, header.rows, header.columns));
    assert_eq!(
        Some(vec![true, true, false, false, false, true, true, true]),
        rle::paint(
            &[
                RleRun { count: 2, tag: RleTag::Alive },
                RleRun { count: 1, tag: RleTag::EndOfRow },
                RleRun { count: 1, tag: RleTag::Dead },
                RleRun { count: 3, tag: RleTag::Alive },
            ],
            2,
            4
        )
    );
    assert_eq!(Err(LoadError::OutOfGrid), rle::load(&text));
}
