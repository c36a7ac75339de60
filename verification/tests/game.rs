use cgol::field::Field;
use cgol::game::Game;
use cgol::rule::AutomataRule;

#[test]
fn test_output_highres() {
    {
        let glider = Field::from_cells("\
......
..O...
...O..
.OOO..");

        let game = Game::new(glider, AutomataRule::cgol());
        println!("{}", game.to_string_highres());
    }
}

#[test]
fn test_find_pattern() {
    {
        let glider = Field::from_cells("\
.O.
..O
OOO");

        let scene = Field::from_cells("\
OO..OOO..
O........
OOOOO....
.......OO
..OO..O..
.......O.
.....OOO.
.........
");

        let mut game = Game::new(scene, AutomataRule::cgol());
        game.mark_pattern(&glider);
        println!("{}", game.to_string());
    }
}

#[test]
fn new_game_starts_at_generation_zero() {
    let field = Field::from_cells(".O.\n..O\nOOO");
    let game = Game::new(field.clone(), AutomataRule::cgol());
    assert!(*game.field() == field);
    assert_eq!(vec![0u32; 9], game.ages().cells);
    assert_eq!(vec![false; 9], game.marked().cells);
    assert_eq!(3, game.ages().rows);
    assert_eq!(3, game.marked().columns);
    assert_eq!(0, game.iterations());
    assert!(*game.rule() == AutomataRule::cgol());
}

#[test]
fn blinker_turns() {
    let mut game = Game::new(Field::from_cells(".....\n..O..\n..O..\n..O..\n....."), AutomataRule::cgol());
    game.next_iteration();
    assert!(*game.field() == Field::from_cells(".....\n.....\n.OOO.\n.....\n....."));
    assert_eq!(1, game.iterations());
    game.next_iteration();
    assert!(*game.field() == Field::from_cells(".....\n..O..\n..O..\n..O..\n....."));
    assert_eq!(2, game.iterations());
}

#[test]
fn glider_moves_by_one_cell_in_four_generations() {
    let start = Field::from_cells(".O....\n..O...\nOOO...\n......\n......\n......");
    let mut game = Game::new(start.clone(), AutomataRule::cgol());
    for _ in 0..4 {
        game.next_iteration();
    }
    assert!(*game.field() == Field::from_cells("......\n..O...\n...O..\n.OOO..\n......\n......"));
    assert_eq!(4, game.iterations());
    // once around the torus of six by six cells
    for _ in 0..20 {
        game.next_iteration();
    }
    assert!(*game.field() == start);
}

#[test]
fn loaded_glider_moves_diagonally() {
    let glider = Field::from_cells(".O.\n..O\nOOO");
    assert_eq!(3, glider.rows);
    let mut field: Field<bool> = Field::with_size(8, 8);
    field.insert(glider.clone());
    let mut game = Game::new(field, AutomataRule::cgol());
    for _ in 0..4 {
        game.next_iteration();
    }
    assert_eq!(vec![(1usize, 1usize)], game.field().find_pattern(&glider));
    let mut moved: Field<bool> = Field::with_size(8, 8);
    for r in 0..3 {
        for c in 0..3 {
            moved.cells[(r + 1) * 8 + c + 1] = glider.cells[r * 3 + c];
        }
    }
    assert!(*game.field() == moved);
}

#[test]
fn glider_moves_over_the_edges() {
    let mut game = Game::new(
        Field::from_cells("......\n......\n......\n....O.\n.....O\n...OOO"),
        AutomataRule::cgol(),
    );
    for _ in 0..4 {
        game.next_iteration();
    }
    assert!(*game.field() == Field::from_cells("O...OO\n......\n......\n......\n.....O\nO....."));
}

#[test]
fn one_generation_of_the_glider() {
    let mut game = Game::new(Field::from_rle("x=5,y=5,rule=B3/S23\nbob$2bo$3o!").unwrap(), AutomataRule::cgol());
    game.next_iteration();
    assert!(*game.field() == Field::from_rle("x=5,y=5,rule=B3/S23\n$obo$b2o$bo2$!").unwrap());
}

#[test]
fn empty_grids_stay_empty() {
    let mut none = Game::new(Field::new(Vec::new(), 0, 0), AutomataRule::cgol());
    none.next_iteration();
    assert!(none.field().cells.is_empty());
    assert_eq!(1, none.iterations());
    let mut flat = Game::new(Field::new(Vec::new(), 3, 0), AutomataRule::cgol());
    flat.next_iteration();
    assert_eq!(3, flat.field().rows);
    assert_eq!(0, flat.field().columns);
    assert_eq!("\u{1b}[1;1H\u{1b}[38;5;15m\n\n\n\n\u{1b}[38;5;15m\n1", flat.to_string());
}

#[test]
fn a_single_cell_is_its_own_neighbour_eight_times() {
    // on a torus of one cell, all eight neighbours are the cell itself
    let always = AutomataRule::parse("B8/S8").unwrap();
    let mut game = Game::new(Field::from_cells("O"), always);
    game.next_iteration();
    assert_eq!(vec![true], game.field().cells);
    let mut life = Game::new(Field::from_cells("O"), AutomataRule::cgol());
    life.next_iteration();
    assert_eq!(vec![false], life.field().cells);
}

#[test]
fn ages_count_the_generations_alive() {
    // a block is still: all of its cells stay alive
    let mut game = Game::new(Field::from_cells("....\n.OO.\n.OO.\n...."), AutomataRule::cgol());
    for n in 1..=7u32 {
        game.next_iteration();
        assert_eq!(
            vec![0, 0, 0, 0, 0, n, n, 0, 0, n, n, 0, 0, 0, 0, 0],
            game.ages().cells
        );
    }
}

#[test]
fn ages_start_over_after_death() {
    let mut game = Game::new(Field::from_cells(".....\n..O..\n..O..\n..O..\n....."), AutomataRule::cgol());
    game.next_iteration();
    // the middle cell lived on, its two neighbours were born, the ends died
    assert_eq!(
        vec![0u32, 0, 0, 0, 0, 0, 0, 0, 0, 0, 0, 0, 1, 0, 0, 0, 0, 0, 0, 0, 0, 0, 0, 0, 0],
        game.ages().cells
    );
    game.next_iteration();
    // the ends are born anew with age 0, the middle cell is two generations old
    assert_eq!(
        vec![0u32, 0, 0, 0, 0, 0, 0, 0, 0, 0, 0, 0, 2, 0, 0, 0, 0, 0, 0, 0, 0, 0, 0, 0, 0],
        game.ages().cells
    );
    assert_eq!(
        vec![
            false, false, false, false, false, false, false, true, false, false, false, false,
            true, false, false, false, false, true, false, false, false, false, false, false,
            false
        ],
        game.field().cells
    );
}

#[test]
fn calculate_ages_goes_by_both_states() {
    let mut game = Game::new(Field::from_cells("OO.."), AutomataRule::parse("B/S012345678").unwrap());
    game.next_iteration();
    assert_eq!(vec![1u32, 1, 0, 0], game.ages().cells);
    assert_eq!(vec![2u32, 0, 0, 0], game.calculate_ages(&[true, false, true, false]));
    assert_eq!(vec![2u32, 0], game.calculate_ages(&[true, false]));
    assert_eq!(vec![0u32, 2, 0, 0], game.calculate_ages(&[false, true, false, true, true, true]));
}

#[test]
fn marking_copies_the_state_under_each_match() {
    let glider = Field::from_cells(".O.\n..O\nOOO");
    let scene = Field::from_cells("\
OO..OOO..
O........
OOOOO....
.......OO
..OO..O..
.......O.
.....OOO.
.........
");
    let mut game = Game::new(scene.clone(), AutomataRule::cgol());
    assert_eq!(vec![(4usize, 5usize)], scene.find_pattern(&glider));
    game.mark_pattern(&glider);
    let expected = Field::from_cells("\
.........
.........
.........
.........
......O..
.......O.
.....OOO.
.........
");
    assert!(*game.marked() == expected);
    assert!(*game.field() == scene);
    assert_eq!(vec![0u32; 72], game.ages().cells);
    assert_eq!(0, game.iterations());
}

#[test]
fn marks_are_dropped_by_the_next_generation() {
    let block = Field::from_cells("OO\nOO");
    let mut game = Game::new(Field::from_cells("....\n.OO.\n.OO.\n...."), AutomataRule::cgol());
    game.mark_pattern(&block);
    assert_eq!(
        vec![
            false, false, false, false, false, true, true, false, false, true, true, false, false,
            false, false, false
        ],
        game.marked().cells
    );
    game.next_iteration();
    assert_eq!(vec![false; 16], game.marked().cells);
}

#[test]
fn marking_keeps_earlier_marks() {
    let block = Field::from_cells("OO\nOO");
    let dot = Field::from_cells("...\n.O.\n...");
    let mut game = Game::new(Field::from_cells("OO....\nOO....\n......\n....O.\n......"), AutomataRule::cgol());
    game.mark_pattern(&block);
    game.mark_pattern(&dot);
    assert!(*game.marked() == Field::from_cells("OO....\nOO....\n......\n....O.\n......"));
}

#[test]
fn marking_does_not_change_what_follows() {
    let glider = Field::from_cells(".O.\n..O\nOOO");
    let start = Field::from_cells(".O......\n..O.....\nOOO.....\n........\n.....OO.\n.....OO.\n........");
    let mut plain = Game::new(start.clone(), AutomataRule::cgol());
    let mut marking = Game::new(start, AutomataRule::cgol());
    for _ in 0..24 {
        marking.mark_pattern(&glider);
        plain.next_iteration();
        marking.next_iteration();
        marking.mark_pattern(&glider);
        assert!(*plain.field() == *marking.field());
        assert!(*plain.ages() == *marking.ages());
        assert_eq!(plain.iterations(), marking.iterations());
    }
}

#[test]
fn frame_of_a_small_grid() {
    let mut game = Game::new(Field::from_cells("OO.\nOO.\n..."), AutomataRule::cgol());
    // the colour is written once and stays in force over spaces and line ends
    assert_eq!(
        "\u{1b}[1;1H\u{1b}[38;5;15m\u{25ac}\u{25ac}\u{25ac}\n\u{1b}[38;5;34m\u{2588}\u{2588} \n\u{2588}\u{2588} \n   \n\u{1b}[38;5;15m\u{25ac}\u{25ac}\u{25ac}\n0",
        game.to_string()
    );
    game.next_iteration();
    game.next_iteration();
    game.mark_pattern(&Field::from_cells("O"));
    // the block is still, and the pattern of one live cell matches each of its cells
    assert_eq!(
        "\u{1b}[1;1H\u{1b}[38;5;15m\u{25ac}\u{25ac}\u{25ac}\n\u{1b}[38;5;1m\u{2588}\u{2588} \n\u{2588}\u{2588} \n   \n\u{1b}[38;5;15m\u{25ac}\u{25ac}\u{25ac}\n2",
        game.to_string()
    );
}

#[test]
fn frame_shows_the_age_ramp() {
    let mut game = Game::new(Field::from_cells("OO\nOO"), AutomataRule::parse("B/S8").unwrap());
    let colours = ["34", "35", "36", "37", "38", "39", "21", "21"];
    for (n, colour) in colours.iter().enumerate() {
        let expected = format!(
            "\u{1b}[1;1H\u{1b}[38;5;15m\u{25ac}\u{25ac}\n\u{1b}[38;5;{}m\u{2588}\u{2588}\n\u{2588}\u{2588}\n\u{1b}[38;5;15m\u{25ac}\u{25ac}\n{}",
            colour, n
        );
        assert_eq!(expected, game.to_string());
        game.next_iteration();
    }
}

#[test]
fn highres_frame_of_dead_and_live_blocks() {
    let dead = Game::new(Field::from_cells("..\n.."), AutomataRule::cgol());
    assert_eq!(
        "\u{1b}[1;1H\u{1b}[38;5;15m\u{25ac}\n \n\u{1b}[38;5;15m\u{25ac}\n0",
        dead.to_string_highres()
    );
    let live = Game::new(Field::from_cells("OO\nOO"), AutomataRule::cgol());
    assert_eq!(
        "\u{1b}[1;1H\u{1b}[38;5;15m\u{25ac}\n\u{1b}[38;5;34m\u{2588}\n\u{1b}[38;5;15m\u{25ac}\n0",
        live.to_string_highres()
    );
}

#[test]
fn highres_frame_of_the_glider() {
    let game = Game::new(Field::from_cells("......\n..O...\n...O..\n.OOO.."), AutomataRule::cgol());
    assert_eq!(
        "\u{1b}[1;1H\u{1b}[38;5;15m\u{25ac}\u{25ac}\u{25ac}\n \u{1b}[38;5;34m\u{2596} \n\u{2597}\u{259f} \n\u{1b}[38;5;15m\u{25ac}\u{25ac}\u{25ac}\n0",
        game.to_string_highres()
    );
}

#[test]
fn highres_frame_fills_odd_sizes_with_dead_cells() {
    let game = Game::new(Field::from_cells("OOO\nOOO\nOOO"), AutomataRule::cgol());
    assert_eq!(
        "\u{1b}[1;1H\u{1b}[38;5;15m\u{25ac}\n\u{1b}[38;5;34m\u{2588}\u{258c}\n\u{2580}\u{2598}\n\u{1b}[38;5;15m\u{25ac}\n0",
        game.to_string_highres()
    );
}

#[test]
fn highres_frame_takes_the_mean_age_and_the_upper_left_mark() {
    // the two cells of the upper row live on, the lower row stays dead
    let mut game = Game::new(Field::from_cells("OO\n.."), AutomataRule::parse("B/S012345678").unwrap());
    for _ in 0..6 {
        game.next_iteration();
    }
    assert_eq!(vec![6u32, 6, 0, 0], game.ages().cells);
    // (6 + 6 + 0 + 0) / 4 = 3
    assert_eq!(
        "\u{1b}[1;1H\u{1b}[38;5;15m\u{25ac}\n\u{1b}[38;5;37m\u{2580}\n\u{1b}[38;5;15m\u{25ac}\n6",
        game.to_string_highres()
    );
    game.mark_pattern(&Field::from_cells("O"));
    assert_eq!(
        "\u{1b}[1;1H\u{1b}[38;5;15m\u{25ac}\n\u{1b}[38;5;1m\u{2580}\n\u{1b}[38;5;15m\u{25ac}\n6",
        game.to_string_highres()
    );
}

#[test]
fn frame_writes_a_colour_where_it_changes() {
    let mut game = Game::new(Field::from_cells(".....\n..O..\n..O..\n..O..\n....."), AutomataRule::cgol());
    game.next_iteration();
    // the cell in the middle is one generation old, the two beside it are new
    assert_eq!(
        "\u{1b}[1;1H\u{1b}[38;5;15m\u{25ac}\u{25ac}\u{25ac}\u{25ac}\u{25ac}\n     \n     \n \u{1b}[38;5;34m\u{2588}\u{1b}[38;5;35m\u{2588}\u{1b}[38;5;34m\u{2588} \n     \n     \n\u{1b}[38;5;15m\u{25ac}\u{25ac}\u{25ac}\u{25ac}\u{25ac}\n1",
        game.to_string()
    );
    game.next_iteration();
    // each of the three cells has another colour than the one drawn before it
    assert_eq!(
        "\u{1b}[1;1H\u{1b}[38;5;15m\u{25ac}\u{25ac}\u{25ac}\u{25ac}\u{25ac}\n     \n  \u{1b}[38;5;34m\u{2588}  \n  \u{1b}[38;5;36m\u{2588}  \n  \u{1b}[38;5;34m\u{2588}  \n     \n\u{1b}[38;5;15m\u{25ac}\u{25ac}\u{25ac}\u{25ac}\u{25ac}\n2",
        game.to_string()
    );
    // the two lower blocks have the colour of the upper one: (0 + 2) / 4 and (0 + 0) / 4 are 0
    assert_eq!(
        "\u{1b}[1;1H\u{1b}[38;5;15m\u{25ac}\u{25ac}\n \u{1b}[38;5;34m\u{2596} \n \u{258c} \n   \n\u{1b}[38;5;15m\u{25ac}\u{25ac}\n2",
        game.to_string_highres()
    );
}

#[test]
fn frame_changes_between_highlight_and_ramp() {
    let mut game = Game::new(Field::from_cells("OO.O\nOO.."), AutomataRule::cgol());
    game.mark_pattern(&Field::from_cells("OO\nOO"));
    assert_eq!(vec![true, true, false, false, true, true, false, false], game.marked().cells);
    assert_eq!(
        "\u{1b}[1;1H\u{1b}[38;5;15m\u{25ac}\u{25ac}\u{25ac}\u{25ac}\n\u{1b}[38;5;1m\u{2588}\u{2588} \u{1b}[38;5;34m\u{2588}\n\u{1b}[38;5;1m\u{2588}\u{2588}  \n\u{1b}[38;5;15m\u{25ac}\u{25ac}\u{25ac}\u{25ac}\n0",
        game.to_string()
    );
    assert_eq!(
        "\u{1b}[1;1H\u{1b}[38;5;15m\u{25ac}\u{25ac}\n\u{1b}[38;5;1m\u{2588}\u{1b}[38;5;34m\u{259d}\n\u{1b}[38;5;15m\u{25ac}\u{25ac}\n0",
        game.to_string_highres()
    );
}

#[test]
fn highres_frame_of_a_still_block() {
    let mut game = Game::new(Field::from_cells("....\n.OO.\n.OO.\n...."), AutomataRule::cgol());
    for _ in 0..4 {
        game.next_iteration();
    }
    assert_eq!(vec![0u32, 0, 0, 0, 0, 4, 4, 0, 0, 4, 4, 0, 0, 0, 0, 0], game.ages().cells);
    // each block holds one cell of age 4: (4 + 0 + 0 + 0) / 4 = 1
    assert_eq!(
        "\u{1b}[1;1H\u{1b}[38;5;15m\u{25ac}\u{25ac}\n\u{1b}[38;5;35m\u{2597}\u{2596}\n\u{259d}\u{2598}\n\u{1b}[38;5;15m\u{25ac}\u{25ac}\n4",
        game.to_string_highres()
    );
}

#[test]
fn can_advance_while_there_is_room() {
    let mut game = Game::new(Field::from_cells("....\n.OO.\n.OO.\n...."), AutomataRule::cgol());
    assert!(game.can_advance());
    game.next_iteration();
    assert!(game.can_advance());
    let none = Game::new(Field::new(Vec::new(), 3, 0), AutomataRule::cgol());
    assert!(none.can_advance());
}
