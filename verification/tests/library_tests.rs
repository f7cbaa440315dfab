use rand::rngs::SmallRng;
use rand::SeedableRng;
use sea_battle::input::{parse_shot, typed_cell};
use sea_battle::player::{after_shot, DealState, RandomSource, TurnStep};
use sea_battle::{Board, BoardError, Cell, Game, SeaField, Ship, ShotResult};

fn touching(a: &Cell, b: &Cell, cells_a: &[Cell], cells_b: &[Cell]) -> bool {
    let _ = (a, b);
    for p in cells_a {
        for q in cells_b {
            let d = *p - *q;
            if d == Cell::new(-1, -1)
                || d == Cell::new(-1, 0)
                || d == Cell::new(-1, 1)
                || d == Cell::new(0, -1)
                || d == Cell::new(0, 0)
                || d == Cell::new(0, 1)
                || d == Cell::new(1, -1)
                || d == Cell::new(1, 0)
                || d == Cell::new(1, 1)
            {
                return true;
            }
        }
    }
    false
}

#[test]
fn add_then_sub_gives_back_the_cell() {
    let a = Cell::new(3, -7);
    let b = Cell::new(10, 2);
    assert_eq!((a + b) - b, a);
    assert_eq!((a - b) + b, a);
    assert_eq!(a + b, Cell::new(13, -5));
}

#[test]
fn hit_agrees_with_the_listed_cells() {
    let ship = Ship::new(Cell::new(2, 3), 3, false);
    let cells = ship.cells();
    assert_eq!(cells, vec![Cell::new(2, 3), Cell::new(2, 4), Cell::new(2, 5)]);
    for x in -2..8 {
        for y in -2..8 {
            let c = Cell::new(x, y);
            assert_eq!(ship.hit(&c), cells.contains(&c));
        }
    }
}

#[test]
fn empty_ship_has_no_cells_and_is_never_hit() {
    let ship = Ship::new(Cell::new(1, 1), 0, true);
    assert!(ship.cells().is_empty());
    assert!(!ship.hit(&Cell::new(1, 1)));
}

#[test]
fn second_shot_at_a_cell_is_used_and_changes_nothing() {
    let mut board = Board::new(false, 6);
    board.add_ship(Ship::new(Cell::new(1, 1), 2, true)).unwrap();
    board.begin();
    assert_eq!(board.shot(Cell::new(1, 1)), ShotResult::Hit);
    let busy = board.busy.clone();
    let field = board.field.clone();
    assert_eq!(board.shot(Cell::new(1, 1)), ShotResult::Used);
    assert_eq!(board.busy, busy);
    assert_eq!(board.field, field);
    assert_eq!(board.shot(Cell::new(4, 4)), ShotResult::Miss);
    assert_eq!(board.shot(Cell::new(4, 4)), ShotResult::Used);
    assert_eq!(board.get_cell(&Cell::new(4, 4)), SeaField::Miss);
}

#[test]
fn out_shot_changes_nothing() {
    let mut board = Board::new(false, 4);
    assert_eq!(board.shot(Cell::new(4, 0)), ShotResult::Out);
    assert_eq!(board.shot(Cell::new(0, -1)), ShotResult::Out);
    assert!(board.busy.is_empty());
    assert!(board.out(&Cell::new(4, 0)));
    assert!(!board.out(&Cell::new(3, 3)));
}

#[test]
fn sinking_a_ship_takes_and_shows_its_surroundings() {
    let mut board = Board::new(false, 5);
    board.add_ship(Ship::new(Cell::new(1, 1), 2, true)).unwrap();
    board.begin();
    assert_eq!(board.shot(Cell::new(1, 1)), ShotResult::Hit);
    assert_eq!(board.count, 0);
    assert_eq!(board.shot(Cell::new(2, 1)), ShotResult::Dead);
    assert_eq!(board.count, 1);
    for x in 0..4 {
        for y in 0..3 {
            let c = Cell::new(x, y);
            assert!(board.busy.contains(&c));
            let deck = (x == 1 || x == 2) && y == 1;
            let expected = if deck { SeaField::Hit } else { SeaField::Miss };
            assert_eq!(board.get_cell(&c), expected);
        }
    }
    assert_eq!(board.busy.len(), 12);
    assert_eq!(board.get_cell(&Cell::new(4, 4)), SeaField::Sea);
    assert_eq!(board.prev_hit.result, ShotResult::Dead);
    assert_eq!(board.first_hit.result, ShotResult::Dead);
    assert_eq!(board.first_hit.coordinates, Cell::new(1, 1));
}

#[test]
fn placing_a_ship_shows_it_and_takes_its_surroundings() {
    let mut board = Board::new(false, 4);
    assert_eq!(board.add_ship(Ship::new(Cell::new(0, 1), 2, false)), Ok(()));
    assert_eq!(board.get_cell(&Cell::new(0, 1)), SeaField::Ship);
    assert_eq!(board.get_cell(&Cell::new(0, 2)), SeaField::Ship);
    assert_eq!(board.get_cell(&Cell::new(1, 1)), SeaField::Sea);
    assert_eq!(board.busy[0], Cell::new(0, 1));
    assert_eq!(board.busy[1], Cell::new(0, 2));
    // decks, then the ring around them: x in 0..=1, y in 0..=3
    assert_eq!(board.busy.len(), 8);
    assert_eq!(board.ships.len(), 1);
}

#[test]
fn touching_ship_is_refused_and_board_unchanged() {
    let mut board = Board::new(false, 6);
    board.add_ship(Ship::new(Cell::new(1, 1), 2, true)).unwrap();
    let busy = board.busy.clone();
    let field = board.field.clone();
    assert_eq!(board.add_ship(Ship::new(Cell::new(3, 2), 1, true)), Err(BoardError::WrongShip));
    assert_eq!(board.busy, busy);
    assert_eq!(board.field, field);
    assert_eq!(board.ships.len(), 1);
    assert_eq!(board.add_ship(Ship::new(Cell::new(4, 3), 1, true)), Ok(()));
}

#[test]
fn empty_ship_is_placed_but_never_sunk() {
    let mut board = Board::new(false, 3);
    assert_eq!(board.add_ship(Ship::new(Cell::new(7, 7), 0, true)), Ok(()));
    assert_eq!(board.ships.len(), 1);
    assert!(!board.defeat());
}

#[test]
fn board_without_ships_is_not_defeated() {
    let board = Board::new(true, 2);
    assert!(!board.defeat());
}

#[test]
fn free_cross_lists_free_neighbours_in_order() {
    let mut board = Board::new(false, 5);
    board.add_ship(Ship::new(Cell::new(1, 2), 3, true)).unwrap();
    board.begin();
    assert_eq!(
        board.get_free_cross(Cell::new(0, 0)),
        vec![Cell::new(1, 0), Cell::new(0, 1)]
    );
    assert_eq!(board.shot(Cell::new(1, 2)), ShotResult::Hit);
    assert_eq!(
        board.get_free_cross(Cell::new(1, 2)),
        vec![Cell::new(0, 2), Cell::new(2, 2), Cell::new(1, 1), Cell::new(1, 3)]
    );
    assert_eq!(board.shot(Cell::new(2, 2)), ShotResult::Hit);
    // a hit next to (2, 2) points on through (2, 2)
    assert_eq!(board.get_free_cross(Cell::new(2, 2)), vec![Cell::new(3, 2)]);
}

#[test]
fn new_game_deals_apart_fleets() {
    let lens: [u8; 10] = [4, 3, 3, 2, 2, 2, 1, 1, 1, 1];
    let game = Game::new(8, &lens);
    assert!(!game.user_board.hide);
    assert!(game.ai_board.hide);
    for board in [&game.user_board, &game.ai_board] {
        assert_eq!(board.size, 8);
        assert!(board.busy.is_empty());
        assert_eq!(board.count, 0);
        assert_eq!(board.ships.len(), lens.len());
        let mut decks = 0;
        for row in &board.field {
            assert_eq!(row.len(), 8);
            decks += row.iter().filter(|f| **f == SeaField::Ship).count();
        }
        assert_eq!(decks, 20);
        for (k, ship) in board.ships.iter().enumerate() {
            let cells = ship.cells();
            assert_eq!(cells.len(), lens[k] as usize);
            for c in &cells {
                assert!(!board.out(c));
                assert_eq!(board.get_cell(c), SeaField::Ship);
            }
            for other in board.ships.iter().skip(k + 1) {
                assert!(!touching(&cells[0], &cells[0], &cells, &other.cells()));
            }
        }
    }
}

#[test]
fn ai_plays_a_fleet_down_without_double_sinking() {
    let mut game = Game::new(6, &[3, 2, 1]);
    let mut rng = SmallRng::from_seed([7u8; 32]);
    let mut dead = 0;
    let mut rounds = 0;
    while !game.user_board.defeat() && rounds < 100_000 {
        let r = game.ai_shot(&mut rng);
        if r == ShotResult::Dead {
            dead += 1;
        }
        rounds += 1;
    }
    assert!(game.user_board.defeat());
    assert_eq!(dead, 3);
    assert_eq!(game.user_board.count, 3);
}

#[test]
fn fire_at_reports_the_shot_result() {
    let mut game = Game::new(5, &[1]);
    game.user_board.ships.clear();
    game.user_board.busy.clear();
    game.user_board.field.fill(vec![SeaField::Sea; 5]);
    game.user_board.add_ship(Ship::new(Cell::new(0, 0), 1, true)).unwrap();
    game.user_board.begin();
    assert_eq!(game.fire_at(Cell::new(4, 4)), ShotResult::Miss);
    assert_eq!(game.fire_at(Cell::new(9, 9)), ShotResult::Out);
    assert_eq!(game.fire_at(Cell::new(0, 0)), ShotResult::Dead);
    assert!(game.user_board.defeat());
}

#[test]
fn random_shot_lands_on_the_board() {
    let mut game = Game::new(5, &[1]);
    game.user_board.ships.clear();
    game.user_board.busy.clear();
    game.user_board.field.fill(vec![SeaField::Sea; 5]);
    game.user_board.begin();
    let mut rng = SmallRng::from_seed([9u8; 32]);
    assert_eq!(game.ai_shot(&mut rng), ShotResult::Miss);
    assert_eq!(game.user_board.busy.len(), 1);
    assert!(!game.user_board.out(&game.user_board.busy[0]));
}

#[test]
fn random_coordinates_stay_in_range() {
    let mut rng = SmallRng::from_seed([5u8; 32]);
    for _ in 0..1000 {
        let v = rng.random_coordinate(7);
        assert!((0..7).contains(&v));
    }
    let mut trng = rand::rng();
    for _ in 0..100 {
        let v = trng.random_coordinate(3);
        assert!((0..3).contains(&v));
    }
}

#[test]
fn board_picture() {
    let mut board = Board::new(false, 3);
    assert_eq!(board.to_string(), "  1 2 3 \n1 ~ ~ ~ \n2 ~ ~ ~ \n3 ~ ~ ~ \n");
    board.add_ship(Ship::new(Cell::new(0, 1), 2, true)).unwrap();
    assert_eq!(board.to_string(), "  1 2 3 \n1 ~ █ ~ \n2 ~ █ ~ \n3 ~ ~ ~ \n");
    board.hide = true;
    assert_eq!(board.to_string(), "  1 2 3 \n1 ~ ~ ~ \n2 ~ ~ ~ \n3 ~ ~ ~ \n");
    board.begin();
    assert_eq!(board.shot(Cell::new(0, 1)), ShotResult::Hit);
    assert_eq!(board.shot(Cell::new(2, 2)), ShotResult::Miss);
    assert_eq!(board.to_string(), "  1 2 3 \n1 ~ X ~ \n2 ~ ~ ~ \n3 ~ ~ ▪ \n");
}

#[test]
fn board_picture_numbers_past_nine() {
    let board = Board::new(false, 12);
    let text = board.to_string();
    assert!(text.starts_with("  1 2 3 4 5 6 7 8 9 10 11 12 \n1 ~ "));
    assert!(text.contains("\n10 ~ "));
    assert!(text.ends_with("\n12 ~ ~ ~ ~ ~ ~ ~ ~ ~ ~ ~ ~ \n"));
}

#[test]
fn parse_shot_reads_two_numbers() {
    assert_eq!(parse_shot("3 4"), Some((3, 4)));
    assert_eq!(parse_shot("  -2\t+7 \n"), Some((-2, 7)));
    assert_eq!(parse_shot("a 3 b 4"), Some((3, 4)));
    assert_eq!(parse_shot("3\u{3000}4"), Some((3, 4)));
    assert_eq!(parse_shot("99999999999 1 2"), Some((1, 2)));
    assert_eq!(parse_shot("-2147483648 2147483647"), Some((i32::MIN, i32::MAX)));
    assert_eq!(parse_shot("2147483648 1"), None);
    assert_eq!(parse_shot("1 2 3"), None);
    assert_eq!(parse_shot("1"), None);
    assert_eq!(parse_shot(""), None);
    assert_eq!(parse_shot("+ 5 -"), None);
    assert_eq!(parse_shot("1x 2"), None);
}

#[test]
fn typed_cell_swaps_and_counts_from_one() {
    assert_eq!(typed_cell(3, 4), Cell::new(3, 2));
    assert_eq!(typed_cell(1, 1), Cell::new(0, 0));
}

#[test]
fn after_shot_bookkeeping() {
    assert_eq!(after_shot(0, ShotResult::Miss, false), (1, TurnStep::Pass));
    assert_eq!(after_shot(4, ShotResult::Hit, false), (5, TurnStep::Again));
    assert_eq!(after_shot(4, ShotResult::Dead, true), (5, TurnStep::Won));
    assert_eq!(after_shot(4, ShotResult::Out, false), (4, TurnStep::Again));
    assert_eq!(after_shot(4, ShotResult::Used, false), (4, TurnStep::Again));
}

#[test]
fn glyphs_and_messages() {
    assert_eq!(SeaField::Miss.to_string(), "▪");
    assert_eq!(BoardError::WrongShip.to_string(), "Не удалось разместить корабль");
}

#[test]
fn ships_placed_one_by_one_never_touch() {
    let mut board = Board::new(false, 7);
    let mut placed = 0;
    for x in 0..7 {
        for y in 0..7 {
            for horizontal in [true, false] {
                if board.add_ship(Ship::new(Cell::new(x, y), 2, horizontal)).is_ok() {
                    placed += 1;
                }
            }
        }
    }
    assert_eq!(board.ships.len(), placed);
    assert!(placed > 1);
    for (k, ship) in board.ships.iter().enumerate() {
        let cells = ship.cells();
        for c in &cells {
            assert!(!board.out(c));
        }
        for other in board.ships.iter().skip(k + 1) {
            assert!(!touching(&cells[0], &cells[0], &cells, &other.cells()));
        }
    }
}

#[test]
fn shot_appends_to_taken_cells_without_repeats() {
    let mut board = Board::new(false, 6);
    board.add_ship(Ship::new(Cell::new(2, 2), 2, false)).unwrap();
    board.begin();
    let mut before = board.busy.clone();
    for target in [Cell::new(0, 0), Cell::new(2, 2), Cell::new(2, 3), Cell::new(5, 5), Cell::new(1, 1)] {
        let count = board.count;
        board.shot(target);
        assert_eq!(board.busy[..before.len()], before[..]);
        assert!(board.count == count || board.count == count + 1);
        for (i, a) in board.busy.iter().enumerate() {
            assert!(!board.out(a));
            for b in board.busy.iter().skip(i + 1) {
                assert_ne!(a, b);
            }
        }
        before = board.busy.clone();
    }
    assert!(board.defeat());
}

#[test]
fn shot_safety_checks() {
    let mut board = Board::new(false, 5);
    assert!(board.is_square_field());
    board.add_ship(Ship::new(Cell::new(1, 1), 1, true)).unwrap();
    board.begin();
    assert!(board.shot_is_safe(&Cell::new(1, 1)));
    assert_eq!(board.shot(Cell::new(1, 1)), ShotResult::Dead);
    board.begin();
    // the ship has no lives left, yet its cell is free again
    assert!(!board.shot_is_safe(&Cell::new(1, 1)));
    assert!(board.shot_is_safe(&Cell::new(3, 3)));
    assert!(board.shot_is_safe(&Cell::new(-1, 3)));
    board.field.pop();
    assert!(!board.is_square_field());
}

#[test]
fn room_checks() {
    assert!(Cell::new(0, 0).has_room());
    assert!(!Cell::new(i32::MAX, 0).has_room());
    assert!(!Cell::new(0, i32::MIN).has_room());
    assert!(Ship::new(Cell::new(0, 0), 4, true).fits_with_room());
    assert!(!Ship::new(Cell::new(i32::MAX - 3, 0), 4, true).fits_with_room());
    assert!(Ship::new(Cell::new(i32::MAX - 4, 0), 4, true).fits_with_room());
    assert!(Ship::new(Cell::new(i32::MAX, 7), 0, false).fits_with_room());
}

#[test]
fn computer_readiness_check() {
    let mut game = Game::new(5, &[2]);
    assert!(game.ai_can_shoot());
    game.ai_board.size = 0;
    // no hit to follow, and no cell to draw
    assert!(!game.ai_can_shoot());
    game.ai_board.size = 5;
    game.user_board.prev_hit = sea_battle::Shot { coordinates: Cell::new(i32::MAX, 0), result: ShotResult::Hit };
    assert!(!game.ai_can_shoot());
}

#[test]
fn deal_step_places_then_moves_to_the_next_ship() {
    let mut board = Board::new(false, 5);
    let ships = [3u8, 2];
    let next = Game::deal_step(&mut board, &ships, DealState::Placing(0, 0), 0, 0, true);
    assert_eq!(next, DealState::Placing(1, 0));
    assert_eq!(board.ships.len(), 1);
    assert_eq!(board.ships[0].cells(), vec![Cell::new(0, 0), Cell::new(1, 0), Cell::new(2, 0)]);
    assert_eq!(board.field[2][0], SeaField::Ship);
    // next to the first ship: refused, one more miss, board unchanged
    let busy = board.busy.clone();
    let next = Game::deal_step(&mut board, &ships, next, 1, 1, false);
    assert_eq!(next, DealState::Placing(1, 1));
    assert_eq!(board.ships.len(), 1);
    assert_eq!(board.busy, busy);
    // off the board: refused too
    let next = Game::deal_step(&mut board, &ships, next, 4, 4, true);
    assert_eq!(next, DealState::Placing(1, 2));
    // the last ship placed completes the fleet
    let next = Game::deal_step(&mut board, &ships, next, 0, 3, true);
    assert_eq!(next, DealState::Complete);
    assert_eq!(board.ships.len(), 2);
    assert!(!next.in_progress());
}

#[test]
fn deal_step_gives_up_at_the_hundredth_miss() {
    let mut board = Board::new(false, 3);
    let ships = [3u8, 3];
    let next = Game::deal_step(&mut board, &ships, DealState::Placing(0, 0), 0, 0, true);
    assert_eq!(next, DealState::Placing(1, 0));
    assert!(next.in_progress());
    let mut state = next;
    for misses in 1..100u32 {
        state = Game::deal_step(&mut board, &ships, state, 0, 1, false);
        assert_eq!(state, DealState::Placing(1, misses));
    }
    let next = Game::deal_step(&mut board, &ships, state, 0, 1, false);
    assert_eq!(next, DealState::GaveUp);
    assert!(!next.in_progress());
    assert_eq!(board.ships.len(), 1);
}

#[test]
fn hidden_boards_print_alike_wherever_the_ships_are() {
    let mut a = Board::new(true, 4);
    let mut b = Board::new(true, 4);
    a.add_ship(Ship::new(Cell::new(0, 0), 2, true)).unwrap();
    b.add_ship(Ship::new(Cell::new(3, 1), 3, false)).unwrap();
    assert_eq!(a.to_string(), b.to_string());
    a.hide = false;
    assert_ne!(a.to_string(), b.to_string());
}

#[test]
fn defeat_stays_after_further_shots() {
    let mut board = Board::new(false, 4);
    board.add_ship(Ship::new(Cell::new(1, 1), 1, true)).unwrap();
    board.begin();
    assert_eq!(board.shot(Cell::new(1, 1)), ShotResult::Dead);
    assert!(board.defeat());
    for target in [Cell::new(3, 3), Cell::new(1, 1), Cell::new(0, 0), Cell::new(7, 0)] {
        board.shot(target);
        assert!(board.defeat());
        assert_eq!(board.count, 1);
    }
}
