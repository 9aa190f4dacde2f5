use snakes::base::{Config, Coord, Direction, GamePlayer, NodeRole, PlayerType, Snake, SnakeState, WorldCell};
use snakes::grid::World;
use snakes::tick::StepOutcome;
use snakes::world::Game;

fn config(width: i32, height: i32, food_static: i32) -> Config {
    Config { width, height, food_static, state_delay_ms: 500 }
}

fn snake(player_id: i32, body: &[(i32, i32)], direction: Direction) -> Snake {
    Snake {
        player_id,
        body: body.iter().map(|&(x, y)| Coord::new(x, y)).collect(),
        direction,
        state: SnakeState::ALIVE,
    }
}

fn player(id: i32) -> GamePlayer {
    GamePlayer {
        name: format!("p{}", id),
        id,
        ip_address: String::from("127.0.0.1:4000"),
        role: NodeRole::NORMAL,
        player_type: PlayerType::HUMAN,
        score: 0,
    }
}

fn assert_grid_matches(game: &Game) {
    let w = game.config.width as usize;
    let h = game.config.height as usize;
    assert_eq!(game.world.len(), h);
    for y in 0..h {
        assert_eq!(game.world[y].len(), w);
        for x in 0..w {
            let c = Coord::new(x as i32, y as i32);
            let on_snake = game.snakes.iter().any(|s| s.body.contains(&c));
            let on_food = game.food.contains(&c);
            assert!(!(on_snake && on_food));
            let expected = if on_food {
                WorldCell::Food
            } else if on_snake {
                WorldCell::Snake
            } else {
                WorldCell::Empty
            };
            assert_eq!(game.world[y][x], expected);
        }
    }
}

#[test]
fn new_game_is_empty() {
    let game = Game::new(config(4, 3, 2));
    assert_eq!(game.world.len(), 3);
    assert!(game.world.iter().all(|row| row.len() == 4));
    assert!(game.world.iter().all(|row| row.iter().all(|c| *c == WorldCell::Empty)));
    assert!(game.food.is_empty());
    assert!(game.snakes.is_empty());
    assert!(game.players.is_empty());
    assert_eq!(game.order, 0);
}

#[test]
fn solo_master_single_tick() {
    let mut game = Game::new(config(10, 10, 1));
    assert!(game.add_snake(snake(0, &[(4, 5), (5, 5)], Direction::RIGHT)));
    assert!(game.add_food_to(Coord::new(0, 0)));
    let dead = game.update();
    assert!(dead.is_empty());
    assert_eq!(game.snakes.len(), 1);
    assert_eq!(game.snakes[0].body, vec![Coord::new(5, 5), Coord::new(6, 5)]);
    assert_eq!(game.food.len(), 1);
    assert_eq!(game.order, 1);
    assert_grid_matches(&game);
}

#[test]
fn wrap_around_returns_after_three_ticks() {
    let mut game = Game::new(config(3, 1, 0));
    assert!(game.add_snake(snake(0, &[(0, 0), (1, 0)], Direction::RIGHT)));
    let start = game.snakes[0].body.clone();
    for _ in 0..3 {
        let dead = game.update();
        assert!(dead.is_empty());
        assert_grid_matches(&game);
    }
    assert_eq!(game.snakes[0].body, start);
    assert!(game.food.is_empty());
}

#[test]
fn wrap_around_step_by_step() {
    let mut game = Game::new(config(3, 1, 0));
    assert!(game.add_snake(snake(0, &[(0, 0), (1, 0)], Direction::RIGHT)));
    assert_eq!(game.step_snake(0, &vec![]), StepOutcome::Moved);
    assert_eq!(game.snakes[0].body, vec![Coord::new(1, 0), Coord::new(2, 0)]);
    assert_eq!(game.step_snake(0, &vec![]), StepOutcome::Moved);
    assert_eq!(game.snakes[0].body, vec![Coord::new(2, 0), Coord::new(0, 0)]);
    assert_eq!(game.world[0], vec![WorldCell::Snake, WorldCell::Empty, WorldCell::Snake]);
}

#[test]
fn wrap_around_upwards_and_left() {
    let mut game = Game::new(config(3, 3, 0));
    assert!(game.add_snake(snake(0, &[(0, 1), (0, 0)], Direction::UP)));
    assert_eq!(game.step_snake(0, &vec![]), StepOutcome::Moved);
    assert_eq!(game.snakes[0].body, vec![Coord::new(0, 0), Coord::new(0, 2)]);
    game.snakes[0].direction = Direction::LEFT;
    assert_eq!(game.step_snake(0, &vec![]), StepOutcome::Moved);
    assert_eq!(game.snakes[0].body, vec![Coord::new(0, 2), Coord::new(2, 2)]);
    assert_grid_matches(&game);
}

#[test]
fn food_consumption_grows_and_scores() {
    let mut game = Game::new(config(5, 1, 1));
    game.players.push(player(7));
    assert!(game.add_snake(snake(7, &[(0, 0), (1, 0)], Direction::RIGHT)));
    assert!(game.add_food_to(Coord::new(2, 0)));
    let dead = game.update();
    assert!(dead.is_empty());
    assert_eq!(
        game.snakes[0].body,
        vec![Coord::new(0, 0), Coord::new(1, 0), Coord::new(2, 0)]
    );
    assert_eq!(game.food.len(), 1);
    assert!(!game.food.contains(&Coord::new(2, 0)));
    assert_eq!(game.players[0].score, 10);
    assert_grid_matches(&game);
}

#[test]
fn zombie_snake_is_not_credited() {
    let mut game = Game::new(config(5, 1, 0));
    game.players.push(player(7));
    let mut s = snake(7, &[(0, 0), (1, 0)], Direction::RIGHT);
    s.state = SnakeState::ZOMBIE;
    assert!(game.add_snake(s));
    assert!(game.add_food_to(Coord::new(2, 0)));
    assert_eq!(game.step_snake(0, &vec![]), StepOutcome::Fed);
    assert_eq!(game.snakes[0].body.len(), 3);
    assert_eq!(game.players[0].score, 0);
    assert!(game.food.is_empty());
}

#[test]
fn score_is_held_at_the_largest_value() {
    let mut game = Game::new(config(5, 1, 0));
    let mut p = player(7);
    p.score = i32::MAX - 3;
    game.players.push(p);
    assert!(game.add_snake(snake(7, &[(0, 0), (1, 0)], Direction::RIGHT)));
    assert!(game.add_food_to(Coord::new(2, 0)));
    assert_eq!(game.step_snake(0, &vec![]), StepOutcome::Fed);
    assert_eq!(game.players[0].score, i32::MAX);
}

#[test]
fn self_collision_with_given_coins() {
    // a loop of five cells whose head steps onto its own body
    let mut game = Game::new(config(4, 4, 3));
    let body = [(0, 0), (1, 0), (1, 1), (0, 1), (0, 2)];
    assert!(game.add_snake(snake(3, &body, Direction::UP)));
    // the head at (0, 2) heads up onto (0, 1)
    let coins = vec![true, false, true, false, true];
    assert_eq!(game.step_snake(0, &coins), StepOutcome::Died);
    assert!(game.snakes.is_empty());
    assert_eq!(
        game.food,
        vec![Coord::new(0, 0), Coord::new(1, 1), Coord::new(0, 2)]
    );
    assert_eq!(game.world[0][1], WorldCell::Empty);
    assert_eq!(game.world[1][0], WorldCell::Empty);
    assert_grid_matches(&game);
}

#[test]
fn corpse_turns_into_food_only_up_to_the_target() {
    let body = [(0, 0), (1, 0), (1, 1), (0, 1), (0, 2)];
    let coins = vec![true, true, true, true, true];
    // the board lacks two foods to its target
    let mut game = Game::new(config(4, 4, 3));
    assert!(game.add_food_to(Coord::new(3, 3)));
    assert!(game.add_snake(snake(3, &body, Direction::UP)));
    assert_eq!(game.step_snake(0, &coins), StepOutcome::Died);
    assert_eq!(game.food, vec![Coord::new(3, 3), Coord::new(0, 0), Coord::new(1, 0)]);
    assert_eq!(game.world[1][1], WorldCell::Empty);
    assert_grid_matches(&game);
    // the board is at its target: no cell turns into food
    let mut game = Game::new(config(4, 4, 0));
    assert!(game.add_snake(snake(3, &body, Direction::UP)));
    assert_eq!(game.step_snake(0, &coins), StepOutcome::Died);
    assert!(game.food.is_empty());
    assert_grid_matches(&game);
}

#[test]
fn self_collision_is_reported_by_update() {
    let mut game = Game::new(config(4, 4, 0));
    let body = [(0, 0), (1, 0), (1, 1), (0, 1), (0, 2)];
    assert!(game.add_snake(snake(3, &body, Direction::UP)));
    let dead = game.update();
    assert_eq!(dead, vec![3]);
    assert!(game.snakes.is_empty());
    assert!(game.food.is_empty());
    assert_grid_matches(&game);
}

#[test]
fn food_stays_at_the_target_when_a_snake_dies() {
    for _ in 0..20 {
        let mut game = Game::new(config(4, 4, 2));
        let body = [(0, 0), (1, 0), (1, 1), (0, 1), (0, 2)];
        assert!(game.add_snake(snake(3, &body, Direction::UP)));
        assert!(game.add_food_to(Coord::new(3, 3)));
        let dead = game.update();
        assert_eq!(dead, vec![3]);
        assert_eq!(game.food.len(), 2);
        assert_eq!(game.food[0], Coord::new(3, 3));
        assert_grid_matches(&game);
    }
}

#[test]
fn dead_zombie_is_not_reported() {
    let mut game = Game::new(config(4, 4, 0));
    let body = [(0, 0), (1, 0), (1, 1), (0, 1), (0, 2)];
    let mut s = snake(3, &body, Direction::UP);
    s.state = SnakeState::ZOMBIE;
    assert!(game.add_snake(s));
    let dead = game.update();
    assert!(dead.is_empty());
    assert!(game.snakes.is_empty());
}

#[test]
fn snake_follows_its_own_tail() {
    // on a ring of two cells the cell ahead is the tail cell, which the
    // tail leaves as the head comes
    let mut game = Game::new(config(2, 1, 0));
    assert!(game.add_snake(snake(1, &[(0, 0), (1, 0)], Direction::RIGHT)));
    assert_eq!(game.cell_ahead(0), WorldCell::Empty);
    assert_eq!(game.step_snake(0, &vec![]), StepOutcome::Moved);
    assert_eq!(game.snakes[0].body, vec![Coord::new(1, 0), Coord::new(0, 0)]);
    assert_eq!(game.world[0], vec![WorldCell::Snake, WorldCell::Snake]);
    let dead = game.update();
    assert!(dead.is_empty());
    assert_eq!(game.snakes[0].body, vec![Coord::new(0, 0), Coord::new(1, 0)]);
    assert_grid_matches(&game);
    // a square of four cells, round and round
    let mut game = Game::new(config(2, 2, 0));
    assert!(game.add_snake(snake(1, &[(0, 0), (1, 0), (1, 1), (0, 1)], Direction::UP)));
    assert_eq!(game.step_snake(0, &vec![]), StepOutcome::Moved);
    assert_eq!(
        game.snakes[0].body,
        vec![Coord::new(1, 0), Coord::new(1, 1), Coord::new(0, 1), Coord::new(0, 0)]
    );
    assert_grid_matches(&game);
}

#[test]
fn snake_of_one_cell_on_a_ring_of_one_stays() {
    let mut game = Game::new(config(1, 1, 0));
    assert!(game.add_snake(snake(1, &[(0, 0)], Direction::RIGHT)));
    assert_eq!(game.step_snake(0, &vec![]), StepOutcome::Moved);
    assert_eq!(game.snakes[0].body, vec![Coord::new(0, 0)]);
    assert_eq!(game.world[0][0], WorldCell::Snake);
}

#[test]
fn later_snake_dies_on_the_cell_an_earlier_one_took() {
    let mut game = Game::new(config(5, 3, 0));
    assert!(game.add_snake(snake(1, &[(0, 1), (1, 1)], Direction::RIGHT)));
    assert!(game.add_snake(snake(2, &[(2, 2), (2, 0)], Direction::DOWN)));
    let dead = game.update();
    assert_eq!(dead, vec![2]);
    assert_eq!(game.snakes.len(), 1);
    assert_eq!(game.snakes[0].player_id, 1);
    assert_eq!(game.snakes[0].body, vec![Coord::new(1, 1), Coord::new(2, 1)]);
    assert_grid_matches(&game);
}

#[test]
fn food_fills_every_free_cell() {
    let mut game = Game::new(config(10, 10, 99));
    assert!(game.add_snake(snake(0, &[(4, 5), (5, 5)], Direction::RIGHT)));
    let dead = game.update();
    assert!(dead.is_empty());
    // the snake covers two cells, the food the other ninety-eight
    assert_eq!(game.food.len(), 98);
    assert!(game.free_coords().is_empty());
    for row in &game.world {
        for cell in row {
            assert_ne!(*cell, WorldCell::Empty);
        }
    }
    assert_grid_matches(&game);
}

#[test]
fn refill_reaches_the_configured_count() {
    let mut game = Game::new(config(6, 6, 7));
    game.refill_food();
    assert_eq!(game.food.len(), 7);
    game.refill_food();
    assert_eq!(game.food.len(), 7);
    assert_grid_matches(&game);
}

#[test]
fn add_food_only_on_free_cells_of_the_board() {
    let mut game = Game::new(config(3, 3, 0));
    assert!(game.add_snake(snake(0, &[(0, 0), (1, 0)], Direction::RIGHT)));
    assert!(!game.add_food_to(Coord::new(0, 0)));
    assert!(!game.add_food_to(Coord::new(3, 0)));
    assert!(!game.add_food_to(Coord::new(0, -1)));
    assert!(game.add_food_to(Coord::new(2, 2)));
    assert!(!game.add_food_to(Coord::new(2, 2)));
    assert_eq!(game.food, vec![Coord::new(2, 2)]);
}

#[test]
fn free_coords_go_row_by_row() {
    let mut game = Game::new(config(2, 2, 0));
    assert!(game.add_food_to(Coord::new(1, 0)));
    assert_eq!(
        game.free_coords(),
        vec![Coord::new(0, 0), Coord::new(0, 1), Coord::new(1, 1)]
    );
    let mut shuffled = game.get_free_coords_shuffled();
    shuffled.sort();
    assert_eq!(shuffled, vec![(0, 0), (0, 1), (1, 1)]);
    let drawn = game.get_free_random_coord().unwrap();
    assert!(game.free_coords().contains(&drawn));
}

#[test]
fn no_free_cell_on_a_full_board() {
    let mut game = Game::new(config(1, 1, 5));
    game.refill_food();
    assert_eq!(game.food, vec![Coord::new(0, 0)]);
    assert_eq!(game.get_free_random_coord(), None);
    assert!(game.get_free_coords_shuffled().is_empty());
}

#[test]
fn add_snake_refuses_what_does_not_fit() {
    let mut game = Game::new(config(4, 4, 0));
    assert!(game.add_snake(snake(1, &[(0, 0), (1, 0)], Direction::RIGHT)));
    // the owner has a snake already
    assert!(!game.add_snake(snake(1, &[(2, 2), (3, 2)], Direction::RIGHT)));
    // a cell of another snake
    assert!(!game.add_snake(snake(2, &[(1, 1), (1, 0)], Direction::UP)));
    // off the board
    assert!(!game.add_snake(snake(2, &[(3, 3), (4, 3)], Direction::RIGHT)));
    // a cell twice
    assert!(!game.add_snake(snake(2, &[(2, 2), (2, 2)], Direction::RIGHT)));
    // no head
    assert!(!game.add_snake(snake(2, &[], Direction::RIGHT)));
    assert_eq!(game.snakes.len(), 1);
    assert_grid_matches(&game);
}

#[test]
fn add_snake_takes_the_food_under_it() {
    let mut game = Game::new(config(4, 4, 0));
    assert!(game.add_food_to(Coord::new(1, 1)));
    assert!(game.add_food_to(Coord::new(3, 3)));
    assert!(game.add_snake(snake(1, &[(0, 1), (1, 1)], Direction::RIGHT)));
    assert_eq!(game.food, vec![Coord::new(3, 3)]);
    assert_eq!(game.world[1][1], WorldCell::Snake);
    assert_grid_matches(&game);
}

#[test]
fn cell_at_reads_the_board() {
    let mut game = Game::new(config(3, 2, 0));
    assert!(game.add_food_to(Coord::new(2, 1)));
    assert_eq!(game.cell_at(2, 1), Some(WorldCell::Food));
    assert_eq!(game.cell_at(0, 0), Some(WorldCell::Empty));
    assert_eq!(game.cell_at(3, 0), None);
    assert_eq!(game.cell_at(0, 2), None);
    assert_eq!(game.cell_at(-1, 0), None);
}

#[test]
fn tick_advances_like_update() {
    let mut game = Game::new(config(6, 1, 0));
    assert!(game.add_snake(snake(0, &[(0, 0), (1, 0)], Direction::RIGHT)));
    game.tick();
    assert_eq!(game.snakes[0].body, vec![Coord::new(1, 0), Coord::new(2, 0)]);
    assert_eq!(game.order, 1);
    game.tick();
    assert_eq!(game.order, 2);
    assert_grid_matches(&game);
}

#[test]
fn grid_copy_lays_one_grid_over_another() {
    let mut dst = vec![vec![WorldCell::Empty; 3]; 2];
    let src = vec![vec![WorldCell::Food, WorldCell::Snake], vec![WorldCell::Snake]];
    dst.copy(&src);
    assert_eq!(
        dst,
        vec![
            vec![WorldCell::Food, WorldCell::Snake, WorldCell::Empty],
            vec![WorldCell::Snake, WorldCell::Empty, WorldCell::Empty],
        ]
    );
}

#[test]
fn grid_offers_a_free_cell() {
    let grid = vec![vec![WorldCell::Food, WorldCell::Empty], vec![WorldCell::Snake, WorldCell::Snake]];
    assert_eq!(World::get_free_random_coord(&grid), Some(Coord::new(1, 0)));
    let full = vec![vec![WorldCell::Food]];
    assert_eq!(World::get_free_random_coord(&full), None);
    let none: Vec<Vec<WorldCell>> = vec![];
    assert_eq!(World::get_free_random_coord(&none), None);
}
