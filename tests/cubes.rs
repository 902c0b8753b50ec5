use bricks::cubes::{parse_input, part1, Game, Stock, Turn};

fn turn(pairs: &[(&str, u32)]) -> Turn {
    Turn {
        counts: pairs.iter().map(|(c, n)| (c.to_string(), *n)).collect(),
    }
}

fn stock(pairs: &[(&str, u32)]) -> Stock {
    Stock {
        counts: pairs.iter().map(|(c, n)| (c.to_string(), *n)).collect(),
    }
}

fn example_games() -> Vec<Game> {
    vec![
        Game {
            id: 1,
            turns: vec![
                turn(&[("blue", 3), ("red", 4)]),
                turn(&[("red", 1), ("green", 2), ("blue", 6)]),
                turn(&[("green", 2)]),
            ],
        },
        Game {
            id: 2,
            turns: vec![
                turn(&[("blue", 1), ("green", 2)]),
                turn(&[("green", 3), ("blue", 4), ("red", 1)]),
                turn(&[("green", 1), ("blue", 1)]),
            ],
        },
        Game {
            id: 3,
            turns: vec![
                turn(&[("green", 8), ("blue", 6), ("red", 20)]),
                turn(&[("blue", 5), ("red", 4), ("green", 13)]),
                turn(&[("green", 5), ("red", 1)]),
            ],
        },
        Game {
            id: 4,
            turns: vec![
                turn(&[("green", 1), ("red", 3), ("blue", 6)]),
                turn(&[("green", 3), ("red", 6)]),
                turn(&[("green", 3), ("blue", 15), ("red", 14)]),
            ],
        },
        Game {
            id: 5,
            turns: vec![
                turn(&[("red", 6), ("blue", 1), ("green", 3)]),
                turn(&[("blue", 2), ("red", 1), ("green", 2)]),
            ],
        },
    ]
}

#[test]
fn possible_games() {
    let bag = stock(&[("red", 12), ("green", 13), ("blue", 14)]);
    assert_eq!(part1(&example_games(), &bag), 8);
}

#[test]
fn minimum_requirements_and_power() {
    let games = example_games();
    let powers: Vec<u32> = games.iter().map(|g| g.min_requirement().power()).collect();
    assert_eq!(powers, vec![48, 12, 1560, 630, 36]);
    let need = games[0].min_requirement();
    assert_eq!(need.get("red"), 4);
    assert_eq!(need.get("green"), 2);
    assert_eq!(need.get("blue"), 6);
    assert_eq!(need.get("purple"), 0);
}

#[test]
fn stock_updates() {
    let mut s = Stock::default();
    s.update_requirement("red", 3);
    s.update_requirement("red", 1);
    s.update_requirement("blue", 0);
    assert_eq!(s.get("red"), 3);
    assert_eq!(s.power(), 0);
    assert!(stock(&[("red", 3)]).suffices_for(&stock(&[("red", 2)])));
    assert!(!stock(&[("red", 3)]).suffices_for(&stock(&[("blue", 1)])));
}

#[test]
fn games_from_text() {
    let input = "Game 1: 3 blue, 4 red; 1 red, 2 green, 6 blue; 2 green\n\
Game 2: 1 blue, 2 green; 3 green, 4 blue, 1 red; 1 green, 1 blue\n\
Game 3: 8 green, 6 blue, 20 red; 5 blue, 4 red, 13 green; 5 green, 1 red\n\
Game 4: 1 green, 3 red, 6 blue; 3 green, 6 red; 3 green, 15 blue, 14 red\n\
Game 5: 6 red, 1 blue, 3 green; 2 blue, 1 red, 2 green\n";
    let games = parse_input(input).expect("example should be valid");
    assert_eq!(games.len(), 5);
    assert_eq!(games[2].id, 3);
    let bag = stock(&[("red", 12), ("green", 13), ("blue", 14)]);
    assert_eq!(part1(&games, &bag), 8);
    assert!(Game::try_from("Gme 1: 3 blue").is_err());
    assert!(Game::try_from("Game x: 3 blue").is_err());
    assert!(Game::try_from("Game 1: 3blue").is_err());
    assert!(Game::try_from("Game 1 3 blue").is_err());
}
