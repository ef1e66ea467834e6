use sudoku_gen::menu::{
    back_button_listen, generate_random_numbers, start_game, AppState, DifficultyOptions, GameState,
    MenuButtonType, MenuOutcome, MenuState, SettingsButtonType,
};
use sudoku_gen::Difficulty;

const NOTHING: MenuOutcome = MenuOutcome { menu: None, app: None, game: None, exit: false };

#[test]
fn menu_labels() {
    assert_eq!(MenuButtonType::NewGame.as_str(), "New Game");
    assert_eq!(MenuButtonType::Exit.as_str(), "Exit");
    assert_eq!(SettingsButtonType::Controls.as_str(), "Controls");
    assert_eq!(DifficultyOptions::Expert.as_str(), "Expert");
}

#[test]
fn main_menu_buttons() {
    assert_eq!(
        MenuButtonType::NewGame.action(false),
        MenuOutcome { menu: Some(MenuState::NewGame), ..NOTHING }
    );
    assert_eq!(MenuButtonType::Continue.action(false), NOTHING);
    assert_eq!(
        MenuButtonType::Continue.action(true),
        MenuOutcome { app: Some(AppState::Game), game: Some(GameState::Loading), ..NOTHING }
    );
    assert_eq!(MenuButtonType::Exit.action(true), MenuOutcome { exit: true, ..NOTHING });
}

#[test]
fn settings_buttons_and_back() {
    assert_eq!(SettingsButtonType::Theme.action(), MenuState::SettingsTheme);
    assert_eq!(SettingsButtonType::Back.action(), MenuState::Main);
    assert_eq!(back_button_listen(), MenuState::Main);
    assert_eq!(MenuState::default(), MenuState::Main);
    assert_eq!(AppState::default(), AppState::Splash);
    assert_eq!(GameState::default(), GameState::Ended);
}

#[test]
fn starting_a_game() {
    let (difficulty, outcome) = start_game(DifficultyOptions::Hard);
    assert_eq!(difficulty, Difficulty::Hard);
    assert_eq!(Difficulty::from(DifficultyOptions::Medium), Difficulty::Medium);
    assert_eq!(
        outcome,
        MenuOutcome {
            menu: Some(MenuState::Hidden),
            app: Some(AppState::Game),
            game: Some(GameState::Loading),
            exit: false
        }
    );
}

#[test]
fn loading_numbers_are_permutations() {
    let pairs = generate_random_numbers();
    assert_eq!(pairs.len(), 9);
    let mut numbers: Vec<u8> = pairs.iter().map(|p| p.0).collect();
    let mut cells: Vec<u8> = pairs.iter().map(|p| p.1).collect();
    numbers.sort();
    cells.sort();
    assert_eq!(numbers, (1..=9).collect::<Vec<u8>>());
    assert_eq!(cells, (0..9).collect::<Vec<u8>>());
}
