//! The decisions of the game's menus: the labels of their buttons, the
//! states that pressing a button leads to, and the numbers of the loading
//! animation.
use crate::difficulty::Difficulty;
use crate::generate::{is_permutation, lemma_permutation, lemma_same_multiset, shuffle, upto};
use vstd::prelude::*;

verus! {

/// The screens of the menus.
#[derive(Clone, Copy, Eq, PartialEq, Debug, Hash, Structural)]
pub enum MenuState {
    Main,
    NewGame,
    Settings,
    SettingsTheme,
    SettingsHints,
    SettingsControls,
    SettingsAbout,
    Hidden,
}

impl Default for MenuState {
    fn default() -> (r: MenuState)
        ensures
            r == MenuState::Main,
    {
        MenuState::Main
    }
}

/// The states of the application.
#[derive(Clone, Copy, Eq, PartialEq, Debug, Hash, Structural)]
pub enum AppState {
    Splash,
    Menu,
    Game,
}

impl Default for AppState {
    fn default() -> (r: AppState)
        ensures
            r == AppState::Splash,
    {
        AppState::Splash
    }
}

/// The states of a game.
#[derive(Clone, Copy, Eq, PartialEq, Debug, Hash, Structural)]
pub enum GameState {
    Loading,
    Playing,
    Paused,
    Ended,
}

impl Default for GameState {
    fn default() -> (r: GameState)
        ensures
            r == GameState::Ended,
    {
        GameState::Ended
    }
}

/// What pressing a button asks for: the next menu screen, the next state
/// of the application and of the game (each when it changes), and whether
/// to quit.
#[derive(Clone, Copy, Eq, PartialEq, Debug, Structural)]
pub struct MenuOutcome {
    pub menu: Option<MenuState>,
    pub app: Option<AppState>,
    pub game: Option<GameState>,
    pub exit: bool,
}

/// Nothing changes.
pub open spec fn no_change() -> MenuOutcome {
    MenuOutcome { menu: None, app: None, game: None, exit: false }
}

/// Different types of buttons in the main menu.
#[derive(Copy, Clone, Eq, PartialEq, Debug, Structural)]
pub enum MenuButtonType {
    NewGame,
    Continue,
    Settings,
    Exit,
}

impl MenuButtonType {
    /// The label of the button.
    pub fn as_str(&self) -> (r: &'static str)
        ensures
            r@ == match *self {
                MenuButtonType::NewGame => seq!['N', 'e', 'w', ' ', 'G', 'a', 'm', 'e'],
                MenuButtonType::Continue => seq!['C', 'o', 'n', 't', 'i', 'n', 'u', 'e'],
                MenuButtonType::Settings => seq!['S', 'e', 't', 't', 'i', 'n', 'g', 's'],
                MenuButtonType::Exit => seq!['E', 'x', 'i', 't'],
            },
    {
        match self {
            MenuButtonType::NewGame => {
                proof {
                    reveal_strlit("New Game");
                }
                "New Game"
            },
            MenuButtonType::Continue => {
                proof {
                    reveal_strlit("Continue");
                }
                "Continue"
            },
            MenuButtonType::Settings => {
                proof {
                    reveal_strlit("Settings");
                }
                "Settings"
            },
            MenuButtonType::Exit => {
                proof {
                    reveal_strlit("Exit");
                }
                "Exit"
            },
        }
    }

    /// What pressing the button asks for: the new game menu, the cached
    /// game (only when there is one), the settings menu, or quitting.
    pub fn action(&self, has_unfinished_game: bool) -> (r: MenuOutcome)
        ensures
            r == match *self {
                MenuButtonType::NewGame => MenuOutcome { menu: Some(MenuState::NewGame), ..no_change() },
                MenuButtonType::Continue => if has_unfinished_game {
                    MenuOutcome { app: Some(AppState::Game), game: Some(GameState::Loading), ..no_change() }
                } else {
                    no_change()
                },
                MenuButtonType::Settings => MenuOutcome { menu: Some(MenuState::Settings), ..no_change() },
                MenuButtonType::Exit => MenuOutcome { exit: true, ..no_change() },
            },
    {
        let none = MenuOutcome { menu: None, app: None, game: None, exit: false };
        match self {
            MenuButtonType::NewGame => MenuOutcome { menu: Some(MenuState::NewGame), ..none },
            MenuButtonType::Continue => {
                if has_unfinished_game {
                    MenuOutcome { app: Some(AppState::Game), game: Some(GameState::Loading), ..none }
                } else {
                    none
                }
            },
            MenuButtonType::Settings => MenuOutcome { menu: Some(MenuState::Settings), ..none },
            MenuButtonType::Exit => MenuOutcome { exit: true, ..none },
        }
    }
}

/// Different types of buttons in the settings menu.
#[derive(Copy, Clone, Eq, PartialEq, Debug, Structural)]
pub enum SettingsButtonType {
    Theme,
    Hints,
    Controls,
    About,
    Back,
}

impl SettingsButtonType {
    /// The label of the button.
    pub fn as_str(&self) -> (r: &'static str)
        ensures
            r@ == match *self {
                SettingsButtonType::Theme => seq!['T', 'h', 'e', 'm', 'e'],
                SettingsButtonType::Hints => seq!['H', 'i', 'n', 't', 's'],
                SettingsButtonType::Controls => seq!['C', 'o', 'n', 't', 'r', 'o', 'l', 's'],
                SettingsButtonType::About => seq!['A', 'b', 'o', 'u', 't'],
                SettingsButtonType::Back => seq!['B', 'a', 'c', 'k'],
            },
    {
        match self {
            SettingsButtonType::Theme => {
                proof {
                    reveal_strlit("Theme");
                }
                "Theme"
            },
            SettingsButtonType::Hints => {
                proof {
                    reveal_strlit("Hints");
                }
                "Hints"
            },
            SettingsButtonType::Controls => {
                proof {
                    reveal_strlit("Controls");
                }
                "Controls"
            },
            SettingsButtonType::About => {
                proof {
                    reveal_strlit("About");
                }
                "About"
            },
            SettingsButtonType::Back => {
                proof {
                    reveal_strlit("Back");
                }
                "Back"
            },
        }
    }

    /// The menu screen that pressing the button leads to.
    pub fn action(&self) -> (r: MenuState)
        ensures
            r == match *self {
                SettingsButtonType::Theme => MenuState::SettingsTheme,
                SettingsButtonType::Hints => MenuState::SettingsHints,
                SettingsButtonType::Controls => MenuState::SettingsControls,
                SettingsButtonType::About => MenuState::SettingsAbout,
                SettingsButtonType::Back => MenuState::Main,
            },
    {
        match self {
            SettingsButtonType::Theme => MenuState::SettingsTheme,
            SettingsButtonType::Hints => MenuState::SettingsHints,
            SettingsButtonType::Controls => MenuState::SettingsControls,
            SettingsButtonType::About => MenuState::SettingsAbout,
            SettingsButtonType::Back => MenuState::Main,
        }
    }
}

/// The difficulties offered by the new game menu.
#[derive(Debug, Clone, Copy, Eq, PartialEq, Structural)]
pub enum DifficultyOptions {
    Easy,
    Medium,
    Hard,
    Expert,
}

impl DifficultyOptions {
    /// The label of the option.
    pub fn as_str(&self) -> (r: &'static str)
        ensures
            r@ == match *self {
                DifficultyOptions::Easy => seq!['E', 'a', 's', 'y'],
                DifficultyOptions::Medium => seq!['M', 'e', 'd', 'i', 'u', 'm'],
                DifficultyOptions::Hard => seq!['H', 'a', 'r', 'd'],
                DifficultyOptions::Expert => seq!['E', 'x', 'p', 'e', 'r', 't'],
            },
    {
        match self {
            DifficultyOptions::Easy => {
                proof {
                    reveal_strlit("Easy");
                }
                "Easy"
            },
            DifficultyOptions::Medium => {
                proof {
                    reveal_strlit("Medium");
                }
                "Medium"
            },
            DifficultyOptions::Hard => {
                proof {
                    reveal_strlit("Hard");
                }
                "Hard"
            },
            DifficultyOptions::Expert => {
                proof {
                    reveal_strlit("Expert");
                }
                "Expert"
            },
        }
    }
}

/// The difficulty level that an option of the new game menu stands for.
pub open spec fn option_level(option: DifficultyOptions) -> Difficulty {
    match option {
        DifficultyOptions::Easy => Difficulty::Easy,
        DifficultyOptions::Medium => Difficulty::Medium,
        DifficultyOptions::Hard => Difficulty::Hard,
        DifficultyOptions::Expert => Difficulty::Expert,
    }
}

impl From<DifficultyOptions> for Difficulty {
    fn from(option: DifficultyOptions) -> (r: Difficulty) {
        match option {
            DifficultyOptions::Easy => Difficulty::Easy,
            DifficultyOptions::Medium => Difficulty::Medium,
            DifficultyOptions::Hard => Difficulty::Hard,
            DifficultyOptions::Expert => Difficulty::Expert,
        }
    }
}

impl vstd::std_specs::convert::FromSpecImpl<DifficultyOptions> for Difficulty {
    open spec fn obeys_from_spec() -> bool {
        true
    }

    open spec fn from_spec(option: DifficultyOptions) -> Difficulty {
        option_level(option)
    }
}

/// Choosing a difficulty in the new game menu: the level chosen, and the
/// menus hidden while a game loads.
pub fn start_game(option: DifficultyOptions) -> (r: (Difficulty, MenuOutcome))
    ensures
        r.0 == option_level(option),
        r.1 == (MenuOutcome {
            menu: Some(MenuState::Hidden),
            app: Some(AppState::Game),
            game: Some(GameState::Loading),
            exit: false,
        }),
{
    let difficulty = Difficulty::from(option);
    (difficulty, MenuOutcome {
        menu: Some(MenuState::Hidden),
        app: Some(AppState::Game),
        game: Some(GameState::Loading),
        exit: false,
    })
}

/// The menu screen that the back button of the new game menu leads to.
pub fn back_button_listen() -> (r: MenuState)
    ensures
        r == MenuState::Main,
{
    MenuState::Main
}

/// A random sequence of (number, cell index) pairs for the loading animation:
/// the numbers `1..=9` and the cell indexes `0..9`, each once, in random orders.
pub fn generate_random_numbers() -> (r: Vec<(u8, u8)>)
    ensures
        r@.len() == 9,
        is_permutation(r@.map_values(|p: (u8, u8)| (p.0 - 1) as u8), 9),
        is_permutation(r@.map_values(|p: (u8, u8)| p.1), 9),
        forall|i: int| 0 <= i < 9 ==> 1 <= #[trigger] r@[i].0 <= 9,
{
    let mut numbers: Vec<u8> = Vec::new();
    let mut indexes: Vec<u8> = Vec::new();
    let mut v: u8 = 0;
    while v < 9
        invariant
            0 <= v <= 9,
            indexes@ == upto(v as nat),
            numbers@ == upto(v as nat).map_values(|x: u8| (x + 1) as u8),
        decreases 9 - v,
    {
        indexes.push(v);
        numbers.push(v + 1);
        v += 1;
        assert(indexes@ =~= upto(v as nat));
        assert(numbers@ =~= upto(v as nat).map_values(|x: u8| (x + 1) as u8));
    }
    let ghost before = numbers@;
    assert(before.no_duplicates()) by {
        assert forall|i: int, j: int| 0 <= i < j < before.len() implies before[i] != before[j] by {
            assert(before[i] == i + 1 && before[j] == j + 1);
        }
    }
    shuffle(&mut numbers);
    shuffle(&mut indexes);
    proof {
        lemma_permutation(indexes@, 9);
        assert(before.map_values(|x: u8| (x - 1) as u8) =~= upto(9));
        assert(numbers@.map_values(|x: u8| (x - 1) as u8).to_multiset() == upto(9).to_multiset()) by {
            lemma_map_multiset(numbers@, before, |x: u8| (x - 1) as u8);
        }
        lemma_permutation(numbers@.map_values(|x: u8| (x - 1) as u8), 9);
    }
    let mut r: Vec<(u8, u8)> = Vec::new();
    let mut i: usize = 0;
    while i < 9
        invariant
            numbers@.len() == 9,
            indexes@.len() == 9,
            0 <= i <= 9,
            r@.len() == i,
            forall|k: int| 0 <= k < i ==> #[trigger] r@[k] == (numbers@[k], indexes@[k]),
        decreases 9 - i,
    {
        r.push((numbers[i], indexes[i]));
        i += 1;
    }
    proof {
        assert(r@.map_values(|p: (u8, u8)| (p.0 - 1) as u8) =~= numbers@.map_values(|x: u8| (x - 1) as u8));
        assert(r@.map_values(|p: (u8, u8)| p.1) =~= indexes@);
        assert forall|k: int| 0 <= k < 9 implies 1 <= #[trigger] r@[k].0 <= 9 by {
            assert(numbers@.to_multiset() == before.to_multiset());
            lemma_same_multiset(numbers@, before);
            assert(numbers@.contains(numbers@[k]));
            assert(before.contains(numbers@[k]));
        }
    }
    r
}

/// Mapping two sequences with the same elements, each as often, gives
/// sequences with the same elements, each as often.
proof fn lemma_map_multiset(p: Seq<u8>, q: Seq<u8>, f: spec_fn(u8) -> u8)
    requires
        p.to_multiset() == q.to_multiset(),
    ensures
        p.map_values(f).to_multiset() == q.map_values(f).to_multiset(),
    decreases p.len(),
{
    broadcast use vstd::seq_lib::group_to_multiset_ensures;
    assert(p.len() == p.to_multiset().len());
    assert(q.len() == q.to_multiset().len());
    if p.len() == 0 {
        assert(p.map_values(f) =~= Seq::<u8>::empty());
        assert(q.map_values(f) =~= Seq::<u8>::empty());
    } else {
        let x = p.last();
        let p2 = p.drop_last();
        assert(p =~= p2.push(x));
        assert(p.contains(x)) by {
            assert(p[p.len() - 1] == x);
        }
        assert(p.to_multiset().count(x) > 0);
        assert(q.contains(x));
        let j = choose|j: int| 0 <= j < q.len() && q[j] == x;
        let q2 = q.remove(j);
        assert(q2.to_multiset() =~= q.to_multiset().remove(x));
        assert(p2.to_multiset() =~= p.to_multiset().remove(x)) by {
            assert(p.to_multiset() =~= p2.to_multiset().insert(x));
        }
        lemma_map_multiset(p2, q2, f);
        let pm = p.map_values(f);
        let qm = q.map_values(f);
        assert(pm =~= p2.map_values(f).push(f(x)));
        assert(pm.to_multiset() =~= p2.map_values(f).to_multiset().insert(f(x)));
        assert(qm.remove(j) =~= q2.map_values(f));
        assert(qm[j] == f(x));
        assert(qm.remove(j).to_multiset() =~= qm.to_multiset().remove(f(x)));
        assert(qm.contains(f(x))) by {
            assert(qm[j] == f(x));
        }
        assert(qm.to_multiset().count(f(x)) > 0);
        assert(qm.to_multiset() =~= qm.to_multiset().remove(f(x)).insert(f(x)));
    }
}

} // verus!
