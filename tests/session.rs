use captain_sonar::intel::{InformationPiece, IntelQuestion, Quadrant};
use captain_sonar::radar::{Coordinate, GameMap, Radar, TraceMoveError};
use captain_sonar::session::{
    parse_number, read_column, read_digit, read_information_piece, read_quadrant,
    read_truth_lie_kind, submenu_event, App, Key, PickTruthLieKind, PickTruthLieProgress,
    Submenu, SubmenuResult,
};

fn sample_app() -> App {
    let obstacles = vec![
        Coordinate::new(1, 2),
        Coordinate::new(5, 1),
        Coordinate::new(8, 3),
        Coordinate::new(3, 4),
        Coordinate::new(1, 5),
        Coordinate::new(8, 6),
        Coordinate::new(3, 7),
        Coordinate::new(5, 7),
    ];
    App::new(Radar::new(GameMap::new(10, obstacles).unwrap()))
}

fn press(app: &mut App, keys: &[Key]) {
    for &k in keys {
        app.handle_key_event(k);
    }
}

#[test]
fn key_readers() {
    assert_eq!(read_quadrant(Key::Char('3')), Some(Quadrant::Three));
    assert_eq!(read_quadrant(Key::Char('5')), None);
    assert_eq!(read_truth_lie_kind(Key::Char('r')), Some(PickTruthLieKind::Row));
    assert_eq!(read_truth_lie_kind(Key::Enter), None);
    assert_eq!(read_digit(Key::Char('7')), Some('7'));
    assert_eq!(read_digit(Key::Char('x')), None);
    assert_eq!(read_column(Key::Char('c'), 10), Some(2));
    assert_eq!(read_column(Key::Char('k'), 10), None);
    assert_eq!(read_column(Key::Char('A'), 10), None);
    assert_eq!(
        read_information_piece(Key::Char('j'), PickTruthLieKind::Column, 10),
        Some(InformationPiece::Column(9))
    );
    assert_eq!(read_information_piece(Key::Char('1'), PickTruthLieKind::Row, 10), None);
}

#[test]
fn parse_number_values() {
    assert_eq!(parse_number(&vec![]), None);
    assert_eq!(parse_number(&vec!['0', '4', '2']), Some(42));
    assert_eq!(parse_number(&"4294967295".chars().collect()), Some(u32::MAX));
    assert_eq!(parse_number(&"4294967296".chars().collect()), None);
}

#[test]
fn menu_previous_steps_back() {
    let s = Submenu::IntelPickQuadrant { quadrant: Some(Quadrant::One) };
    assert!(matches!(s.previous(), Some(Submenu::IntelPickQuadrant { quadrant: None })));
    assert!(Submenu::IntelPickQuadrant { quadrant: None }.previous().is_none());
    let p = PickTruthLieProgress::Info1Kind { kind: PickTruthLieKind::Row, data: vec!['1', '2'] };
    match p.previous() {
        Some(PickTruthLieProgress::Info1Kind { kind, data }) => {
            assert_eq!(kind, PickTruthLieKind::Row);
            assert_eq!(data, vec!['1']);
        }
        _ => panic!("expected digits to shrink"),
    }
    let p = PickTruthLieProgress::Info1Information(InformationPiece::Column(3));
    match p.previous() {
        Some(PickTruthLieProgress::Info1Kind { kind, data }) => {
            assert_eq!(kind, PickTruthLieKind::Column);
            assert!(data.is_empty());
        }
        _ => panic!("expected the kind stage"),
    }
    assert!(PickTruthLieProgress::Start.previous().is_none());
    assert!(Submenu::IntelPickTruthLie(PickTruthLieProgress::Start).previous().is_none());
}

#[test]
fn truth_lie_menu_flow() {
    let s = Submenu::IntelPickTruthLie(PickTruthLieProgress::Info2Kind {
        info1: InformationPiece::Quadrant(Quadrant::Two),
        kind: PickTruthLieKind::Row,
        data: vec!['1', '0'],
    });
    match submenu_event(&s, Key::Enter, 10) {
        SubmenuResult::Finish(q) => assert_eq!(
            q,
            IntelQuestion::TruthLie {
                info1: InformationPiece::Quadrant(Quadrant::Two),
                info2: InformationPiece::Row(9),
            }
        ),
        _ => panic!("expected a finished clue"),
    }
    assert!(matches!(submenu_event(&s, Key::Char('x'), 10), SubmenuResult::Stay));
    // row 10 is out of a 9-row grid
    assert!(matches!(submenu_event(&s, Key::Enter, 9), SubmenuResult::Stay));
}

#[test]
fn app_starts_with_every_free_cell() {
    let app = sample_app();
    assert_eq!(app.possible_paths().len(), 92);
    assert_eq!(app.show_path_index(), Some(0));
    assert!(!app.should_exit());
    assert!(app.error().is_none());
}

#[test]
fn app_moves_errors_and_undo() {
    let mut app = sample_app();
    press(&mut app, &[Key::Up]);
    assert_eq!(app.possible_paths().len(), 74);
    press(&mut app, &[Key::Down]);
    assert_eq!(app.error(), Some(TraceMoveError::SelfIntersect));
    assert_eq!(app.radar().trace().len(), 1);
    press(&mut app, &[Key::Backspace]);
    assert!(app.error().is_none());
    assert_eq!(app.radar().trace().len(), 1);
    press(&mut app, &[Key::Backspace]);
    assert_eq!(app.radar().trace().len(), 0);
    assert_eq!(app.possible_paths().len(), 92);
    press(&mut app, &[Key::Tab, Key::Tab]);
    assert_eq!(app.show_path_index(), Some(2));
    press(&mut app, &[Key::Esc]);
    assert!(app.should_exit());
}

#[test]
fn app_quadrant_clue_entry() {
    let mut app = sample_app();
    press(&mut app, &[Key::Up, Key::Char('q'), Key::Char('2')]);
    assert!(matches!(
        app.submenu(),
        Some(Submenu::IntelPickQuadrant { quadrant: Some(Quadrant::Two) })
    ));
    press(&mut app, &[Key::Char('y')]);
    assert!(app.submenu().is_none());
    assert_eq!(app.possible_paths().len(), 21);
}

#[test]
fn app_truth_lie_clue_entry() {
    let mut app = sample_app();
    press(&mut app, &[Key::Char('s'), Key::Char('r'), Key::Char('1'), Key::Char('2')]);
    press(&mut app, &[Key::Backspace, Key::Enter]);
    assert!(matches!(
        app.submenu(),
        Some(Submenu::IntelPickTruthLie(PickTruthLieProgress::Info1Information(
            InformationPiece::Row(0)
        )))
    ));
    press(&mut app, &[Key::Char('c'), Key::Char('a')]);
    assert!(app.submenu().is_none());
    // free cells on row 0 or column 0 but not both: 9 + 9
    assert_eq!(app.possible_paths().len(), 18);
}

#[test]
fn app_dash_key() {
    let mut app = sample_app();
    press(&mut app, &[Key::Char('d')]);
    assert_eq!(app.radar().trace().len(), 1);
    assert!(app.possible_paths().len() > 92);
}
