use captain_sonar::intel::{InformationPiece, IntelQuestion, Quadrant};
use captain_sonar::radar::{
    translate, Coordinate, Direction, GameMap, MapError, Move, Offset, Radar, TraceMoveError,
};

fn sample_obstacles() -> Vec<Coordinate> {
    vec![
        Coordinate::new(1, 2),
        Coordinate::new(5, 1),
        Coordinate::new(8, 3),
        Coordinate::new(3, 4),
        Coordinate::new(1, 5),
        Coordinate::new(8, 6),
        Coordinate::new(3, 7),
        Coordinate::new(5, 7),
    ]
}

fn sample_radar() -> Radar {
    Radar::new(GameMap::new(10, sample_obstacles()).unwrap())
}

fn open_radar(size: u32) -> Radar {
    Radar::new(GameMap::new(size, vec![]).unwrap())
}

fn is_free(radar: &Radar, c: Coordinate) -> bool {
    radar.map().contains(c) && !radar.map().obstacles().contains(&c)
}

#[test]
fn quadrant_of_size_ten() {
    let map = GameMap::new(10, vec![]).unwrap();
    assert_eq!(map.quadrant_of(Coordinate::new(0, 0)), Some(Quadrant::One));
    assert_eq!(map.quadrant_of(Coordinate::new(9, 9)), Some(Quadrant::Four));
    assert_eq!(map.quadrant_of(Coordinate::new(5, 5)), Some(Quadrant::Four));
    assert_eq!(map.quadrant_of(Coordinate::new(5, 0)), Some(Quadrant::Two));
    assert_eq!(map.quadrant_of(Coordinate::new(4, 5)), Some(Quadrant::Three));
    assert_eq!(map.quadrant_of(Coordinate::new(10, 0)), None);
    assert_eq!(map.quadrant_of(Coordinate::new(0, 10)), None);
}

#[test]
fn quadrant_of_odd_size_puts_middle_high() {
    let map = GameMap::new(5, vec![]).unwrap();
    assert_eq!(map.quadrant_of(Coordinate::new(1, 1)), Some(Quadrant::One));
    assert_eq!(map.quadrant_of(Coordinate::new(2, 2)), Some(Quadrant::Four));
    assert_eq!(map.quadrant_of(Coordinate::new(2, 1)), Some(Quadrant::Two));
    assert_eq!(map.quadrant_of(Coordinate::new(1, 2)), Some(Quadrant::Three));
}

#[test]
fn map_rejects_obstacle_out_of_bounds() {
    let r = GameMap::new(4, vec![Coordinate::new(1, 1), Coordinate::new(4, 0)]);
    assert_eq!(r.err(), Some(MapError::ObstacleOutOfBounds));
    let r = GameMap::new(4, vec![Coordinate::new(0, 4)]);
    assert_eq!(r.err(), Some(MapError::ObstacleOutOfBounds));
}

#[test]
fn map_accessors() {
    let map = GameMap::new(10, sample_obstacles()).unwrap();
    assert_eq!(map.size(), 10);
    assert_eq!(map.obstacles().len(), 8);
    assert!(map.contains(Coordinate::new(9, 0)));
    assert!(!map.contains(Coordinate::new(9, 10)));
    assert!(map.is_obstacle(Coordinate::new(8, 6)));
    assert!(!map.is_obstacle(Coordinate::new(6, 8)));
}

#[test]
fn clue_evaluation() {
    let map = GameMap::new(10, vec![]).unwrap();
    let c = Coordinate::new(7, 2);
    let yes_two = IntelQuestion::InQuadrant { quadrant: Quadrant::Two, answer: true };
    let no_two = IntelQuestion::InQuadrant { quadrant: Quadrant::Two, answer: false };
    assert!(map.satisfies(yes_two, c));
    assert!(!map.satisfies(no_two, c));
    assert!(map.piece_holds(InformationPiece::Row(2), c));
    assert!(map.piece_holds(InformationPiece::Column(7), c));
    assert!(!map.piece_holds(InformationPiece::Quadrant(Quadrant::One), c));
    let one_true = IntelQuestion::TruthLie {
        info1: InformationPiece::Row(2),
        info2: InformationPiece::Column(3),
    };
    let both_true = IntelQuestion::TruthLie {
        info1: InformationPiece::Row(2),
        info2: InformationPiece::Quadrant(Quadrant::Two),
    };
    let both_false = IntelQuestion::TruthLie {
        info1: InformationPiece::Row(3),
        info2: InformationPiece::Column(3),
    };
    assert!(map.satisfies(one_true, c));
    assert!(!map.satisfies(both_true, c));
    assert!(!map.satisfies(both_false, c));
}

#[test]
fn geometry_helpers() {
    assert_eq!(Direction::North.delta(), Offset::new(0, -1));
    assert_eq!(Direction::East.delta(), Offset::new(1, 0));
    assert_eq!(Direction::South.delta(), Offset::new(0, 1));
    assert_eq!(Direction::West.delta(), Offset::new(-1, 0));
    assert_eq!(Offset::new(2, -3).add(Offset::new(-1, 1)), Offset::new(1, -2));
    assert_eq!(translate(Coordinate::new(1, 1), Offset::new(2, -1)), Some(Coordinate::new(3, 0)));
    assert_eq!(translate(Coordinate::new(1, 1), Offset::new(-2, 0)), None);
    assert_eq!(translate(Coordinate::new(u32::MAX, 0), Offset::new(1, 0)), None);
}

#[test]
fn directed_moves_give_one_branch() {
    let mut radar = open_radar(10);
    radar.register_move(Move::Directed(Direction::North)).unwrap();
    radar.register_move(Move::Directed(Direction::East)).unwrap();
    radar.register_move(Move::Directed(Direction::East)).unwrap();
    let paths = radar.trace().paths();
    assert_eq!(paths.len(), 1);
    assert_eq!(paths[0].len(), 4);
    let offsets: Vec<Offset> = paths[0].iter().map(|n| n.offset).collect();
    assert_eq!(
        offsets,
        vec![Offset::new(0, 0), Offset::new(0, -1), Offset::new(1, -1), Offset::new(2, -1)]
    );
}

#[test]
fn empty_trace_has_origin_branch() {
    let radar = open_radar(3);
    let paths = radar.trace().paths();
    assert_eq!(paths.len(), 1);
    assert_eq!(paths[0].len(), 1);
    assert_eq!(paths[0][0].offset, Offset::new(0, 0));
    assert!(paths[0][0].intel.is_empty());
}

#[test]
fn dash_from_origin_gives_sixteen_branches() {
    let mut radar = open_radar(10);
    assert_eq!(radar.register_move(Move::Dash), Ok(()));
    let paths = radar.trace().paths();
    assert_eq!(paths.len(), 16);
    let dirs = [(0, -1), (1, 0), (0, 1), (-1, 0)];
    for (d, (dx, dy)) in dirs.iter().enumerate() {
        for k in 0..4usize {
            let p = &paths[d * 4 + k];
            assert_eq!(p.len(), k + 2);
            for (i, n) in p.iter().enumerate() {
                assert_eq!(n.offset, Offset::new(dx * i as i32, dy * i as i32));
            }
        }
    }
}

#[test]
fn dash_prunes_self_intersection() {
    let mut radar = open_radar(10);
    radar.register_move(Move::Directed(Direction::North)).unwrap();
    radar.register_move(Move::Dash).unwrap();
    let paths = radar.trace().paths();
    // south is blocked on the first step: north, east and west remain
    assert_eq!(paths.len(), 12);
    for p in &paths {
        for i in 0..p.len() {
            for j in (i + 1)..p.len() {
                assert_ne!(p[i].offset, p[j].offset);
            }
        }
        assert_eq!(p[1].offset, Offset::new(0, -1));
    }
}

#[test]
fn reversing_is_refused() {
    let mut radar = open_radar(10);
    radar.register_move(Move::Directed(Direction::North)).unwrap();
    assert_eq!(
        radar.register_move(Move::Directed(Direction::South)),
        Err(TraceMoveError::SelfIntersect)
    );
    assert_eq!(radar.trace().paths()[0].len(), 2);
    radar.register_move(Move::Directed(Direction::East)).unwrap();
    radar.register_move(Move::Directed(Direction::South)).unwrap();
    assert_eq!(
        radar.register_move(Move::Directed(Direction::West)),
        Err(TraceMoveError::SelfIntersect)
    );
    assert_eq!(radar.register_move(Move::Directed(Direction::South)), Ok(()));
}

#[test]
fn directed_move_accepted_when_one_branch_survives() {
    let mut radar = open_radar(10);
    radar.register_move(Move::Directed(Direction::North)).unwrap();
    radar.register_move(Move::Dash).unwrap();
    // going south only survives on the branches that dashed east or west
    assert_eq!(radar.register_move(Move::Directed(Direction::South)), Ok(()));
    let paths = radar.trace().paths();
    assert_eq!(paths.len(), 8);
}

#[test]
fn undo_on_empty_trace() {
    let mut radar = open_radar(4);
    assert!(!radar.undo_trace());
    radar.add_intel(IntelQuestion::InQuadrant { quadrant: Quadrant::One, answer: true });
    assert!(radar.undo_trace());
    assert!(!radar.undo_trace());
}

#[test]
fn undo_restores_possible_paths() {
    let mut radar = sample_radar();
    radar.register_move(Move::Directed(Direction::East)).unwrap();
    let before = radar.get_possible_paths();
    radar.register_move(Move::Dash).unwrap();
    assert_ne!(radar.get_possible_paths(), before);
    assert!(radar.undo_trace());
    assert_eq!(radar.get_possible_paths(), before);
    radar.add_intel(IntelQuestion::InQuadrant { quadrant: Quadrant::Three, answer: true });
    assert_ne!(radar.get_possible_paths(), before);
    assert!(radar.undo_trace());
    assert_eq!(radar.get_possible_paths(), before);
    radar.register_move(Move::Directed(Direction::North)).unwrap();
    assert!(radar.undo_trace());
    assert_eq!(radar.get_possible_paths(), before);
}

#[test]
fn end_to_end_empty_trace() {
    let radar = sample_radar();
    let paths = radar.get_possible_paths();
    assert_eq!(paths.len(), 92);
    let mut k = 0;
    for x in 0..10 {
        for y in 0..10 {
            let c = Coordinate::new(x, y);
            if sample_obstacles().contains(&c) {
                continue;
            }
            assert_eq!(paths[k], vec![c]);
            k += 1;
        }
    }
}

#[test]
fn end_to_end_after_north() {
    let mut radar = sample_radar();
    radar.register_move(Move::Directed(Direction::North)).unwrap();
    let paths = radar.get_possible_paths();
    assert_eq!(paths.len(), 74);
    for p in &paths {
        assert_eq!(p.len(), 2);
        assert_eq!(p[1], Coordinate::new(p[0].x, p[0].y - 1));
        assert!(is_free(&radar, p[0]) && is_free(&radar, p[1]));
    }
    // origins whose north neighbour is off the grid or an obstacle are gone
    assert!(!paths.iter().any(|p| p[0] == Coordinate::new(4, 0)));
    assert!(!paths.iter().any(|p| p[0] == Coordinate::new(1, 3)));
    assert!(paths.iter().any(|p| p[0] == Coordinate::new(4, 1)));
}

#[test]
fn candidates_avoid_obstacles_and_edges() {
    let mut radar = sample_radar();
    radar.register_move(Move::Dash).unwrap();
    radar.register_move(Move::Directed(Direction::East)).unwrap();
    let paths = radar.get_possible_paths();
    assert!(!paths.is_empty());
    for p in &paths {
        for &c in p {
            assert!(is_free(&radar, c));
        }
    }
}

#[test]
fn quadrant_clue_filters_last_cell() {
    let mut radar = sample_radar();
    radar.register_move(Move::Directed(Direction::North)).unwrap();
    radar.add_intel(IntelQuestion::InQuadrant { quadrant: Quadrant::Two, answer: true });
    let paths = radar.get_possible_paths();
    assert_eq!(paths.len(), 21);
    for p in &paths {
        assert_eq!(radar.map().quadrant_of(p[1]), Some(Quadrant::Two));
    }
    assert!(radar.undo_trace());
    radar.add_intel(IntelQuestion::InQuadrant { quadrant: Quadrant::Two, answer: false });
    let paths = radar.get_possible_paths();
    assert_eq!(paths.len(), 53);
    for p in &paths {
        assert_ne!(radar.map().quadrant_of(p[1]), Some(Quadrant::Two));
    }
}

#[test]
fn clue_stays_with_its_step() {
    let mut radar = open_radar(4);
    radar.add_intel(IntelQuestion::InQuadrant { quadrant: Quadrant::One, answer: true });
    radar.register_move(Move::Directed(Direction::East)).unwrap();
    let paths = radar.trace().paths();
    assert_eq!(paths[0][0].intel.len(), 1);
    assert!(paths[0][1].intel.is_empty());
    // origins in quadrant one of a 4x4 grid: four of them, each moving east
    let cands = radar.get_possible_paths();
    assert_eq!(cands.len(), 4);
    for p in &cands {
        assert!(p[0].x < 2 && p[0].y < 2);
    }
}

#[test]
fn truth_lie_clue_keeps_exactly_one_true() {
    let mut radar = open_radar(4);
    radar.add_intel(IntelQuestion::TruthLie {
        info1: InformationPiece::Row(0),
        info2: InformationPiece::Column(0),
    });
    let paths = radar.get_possible_paths();
    assert_eq!(paths.len(), 6);
    for p in &paths {
        assert!((p[0].y == 0) != (p[0].x == 0));
    }
}

#[test]
fn duplicates_are_not_removed() {
    let mut radar = open_radar(6);
    radar.register_move(Move::Dash).unwrap();
    let paths = radar.get_possible_paths();
    let mut count = 0;
    for p in &paths {
        if p[0] == Coordinate::new(2, 2) {
            count += 1;
        }
    }
    // from (2, 2): two cells in each direction before the edge on north and
    // west, three on east and south
    assert_eq!(count, 2 + 3 + 3 + 2);
}
