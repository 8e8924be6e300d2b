use contest_vis::energy::{energy, GridValues};
use contest_vis::grid::{Direction, GridTopology, Position, MAX_SIZE};
use contest_vis::replay::{apply_turn, replay, Agent, Phase, Snapshot, Turn, TurnOutcome};
use contest_vis::score::{evaluate, Evaluation};

fn pos(row: usize, col: usize) -> Position {
    Position { row, col }
}

fn two_by_two() -> (GridTopology, Snapshot) {
    let topology = GridTopology::open(2);
    let snapshot = Snapshot {
        values: GridValues { cells: vec![vec![1, 2], vec![3, 4]] },
        p1: pos(0, 0),
        p2: pos(1, 1),
    };
    assert!(topology.is_well_formed());
    assert!(snapshot.fits(&topology));
    (topology, snapshot)
}

fn turn(do_swap: bool, dir1: Option<Direction>, dir2: Option<Direction>) -> Turn {
    Turn { do_swap, dir1, dir2 }
}

/// The gain as a caller computes it from the two energies.
fn log_gain(before: u64, after: u64) -> i64 {
    (1e6 * ((before as f64).log2() - (after as f64).log2())).round() as i64
}

fn score_of(evaluation: &Evaluation) -> i64 {
    match evaluation {
        Evaluation::Scored { before, after, .. } => evaluation.score(log_gain(*before, *after)),
        _ => evaluation.score(0),
    }
}

#[test]
fn open_grid_has_no_walls() {
    let topology = GridTopology::open(3);
    assert_eq!(topology.size, 3);
    assert_eq!(topology.vertical_walls, vec![vec![false; 2]; 3]);
    assert_eq!(topology.horizontal_walls, vec![vec![false; 3]; 2]);
    assert!(topology.is_well_formed());
}

#[test]
fn empty_grid_is_well_formed() {
    let topology = GridTopology::open(0);
    assert!(topology.is_well_formed());
    assert!(!topology.can_move(pos(0, 0), Direction::Right));
    let values = GridValues { cells: vec![] };
    assert_eq!(energy(&topology, &values), 0);
}

#[test]
fn wrong_dimensions_are_refused() {
    let mut topology = GridTopology::open(3);
    topology.vertical_walls[1].push(false);
    assert!(!topology.is_well_formed());
    let mut topology = GridTopology::open(3);
    topology.horizontal_walls.push(vec![false; 3]);
    assert!(!topology.is_well_formed());
    let mut topology = GridTopology::open(3);
    topology.size = 2;
    assert!(!topology.is_well_formed());
    let topology = GridTopology {
        size: MAX_SIZE + 1,
        vertical_walls: vec![],
        horizontal_walls: vec![],
    };
    assert!(!topology.is_well_formed());
}

#[test]
fn steps_stop_at_the_border() {
    let topology = GridTopology::open(2);
    assert!(!topology.can_move(pos(0, 0), Direction::Up));
    assert!(!topology.can_move(pos(0, 0), Direction::Left));
    assert!(topology.can_move(pos(0, 0), Direction::Down));
    assert!(topology.can_move(pos(0, 0), Direction::Right));
    assert!(!topology.can_move(pos(1, 1), Direction::Down));
    assert!(!topology.can_move(pos(1, 1), Direction::Right));
    assert!(topology.can_move(pos(1, 1), Direction::Up));
    assert!(topology.can_move(pos(1, 1), Direction::Left));
    assert!(!topology.can_move(pos(2, 0), Direction::Up));
    assert!(!topology.can_move(pos(0, 2), Direction::Left));
}

#[test]
fn walls_block_both_ways() {
    let mut topology = GridTopology::open(3);
    topology.vertical_walls[1][0] = true;
    topology.horizontal_walls[1][2] = true;
    assert!(topology.is_well_formed());
    assert!(!topology.can_move(pos(1, 0), Direction::Right));
    assert!(!topology.can_move(pos(1, 1), Direction::Left));
    assert!(topology.can_move(pos(1, 1), Direction::Right));
    assert!(topology.can_move(pos(0, 0), Direction::Right));
    assert!(!topology.can_move(pos(1, 2), Direction::Down));
    assert!(!topology.can_move(pos(2, 2), Direction::Up));
    assert!(topology.can_move(pos(1, 2), Direction::Up));
    assert!(topology.can_move(pos(1, 1), Direction::Down));
}

#[test]
fn step_gives_the_neighbour() {
    let topology = GridTopology::open(3);
    assert_eq!(topology.step(pos(1, 1), Direction::Up), Some(pos(0, 1)));
    assert_eq!(topology.step(pos(1, 1), Direction::Down), Some(pos(2, 1)));
    assert_eq!(topology.step(pos(1, 1), Direction::Left), Some(pos(1, 0)));
    assert_eq!(topology.step(pos(1, 1), Direction::Right), Some(pos(1, 2)));
    assert_eq!(topology.step(pos(0, 1), Direction::Up), None);
    assert_eq!(topology.step(pos(2, 2), Direction::Right), None);
}

#[test]
fn energy_of_two_by_two() {
    let (topology, snapshot) = two_by_two();
    assert_eq!(energy(&topology, &snapshot.values), 10);
}

#[test]
fn walls_take_edges_out_of_the_energy() {
    let (mut topology, snapshot) = two_by_two();
    topology.vertical_walls[0][0] = true;
    assert_eq!(energy(&topology, &snapshot.values), 9);
    topology.horizontal_walls[0][1] = true;
    assert_eq!(energy(&topology, &snapshot.values), 5);
    topology.horizontal_walls[0][0] = true;
    topology.vertical_walls[1][0] = true;
    assert_eq!(energy(&topology, &snapshot.values), 0);
}

#[test]
fn energy_of_three_by_three() {
    let topology = GridTopology::open(3);
    let values = GridValues { cells: vec![vec![9, 1, 8], vec![2, 7, 3], vec![6, 4, 5]] };
    assert!(values.is_permutation_of_side(3));
    // rows: 64 + 49, 25 + 16, 4 + 1; columns: 49 + 16, 36 + 9, 25 + 4
    assert_eq!(energy(&topology, &values), 113 + 41 + 5 + 65 + 45 + 29);
}

#[test]
fn energy_is_the_same_in_any_order() {
    let mut topology = GridTopology::open(3);
    topology.vertical_walls[0][1] = true;
    topology.horizontal_walls[1][0] = true;
    let values = GridValues { cells: vec![vec![9, 1, 8], vec![2, 7, 3], vec![6, 4, 5]] };
    let expected = energy(&topology, &values);
    let sq = |x: u32, y: u32| -> u64 {
        let d = x as i64 - y as i64;
        (d * d) as u64
    };
    let cell = |i: usize, j: usize| -> u64 {
        let mut e = 0;
        if j + 1 < 3 && !topology.vertical_walls[i][j] {
            e += sq(values.cells[i][j], values.cells[i][j + 1]);
        }
        if i + 1 < 3 && !topology.horizontal_walls[i][j] {
            e += sq(values.cells[i][j], values.cells[i + 1][j]);
        }
        e
    };
    let mut column_major = 0;
    for j in 0..3 {
        for i in 0..3 {
            column_major += cell(i, j);
        }
    }
    let mut backwards = 0;
    for k in (0..9).rev() {
        backwards += cell(k / 3, k % 3);
    }
    assert_eq!(column_major, expected);
    assert_eq!(backwards, expected);
    assert_eq!(expected, 113 - 49 + 41 + 5 + 65 - 16 + 45 + 29);
}

#[test]
fn permutation_check() {
    assert!(GridValues { cells: vec![vec![1, 2], vec![3, 4]] }.is_permutation_of_side(2));
    assert!(GridValues { cells: vec![vec![4, 1], vec![2, 3]] }.is_permutation_of_side(2));
    assert!(!GridValues { cells: vec![vec![1, 2], vec![3, 3]] }.is_permutation_of_side(2));
    assert!(!GridValues { cells: vec![vec![0, 2], vec![3, 4]] }.is_permutation_of_side(2));
    assert!(!GridValues { cells: vec![vec![1, 2], vec![3, 5]] }.is_permutation_of_side(2));
    assert!(!GridValues { cells: vec![vec![1, 2], vec![3]] }.is_permutation_of_side(2));
    assert!(!GridValues { cells: vec![vec![1, 2]] }.is_permutation_of_side(2));
    assert!(!GridValues { cells: vec![vec![1, 2], vec![3, 4]] }.is_permutation_of_side(3));
    assert!(GridValues { cells: vec![] }.is_permutation_of_side(0));
    assert!(GridValues { cells: vec![vec![1]] }.is_permutation_of_side(1));
}

#[test]
fn snapshot_must_fit_the_grid() {
    let (topology, snapshot) = two_by_two();
    let mut off = snapshot.clone();
    off.p1 = pos(2, 0);
    assert!(!off.fits(&topology));
    let mut off = snapshot.clone();
    off.p2 = pos(0, 2);
    assert!(!off.fits(&topology));
    let mut off = snapshot;
    off.values.cells[0][0] = 4;
    assert!(!off.fits(&topology));
}

#[test]
fn turn_swaps_then_moves() {
    let (topology, mut snapshot) = two_by_two();
    let outcome = apply_turn(
        &topology,
        &mut snapshot,
        &turn(true, Some(Direction::Right), Some(Direction::Up)),
    );
    assert_eq!(outcome, TurnOutcome::Continue);
    assert_eq!(snapshot.values.cells, vec![vec![4, 2], vec![3, 1]]);
    assert_eq!(snapshot.p1, pos(0, 1));
    assert_eq!(snapshot.p2, pos(0, 1));
    assert!(snapshot.fits(&topology));
}

#[test]
fn agents_may_share_a_cell() {
    let (topology, mut snapshot) = two_by_two();
    snapshot.p2 = pos(0, 0);
    let outcome = apply_turn(&topology, &mut snapshot, &turn(true, None, None));
    assert_eq!(outcome, TurnOutcome::Continue);
    assert_eq!(snapshot.values.cells, vec![vec![1, 2], vec![3, 4]]);
}

#[test]
fn swap_only_turn_never_halts() {
    let mut topology = GridTopology::open(2);
    topology.vertical_walls = vec![vec![true], vec![true]];
    topology.horizontal_walls = vec![vec![true, true]];
    let mut snapshot = Snapshot {
        values: GridValues { cells: vec![vec![1, 2], vec![3, 4]] },
        p1: pos(0, 1),
        p2: pos(1, 0),
    };
    assert!(snapshot.fits(&topology));
    assert_eq!(apply_turn(&topology, &mut snapshot, &turn(true, None, None)), TurnOutcome::Continue);
    assert_eq!(snapshot.values.cells, vec![vec![1, 3], vec![2, 4]]);
    assert_eq!((snapshot.p1, snapshot.p2), (pos(0, 1), pos(1, 0)));
    assert_eq!(apply_turn(&topology, &mut snapshot, &turn(false, None, None)), TurnOutcome::Continue);
    assert_eq!(snapshot.values.cells, vec![vec![1, 3], vec![2, 4]]);
}

#[test]
fn refused_turn_changes_nothing() {
    let (topology, mut snapshot) = two_by_two();
    let before = snapshot.clone();
    let outcome = apply_turn(
        &topology,
        &mut snapshot,
        &turn(true, Some(Direction::Right), Some(Direction::Down)),
    );
    assert_eq!(outcome, TurnOutcome::Halted { agent: Agent::Second, direction: Direction::Down });
    assert_eq!(snapshot, before);
}

#[test]
fn first_agent_is_checked_first() {
    let (topology, mut snapshot) = two_by_two();
    let outcome = apply_turn(
        &topology,
        &mut snapshot,
        &turn(false, Some(Direction::Up), Some(Direction::Right)),
    );
    assert_eq!(outcome, TurnOutcome::Halted { agent: Agent::First, direction: Direction::Up });
}

#[test]
fn replay_runs_through() {
    let (topology, snapshot) = two_by_two();
    let turns = vec![
        turn(false, Some(Direction::Right), None),
        turn(true, None, Some(Direction::Left)),
        turn(false, Some(Direction::Down), Some(Direction::Up)),
    ];
    let done = replay(&topology, snapshot, &turns, turns.len());
    assert_eq!(done.phase, Phase::Completed);
    assert_eq!(done.snapshot.values.cells, vec![vec![1, 4], vec![3, 2]]);
    assert_eq!(done.snapshot.p1, pos(1, 1));
    assert_eq!(done.snapshot.p2, pos(0, 0));
}

#[test]
fn replay_of_a_prefix_is_still_running() {
    let (topology, snapshot) = two_by_two();
    let turns = vec![
        turn(false, Some(Direction::Right), None),
        turn(true, None, Some(Direction::Left)),
        turn(false, Some(Direction::Down), Some(Direction::Up)),
    ];
    let part = replay(&topology, snapshot.clone(), &turns, 2);
    assert_eq!(part.phase, Phase::Running);
    assert_eq!(part.snapshot.values.cells, vec![vec![1, 4], vec![3, 2]]);
    assert_eq!((part.snapshot.p1, part.snapshot.p2), (pos(0, 1), pos(1, 0)));
    let none = replay(&topology, snapshot.clone(), &turns, 0);
    assert_eq!(none.phase, Phase::Running);
    assert_eq!(none.snapshot, snapshot);
    let beyond = replay(&topology, snapshot, &turns, 10);
    assert_eq!(beyond.phase, Phase::Completed);
}

#[test]
fn replay_halts_at_the_first_illegal_move() {
    let (topology, snapshot) = two_by_two();
    let turns = vec![
        turn(true, Some(Direction::Right), None),
        turn(true, Some(Direction::Right), Some(Direction::Up)),
        turn(true, Some(Direction::Down), None),
    ];
    let done = replay(&topology, snapshot, &turns, 3);
    assert_eq!(
        done.phase,
        Phase::Halted { turn: 1, agent: Agent::First, direction: Direction::Right }
    );
    assert_eq!(done.snapshot.values.cells, vec![vec![4, 2], vec![3, 1]]);
    assert_eq!((done.snapshot.p1, done.snapshot.p2), (pos(0, 1), pos(1, 1)));
}

#[test]
fn replay_of_nothing_is_complete() {
    let (topology, snapshot) = two_by_two();
    let done = replay(&topology, snapshot.clone(), &vec![], 0);
    assert_eq!(done.phase, Phase::Completed);
    assert_eq!(done.snapshot, snapshot);
}

#[test]
fn legal_move_without_swap_scores_one() {
    let (topology, snapshot) = two_by_two();
    let turns = vec![turn(false, Some(Direction::Right), None)];
    let evaluation = evaluate(&topology, snapshot, &turns, 1);
    match &evaluation {
        Evaluation::Scored { before, after, snapshot } => {
            assert_eq!(*before, 10);
            assert_eq!(*after, 10);
            assert_eq!(snapshot.values.cells, vec![vec![1, 2], vec![3, 4]]);
            assert_eq!(snapshot.p1, pos(0, 1));
            assert_eq!(snapshot.p2, pos(1, 1));
            assert_eq!(log_gain(*before, *after), 0);
        },
        other => panic!("unexpected {:?}", other),
    }
    assert_eq!(score_of(&evaluation), 1);
    assert_eq!(evaluation.message(), "");
}

#[test]
fn move_off_the_grid_scores_zero() {
    let (topology, snapshot) = two_by_two();
    let turns = vec![turn(false, Some(Direction::Left), None)];
    let evaluation = evaluate(&topology, snapshot.clone(), &turns, 1);
    assert_eq!(
        evaluation,
        Evaluation::IllegalMove {
            turn: 0,
            agent: Agent::First,
            direction: Direction::Left,
            snapshot: snapshot.clone(),
        }
    );
    assert_eq!(score_of(&evaluation), 0);
    assert_eq!(evaluation.score(123_456), 0);
    assert_eq!(evaluation.message(), "Illegal move: Left by agent 1");
    assert_eq!(evaluation.snapshot(), Some(&snapshot));
}

#[test]
fn second_agent_is_named_in_the_message() {
    let (topology, snapshot) = two_by_two();
    let turns = vec![
        turn(false, Some(Direction::Down), None),
        turn(false, Some(Direction::Up), Some(Direction::Down)),
    ];
    let evaluation = evaluate(&topology, snapshot, &turns, 2);
    assert_eq!(evaluation.message(), "Illegal move: Down by agent 2");
    match evaluation {
        Evaluation::IllegalMove { turn, snapshot, .. } => {
            assert_eq!(turn, 1);
            assert_eq!(snapshot.p1, pos(1, 0));
        },
        other => panic!("unexpected {:?}", other),
    }
}

#[test]
fn message_names_each_direction() {
    let topology = GridTopology::open(1);
    let snapshot = Snapshot { values: GridValues { cells: vec![vec![1]] }, p1: pos(0, 0), p2: pos(0, 0) };
    for (d, name) in [
        (Direction::Up, "Up"),
        (Direction::Down, "Down"),
        (Direction::Left, "Left"),
        (Direction::Right, "Right"),
    ] {
        let evaluation = evaluate(&topology, snapshot.clone(), &vec![turn(false, Some(d), None)], 1);
        assert_eq!(evaluation.message(), format!("Illegal move: {} by agent 1", name));
    }
}

#[test]
fn zero_turns_score_one() {
    let (topology, snapshot) = two_by_two();
    let evaluation = evaluate(&topology, snapshot.clone(), &vec![], 0);
    assert_eq!(evaluation, Evaluation::Scored { before: 10, after: 10, snapshot });
    assert_eq!(score_of(&evaluation), 1);
    assert_eq!(evaluation.score(-5), 1);
    assert_eq!(evaluation.score(i64::MAX), 1);
}

#[test]
fn too_many_actions_score_zero() {
    let (topology, snapshot) = two_by_two();
    let legal = vec![turn(false, None, None); 17];
    let evaluation = evaluate(&topology, snapshot.clone(), &legal, 17);
    assert_eq!(evaluation, Evaluation::TooManyActions { given: 17, limit: 16 });
    assert_eq!(score_of(&evaluation), 0);
    assert_eq!(evaluation.message(), "Too many actions");
    assert_eq!(evaluation.snapshot(), None);
    let illegal = vec![turn(false, Some(Direction::Up), None); 17];
    let evaluation = evaluate(&topology, snapshot.clone(), &illegal, 0);
    assert_eq!(evaluation, Evaluation::TooManyActions { given: 17, limit: 16 });
    let at_limit = vec![turn(false, None, None); 16];
    let evaluation = evaluate(&topology, snapshot, &at_limit, 16);
    assert_eq!(score_of(&evaluation), 1);
}

#[test]
fn lower_energy_scores_the_gain() {
    let topology = GridTopology::open(2);
    let snapshot = Snapshot {
        values: GridValues { cells: vec![vec![1, 4], vec![3, 2]] },
        p1: pos(0, 1),
        p2: pos(1, 1),
    };
    assert!(snapshot.fits(&topology));
    let evaluation = evaluate(&topology, snapshot, &vec![turn(true, None, None)], 1);
    match &evaluation {
        Evaluation::Scored { before, after, snapshot } => {
            // before: 9 + 1 + 4 + 4, after: 1 + 1 + 4 + 4
            assert_eq!(*before, 18);
            assert_eq!(*after, 10);
            assert_eq!(snapshot.values.cells, vec![vec![1, 2], vec![3, 4]]);
        },
        other => panic!("unexpected {:?}", other),
    }
    // 1_000_000 * log2(18 / 10) = 847_996.9...
    assert_eq!(score_of(&evaluation), 847_997);
    assert_eq!(evaluation.score(5), 5);
    assert_eq!(evaluation.score(1), 1);
    assert_eq!(evaluation.score(0), 1);
}

#[test]
fn higher_energy_scores_one() {
    let (topology, mut snapshot) = two_by_two();
    snapshot.p1 = pos(0, 1);
    let evaluation = evaluate(&topology, snapshot, &vec![turn(true, None, None)], 1);
    match &evaluation {
        Evaluation::Scored { before, after, .. } => {
            assert_eq!(*before, 10);
            assert_eq!(*after, 18);
            assert!(log_gain(*before, *after) < 0);
        },
        other => panic!("unexpected {:?}", other),
    }
    assert_eq!(score_of(&evaluation), 1);
    assert_eq!(evaluation.score(1_000_000), 1);
}

#[test]
fn grid_of_walls_scores_one() {
    let topology = GridTopology {
        size: 2,
        vertical_walls: vec![vec![true], vec![true]],
        horizontal_walls: vec![vec![true, true]],
    };
    let snapshot = Snapshot {
        values: GridValues { cells: vec![vec![1, 2], vec![3, 4]] },
        p1: pos(0, 0),
        p2: pos(1, 1),
    };
    let evaluation = evaluate(&topology, snapshot, &vec![turn(true, None, None)], 1);
    match &evaluation {
        Evaluation::Scored { before, after, .. } => {
            assert_eq!((*before, *after), (0, 0));
        },
        other => panic!("unexpected {:?}", other),
    }
    assert_eq!(score_of(&evaluation), 1);
    assert_eq!(evaluation.score(i64::MAX), 1);
    assert_eq!(evaluation.score(i64::MIN), 1);
}

#[test]
fn prefixes_agree_with_one_pass() {
    let (topology, snapshot) = two_by_two();
    let turns = vec![
        turn(true, Some(Direction::Right), None),
        turn(true, None, Some(Direction::Left)),
        turn(false, Some(Direction::Down), Some(Direction::Up)),
        turn(true, Some(Direction::Down), None),
        turn(true, None, None),
    ];
    for t in 0..turns.len() {
        let direct = evaluate(&topology, snapshot.clone(), &turns, t + 1);
        let shorter = evaluate(&topology, snapshot.clone(), &turns, t);
        let again = evaluate(&topology, snapshot.clone(), &turns, t + 1);
        assert_eq!(again, direct);
        let cut = evaluate(&topology, snapshot.clone(), &turns[..t + 1].to_vec(), t + 1);
        assert_eq!(cut.snapshot(), direct.snapshot());
        if let Evaluation::Scored { snapshot: mid, .. } = shorter {
            let resumed = replay(&topology, mid, &turns[t..].to_vec(), 1);
            assert_eq!(Some(&resumed.snapshot), direct.snapshot());
        }
    }
    let last = evaluate(&topology, snapshot, &turns, 5);
    assert!(matches!(last, Evaluation::IllegalMove { turn: 3, agent: Agent::First, .. }));
}
