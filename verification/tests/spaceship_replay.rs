use contest_vis::minmax::SetMinMax;
use contest_vis::spaceship::{
    can_fly, compute_score, compute_state, draw_range, parse_output, Input, Output,
    UNIT_FLIGHT_MAX,
};

#[test]
fn every_digit_decodes_to_its_key() {
    let out = parse_output("123456789").unwrap();
    assert_eq!(
        out.acc,
        vec![(-1, -1), (0, -1), (1, -1), (-1, 0), (0, 0), (1, 0), (-1, 1), (0, 1), (1, 1)]
    );
}

#[test]
fn white_space_around_the_actions_is_dropped() {
    assert_eq!(parse_output("  \t159\r\n").unwrap().acc, vec![(-1, -1), (0, 0), (1, 1)]);
    assert_eq!(parse_output("\u{3000}7\u{a0}").unwrap().acc, vec![(-1, 1)]);
    assert_eq!(parse_output("").unwrap().acc, vec![]);
    assert_eq!(parse_output(" \n ").unwrap().acc, vec![]);
}

#[test]
fn first_invalid_action_is_reported() {
    assert_eq!(parse_output("12a4b").err(), Some("Invalid action: a".to_string()));
    assert_eq!(parse_output("0").err(), Some("Invalid action: 0".to_string()));
    assert_eq!(parse_output("1 2").err(), Some("Invalid action:  ".to_string()));
    assert_eq!(parse_output("5\n5").err(), Some("Invalid action: \n".to_string()));
    assert_eq!(parse_output(" 9\u{ff11}").err(), Some("Invalid action: \u{ff11}".to_string()));
    assert_eq!(parse_output("x").err(), Some(format!("Invalid action: {}", 'x')));
}

#[test]
fn decoding_agrees_with_trim() {
    for text in ["", " ", "5", " 5", "5 ", "\u{2003}55\u{85}", "\u{200b}5", "5\u{feff}", "\u{1680}1\u{1680}"] {
        let trimmed: Vec<char> = text.trim().chars().collect();
        let expected: Result<Vec<(i32, i32)>, String> = trimmed
            .iter()
            .map(|c| match c.to_digit(10) {
                Some(d) if d >= 1 && c.is_ascii() => {
                    Ok((((d - 1) % 3) as i32 - 1, ((d - 1) / 3) as i32 - 1))
                },
                _ => Err(format!("Invalid action: {}", c)),
            })
            .collect();
        assert_eq!(parse_output(text).map(|out| out.acc), expected, "{:?}", text);
    }
}

#[test]
fn score_is_the_number_of_turns() {
    assert_eq!(compute_score(&Output { acc: vec![] }), (0, String::new()));
    assert_eq!(compute_score(&parse_output("5555555").unwrap()), (7, String::new()));
}

#[test]
fn state_before_the_first_turn() {
    let input = Input { target: vec![(0, 0), (1, 1)] };
    let out = Output { acc: vec![(1, 1)] };
    let (pos, vel, lines, visited) = compute_state(&input, &out, 0);
    assert_eq!(pos, (0, 0));
    assert_eq!(vel, (0, 0));
    assert_eq!(lines, vec![]);
    assert_eq!(visited, vec![false, false]);
}

#[test]
fn ship_accelerates_then_moves() {
    let input = Input { target: vec![(1, 1), (3, 2), (6, 2), (0, 0), (3, 2)] };
    let out = Output { acc: vec![(1, 1), (1, 0), (1, -1), (-3, 0)] };
    assert!(can_fly(&out, 4));
    let (pos, vel, lines, visited) = compute_state(&input, &out, 3);
    assert_eq!(vel, (3, 0));
    assert_eq!(pos, (6, 2));
    assert_eq!(lines, vec![(0, 0, 1, 1), (1, 1, 3, 2), (3, 2, 6, 2)]);
    assert_eq!(visited, vec![true, true, true, false, true]);
    let (pos, vel, lines, visited) = compute_state(&input, &out, 2);
    assert_eq!((pos, vel), ((3, 2), (2, 1)));
    assert_eq!(lines.len(), 2);
    assert_eq!(visited, vec![true, true, false, false, true]);
    let (pos, vel, _, _) = compute_state(&input, &out, 4);
    assert_eq!((pos, vel), ((6, 2), (0, 0)));
}

#[test]
fn origin_counts_once_the_ship_comes_back() {
    let input = Input { target: vec![(0, 0)] };
    let out = Output { acc: vec![(1, 0), (-2, 0)] };
    assert_eq!(compute_state(&input, &out, 1).3, vec![false]);
    assert_eq!(compute_state(&input, &out, 2).3, vec![true]);
    let rest = Output { acc: vec![(0, 0)] };
    assert_eq!(compute_state(&input, &rest, 1).3, vec![true]);
}

#[test]
fn replay_of_decoded_actions() {
    let input = Input { target: vec![(-1, -1), (-1, -2)] };
    let out = parse_output("18\n").unwrap();
    let (pos, vel, lines, visited) = compute_state(&input, &out, 2);
    assert_eq!(pos, (-2, -1));
    assert_eq!(vel, (-1, 0));
    assert_eq!(lines, vec![(0, 0, -1, -1), (-1, -1, -2, -1)]);
    assert_eq!(visited, vec![true, false]);
}

#[test]
fn flight_must_stay_within_i32() {
    let out = Output { acc: vec![(1, 0); 8] };
    assert!(can_fly(&out, 8));
    assert!(!can_fly(&out, 9));
    let fast = Output { acc: vec![(i32::MAX, 0), (1, 0)] };
    assert!(can_fly(&fast, 1));
    assert!(!can_fly(&fast, 2));
    let far = Output { acc: vec![(0, i32::MIN / 2 - 1), (0, 0), (0, 0)] };
    assert!(can_fly(&far, 1));
    assert!(!can_fly(&far, 2));
    let back = Output { acc: vec![(i32::MAX, i32::MIN + 1), (i32::MIN, i32::MAX), (0, 0)] };
    assert!(can_fly(&back, 3));
    assert_eq!(compute_state(&Input { target: vec![] }, &back, 3).0, (i32::MAX - 2, i32::MIN + 1));
    let edge = Output { acc: vec![(i32::MAX, i32::MIN), (i32::MIN, i32::MAX)] };
    assert!(can_fly(&edge, 1));
    assert!(!can_fly(&edge, 2));
    assert!(!can_fly(&edge, 3));
}

#[test]
fn longest_unit_flight_fits() {
    let out = Output { acc: vec![(1, -1); UNIT_FLIGHT_MAX + 1] };
    assert!(can_fly(&out, UNIT_FLIGHT_MAX));
    assert!(!can_fly(&out, UNIT_FLIGHT_MAX + 1));
    let (pos, vel, lines, _) = compute_state(&Input { target: vec![] }, &out, UNIT_FLIGHT_MAX);
    assert_eq!(vel, (65535, -65535));
    assert_eq!(pos, (2147450880, -2147450880));
    assert_eq!(lines.len(), UNIT_FLIGHT_MAX);
}

#[test]
fn draw_range_is_the_largest_coordinate() {
    assert_eq!(draw_range(&Input { target: vec![] }), 1);
    assert_eq!(draw_range(&Input { target: vec![(0, 0)] }), 1);
    assert_eq!(draw_range(&Input { target: vec![(1, -1)] }), 1);
    assert_eq!(draw_range(&Input { target: vec![(3, -7), (5, 2)] }), 7);
    assert_eq!(draw_range(&Input { target: vec![(-9, 0), (5, 2)] }), 9);
    assert_eq!(draw_range(&Input { target: vec![(i32::MIN + 1, i32::MAX)] }), i32::MAX);
}

#[test]
fn setmin_keeps_the_smaller() {
    let mut x = 5;
    assert!(x.setmin(3));
    assert_eq!(x, 3);
    assert!(!x.setmin(3));
    assert!(!x.setmin(4));
    assert_eq!(x, 3);
    let mut s = "pear";
    assert!(s.setmin("apple"));
    assert_eq!(s, "apple");
}

#[test]
fn setmax_keeps_the_larger() {
    let mut x = 5u64;
    assert!(x.setmax(8));
    assert_eq!(x, 8);
    assert!(!x.setmax(8));
    assert!(!x.setmax(1));
    assert_eq!(x, 8);
    let mut f = 1.5f64;
    assert!(!f.setmax(f64::NAN));
    assert!(!f.setmin(f64::NAN));
    assert!(f.setmax(2.5));
    assert_eq!(f, 2.5);
}
