use graph_slam::grid::{
    action_name, apply_action_on_dir, apply_offset_on_dir, cost, delta, delta_name, forward,
    from_dir, modulo, opp_dir, optimum_policy, propagate_dir_from_action, search, Action, Dir,
    Offset, Space,
};

#[test]
fn modulo_wraps_negatives() {
    assert_eq!(modulo(7, 5), 2);
    assert_eq!(modulo(-3, 5), 2);
    assert_eq!(modulo(-5, 5), 0);
    assert_eq!(modulo(0, 5), 0);
    assert_eq!(modulo(-13, 4), 3);
}

#[test]
fn delta_moves_inside_the_grid() {
    assert_eq!(delta((1, 1), Dir::Up, 4, 6), Some((0, 1)));
    assert_eq!(delta((1, 1), Dir::Down, 4, 6), Some((2, 1)));
    assert_eq!(delta((1, 1), Dir::Left, 4, 6), Some((1, 0)));
    assert_eq!(delta((1, 1), Dir::Right, 4, 6), Some((1, 2)));
    assert_eq!(delta((0, 1), Dir::Up, 4, 6), None);
    assert_eq!(delta((3, 1), Dir::Down, 4, 6), None);
    assert_eq!(delta((1, 0), Dir::Left, 4, 6), None);
    assert_eq!(delta((1, 5), Dir::Right, 4, 6), None);
}

#[test]
fn forward_is_the_same_move_as_delta() {
    assert_eq!(forward((2, 3), Dir::Up, 5, 6), delta((2, 3), Dir::Up, 5, 6));
    assert_eq!(forward((4, 5), Dir::Right, 5, 6), None);
}

#[test]
fn direction_names_and_indices() {
    assert_eq!(delta_name(Dir::Up), '^');
    assert_eq!(delta_name(Dir::Down), 'v');
    assert_eq!(delta_name(Dir::Left), '<');
    assert_eq!(delta_name(Dir::Right), '>');
    assert_eq!(from_dir(Dir::Up), 0);
    assert_eq!(from_dir(Dir::Left), 1);
    assert_eq!(from_dir(Dir::Down), 2);
    assert_eq!(from_dir(Dir::Right), 3);
}

#[test]
fn opposite_directions() {
    assert_eq!(opp_dir(Dir::Up), Dir::Down);
    assert_eq!(opp_dir(Dir::Down), Dir::Up);
    assert_eq!(opp_dir(Dir::Left), Dir::Right);
    assert_eq!(opp_dir(Dir::Right), Dir::Left);
}

#[test]
fn action_names_and_costs() {
    assert_eq!(action_name(Action::LeftTurn), 'L');
    assert_eq!(action_name(Action::NoTurn), '#');
    assert_eq!(action_name(Action::RightTurn), 'R');
    assert_eq!(cost(Action::LeftTurn), 20);
    assert_eq!(cost(Action::NoTurn), 1);
    assert_eq!(cost(Action::RightTurn), 2);
}

#[test]
fn actions_rotate_headings() {
    assert_eq!(apply_action_on_dir(Dir::Up, Action::LeftTurn), Dir::Left);
    assert_eq!(apply_action_on_dir(Dir::Up, Action::NoTurn), Dir::Up);
    assert_eq!(apply_action_on_dir(Dir::Up, Action::RightTurn), Dir::Right);
    assert_eq!(apply_action_on_dir(Dir::Left, Action::LeftTurn), Dir::Down);
    assert_eq!(apply_action_on_dir(Dir::Right, Action::RightTurn), Dir::Down);
}

#[test]
fn offsets_drift_like_turns() {
    assert_eq!(apply_offset_on_dir(Dir::Up, Offset::LeftOffset), Dir::Left);
    assert_eq!(apply_offset_on_dir(Dir::Up, Offset::NoOffset), Dir::Up);
    assert_eq!(apply_offset_on_dir(Dir::Up, Offset::RightOffset), Dir::Right);
}

#[test]
fn propagation_inverts_actions() {
    for &d in &[Dir::Up, Dir::Left, Dir::Down, Dir::Right] {
        for &a in &[Action::LeftTurn, Action::NoTurn, Action::RightTurn] {
            let before = propagate_dir_from_action(a, d);
            assert_eq!(apply_action_on_dir(before, a), d);
        }
    }
}

#[test]
fn search_reaches_the_goal_on_the_demo_grid() {
    let o = Space::O;
    let x = Space::X;
    let grid = vec![
        vec![o, o, x, o, o, o],
        vec![o, o, x, o, o, o],
        vec![o, o, o, o, x, o],
        vec![o, o, x, x, x, o],
        vec![o, o, o, o, x, o],
    ];
    let found = search(&grid, (0, 0), (4, 5)).unwrap();
    assert_eq!(found, (4, 5, 11));
}

#[test]
fn search_returns_none_when_walled_off() {
    let o = Space::O;
    let x = Space::X;
    let grid = vec![vec![o, x, o], vec![o, x, o], vec![o, x, o]];
    assert_eq!(search(&grid, (0, 0), (0, 2)), None);
}

#[test]
fn optimum_policy_labels_goal_and_points_home() {
    let o = Space::O;
    let x = Space::X;
    let grid = vec![
        vec![o, x, o, o, o, o],
        vec![o, x, o, o, o, o],
        vec![o, x, o, o, o, o],
        vec![o, x, o, o, o, o],
        vec![o, o, o, o, x, o],
    ];
    let policy = optimum_policy(&grid, (4, 5));
    assert_eq!(policy.len(), 5);
    assert_eq!(policy[0].len(), 6);
    assert_eq!(policy[4][5], '*');
    // Obstacles stay blank.
    assert_eq!(policy[0][1], ' ');
    assert_eq!(policy[4][4], ' ');
    // The cells above the goal walk down toward it.
    assert_eq!(policy[3][5], 'v');
    assert_eq!(policy[0][5], 'v');
}
