use std::collections::HashSet;

use life::cells::{count_neighbors, CellSet};
use life::config::{life_pair, parse_counts, parse_for_hashset, parse_life_line};
use life::generation::{can_step, step};
use life::input::{
    has_offset_room, loop_step, process_input, Action, EventQueue, InputAction, LoopStep,
};
use life::render::{can_project, needs_full_redraw, render_diff};

fn set_of(points: &[(i64, i64)]) -> CellSet {
    let mut s = CellSet::new();
    for &(x, y) in points {
        s.insert(x, y);
    }
    s
}

fn holds_exactly(s: &CellSet, points: &[(i64, i64)]) -> bool {
    s.len() == points.len() && points.iter().all(|&(x, y)| s.contains(x, y))
}

fn default_rules() -> (HashSet<u32>, HashSet<u32>) {
    ([2u32, 3].iter().cloned().collect(), [3u32].iter().cloned().collect())
}

#[test]
fn cell_set_insert_remove_contains() {
    let mut s = CellSet::new();
    assert!(s.insert(1, 2));
    assert!(!s.insert(1, 2));
    assert_eq!(s.len(), 1);
    assert!(s.contains(1, 2));
    assert!(!s.contains(2, 1));
    assert!(s.remove(1, 2));
    assert!(!s.remove(1, 2));
    assert_eq!(s.len(), 0);
}

#[test]
fn count_neighbors_full_ring() {
    let s = set_of(&[(-1, -1), (0, -1), (1, -1), (-1, 0), (0, 0), (1, 0), (-1, 1), (0, 1), (1, 1)]);
    assert_eq!(count_neighbors(0, 0, &s), 8);
    assert_eq!(count_neighbors(1, 1, &s), 3);
    assert_eq!(count_neighbors(2, 0, &s), 3);
    assert_eq!(count_neighbors(3, 0, &s), 0);
}

#[test]
fn count_neighbors_far_cells_count_zero() {
    let s = set_of(&[(0, 0), (5, 5), (-2, 0), (0, 2)]);
    assert_eq!(count_neighbors(0, 0, &s), 0);
    assert_eq!(count_neighbors(10, -10, &s), 0);
}

#[test]
fn count_neighbors_translation() {
    let pts = [(0i64, 0i64), (1, 0), (0, 1), (3, 3)];
    let s = set_of(&pts);
    let moved: Vec<(i64, i64)> = pts.iter().map(|&(x, y)| (x + 100, y - 40)).collect();
    let t = set_of(&moved);
    for &(x, y) in &[(0i64, 0i64), (1, 1), (2, 2), (-1, 0)] {
        assert_eq!(count_neighbors(x, y, &s), count_neighbors(x + 100, y - 40, &t));
    }
}

#[test]
fn step_empty_stays_empty() {
    let (live, born) = default_rules();
    let mut s = CellSet::new();
    step(&mut s, &live, &born);
    assert_eq!(s.len(), 0);
}

#[test]
fn step_isolated_cell_dies() {
    let (live, born) = default_rules();
    let mut s = set_of(&[(7, -3)]);
    step(&mut s, &live, &born);
    assert_eq!(s.len(), 0);
}

#[test]
fn step_block_is_still() {
    let (live, born) = default_rules();
    let block = [(0, 0), (1, 0), (0, 1), (1, 1)];
    let mut s = set_of(&block);
    step(&mut s, &live, &born);
    assert!(holds_exactly(&s, &block));
    step(&mut s, &live, &born);
    assert!(holds_exactly(&s, &block));
}

#[test]
fn step_blinker_oscillates() {
    let (live, born) = default_rules();
    let row = [(-1, 0), (0, 0), (1, 0)];
    let column = [(0, -1), (0, 0), (0, 1)];
    let mut s = set_of(&row);
    step(&mut s, &live, &born);
    assert!(holds_exactly(&s, &column));
    assert!(!holds_exactly(&s, &row));
    step(&mut s, &live, &born);
    assert!(holds_exactly(&s, &row));
}

#[test]
fn step_glider_moves() {
    let (live, born) = default_rules();
    let mut s = set_of(&[(1, 0), (2, 1), (0, 2), (1, 2), (2, 2)]);
    for _ in 0..4 {
        step(&mut s, &live, &born);
    }
    assert!(holds_exactly(&s, &[(2, 1), (3, 2), (1, 3), (2, 3), (3, 3)]));
}

#[test]
fn step_survival_and_birth_are_separate() {
    // A live cell with a birth count but no survival count dies.
    let live: HashSet<u32> = [5u32].iter().cloned().collect();
    let born: HashSet<u32> = [1u32].iter().cloned().collect();
    let mut s = set_of(&[(0, 0), (1, 0)]);
    step(&mut s, &live, &born);
    assert!(!s.contains(0, 0));
    assert!(!s.contains(1, 0));
    assert!(s.contains(-1, 0));
    assert!(s.contains(2, 0));
    assert!(s.contains(-1, 1));
    assert!(!s.contains(0, 1));
    assert_eq!(s.len(), 6);
}

#[test]
fn step_birth_zero_stays_near_live_cells() {
    let live: HashSet<u32> = [0u32].iter().cloned().collect();
    let born: HashSet<u32> = [0u32].iter().cloned().collect();
    let mut s = set_of(&[(0, 0)]);
    step(&mut s, &live, &born);
    assert!(holds_exactly(&s, &[(0, 0)]));
}

#[test]
fn can_step_at_edges() {
    assert!(can_step(&set_of(&[(i64::MAX - 2, i64::MIN + 2)])));
    assert!(!can_step(&set_of(&[(0, 0), (i64::MAX - 1, 0)])));
}

#[test]
fn queue_drains_in_push_order() {
    let mut q = EventQueue::new();
    let events: Vec<InputAction> = (1..=50u16).map(|i| InputAction::MouseClick(i, i + 1)).collect();
    let mut drained = Vec::new();
    for (i, e) in events.iter().enumerate() {
        q.push(*e);
        if i % 7 == 3 {
            drained.extend(q.drain_all());
            assert_eq!(q.len(), 0);
        }
    }
    drained.extend(q.drain_all());
    assert_eq!(drained, events);
    assert!(q.drain_all().is_empty());
}

#[test]
fn queue_offer_drops_unrecognized_and_reports_quit() {
    let mut q = EventQueue::new();
    assert!(!q.offer(InputAction::Unrecognized));
    assert!(!q.offer(InputAction::KeyDownUp));
    assert!(q.offer(InputAction::KeyDown('q')));
    assert_eq!(q.drain_all(), vec![InputAction::KeyDownUp, InputAction::KeyDown('q')]);
}

#[test]
fn reduce_empty_batch_keeps_action() {
    for a in [Action::Update, Action::Pause, Action::Quit, Action::Nothing] {
        let mut cells = set_of(&[(1, 1)]);
        let mut off = (3i64, -4i64);
        let r = process_input(&Vec::new(), &mut cells, a, &mut off);
        assert_eq!(r, a);
        assert_eq!(off, (3, -4));
        assert!(holds_exactly(&cells, &[(1, 1)]));
    }
}

#[test]
fn reduce_double_click_restores() {
    let mut cells = set_of(&[(4, 4)]);
    let mut off = (10i64, 20i64);
    let clicks = vec![InputAction::MouseClick(3, 5), InputAction::MouseClick(3, 5)];
    let r = process_input(&clicks, &mut cells, Action::Nothing, &mut off);
    assert_eq!(r, Action::Update);
    assert!(holds_exactly(&cells, &[(4, 4)]));
    let one = vec![InputAction::MouseClick(3, 5)];
    process_input(&one, &mut cells, Action::Nothing, &mut off);
    assert!(holds_exactly(&cells, &[(4, 4), (12, 24)]));
    let at_cell = vec![InputAction::MouseClick(1, 1)];
    let mut off0 = (4i64, 4i64);
    process_input(&at_cell, &mut cells, Action::Nothing, &mut off0);
    assert!(holds_exactly(&cells, &[(12, 24)]));
}

#[test]
fn reduce_arrows_move_offset() {
    let mut cells = CellSet::new();
    let mut off = (0i64, 0i64);
    let evs = vec![
        InputAction::KeyDownLeft,
        InputAction::KeyDownLeft,
        InputAction::KeyDownDown,
        InputAction::KeyDownRight,
        InputAction::KeyDownUp,
        InputAction::KeyDownUp,
    ];
    let r = process_input(&evs, &mut cells, Action::Pause, &mut off);
    assert_eq!(r, Action::Update);
    assert_eq!(off, (-1, -1));
}

#[test]
fn reduce_space_toggles_in_order() {
    let mut cells = CellSet::new();
    let mut off = (0i64, 0i64);
    let space = vec![InputAction::KeyDown(' ')];
    assert_eq!(process_input(&space, &mut cells, Action::Nothing, &mut off), Action::Pause);
    assert_eq!(process_input(&space, &mut cells, Action::Pause, &mut off), Action::Nothing);
    let two = vec![InputAction::KeyDown(' '), InputAction::KeyDown(' ')];
    assert_eq!(process_input(&two, &mut cells, Action::Nothing, &mut off), Action::Nothing);
    let arrow_then_space = vec![InputAction::KeyDownLeft, InputAction::KeyDown(' ')];
    assert_eq!(
        process_input(&arrow_then_space, &mut cells, Action::Nothing, &mut off),
        Action::Nothing
    );
    let space_then_arrow = vec![InputAction::KeyDown(' '), InputAction::KeyDownLeft];
    assert_eq!(
        process_input(&space_then_arrow, &mut cells, Action::Nothing, &mut off),
        Action::Update
    );
}

#[test]
fn reduce_quit_after_edits_keeps_edits() {
    let mut cells = CellSet::new();
    let mut off = (0i64, 0i64);
    let evs = vec![InputAction::MouseClick(2, 2), InputAction::KeyDown('q')];
    assert_eq!(process_input(&evs, &mut cells, Action::Nothing, &mut off), Action::Quit);
    assert!(holds_exactly(&cells, &[(1, 1)]));
}

#[test]
fn reduce_other_keys_change_nothing() {
    let mut cells = CellSet::new();
    let mut off = (0i64, 0i64);
    let evs = vec![InputAction::KeyDownUp, InputAction::KeyDown('x'), InputAction::Unrecognized];
    assert_eq!(process_input(&evs, &mut cells, Action::Pause, &mut off), Action::Update);
    assert_eq!(off, (0, -1));
}

#[test]
fn offset_room_limits() {
    assert!(has_offset_room((0, 0), 10));
    assert!(!has_offset_room((i64::MAX - 100, 0), 10));
    assert!(!has_offset_room((0, i64::MIN), 0));
}

#[test]
fn loop_step_table() {
    assert_eq!(loop_step(Action::Update, Action::Pause, true), (LoopStep::Redraw, Action::Pause));
    assert_eq!(loop_step(Action::Pause, Action::Nothing, true), (LoopStep::Idle, Action::Pause));
    assert_eq!(loop_step(Action::Quit, Action::Nothing, false), (LoopStep::Stop, Action::Quit));
    assert_eq!(loop_step(Action::Nothing, Action::Pause, true), (LoopStep::Advance, Action::Nothing));
    assert_eq!(loop_step(Action::Nothing, Action::Pause, false), (LoopStep::Idle, Action::Nothing));
}

#[test]
fn render_diff_draws_visible_and_erases_stale() {
    let cells = set_of(&[(0, 0), (5, 5), (-3, 2)]);
    let mut old = set_of(&[(1, 1), (2, 2), (9, 9)]);
    assert!(can_project(&cells, (0, 0)));
    let d = render_diff(&cells, &mut old, (0, 0), 4, 4);
    assert!(holds_exactly(&d.draw, &[(1, 1)]));
    assert!(holds_exactly(&d.erase, &[(2, 2)]));
    assert!(holds_exactly(&old, &[(1, 1), (6, 6), (-2, 3)]));
    let d2 = render_diff(&cells, &mut old, (-3, 0), 4, 4);
    assert!(holds_exactly(&d2.draw, &[(4, 1), (1, 3)]));
    assert!(holds_exactly(&d2.erase, &[(1, 1)]));
    assert!(holds_exactly(&old, &[(4, 1), (9, 6), (1, 3)]));
}

#[test]
fn render_diff_lists_are_disjoint() {
    let cells = set_of(&[(0, 0), (1, 0)]);
    let mut old = set_of(&[(1, 1), (2, 1), (3, 1)]);
    let d = render_diff(&cells, &mut old, (0, 0), 10, 10);
    for i in 0..d.draw.len() {
        let (x, y) = d.draw.get(i);
        assert!(!d.erase.contains(x, y));
    }
    assert!(holds_exactly(&d.erase, &[(3, 1)]));
}

#[test]
fn can_project_refuses_overflow() {
    assert!(!can_project(&set_of(&[(i64::MAX, 0)]), (-5, 0)));
    assert!(!can_project(&CellSet::new(), (i64::MAX, 0)));
}

#[test]
fn full_redraw_on_any_size_change() {
    assert!(needs_full_redraw(0, 0, 80, 24));
    assert!(needs_full_redraw(80, 24, 80, 25));
    assert!(needs_full_redraw(80, 24, 81, 24));
    assert!(!needs_full_redraw(80, 24, 80, 24));
}

#[test]
fn parse_counts_skips_bad_pieces() {
    let r = parse_counts("2,x,3,,+4,-1,99999999999");
    let want: HashSet<u32> = [2u32, 3, 4].iter().cloned().collect();
    assert_eq!(r, want);
}

#[test]
fn parse_for_hashset_replaces_or_keeps() {
    let mut s: HashSet<u32> = [2u32, 3].iter().cloned().collect();
    parse_for_hashset(Some(String::from(" 1,5 \n")), &mut s);
    assert_eq!(s, [1u32, 5].iter().cloned().collect());
    parse_for_hashset(Some(String::from("a,b")), &mut s);
    assert_eq!(s, [1u32, 5].iter().cloned().collect());
    parse_for_hashset(None, &mut s);
    assert_eq!(s, [1u32, 5].iter().cloned().collect());
    parse_for_hashset(Some(String::from("2, 3")), &mut s);
    assert_eq!(s, [2u32].iter().cloned().collect());
}

#[test]
fn life_lines() {
    assert_eq!(parse_life_line("1 2"), Some((1, 2)));
    assert_eq!(parse_life_line("-3  4 \t"), Some((-3, 4)));
    assert_eq!(parse_life_line("5 6\t"), Some((5, 6)));
    assert_eq!(parse_life_line("#Life 1.06"), None);
    assert_eq!(parse_life_line("7"), None);
    assert_eq!(parse_life_line("a 8 b 9 10"), Some((8, 9)));
    assert_eq!(life_pair("5 6\t"), None);
    assert_eq!(parse_life_line("9223372036854775808 1 2"), Some((1, 2)));
}
