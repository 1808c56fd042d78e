use stembed::input::matrix::{state_from_readings, MatrixScanState};
use stembed::input::stroke_map::{keyboard_stroke_map, keymap_left, keymap_right, stroke_from_input, stroke_state};
use stembed::input::grouping::{GroupingMode, KeypressGrouper};
use stembed::input::position::{KeyColumn, KeyPosition, KeyRow};
use stembed::input::repeating::{KeypressRepeater, RepeatState};
use stembed::input::state::{InputState, KeyEvent};

#[test]
fn set_and_unset_keys() {
    let mut state = InputState::new();
    assert!(state.is_empty());
    let a = KeyPosition::Left(KeyColumn::Pinky, KeyRow::Top);
    let b = KeyPosition::Right(KeyColumn::Thumb, KeyRow::Below);
    state.set(a);
    state.set(b);
    assert!(state.is_set(a) && state.is_set(b));
    assert!(!state.is_set(KeyPosition::Left(KeyColumn::Ring, KeyRow::Top)));
    state.unset(a);
    assert!(!state.is_set(a) && state.is_set(b));
    state.unset(b);
    assert!(state.is_empty());
}

#[test]
fn a_pressed_key_makes_the_state_non_empty() {
    let mut state = InputState::new();
    assert!(state.is_empty());
    state.set(KeyPosition::Right(KeyColumn::Thumb, KeyRow::Below));
    assert!(!state.is_empty());
}

#[test]
fn pressing_and_releasing_a_key_restores_the_state() {
    let mut state = InputState::new();
    state.set(KeyPosition::Right(KeyColumn::Thumb, KeyRow::Below));
    let before = state;
    let key = KeyPosition::Left(KeyColumn::Pinky, KeyRow::Top);
    state.set(key);
    state.unset(key);
    assert_eq!(state, before);
}

#[test]
fn combine_states() {
    let a = KeyPosition::Left(KeyColumn::Index, KeyRow::Bottom);
    let b = KeyPosition::Right(KeyColumn::ExtraTrailing, KeyRow::Above);
    let mut x = InputState::new();
    x.set(a);
    let mut y = InputState::new();
    y.set(b);
    let both = x.add(y);
    assert!(both.is_set(a) && both.is_set(b));
    let only_b = both.sub(x);
    assert!(!only_b.is_set(a) && only_b.is_set(b));
    let mut z = x;
    z.add_assign(y);
    assert_eq!(z, both);
}

#[test]
fn key_positions_have_distinct_indices() {
    for i in 0..56 {
        assert_eq!(KeyPosition::at(i).index(), i);
    }
    assert_eq!(KeyPosition::Left(KeyColumn::Ring, KeyRow::Bottom).index(), 6);
    assert_eq!(KeyPosition::Right(KeyColumn::Pinky, KeyRow::Above).index(), 28);
}

#[test]
fn report_edges() {
    let a = KeyPosition::Left(KeyColumn::Pinky, KeyRow::Above);
    let b = KeyPosition::Left(KeyColumn::Middle, KeyRow::Top);
    let mut before = InputState::new();
    before.set(a);
    let mut after = InputState::new();
    after.set(b);
    assert_eq!(before.edges_toward(after), vec![(a, KeyEvent::Up), (b, KeyEvent::Down)]);
    assert!(before.edges_toward(before).is_empty());
    let keys = before.keys();
    assert_eq!(keys.len(), 56);
    assert_eq!(keys[0], (a, true));
    assert_eq!(keys[1].1, false);
}

#[test]
fn group_last_up() {
    let mut grouper = KeypressGrouper::<3>::new(GroupingMode::LastUp);
    assert_eq!(grouper.push(vec![true, false, false]), None);
    assert_eq!(grouper.push(vec![true, true, false]), None);
    assert_eq!(grouper.push(vec![false, true, false]), None);
    assert_eq!(grouper.push(vec![false, false, false]), Some(vec![true, true, false]));
    assert_eq!(grouper.push(vec![false, false, false]), None);
}

#[test]
fn group_first_up() {
    let mut grouper = KeypressGrouper::<3>::new(GroupingMode::FirstUp);
    assert_eq!(grouper.push(vec![true, false, false]), None);
    assert_eq!(grouper.push(vec![true, true, false]), None);
    // Releasing the first key emits both keys.
    assert_eq!(grouper.push(vec![false, true, false]), Some(vec![true, true, false]));
    // Releasing the remaining flagged key emits nothing.
    assert_eq!(grouper.push(vec![false, false, false]), None);
}

#[test]
fn repeat_tapped_and_held_stroke() {
    let repeater = KeypressRepeater::new(100, 200, 300);
    let mut grouper = KeypressGrouper::<2>::new(GroupingMode::LastUp);
    let mut repeat = RepeatState::new();
    let down = vec![true, false];
    let up = vec![false, false];
    assert_eq!(repeat.on_input(&mut grouper, &repeater, down.clone(), 0), None);
    assert_eq!(repeat.on_input(&mut grouper, &repeater, up.clone(), 10), Some(vec![true, false]));
    assert_eq!(repeat.repeat_deadline(&repeater, 20), None);
    // Tap again quickly: the stroke starts repeating.
    assert_eq!(repeat.on_input(&mut grouper, &repeater, down.clone(), 50), None);
    assert_eq!(repeat.repeat_deadline(&repeater, 60), Some(460));
    // Released before the first repetition: an ordinary double tap.
    assert_eq!(repeat.on_input(&mut grouper, &repeater, up.clone(), 60), Some(vec![true, false]));
    assert_eq!(repeat.repeat_deadline(&repeater, 70), None);
}

#[test]
fn repeat_timer_emits_repeated_stroke() {
    let repeater = KeypressRepeater::new(100, 200, 300);
    let mut grouper = KeypressGrouper::<1>::new(GroupingMode::FirstUp);
    let mut repeat = RepeatState::new();
    assert_eq!(repeat.on_input(&mut grouper, &repeater, vec![true], 0), None);
    assert_eq!(repeat.on_input(&mut grouper, &repeater, vec![false], 10), Some(vec![true]));
    assert_eq!(repeat.on_input(&mut grouper, &repeater, vec![true], 20), None);
    assert_eq!(repeat.on_input(&mut grouper, &repeater, vec![false], 30), Some(vec![true]));
    // The double tap ended the repetition and forgot the last stroke.
    assert_eq!(repeat.on_input(&mut grouper, &repeater, vec![true], 40), None);
    assert_eq!(repeat.repeat_deadline(&repeater, 45), None);
    assert_eq!(repeat.on_input(&mut grouper, &repeater, vec![false], 50), Some(vec![true]));
    // The same stroke within the tap delay: repetition is active.
    assert_eq!(repeat.on_input(&mut grouper, &repeater, vec![true], 60), None);
    assert_eq!(repeat.repeat_deadline(&repeater, 70), Some(470));
    assert_eq!(repeat.on_timer(&repeater, 470), vec![true]);
    assert_eq!(repeat.repeat_deadline(&repeater, 480), Some(570));
    // Releasing the repeated stroke after it repeated emits nothing.
    assert_eq!(repeat.on_input(&mut grouper, &repeater, vec![false], 580), None);
    assert_eq!(repeat.repeat_deadline(&repeater, 590), None);
}

fn stroke_map() -> Vec<Vec<Option<KeyPosition>>> {
    let columns = [KeyColumn::Pinky, KeyColumn::Ring, KeyColumn::Middle, KeyColumn::Index, KeyColumn::Thumb, KeyColumn::ExtraLeading];
    let rows = [KeyRow::Above, KeyRow::Top, KeyRow::Bottom, KeyRow::Below];
    let mut map = Vec::new();
    for i in 0..23 {
        let position = if i < 12 {
            KeyPosition::Left(columns[i / 4], rows[i % 4])
        } else {
            KeyPosition::Right(columns[(i - 12) / 4], rows[(i - 12) % 4])
        };
        map.push(vec![None, Some(position)]);
    }
    map
}

#[test]
fn stroke_from_pressed_positions() {
    let map = stroke_map();
    let mut input = InputState::new();
    input.set(KeyPosition::Left(KeyColumn::Middle, KeyRow::Bottom)); // entry 10: *
    input.set(KeyPosition::Right(KeyColumn::Ring, KeyRow::Top)); // entry 17: -L
    let stroke = stroke_from_input(&input, &map);
    assert_eq!(stroke.to_string(), "*L");
    assert_eq!(stroke_state(&input, &map), (1 << (22 - 10)) | (1 << (22 - 17)));
}

#[test]
fn stroke_from_nothing_pressed() {
    let map = stroke_map();
    assert_eq!(stroke_state(&InputState::new(), &map), 0);
    assert!(stroke_from_input(&InputState::new(), &map).is_empty());
}

#[test]
fn edges_between_states() {
    let grouper = KeypressGrouper::<4>::new(GroupingMode::FirstUp);
    let previous = vec![true, false, true, false];
    let next = vec![false, true, true, false];
    assert_eq!(grouper.edges_between(&previous, &next), vec![(0, KeyEvent::Up), (1, KeyEvent::Down)]);
    assert_eq!(grouper.edges_between(&next, &next), vec![]);
}

#[test]
fn state_from_matrix_readings() {
    let a = KeyPosition::Left(KeyColumn::Pinky, KeyRow::Top);
    let b = KeyPosition::Right(KeyColumn::Index, KeyRow::Bottom);
    let keymap = vec![Some(a), None, Some(b), Some(a)];
    let state = state_from_readings(&vec![false, true, true, false], &keymap);
    assert!(!state.is_set(a));
    assert!(state.is_set(b));
    let state = state_from_readings(&vec![false, false, false, true], &keymap);
    assert!(state.is_set(a));
    assert!(!state.is_set(b));
    assert!(state_from_readings(&vec![false, true, false, false], &keymap).is_empty());
}

#[test]
fn scanner_passes_on_changes_and_sleeps_when_idle() {
    let a = KeyPosition::Left(KeyColumn::Ring, KeyRow::Top);
    let mut pressed = InputState::new();
    pressed.set(a);
    let mut scanner = MatrixScanState::new();
    assert!(!scanner.waits_for_press());
    assert_eq!(scanner.after_scan(InputState::new()), Some(InputState::new()));
    assert!(scanner.waits_for_press());
    assert_eq!(scanner.after_scan(pressed), Some(pressed));
    assert!(!scanner.waits_for_press());
    assert_eq!(scanner.after_scan(pressed), None);
    assert_eq!(scanner.after_scan(InputState::new()), Some(InputState::new()));
    assert_eq!(scanner.after_scan(InputState::new()), None);
}

#[test]
fn keyboard_stroke_map_presses_layout_keys() {
    let map = keyboard_stroke_map();
    assert_eq!(map.len(), 23);
    assert_eq!(keymap_left().len(), 18);
    assert_eq!(keymap_right()[0], Some(KeyPosition::Right(KeyColumn::ExtraLeading, KeyRow::Top)));
    let mut state = InputState::new();
    state.set(KeyPosition::Left(KeyColumn::Index, KeyRow::Below));
    state.set(KeyPosition::Right(KeyColumn::Pinky, KeyRow::Bottom));
    // A and -S
    assert_eq!(stroke_from_input(&state, &map), stembed::Stroke::from(0b00000000_10000_0000000100_0));
}

#[test]
fn without_repetition_the_grouped_strokes_pass_through() {
    let repeater = KeypressRepeater::new(100, 200, 300);
    let mut grouper = KeypressGrouper::<2>::new(GroupingMode::LastUp);
    let mut plain = KeypressGrouper::<2>::new(GroupingMode::LastUp);
    let mut repeat = RepeatState::new();
    let states = vec![
        vec![true, false],
        vec![false, false],
        vec![false, true],
        vec![false, false],
        vec![true, true],
        vec![false, false],
    ];
    // Far apart in time, so no tap starts a repetition.
    for (i, state) in states.into_iter().enumerate() {
        let expected = plain.push(state.clone());
        assert_eq!(repeat.on_input(&mut grouper, &repeater, state, (i as u64) * 1000), expected);
    }
}
