use stembed::buffer::HistoryBuffer;
use stembed::matcher::entry::{HistoryEntry, OutlineInformation};
use stembed::matcher::mutator::StateMutator;
use stembed::matcher::resolver::StateResolver;
use stembed::matcher::state::State;
use stembed::matcher::OutlineMatcher;
use stembed::Stroke;

fn history<const N: usize>(entries: Vec<HistoryEntry<char>>) -> HistoryBuffer<HistoryEntry<char>, N> {
    let mut buffer = HistoryBuffer::new();
    for entry in entries {
        buffer.push(entry);
    }
    buffer
}

fn outline(length: u8, commands: u8) -> OutlineInformation {
    OutlineInformation { length, commands }
}

#[test]
fn nothing_when_not_part_of_outline() {
    let mut state = State::<char, 2> {
        strokes: history(vec![HistoryEntry::with_outline('a', outline(1, 0)), HistoryEntry::new('b')]),
        uncommitted_count: 0,
    };
    let engine = StateMutator::new(2);
    assert_eq!(engine.pop(&mut state), None);
    assert_eq!(state.uncommitted_count, 0);
}

#[test]
fn nothing_when_start_of_outline() {
    let mut state = State::<char, 3> {
        strokes: history(vec![
            HistoryEntry::with_outline('a', outline(1, 0)),
            HistoryEntry::with_outline('b', outline(1, 3)),
        ]),
        uncommitted_count: 0,
    };
    let engine = StateMutator::new(2);
    assert_eq!(engine.pop(&mut state), Some(outline(1, 3)));
    assert_eq!(state.uncommitted_count, 0);
}

#[test]
fn adjust_uncommitted_count() {
    let mut state = State::<char, 3> {
        strokes: history(vec![
            HistoryEntry::with_outline('a', outline(1, 0)),
            HistoryEntry::with_outline('b', outline(1, 3)),
            HistoryEntry::new('a'),
        ]),
        uncommitted_count: 2,
    };
    let engine = StateMutator::new(2);
    assert_eq!(engine.pop(&mut state), None);
    assert_eq!(state.uncommitted_count, 1);
    assert_eq!(engine.pop(&mut state), Some(outline(1, 3)));
    assert_eq!(state.uncommitted_count, 0);
}

#[test]
fn reset_uncommitted_to_minimum() {
    let mut state = State::<char, 3> {
        strokes: history(vec![
            HistoryEntry::with_outline('a', outline(1, 0)),
            HistoryEntry::with_outline('b', outline(1, 0)),
        ]),
        uncommitted_count: 0,
    };
    let engine = StateMutator::new(2);
    engine.add('c', &mut state);
    assert_eq!(state.uncommitted_count, 2);
}

#[test]
fn reset_uncommitted_to_history_len() {
    let mut state = State::<char, 2> {
        strokes: history(vec![HistoryEntry::with_outline('a', outline(1, 0))]),
        uncommitted_count: 0,
    };
    let engine = StateMutator::new(4);
    engine.add('b', &mut state);
    assert_eq!(state.uncommitted_count, 2);
}

#[test]
fn reset_to_oldest_outline_past_minimum() {
    let mut state = State::<char, 3> {
        strokes: history(vec![
            HistoryEntry::with_outline('0', outline(1, 0)),
            HistoryEntry::with_outline('a', outline(2, 0)),
            HistoryEntry::new('b'),
        ]),
        uncommitted_count: 0,
    };
    let engine = StateMutator::new(2);
    engine.add('c', &mut state);
    assert_eq!(state.uncommitted_count, 3);
}

#[test]
fn decrement_uncommitted_count() {
    let mut state = State::<char, 3> {
        strokes: history(vec![HistoryEntry::new('a'), HistoryEntry::new('b'), HistoryEntry::new('c')]),
        uncommitted_count: 2,
    };
    assert!(StateResolver::new().commit(2, 0, &mut state).is_ok());
    assert_eq!(state.uncommitted_count, 0);
}

#[test]
fn write_outline() {
    let mut state = State::<char, 3> {
        strokes: history(vec![HistoryEntry::new('a'), HistoryEntry::new('b'), HistoryEntry::new('c')]),
        uncommitted_count: 2,
    };
    assert!(StateResolver::new().commit(2, 0, &mut state).is_ok());
    assert_eq!(state.stroke_from_back(1).unwrap().outline.as_ref().unwrap().length, 2);
}

#[test]
fn ignore_committed_outlines() {
    let mut state = State::<char, 2> {
        strokes: history(vec![HistoryEntry::with_outline('a', outline(1, 0)), HistoryEntry::new('b')]),
        uncommitted_count: 1,
    };
    assert!(StateResolver::new().commit(1, 0, &mut state).is_ok());
}

#[test]
fn strip_removed_outlines() {
    let mut state = State::<char, 2> {
        strokes: history(vec![HistoryEntry::with_outline('a', outline(2, 0)), HistoryEntry::new('b')]),
        uncommitted_count: 2,
    };
    if let Err(trailing) = StateResolver::new().commit(1, 0, &mut state) {
        trailing.remove(&mut state);
        assert!(state.stroke_from_back(0).unwrap().outline.is_none());
    } else {
        panic!();
    }
}

#[test]
fn return_correct_trailing_outline() {
    let mut state = State::<char, 4> {
        strokes: history(vec![
            HistoryEntry::with_outline('a', outline(1, 0)),
            HistoryEntry::with_outline('b', outline(2, 0)),
            HistoryEntry::new('c'),
            HistoryEntry::new('d'),
        ]),
        uncommitted_count: 4,
    };
    if let Err(trailing) = StateResolver::new().commit(3, 0, &mut state) {
        let actual = trailing.strokes(&state);
        let expected = vec![&'b', &'c'];
        assert_eq!(actual, expected);
    } else {
        panic!();
    }
}

#[test]
fn permit_redundant_commits_with_trailing_outline() {
    let mut state = State::<char, 4> {
        strokes: history(vec![
            HistoryEntry::with_outline('a', outline(2, 0)),
            HistoryEntry::new('b'),
            HistoryEntry::with_outline('c', outline(1, 0)),
            HistoryEntry::new('d'),
        ]),
        uncommitted_count: 4,
    };
    let result = StateResolver::new().commit(2, 0, &mut state);
    assert!(result.is_ok());
}

#[test]
fn list_correct_from_back() {
    let mut state = State::<char, 4> {
        strokes: history(vec![
            HistoryEntry::new('a'),
            HistoryEntry::new('b'),
            HistoryEntry::new('c'),
            HistoryEntry::new('d'),
        ]),
        uncommitted_count: 4,
    };
    assert_eq!(state.stroke_from_back(0).unwrap(), &HistoryEntry::new('d'));
    assert_eq!(state.stroke_from_back(1).unwrap(), &HistoryEntry::new('c'));
    assert_eq!(state.stroke_from_back(2).unwrap(), &HistoryEntry::new('b'));
    assert_eq!(state.stroke_from_back(3).unwrap(), &HistoryEntry::new('a'));
}

#[test]
fn lists_correct_uncommitted() {
    let mut state = State::<char, 4> {
        strokes: history(vec![
            HistoryEntry::new('a'),
            HistoryEntry::new('b'),
            HistoryEntry::new('c'),
            HistoryEntry::new('d'),
        ]),
        uncommitted_count: 4,
    };
    assert_eq!(state.uncommitted_strokes(), vec![&'a', &'b', &'c', &'d']);
    state.uncommitted_count = 2;
    assert_eq!(state.uncommitted_strokes(), vec![&'c', &'d']);
    state.uncommitted_count = 0;
    assert!(state.uncommitted_strokes().is_empty());
}

#[test]
fn lists_correct_committed() {
    let mut state = State::<char, 4> {
        strokes: history(vec![
            HistoryEntry::new('a'),
            HistoryEntry::new('b'),
            HistoryEntry::new('c'),
            HistoryEntry::new('d'),
        ]),
        uncommitted_count: 4,
    };
    assert!(state.committed_strokes().is_empty());
    state.uncommitted_count = 2;
    assert_eq!(state.committed_strokes(), vec![&HistoryEntry::new('a'), &HistoryEntry::new('b')]);
    state.uncommitted_count = 0;
    assert_eq!(
        state.committed_strokes(),
        vec![&HistoryEntry::new('a'), &HistoryEntry::new('b'), &HistoryEntry::new('c'), &HistoryEntry::new('d')]
    );
}

#[test]
fn match_and_undo_outlines() {
    let s = Stroke::from(0b01000000_00000_0000000000_0);
    let t = Stroke::from(0b00100000_00000_0000000000_0);
    let mut matcher = OutlineMatcher::<Stroke, 4>::new(2);
    matcher.add(s);
    matcher.add(t);
    assert_eq!(matcher.uncommitted_count(), 2);
    assert_eq!(matcher.uncommitted_strokes(), vec![&s, &t]);
    assert!(matcher.commit(2, 1).is_ok());
    assert_eq!(matcher.uncommitted_count(), 0);
    assert_eq!(matcher.committed_strokes().len(), 2);
}

#[test]
fn matcher_tells_whether_a_commit_is_allowed() {
    let s = Stroke::from(0b01000000_00000_0000000000_0);
    let t = Stroke::from(0b00100000_00000_0000000000_0);
    let mut matcher = OutlineMatcher::<Stroke, 4>::new(2);
    assert!(matcher.can_commit());
    matcher.add(s);
    matcher.add(t);
    assert!(matcher.can_commit());
    assert!(matcher.commit(2, 1).is_ok());
    matcher.pop();
    assert!(matcher.can_commit());
}
