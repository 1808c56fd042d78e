use stembed::buffer::HistoryBuffer;

fn buffer_of<T, const N: usize>(items: Vec<T>) -> HistoryBuffer<T, N> {
    let mut buffer = HistoryBuffer::<T, N>::new();
    for item in items {
        buffer.push(item);
    }
    buffer
}

#[test]
fn allocate_with_macro() {
    let mut buffer: HistoryBuffer<_, 3> = buffer_of(vec!['a', 'b', 'c']);
    assert_eq!(buffer.len(), 3);
    assert_eq!(buffer.pop(), Some('c'));
    assert_eq!(buffer.pop(), Some('b'));
    assert_eq!(buffer.pop(), Some('a'));
}

#[test]
fn indexes_correct_value() {
    let buffer: HistoryBuffer<_, 3> = buffer_of(vec!['a', 'b', 'c']);
    assert_eq!(*buffer.index(0), 'c');
    assert_eq!(*buffer.index(1), 'b');
    assert_eq!(*buffer.index(2), 'a');
}

#[test]
fn peeks_correct_value() {
    let mut buffer = HistoryBuffer::<u8, 2>::new();
    for i in 0..10 {
        buffer.push(i);
        assert_eq!(buffer.back(), Some(&i));
    }
}

#[test]
fn write_at_correct_locations() {
    let mut buffer = HistoryBuffer::<u8, 2>::new();
    assert_eq!(buffer.write_at(), 0);
    buffer.push(1);
    assert_eq!(buffer.write_at(), 1);
    buffer.push(2);
    assert_eq!(buffer.write_at(), 0);
    buffer.push(3);
    assert_eq!(buffer.write_at(), 1);
    buffer.push(4);
}

#[test]
fn return_old_values_correctly() {
    let mut buffer = HistoryBuffer::<usize, 2>::new();
    assert_eq!(buffer.push(1), None);
    assert_eq!(buffer.push(2), None);
    for i in 3..100 {
        assert_eq!(buffer.push(i), Some(i - 2));
    }
}

#[test]
fn reset_when_popping_only_value() {
    let mut buffer = HistoryBuffer::<usize, 2>::new();
    assert_eq!(buffer.write_at(), 0);
    assert_eq!(buffer.filled(), false);

    buffer.push(1);
    assert_eq!(buffer.write_at(), 1);
    assert_eq!(buffer.filled(), false);

    assert_eq!(buffer.pop(), Some(1));
    assert_eq!(buffer.write_at(), 0);
    assert_eq!(buffer.filled(), false);
}

#[test]
fn handle_pop_when_filled() {
    let mut buffer = HistoryBuffer::<usize, 2>::new();
    assert_eq!(buffer.write_at(), 0);
    assert_eq!(buffer.filled(), false);

    buffer.push(1);
    buffer.push(2);
    assert_eq!(buffer.write_at(), 0);
    assert_eq!(buffer.filled(), true);

    assert_eq!(buffer.pop(), Some(2));
    assert_eq!(buffer.write_at(), 1);
    assert_eq!(buffer.filled(), false);
}

#[test]
fn report_correct_length() {
    let buffer: HistoryBuffer<char, 2> = buffer_of(vec!['a', 'b']);
    assert_eq!(buffer.len(), 2);
}

#[test]
fn keeps_only_the_newest_values() {
    let buffer: HistoryBuffer<u32, 3> = buffer_of(vec![1, 2, 3, 4, 5]);
    assert_eq!(buffer.len(), 3);
    assert_eq!(buffer.capacity(), 3);
    assert_eq!(buffer.peek_back(0), Some(&5));
    assert_eq!(buffer.peek_back(2), Some(&3));
    assert_eq!(buffer.peek_back(3), None);
    let oldest_first: Vec<u32> = buffer.iter(0..3).into_iter().copied().collect();
    assert_eq!(oldest_first, vec![5, 4, 3]);
}

#[test]
fn pop_everything_then_nothing() {
    let mut buffer: HistoryBuffer<u32, 2> = buffer_of(vec![7, 8, 9]);
    assert_eq!(buffer.pop(), Some(9));
    assert_eq!(buffer.pop(), Some(8));
    assert_eq!(buffer.pop(), None);
    assert_eq!(buffer.len(), 0);
}

#[test]
fn change_value_through_mutable_peek() {
    let mut buffer: HistoryBuffer<u32, 2> = buffer_of(vec![7, 8]);
    if let Some(value) = buffer.peek_back_mut(1) {
        *value = 70;
    }
    assert_eq!(buffer.peek_back(1), Some(&70));
    assert_eq!(buffer.peek_back(0), Some(&8));
}
