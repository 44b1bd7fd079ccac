use pgn_stream::buffer::SlidingBuffer;

#[test]
fn append_then_read_from_head() {
    let mut b = SlidingBuffer::new();
    assert_eq!(b.len(), 0);
    b.append(vec![1, 2, 3]);
    assert_eq!(b.len(), 3);
    assert_eq!(b.byte_at(0), 1);
    assert_eq!(b.byte_at(2), 3);
    assert_eq!(b.unread(), &[1, 2, 3]);
}

#[test]
fn pop_front_removes_from_head() {
    let mut b = SlidingBuffer::new();
    b.append(vec![10, 20, 30]);
    assert_eq!(b.pop_front(), Some(10));
    assert_eq!(b.pop_front(), Some(20));
    assert_eq!(b.len(), 1);
    assert_eq!(b.pop_front(), Some(30));
    assert_eq!(b.pop_front(), None);
}

#[test]
fn push_front_restores_a_byte() {
    let mut b = SlidingBuffer::new();
    b.append(vec![5, 6]);
    assert_eq!(b.pop_front(), Some(5));
    b.push_front(9);
    assert_eq!(b.unread(), &[9, 6]);
    // With nothing consumed, a pushed byte still lands in front.
    b.push_front(7);
    assert_eq!(b.unread(), &[7, 9, 6]);
}

#[test]
fn advance_discards_examined_bytes() {
    let mut b = SlidingBuffer::new();
    b.append(vec![1, 2, 3, 4]);
    b.advance(2);
    assert_eq!(b.unread(), &[3, 4]);
    b.append(vec![5]);
    assert_eq!(b.unread(), &[3, 4, 5]);
}

#[test]
fn clear_empties_the_buffer() {
    let mut b = SlidingBuffer::new();
    b.append(vec![1, 2]);
    b.clear();
    assert_eq!(b.len(), 0);
    assert_eq!(b.unread(), &[] as &[u8]);
}
