use future_warden_mailbox::SelectiveBuffer;

#[test]
fn test_buffer_offer_and_select() {
    let mut buffer = SelectiveBuffer::new(4);
    assert_eq!(buffer.len(), 0);

    // A non-matching offer is stashed as a live slot.
    assert_eq!(buffer.offer(1, |x: &i32| *x > 2), None);
    // A matching offer is handed straight back, never stashed.
    assert_eq!(buffer.offer(3, |x: &i32| *x > 2), Some(3));
    assert_eq!(buffer.len(), 1);

    assert_eq!(buffer.offer(2, |x: &i32| *x > 9), None);
    assert_eq!(buffer.len(), 2);

    // Selecting from the middle leaves a tombstone: the slot count is kept.
    assert_eq!(buffer.select(|x: &i32| *x == 2), Some(2));
    assert_eq!(buffer.len(), 2);
    assert_eq!(buffer.select(|x: &i32| *x == 2), None);

    // The plain pop skips nothing live and purges the tombstone at the end.
    assert_eq!(buffer.pop_next(), Some(1));
    assert_eq!(buffer.pop_next(), None);
    assert_eq!(buffer.len(), 0);
}

#[test]
fn test_buffer_select_earliest() {
    let mut buffer = SelectiveBuffer::new(4);
    assert_eq!(buffer.offer(5, |x: &i32| *x > 9), None);
    assert_eq!(buffer.offer(6, |x: &i32| *x > 9), None);
    assert_eq!(buffer.offer(7, |x: &i32| *x > 9), None);

    // Of several live matches, the earliest-arrived one is delivered.
    assert_eq!(buffer.select(|x: &i32| *x > 5), Some(6));
    assert_eq!(buffer.pop_next(), Some(5));
    assert_eq!(buffer.pop_next(), Some(7));
    assert_eq!(buffer.pop_next(), None);
}
