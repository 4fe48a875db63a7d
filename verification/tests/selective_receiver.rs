use future_warden_mailbox::{Mailbox, Receiver, SelectiveReceiver, Sender};

#[test]
fn test_selective_receiver_immediate_match() {
    let mut ch = Mailbox::new(9);
    ch.send(0).unwrap();
    ch.send(1).unwrap();
    ch.send(2).unwrap();
    let mut selective_rx = SelectiveReceiver::new(ch);

    let result = selective_rx.recv_selectively(|&x| x > -1).unwrap();
    assert_eq!(result, Some(0));
}

#[test]
fn test_selective_receiver_buffering() {
    let mut ch = Mailbox::new(9);
    ch.send(0).unwrap();
    ch.send(1).unwrap();
    ch.send(2).unwrap();
    ch.send(3).unwrap();
    ch.send(4).unwrap();
    let mut selective_rx = SelectiveReceiver::new(ch);

    let result = selective_rx.recv_selectively(|&x| x > 2).unwrap();
    assert_eq!(result, Some(3));

    assert_eq!(selective_rx.recv().unwrap(), 0);
    assert_eq!(selective_rx.recv().unwrap(), 1);
    assert_eq!(selective_rx.recv().unwrap(), 2);
    assert_eq!(selective_rx.recv().unwrap(), 4);
}

#[test]
fn test_selective_receiver_no_match_until_capacity() {
    let mut ch = Mailbox::new(4);
    // The fifth send stands for a producer waiting for room: the mailbox
    // records it and hands it over once the receiver has made room.
    ch.send(0).unwrap();
    ch.send(1).unwrap();
    ch.send(2).unwrap();
    ch.send(3).unwrap();
    ch.send(4).unwrap();
    let mut selective_rx = SelectiveReceiver::new(ch);

    let result = selective_rx.recv_selectively(|&x| x > 9).unwrap();

    assert_eq!(result, None);

    assert_eq!(selective_rx.recv().unwrap(), 0);
    assert_eq!(selective_rx.recv().unwrap(), 1);
    assert_eq!(selective_rx.recv().unwrap(), 2);
    assert_eq!(selective_rx.recv().unwrap(), 3);
    assert_eq!(selective_rx.recv().unwrap(), 4);
}

#[test]
fn test_selective_receiver_multiple_selects() {
    let mut ch = Mailbox::new(9);
    for i in 1..10 {
        ch.send(i).unwrap();
    }
    let mut selective_rx = SelectiveReceiver::new(ch);

    // Select even numbers
    assert_eq!(selective_rx.recv_selectively(|&x| x % 2 == 0).unwrap(), Some(2));
    assert_eq!(selective_rx.recv_selectively(|&x| x % 2 == 0).unwrap(), Some(4));

    // Select odd numbers from buffer
    assert_eq!(selective_rx.recv_selectively(|&x| x % 2 == 1).unwrap(), Some(1));
    assert_eq!(selective_rx.recv_selectively(|&x| x % 2 == 1).unwrap(), Some(3));

    // Continue selecting even
    assert_eq!(selective_rx.recv_selectively(|&x| x % 2 == 0).unwrap(), Some(6));
}

#[test]
fn test_selective_receiver_closed_mailbox() {
    let mut ch = Mailbox::<i32>::new(10);
    ch.close();
    let mut selective_rx = SelectiveReceiver::new(ch);

    let result = selective_rx.recv_selectively(|&x| x > -1);
    assert!(result.is_err());
}

#[test]
fn test_selective_receiver_select_from_buffer() {
    let mut ch = Mailbox::new(9);
    ch.send(0).unwrap();
    ch.send(1).unwrap();
    ch.send(4).unwrap();
    ch.send(2).unwrap();
    let mut selective_rx = SelectiveReceiver::new(ch);

    assert_eq!(selective_rx.recv_selectively(|&x| x > 3).unwrap(), Some(4));

    assert_eq!(selective_rx.recv_selectively(|&x| x == 2).unwrap(), Some(2));

    assert_eq!(selective_rx.recv().unwrap(), 0);
    assert_eq!(selective_rx.recv().unwrap(), 1);
}

#[test]
fn test_selective_receiver_tombstone_handling() {
    let mut ch = Mailbox::new(9);

    // Send messages
    ch.send(9).unwrap();
    ch.send(19).unwrap();
    ch.send(29).unwrap();
    ch.send(39).unwrap();
    let mut selective_rx = SelectiveReceiver::new(ch);

    // Select 29, which should buffer 9, 19
    assert_eq!(selective_rx.recv_selectively(|&x| x == 29).unwrap(), Some(29));

    // Select 9 from buffer
    assert_eq!(selective_rx.recv_selectively(|&x| x == 9).unwrap(), Some(9));

    // Now recv should skip the tombstone and get 19
    assert_eq!(selective_rx.recv().unwrap(), 19);
    assert_eq!(selective_rx.recv().unwrap(), 39);
}

#[test]
fn test_selective_receiver_preserves_receiver_trait() {
    let mut ch = Mailbox::new(9);
    ch.send(0).unwrap();
    ch.send(1).unwrap();
    let mut selective_rx = SelectiveReceiver::new(ch);

    // Test that SelectiveReceiver implements Receiver trait correctly
    assert_eq!(selective_rx.max_capacity(), 9);

    // Use Receiver trait methods
    assert_eq!(Receiver::recv(&mut selective_rx).unwrap(), 0);
    assert_eq!(Receiver::recv(&mut selective_rx).unwrap(), 1);
}

#[test]
fn test_selective_receiver_complex_predicate() {
    let mut ch = Mailbox::new(9);

    // Send various messages
    ch.send(16).unwrap();
    ch.send(6).unwrap();
    ch.send(21).unwrap();
    ch.send(8).unwrap();
    ch.send(29).unwrap();
    let mut selective_rx = SelectiveReceiver::new(ch);

    // Select first number divisible by 4 and greater than 10
    let result = selective_rx.recv_selectively(|&x| x % 4 == 0 && x > 10).unwrap();
    assert_eq!(result, Some(16));

    // Select first number less than 9
    let result = selective_rx.recv_selectively(|&x| x < 9).unwrap();
    assert_eq!(result, Some(6));

    // Remaining messages
    assert_eq!(selective_rx.recv().unwrap(), 21);
    assert_eq!(selective_rx.recv().unwrap(), 8);
    assert_eq!(selective_rx.recv().unwrap(), 29);
}

#[test]
fn test_selective_receiver_no_match_twice_at_capacity() {
    let mut ch = Mailbox::new(2);
    ch.send(0).unwrap();
    ch.send(1).unwrap();
    ch.send(2).unwrap();
    let mut selective_rx = SelectiveReceiver::new(ch);

    // The first call buffers two messages and stops at the capacity bound.
    assert_eq!(selective_rx.recv_selectively(|&x| x > 9).unwrap(), None);
    // A full buffer means the next call gives up at once, without an error.
    assert_eq!(selective_rx.recv_selectively(|&x| x > 9).unwrap(), None);

    assert_eq!(selective_rx.recv().unwrap(), 0);
    assert_eq!(selective_rx.recv().unwrap(), 1);
    assert_eq!(selective_rx.recv().unwrap(), 2);
}

#[test]
fn test_selective_receiver_error_leaves_buffer_intact() {
    let mut ch = Mailbox::new(9);
    ch.send(0).unwrap();
    ch.send(1).unwrap();
    let mut selective_rx = SelectiveReceiver::new(ch);

    // Both messages are pulled and buffered before the channel runs out.
    assert!(selective_rx.recv_selectively(|&x| x > 9).is_err());

    // Everything pulled by the failed call is still there, in order.
    assert_eq!(selective_rx.recv().unwrap(), 0);
    assert_eq!(selective_rx.recv().unwrap(), 1);
    assert!(selective_rx.recv().is_err());
}

#[test]
fn test_selective_receiver_len_reports_channel_only() {
    let mut ch = Mailbox::new(9);
    for i in 0..5 {
        ch.send(i).unwrap();
    }
    let mut selective_rx = SelectiveReceiver::new(ch);

    assert_eq!(selective_rx.recv_selectively(|&x| x > 2).unwrap(), Some(3));

    // 0, 1, 2 sit in the internal buffer and only 4 is still in the channel:
    // len reports the channel's own count, not the buffered messages.
    assert_eq!(selective_rx.len(), 1);
    assert!(!selective_rx.is_empty());

    // A plain receive served from the buffer leaves the channel untouched,
    // so the reported count does not move.
    assert_eq!(selective_rx.recv().unwrap(), 0);
    assert_eq!(selective_rx.len(), 1);
}
