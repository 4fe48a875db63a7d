use future_warden_mailbox::{Mailbox, Receiver, RecvError, SendError, Sender};

#[test]
fn test_mailbox() {
    let mut mb = Mailbox::new(50);
    assert_eq!(Receiver::len(&mb), 0);
    assert_eq!(Receiver::max_capacity(&mb), 50);

    assert!(Sender::send(&mut mb, 1).is_ok());
    assert_eq!(Receiver::len(&mb), 1);
    assert_eq!(Receiver::max_capacity(&mb), 50);

    assert_eq!(Receiver::recv(&mut mb), Ok(1));
    assert_eq!(Receiver::len(&mb), 0);
    assert_eq!(Receiver::max_capacity(&mb), 50);
}

#[test]
fn test_message_queue() {
    let mut mq = Mailbox::new(50);
    assert_eq!(Receiver::len(&mq), 0);
    assert_eq!(Receiver::max_capacity(&mq), 50);

    assert!(Sender::send(&mut mq, 1).is_ok());
    assert_eq!(Receiver::len(&mq), 1);
    assert_eq!(Receiver::max_capacity(&mq), 50);

    assert_eq!(Receiver::recv(&mut mq), Ok(1));
    assert_eq!(Receiver::len(&mq), 0);
    assert_eq!(Receiver::max_capacity(&mq), 50);
}

#[test]
fn test_send_to_closed_mailbox() {
    let mut mb = Mailbox::new(4);
    mb.send(7).unwrap();
    mb.close();
    assert_eq!(mb.send(8), Err(SendError));

    // Closing loses nothing that was already accepted.
    assert_eq!(mb.recv(), Ok(7));
    assert_eq!(mb.recv(), Err(RecvError));
}

#[test]
fn test_recv_from_drained_mailbox() {
    let mut mb = Mailbox::<i32>::new(4);
    assert_eq!(mb.recv(), Err(RecvError));
    assert!(mb.is_empty());
}

#[test]
fn test_error_messages() {
    assert_eq!(SendError.message(), "message queue closed");
    assert_eq!(RecvError.message(), "message queue closed");
}
