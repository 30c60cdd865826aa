use glommio::channels::shared_channel::{new_bounded, received, sent, ChannelError, Received};

fn is_value<T: PartialEq>(got: Received<T>, want: T) -> bool {
    match got {
        Received::Value(v) => v == want,
        _ => false,
    }
}

#[test]
fn outcome_of_a_push() {
    assert!(matches!(sent::<u8>(None, false), Ok(())));
    assert!(matches!(sent::<u8>(None, true), Ok(())));
    assert!(matches!(sent(Some(4u8), false), Err(ChannelError::CapacityExceeded(4))));
    assert!(matches!(sent(Some(4u8), true), Err(ChannelError::PeerDisconnected(4))));
}

#[test]
fn outcome_of_a_pop() {
    assert!(matches!(received(Some(1u8), false), Received::Value(1)));
    assert!(matches!(received(Some(1u8), true), Received::Value(1)));
    assert!(matches!(received::<u8>(None, false), Received::Empty));
    assert!(matches!(received::<u8>(None, true), Received::EndOfStream));
}

#[test]
fn shared_channel_disconnect() {
    let (sender, receiver) = new_bounded::<u32>(128);
    let sender = sender.connect(1);
    let receiver = receiver.connect(2);
    assert_eq!(sender.id(), 1);
    assert_eq!(receiver.id(), 2);
    assert_eq!(sender.peer_id(), 2);
    assert_eq!(receiver.peer_id(), 1);

    let mut got = Vec::new();
    let mut next = 1u32;
    while next <= 1000 {
        match sender.try_send(next) {
            Ok(()) => next += 1,
            Err(ChannelError::CapacityExceeded(back)) => {
                assert_eq!(back, next);
                loop {
                    match receiver.try_recv() {
                        Received::Value(v) => got.push(v),
                        Received::Empty => break,
                        Received::EndOfStream => panic!("the sender is still there"),
                    }
                }
            }
            Err(_) => panic!("the receiver is still there"),
        }
    }
    assert!(!sender.close());
    loop {
        match receiver.try_recv() {
            Received::Value(v) => got.push(v),
            Received::Empty => panic!("the sender has closed"),
            Received::EndOfStream => break,
        }
    }
    assert_eq!(got, (1..=1000).collect::<Vec<u32>>());
    assert!(matches!(receiver.try_recv(), Received::EndOfStream));
    assert!(sender.close());
}

#[test]
fn send_fails_with_the_value_once_the_receiver_is_gone() {
    let (sender, receiver) = new_bounded::<String>(2);
    let sender = sender.connect(10);
    let receiver = receiver.connect(11);
    assert!(sender.try_send("a".to_string()).is_ok());
    assert!(!receiver.close());
    match sender.try_send("b".to_string()) {
        Err(ChannelError::PeerDisconnected(back)) => assert_eq!(back, "b"),
        _ => panic!("the receiver is gone"),
    }
    assert!(is_value(receiver.try_recv(), "a".to_string()));
    assert!(receiver.close());
}

#[test]
fn full_channel_hands_the_value_back() {
    let (sender, receiver) = new_bounded::<u8>(1);
    let sender = sender.connect(3);
    let receiver = receiver.connect(4);
    assert_eq!(sender.free_space(), 1);
    assert!(sender.try_send(1).is_ok());
    assert_eq!(sender.free_space(), 0);
    assert!(matches!(sender.try_send(2), Err(ChannelError::CapacityExceeded(2))));
    assert!(is_value(receiver.try_recv(), 1));
    assert!(matches!(receiver.try_recv(), Received::Empty));
    assert!(sender.try_send(2).is_ok());
}
