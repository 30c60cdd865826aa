use glommio::channels::channel_mesh::{
    role_ids, Full, JoinError, JoinState, MeshAdapter, MeshBuilder, Partial, Receivers, Role,
    Senders,
};
use glommio::channels::shared_channel::{ChannelError, Received};

fn join<T: Send, A: MeshAdapter>(
    builder: &MeshBuilder<T, A>,
    state: &mut JoinState<T>,
    executor_id: usize,
    role: Role,
) -> (Senders<T>, Receivers<T>) {
    let (peer_id, role_id) = state.position(executor_id, role);
    let (row, col) = state.take_ends(peer_id);
    let (producer_id, consumer_id) = role_ids(role, role_id);
    let full = builder.adapter().is_full();
    (
        Senders::connect(peer_id, producer_id, row, executor_id, full),
        Receivers::connect(peer_id, consumer_id, col, executor_id, full),
    )
}

fn do_test_channel_mesh(nr_peers: usize, channel_size: usize, nr_executors: usize) {
    let mesh_builder = MeshBuilder::<(usize, usize), _>::full(nr_peers, channel_size);
    let mut state = mesh_builder.join_state();
    let executors: Vec<usize> = (0..nr_executors).map(|i| 100 + 3 * i).collect();
    for (n, id) in executors.iter().rev().enumerate() {
        let last = state.register(*id, Role::Both).unwrap();
        assert_eq!(last, n + 1 == nr_peers);
    }
    if nr_executors == 0 {
        return;
    }
    state.build(mesh_builder.adapter(), mesh_builder.channel_size());
    let mut ends = Vec::new();
    for id in executors.iter() {
        let (sender, receiver) = join(&mesh_builder, &mut state, *id, Role::Both);
        assert_eq!(nr_peers, sender.nr_consumers());
        assert_eq!(sender.peer_id(), sender.producer_id().unwrap());
        assert_eq!(nr_peers, receiver.nr_producers());
        assert_eq!(receiver.peer_id(), receiver.consumer_id().unwrap());
        ends.push((sender, receiver));
    }
    for (sender, _) in ends.iter() {
        for peer in 0..sender.nr_consumers() {
            if peer != sender.peer_id() {
                assert!(sender.try_send_to(peer, (sender.peer_id(), peer)).is_ok());
            }
        }
    }
    for (_, receiver) in ends.iter() {
        for peer in 0..receiver.nr_producers() {
            if peer != receiver.peer_id() {
                match receiver.try_recv_from(peer) {
                    Ok(Received::Value(got)) => assert_eq!((peer, receiver.peer_id()), got),
                    _ => panic!("a message was sent"),
                }
            }
        }
    }
}

#[test]
fn test_channel_mesh() {
    do_test_channel_mesh(0, 0, 0);
    do_test_channel_mesh(1, 1, 1);
    do_test_channel_mesh(10, 10, 10);
}

#[test]
fn test_peer_id_invariance() {
    let nr_peers = 10;
    let channel_size = 100;
    let builder1 = MeshBuilder::<i32, _>::full(nr_peers, channel_size);
    let builder2 = MeshBuilder::<usize, _>::full(nr_peers, channel_size);
    let mut state1 = builder1.join_state();
    let mut state2 = builder2.join_state();

    let executors: Vec<usize> = (0..nr_peers).map(|i| 1 + (i * 7) % nr_peers).collect();
    for id in executors.iter() {
        state1.register(*id, Role::Both).unwrap();
    }
    for id in executors.iter().rev() {
        state2.register(*id, Role::Both).unwrap();
    }
    state1.build(builder1.adapter(), builder1.channel_size());
    state2.build(builder2.adapter(), builder2.channel_size());

    for id in executors.iter() {
        let (sender1, receiver1) = join(&builder1, &mut state1, *id, Role::Both);
        assert_eq!(sender1.peer_id(), receiver1.peer_id());

        let (sender2, receiver2) = join(&builder2, &mut state2, *id, Role::Both);
        assert_eq!(sender2.peer_id(), receiver2.peer_id());

        assert_eq!(sender1.peer_id(), sender2.peer_id());
        assert_eq!(receiver1.peer_id(), receiver2.peer_id());
    }
}

#[test]
fn test_partial_mesh() {
    let nr_producers = 2;
    let nr_consumers = 3;
    let mesh_builder = MeshBuilder::<(usize, usize), _>::partial(5, 100);
    let mut state = mesh_builder.join_state();

    let producers: Vec<usize> = vec![20, 40];
    let consumers: Vec<usize> = vec![10, 30, 50];
    for id in producers.iter() {
        state.register(*id, Role::Producer).unwrap();
    }
    for id in consumers.iter() {
        state.register(*id, Role::Consumer).unwrap();
    }
    assert!(state.ready() == false);
    state.build(mesh_builder.adapter(), mesh_builder.channel_size());
    assert!(state.ready());

    let mut sending = Vec::new();
    for (i, id) in producers.iter().enumerate() {
        let (sender, receiver) = join(&mesh_builder, &mut state, *id, Role::Producer);
        assert_eq!(nr_consumers, sender.nr_consumers());
        assert_eq!(Some(i), sender.producer_id());
        assert_eq!(0, receiver.nr_producers());
        assert_eq!(None, receiver.consumer_id());

        for consumer_id in 0..sender.nr_consumers() {
            assert!(sender
                .try_send_to(consumer_id, (sender.producer_id().unwrap(), consumer_id))
                .is_ok());
        }
        sending.push(sender);
    }

    for (i, id) in consumers.iter().enumerate() {
        let (sender, receiver) = join(&mesh_builder, &mut state, *id, Role::Consumer);
        assert_eq!(0, sender.nr_consumers());
        assert_eq!(None, sender.producer_id());
        assert_eq!(nr_producers, receiver.nr_producers());
        assert_eq!(Some(i), receiver.consumer_id());

        for producer_id in 0..receiver.nr_producers() {
            match receiver.try_recv_from(producer_id) {
                Ok(Received::Value(got)) => {
                    assert_eq!((producer_id, receiver.consumer_id().unwrap()), got)
                }
                _ => panic!("a message was sent"),
            }
        }
    }
}

#[test]
fn roles() {
    assert!(Role::Producer.is_producer());
    assert!(!Role::Producer.is_consumer());
    assert!(!Role::Consumer.is_producer());
    assert!(Role::Consumer.is_consumer());
    assert!(Role::Both.is_producer());
    assert!(Role::Both.is_consumer());
    assert_eq!(role_ids(Role::Producer, 3), (Some(3), None));
    assert_eq!(role_ids(Role::Consumer, 4), (None, Some(4)));
    assert_eq!(role_ids(Role::Both, 5), (Some(5), Some(5)));
}

#[test]
fn adapters() {
    let roles = [Role::Producer, Role::Consumer, Role::Both];
    for from in roles.iter() {
        for to in roles.iter() {
            assert!(Full.connect(from, to));
            assert_eq!(
                Partial.connect(from, to),
                *from == Role::Producer && *to == Role::Consumer
            );
        }
    }
    assert!(Full.is_full());
    assert!(!Partial.is_full());
}

#[test]
fn a_complete_mesh_takes_nobody() {
    let builder = MeshBuilder::<u8, _>::full(2, 4);
    assert_eq!(builder.nr_peers(), 2);
    assert_eq!(builder.channel_size(), 4);
    let mut state = builder.join_state();
    assert_eq!(state.register(9, Role::Both), Ok(false));
    assert!(state.contains(9));
    assert!(!state.contains(8));
    assert_eq!(state.register(8, Role::Both), Ok(true));
    assert_eq!(state.register(7, Role::Both), Err(JoinError::MeshFull));
    assert_eq!(state.joined(), 2);
    assert_eq!(state.position(8, Role::Both), (0, 0));
    assert_eq!(state.position(9, Role::Both), (1, 1));
}

#[test]
fn places_follow_the_executor_ids() {
    let mut state = JoinState::<u8>::new(5);
    for (id, role) in [
        (50, Role::Consumer),
        (10, Role::Producer),
        (40, Role::Both),
        (20, Role::Consumer),
        (30, Role::Producer),
    ] {
        state.register(id, role).unwrap();
    }
    assert_eq!(state.position(10, Role::Producer), (0, 0));
    assert_eq!(state.position(20, Role::Consumer), (1, 0));
    assert_eq!(state.position(30, Role::Producer), (2, 1));
    assert_eq!(state.position(40, Role::Both), (3, 0));
    assert_eq!(state.position(50, Role::Consumer), (4, 1));
}

#[test]
fn local_and_unknown_peers_are_invalid_arguments() {
    let builder = MeshBuilder::<u8, _>::full(3, 2);
    let mut state = builder.join_state();
    for id in [1, 2, 3] {
        state.register(id, Role::Both).unwrap();
    }
    state.build(builder.adapter(), builder.channel_size());
    let (senders, mut receivers) = join(&builder, &mut state, 2, Role::Both);
    let (_other_senders, other_receivers) = join(&builder, &mut state, 1, Role::Both);
    assert_eq!(senders.peer_id(), 1);
    assert!(matches!(senders.try_send_to(1, 7), Err(ChannelError::InvalidArgument)));
    assert!(matches!(senders.try_send_to(3, 7), Err(ChannelError::InvalidArgument)));
    assert!(matches!(receivers.try_recv_from(1), Err(ChannelError::InvalidArgument)));
    assert!(matches!(receivers.try_recv_from(9), Err(ChannelError::InvalidArgument)));
    assert!(matches!(receivers.try_recv_from(0), Ok(Received::Empty)));

    assert!(senders.try_send_to(0, 1).is_ok());
    assert!(senders.try_send_to(0, 2).is_ok());
    assert!(matches!(senders.try_send_to(0, 3), Err(ChannelError::CapacityExceeded(3))));
    assert!(matches!(other_receivers.try_recv_from(1), Ok(Received::Value(1))));

    senders.close();
    assert!(matches!(other_receivers.try_recv_from(1), Ok(Received::Value(2))));
    assert!(matches!(other_receivers.try_recv_from(1), Ok(Received::EndOfStream)));

    let streams = receivers.streams();
    let from: Vec<usize> = streams.iter().map(|(idx, _)| *idx).collect();
    assert_eq!(from, vec![0, 2]);
    assert_eq!(receivers.nr_producers(), 3);
    assert!(matches!(receivers.try_recv_from(0), Err(ChannelError::InvalidArgument)));
    assert!(receivers.streams().is_empty());
}

#[test]
#[should_panic]
fn test_join_more_than_capacity() {
    do_test_channel_mesh(1, 1, 2);
}
