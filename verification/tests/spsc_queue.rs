use glommio::channels::spsc_queue::{inner_make, make, Buffer, Consumer, Producer};

#[test]
fn test_try_push() {
    let (p, _) = make(10);

    assert_eq!(p.capacity(), 16);

    for i in 0..16 {
        p.try_push(i);
        assert_eq!(p.size(), i + 1);
    }

    match p.try_push(16) {
        Some(v) => {
            assert_eq!(v, 16);
        }
        None => unreachable!("Queue should not have accepted another write!"),
    }
}

#[test]
fn test_try_poll() {
    let (p, c) = make(10);

    if c.try_pop().is_some() {
        unreachable!("Queue was empty but a value was read!")
    }

    p.try_push(123);

    match c.try_pop() {
        Some(v) => assert_eq!(v, 123),
        None => unreachable!("Queue was not empty but poll() returned nothing!"),
    }

    if c.try_pop().is_some() {
        unreachable!("Queue was empty but a value was read!")
    }
}

#[test]
fn test_wrap() {
    let (p, c) = inner_make(10, usize::MAX - 1);

    for i in 0..10 {
        assert!(p.try_push(i).is_none());
    }

    for i in 0..10 {
        assert_eq!(c.try_pop(), Some(i));
    }
}

fn assert_send_sync<T: Send + Sync>() {}

#[test]
fn producer_consumer_are_send() {
    assert_send_sync::<Producer<u32>>();
    assert_send_sync::<Consumer<u32>>();
}

#[test]
fn capacity_rounds_up_to_a_power_of_two() {
    for (asked, got) in [(0, 1), (1, 1), (2, 2), (3, 4), (10, 16), (16, 16), (17, 32), (1000, 1024)] {
        let (p, c) = make::<u8>(asked);
        assert_eq!(p.capacity(), got);
        assert_eq!(c.capacity(), got);
        assert_eq!(p.free_space(), got);
    }
}

#[test]
fn spsc_capacity_round_up() {
    let (p, c) = make(10);
    assert_eq!(p.capacity(), 16);
    for i in 0..16 {
        assert!(p.try_push(i).is_none());
    }
    assert_eq!(p.try_push(16), Some(16));
    assert_eq!(c.try_pop(), Some(0));
    assert_eq!(p.try_push(16), None);
    assert_eq!(p.free_space(), 0);
    for i in 1..17 {
        assert_eq!(c.try_pop(), Some(i));
    }
    assert_eq!(c.try_pop(), None);
}

fn behaves_as_a_queue(capacity: usize) {
    let (p, c) = make(capacity);
    let slots = p.capacity();
    let mut next_in = 0u64;
    let mut next_out = 0u64;
    for round in 0..(4 * slots + 3) {
        let burst = 1 + round % (slots + 1);
        for _ in 0..burst {
            let full = (next_in - next_out) as usize == slots;
            match p.try_push(next_in) {
                None => {
                    assert!(!full);
                    next_in += 1;
                }
                Some(back) => {
                    assert!(full);
                    assert_eq!(back, next_in);
                }
            }
            assert_eq!(p.size(), (next_in - next_out) as usize);
        }
        let take = 1 + (round * 7) % (slots + 1);
        for _ in 0..take {
            match c.try_pop() {
                Some(v) => {
                    assert_eq!(v, next_out);
                    next_out += 1;
                }
                None => assert_eq!(next_in, next_out),
            }
            assert_eq!(c.size(), (next_in - next_out) as usize);
        }
    }
    while let Some(v) = c.try_pop() {
        assert_eq!(v, next_out);
        next_out += 1;
    }
    assert_eq!(next_in, next_out);
}

#[test]
fn capacity_one_and_two_behave_like_larger_rings() {
    behaves_as_a_queue(1);
    behaves_as_a_queue(2);
    behaves_as_a_queue(3);
    behaves_as_a_queue(8);
    behaves_as_a_queue(64);
    behaves_as_a_queue(300);
}

#[test]
fn disconnecting_twice_reports_the_first_time() {
    let (p, c) = make::<u32>(4);
    assert!(!p.producer_disconnected());
    assert!(!c.producer_disconnected());
    assert!(!p.disconnect());
    assert!(p.disconnect());
    assert!(p.disconnect());
    assert!(c.producer_disconnected());
    assert!(p.producer_disconnected());

    assert!(!p.consumer_disconnected());
    assert!(!c.disconnect());
    assert!(c.disconnect());
    assert!(p.consumer_disconnected());
}

#[test]
fn push_comes_back_once_the_consumer_is_gone() {
    let (p, c) = make(4);
    assert_eq!(p.try_push(1), None);
    c.disconnect();
    assert_eq!(p.try_push(2), Some(2));
    assert_eq!(p.size(), 1);
    assert_eq!(c.try_pop(), Some(1));
    assert_eq!(c.try_pop(), None);
}

#[test]
fn values_sent_before_a_disconnect_still_arrive() {
    let (p, c) = make(64);
    let mut received = Vec::new();
    let mut next = 1u32;
    while next <= 1000 {
        match p.try_push(next) {
            None => next += 1,
            Some(_) => {
                while let Some(v) = c.try_pop() {
                    received.push(v);
                }
            }
        }
    }
    assert!(!p.disconnect());
    while let Some(v) = c.try_pop() {
        received.push(v);
    }
    assert_eq!(received, (1..=1000).collect::<Vec<u32>>());
    assert_eq!(c.try_pop(), None);
    assert!(c.producer_disconnected());
}

#[test]
fn peers_see_each_others_ids() {
    let (p, c) = make::<u8>(2);
    assert_eq!(p.peer_id(), 0);
    assert_eq!(c.peer_id(), 0);
    p.connect(7);
    c.connect(9);
    assert_eq!(c.peer_id(), 7);
    assert_eq!(p.peer_id(), 9);
    p.disconnect();
    assert_eq!(c.peer_id(), usize::MAX);
}

#[test]
fn second_handle_reaches_the_same_ring() {
    let (p, c) = make(4);
    let p2 = p.clone_internal();
    let c2 = c.clone_internal();
    assert_eq!(p2.try_push(5), None);
    assert_eq!(p.size(), 1);
    assert_eq!(c2.try_pop(), Some(5));
    assert_eq!(c.try_pop(), None);
    assert_eq!(p2.capacity(), 4);
    assert_eq!(c2.capacity(), 4);
}

#[test]
fn buffer_with_exclusive_access() {
    let mut ring: Buffer<&'static str> = Buffer::new(3, 0);
    assert_eq!(ring.capacity(), 4);
    assert_eq!(ring.size(), 0);
    assert_eq!(ring.free_space(), 4);
    assert_eq!(ring.try_pop(), None);
    assert_eq!(ring.try_push("a"), None);
    assert_eq!(ring.try_push("b"), None);
    assert_eq!(ring.try_push("c"), None);
    assert_eq!(ring.try_push("d"), None);
    assert_eq!(ring.try_push("e"), Some("e"));
    assert_eq!(ring.size(), 4);
    assert_eq!(ring.free_space(), 0);
    assert_eq!(ring.try_pop(), Some("a"));
    assert_eq!(ring.try_push("e"), None);
    assert_eq!(ring.try_pop(), Some("b"));
    assert_eq!(ring.try_pop(), Some("c"));
    assert_eq!(ring.try_pop(), Some("d"));
    assert_eq!(ring.try_pop(), Some("e"));
    assert_eq!(ring.try_pop(), None);

    assert!(!ring.producer_disconnected());
    assert!(!ring.disconnect_producer());
    assert!(ring.disconnect_producer());
    assert!(!ring.disconnect_consumer());
    assert!(ring.disconnect_consumer());
    assert_eq!(ring.try_push("f"), Some("f"));
    assert_eq!(ring.producer_id(), usize::MAX);
    assert_eq!(ring.consumer_id(), usize::MAX);
}

#[test]
fn size_reads_zero_while_only_the_tail_has_wrapped() {
    let mut ring: Buffer<u8> = Buffer::new(4, usize::MAX - 1);
    assert_eq!(ring.try_push(1), None);
    assert_eq!(ring.size(), 1);
    assert_eq!(ring.try_push(2), None);
    assert_eq!(ring.size(), 0);
    assert_eq!(ring.try_push(3), None);
    assert_eq!(ring.size(), 0);
    assert_eq!(ring.try_pop(), Some(1));
    assert_eq!(ring.try_pop(), Some(2));
    assert_eq!(ring.size(), 1);
    assert_eq!(ring.try_pop(), Some(3));
    assert_eq!(ring.try_pop(), None);
}

#[test]
fn lookahead_is_a_quarter_of_the_capacity_within_bounds() {
    for (capacity, stride) in [(1, 1), (2, 1), (4, 1), (8, 2), (16, 4), (4096, 1024), (16384, 4096), (65536, 4096)] {
        let ring: Buffer<u8> = Buffer::new(capacity, 0);
        assert_eq!(ring.capacity(), capacity);
        assert_eq!(ring.lookahead(), stride);
    }
}

#[test]
fn ids_of_a_buffer() {
    let mut ring: Buffer<u8> = Buffer::new(1, 0);
    assert_eq!((ring.producer_id(), ring.consumer_id()), (0, 0));
    ring.connect_producer(5);
    ring.connect_consumer(6);
    assert_eq!((ring.producer_id(), ring.consumer_id()), (5, 6));
    assert!(!ring.consumer_disconnected());
    assert!(!ring.producer_disconnected());
}
