use segcache::queues::Queues;

#[test]
fn basic() {
    // one endpoint on each side; a pair of fabrics, one per direction
    let mut a_to_b: Queues<usize> = Queues::new(1, 1);
    let mut b_to_a: Queues<&str> = Queues::new(1, 1);

    let mut buf_a = Vec::new();
    let mut buf_b = Vec::new();

    // queues are empty
    assert_eq!(b_to_a.try_recv_all(0, &mut buf_a), 0);
    assert_eq!(a_to_b.try_recv_all(0, &mut buf_b), 0);

    // send a usize from A -> B using a targeted send
    a_to_b.try_send_to(0, 0, 1).expect("failed to send");
    assert!(b_to_a.try_recv(0, 0).is_err());
    assert_eq!(
        a_to_b.try_recv(0, 0).map(|v| (v.sender(), v.into_inner())),
        Ok((0, 1))
    );

    // queues are empty
    assert_eq!(b_to_a.try_recv_all(0, &mut buf_a), 0);
    assert_eq!(a_to_b.try_recv_all(0, &mut buf_b), 0);

    // send a usize from A -> B using a non-targeted (any) send
    a_to_b.try_send_any(0, 0, 2).expect("failed to send");
    assert_eq!(b_to_a.try_recv_all(0, &mut buf_a), 0);
    assert_eq!(a_to_b.try_recv_all(0, &mut buf_b), 1);
    assert_eq!(buf_b.pop().map(|v| (v.sender(), v.into_inner())), Some((0, 2)));

    // queues are empty
    assert!(a_to_b.try_recv(0, 0).is_err());
    assert!(b_to_a.try_recv(0, 0).is_err());

    // send a usize from A -> B using a broadcast send
    a_to_b.try_send_all(0, 3).expect("failed to send");
    assert!(b_to_a.try_recv(0, 0).is_err());
    assert_eq!(
        a_to_b.try_recv(0, 0).map(|v| (v.sender(), v.into_inner())),
        Ok((0, 3))
    );

    // queues are empty
    assert!(a_to_b.try_recv(0, 0).is_err());
    assert!(b_to_a.try_recv(0, 0).is_err());

    // send a String from B -> A using a targeted send
    b_to_a
        .try_send_to(0, 0, "apple")
        .expect("failed to send");
    assert!(a_to_b.try_recv(0, 0).is_err());
    assert_eq!(
        b_to_a.try_recv(0, 0).map(|v| (v.sender(), v.into_inner())),
        Ok((0, "apple"))
    );

    // queues are empty
    assert!(a_to_b.try_recv(0, 0).is_err());
    assert!(b_to_a.try_recv(0, 0).is_err());

    // send a String from B -> A using a non-targeted (any) send
    b_to_a
        .try_send_any(0, 0, "banana")
        .expect("failed to send");
    assert!(a_to_b.try_recv(0, 0).is_err());
    assert_eq!(
        b_to_a.try_recv(0, 0).map(|v| (v.sender(), v.into_inner())),
        Ok((0, "banana"))
    );

    // queues are empty
    assert!(a_to_b.try_recv(0, 0).is_err());
    assert!(b_to_a.try_recv(0, 0).is_err());

    // send a string from B -> A using a broadcast send
    b_to_a.try_send_all(0, "orange").expect("failed to send");
    assert!(a_to_b.try_recv(0, 0).is_err());
    assert_eq!(
        b_to_a.try_recv(0, 0).map(|v| (v.sender(), v.into_inner())),
        Ok((0, "orange"))
    );
}

#[test]
fn fanout_delivers_exactly_once_per_peer() {
    let mut q: Queues<u64> = Queues::new(1, 3);
    q.try_send_all(0, 9).expect("failed to send");
    for d in 0..3 {
        let item = q.try_recv(d, 0).expect("peer should see the broadcast");
        assert_eq!(item.sender(), 0);
        assert_eq!(item.into_inner(), 9);
        // exactly once: nothing left for this peer
        assert!(q.try_recv(d, 0).is_err());
    }
}

#[test]
fn wake_is_idempotent_per_batch() {
    let mut q: Queues<u64> = Queues::new(1, 2);
    q.try_send_to(0, 1, 5).expect("failed to send");
    let peers = q.wake(0);
    assert_eq!(peers, vec![1]);
    // a second flush without further sends owes nothing
    let peers = q.wake(0);
    assert_eq!(peers, Vec::<usize>::new());
}

#[test]
fn full_ring_hands_the_item_back() {
    let mut q: Queues<u32> = Queues::new(1, 1);
    for i in 0..1024 {
        q.try_send_to(0, 0, i).expect("ring has room");
    }
    assert_eq!(q.try_send_to(0, 0, 7777), Err(7777));
}

#[test]
fn recv_rotation_is_fair_to_the_start_offset() {
    let mut q: Queues<u32> = Queues::new(2, 1);
    q.try_send_to(0, 0, 10).unwrap();
    q.try_send_to(1, 0, 11).unwrap();
    // starting at peer 1, its item comes first
    let item = q.try_recv(0, 1).unwrap();
    assert_eq!(item.sender(), 1);
    assert_eq!(item.into_inner(), 11);
    let item = q.try_recv(0, 1).unwrap();
    assert_eq!(item.sender(), 0);
    assert_eq!(item.into_inner(), 10);
}
