use quack::packet_buffer::BufferedPackets;

#[test]
fn buffer_starts_at_one() {
    let mut buffer = BufferedPackets::new(10);
    assert_eq!(buffer.next_seqno(), 1);
    assert_eq!(buffer.pop_seqno(), None);
    assert_eq!(buffer.nacks_due(0), Vec::<u32>::new());
}

#[test]
fn packets_in_order_are_played_at_once() {
    let mut buffer = BufferedPackets::new(10);
    buffer.recv_seqno(1, 100);
    assert_eq!(buffer.pop_seqno(), Some(100));
    assert_eq!(buffer.pop_seqno(), None);
    assert_eq!(buffer.next_seqno(), 2);
    buffer.recv_seqno(2, 105);
    assert_eq!(buffer.nacks_due(105), Vec::<u32>::new());
    assert_eq!(buffer.pop_seqno(), Some(105));
    assert_eq!(buffer.next_seqno(), 3);
}

#[test]
fn a_gap_holds_later_packets_back() {
    let mut buffer = BufferedPackets::new(10);
    buffer.recv_seqno(3, 100);
    assert_eq!(buffer.pop_seqno(), None);
    buffer.recv_seqno(2, 101);
    assert_eq!(buffer.pop_seqno(), None);
    buffer.recv_seqno(1, 102);
    assert_eq!(buffer.pop_seqno(), Some(102));
    assert_eq!(buffer.pop_seqno(), Some(101));
    assert_eq!(buffer.pop_seqno(), Some(100));
    assert_eq!(buffer.pop_seqno(), None);
    assert_eq!(buffer.next_seqno(), 4);
}

#[test]
fn missing_packets_are_nacked_in_order() {
    let mut buffer = BufferedPackets::new(10);
    buffer.recv_seqno(4, 100);
    buffer.recv_seqno(2, 100);
    assert_eq!(buffer.nacks_due(100), vec![1, 3]);
}

#[test]
fn nacks_are_sent_again_after_more_than_the_frequency() {
    let mut buffer = BufferedPackets::new(10);
    buffer.recv_seqno(2, 100);
    assert_eq!(buffer.nacks_due(100), vec![1]);
    assert_eq!(buffer.nacks_due(105), Vec::<u32>::new());
    assert_eq!(buffer.nacks_due(110), Vec::<u32>::new());
    assert_eq!(buffer.nacks_due(111), vec![1]);
    assert_eq!(buffer.nacks_due(121), Vec::<u32>::new());
    assert_eq!(buffer.nacks_due(122), vec![1]);
}

#[test]
fn a_clock_that_steps_back_sends_no_nack_again() {
    let mut buffer = BufferedPackets::new(10);
    buffer.recv_seqno(2, 100);
    assert_eq!(buffer.nacks_due(100), vec![1]);
    assert_eq!(buffer.nacks_due(50), Vec::<u32>::new());
}

#[test]
fn an_arrival_ends_the_nacks() {
    let mut buffer = BufferedPackets::new(10);
    buffer.recv_seqno(3, 100);
    assert_eq!(buffer.nacks_due(100), vec![1, 2]);
    buffer.recv_seqno(1, 105);
    assert_eq!(buffer.nacks_due(200), vec![2]);
    assert_eq!(buffer.pop_seqno(), Some(105));
    buffer.recv_seqno(2, 210);
    assert_eq!(buffer.nacks_due(300), Vec::<u32>::new());
    assert_eq!(buffer.pop_seqno(), Some(210));
    assert_eq!(buffer.pop_seqno(), Some(100));
}

#[test]
fn a_packet_that_was_played_is_ignored() {
    let mut buffer = BufferedPackets::new(10);
    buffer.recv_seqno(1, 100);
    assert_eq!(buffer.pop_seqno(), Some(100));
    buffer.recv_seqno(1, 200);
    assert_eq!(buffer.pop_seqno(), None);
    assert_eq!(buffer.next_seqno(), 2);
    assert_eq!(buffer.nacks_due(200), Vec::<u32>::new());
}

#[test]
fn a_second_arrival_keeps_the_first_time() {
    let mut buffer = BufferedPackets::new(10);
    buffer.recv_seqno(1, 100);
    buffer.recv_seqno(1, 200);
    assert_eq!(buffer.pop_seqno(), Some(100));
}
