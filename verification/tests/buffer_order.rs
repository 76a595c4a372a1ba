use causal_gossip::buffer::DeliveryBuffer;
use causal_gossip::Message;

fn msg(sender: u32, timestamp: u64, content: &str) -> Message {
    Message {
        sender,
        timestamp,
        content: content.to_string(),
    }
}

#[test]
fn insert_keeps_delivery_order() {
    let mut b = DeliveryBuffer::new();
    b.insert(msg(2, 10, "late"));
    b.insert(msg(1, 5, "early"));
    b.insert(msg(1, 10, "tie"));
    assert_eq!(b.len(), 3);
    let head = b.peek_head().expect("buffer holds messages");
    assert_eq!((head.sender, head.timestamp), (1, 5));
    let first = b.pop_head();
    assert_eq!((first.sender, first.timestamp, first.content.as_str()), (1, 5, "early"));
    // Equal timestamps order by sender.
    let second = b.pop_head();
    assert_eq!((second.sender, second.timestamp), (1, 10));
    let third = b.pop_head();
    assert_eq!((third.sender, third.timestamp), (2, 10));
    assert_eq!(b.len(), 0);
    assert!(b.peek_head().is_none());
}
