use multiplayer_try1::network::{
    ClientsideInformant, Diff, MetaMessage, MsgQueueStruct, NetworkMessage, RemoteInformant,
    SharedQueue,
};
use multiplayer_try1::world::Point;

fn pt(x: u64, y: u64) -> Point {
    Point { x_bits: x, y_bits: y }
}

fn informant() -> ClientsideInformant {
    ClientsideInformant::new(MsgQueueStruct::new(), MsgQueueStruct::new())
}

#[test]
fn msg_queue_starts_empty() {
    assert!(MsgQueueStruct::new().v.is_empty());
}

#[test]
fn update_then_take_outgoing_keeps_order() {
    let mut ri = informant();
    assert!(!ri.has_outgoing());
    ri.update(Diff::Creation(1, pt(1, 2)));
    ri.update(Diff::Movement(1, pt(3, 4)));
    assert!(ri.has_outgoing());
    assert_eq!(
        ri.take_outgoing(),
        vec![Diff::Creation(1, pt(1, 2)), Diff::Movement(1, pt(3, 4))]
    );
    assert!(!ri.has_outgoing());
    assert!(ri.drain().is_empty());
}

#[test]
fn update_all_equals_updates_one_by_one() {
    let ds = vec![Diff::Creation(1, pt(1, 1)), Diff::Movement(2, pt(2, 2)), Diff::Movement(1, pt(3, 3))];
    let mut a = informant();
    let mut b = informant();
    a.update(Diff::Creation(9, pt(0, 0)));
    b.update(Diff::Creation(9, pt(0, 0)));
    a.update_all(ds.clone());
    for d in ds {
        b.update(d);
    }
    assert_eq!(a.take_outgoing(), b.take_outgoing());
}

#[test]
fn pop_outgoing_takes_oldest_first() {
    let mut ri = informant();
    assert_eq!(ri.pop_outgoing(), None);
    ri.update(Diff::Creation(1, pt(1, 1)));
    ri.update(Diff::Movement(1, pt(2, 2)));
    assert_eq!(ri.pop_outgoing(), Some(Diff::Creation(1, pt(1, 1))));
    assert_eq!(ri.pop_outgoing(), Some(Diff::Movement(1, pt(2, 2))));
    assert_eq!(ri.pop_outgoing(), None);
}

#[test]
fn delivered_diffs_are_drained_in_arrival_order() {
    let mut ri = informant();
    ri.deliver(Diff::Movement(3, pt(1, 0)));
    ri.deliver(Diff::Creation(4, pt(0, 1)));
    ri.update(Diff::Creation(5, pt(5, 5)));
    assert_eq!(ri.drain(), vec![Diff::Movement(3, pt(1, 0)), Diff::Creation(4, pt(0, 1))]);
    assert!(ri.drain().is_empty());
    assert_eq!(ri.take_outgoing(), vec![Diff::Creation(5, pt(5, 5))]);
}

#[test]
fn informant_over_filled_queues() {
    let mut incoming = MsgQueueStruct::new();
    incoming.v.push(Diff::Creation(1, pt(1, 1)));
    let mut ri = ClientsideInformant::new(incoming, MsgQueueStruct::new());
    assert_eq!(ri.drain(), vec![Diff::Creation(1, pt(1, 1))]);
}

#[test]
fn shared_queue_waits_when_empty_and_drains_in_order() {
    let mut q: SharedQueue<(Diff, u32)> = SharedQueue::new();
    assert!(q.wait_until_nonempty_drain().is_none());
    q.lock_push_notify((Diff::Creation(1, pt(1, 1)), 0));
    q.lock_push_notify((Diff::Movement(1, pt(2, 2)), 3));
    assert_eq!(
        q.wait_until_nonempty_drain(),
        Some(vec![(Diff::Creation(1, pt(1, 1)), 0), (Diff::Movement(1, pt(2, 2)), 3)])
    );
    assert!(q.wait_until_nonempty_drain().is_none());
}

#[test]
fn message_kinds_compare_by_value() {
    assert_eq!(MetaMessage::RequestEntity(3), MetaMessage::RequestEntity(3));
    assert_ne!(MetaMessage::ProvideEntity(3, pt(1, 1)), MetaMessage::ProvideEntity(3, pt(1, 2)));
    assert_ne!(NetworkMessage::Diff, NetworkMessage::MetaMessage);
}

#[test]
fn shared_queue_hands_out_each_element_once_in_push_order() {
    let mut q: SharedQueue<u32> = SharedQueue::new();
    let mut out = Vec::new();
    q.lock_push_notify(1);
    q.lock_push_notify(2);
    out.extend(q.wait_until_nonempty_drain().unwrap());
    assert!(q.wait_until_nonempty_drain().is_none());
    q.lock_push_notify(3);
    q.lock_push_notify(4);
    out.extend(q.wait_until_nonempty_drain().unwrap());
    q.lock_push_notify(5);
    out.extend(q.wait_until_nonempty_drain().unwrap());
    assert_eq!(out, vec![1, 2, 3, 4, 5]);
}
