use multiplayer_try1::network::Diff;
use multiplayer_try1::world::{Entity, Point, World};

fn pt(x: f64, y: f64) -> Point {
    Point { x_bits: x.to_bits(), y_bits: y.to_bits() }
}

fn sorted(v: Vec<(u64, Entity)>) -> Vec<(u64, Point)> {
    let mut r: Vec<(u64, Point)> = v.iter().map(|(id, e)| (*id, *e.p())).collect();
    r.sort_by_key(|e| e.0);
    r
}

#[test]
fn new_world_is_empty() {
    let mut w = World::new();
    assert!(w.entities_iter().is_empty());
    assert!(w.exchange_diffs(Vec::new()).is_empty());
}

#[test]
fn create_records_diff_only_when_asked() {
    let mut w = World::new();
    w.create_entity(1, pt(0.5, 0.25), true);
    w.create_entity(2, pt(0.1, 0.2), false);
    let out = w.exchange_diffs(Vec::new());
    assert_eq!(out, vec![Diff::Creation(1, pt(0.5, 0.25))]);
    assert_eq!(sorted(w.entities_iter()), vec![(1, pt(0.5, 0.25)), (2, pt(0.1, 0.2))]);
}

#[test]
fn create_replaces_existing_entity() {
    let mut w = World::new();
    w.create_entity(7, pt(0.5, 0.5), false);
    w.create_entity(7, pt(0.75, 0.0), false);
    assert_eq!(sorted(w.entities_iter()), vec![(7, pt(0.75, 0.0))]);
}

#[test]
fn move_updates_position_and_records_movement() {
    let mut w = World::new();
    w.create_entity(3, pt(0.0, 0.0), false);
    w.move_entity_to(3, pt(0.25, 0.75), true);
    assert_eq!(sorted(w.entities_iter()), vec![(3, pt(0.25, 0.75))]);
    assert_eq!(w.exchange_diffs(Vec::new()), vec![Diff::Movement(3, pt(0.25, 0.75))]);
}

#[test]
fn exchange_applies_incoming_in_order_and_hands_out_once() {
    let mut w = World::new();
    w.create_entity(1, pt(0.1, 0.1), true);
    let incoming = vec![
        Diff::Creation(9, pt(0.2, 0.2)),
        Diff::Movement(9, pt(0.3, 0.3)),
        Diff::Movement(1, pt(0.4, 0.4)),
    ];
    let out = w.exchange_diffs(incoming);
    assert_eq!(out, vec![Diff::Creation(1, pt(0.1, 0.1))]);
    assert_eq!(sorted(w.entities_iter()), vec![(1, pt(0.4, 0.4)), (9, pt(0.3, 0.3))]);
    // incoming diffs are not passed on, and local ones are handed out only once
    assert!(w.exchange_diffs(Vec::new()).is_empty());
}

#[test]
fn replica_converges_on_handed_out_diffs() {
    let mut local = World::new();
    let mut replica = World::new();
    local.create_entity(5, pt(0.0, 0.0), true);
    local.create_entity(6, pt(1.0, 1.0), true);
    local.move_entity_to(5, pt(0.5, 0.5), true);
    local.move_entity_to(6, pt(0.25, 0.125), true);
    let out = local.exchange_diffs(Vec::new());
    assert_eq!(out.len(), 4);
    replica.exchange_diffs(out);
    assert_eq!(sorted(replica.entities_iter()), sorted(local.entities_iter()));
}

#[test]
fn entity_position_getter() {
    let mut w = World::new();
    w.create_entity(4, pt(0.5, 0.5), false);
    assert_eq!(*w.entities_iter()[0].1.p(), pt(0.5, 0.5));
}
