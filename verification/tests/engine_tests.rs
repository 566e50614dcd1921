use multiplayer_try1::engine::{init_window, player_entity_id, Entity, World, HEIGHT, WIDTH};
use multiplayer_try1::network::Diff;
use multiplayer_try1::world::Point;

fn pt(x: u64, y: u64) -> Point {
    Point { x_bits: x, y_bits: y }
}

#[test]
fn window_settings() {
    let c = init_window();
    assert_eq!(c.title, "Multiplayer");
    assert_eq!((c.width, c.height), (WIDTH, HEIGHT));
    assert_eq!((WIDTH, HEIGHT), (500, 400));
    assert!(c.exit_on_esc);
    assert_eq!((c.max_fps, c.ups, c.ups_reset), (32, 32, 2));
    assert!(c.swap_buffers && !c.bench_mode && !c.lazy);
}

#[test]
fn player_entity_ids() {
    assert_eq!(player_entity_id(1), 5889);
    assert_eq!(player_entity_id(2), 5890);
    assert_eq!(player_entity_id(0), 23 << 8);
    assert_ne!(player_entity_id(1), player_entity_id(2));
}

#[test]
fn spawn_local_player_announces_creation() {
    let mut w = World::new();
    let d = w.spawn_local_player(2, pt(7, 8));
    assert_eq!(d, Diff::Creation(5890, pt(7, 8)));
    assert_eq!(w.entities, vec![Entity { id: 5890, p: pt(7, 8) }]);
}

#[test]
fn click_moves_every_entity_and_announces_each() {
    let mut w = World::new();
    w.spawn_local_player(1, pt(1, 1));
    w.entities.push(Entity { id: 42, p: pt(2, 2) });
    let diffs = w.move_all_to(pt(9, 9));
    assert_eq!(diffs, vec![Diff::Movement(5889, pt(9, 9)), Diff::Movement(42, pt(9, 9))]);
    assert_eq!(w.entities, vec![Entity { id: 5889, p: pt(9, 9) }, Entity { id: 42, p: pt(9, 9) }]);
}

#[test]
fn click_on_empty_world_announces_nothing() {
    let mut w = World::new();
    assert!(w.move_all_to(pt(1, 1)).is_empty());
}

use multiplayer_try1::engine::{dispatch_event, FrameAction, FrameInput};

fn input(render: bool, cursor: Option<Point>, left_release: bool, update: bool) -> FrameInput {
    FrameInput { render, cursor, left_release, update }
}

#[test]
fn received_diffs_update_the_local_world() {
    let mut w = World::new();
    w.spawn_local_player(1, pt(1, 1));
    w.apply_incoming(vec![
        Diff::Creation(7, pt(2, 2)),
        Diff::Movement(7, pt(3, 3)),
        Diff::Movement(5889, pt(4, 4)),
        Diff::Movement(8, pt(5, 5)),
    ]);
    assert_eq!(
        w.entities,
        vec![
            Entity { id: 5889, p: pt(4, 4) },
            Entity { id: 7, p: pt(3, 3) },
            Entity { id: 8, p: pt(5, 5) },
        ]
    );
}

#[test]
fn replaying_handed_over_diffs_rebuilds_the_game_world() {
    let mut local = World::new();
    let mut handed = vec![local.spawn_local_player(1, pt(1, 1))];
    handed.extend(local.move_all_to(pt(2, 3)));
    let mut replica = World::new();
    replica.apply_incoming(handed);
    assert_eq!(replica.entities, local.entities);
}

#[test]
fn dispatch_click_without_known_cursor_does_nothing() {
    let mut at = None;
    assert!(dispatch_event(&mut at, input(false, None, true, false)).is_empty());
    assert_eq!(at, None);
}

#[test]
fn dispatch_remembers_cursor_and_moves_on_click() {
    let mut at = None;
    assert!(dispatch_event(&mut at, input(false, Some(pt(4, 5)), false, false)).is_empty());
    assert_eq!(at, Some(pt(4, 5)));
    assert_eq!(dispatch_event(&mut at, input(false, None, true, false)), vec![FrameAction::MoveAllTo(pt(4, 5))]);
    assert_eq!(
        dispatch_event(&mut at, input(true, Some(pt(6, 6)), true, true)),
        vec![FrameAction::Draw, FrameAction::MoveAllTo(pt(6, 6)), FrameAction::ApplyIncoming]
    );
    assert_eq!(at, Some(pt(6, 6)));
}
