use multiplayer_try1::network::client::CLIENT_STREAM_TAG;
use multiplayer_try1::network::server::{
    accept_client_diff, plan_writes, queue_bounced_messages, queue_own_messages,
    serve_bounces_step, serve_own_step, serve_step, ClientRegistry, SERVER_ORIGIN_TAG,
};
use multiplayer_try1::network::{
    ClientsideInformant, Diff, MsgQueueStruct, RemoteInformant, SharedQueue,
};
use multiplayer_try1::world::Point;

fn pt(x: u64, y: u64) -> Point {
    Point { x_bits: x, y_bits: y }
}

fn s(t: &str) -> String {
    t.to_string()
}

#[test]
fn tags_of_fixed_origins() {
    assert_eq!(SERVER_ORIGIN_TAG, 9999);
    assert_eq!(CLIENT_STREAM_TAG, 1337);
}

#[test]
fn own_messages_are_marked_as_from_the_server() {
    let mut todo = vec![(s("a"), 4)];
    queue_own_messages(&mut todo, vec![s("b"), s("c")]);
    assert_eq!(todo, vec![(s("a"), 4), (s("b"), 9999), (s("c"), 9999)]);
}

#[test]
fn bounced_messages_keep_their_text_and_origin() {
    let mut todo = vec![(s("a"), 9999)];
    queue_bounced_messages(&mut todo, vec![(s("d1"), 0), (s("d2"), 4294967295), (s("d3"), 105)]);
    assert_eq!(todo, vec![(s("a"), 9999), (s("d1"), 0), (s("d2"), 4294967295), (s("d3"), 105)]);
}

#[test]
fn no_connection_keeps_the_queue() {
    let mut todo = vec![(s("x"), 9999)];
    let writes = plan_writes(&mut todo, &Vec::new());
    assert!(writes.is_empty());
    assert_eq!(todo, vec![(s("x"), 9999)]);
}

#[test]
fn empty_queue_writes_nothing() {
    let mut todo: Vec<(String, u32)> = Vec::new();
    assert!(plan_writes(&mut todo, &vec![0, 1]).is_empty());
}

#[test]
fn every_connection_gets_every_message_but_its_own() {
    let mut todo = vec![(s("m1"), 9999), (s("m2"), 0), (s("m3"), 1), (s("m4"), 9999)];
    let writes = plan_writes(&mut todo, &vec![0, 1, 2]);
    assert_eq!(
        writes,
        vec![
            (0, s("m1")), (0, s("m3")), (0, s("m4")),
            (1, s("m1")), (1, s("m2")), (1, s("m4")),
            (2, s("m1")), (2, s("m2")), (2, s("m3")), (2, s("m4")),
        ]
    );
    assert!(todo.is_empty());
}

#[test]
fn serve_own_step_queues_then_routes() {
    let mut todo = Vec::new();
    let writes = serve_own_step(&mut todo, vec![s("d1"), s("d2")], &vec![3, 4]);
    assert_eq!(writes, vec![(0, s("d1")), (0, s("d2")), (1, s("d1")), (1, s("d2"))]);
    assert!(todo.is_empty());
    let writes = serve_own_step(&mut todo, vec![s("d3")], &Vec::new());
    assert!(writes.is_empty());
    assert_eq!(todo, vec![(s("d3"), 9999)]);
}

#[test]
fn serve_bounces_step_never_echoes_to_origin() {
    let mut todo = Vec::new();
    let writes = serve_bounces_step(&mut todo, vec![(s("from1"), 1)], &vec![1, 0]);
    assert_eq!(writes, vec![(1, s("from1"))]);
    assert!(todo.is_empty());
    let writes = serve_bounces_step(&mut todo, vec![(s("a"), 0), (s("b"), 1), (s("c"), 2)], &vec![0, 1, 2]);
    assert_eq!(
        writes,
        vec![(0, s("b")), (0, s("c")), (1, s("a")), (1, s("c")), (2, s("a")), (2, s("b"))]
    );
}

#[test]
fn bounced_messages_wait_for_a_connection() {
    let mut todo = Vec::new();
    assert!(serve_bounces_step(&mut todo, vec![(s("x"), 3)], &Vec::new()).is_empty());
    assert_eq!(todo, vec![(s("x"), 3)]);
}

#[test]
fn accepted_client_diff_reaches_game_and_bounce_queue() {
    let mut ri = ClientsideInformant::new(MsgQueueStruct::new(), MsgQueueStruct::new());
    let mut bounced = SharedQueue::new();
    accept_client_diff(&mut ri, &mut bounced, Diff::Creation(8, pt(1, 2)), 3);
    assert_eq!(ri.drain(), vec![Diff::Creation(8, pt(1, 2))]);
    assert_eq!(bounced.wait_until_nonempty_drain(), Some(vec![(Diff::Creation(8, pt(1, 2)), 3)]));
}

#[test]
fn registry_gives_increasing_distinct_tags() {
    let mut r = ClientRegistry::new();
    assert!(r.stream_tags().is_empty());
    assert!(r.can_register());
    assert_eq!(r.register(), 0);
    assert_eq!(r.register(), 1);
    assert_eq!(r.register(), 2);
    assert_eq!(r.stream_tags(), &vec![0, 1, 2]);
    for _ in 0..5 {
        r.register();
    }
    assert_eq!(r.stream_tags(), &(0..8).collect::<Vec<u32>>());
}
