//! The server's side of the network: the tags it gives its clients, the
//! messages it queues for them, and which connection is sent what.

use vstd::prelude::*;

use super::{ClientsideInformant, Diff, RemoteInformant, SharedQueue, StreamID};

verus! {

/// The origin recorded for the server's own diffs: every connection whose tag
/// differs from it is meant to get them.
pub const SERVER_ORIGIN_TAG: StreamID = 9999;

/// The queued form of bounced diffs: each diff's text with its origin.
pub open spec fn bounced_queued(bounced: Seq<(String, StreamID)>) -> Seq<(Seq<char>, StreamID)> {
    bounced.map_values(|b: (String, StreamID)| (b.0@, b.1))
}

/// A queued message as plain values: its text and the connection it came from.
pub open spec fn queued_view(todo: Seq<(String, StreamID)>) -> Seq<(Seq<char>, StreamID)> {
    todo.map_values(|e: (String, StreamID)| (e.0@, e.1))
}

/// A planned write as plain values: the connection's position and the text.
pub open spec fn writes_view(w: Seq<(usize, String)>) -> Seq<(usize, Seq<char>)> {
    w.map_values(|e: (usize, String)| (e.0, e.1@))
}

/// The messages that connection `stream`, tagged `tag`, is sent from `msgs`:
/// all of them, in order, but those that came from `tag` itself.
pub open spec fn deliveries(msgs: Seq<(Seq<char>, StreamID)>, stream: usize, tag: StreamID) -> Seq<
    (usize, Seq<char>),
>
    decreases msgs.len(),
{
    if msgs.len() == 0 {
        Seq::empty()
    } else {
        let rest = deliveries(msgs.drop_last(), stream, tag);
        if msgs.last().1 != tag {
            rest.push((stream, msgs.last().0))
        } else {
            rest
        }
    }
}

/// The writes of one routing round for connections `0 .. n`, tagged `tags`:
/// connection after connection, each given every queued message, in order,
/// but those that came from its own tag.
pub open spec fn flood(queued: Seq<(Seq<char>, StreamID)>, tags: Seq<StreamID>, n: nat) -> Seq<
    (usize, Seq<char>),
>
    decreases n,
{
    if n == 0 {
        Seq::empty()
    } else {
        flood(queued, tags, (n - 1) as nat) + deliveries(queued, (n - 1) as usize, tags[n - 1])
    }
}

/// What one routing round does with the queued messages, given the tags of
/// the connections in order: the writes, and the messages still queued after.
/// Every connection is sent every queued message that did not come from it,
/// and the queue empties. With no connection the queue stays as it was.
pub open spec fn plan(queued: Seq<(Seq<char>, StreamID)>, tags: Seq<StreamID>) -> (
    Seq<(usize, Seq<char>)>,
    Seq<(Seq<char>, StreamID)>,
) {
    if tags.len() > 0 {
        (flood(queued, tags, tags.len()), Seq::empty())
    } else {
        (Seq::empty(), queued)
    }
}

/// Picks out the writes meant for connection `j`.
pub open spec fn to_stream(j: usize) -> spec_fn((usize, Seq<char>)) -> bool {
    |w: (usize, Seq<char>)| w.0 == j
}

/// Picks out the queued messages that did not come from `tag`.
pub open spec fn not_from(tag: StreamID) -> spec_fn((Seq<char>, StreamID)) -> bool {
    |m: (Seq<char>, StreamID)| m.1 != tag
}

/// A queued message's text as a write to connection `j`.
pub open spec fn text_for(j: usize) -> spec_fn((Seq<char>, StreamID)) -> (usize, Seq<char>) {
    |m: (Seq<char>, StreamID)| (j, m.0)
}

/// The writes for connection `stream` are all meant for it.
proof fn lemma_deliveries_to(msgs: Seq<(Seq<char>, StreamID)>, stream: usize, tag: StreamID, j: usize)
    ensures
        deliveries(msgs, stream, tag).filter(to_stream(j)) == (if stream == j {
            deliveries(msgs, stream, tag)
        } else {
            Seq::<(usize, Seq<char>)>::empty()
        }),
    decreases msgs.len(),
{
    reveal(Seq::filter);
    let d = deliveries(msgs, stream, tag);
    if msgs.len() == 0 {
        assert(d.filter(to_stream(j)) =~= d);
    } else {
        let rest = deliveries(msgs.drop_last(), stream, tag);
        lemma_deliveries_to(msgs.drop_last(), stream, tag, j);
        if msgs.last().1 != tag {
            assert(d.drop_last() =~= rest);
        } else {
            assert(d == rest);
        }
    }
}

/// Flooding: in one routing round over connections `0 .. n`, the writes for
/// connection `j` are exactly the queued messages that did not come from its
/// tag, in queue order; a connection outside the round is written nothing.
pub proof fn lemma_flood_reaches_every_other(
    queued: Seq<(Seq<char>, StreamID)>,
    tags: Seq<StreamID>,
    n: nat,
    j: usize,
)
    requires
        n <= tags.len() <= usize::MAX,
    ensures
        flood(queued, tags, n).filter(to_stream(j)) == (if j < n {
            deliveries(queued, j, tags[j as int])
        } else {
            Seq::<(usize, Seq<char>)>::empty()
        }),
    decreases n,
{
    reveal(Seq::filter);
    if n == 0 {
        assert(flood(queued, tags, n).filter(to_stream(j)) =~= Seq::<(usize, Seq<char>)>::empty());
    } else {
        let m = (n - 1) as nat;
        lemma_flood_reaches_every_other(queued, tags, m, j);
        lemma_deliveries_to(queued, m as usize, tags[m as int], j);
        Seq::filter_distributes_over_add(
            flood(queued, tags, m),
            deliveries(queued, m as usize, tags[m as int]),
            to_stream(j),
        );
        if j < m {
            assert(m as usize != j);
            assert(flood(queued, tags, n).filter(to_stream(j)) =~= deliveries(queued, j, tags[j as int]));
        } else if j == m {
            assert(m as usize == j);
            assert(flood(queued, tags, n) == flood(queued, tags, m) + deliveries(queued, j, tags[j as int]));
            assert(flood(queued, tags, n).filter(to_stream(j)) =~= deliveries(queued, j, tags[j as int]));
        } else {
            assert(flood(queued, tags, n).filter(to_stream(j)) =~= Seq::<(usize, Seq<char>)>::empty());
        }
    }
}

/// The messages a connection tagged `tag`, at position `stream`, is sent: the
/// queued messages whose origin is not `tag`, in queue order.
proof fn lemma_deliveries_are_the_others(msgs: Seq<(Seq<char>, StreamID)>, stream: usize, tag: StreamID)
    ensures
        deliveries(msgs, stream, tag) == msgs.filter(not_from(tag)).map_values(text_for(stream)),
    decreases msgs.len(),
{
    reveal(Seq::filter);
    let p = not_from(tag);
    let f = text_for(stream);
    if msgs.len() == 0 {
        assert(msgs.filter(p).map_values(f) =~= Seq::<(usize, Seq<char>)>::empty());
    } else {
        lemma_deliveries_are_the_others(msgs.drop_last(), stream, tag);
        let rest = msgs.drop_last().filter(p);
        if p(msgs.last()) {
            assert(msgs.filter(p) == rest.push(msgs.last()));
            assert(rest.push(msgs.last()).map_values(f) =~= rest.map_values(f).push(f(msgs.last())));
        } else {
            assert(msgs.filter(p) == rest);
        }
    }
}

/// Routing, stated over the connections: with at least one connection, a
/// routing round empties the queue; each connection `j` is written exactly
/// the queued messages whose origin differs from its tag, in queue order; and
/// nothing is written to a position that is not a connection. With no
/// connection nothing is written and the queue is kept.
pub proof fn lemma_plan_routes_everything(queued: Seq<(Seq<char>, StreamID)>, tags: Seq<StreamID>)
    requires
        tags.len() <= usize::MAX,
    ensures
        tags.len() == 0 ==> plan(queued, tags).0.len() == 0 && plan(queued, tags).1 == queued,
        tags.len() > 0 ==> plan(queued, tags).1.len() == 0,
        forall|k: int|
            0 <= k < plan(queued, tags).0.len() ==> (#[trigger] plan(queued, tags).0[k]).0 < tags.len(),
        forall|j: int|
            0 <= j < tags.len() ==> #[trigger] plan(queued, tags).0.filter(to_stream(j as usize))
                == queued.filter(not_from(tags[j])).map_values(text_for(j as usize)),
{
    reveal(Seq::filter);
    let w = plan(queued, tags).0;
    if tags.len() > 0 {
        let n = tags.len();
        assert forall|j: int| 0 <= j < tags.len() implies #[trigger] w.filter(to_stream(j as usize))
            == queued.filter(not_from(tags[j])).map_values(text_for(j as usize)) by {
            lemma_flood_reaches_every_other(queued, tags, n, j as usize);
            lemma_deliveries_are_the_others(queued, j as usize, tags[j]);
        }
        assert forall|k: int| 0 <= k < w.len() implies (#[trigger] w[k]).0 < tags.len() by {
            let j = w[k].0;
            if j >= tags.len() {
                lemma_flood_reaches_every_other(queued, tags, n, j);
                w.lemma_filter_contains(to_stream(j), k);
                assert(w.filter(to_stream(j)).contains(w[k]));
            }
        }
    }
}

/// No echo: every message planned for a connection came from elsewhere, and
/// none is invented: each is the text of a queued message whose origin
/// differs from the connection's tag.
pub proof fn lemma_no_echo(msgs: Seq<(Seq<char>, StreamID)>, stream: usize, tag: StreamID)
    ensures
        forall|k: int|
            0 <= k < deliveries(msgs, stream, tag).len() ==> {
                let w = #[trigger] deliveries(msgs, stream, tag)[k];
                &&& w.0 == stream
                &&& exists|j: int|
                    0 <= j < msgs.len() && msgs[j].0 == w.1 && msgs[j].1 != tag
            },
    decreases msgs.len(),
{
    if msgs.len() > 0 {
        let rest = deliveries(msgs.drop_last(), stream, tag);
        lemma_no_echo(msgs.drop_last(), stream, tag);
        assert forall|k: int| 0 <= k < deliveries(msgs, stream, tag).len() implies {
            let w = #[trigger] deliveries(msgs, stream, tag)[k];
            &&& w.0 == stream
            &&& exists|j: int| 0 <= j < msgs.len() && msgs[j].0 == w.1 && msgs[j].1 != tag
        } by {
            let w = deliveries(msgs, stream, tag)[k];
            if k < rest.len() {
                assert(w == rest[k]);
                let j = choose|j: int|
                    0 <= j < msgs.drop_last().len() && msgs.drop_last()[j].0 == w.1
                        && msgs.drop_last()[j].1 != tag;
                assert(msgs[j] == msgs.drop_last()[j]);
            } else {
                assert(msgs[msgs.len() - 1] == msgs.last());
            }
        }
    }
}

/// Queues the server's own serialized diffs, each marked as coming from the
/// server, after what is queued already.
pub fn queue_own_messages(todo: &mut Vec<(String, StreamID)>, serialized: Vec<String>)
    ensures
        queued_view(final(todo)@) == queued_view(old(todo)@) + serialized@.map_values(
            |s: String| (s@, SERVER_ORIGIN_TAG),
        ),
        final(todo)@.len() == old(todo)@.len() + serialized@.len(),
        forall|i: int| 0 <= i < old(todo)@.len() ==> #[trigger] final(todo)@[i] == old(todo)@[i],
        forall|i: int|
            0 <= i < serialized@.len() ==> final(todo)@[old(todo)@.len() + i] == (
            #[trigger] serialized@[i],
            SERVER_ORIGIN_TAG,
        ),
{
    let ghost before = queued_view(todo@);
    let ghost start = todo@;
    let mut i: usize = 0;
    while i < serialized.len()
        invariant
            0 <= i <= serialized.len(),
            queued_view(todo@) == before + serialized@.take(i as int).map_values(
                |s: String| (s@, SERVER_ORIGIN_TAG),
            ),
            todo@.len() == start.len() + i,
            forall|k: int| 0 <= k < start.len() ==> #[trigger] todo@[k] == start[k],
            forall|k: int|
                0 <= k < i ==> todo@[start.len() + k] == (#[trigger] serialized@[k], SERVER_ORIGIN_TAG),
        decreases serialized.len() - i,
    {
        let s = serialized[i].clone();
        let ghost prev = todo@;
        todo.push((s, SERVER_ORIGIN_TAG));
        assert(todo@[start.len() + i] == (serialized@[i as int], SERVER_ORIGIN_TAG));
        assert(queued_view(todo@) =~= queued_view(prev).push((s@, SERVER_ORIGIN_TAG)));
        assert(serialized@.take(i + 1) =~= serialized@.take(i as int).push(serialized@[i as int]));
        assert(serialized@.take(i + 1).map_values(|s: String| (s@, SERVER_ORIGIN_TAG))
            =~= serialized@.take(i as int).map_values(|s: String| (s@, SERVER_ORIGIN_TAG)).push(
            (s@, SERVER_ORIGIN_TAG),
        ));
        assert(queued_view(todo@) =~= before + serialized@.take(i + 1).map_values(
            |s: String| (s@, SERVER_ORIGIN_TAG),
        ));
        i = i + 1;
    }
    assert(serialized@.take(serialized@.len() as int) =~= serialized@);
}

/// Queues diffs that clients sent (serialized), each marked with the
/// connection it came from, to be bounced to the other clients.
pub fn queue_bounced_messages(todo: &mut Vec<(String, StreamID)>, bounced: Vec<(String, StreamID)>)
    ensures
        queued_view(final(todo)@) == queued_view(old(todo)@) + bounced_queued(bounced@),
        final(todo)@.len() == old(todo)@.len() + bounced@.len(),
        forall|i: int| 0 <= i < old(todo)@.len() ==> #[trigger] final(todo)@[i] == old(todo)@[i],
        forall|i: int|
            0 <= i < bounced@.len() ==> final(todo)@[old(todo)@.len() + i] == #[trigger] bounced@[i],
{
    let ghost before = queued_view(todo@);
    let ghost start = todo@;
    let mut i: usize = 0;
    while i < bounced.len()
        invariant
            0 <= i <= bounced.len(),
            queued_view(todo@) == before + bounced_queued(bounced@.take(i as int)),
            todo@.len() == start.len() + i,
            forall|k: int| 0 <= k < start.len() ==> #[trigger] todo@[k] == start[k],
            forall|k: int| 0 <= k < i ==> todo@[start.len() + k] == #[trigger] bounced@[k],
        decreases bounced.len() - i,
    {
        let text = bounced[i].0.clone();
        let origin = bounced[i].1;
        let ghost prev = todo@;
        todo.push((text, origin));
        assert(todo@[start.len() + i] == bounced@[i as int]);
        assert(queued_view(todo@) =~= queued_view(prev).push((text@, origin)));
        assert(bounced@.take(i + 1) =~= bounced@.take(i as int).push(bounced@[i as int]));
        assert(bounced_queued(bounced@.take(i + 1)) =~= bounced_queued(bounced@.take(i as int)).push(
            (text@, origin),
        ));
        assert(queued_view(todo@) =~= before + bounced_queued(bounced@.take(i + 1)));
        i = i + 1;
    }
    assert(bounced@.take(bounced@.len() as int) =~= bounced@);
}

/// One routing round over the connections, tagged `stream_tags` in order:
/// the queue is taken, and each connection in turn is written every taken
/// message that did not come from it. With no connection nothing is taken.
pub fn plan_writes(todo: &mut Vec<(String, StreamID)>, stream_tags: &Vec<StreamID>) -> (writes: Vec<
    (usize, String),
>)
    ensures
        (writes_view(writes@), queued_view(final(todo)@)) == plan(
            queued_view(old(todo)@),
            stream_tags@,
        ),
        stream_tags@.len() == 0 ==> final(todo)@ == old(todo)@,
        stream_tags@.len() == 0 ==> writes@.len() == 0,
        stream_tags@.len() > 0 ==> final(todo)@.len() == 0,
        forall|k: int| 0 <= k < writes@.len() ==> (#[trigger] writes@[k]).0 < stream_tags@.len(),
        forall|j: int|
            0 <= j < stream_tags@.len() ==> #[trigger] writes_view(writes@).filter(
                to_stream(j as usize),
            ) == (queued_view(old(todo)@)).filter(not_from(stream_tags@[j])).map_values(text_for(j as usize)),
{
    let ghost q0 = queued_view(todo@);
    let writes = route_round(todo, stream_tags);
    proof {
        assert(stream_tags@.len() == stream_tags.len());
        lemma_plan_routes_everything(q0, stream_tags@);
        let pw = plan(q0, stream_tags@).0;
        assert(writes_view(writes@) == pw);
        assert forall|k: int| 0 <= k < writes@.len() implies (#[trigger] writes@[k]).0
            < stream_tags@.len() by {
            assert(writes_view(writes@)[k].0 == writes@[k].0);
            assert(pw[k].0 < stream_tags@.len());
        }
        assert forall|j: int| 0 <= j < stream_tags@.len() implies #[trigger] writes_view(
            writes@,
        ).filter(to_stream(j as usize)) == q0.filter(not_from(stream_tags@[j])).map_values(
            text_for(j as usize),
        ) by {
            assert(pw.filter(to_stream(j as usize)) == q0.filter(not_from(stream_tags@[j])).map_values(
                text_for(j as usize),
            ));
        }
    }
    writes
}

fn route_round(todo: &mut Vec<(String, StreamID)>, stream_tags: &Vec<StreamID>) -> (writes: Vec<
    (usize, String),
>)
    ensures
        (writes_view(writes@), queued_view(final(todo)@)) == plan(
            queued_view(old(todo)@),
            stream_tags@,
        ),
        stream_tags@.len() == 0 ==> final(todo)@ == old(todo)@,
{
    let mut writes: Vec<(usize, String)> = Vec::new();
    if stream_tags.len() == 0 {
        assert(writes_view(writes@) =~= Seq::<(usize, Seq<char>)>::empty());
        return writes;
    }
    let mut batch: Vec<(String, StreamID)> = Vec::new();
    std::mem::swap(&mut batch, todo);
    let ghost queued = queued_view(batch@);
    assert(writes_view(writes@) =~= flood(queued, stream_tags@, 0));
    let mut i: usize = 0;
    while i < stream_tags.len()
        invariant
            0 <= i <= stream_tags.len(),
            queued == queued_view(batch@),
            todo@.len() == 0,
            writes_view(writes@) == flood(queued, stream_tags@, i as nat),
        decreases stream_tags.len() - i,
    {
        let tag = stream_tags[i];
        let ghost before = writes_view(writes@);
        let mut j: usize = 0;
        assert(queued.take(0) =~= Seq::<(Seq<char>, StreamID)>::empty());
        while j < batch.len()
            invariant
                0 <= j <= batch.len(),
                queued == queued_view(batch@),
                writes_view(writes@) == before + deliveries(queued.take(j as int), i, tag),
            decreases batch.len() - j,
        {
            assert(queued.take(j + 1).drop_last() =~= queued.take(j as int));
            assert(queued.take(j + 1).last() == queued[j as int]);
            if batch[j].1 != tag {
                let text = batch[j].0.clone();
                let ghost prev = writes@;
                writes.push((i, text));
                assert(writes_view(writes@) =~= writes_view(prev).push((i, queued[j as int].0)));
                assert(writes_view(writes@) =~= before + deliveries(queued.take(j + 1), i, tag));
            }
            j = j + 1;
        }
        assert(queued.take(batch@.len() as int) =~= queued);
        assert(flood(queued, stream_tags@, (i + 1) as nat) == flood(queued, stream_tags@, i as nat)
            + deliveries(queued, i, tag));
        i = i + 1;
    }
    assert(queued_view(todo@) =~= Seq::<(Seq<char>, StreamID)>::empty());
    writes
}

/// The queued form of the server's own serialized diffs.
pub open spec fn own_queued(serialized: Seq<String>) -> Seq<(Seq<char>, StreamID)> {
    serialized.map_values(|s: String| (s@, SERVER_ORIGIN_TAG))
}

/// Every own diff of a round is queued, each once, in order, marked as the
/// server's.
pub proof fn lemma_own_queued_keeps_each(serialized: Seq<String>)
    ensures
        own_queued(serialized).len() == serialized.len(),
        forall|i: int|
            0 <= i < serialized.len() ==> #[trigger] own_queued(serialized)[i] == (
                serialized[i]@,
                SERVER_ORIGIN_TAG,
            ),
{
}

/// Every bounced diff of a batch is queued, each once, in order, with its text
/// and its origin.
pub proof fn lemma_bounced_queued_keeps_each(bounced: Seq<(String, StreamID)>)
    ensures
        bounced_queued(bounced).len() == bounced.len(),
        forall|i: int|
            0 <= i < bounced.len() ==> #[trigger] bounced_queued(bounced)[i] == (
                bounced[i].0@,
                bounced[i].1,
            ),
{
}


/// One round of the server's sender of its own diffs: queues what the game
/// loop handed over (serialized), then routes the queue.
pub fn serve_own_step(
    todo: &mut Vec<(String, StreamID)>,
    own: Vec<String>,
    stream_tags: &Vec<StreamID>,
) -> (writes: Vec<(usize, String)>)
    ensures
        (writes_view(writes@), queued_view(final(todo)@)) == plan(
            queued_view(old(todo)@) + own_queued(own@),
            stream_tags@,
        ),
        stream_tags@.len() == 0 ==> writes@.len() == 0,
        stream_tags@.len() > 0 ==> final(todo)@.len() == 0,
        forall|k: int| 0 <= k < writes@.len() ==> (#[trigger] writes@[k]).0 < stream_tags@.len(),
        forall|j: int|
            0 <= j < stream_tags@.len() ==> #[trigger] writes_view(writes@).filter(
                to_stream(j as usize),
            ) == (queued_view(old(todo)@) + own@.map_values(|s: String| (s@, SERVER_ORIGIN_TAG))).filter(not_from(stream_tags@[j])).map_values(text_for(j as usize)),
{
    queue_own_messages(todo, own);
    plan_writes(todo, stream_tags)
}

/// One round of the server's bouncer: queues the diffs clients sent
/// (serialized, each with its origin), then
/// routes the queue.
pub fn serve_bounces_step(
    todo: &mut Vec<(String, StreamID)>,
    bounced: Vec<(String, StreamID)>,
    stream_tags: &Vec<StreamID>,
) -> (writes: Vec<(usize, String)>)
    ensures
        (writes_view(writes@), queued_view(final(todo)@)) == plan(
            queued_view(old(todo)@) + bounced_queued(bounced@),
            stream_tags@,
        ),
        stream_tags@.len() == 0 ==> writes@.len() == 0,
        stream_tags@.len() > 0 ==> final(todo)@.len() == 0,
        forall|k: int| 0 <= k < writes@.len() ==> (#[trigger] writes@[k]).0 < stream_tags@.len(),
        forall|j: int|
            0 <= j < stream_tags@.len() ==> #[trigger] writes_view(writes@).filter(
                to_stream(j as usize),
            ) == (queued_view(old(todo)@) + bounced@.map_values(|b: (String, StreamID)| (b.0@, b.1))).filter(not_from(stream_tags@[j])).map_values(text_for(j as usize)),
{
    queue_bounced_messages(todo, bounced);
    plan_writes(todo, stream_tags)
}

/// One round of the single-threaded server sender: queues its own diffs,
/// then the bounced ones (serialized, each with its origin), then routes the
/// queue.
pub fn serve_step(
    todo: &mut Vec<(String, StreamID)>,
    own: Vec<String>,
    bounced: Vec<(String, StreamID)>,
    stream_tags: &Vec<StreamID>,
) -> (writes: Vec<(usize, String)>)
    ensures
        (writes_view(writes@), queued_view(final(todo)@)) == plan(
            queued_view(old(todo)@) + own_queued(own@) + bounced_queued(bounced@),
            stream_tags@,
        ),
        stream_tags@.len() == 0 ==> writes@.len() == 0,
        stream_tags@.len() > 0 ==> final(todo)@.len() == 0,
        forall|k: int| 0 <= k < writes@.len() ==> (#[trigger] writes@[k]).0 < stream_tags@.len(),
        forall|j: int|
            0 <= j < stream_tags@.len() ==> #[trigger] writes_view(writes@).filter(
                to_stream(j as usize),
            ) == (queued_view(old(todo)@) + own@.map_values(|s: String| (s@, SERVER_ORIGIN_TAG)) + bounced@.map_values(|b: (String, StreamID)| (b.0@, b.1))).filter(not_from(stream_tags@[j])).map_values(text_for(j as usize)),
{
    queue_own_messages(todo, own);
    queue_bounced_messages(todo, bounced);
    plan_writes(todo, stream_tags)
}

/// A diff that arrived from the client tagged `origin`: the game loop gets it,
/// and it is queued to be bounced to the other clients with its origin.
pub fn accept_client_diff(
    informant: &mut ClientsideInformant,
    bounced: &mut SharedQueue<(Diff, StreamID)>,
    diff: Diff,
    origin: StreamID,
)
    ensures
        final(informant).incoming_diffs() == old(informant).incoming_diffs().push(diff),
        final(informant).outgoing_diffs() == old(informant).outgoing_diffs(),
        final(bounced)@ == old(bounced)@.push((diff, origin)),
{
    informant.deliver(diff);
    bounced.lock_push_notify((diff, origin));
}

/// The tags the server has given its connections, in the order they came.
/// The connection that came n-th (from zero) has tag n, so no two share one.
pub struct ClientRegistry {
    tags: Vec<StreamID>,
    next_tag: StreamID,
}

impl ClientRegistry {
    #[verifier::type_invariant]
    spec fn counted(&self) -> bool {
        &&& self.tags@.len() == self.next_tag
        &&& forall|i: int| 0 <= i < self.tags@.len() ==> self.tags@[i] == i
    }

    /// The tags given so far, oldest connection first.
    pub closed spec fn tags(&self) -> Seq<StreamID> {
        self.tags@
    }

    /// The tag the next connection gets.
    pub closed spec fn next_tag(&self) -> StreamID {
        self.next_tag
    }

    /// No connection yet; the first gets tag 0.
    pub fn new() -> (r: ClientRegistry)
        ensures
            r.tags() == Seq::<StreamID>::empty(),
            r.next_tag() == 0,
    {
        ClientRegistry { tags: Vec::new(), next_tag: 0 }
    }

    /// Whether another connection can get a tag.
    pub fn can_register(&self) -> (b: bool)
        ensures
            b == (self.next_tag() < u32::MAX),
    {
        self.next_tag < u32::MAX
    }

    /// Gives a new connection the next tag and records it last.
    pub fn register(&mut self) -> (tag: StreamID)
        requires
            old(self).next_tag() < u32::MAX,
        ensures
            tag == old(self).next_tag(),
            final(self).tags() == old(self).tags().push(tag),
            final(self).next_tag() == tag + 1,
    {
        let mut taken = ClientRegistry::new();
        std::mem::swap(&mut taken, self);
        proof {
            use_type_invariant(&taken);
        }
        let ClientRegistry { mut tags, next_tag } = taken;
        let tag = next_tag;
        tags.push(tag);
        *self = ClientRegistry { tags: tags, next_tag: tag + 1 };
        tag
    }

    /// The connections' tags in order: the n-th connection has tag n, so they
    /// increase, are pairwise distinct, and are all below the next tag.
    pub fn stream_tags(&self) -> (r: &Vec<StreamID>)
        ensures
            r@ == self.tags(),
            r@.len() == self.next_tag(),
            forall|i: int| 0 <= i < r@.len() ==> r@[i] == i,
            forall|i: int, j: int| 0 <= i < j < r@.len() ==> r@[i] < r@[j],
            forall|i: int, j: int| 0 <= i < r@.len() && 0 <= j < r@.len() && i != j ==> r@[i] != r@[j],
            forall|i: int| 0 <= i < r@.len() ==> r@[i] < self.next_tag(),
    {
        proof {
            use_type_invariant(self);
        }
        &self.tags
    }
}

} // verus!
