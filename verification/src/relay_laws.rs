//! Laws of the relay: what a batch does to a room, who holds pruning back, and which
//! submissions are accepted.

use crate::id_map;
use crate::or_set::SetOpView;
use crate::relay;
use crate::relay::Room;
use crate::relay::Submission;
use crate::relay::Verdict;
use crate::relay_model;
use crate::relay_model::RoomView;
use crate::relay_model::TombstoneKind;
use crate::relay_model::TombstoneView;
use crate::rga_model::OpView;
use crate::security;
use crate::security::SignatureError;
use crate::state_store::StoreOp;
use crate::store_laws;
use crate::store_model;
use crate::store_model::EnvelopeView;
use crate::store_model::StoreOpView;
use crate::store_model::StoreView;
use vstd::prelude::*;

verus! {

// ── Clients and their clocks ─────────────────────────────────────────────────

/// A new room has its store and nothing else: no clients, no clocks, no removals to
/// remember, and nothing received.
pub proof fn law_new_room_is_empty(owner: Seq<char>, store: StoreView, client: u64)
    ensures
        ({
            let room = relay_model::new_room(owner, store);
            &&& room.owner == owner
            &&& room.store == store
            &&& !room.clients.contains(client)
            &&& !room.clocks.contains_key(client)
            &&& room.tombstones.len() == 0
            &&& room.high_watermark == 0
        }),
{
}

/// Joining lets in the client and nobody else, and sets its clock to the latest time
/// received; the clocks of the others stay.
pub proof fn law_join_lets_in_one_client(room: RoomView, client: u64, other: u64)
    ensures
        ({
            let next = relay_model::joined(room, client);
            &&& next.clients.contains(client)
            &&& next.clocks.contains_key(client)
            &&& next.clocks[client] == room.high_watermark
            &&& other != client ==> {
                &&& next.clients.contains(other) <==> room.clients.contains(other)
                &&& next.clocks.contains_key(other) <==> room.clocks.contains_key(other)
                &&& room.clocks.contains_key(other) ==> next.clocks[other] == room.clocks[other]
            }
            &&& next.owner == room.owner
            &&& next.store == room.store
            &&& next.tombstones == room.tombstones
            &&& next.high_watermark == room.high_watermark
        }),
{
}

/// Leaving takes out the client with its clock, and nobody else.
pub proof fn law_leave_lets_out_one_client(room: RoomView, client: u64, other: u64)
    ensures
        ({
            let next = relay_model::left(room, client);
            &&& !next.clients.contains(client)
            &&& !next.clocks.contains_key(client)
            &&& other != client ==> {
                &&& next.clients.contains(other) <==> room.clients.contains(other)
                &&& next.clocks.contains_key(other) <==> room.clocks.contains_key(other)
                &&& room.clocks.contains_key(other) ==> next.clocks[other] == room.clocks[other]
            }
            &&& next.owner == room.owner
            &&& next.store == room.store
            &&& next.tombstones == room.tombstones
            &&& next.high_watermark == room.high_watermark
        }),
{
}

/// After a batch the clock of the sender is the greatest of its clock before and the
/// times of the envelopes accepted from it: no less than any of them, and one of them.
/// A client without a clock gets one only by an envelope with a time.
pub proof fn law_batch_moves_the_clock_of_its_sender(
    room: RoomView,
    client: u64,
    envs: Seq<EnvelopeView>,
)
    ensures
        ({
            let next = relay_model::after_batch(room, client, envs);
            &&& room.clocks.contains_key(client) ==> next.clocks.contains_key(client)
                && next.clocks[client] >= room.clocks[client]
            &&& forall|i: int|
                0 <= i < envs.len() && (#[trigger] envs[i]).timestamp > 0
                    ==> next.clocks.contains_key(client) && next.clocks[client]
                    >= envs[i].timestamp
            &&& next.clocks.contains_key(client) ==> {
                ||| room.clocks.contains_key(client) && next.clocks[client]
                    == room.clocks[client]
                ||| exists|i: int|
                    0 <= i < envs.len() && (#[trigger] envs[i]).timestamp
                        == next.clocks[client]
            }
        }),
{
    lemma_batch(room, client, envs);
}

/// A batch moves no clock but that of its sender, and lets nobody in or out.
pub proof fn law_batch_leaves_other_clients_alone(
    room: RoomView,
    client: u64,
    envs: Seq<EnvelopeView>,
    other: u64,
)
    ensures
        ({
            let next = relay_model::after_batch(room, client, envs);
            &&& next.clients == room.clients
            &&& next.owner == room.owner
            &&& other != client ==> {
                &&& next.clocks.contains_key(other) <==> room.clocks.contains_key(other)
                &&& room.clocks.contains_key(other) ==> next.clocks[other] == room.clocks[other]
            }
        }),
{
    lemma_batch(room, client, envs);
}

/// The latest time received is the greatest of what it was before and the times of the
/// envelopes accepted.
pub proof fn law_batch_moves_the_latest_time(
    room: RoomView,
    client: u64,
    envs: Seq<EnvelopeView>,
)
    ensures
        ({
            let next = relay_model::after_batch(room, client, envs);
            &&& next.high_watermark >= room.high_watermark
            &&& forall|i: int|
                0 <= i < envs.len() ==> (#[trigger] envs[i]).timestamp <= next.high_watermark
            &&& next.high_watermark == room.high_watermark || exists|i: int|
                0 <= i < envs.len() && (#[trigger] envs[i]).timestamp == next.high_watermark
        }),
{
    lemma_batch(room, client, envs);
}

proof fn lemma_batch(room: RoomView, client: u64, envs: Seq<EnvelopeView>)
    ensures
        ({
            let next = relay_model::after_batch(room, client, envs);
            let time = store_laws::latest(envs);
            &&& forall|i: int| 0 <= i < envs.len() ==> (#[trigger] envs[i]).timestamp <= time
            &&& time > 0 ==> exists|i: int|
                0 <= i < envs.len() && (#[trigger] envs[i]).timestamp == time
            &&& next.owner == room.owner
            &&& next.clients == room.clients
            &&& next == relay_model::advanced(
                RoomView {
                    store: next.store,
                    tombstones: next.tombstones,
                    ..room
                },
                client,
                time,
            )
        }),
{
    store_laws::law_latest_is_the_greatest(envs);
    relay_model::lemma_accepted_all(room, envs);
}

/// What one more envelope at the end of a batch does: the store receives it, and if it
/// removes or deletes something, its time and name are remembered, behind the others.
pub proof fn law_batch_remembers_removals(
    room: RoomView,
    client: u64,
    envs: Seq<EnvelopeView>,
    env: EnvelopeView,
)
    ensures
        ({
            let less = relay_model::after_batch(room, client, envs);
            let more = relay_model::after_batch(room, client, envs.push(env));
            &&& more.store == store_model::received(less.store, env)
            &&& match env.op {
                StoreOpView::Register { .. } => more.tombstones == less.tombstones,
                StoreOpView::OrSet { key, op: SetOpView::Add { .. } } => more.tombstones
                    == less.tombstones,
                StoreOpView::Sequence { key, op: OpView::Insert { .. } } => more.tombstones
                    == less.tombstones,
                StoreOpView::OrSet { key, op: SetOpView::Remove { .. } } => more.tombstones
                    == less.tombstones.push(
                    TombstoneView {
                        timestamp: env.timestamp,
                        kind: TombstoneKind::OrSet,
                        key,
                    },
                ),
                StoreOpView::Sequence { key, op: OpView::Delete { .. } } => more.tombstones
                    == less.tombstones.push(
                    TombstoneView {
                        timestamp: env.timestamp,
                        kind: TombstoneKind::Sequence,
                        key,
                    },
                ),
            }
        }),
        relay_model::after_batch(room, client, Seq::empty()) == room,
{
    assert(envs.push(env).drop_last() =~= envs);
}

// ── Pruning ──────────────────────────────────────────────────────────────────

/// A prune point is the time of a removal that every clock has moved past; of those it is
/// the latest, so that for every later removal there is a clock that has not moved past
/// it.  There is one exactly if there is such a removal, and somebody in the room.
pub proof fn law_prune_point(room: RoomView, time: u64)
    requires
        forall|client: u64| #[trigger]
            room.clients.contains(client) ==> room.clocks.contains_key(client),
    ensures
        relay_model::prunable(room, time) <==> {
            &&& exists|client: u64| room.clients.contains(client)
            &&& forall|client: u64| #[trigger]
                room.clocks.contains_key(client) ==> time < room.clocks[client]
            &&& exists|i: int|
                0 <= i < room.tombstones.len() && (#[trigger] room.tombstones[i]).timestamp
                    == time
            &&& forall|i: int|
                0 <= i < room.tombstones.len() && (#[trigger] room.tombstones[i]).timestamp > time
                    ==> exists|client: u64| #[trigger]
                    room.clocks.contains_key(client) && room.clocks[client]
                        <= room.tombstones[i].timestamp
        },
        (exists|t: u64| relay_model::prunable(room, t)) <==> {
            &&& exists|client: u64| room.clients.contains(client)
            &&& exists|i: int|
                0 <= i < room.tombstones.len() && forall|client: u64| #[trigger]
                    room.clocks.contains_key(client) ==> (
                    #[trigger] room.tombstones[i]).timestamp < room.clocks[client]
        },
{
    lemma_prune_point(room, time);
    if exists|client: u64| room.clients.contains(client) {
        let c = choose|client: u64| room.clients.contains(client);
        assert(room.clocks.contains_key(c));
        let bound = lemma_least(room.clocks, c);
        if exists|i: int|
            0 <= i < room.tombstones.len() && forall|client: u64| #[trigger]
                room.clocks.contains_key(client) ==> (#[trigger] room.tombstones[i]).timestamp
                    < room.clocks[client] {
            let i = choose|i: int|
                0 <= i < room.tombstones.len() && forall|client: u64| #[trigger]
                    room.clocks.contains_key(client) ==> (
                    #[trigger] room.tombstones[i]).timestamp < room.clocks[client];
            let d = choose|id: u64| #[trigger]
                room.clocks.contains_key(id) && room.clocks[id] == bound;
            assert(room.tombstones[i].timestamp < bound);
            let j = lemma_latest_before(room.tombstones, bound, i);
            let t = room.tombstones[j].timestamp;
            assert(relay_model::latest_before(room.tombstones, bound, t));
            assert(room.clients != Set::<u64>::empty());
            assert(relay_model::prunable(room, t));
        }
    }
    if exists|t: u64| relay_model::prunable(room, t) {
        let t = choose|t: u64| relay_model::prunable(room, t);
        lemma_prune_point(room, t);
        let i = choose|i: int|
            0 <= i < room.tombstones.len() && (#[trigger] room.tombstones[i]).timestamp == t;
        assert(forall|client: u64| #[trigger]
            room.clocks.contains_key(client) ==> room.tombstones[i].timestamp
                < room.clocks[client]);
    }
}

proof fn lemma_prune_point(room: RoomView, time: u64)
    requires
        forall|client: u64| #[trigger]
            room.clients.contains(client) ==> room.clocks.contains_key(client),
    ensures
        relay_model::prunable(room, time) <==> {
            &&& exists|client: u64| room.clients.contains(client)
            &&& forall|client: u64| #[trigger]
                room.clocks.contains_key(client) ==> time < room.clocks[client]
            &&& exists|i: int|
                0 <= i < room.tombstones.len() && (#[trigger] room.tombstones[i]).timestamp
                    == time
            &&& forall|i: int|
                0 <= i < room.tombstones.len() && (#[trigger] room.tombstones[i]).timestamp > time
                    ==> exists|client: u64| #[trigger]
                    room.clocks.contains_key(client) && room.clocks[client]
                        <= room.tombstones[i].timestamp
        },
{
    if relay_model::prunable(room, time) {
        let bound = choose|bound: u64|
            {
                &&& #[trigger] id_map::least(room.clocks, bound)
                &&& relay_model::latest_before(room.tombstones, bound, time)
            };
        let d = choose|id: u64| #[trigger]
            room.clocks.contains_key(id) && room.clocks[id] == bound;
        assert forall|i: int|
            0 <= i < room.tombstones.len() && (#[trigger] room.tombstones[i]).timestamp
                > time implies exists|client: u64| #[trigger]
            room.clocks.contains_key(client) && room.clocks[client]
                <= room.tombstones[i].timestamp by {
            assert(room.clocks[d] <= room.tombstones[i].timestamp);
        }
        if !(exists|client: u64| room.clients.contains(client)) {
            assert(room.clients =~= Set::<u64>::empty());
        }
    }
    if (exists|client: u64| room.clients.contains(client)) && (forall|client: u64| #[trigger]
        room.clocks.contains_key(client) ==> time < room.clocks[client]) && (exists|i: int|
        0 <= i < room.tombstones.len() && (#[trigger] room.tombstones[i]).timestamp == time) && (
    forall|i: int|
        0 <= i < room.tombstones.len() && (#[trigger] room.tombstones[i]).timestamp > time
            ==> exists|client: u64| #[trigger]
            room.clocks.contains_key(client) && room.clocks[client]
                <= room.tombstones[i].timestamp) {
        let c = choose|client: u64| room.clients.contains(client);
        assert(room.clocks.contains_key(c));
        let bound = lemma_least(room.clocks, c);
        let d = choose|id: u64| #[trigger]
            room.clocks.contains_key(id) && room.clocks[id] == bound;
        assert(time < bound);
        assert(room.clients != Set::<u64>::empty());
        assert(relay_model::latest_before(room.tombstones, bound, time)) by {
            assert forall|i: int|
                0 <= i < room.tombstones.len() && (#[trigger] room.tombstones[i]).timestamp
                    < bound implies room.tombstones[i].timestamp <= time by {
                if room.tombstones[i].timestamp > time {
                    let e = choose|client: u64| #[trigger]
                        room.clocks.contains_key(client) && room.clocks[client]
                            <= room.tombstones[i].timestamp;
                    assert(room.clocks[e] >= bound);
                }
            }
        }
    }
}

/// There is a least clock.
proof fn lemma_least(clocks: Map<u64, u64>, client: u64) -> (bound: u64)
    requires
        clocks.contains_key(client),
    ensures
        id_map::least(clocks, bound),
    decreases clocks[client],
{
    if exists|other: u64| #[trigger]
        clocks.contains_key(other) && clocks[other] < clocks[client] {
        let other = choose|other: u64| #[trigger]
            clocks.contains_key(other) && clocks[other] < clocks[client];
        lemma_least(clocks, other)
    } else {
        clocks[client]
    }
}

/// There is a latest removal before `bound`.
proof fn lemma_latest_before(traces: Seq<TombstoneView>, bound: u64, i: int) -> (j: int)
    requires
        0 <= i < traces.len(),
        traces[i].timestamp < bound,
    ensures
        0 <= j < traces.len(),
        relay_model::latest_before(traces, bound, traces[j].timestamp),
    decreases bound - traces[i].timestamp,
{
    if exists|k: int|
        0 <= k < traces.len() && (#[trigger] traces[k]).timestamp < bound && traces[k].timestamp
            > traces[i].timestamp {
        let k = choose|k: int|
            0 <= k < traces.len() && (#[trigger] traces[k]).timestamp < bound
                && traces[k].timestamp > traces[i].timestamp;
        lemma_latest_before(traces, bound, k)
    } else {
        i
    }
}

/// Pruning forgets the removals up to its point and keeps the later ones, in their order.
pub proof fn law_pruning_forgets_up_to_its_point(
    traces: Seq<TombstoneView>,
    trace: TombstoneView,
    time: u64,
)
    ensures
        relay_model::traces_after(Seq::empty(), time).len() == 0,
        trace.timestamp <= time ==> relay_model::traces_after(traces.push(trace), time)
            == relay_model::traces_after(traces, time),
        trace.timestamp > time ==> relay_model::traces_after(traces.push(trace), time)
            == relay_model::traces_after(traces, time).push(trace),
{
    reveal(Seq::filter);
    assert(traces.push(trace).drop_last() =~= traces);
}

/// What happens in a room.
pub enum RoomEvent {
    Join(u64),
    Leave(u64),
    /// Envelopes from a client that were accepted.
    Batch(u64, Seq<EnvelopeView>),
}

/// In any history of a room, a prune point is given only if every client in the room has,
/// since it joined, itself sent an accepted envelope later than that point, or joined when
/// an envelope later than that point had been received.
///
/// `rooms` are the states before, between and behind the events.  Removals may be
/// forgotten after a batch.
pub proof fn law_pruning_waits_for_what_clients_sent(
    owner: Seq<char>,
    store: StoreView,
    rooms: Seq<RoomView>,
    events: Seq<RoomEvent>,
    time: u64,
    client: u64,
)
    requires
        rooms.len() == events.len() + 1,
        rooms[0] == relay_model::new_room(owner, store),
        forall|k: int|
            #![trigger events[k]]
            0 <= k < events.len() ==> match events[k] {
                RoomEvent::Join(c) => rooms[k + 1] == relay_model::joined(rooms[k], c),
                RoomEvent::Leave(c) => rooms[k + 1] == relay_model::left(rooms[k], c),
                RoomEvent::Batch(c, envs) => rooms[k + 1] == (RoomView {
                    tombstones: rooms[k + 1].tombstones,
                    ..relay_model::after_batch(rooms[k], c, envs)
                }),
            },
        relay_model::prunable(rooms.last(), time),
        rooms.last().clients.contains(client),
    ensures
        exists|k: int|
            {
                &&& 0 <= k < events.len()
                &&& match #[trigger] events[k] {
                    RoomEvent::Batch(c, envs) => c == client && exists|i: int|
                        0 <= i < envs.len() && (#[trigger] envs[i]).timestamp > time,
                    RoomEvent::Join(c) => c == client && exists|j: int, i: int|
                        #![trigger events[j], events[j]->Batch_1[i]]
                        {
                            &&& 0 <= j < k
                            &&& events[j] is Batch
                            &&& 0 <= i < events[j]->Batch_1.len()
                            &&& events[j]->Batch_1[i].timestamp > time
                        },
                    RoomEvent::Leave(_) => false,
                }
                &&& forall|j: int|
                    k < j < events.len() ==> (#[trigger] events[j]) != RoomEvent::Join(client)
                        && events[j] != RoomEvent::Leave(client)
            },
{
    let n = events.len() as int;
    assert(rooms.last() == rooms[n]);
    lemma_clocks_of_members(owner, store, rooms, events, n);
    assert(rooms[n].clocks.contains_key(client));
    relay_model::law_pruning_waits_for_all(rooms[n], time, client);
    lemma_clock_has_a_source(owner, store, rooms, events, time, client, n);
}

/// Every client has a clock.
proof fn lemma_clocks_of_members(
    owner: Seq<char>,
    store: StoreView,
    rooms: Seq<RoomView>,
    events: Seq<RoomEvent>,
    n: int,
)
    requires
        rooms.len() == events.len() + 1,
        rooms[0] == relay_model::new_room(owner, store),
        forall|k: int|
            #![trigger events[k]]
            0 <= k < events.len() ==> match events[k] {
                RoomEvent::Join(c) => rooms[k + 1] == relay_model::joined(rooms[k], c),
                RoomEvent::Leave(c) => rooms[k + 1] == relay_model::left(rooms[k], c),
                RoomEvent::Batch(c, envs) => rooms[k + 1] == (RoomView {
                    tombstones: rooms[k + 1].tombstones,
                    ..relay_model::after_batch(rooms[k], c, envs)
                }),
            },
        0 <= n <= events.len(),
    ensures
        forall|c: u64| #[trigger]
            rooms[n].clients.contains(c) ==> rooms[n].clocks.contains_key(c),
    decreases n,
{
    if n > 0 {
        lemma_clocks_of_members(owner, store, rooms, events, n - 1);
        let before = rooms[n - 1];
        assert forall|c: u64| #[trigger] rooms[n].clients.contains(c) implies rooms[
        n].clocks.contains_key(c) by {
            match events[n - 1] {
                RoomEvent::Join(d) => {},
                RoomEvent::Leave(d) => {},
                RoomEvent::Batch(d, envs) => {
                    lemma_batch(before, d, envs);
                    assert(before.clients.contains(c));
                },
            }
        }
    }
}

/// A time that a clock, or the latest time received, is past was sent by somebody.
proof fn lemma_latest_time_has_a_source(
    owner: Seq<char>,
    store: StoreView,
    rooms: Seq<RoomView>,
    events: Seq<RoomEvent>,
    time: u64,
    n: int,
) -> (at: (int, int))
    requires
        rooms.len() == events.len() + 1,
        rooms[0] == relay_model::new_room(owner, store),
        forall|k: int|
            #![trigger events[k]]
            0 <= k < events.len() ==> match events[k] {
                RoomEvent::Join(c) => rooms[k + 1] == relay_model::joined(rooms[k], c),
                RoomEvent::Leave(c) => rooms[k + 1] == relay_model::left(rooms[k], c),
                RoomEvent::Batch(c, envs) => rooms[k + 1] == (RoomView {
                    tombstones: rooms[k + 1].tombstones,
                    ..relay_model::after_batch(rooms[k], c, envs)
                }),
            },
        0 <= n <= events.len(),
        rooms[n].high_watermark > time,
    ensures
        0 <= at.0 < n,
        events[at.0] is Batch,
        0 <= at.1 < events[at.0]->Batch_1.len(),
        events[at.0]->Batch_1[at.1].timestamp > time,
    decreases n,
{
    assert(n > 0);
    if rooms[n - 1].high_watermark > time {
        lemma_latest_time_has_a_source(owner, store, rooms, events, time, n - 1)
    } else {
        let before = rooms[n - 1];
        match events[n - 1] {
            RoomEvent::Join(d) => (0, 0),
            RoomEvent::Leave(d) => (0, 0),
            RoomEvent::Batch(d, envs) => {
                law_batch_moves_the_latest_time(before, d, envs);
                let i = choose|i: int|
                    0 <= i < envs.len() && (#[trigger] envs[i]).timestamp
                        == rooms[n].high_watermark;
                (n - 1, i)
            },
        }
    }
}

proof fn lemma_clock_has_a_source(
    owner: Seq<char>,
    store: StoreView,
    rooms: Seq<RoomView>,
    events: Seq<RoomEvent>,
    time: u64,
    client: u64,
    n: int,
)
    requires
        rooms.len() == events.len() + 1,
        rooms[0] == relay_model::new_room(owner, store),
        forall|k: int|
            #![trigger events[k]]
            0 <= k < events.len() ==> match events[k] {
                RoomEvent::Join(c) => rooms[k + 1] == relay_model::joined(rooms[k], c),
                RoomEvent::Leave(c) => rooms[k + 1] == relay_model::left(rooms[k], c),
                RoomEvent::Batch(c, envs) => rooms[k + 1] == (RoomView {
                    tombstones: rooms[k + 1].tombstones,
                    ..relay_model::after_batch(rooms[k], c, envs)
                }),
            },
        0 <= n <= events.len(),
        rooms[n].clients.contains(client),
        rooms[n].clocks.contains_key(client),
        rooms[n].clocks[client] > time,
    ensures
        exists|k: int|
            {
                &&& 0 <= k < n
                &&& match #[trigger] events[k] {
                    RoomEvent::Batch(c, envs) => c == client && exists|i: int|
                        0 <= i < envs.len() && (#[trigger] envs[i]).timestamp > time,
                    RoomEvent::Join(c) => c == client && exists|j: int, i: int|
                        #![trigger events[j], events[j]->Batch_1[i]]
                        {
                            &&& 0 <= j < k
                            &&& events[j] is Batch
                            &&& 0 <= i < events[j]->Batch_1.len()
                            &&& events[j]->Batch_1[i].timestamp > time
                        },
                    RoomEvent::Leave(_) => false,
                }
                &&& forall|j: int|
                    k < j < n ==> (#[trigger] events[j]) != RoomEvent::Join(client) && events[j]
                        != RoomEvent::Leave(client)
            },
    decreases n,
{
    assert(n > 0);
    let before = rooms[n - 1];
    let event = events[n - 1];
    lemma_clocks_of_members(owner, store, rooms, events, n - 1);
    if event == RoomEvent::Join(client) {
        let (j, i) = lemma_latest_time_has_a_source(owner, store, rooms, events, time, n - 1);
        assert(events[j]->Batch_1[i].timestamp > time);
    } else if event is Batch && event->Batch_0 == client && !(before.clocks.contains_key(client)
        && before.clocks[client] > time) {
        let envs = event->Batch_1;
        law_batch_moves_the_clock_of_its_sender(before, client, envs);
        let next = relay_model::after_batch(before, client, envs);
        assert(next.clocks[client] == rooms[n].clocks[client]);
        let i = choose|i: int|
            0 <= i < envs.len() && (#[trigger] envs[i]).timestamp == next.clocks[client];
        assert(envs[i].timestamp > time);
    } else {
        if let RoomEvent::Batch(c, envs) = event {
            law_batch_leaves_other_clients_alone(before, c, envs, client);
        }
        assert(before.clients.contains(client));
        lemma_clock_has_a_source(owner, store, rooms, events, time, client, n - 1);
    }
}

// ── What is accepted ─────────────────────────────────────────────────────────

/// A submission is accepted exactly if it is signed as it must be (its node has no key,
/// or it bears a signature of 64 bytes that verifies under the key) and about a name that
/// its node may write (the node has no access list, or the name starts with one of the
/// prefixes on it).
pub proof fn law_what_is_accepted(
    registry: Map<Seq<char>, [u8; 32]>,
    acl: Map<Seq<char>, Vec<String>>,
    submission: Submission,
)
    ensures
        relay::verdict(registry, acl, submission) == Verdict::Accepted <==> {
            let env = submission.envelope;
            &&& registry.contains_key(env.node_id@) ==> {
                &&& env.signature is Some
                &&& env.signature->0@.len() == 64
                &&& security::is_verifying_key(registry[env.node_id@]@)
                &&& submission.payload is Some
                &&& security::signature_verifies(
                    registry[env.node_id@]@,
                    submission.payload->0@,
                    env.signature->0@,
                )
            }
            &&& acl.contains_key(env.node_id@) ==> exists|i: int|
                0 <= i < acl[env.node_id@]@.len() && (
                #[trigger] acl[env.node_id@]@[i])@.is_prefix_of(
                    match env.op {
                        StoreOp::Register { key, .. } => key@,
                        StoreOp::OrSet { key, .. } => key@,
                        StoreOp::Sequence { key, .. } => key@,
                    },
                )
        },
{
}

/// A submission is turned down as not allowed only if its signature is as it must be and
/// its node has an access list without any prefix of the name; and for its signature only
/// if its node has a key.
pub proof fn law_why_submissions_are_turned_down(
    registry: Map<Seq<char>, [u8; 32]>,
    acl: Map<Seq<char>, Vec<String>>,
    submission: Submission,
    error: SignatureError,
)
    ensures
        relay::verdict(registry, acl, submission) == Verdict::BadSignature(error) <==> {
            let node = submission.envelope.node_id@;
            &&& registry.contains_key(node)
            &&& match submission.envelope.signature {
                None => error == SignatureError::Missing,
                Some(bytes) => if bytes@.len() != 64 {
                    error == SignatureError::Length
                } else if !security::is_verifying_key(registry[node]@) {
                    error == SignatureError::Key
                } else {
                    match submission.payload {
                        None => error == SignatureError::Payload,
                        Some(payload) => error == SignatureError::Invalid
                            && !security::signature_verifies(
                            registry[node]@,
                            payload@,
                            bytes@,
                        ),
                    }
                },
            }
        },
        relay::verdict(registry, acl, submission) == Verdict::NotAllowed ==> {
            let node = submission.envelope.node_id@;
            &&& acl.contains_key(node)
            &&& relay::verdict(
                registry,
                acl.remove(node),
                submission,
            ) == Verdict::Accepted
        },
{
}

/// A name that starts with any one of the prefixes on the access list of its node may be
/// written: if the signature is as it must be, the submission is accepted.
pub proof fn law_any_prefix_permits(
    registry: Map<Seq<char>, [u8; 32]>,
    acl: Map<Seq<char>, Vec<String>>,
    submission: Submission,
    i: int,
)
    requires
        acl.contains_key(submission.envelope.node_id@),
        0 <= i < acl[submission.envelope.node_id@]@.len(),
        acl[submission.envelope.node_id@]@[i]@.is_prefix_of(submission.envelope@.op.key()),
    ensures
        relay::verdict(registry, acl, submission) == relay::verdict(
            registry,
            acl.remove(submission.envelope.node_id@),
            submission,
        ),
{
    assert(security::may_write(
        acl,
        submission.envelope.node_id@,
        submission.envelope@.op.key(),
    ));
}

/// Every submission has its verdict, and the verdict on one does not depend on the others.
pub proof fn law_verdicts_are_given_one_by_one(
    registry: Map<Seq<char>, [u8; 32]>,
    acl: Map<Seq<char>, Vec<String>>,
    submissions: Seq<Submission>,
    i: int,
)
    ensures
        relay::verdicts(registry, acl, submissions).len() == submissions.len(),
        0 <= i < submissions.len() ==> relay::verdicts(registry, acl, submissions)[i]
            == relay::verdict(registry, acl, submissions[i]),
{
}

/// What is accepted goes in, in order, and nothing else does.
pub proof fn law_accepted_submissions_go_in(
    submissions: Seq<Submission>,
    decisions: Seq<Verdict>,
    submission: Submission,
    decision: Verdict,
)
    requires
        decisions.len() == submissions.len(),
    ensures
        relay::admitted(Seq::empty(), Seq::empty()).len() == 0,
        relay::admitted(submissions.push(submission), decisions.push(decision)) == match decision {
            Verdict::Accepted => relay::admitted(submissions, decisions).push(
                submission.envelope@,
            ),
            Verdict::BadSignature(_) => relay::admitted(submissions, decisions),
            Verdict::NotAllowed => relay::admitted(submissions, decisions),
        },
{
    assert(submissions.push(submission).drop_last() =~= submissions);
    relay::lemma_admitted(submissions, decisions, decisions.push(decision));
}

// ── Values as they are held ──────────────────────────────────────────────────

/// Rooms are seen name by name, and blobs one for one.
pub proof fn law_rooms_and_blobs_one_for_one(
    rooms: Map<Seq<char>, Room>,
    name: Seq<char>,
    blobs: Seq<Vec<u8>>,
    i: int,
)
    ensures
        relay::room_views(rooms).contains_key(name) <==> rooms.contains_key(name),
        rooms.contains_key(name) ==> relay::room_views(rooms)[name] == rooms[name]@,
        relay::blob_views(blobs).len() == blobs.len(),
        0 <= i < blobs.len() ==> relay::blob_views(blobs)[i] == blobs[i]@,
{
}

/// A room that is untouched is there before and after, the same, or neither.
pub proof fn law_untouched_rooms_are_the_same(
    before: Map<Seq<char>, RoomView>,
    after: Map<Seq<char>, RoomView>,
    name: Seq<char>,
)
    requires
        relay::untouched(before, after, name),
    ensures
        before.contains_key(name) <==> after.contains_key(name),
        before.contains_key(name) ==> after[name] == before[name],
{
}

} // verus!
