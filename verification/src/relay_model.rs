//! The relay as a mathematical object.

use crate::id_map;
use crate::rga_model;
use crate::store_laws;
use crate::store_model::EnvelopeView;
use crate::store_model::StoreOpView;
use crate::store_model::StoreView;
use vstd::prelude::*;

verus! {

/// Where something was taken away.
#[derive(Debug, PartialEq, Eq, Clone, Copy, Structural)]
pub enum TombstoneKind {
    Sequence,
    OrSet,
}

/// The trace of a removal or deletion.
#[verifier::ext_equal]
pub struct TombstoneView {
    pub timestamp: u64,
    pub kind: TombstoneKind,
    pub key: Seq<char>,
}

/// The state of a room: the node that its store belongs to, the store, the clients in it, the clock of each of them, the
/// removals that may still have to be remembered, and the latest time received.
#[verifier::ext_equal]
pub struct RoomView {
    pub owner: Seq<char>,
    pub store: StoreView,
    pub clients: Set<u64>,
    pub clocks: Map<u64, u64>,
    pub tombstones: Seq<TombstoneView>,
    pub high_watermark: u64,
}

impl RoomView {
    /// Every client has a clock, and no clock is ahead of the latest time received.
    pub open spec fn well_formed(self) -> bool {
        &&& self.clients.subset_of(self.clocks.dom())
        &&& forall|id: u64| #[trigger]
            self.clocks.contains_key(id) ==> self.clocks[id] <= self.high_watermark
    }
}

/// A room with the given store, which belongs to `owner`, and no clients.
pub open spec fn new_room(owner: Seq<char>, store: StoreView) -> RoomView {
    RoomView {
        owner,
        store,
        clients: Set::empty(),
        clocks: Map::empty(),
        tombstones: Seq::empty(),
        high_watermark: 0,
    }
}

/// The room after a client joined.
pub open spec fn joined(room: RoomView, client: u64) -> RoomView {
    RoomView {
        clients: room.clients.insert(client),
        clocks: room.clocks.insert(client, room.high_watermark),
        ..room
    }
}

/// The room after a client left.
pub open spec fn left(room: RoomView, client: u64) -> RoomView {
    RoomView { clients: room.clients.remove(client), clocks: room.clocks.remove(client), ..room }
}

/// The trace that the envelope leaves, if it takes something away.
pub open spec fn tombstone_of(env: EnvelopeView) -> Option<TombstoneView> {
    match env.op {
        StoreOpView::Sequence { key, op } => if op is Delete {
            Some(
                TombstoneView {
                    timestamp: env.timestamp,
                    kind: TombstoneKind::Sequence,
                    key,
                },
            )
        } else {
            None
        },
        StoreOpView::OrSet { key, op } => if op is Remove {
            Some(TombstoneView { timestamp: env.timestamp, kind: TombstoneKind::OrSet, key })
        } else {
            None
        },
        StoreOpView::Register { .. } => None,
    }
}

/// The room after its store received an envelope.
pub open spec fn accepted(room: RoomView, env: EnvelopeView) -> RoomView {
    RoomView {
        store: crate::store_model::received(room.store, env),
        tombstones: match tombstone_of(env) {
            Some(trace) => room.tombstones.push(trace),
            None => room.tombstones,
        },
        ..room
    }
}

/// The room after its store received the envelopes in order.
pub open spec fn accepted_all(room: RoomView, envs: Seq<EnvelopeView>) -> RoomView
    decreases envs.len(),
{
    if envs.len() == 0 {
        room
    } else {
        accepted(accepted_all(room, envs.drop_last()), envs.last())
    }
}

/// The room after a batch whose latest time is `time` came from `client`.
pub open spec fn advanced(room: RoomView, client: u64, time: u64) -> RoomView {
    if time == 0 {
        room
    } else {
        RoomView {
            clocks: room.clocks.insert(
                client,
                rga_model::later(
                    if room.clocks.contains_key(client) {
                        room.clocks[client]
                    } else {
                        0
                    },
                    time,
                ),
            ),
            high_watermark: rga_model::later(room.high_watermark, time),
            ..room
        }
    }
}

/// The room after the envelopes came from `client` and were accepted.
pub open spec fn after_batch(room: RoomView, client: u64, envs: Seq<EnvelopeView>) -> RoomView {
    advanced(accepted_all(room, envs), client, store_laws::latest(envs))
}

/// `time` is the latest time of a removal that every clock has moved past; there is
/// none in a room without clients.
pub open spec fn prunable(room: RoomView, time: u64) -> bool {
    &&& room.clients != Set::<u64>::empty()
    &&& exists|bound: u64|
        {
            &&& #[trigger] id_map::least(room.clocks, bound)
            &&& latest_before(room.tombstones, bound, time)
        }
}

/// `time` is the latest time of a removal before `bound`.
pub open spec fn latest_before(traces: Seq<TombstoneView>, bound: u64, time: u64) -> bool {
    &&& time < bound
    &&& exists|i: int| 0 <= i < traces.len() && (#[trigger] traces[i]).timestamp == time
    &&& forall|i: int|
        0 <= i < traces.len() && (#[trigger] traces[i]).timestamp < bound ==> traces[i].timestamp
            <= time
}

/// The removals after `time`.
pub open spec fn traces_after(traces: Seq<TombstoneView>, time: u64) -> Seq<TombstoneView> {
    traces.filter(|trace: TombstoneView| trace.timestamp > time)
}

/// A point up to which removals may be forgotten lies behind the clock of every
/// client.
pub proof fn law_pruning_waits_for_all(room: RoomView, time: u64, client: u64)
    requires
        prunable(room, time),
        room.clocks.contains_key(client),
    ensures
        time < room.clocks[client],
{
}

/// There is at most one such point.
pub proof fn law_prune_point_is_unique(room: RoomView, a: u64, b: u64)
    requires
        prunable(room, a),
        prunable(room, b),
    ensures
        a == b,
{
    let m = choose|m: u64|
        #[trigger] id_map::least(room.clocks, m) && latest_before(room.tombstones, m, a);
    let n = choose|n: u64|
        #[trigger] id_map::least(room.clocks, n) && latest_before(room.tombstones, n, b);
    let c = choose|id: u64| #[trigger] room.clocks.contains_key(id) && room.clocks[id] == m;
    let d = choose|id: u64| #[trigger] room.clocks.contains_key(id) && room.clocks[id] == n;
    assert(m == n);
    let i = choose|i: int|
        0 <= i < room.tombstones.len() && (#[trigger] room.tombstones[i]).timestamp == a;
    let j = choose|j: int|
        0 <= j < room.tombstones.len() && (#[trigger] room.tombstones[j]).timestamp == b;
    assert(room.tombstones[i].timestamp <= b);
    assert(room.tombstones[j].timestamp <= a);
}

/// A room into which nothing was accepted is as it was.
pub proof fn law_nothing_accepted_changes_nothing(room: RoomView, client: u64)
    ensures
        after_batch(room, client, Seq::empty()) == room,
{
}

/// What a room holds is what its store makes of the accepted envelopes; clients are
/// not mixed up with it.
pub proof fn law_room_store_receives(room: RoomView, client: u64, envs: Seq<EnvelopeView>)
    ensures
        after_batch(room, client, envs).owner == room.owner,
        after_batch(room, client, envs).store == store_laws::received_all(room.store, envs),
        room.well_formed() ==> after_batch(room, client, envs).well_formed(),
    decreases envs.len(),
{
    lemma_accepted_all(room, envs);
    if room.well_formed() {
        let next = after_batch(room, client, envs);
        assert forall|id: u64| #[trigger] next.clocks.contains_key(id) implies next.clocks[id]
            <= next.high_watermark by {
            if room.clocks.contains_key(id) {
                assert(room.clocks[id] <= room.high_watermark);
            }
        }
    }
}

/// Receiving envelopes leaves clients and clocks alone.
pub proof fn lemma_accepted_all(room: RoomView, envs: Seq<EnvelopeView>)
    ensures
        accepted_all(room, envs).store == store_laws::received_all(room.store, envs),
        accepted_all(room, envs).owner == room.owner,
        accepted_all(room, envs).clients == room.clients,
        accepted_all(room, envs).clocks == room.clocks,
        accepted_all(room, envs).high_watermark == room.high_watermark,
    decreases envs.len(),
{
    if envs.len() > 0 {
        lemma_accepted_all(room, envs.drop_last());
    }
}

} // verus!
