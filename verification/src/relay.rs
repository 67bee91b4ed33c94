//! A relay for the envelopes of stores.
//!
//! Clients meet in rooms.  A room has a store of its own, which receives what the
//! clients send, as far as they may send it; the other clients of the room get what
//! was sent.  A removal is remembered until every client has moved past it.

use crate::id_map;
use crate::id_map::IdMap;
use crate::or_set::ORSetOp;
use crate::relay_model;
use crate::relay_model::RoomView;
use crate::relay_model::TombstoneKind;
use crate::relay_model::TombstoneView;
use crate::rga::RGAOp;
use crate::security;
use crate::security::Acl;
use crate::security::KeyRegistry;
use crate::security::SignatureError;
use crate::state_store::Envelope;
use crate::state_store::StateStore;
use crate::state_store::StoreOp;
use crate::store_laws;
use crate::store_model;
use crate::store_model::EnvelopeView;
use crate::str_map::StrMap;
use vstd::prelude::*;

verus! {

/// The blobs in a frame that a client sent; `None` if it is not a frame.
pub uninterp spec fn frame_blobs(frame: Seq<u8>) -> Option<Seq<Seq<u8>>>;

/// The blobs as sequences of bytes.
pub open spec fn blob_views(blobs: Seq<Vec<u8>>) -> Seq<Seq<u8>> {
    blobs.map_values(|blob: Vec<u8>| blob@)
}

/// Reads a frame by `rmp_serde::from_slice` as an array of arrays of bytes.
///
/// Stated is that the outcome depends on the bytes of the frame alone, by the name
/// [`frame_blobs`]; how MessagePack writes such an array is not stated.
#[verifier::external_body]
pub(crate) fn decode_frame(frame: &[u8]) -> (blobs: Option<Vec<Vec<u8>>>)
    ensures
        match blobs {
            Some(b) => frame_blobs(frame@) == Some(blob_views(b@)),
            None => frame_blobs(frame@) is None,
        },
{
    rmp_serde::from_slice::<Vec<Vec<u8>>>(frame).ok()
}

/// The trace of a removal or deletion.
#[derive(Debug)]
pub struct Tombstone {
    pub timestamp: u64,
    pub kind: TombstoneKind,
    pub key: String,
}

impl View for Tombstone {
    type V = TombstoneView;

    open spec fn view(&self) -> TombstoneView {
        TombstoneView { timestamp: self.timestamp, kind: self.kind, key: self.key@ }
    }
}

/// The traces as mathematical values.
pub open spec fn tombstone_views(traces: Seq<Tombstone>) -> Seq<TombstoneView> {
    traces.map_values(|trace: Tombstone| trace@)
}

/// An envelope that a client sent, with the encoding of what is signed (`None` if it
/// could not be encoded).
#[derive(Debug)]
pub struct Submission {
    pub envelope: Envelope,
    pub payload: Option<Vec<u8>>,
}

/// What became of a submission.
#[derive(Debug, PartialEq, Eq, Clone, Copy, Structural)]
pub enum Verdict {
    /// The store of the room received it.
    Accepted,
    /// Its signature was turned down.
    BadSignature(SignatureError),
    /// Its node may not write that name.
    NotAllowed,
}

/// What is to become of a submission.
pub open spec fn verdict(
    registry: Map<Seq<char>, [u8; 32]>,
    acl: Map<Seq<char>, Vec<String>>,
    submission: Submission,
) -> Verdict {
    let env = submission.envelope;
    let signature = if registry.contains_key(env.node_id@) {
        security::signature_verdict(
            registry[env.node_id@]@,
            security::opt_bytes(env.signature),
            security::opt_bytes(submission.payload),
        )
    } else {
        Ok(())
    };
    match signature {
        Err(error) => Verdict::BadSignature(error),
        Ok(_) => if security::may_write(acl, env.node_id@, env@.op.key()) {
            Verdict::Accepted
        } else {
            Verdict::NotAllowed
        },
    }
}

/// What is to become of each submission.
pub open spec fn verdicts(
    registry: Map<Seq<char>, [u8; 32]>,
    acl: Map<Seq<char>, Vec<String>>,
    submissions: Seq<Submission>,
) -> Seq<Verdict> {
    submissions.map_values(|s: Submission| verdict(registry, acl, s))
}

/// The envelopes of the submissions that are accepted.
pub open spec fn admitted(submissions: Seq<Submission>, decisions: Seq<Verdict>) -> Seq<
    EnvelopeView,
>
    decreases submissions.len(),
{
    if submissions.len() == 0 {
        Seq::empty()
    } else {
        let front = admitted(submissions.drop_last(), decisions);
        if decisions[submissions.len() - 1] == Verdict::Accepted {
            front.push(submissions.last().envelope@)
        } else {
            front
        }
    }
}

/// Only the verdicts on the submissions count.
pub proof fn lemma_admitted(submissions: Seq<Submission>, a: Seq<Verdict>, b: Seq<Verdict>)
    requires
        a.len() >= submissions.len(),
        b.len() >= submissions.len(),
        forall|i: int| 0 <= i < submissions.len() ==> a[i] == b[i],
    ensures
        admitted(submissions, a) == admitted(submissions, b),
    decreases submissions.len(),
{
    if submissions.len() > 0 {
        lemma_admitted(submissions.drop_last(), a, b);
    }
}

/// What is to be done after a batch came from a client.
#[derive(Debug)]
pub struct Outcome {
    /// What became of each submission.
    pub verdicts: Vec<Verdict>,
    /// The clients that the batch is to be forwarded to.
    pub peers: Vec<u64>,
    /// The time up to which all clients are to be told to forget removals.
    pub prune: Option<u64>,
}

/// A room.
#[derive(Debug)]
pub struct Room {
    store: StateStore,
    clients: IdMap<()>,
    clocks: IdMap<u64>,
    tombstones: Vec<Tombstone>,
    high_watermark: u64,
}

impl View for Room {
    type V = RoomView;

    closed spec fn view(&self) -> RoomView {
        RoomView {
            owner: self.store.owner(),
            store: self.store@,
            clients: self.clients@.dom(),
            clocks: self.clocks@,
            tombstones: tombstone_views(self.tombstones@),
            high_watermark: self.high_watermark,
        }
    }
}

impl Room {
    /// The store is well formed, every client has a clock, and no clock is ahead of
    /// the latest time received.
    pub closed spec fn well_formed(&self) -> bool {
        &&& self.store.well_formed()
        &&& self.clients.well_formed()
        &&& self.clocks.well_formed()
        &&& self@.well_formed()
    }

    /// A room with the given store and no clients.
    pub fn new(store: StateStore) -> (room: Self)
        requires
            store.well_formed(),
        ensures
            room.well_formed(),
            room@ == relay_model::new_room(store.owner(), store@),
    {
        let room = Room {
            store,
            clients: IdMap::new(),
            clocks: IdMap::new(),
            tombstones: Vec::new(),
            high_watermark: 0,
        };
        assert(room@.clients =~= Set::empty());
        assert(room@.tombstones =~= Seq::empty());
        room
    }

    /// The store.
    pub fn store(&self) -> (store: &StateStore)
        requires
            self.well_formed(),
        ensures
            store.well_formed(),
            store@ == self@.store,
            store.owner() == self@.owner,
    {
        &self.store
    }

    /// The number of clients.
    pub fn client_count(&self) -> (n: usize)
        requires
            self.well_formed(),
        ensures
            self@.clients.finite(),
            n == self@.clients.len(),
    {
        self.clients.len()
    }

    /// Whether `client` is in the room.
    pub fn has_client(&self, client: u64) -> (present: bool)
        requires
            self.well_formed(),
        ensures
            present == self@.clients.contains(client),
    {
        self.clients.get(client).is_some()
    }

    /// Lets a client in.  Its clock starts at the latest time received.
    pub fn join(&mut self, client: u64)
        requires
            old(self).well_formed(),
        ensures
            final(self).well_formed(),
            final(self)@ == relay_model::joined(old(self)@, client),
    {
        self.clients.insert(client, ());
        self.clocks.insert(client, self.high_watermark);
        proof {
            assert(self@.clients =~= old(self)@.clients.insert(client));
            assert forall|id: u64| #[trigger] self@.clocks.contains_key(id) implies
                self@.clocks[id] <= self@.high_watermark by {
                if old(self)@.clocks.contains_key(id) {
                    assert(old(self)@.clocks[id] <= old(self)@.high_watermark);
                }
            }
        }
    }

    /// Lets a client out.
    pub fn leave(&mut self, client: u64)
        requires
            old(self).well_formed(),
        ensures
            final(self).well_formed(),
            final(self)@ == relay_model::left(old(self)@, client),
    {
        self.clients.remove(client);
        self.clocks.remove(client);
        proof {
            assert(self@.clients =~= old(self)@.clients.remove(client));
            assert forall|id: u64| #[trigger] self@.clocks.contains_key(id) implies
                self@.clocks[id] <= self@.high_watermark by {
                assert(old(self)@.clocks.contains_key(id));
            }
        }
    }

    /// Lets the store receive an envelope, and remembers it if it takes something
    /// away.
    fn accept(&mut self, env: Envelope)
        requires
            old(self).well_formed(),
        ensures
            final(self).well_formed(),
            final(self)@ == relay_model::accepted(old(self)@, env@),
    {
        let kind = match &env.op {
            StoreOp::Sequence { op, .. } => match op {
                RGAOp::Delete { .. } => Some(TombstoneKind::Sequence),
                RGAOp::Insert { .. } => None,
            },
            StoreOp::OrSet { op, .. } => match op {
                ORSetOp::Remove { .. } => Some(TombstoneKind::OrSet),
                ORSetOp::Add { .. } => None,
            },
            StoreOp::Register { .. } => None,
        };
        let ghost before = self@.tombstones;
        match kind {
            Some(kind) => {
                let key = security::envelope_key(&env).to_owned();
                self.tombstones.push(Tombstone { timestamp: env.timestamp, kind, key });
                assert(self@.tombstones =~= before.push(relay_model::tombstone_of(env@)->0));
            },
            None => {},
        }
        self.store.apply_envelope(env);
        proof {
            assert forall|id: u64| #[trigger] self@.clocks.contains_key(id) implies
                self@.clocks[id] <= self@.high_watermark by {
                assert(old(self)@.clocks.contains_key(id));
            }
        }
    }

    /// Receives a batch of submissions from a client: those that are signed and
    /// allowed as they must be are accepted, in order.
    pub fn receive(
        &mut self,
        client: u64,
        submissions: Vec<Submission>,
        registry: &KeyRegistry,
        acl: &Acl,
    ) -> (outcome: Outcome)
        requires
            old(self).well_formed(),
        ensures
            final(self).well_formed(),
            outcome.verdicts@ == verdicts(registry@, acl@, submissions@),
            outcome.peers@.no_duplicates(),
            outcome.peers@.to_set() == old(self)@.clients.remove(client),
            ({
                let room = relay_model::after_batch(
                    old(self)@,
                    client,
                    admitted(submissions@, outcome.verdicts@),
                );
                match outcome.prune {
                    Some(time) => {
                        &&& relay_model::prunable(room, time)
                        &&& final(self)@ == (RoomView {
                            tombstones: relay_model::traces_after(room.tombstones, time),
                            ..room
                        })
                    },
                    None => {
                        &&& forall|time: u64| !relay_model::prunable(room, time)
                        &&& final(self)@ == room
                    },
                }
            }),
    {
        let ghost all = submissions@;
        let ghost start = self@;
        let peers = self.clients.others(client);
        let mut verdicts: Vec<Verdict> = Vec::new();
        let mut latest: u64 = 0;
        assert(all.take(0) =~= Seq::<Submission>::empty());
        for submission in it: submissions
            invariant
                it.seq() == all,
                self.well_formed(),
                verdicts@.len() == it.index(),
                forall|i: int|
                    0 <= i < it.index() ==> verdicts@[i] == verdict(
                        registry@,
                        acl@,
                        #[trigger] all[i],
                    ),
                self@ == relay_model::accepted_all(
                    start,
                    admitted(all.take(it.index()), verdicts@),
                ),
                latest == store_laws::latest(admitted(all.take(it.index()), verdicts@)),
        {
            let ghost k = it.index();
            let ghost less = all.take(k);
            let ghost more = all.take(k + 1);
            let ghost before = verdicts@;
            let ghost envs = admitted(less, before);
            let env = submission.envelope;
            let decision = match security::verify_envelope_signature(
                registry,
                &env,
                &submission.payload,
            ) {
                Err(error) => Verdict::BadSignature(error),
                Ok(_) => {
                    if security::acl_allows(
                        acl,
                        env.node_id.as_str(),
                        security::envelope_key(&env),
                    ) {
                        Verdict::Accepted
                    } else {
                        Verdict::NotAllowed
                    }
                },
            };
            assert(decision == verdict(registry@, acl@, all[k]));
            verdicts.push(decision);
            proof {
                assert(more.drop_last() =~= less);
                assert(more.last() == all[k]);
                lemma_admitted(less, before, verdicts@);
            }
            match decision {
                Verdict::Accepted => {
                    if env.timestamp > latest {
                        latest = env.timestamp;
                    }
                    let ghost e = env@;
                    self.accept(env);
                    assert(envs.push(e).drop_last() =~= envs);
                    assert(admitted(more, verdicts@) == envs.push(e));
                },
                Verdict::BadSignature(_) => {},
                Verdict::NotAllowed => {},
            }
        }
        assert(all.take(all.len() as int) =~= all);
        assert(verdicts@ =~= self::verdicts(registry@, acl@, all));
        self.advance(client, latest);
        let prune = self.check_and_prune();
        Outcome { verdicts, peers, prune }
    }

    /// Moves the clock of `client`, and the latest time received, up to `time`.
    fn advance(&mut self, client: u64, time: u64)
        requires
            old(self).well_formed(),
        ensures
            final(self).well_formed(),
            final(self)@ == relay_model::advanced(old(self)@, client, time),
    {
        if time > 0 {
            let current: u64 = match self.clocks.get(client) {
                Some(t) => *t,
                None => 0,
            };
            let next: u64 = if current < time {
                time
            } else {
                current
            };
            self.clocks.insert(client, next);
            if time > self.high_watermark {
                self.high_watermark = time;
            }
            proof {
                assert forall|id: u64| #[trigger] self@.clocks.contains_key(id) implies
                    self@.clocks[id] <= self@.high_watermark by {
                    if old(self)@.clocks.contains_key(id) {
                        assert(old(self)@.clocks[id] <= old(self)@.high_watermark);
                    }
                }
            }
        }
    }

    /// The latest time of a removal before `bound`.
    fn latest_tombstone_before(&self, bound: u64) -> (time: Option<u64>)
        ensures
            match time {
                Some(t) => relay_model::latest_before(self@.tombstones, bound, t),
                None => forall|i: int|
                    0 <= i < self@.tombstones.len() ==> (
                    #[trigger] self@.tombstones[i]).timestamp >= bound,
            },
    {
        let mut latest: Option<u64> = None;
        let mut i: usize = 0;
        while i < self.tombstones.len()
            invariant
                i <= self.tombstones.len(),
                match latest {
                    Some(t) => {
                        &&& t < bound
                        &&& exists|j: int|
                            0 <= j < i && (#[trigger] self@.tombstones[j]).timestamp == t
                        &&& forall|j: int|
                            0 <= j < i && (#[trigger] self@.tombstones[j]).timestamp < bound
                                ==> self@.tombstones[j].timestamp <= t
                    },
                    None => forall|j: int|
                        0 <= j < i ==> (#[trigger] self@.tombstones[j]).timestamp >= bound,
                },
            decreases self.tombstones.len() - i,
        {
            let time: u64 = self.tombstones[i].timestamp;
            assert(self@.tombstones[i as int].timestamp == time);
            if time < bound {
                latest = match latest {
                    None => Some(time),
                    Some(t) => if t < time {
                        Some(time)
                    } else {
                        Some(t)
                    },
                };
            }
            i += 1;
        }
        latest
    }

    /// Finds the time up to which removals can be forgotten, because every client has
    /// moved past it, and forgets them; `None` if there are none.
    pub fn check_and_prune(&mut self) -> (prune: Option<u64>)
        requires
            old(self).well_formed(),
        ensures
            final(self).well_formed(),
            match prune {
                Some(time) => {
                    &&& relay_model::prunable(old(self)@, time)
                    &&& final(self)@ == (RoomView {
                        tombstones: relay_model::traces_after(old(self)@.tombstones, time),
                        ..old(self)@
                    })
                },
                None => {
                    &&& forall|time: u64| !relay_model::prunable(old(self)@, time)
                    &&& final(self)@ == old(self)@
                },
            },
    {
        if self.clients.len() == 0 {
            proof {
                self@.clients.lemma_len0_is_empty();
            }
            return None;
        }
        let bound: u64 = match self.clocks.min() {
            Some(time) => time,
            None => {
                return None;
            },
        };
        proof {
            assert forall|other: u64| #[trigger]
                id_map::least(self@.clocks, other) implies other == bound by {
                let a = choose|id: u64| #[trigger]
                    self@.clocks.contains_key(id) && self@.clocks[id] == bound;
                let b = choose|id: u64| #[trigger]
                    self@.clocks.contains_key(id) && self@.clocks[id] == other;
                assert(self@.clocks[b] >= bound);
                assert(self@.clocks[a] >= other);
            }
        }
        let time: u64 = match self.latest_tombstone_before(bound) {
            Some(time) => time,
            None => {
                return None;
            },
        };
        let mut traces: Vec<Tombstone> = Vec::new();
        std::mem::swap(&mut traces, &mut self.tombstones);
        let ghost all = traces@;
        assert(tombstone_views(all).take(0) =~= Seq::empty());
        assert(self@.tombstones =~= Seq::empty());
        proof {
            reveal(Seq::filter);
        }
        for trace in it: traces
            invariant
                it.seq() == all,
                self.store == old(self).store,
                self.clients == old(self).clients,
                self.clocks == old(self).clocks,
                self.high_watermark == old(self).high_watermark,
                self@.tombstones == relay_model::traces_after(
                    tombstone_views(all).take(it.index()),
                    time,
                ),
        {
            let ghost kept = self@.tombstones;
            proof {
                reveal(Seq::filter);
                let k = it.index();
                assert(tombstone_views(all).take(k + 1).drop_last() =~= tombstone_views(all).take(
                    k,
                ));
            }
            if trace.timestamp > time {
                self.tombstones.push(trace);
                assert(self@.tombstones =~= kept.push(trace@));
            }
        }
        proof {
            assert(tombstone_views(all).take(all.len() as int) =~= tombstone_views(all));
            assert forall|id: u64| #[trigger] self@.clocks.contains_key(id) implies
                self@.clocks[id] <= self@.high_watermark by {
                assert(old(self)@.clocks.contains_key(id));
            }
        }
        Some(time)
    }
}

/// The rooms of a relay, by name.
#[derive(Debug)]
pub struct Rooms {
    rooms: StrMap<Room>,
}

/// The rooms as mathematical values.
pub open spec fn room_views(rooms: Map<Seq<char>, Room>) -> Map<Seq<char>, RoomView> {
    rooms.map_values(|room: Room| room@)
}

impl View for Rooms {
    type V = Map<Seq<char>, RoomView>;

    closed spec fn view(&self) -> Map<Seq<char>, RoomView> {
        room_views(self.rooms@)
    }
}

/// All rooms are well formed.
pub open spec fn rooms_ok(rooms: Map<Seq<char>, Room>) -> bool {
    forall|name: Seq<char>| #[trigger] rooms.contains_key(name) ==> rooms[name].well_formed()
}

/// The room `name` is the same before and after, or missing before and after.
pub open spec fn untouched(
    before: Map<Seq<char>, RoomView>,
    after: Map<Seq<char>, RoomView>,
    name: Seq<char>,
) -> bool {
    &&& before.contains_key(name) <==> after.contains_key(name)
    &&& before.contains_key(name) ==> before[name] == after[name]
}

impl Rooms {
    /// All rooms are well formed.
    pub closed spec fn well_formed(&self) -> bool {
        self.rooms.well_formed() && rooms_ok(self.rooms@)
    }

    /// A relay without rooms.
    pub fn new() -> (rooms: Self)
        ensures
            rooms.well_formed(),
            rooms@ == Map::<Seq<char>, RoomView>::empty(),
    {
        let rooms = Rooms { rooms: StrMap::new() };
        assert(rooms@ =~= Map::<Seq<char>, RoomView>::empty());
        rooms
    }

    /// The rooms by name.
    pub fn rooms(&self) -> (rooms: &StrMap<Room>)
        requires
            self.well_formed(),
        ensures
            rooms.well_formed(),
            rooms_ok(rooms@),
            room_views(rooms@) == self@,
    {
        &self.rooms
    }

    /// The room `name`.
    pub fn get(&self, name: &str) -> (room: Option<&Room>)
        requires
            self.well_formed(),
        ensures
            match room {
                Some(r) => self@.contains_key(name@) && r.well_formed() && r@ == self@[name@],
                None => !self@.contains_key(name@),
            },
    {
        self.rooms.get(name)
    }

    /// Lets a client into the room `name`.  If there is no such room yet, it is made,
    /// with `saved` for its store, or else an empty one that belongs to the server.
    pub fn join(&mut self, name: &str, saved: Option<StateStore>, client: u64)
        requires
            old(self).well_formed(),
            saved matches Some(store) ==> store.well_formed(),
        ensures
            final(self).well_formed(),
            final(self)@ == old(self)@.insert(
                name@,
                relay_model::joined(
                    if old(self)@.contains_key(name@) {
                        old(self)@[name@]
                    } else {
                        match saved {
                            Some(store) => relay_model::new_room(store.owner(), store@),
                            None => relay_model::new_room(
                                "server"@,
                                store_model::empty_store(),
                            ),
                        }
                    },
                    client,
                ),
            ),
            forall|other: Seq<char>|
                other != name@ ==> #[trigger] untouched(old(self)@, final(self)@, other),
    {
        let store = match saved {
            Some(store) => store,
            None => StateStore::new("server"),
        };
        let fresh = Room::new(store);
        let room = self.rooms.entry(name, fresh);
        room.join(client);
        assert(self@ =~= old(self)@.insert(name@, self@[name@]));
    }

    /// Lets a client out of the room `name`.  A room that nobody is left in is dropped.
    pub fn leave(&mut self, name: &str, client: u64)
        requires
            old(self).well_formed(),
        ensures
            final(self).well_formed(),
            final(self)@ == if !old(self)@.contains_key(name@) {
                old(self)@
            } else {
                let room = relay_model::left(old(self)@[name@], client);
                if room.clients == Set::<u64>::empty() {
                    old(self)@.remove(name@)
                } else {
                    old(self)@.insert(name@, room)
                }
            },
            forall|other: Seq<char>|
                other != name@ ==> #[trigger] untouched(old(self)@, final(self)@, other),
    {
        let mut empty = false;
        match self.rooms.get_mut(name) {
            None => {
                return ;
            },
            Some(room) => {
                room.leave(client);
                empty = room.client_count() == 0;
                proof {
                    let clients = room@.clients;
                    if empty {
                        assert(clients =~= Set::<u64>::empty()) by {
                            clients.lemma_len0_is_empty();
                        }
                    }
                }
            },
        }
        assert(self@ =~= old(self)@.insert(
            name@,
            relay_model::left(old(self)@[name@], client),
        ));
        if empty {
            self.rooms.remove(name);
            assert(self@ =~= old(self)@.remove(name@));
        }
    }

    /// Receives a batch of submissions from a client in the room `name`; `None` if
    /// there is no such room.
    pub fn receive(
        &mut self,
        name: &str,
        client: u64,
        submissions: Vec<Submission>,
        registry: &KeyRegistry,
        acl: &Acl,
    ) -> (outcome: Option<Outcome>)
        requires
            old(self).well_formed(),
        ensures
            final(self).well_formed(),
            match outcome {
                None => !old(self)@.contains_key(name@) && final(self)@ == old(self)@,
                Some(o) => {
                    let before = old(self)@[name@];
                    let room = relay_model::after_batch(
                        before,
                        client,
                        admitted(submissions@, o.verdicts@),
                    );
                    &&& old(self)@.contains_key(name@)
                    &&& o.verdicts@ == verdicts(registry@, acl@, submissions@)
                    &&& o.peers@.no_duplicates()
                    &&& o.peers@.to_set() == before.clients.remove(client)
                    &&& match o.prune {
                        Some(time) => {
                            &&& relay_model::prunable(room, time)
                            &&& final(self)@ == old(self)@.insert(
                                name@,
                                RoomView {
                                    tombstones: relay_model::traces_after(
                                        room.tombstones,
                                        time,
                                    ),
                                    ..room
                                },
                            )
                        },
                        None => {
                            &&& forall|time: u64| !relay_model::prunable(room, time)
                            &&& final(self)@ == old(self)@.insert(name@, room)
                        },
                    }
                },
            },
            forall|other: Seq<char>|
                other != name@ ==> #[trigger] untouched(old(self)@, final(self)@, other),
    {
        match self.rooms.get_mut(name) {
            None => None,
            Some(room) => {
                let outcome = room.receive(client, submissions, registry, acl);
                assert(self@ =~= old(self)@.insert(name@, self@[name@]));
                Some(outcome)
            },
        }
    }
}

/// A batch of which nothing is accepted leaves the room as it was.
pub proof fn law_refused_submissions_have_no_effect(
    room: RoomView,
    client: u64,
    submissions: Seq<Submission>,
    decisions: Seq<Verdict>,
)
    requires
        decisions.len() == submissions.len(),
        forall|i: int| 0 <= i < decisions.len() ==> (#[trigger] decisions[i]) != Verdict::Accepted,
    ensures
        relay_model::after_batch(room, client, admitted(submissions, decisions)) == room,
{
    lemma_nothing_admitted(submissions, decisions);
    relay_model::law_nothing_accepted_changes_nothing(room, client);
}

proof fn lemma_nothing_admitted(submissions: Seq<Submission>, decisions: Seq<Verdict>)
    requires
        decisions.len() >= submissions.len(),
        forall|i: int|
            0 <= i < submissions.len() ==> (#[trigger] decisions[i]) != Verdict::Accepted,
    ensures
        admitted(submissions, decisions) == Seq::<EnvelopeView>::empty(),
    decreases submissions.len(),
{
    if submissions.len() > 0 {
        lemma_nothing_admitted(submissions.drop_last(), decisions);
    }
}

/// What is accepted from a node with a key is signed under that key, and what is
/// accepted from a node with an access list is about a name on the list.
pub proof fn law_accepted_submissions_are_permitted(
    registry: Map<Seq<char>, [u8; 32]>,
    acl: Map<Seq<char>, Vec<String>>,
    submission: Submission,
)
    requires
        verdict(registry, acl, submission) == Verdict::Accepted,
    ensures
        ({
            let env = submission.envelope;
            &&& registry.contains_key(env.node_id@) ==> {
                &&& env.signature is Some
                &&& submission.payload is Some
                &&& security::signature_verifies(
                    registry[env.node_id@]@,
                    submission.payload->0@,
                    env.signature->0@,
                )
            }
            &&& acl.contains_key(env.node_id@) ==> security::matches_prefix(
                acl[env.node_id@]@,
                env@.op.key(),
            )
        }),
{
}

/// What comes from a node with neither a key nor an access list is accepted.
pub proof fn law_other_nodes_are_trusted(
    registry: Map<Seq<char>, [u8; 32]>,
    acl: Map<Seq<char>, Vec<String>>,
    submission: Submission,
)
    requires
        !registry.contains_key(submission.envelope.node_id@),
        !acl.contains_key(submission.envelope.node_id@),
    ensures
        verdict(registry, acl, submission) == Verdict::Accepted,
{
}

/// Reads a frame that a client sent: the blobs in it, `None` if it is not a frame.
pub fn read_frame(frame: &Vec<u8>) -> (blobs: Option<Vec<Vec<u8>>>)
    ensures
        match blobs {
            Some(b) => frame_blobs(frame@) == Some(blob_views(b@)),
            None => frame_blobs(frame@) is None,
        },
{
    decode_frame(frame.as_slice())
}

} // verus!
