//! A register in which the last writer wins.
//!
//! A write carries a logical time and the name of the node that made it.  Of two
//! writes the one with the later time wins; between equal times the name that
//! comes later in dictionary order decides.  So the order in which writes arrive
//! does not matter.

use crate::copies;
use crate::text;
use vstd::prelude::*;

verus! {

/// A write.
#[derive(Debug, PartialEq, Eq)]
pub struct LWWOp<T> {
    /// The value written.
    pub value: T,
    /// Logical time of the write.
    pub timestamp: u64,
    /// The node that made the write.
    pub node_id: String,
}

/// A write as a mathematical object.
#[verifier::ext_equal]
pub struct WriteView<T> {
    pub value: T,
    pub timestamp: u64,
    pub node: Seq<char>,
}

impl<T> View for LWWOp<T> {
    type V = WriteView<T>;

    open spec fn view(&self) -> WriteView<T> {
        WriteView { value: self.value, timestamp: self.timestamp, node: self.node_id@ }
    }
}

/// `copy` is the write `op` with its value cloned.
pub open spec fn cloned_write<T: Clone>(op: WriteView<T>, copy: WriteView<T>) -> bool {
    &&& copy.timestamp == op.timestamp
    &&& copy.node == op.node
    &&& cloned(op.value, copy.value)
}

impl<T: Clone> Clone for LWWOp<T> {
    fn clone(&self) -> (copy: Self)
        ensures
            cloned_write(self@, copy@),
    {
        LWWOp {
            value: self.value.clone(),
            timestamp: self.timestamp,
            node_id: self.node_id.clone(),
        }
    }
}

/// The write `a` loses against the write `b`.
pub open spec fn loses<T>(a: WriteView<T>, b: WriteView<T>) -> bool {
    a.timestamp < b.timestamp || (a.timestamp == b.timestamp && text::text_lt(a.node, b.node))
}

/// `op` is accepted by a register that holds `state`.
pub open spec fn accepts<T>(state: Option<WriteView<T>>, op: WriteView<T>) -> bool {
    match state {
        None => true,
        Some(held) => loses(held, op),
    }
}

/// What a register that holds `state` holds after the write `op`.
pub open spec fn written<T>(state: Option<WriteView<T>>, op: WriteView<T>) -> Option<
    WriteView<T>,
> {
    if accepts(state, op) {
        Some(op)
    } else {
        state
    }
}

/// What a register that holds `state` holds after merging one that holds `other`.
pub open spec fn joined<T>(
    state: Option<WriteView<T>>,
    other: Option<WriteView<T>>,
) -> Option<WriteView<T>> {
    match other {
        None => state,
        Some(op) => written(state, op),
    }
}

/// A register in which the last writer wins.
#[derive(Debug)]
pub struct LWWRegister<T: Clone> {
    node_id: String,
    /// The write that has won so far.
    state: Option<(T, u64, String)>,
}

impl<T: Clone> View for LWWRegister<T> {
    type V = Option<WriteView<T>>;

    closed spec fn view(&self) -> Option<WriteView<T>> {
        match self.state {
            None => None,
            Some((value, timestamp, node)) => Some(WriteView { value, timestamp, node: node@ }),
        }
    }
}

impl<T: Clone> LWWRegister<T> {
    /// The node that owns this replica.
    pub closed spec fn owner(&self) -> Seq<char> {
        self.node_id@
    }

    /// A register that was never written, owned by `node_id`.
    pub fn new(node_id: &str) -> (register: Self)
        ensures
            register@ is None,
            register.owner() == node_id@,
    {
        LWWRegister { node_id: node_id.to_owned(), state: None }
    }

    /// The register of `node_id` that holds the given write.
    pub fn restore(node_id: &str, held: Option<LWWOp<T>>) -> (register: Self)
        ensures
            register.owner() == node_id@,
            register@ == match held {
                Some(op) => Some(op@),
                None => None,
            },
    {
        let state = match held {
            Some(op) => Some((op.value, op.timestamp, op.node_id)),
            None => None,
        };
        LWWRegister { node_id: node_id.to_owned(), state }
    }

    /// The write that has won so far, cloned.
    pub fn held(&self) -> (op: Option<LWWOp<T>>)
        ensures
            match op {
                Some(copy) => self@ is Some && cloned_write(self@->0, copy@),
                None => self@ is None,
            },
    {
        match &self.state {
            Some(held) => Some(
                LWWOp { value: held.0.clone(), timestamp: held.1, node_id: held.2.clone() },
            ),
            None => None,
        }
    }

    /// The current value; `None` if the register was never written.
    pub fn get(&self) -> (value: Option<&T>)
        ensures
            match value {
                Some(v) => self@ is Some && *v == self@->0.value,
                None => self@ is None,
            },
    {
        match &self.state {
            Some(held) => Some(&held.0),
            None => None,
        }
    }

    /// The time of the write that has won so far.
    pub fn timestamp(&self) -> (time: Option<u64>)
        ensures
            time == match self@ {
                Some(held) => Some(held.timestamp),
                None => None,
            },
    {
        match &self.state {
            Some(held) => Some(held.1),
            None => None,
        }
    }

    /// A write of `value` by this node at `timestamp`.  The register itself is not
    /// changed.
    pub fn set(&self, value: T, timestamp: u64) -> (op: LWWOp<T>)
        ensures
            op@ == (WriteView { value, timestamp, node: self.owner() }),
    {
        LWWOp { value, timestamp, node_id: self.node_id.clone() }
    }

    /// Receives a write.  Returns whether it was accepted.
    pub fn apply(&mut self, op: LWWOp<T>) -> (accepted: bool)
        ensures
            accepted == accepts(old(self)@, op@),
            final(self)@ == written(old(self)@, op@),
            final(self).owner() == old(self).owner(),
    {
        let wins = match &self.state {
            None => true,
            Some(held) => op.timestamp > held.1 || (op.timestamp == held.1 && text::text_less(
                held.2.as_str(),
                op.node_id.as_str(),
            )),
        };
        if wins {
            self.state = Some((op.value, op.timestamp, op.node_id));
        }
        wins
    }

    /// Makes a write of `value` at `timestamp` and receives it.  Returns the write,
    /// to be sent to the other replicas.
    pub fn set_and_apply(&mut self, value: T, timestamp: u64) -> (op: LWWOp<T>)
        ensures
            op@ == (WriteView { value, timestamp, node: old(self).owner() }),
            exists|copy: WriteView<T>| #[trigger]
                cloned_write(op@, copy) && final(self)@ == written(old(self)@, copy),
            copies::exact_values::<T>() ==> final(self)@ == written(old(self)@, op@),
            final(self).owner() == old(self).owner(),
    {
        let op = self.set(value, timestamp);
        let copy = op.clone();
        let ghost copied = copy@;
        self.apply(copy);
        assert(cloned_write(op@, copied));
        op
    }

    /// Receives the write that has won so far at `other`.
    pub fn merge(&mut self, other: &LWWRegister<T>)
        ensures
            match other@ {
                None => final(self)@ == old(self)@,
                Some(op) => exists|copy: WriteView<T>| #[trigger]
                    cloned_write(op, copy) && final(self)@ == written(old(self)@, copy),
            },
            copies::exact_values::<T>() ==> final(self)@ == joined(old(self)@, other@),
            final(self).owner() == old(self).owner(),
    {
        match other.held() {
            Some(op) => {
                assert(cloned_write(other@->0, op@));
                self.apply(op);
            },
            None => {},
        }
    }
}

/// `copy` is the state `state` with its value cloned.
pub open spec fn cloned_state<T: Clone>(
    state: Option<WriteView<T>>,
    copy: Option<WriteView<T>>,
) -> bool {
    match (state, copy) {
        (None, None) => true,
        (Some(a), Some(b)) => cloned_write(a, b),
        _ => false,
    }
}

impl<T: Clone> Clone for LWWRegister<T> {
    fn clone(&self) -> (copy: Self)
        ensures
            cloned_state(self@, copy@),
            copies::exact_values::<T>() ==> copy@ == self@,
            copy.owner() == self.owner(),
    {
        let state = match &self.state {
            Some(held) => Some((held.0.clone(), held.1, held.2.clone())),
            None => None,
        };
        LWWRegister { node_id: self.node_id.clone(), state }
    }
}

} // verus!
