//! The identifier generator.
//!
//! A generator owns a node number and remembers the timestamp and the
//! sequence number of the last identifier it issued. Each identifier holds
//! the clock reading under which it was issued, so a generator can only
//! issue one when the clock has not fallen behind its last timestamp and,
//! within one millisecond, while sequence numbers are left.
//!
//! The policy for a clock that has fallen back, and for a millisecond whose
//! sequence numbers are used up, is to wait and then to fail:
//! [`IdGenerator::next`] reads the clock again, up to a number of times set
//! at construction, and reports the last failure when none of the readings
//! would do. With no retries it fails at once. It never reuses a timestamp
//! and never issues an identifier out of order.
//!
//! A generator is changed through `&mut`, so one generator serves one caller
//! at a time; a program that shares one among threads keeps it behind a lock.

use crate::clock::unix_millis;
use crate::identifier::{
    node_of, pack, pack_fields, sequence_of, timestamp_of, unix_millis_of, Identifier,
    EPOCH_UNIX_MILLIS, NODE_LIMIT, SEQUENCE_LIMIT, TIMESTAMP_LIMIT,
};
use vstd::prelude::*;

verus! {

/// Why no identifier was issued.
#[derive(Debug, Clone, Copy, PartialEq, Eq, Structural)]
pub enum IdError {
    /// The clock reads earlier than the timestamp of the last identifier
    /// (or earlier than the library's epoch).
    ClockRegression,
    /// The sequence numbers of the current millisecond are used up and the
    /// clock has not moved on. Trying again later helps.
    GenerationStalled,
    /// The clock reads past the last millisecond that the timestamp field can hold.
    TimestampOverflow,
}

/// How many further clock readings [`IdGenerator::next`] makes by default
/// before it gives up. On common hardware this comes to a few milliseconds.
pub const DEFAULT_RETRIES: u32 = 100_000;

/// What a generator remembers, as numbers.
pub ghost struct GeneratorState {
    /// The node number that every identifier of this generator carries.
    pub node: nat,
    /// The timestamp of the last identifier issued, in milliseconds since
    /// the library's epoch; 0 before the first one.
    pub last_timestamp: nat,
    /// The sequence number that the next identifier takes if it is issued
    /// under `last_timestamp`. It equals the limit when none is left.
    pub next_sequence: nat,
    /// How many times `next` reads the clock again before it gives up.
    pub retries: nat,
}

impl GeneratorState {
    /// Whether the fields are within their ranges.
    pub open spec fn wf(self) -> bool {
        &&& self.node < NODE_LIMIT
        &&& self.last_timestamp < TIMESTAMP_LIMIT
        &&& self.next_sequence <= SEQUENCE_LIMIT
    }

    /// The state of a generator that has issued nothing yet.
    pub open spec fn fresh(node: nat, retries: nat) -> Self {
        GeneratorState { node, last_timestamp: 0, next_sequence: 0, retries }
    }

    /// The least number that an identifier issued from this state on can
    /// be. Every identifier issued before is below it.
    pub open spec fn horizon(self) -> nat {
        pack(self.last_timestamp, self.node, self.next_sequence)
    }

    /// What a request made in this state under the clock reading `now`
    /// (milliseconds since the Unix epoch) comes to: the identifier that
    /// holds the reading, the node and the next sequence number of that
    /// millisecond, or the reason why there is none.
    pub open spec fn verdict(self, now: int) -> Result<Identifier, IdError> {
        let elapsed = now - EPOCH_UNIX_MILLIS;
        if elapsed < self.last_timestamp {
            Err(IdError::ClockRegression)
        } else if elapsed >= TIMESTAMP_LIMIT {
            Err(IdError::TimestampOverflow)
        } else if elapsed > self.last_timestamp {
            Ok(pack(elapsed as nat, self.node, 0) as Identifier)
        } else if self.next_sequence < SEQUENCE_LIMIT {
            Ok(pack(elapsed as nat, self.node, self.next_sequence) as Identifier)
        } else {
            Err(IdError::GenerationStalled)
        }
    }

    /// The state after that request. A request that fails changes nothing.
    pub open spec fn after(self, now: int) -> Self {
        let elapsed = now - EPOCH_UNIX_MILLIS;
        if self.verdict(now) is Err {
            self
        } else if elapsed > self.last_timestamp {
            GeneratorState { last_timestamp: elapsed as nat, next_sequence: 1, ..self }
        } else {
            GeneratorState { next_sequence: self.next_sequence + 1, ..self }
        }
    }
}

/// A source of unique, growing identifiers for one node.
pub struct IdGenerator {
    node: u64,
    last_timestamp: u64,
    next_sequence: u64,
    retries: u32,
}

impl View for IdGenerator {
    type V = GeneratorState;

    closed spec fn view(&self) -> GeneratorState {
        GeneratorState {
            node: self.node as nat,
            last_timestamp: self.last_timestamp as nat,
            next_sequence: self.next_sequence as nat,
            retries: self.retries as nat,
        }
    }
}

impl IdGenerator {
    #[verifier::type_invariant]
    spec fn in_range(&self) -> bool {
        self@.wf()
    }

    /// A generator for the node `node` that has issued nothing yet, with the
    /// default number of retries. There is none for a node number that does
    /// not fit the node field.
    pub fn new(node: u64) -> (generator: Option<Self>)
        ensures
            generator is Some <==> node < NODE_LIMIT,
            generator matches Some(g) ==> g@ == GeneratorState::fresh(
                node as nat,
                DEFAULT_RETRIES as nat,
            ) && g@.wf(),
    {
        if node < NODE_LIMIT {
            Some(IdGenerator { node, last_timestamp: 0, next_sequence: 0, retries: DEFAULT_RETRIES })
        } else {
            None
        }
    }

    /// The same generator with another number of retries. With 0 retries
    /// `next` fails as soon as one clock reading does not do.
    pub fn with_retries(self, retries: u32) -> (generator: Self)
        ensures
            generator@ == (GeneratorState { retries: retries as nat, ..self@ }),
            generator@.wf(),
    {
        proof {
            use_type_invariant(&self);
        }
        IdGenerator {
            node: self.node,
            last_timestamp: self.last_timestamp,
            next_sequence: self.next_sequence,
            retries,
        }
    }

    /// The node number of this generator.
    pub fn node(&self) -> (node: u64)
        ensures
            node == self@.node,
            node < NODE_LIMIT,
    {
        proof {
            use_type_invariant(self);
        }
        self.node
    }

    /// How many times `next` reads the clock again before it gives up.
    pub fn retries(&self) -> (retries: u32)
        ensures
            retries == self@.retries,
    {
        self.retries
    }

    /// Issues the identifier for the clock reading `now`, in milliseconds
    /// since the Unix epoch, or says why that reading allows none. The
    /// generator moves on only when an identifier is issued.
    pub fn next_at(&mut self, now: i64) -> (outcome: Result<Identifier, IdError>)
        ensures
            outcome == old(self)@.verdict(now as int),
            final(self)@ == old(self)@.after(now as int),
            final(self)@.wf(),
    {
        proof {
            use_type_invariant(&*self);
        }
        if now < EPOCH_UNIX_MILLIS {
            return Err(IdError::ClockRegression);
        }
        let elapsed: u64 = (now - EPOCH_UNIX_MILLIS) as u64;
        if elapsed < self.last_timestamp {
            Err(IdError::ClockRegression)
        } else if elapsed >= TIMESTAMP_LIMIT {
            Err(IdError::TimestampOverflow)
        } else if elapsed > self.last_timestamp {
            let id: Identifier = pack_fields(elapsed, self.node, 0);
            *self = IdGenerator {
                node: self.node,
                last_timestamp: elapsed,
                next_sequence: 1,
                retries: self.retries,
            };
            Ok(id)
        } else if self.next_sequence < SEQUENCE_LIMIT {
            let id: Identifier = pack_fields(elapsed, self.node, self.next_sequence);
            self.next_sequence = self.next_sequence + 1;
            Ok(id)
        } else {
            Err(IdError::GenerationStalled)
        }
    }

    /// Issues a fresh identifier under the system clock.
    ///
    /// The call reads the clock and asks [`Self::next_at`]. Where the clock
    /// has fallen back or the millisecond is used up, it reads the clock
    /// again, as often as the generator has retries, and then reports the
    /// failure of the last reading. A clock past the range of the timestamp
    /// field fails at once. Whatever the clock did, the outcome is that of
    /// `next_at` under one of the readings: an identifier is above all that
    /// this generator issued before, and a failure leaves the generator as
    /// it was.
    pub fn next(&mut self) -> (outcome: Result<Identifier, IdError>)
        ensures
            exists|now: int|
                outcome == #[trigger] old(self)@.verdict(now) && final(self)@ == old(self)@.after(
                    now,
                ),
            outcome matches Ok(id) ==> old(self)@.horizon() <= id < final(self)@.horizon()
                && node_of(id) == old(self)@.node,
            outcome is Err ==> final(self)@ == old(self)@,
            final(self)@.wf(),
    {
        proof {
            use_type_invariant(&*self);
        }
        let mut left: u32 = self.retries;
        loop
            invariant
                self@ == old(self)@,
                self@.wf(),
            decreases left,
        {
            let now: i64 = unix_millis();
            let ghost before = self@;
            match self.next_at(now) {
                Ok(id) => {
                    proof {
                        lemma_issue(before, now as int);
                    }
                    return Ok(id);
                },
                Err(IdError::TimestampOverflow) => {
                    return Err(IdError::TimestampOverflow);
                },
                Err(e) => {
                    if left == 0 {
                        return Err(e);
                    }
                    left = left - 1;
                },
            }
        }
    }
}

/// One request, step by step. An identifier that is issued holds the clock
/// reading it was issued under, to the millisecond, and the node of its
/// generator; it is not below the horizon of the state before and lies just
/// below the horizon of the state after. A request that fails changes nothing.
pub proof fn lemma_issue(state: GeneratorState, now: int)
    requires
        state.wf(),
    ensures
        state.after(now).wf(),
        state.after(now).node == state.node,
        state.after(now).retries == state.retries,
        state.horizon() <= state.after(now).horizon() <= u64::MAX + 1,
        state.verdict(now) is Err ==> state.after(now) == state,
        state.verdict(now) matches Ok(id) ==> {
            &&& unix_millis_of(id) == now
            &&& node_of(id) == state.node
            &&& state.horizon() <= id
            &&& state.after(now).horizon() == id + 1
            &&& id == pack(timestamp_of(id), node_of(id), sequence_of(id))
        },
{
}

/// The identifiers that a generator in the state `state` issues when it is
/// asked once under each clock reading of `clock`, in that order. A request
/// that fails issues nothing.
pub open spec fn issued(state: GeneratorState, clock: Seq<int>) -> Seq<Identifier>
    decreases clock.len(),
{
    if clock.len() == 0 {
        Seq::empty()
    } else {
        let rest = issued(state.after(clock[0]), clock.drop_first());
        match state.verdict(clock[0]) {
            Ok(id) => seq![id] + rest,
            Err(_) => rest,
        }
    }
}

/// Whatever the clock does, the identifiers of one generator carry its node
/// number and none is below the horizon of the state they start from.
pub proof fn lemma_issued_above_horizon(state: GeneratorState, clock: Seq<int>)
    requires
        state.wf(),
    ensures
        forall|i: int|
            0 <= i < issued(state, clock).len() ==> {
                &&& state.horizon() <= #[trigger] issued(state, clock)[i]
                &&& node_of(issued(state, clock)[i]) == state.node
            },
    decreases clock.len(),
{
    if clock.len() > 0 {
        let next = state.after(clock[0]);
        let rest = issued(next, clock.drop_first());
        lemma_issue(state, clock[0]);
        lemma_issued_above_horizon(next, clock.drop_first());
        assert forall|i: int| 0 <= i < issued(state, clock).len() implies {
            &&& state.horizon() <= #[trigger] issued(state, clock)[i]
            &&& node_of(issued(state, clock)[i]) == state.node
        } by {
            match state.verdict(clock[0]) {
                Ok(id) => {
                    if i > 0 {
                        assert(issued(state, clock)[i] == rest[i - 1]);
                    }
                },
                Err(_) => {
                    assert(issued(state, clock)[i] == rest[i]);
                },
            }
        }
    }
}

/// Monotonicity. Whatever the clock does, each identifier that a generator
/// issues is greater than every identifier it issued before.
pub proof fn lemma_issued_increases(state: GeneratorState, clock: Seq<int>)
    requires
        state.wf(),
    ensures
        forall|i: int, j: int|
            0 <= i < j < issued(state, clock).len() ==> issued(state, clock)[i] < issued(
                state,
                clock,
            )[j],
    decreases clock.len(),
{
    if clock.len() > 0 {
        let next = state.after(clock[0]);
        let rest = issued(next, clock.drop_first());
        let all = issued(state, clock);
        lemma_issue(state, clock[0]);
        lemma_issued_increases(next, clock.drop_first());
        lemma_issued_above_horizon(next, clock.drop_first());
        assert forall|i: int, j: int| 0 <= i < j < all.len() implies all[i] < all[j] by {
            match state.verdict(clock[0]) {
                Ok(id) => {
                    assert(all[j] == rest[j - 1]);
                    if i > 0 {
                        assert(all[i] == rest[i - 1]);
                    }
                },
                Err(_) => {
                    assert(all[i] == rest[i] && all[j] == rest[j]);
                },
            }
        }
    }
}

/// Uniqueness within one generator. Whatever the clock does, no two of the
/// identifiers that a generator issues are equal.
pub proof fn lemma_issued_distinct(state: GeneratorState, clock: Seq<int>)
    requires
        state.wf(),
    ensures
        issued(state, clock).no_duplicates(),
{
    lemma_issued_increases(state, clock);
    let all = issued(state, clock);
    assert forall|i: int, j: int| 0 <= i < all.len() && 0 <= j < all.len() && i != j implies all[i]
        != all[j] by {
        if i < j {
            assert(all[i] < all[j]);
        } else {
            assert(all[j] < all[i]);
        }
    }
}

/// Uniqueness across generators. Two generators with different node
/// numbers never issue the same identifier, whatever their clocks do and
/// without any word between them.
pub proof fn lemma_nodes_never_collide(
    one: GeneratorState,
    one_clock: Seq<int>,
    other: GeneratorState,
    other_clock: Seq<int>,
)
    requires
        one.wf(),
        other.wf(),
        one.node != other.node,
    ensures
        forall|i: int, j: int|
            0 <= i < issued(one, one_clock).len() && 0 <= j < issued(other, other_clock).len()
                ==> issued(one, one_clock)[i] != issued(other, other_clock)[j],
{
    lemma_issued_above_horizon(one, one_clock);
    lemma_issued_above_horizon(other, other_clock);
}

/// Timestamp recoverability. Each identifier that a generator issues holds,
/// to the millisecond, a clock reading under which the generator was asked.
pub proof fn lemma_issued_holds_reading(state: GeneratorState, clock: Seq<int>)
    requires
        state.wf(),
    ensures
        forall|i: int|
            0 <= i < issued(state, clock).len() ==> clock.contains(
                unix_millis_of(#[trigger] issued(state, clock)[i]),
            ),
    decreases clock.len(),
{
    if clock.len() > 0 {
        let next = state.after(clock[0]);
        let rest = issued(next, clock.drop_first());
        let all = issued(state, clock);
        lemma_issue(state, clock[0]);
        lemma_issued_holds_reading(next, clock.drop_first());
        assert forall|i: int| 0 <= i < all.len() implies clock.contains(
            unix_millis_of(#[trigger] all[i]),
        ) by {
            let found = match state.verdict(clock[0]) {
                Ok(id) => if i == 0 {
                    0
                } else {
                    assert(all[i] == rest[i - 1]);
                    let k = choose|k: int|
                        0 <= k < clock.drop_first().len() && clock.drop_first()[k]
                            == unix_millis_of(rest[i - 1]);
                    k + 1
                },
                Err(_) => {
                    assert(all[i] == rest[i]);
                    let k = choose|k: int|
                        0 <= k < clock.drop_first().len() && clock.drop_first()[k]
                            == unix_millis_of(rest[i]);
                    k + 1
                },
            };
            assert(clock[found] == unix_millis_of(all[i]));
        }
    }
}

} // verus!
