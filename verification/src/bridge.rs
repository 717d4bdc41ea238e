//! The boundary adapter: the decision layer of the three operations the
//! scripting host may call (remove, rename, set a percentage).  Each call is
//! single-shot: acquire a connection, fetch one record by key, mutate one
//! field, write back, and report a bare boolean to the host — every internal
//! failure, whatever its kind, collapses to `false` and never crosses the
//! boundary as a fault.
//!
//! The outside work itself (the pool, the backend round-trips, the host's
//! value marshalling) happens in the unverified shell around this crate.  It
//! drives a call by handing each outcome to the step functions here and
//! performing the [`Action`] they decide on.

use vstd::prelude::*;
use crate::decimal::{from_bits, is_finite_bits, mantissa_of, exp2_of, sign_field, represents};
use crate::record::Record;

verus! {

/// One operation requested by the scripting host, with its marshalled
/// arguments.  A percentage arrives as the bit pattern of the host's 64-bit
/// floating-point value, so that the exact conversion stays inside the
/// verified core.
#[derive(Clone, Debug, PartialEq, Eq)]
pub enum Op {
    Remove { id: i32 },
    Rename { id: i32, name: String },
    SetPercentage { id: i32, bits: u64 },
}

impl Op {
    /// The primary key of the one record this call touches.
    pub open spec fn target_id(self) -> i32 {
        match self {
            Op::Remove { id } => id,
            Op::Rename { id, .. } => id,
            Op::SetPercentage { id, .. } => id,
        }
    }
}

/// What acquiring a pooled connection came to: the pool either yields one or
/// fails because it is exhausted or the backend is unreachable.
#[derive(Clone, Copy, Debug, PartialEq, Eq)]
pub enum PoolOutcome {
    Ready,
    Exhausted,
    Unreachable,
}

/// What fetching the record by key came to.
#[derive(Clone, Debug, PartialEq, Eq)]
pub enum FetchOutcome {
    Found(Record),
    NotFound,
    Backend,
}

/// What writing (persisting or deleting) came to: done, refused by a
/// constraint such as the unique name, or failed in the backend.
#[derive(Clone, Copy, Debug, PartialEq, Eq)]
pub enum WriteOutcome {
    Done,
    Conflict,
    Backend,
}

/// What the driver must do next: one backend round-trip, or the final report
/// to the host.
#[derive(Clone, Debug, PartialEq, Eq)]
pub enum Action {
    Fetch(i32),
    Persist(Record),
    Delete(Record),
    Report(bool),
}

/// Whether a call gets past acquiring a connection.
pub open spec fn pool_ready(p: PoolOutcome) -> bool {
    p is Ready
}

/// Whether a call gets past the fetch and the in-memory mutation: the record
/// must exist, and a percentage input must be a finite number.
pub open spec fn proceeds(op: Op, fetched: FetchOutcome) -> bool {
    &&& fetched is Found
    &&& (op matches Op::SetPercentage { bits, .. } ==> is_finite_bits(bits))
}

/// Whether a whole call reports success, given the outcome of each of its
/// outside steps: every step must have gone through.
pub open spec fn call_succeeds(
    op: Op,
    pool: PoolOutcome,
    fetched: FetchOutcome,
    written: WriteOutcome,
) -> bool {
    &&& pool_ready(pool)
    &&& proceeds(op, fetched)
    &&& written is Done
}

/// The first step of a call: with a connection in hand the record is fetched
/// by its key; a pool failure ends the call at once with a `false` report.
pub fn start(op: &Op, pool: &PoolOutcome) -> (a: Action)
    ensures
        pool_ready(*pool) ==> a == Action::Fetch(op.target_id()),
        !pool_ready(*pool) ==> a == Action::Report(false),
{
    match pool {
        PoolOutcome::Ready => {
            let id: i32 = match op {
                Op::Remove { id } => *id,
                Op::Rename { id, .. } => *id,
                Op::SetPercentage { id, .. } => *id,
            };
            Action::Fetch(id)
        },
        _ => Action::Report(false),
    }
}

/// The second step: what to do with the fetched record.  A miss or a backend
/// failure reports `false`; otherwise the one field the operation names is
/// replaced in memory — exactly that field, the rest of the record untouched —
/// and the whole record goes back for a write.  A percentage with no exact
/// decimal expansion (NaN, infinity) reports `false` without any write.
pub fn on_fetched(op: Op, fetched: FetchOutcome) -> (a: Action)
    requires
        fetched is Found ==> fetched->Found_0.wf(),
    ensures
        !proceeds(op, fetched) ==> a == Action::Report(false),
        fetched is Found && op is Remove ==> a == Action::Delete(fetched->Found_0),
        fetched is Found && op is Rename ==> {
            &&& a is Persist
            &&& a->Persist_0.id == fetched->Found_0.id
            &&& a->Persist_0.name == op->Rename_name
            &&& a->Persist_0.percentage == fetched->Found_0.percentage
        },
        fetched is Found && op is SetPercentage && is_finite_bits(op->SetPercentage_bits) ==> {
            &&& a is Persist
            &&& a->Persist_0.id == fetched->Found_0.id
            &&& a->Persist_0.name == fetched->Found_0.name
            &&& a->Persist_0.wf()
            &&& represents(
                a->Persist_0.percentage,
                mantissa_of(op->SetPercentage_bits),
                exp2_of(op->SetPercentage_bits),
            )
            &&& a->Persist_0.percentage.negative == (sign_field(op->SetPercentage_bits) == 1
                && mantissa_of(op->SetPercentage_bits) != 0)
        },
{
    match fetched {
        FetchOutcome::Found(r) => match op {
            Op::Remove { .. } => Action::Delete(r),
            Op::Rename { name, .. } => Action::Persist(
                Record { id: r.id, name, percentage: r.percentage },
            ),
            Op::SetPercentage { bits, .. } => match from_bits(bits) {
                Ok(d) => Action::Persist(Record { id: r.id, name: r.name, percentage: d }),
                Err(_) => Action::Report(false),
            },
        },
        _ => Action::Report(false),
    }
}

/// Removing a record that the fetch still finds succeeds once the delete
/// goes through; after the row is gone, a second removal of the same id
/// finds nothing and reports `false`, whatever the pool and write would
/// have said.
pub proof fn lemma_remove_twice(id: i32, r: Record, pool: PoolOutcome, written: WriteOutcome)
    ensures
        call_succeeds(
            Op::Remove { id },
            PoolOutcome::Ready,
            FetchOutcome::Found(r),
            WriteOutcome::Done,
        ),
        !call_succeeds(Op::Remove { id }, pool, FetchOutcome::NotFound, written),
{
}

/// A call on an id no record holds never succeeds: the fetch misses, the
/// call stops there with a `false` report, and no write is ever asked for —
/// no record is mutated.
pub proof fn lemma_missing_record_rejected(op: Op, pool: PoolOutcome, written: WriteOutcome)
    ensures
        !proceeds(op, FetchOutcome::NotFound),
        !call_succeeds(op, pool, FetchOutcome::NotFound, written),
{
}

/// A percentage with no exact decimal expansion — a NaN or an infinity —
/// is rejected for every id and every store state: the call reports `false`
/// and asks for no write, so the stored percentage stays as it was.
pub proof fn lemma_non_finite_rejected(
    id: i32,
    bits: u64,
    pool: PoolOutcome,
    fetched: FetchOutcome,
    written: WriteOutcome,
)
    requires
        !is_finite_bits(bits),
    ensures
        !proceeds(Op::SetPercentage { id, bits }, fetched),
        !call_succeeds(Op::SetPercentage { id, bits }, pool, fetched, written),
{
}

/// A rename the backend refuses — its unique-name constraint found another
/// record already holding the name — reports `false` to the host rather
/// than pretending the write happened.
pub proof fn lemma_name_conflict_rejected(id: i32, name: String, pool: PoolOutcome, r: Record)
    ensures
        !call_succeeds(
            Op::Rename { id, name },
            pool,
            FetchOutcome::Found(r),
            WriteOutcome::Conflict,
        ),
{
}

/// Setting a finite percentage on a record the fetch finds succeeds as soon
/// as the write does: nothing inside the core refuses such a call.
pub proof fn lemma_finite_percentage_accepted(id: i32, bits: u64, r: Record)
    requires
        is_finite_bits(bits),
    ensures
        call_succeeds(
            Op::SetPercentage { id, bits },
            PoolOutcome::Ready,
            FetchOutcome::Found(r),
            WriteOutcome::Done,
        ),
{
}

/// The last step: the boolean the host sees.  It is `true` exactly when the
/// write went through; a constraint violation (such as a rename to a name
/// another record holds) or a backend failure reads as `false`.
pub fn on_written(written: &WriteOutcome) -> (b: bool)
    ensures
        b == (*written is Done),
{
    match written {
        WriteOutcome::Done => true,
        _ => false,
    }
}

} // verus!
