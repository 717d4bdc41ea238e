use product_bridge::bridge::{on_fetched, on_written, start, Action, FetchOutcome, Op, PoolOutcome, WriteOutcome};
use product_bridge::decimal::{from_bits, Decimal};
use product_bridge::record::Record;

/// A tiny in-memory stand-in for the backend: it drives one boundary call
/// through the verified step functions, enforcing the unique-name constraint
/// the real backend would.
fn drive(store: &mut Vec<Record>, pool: PoolOutcome, op: Op) -> bool {
    let id = match start(&op, &pool) {
        Action::Fetch(id) => id,
        Action::Report(b) => return b,
        other => panic!("start decided {:?}", other),
    };
    let fetched = match store.iter().find(|r| r.id == id) {
        Some(r) => FetchOutcome::Found(r.clone()),
        None => FetchOutcome::NotFound,
    };
    match on_fetched(op, fetched) {
        Action::Report(b) => b,
        Action::Delete(r) => {
            store.retain(|x| x.id != r.id);
            on_written(&WriteOutcome::Done)
        }
        Action::Persist(r) => {
            if store.iter().any(|x| x.id != r.id && x.name == r.name) {
                on_written(&WriteOutcome::Conflict)
            } else {
                let slot = store.iter_mut().find(|x| x.id == r.id).unwrap();
                *slot = r;
                on_written(&WriteOutcome::Done)
            }
        }
        Action::Fetch(_) => panic!("on_fetched never asks for a second fetch"),
    }
}

fn percentage_of(v: f64) -> Decimal {
    from_bits(v.to_bits()).unwrap()
}

fn sample_store() -> Vec<Record> {
    vec![
        Record { id: 1, name: "espresso".to_string(), percentage: percentage_of(0.25) },
        Record { id: 2, name: "ristretto".to_string(), percentage: percentage_of(0.75) },
    ]
}

#[test]
fn remove_succeeds_once_then_fails() {
    let mut store = sample_store();
    assert!(drive(&mut store, PoolOutcome::Ready, Op::Remove { id: 1 }));
    assert_eq!(store.len(), 1);
    assert!(!drive(&mut store, PoolOutcome::Ready, Op::Remove { id: 1 }));
    assert_eq!(store.len(), 1);
}

#[test]
fn missing_record_mutations_fail_and_change_nothing() {
    let mut store = sample_store();
    let before = store.clone();
    assert!(!drive(&mut store, PoolOutcome::Ready, Op::Rename { id: 9, name: "x".to_string() }));
    assert!(!drive(
        &mut store,
        PoolOutcome::Ready,
        Op::SetPercentage { id: 9, bits: 0.5f64.to_bits() },
    ));
    assert_eq!(store, before);
}

#[test]
fn set_percentage_stores_the_exact_value() {
    let mut store = sample_store();
    assert!(drive(
        &mut store,
        PoolOutcome::Ready,
        Op::SetPercentage { id: 1, bits: 0.5f64.to_bits() },
    ));
    let held = &store.iter().find(|r| r.id == 1).unwrap().percentage;
    assert_eq!(*held, percentage_of(0.5));
    assert_eq!(store.iter().find(|r| r.id == 1).unwrap().name, "espresso");
}

#[test]
fn non_finite_percentages_fail_for_any_id() {
    let mut store = sample_store();
    let before = store.clone();
    for bits in [f64::NAN.to_bits(), f64::INFINITY.to_bits(), f64::NEG_INFINITY.to_bits()] {
        assert!(!drive(&mut store, PoolOutcome::Ready, Op::SetPercentage { id: 1, bits }));
        assert!(!drive(&mut store, PoolOutcome::Ready, Op::SetPercentage { id: 9, bits }));
    }
    assert_eq!(store, before);
}

#[test]
fn rename_to_a_taken_name_fails_and_keeps_the_old_name() {
    let mut store = sample_store();
    assert!(!drive(
        &mut store,
        PoolOutcome::Ready,
        Op::Rename { id: 1, name: "ristretto".to_string() },
    ));
    assert_eq!(store.iter().find(|r| r.id == 1).unwrap().name, "espresso");
}

#[test]
fn rename_to_a_fresh_name_succeeds() {
    let mut store = sample_store();
    assert!(drive(
        &mut store,
        PoolOutcome::Ready,
        Op::Rename { id: 1, name: "lungo".to_string() },
    ));
    let renamed = store.iter().find(|r| r.id == 1).unwrap();
    assert_eq!(renamed.name, "lungo");
    assert_eq!(renamed.percentage, percentage_of(0.25));
}

#[test]
fn renaming_to_the_records_own_name_succeeds() {
    let mut store = sample_store();
    assert!(drive(
        &mut store,
        PoolOutcome::Ready,
        Op::Rename { id: 1, name: "espresso".to_string() },
    ));
}

#[test]
fn pool_failures_fail_every_operation() {
    let mut store = sample_store();
    let before = store.clone();
    for pool in [PoolOutcome::Exhausted, PoolOutcome::Unreachable] {
        assert!(!drive(&mut store, pool, Op::Remove { id: 1 }));
        assert!(!drive(&mut store, pool, Op::Rename { id: 1, name: "x".to_string() }));
        assert!(!drive(&mut store, pool, Op::SetPercentage { id: 1, bits: 0.5f64.to_bits() }));
    }
    assert_eq!(store, before);
}

#[test]
fn racing_percentage_writes_leave_one_whole_value() {
    // Two calls race on the same id: both fetch the same row, then their
    // writes land in some order.  The row ends up holding exactly the full
    // value of whichever wrote last — never a mix of the two.
    let v1 = 0.25f64;
    let v2 = 0.75f64;
    for (first, second) in [(v1, v2), (v2, v1)] {
        let mut store = sample_store();
        let fetched = FetchOutcome::Found(store[0].clone());
        let a1 = on_fetched(
            Op::SetPercentage { id: 1, bits: first.to_bits() },
            fetched.clone(),
        );
        let a2 = on_fetched(
            Op::SetPercentage { id: 1, bits: second.to_bits() },
            fetched,
        );
        for a in [a1, a2] {
            match a {
                Action::Persist(r) => {
                    assert!(on_written(&WriteOutcome::Done));
                    store[0] = r;
                }
                other => panic!("expected a persist, got {:?}", other),
            }
        }
        let held = &store[0].percentage;
        assert_eq!(*held, percentage_of(second));
        assert_eq!(store[0].name, "espresso");
        assert_eq!(store[0].id, 1);
    }
}

#[test]
fn only_a_completed_write_reads_as_success() {
    assert!(on_written(&WriteOutcome::Done));
    assert!(!on_written(&WriteOutcome::Conflict));
    assert!(!on_written(&WriteOutcome::Backend));
}

#[test]
fn backend_fetch_failure_reports_false() {
    let a = on_fetched(Op::Remove { id: 1 }, FetchOutcome::Backend);
    assert_eq!(a, Action::Report(false));
}
