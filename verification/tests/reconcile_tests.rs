use vote_reconcile::reconcile::reconcile;
use vote_reconcile::record::{Status, VoteRecord};

fn rec(identity: u64, status: Status, payload: &str) -> VoteRecord {
    VoteRecord { identity, status, payload: payload.to_string() }
}

#[test]
fn empty_input_yields_empty_map() {
    let input: Vec<VoteRecord> = Vec::new();
    let out = reconcile(&input);
    assert_eq!(out.len(), 0);
    assert!(out.get(1).is_none());
    assert!(out.into_values().is_empty());
}

#[test]
fn pending_then_canonical_keeps_canonical() {
    let input = vec![rec(1, Status::Pending, "a"), rec(1, Status::Canonical, "b")];
    let out = reconcile(&input);
    assert_eq!(out.len(), 1);
    let chosen = out.get(1).expect("identity 1 must be bound");
    assert_eq!(chosen.status, Status::Canonical);
    assert_eq!(chosen.payload, "b");
    let values = out.into_values();
    assert_eq!(values, vec![rec(1, Status::Canonical, "b")]);
}

#[test]
fn canonical_then_pending_keeps_canonical() {
    let input = vec![rec(1, Status::Canonical, "b"), rec(1, Status::Pending, "a")];
    let out = reconcile(&input);
    assert_eq!(out.len(), 1);
    let chosen = out.get(1).expect("identity 1 must be bound");
    assert_eq!(chosen.status, Status::Canonical);
    assert_eq!(chosen.payload, "b");
}

#[test]
fn distinct_identities_both_kept() {
    let input = vec![rec(1, Status::Pending, "a"), rec(2, Status::Pending, "c")];
    let out = reconcile(&input);
    assert_eq!(out.len(), 2);
    assert_eq!(out.get(1).expect("identity 1").payload, "a");
    assert_eq!(out.get(2).expect("identity 2").payload, "c");
}

#[test]
fn two_pending_first_wins() {
    let input = vec![rec(1, Status::Pending, "a"), rec(1, Status::Pending, "z")];
    let out = reconcile(&input);
    assert_eq!(out.len(), 1);
    let chosen = out.get(1).expect("identity 1 must be bound");
    assert_eq!(chosen.status, Status::Pending);
    assert_eq!(chosen.payload, "a");
}

#[test]
fn two_canonical_first_wins() {
    let input = vec![rec(1, Status::Canonical, "b"), rec(1, Status::Canonical, "y")];
    let out = reconcile(&input);
    assert_eq!(out.len(), 1);
    assert_eq!(out.get(1).expect("identity 1").payload, "b");
}

#[test]
fn no_duplicates_pass_through_unchanged() {
    let input = vec![
        rec(3, Status::Pending, "x"),
        rec(1, Status::Canonical, "y"),
        rec(2, Status::Pending, "z"),
    ];
    let out = reconcile(&input);
    assert_eq!(out.len(), 3);
    for r in &input {
        assert_eq!(out.get(r.identity).expect("every input identity is bound"), r);
    }
}

#[test]
fn all_records_share_one_identity() {
    let input = vec![
        rec(7, Status::Pending, "p1"),
        rec(7, Status::Pending, "p2"),
        rec(7, Status::Canonical, "c"),
        rec(7, Status::Pending, "p3"),
    ];
    let out = reconcile(&input);
    assert_eq!(out.len(), 1);
    let chosen = out.get(7).expect("identity 7 must be bound");
    assert_eq!(chosen.status, Status::Canonical);
    assert_eq!(chosen.payload, "c");
}

#[test]
fn reconcile_is_idempotent_on_its_output() {
    let input = vec![
        rec(1, Status::Pending, "a"),
        rec(1, Status::Canonical, "b"),
        rec(2, Status::Pending, "c"),
        rec(2, Status::Pending, "d"),
        rec(3, Status::Canonical, "e"),
    ];
    let first = reconcile(&input).into_values();
    let second = reconcile(&first);
    assert_eq!(second.len(), first.len());
    for r in &first {
        assert_eq!(second.get(r.identity).expect("identity kept"), r);
    }
}

#[test]
fn absent_identity_is_unbound() {
    let input = vec![rec(1, Status::Pending, "a")];
    let out = reconcile(&input);
    assert!(out.get(2).is_none());
}
