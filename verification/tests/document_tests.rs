use causal_doc::doc::Document;
use causal_doc::document::CausalDocument;
use causal_doc::operation::Operation;

fn mk_hash(n: u8) -> causal_doc::hash::Hash {
    causal_doc::hash::Hash::from_bytes(vec![n; 32])
}

fn mk_pk(n: u8) -> causal_doc::identity::PublicKey {
    causal_doc::identity::PublicKey::from_bytes(vec![n; 32])
}

fn mk_op(
    hash: u8,
    author: u8,
    seq_num: u64,
    timestamp: u32,
    previous: Vec<u8>,
) -> Operation {
    Operation::new(
        mk_hash(hash),
        mk_pk(author),
        format!("author-{}", author),
        seq_num,
        timestamp,
        None,
        previous.into_iter().map(mk_hash).collect(),
    )
}

fn tip_strings(doc: &CausalDocument) -> Vec<String> {
    let mut v: Vec<String> = doc.tips().iter().map(|h| h.to_string()).collect();
    v.sort();
    v
}

#[test]
fn add_is_idempotent() {
    let mut doc = CausalDocument::new(Vec::new());
    let r = mk_op(1, 10, 0, 100, vec![]);
    let ignored = doc.add(&vec![r.clone()]);
    assert!(ignored.is_empty());
    assert_eq!(doc.operations().len(), 1);
    let ignored_again = doc.add(&vec![r.clone()]);
    assert_eq!(ignored_again, vec![r]);
    assert_eq!(doc.operations().len(), 1);
}

#[test]
fn frontier_holds_unreferenced_hashes_only() {
    let mut doc = CausalDocument::new(Vec::new());
    let r0 = mk_op(1, 10, 0, 100, vec![]);
    let r1 = mk_op(2, 10, 1, 200, vec![1]);
    let r2 = mk_op(3, 11, 0, 300, vec![]);
    doc.add(&vec![r0, r1, r2]);
    let tips = tip_strings(&doc);
    let mut expected = vec![mk_hash(2).to_string(), mk_hash(3).to_string()];
    expected.sort();
    assert_eq!(tips, expected);
}

#[test]
fn forward_references_are_tolerated() {
    let mut doc = CausalDocument::new(Vec::new());
    let r1 = mk_op(2, 10, 1, 200, vec![1]);
    doc.add(&vec![r1]);
    assert_eq!(tip_strings(&doc), vec![mk_hash(2).to_string()]);
    let r0 = mk_op(1, 10, 0, 100, vec![]);
    doc.add(&vec![r0]);
    // the late arrival resolves the dangling reference and is no tip
    assert_eq!(tip_strings(&doc), vec![mk_hash(2).to_string()]);
}

#[test]
fn tips_are_repeatable() {
    let mut doc = CausalDocument::new(Vec::new());
    doc.add(&vec![mk_op(1, 10, 0, 1, vec![]), mk_op(2, 11, 0, 2, vec![])]);
    let a: Vec<String> = doc.tips().iter().map(|h| h.to_string()).collect();
    let b: Vec<String> = doc.tips().iter().map(|h| h.to_string()).collect();
    assert_eq!(a, b);
}

#[test]
fn operations_are_topologically_ordered() {
    let mut doc = CausalDocument::new(Vec::new());
    let r0 = mk_op(1, 10, 0, 100, vec![]);
    let r1 = mk_op(2, 10, 1, 200, vec![1]);
    let r2 = mk_op(3, 11, 0, 300, vec![2, 1]);
    // offered out of order
    doc.add(&vec![r2, r1, r0]);
    let ordered = doc.operations();
    assert_eq!(ordered.len(), 3);
    let pos = |needle: &str| {
        ordered
            .iter()
            .position(|o| o.hash() == needle)
            .expect("record missing from operations()")
    };
    let p0 = pos(&mk_hash(1).to_string());
    let p1 = pos(&mk_hash(2).to_string());
    let p2 = pos(&mk_hash(3).to_string());
    assert!(p0 < p1);
    assert!(p1 < p2);
}

#[test]
fn get_finds_stored_records() {
    let mut doc = CausalDocument::new(Vec::new());
    let r0 = mk_op(1, 10, 0, 100, vec![]);
    doc.add(&vec![r0.clone()]);
    assert_eq!(doc.get(&mk_hash(1)), Some(r0));
    assert_eq!(doc.get(&mk_hash(9)), None);
}

#[test]
fn prune_before_timestamp_removes_older_records() {
    let mut doc = CausalDocument::new(Vec::new());
    let r0 = mk_op(1, 10, 0, 100, vec![]);
    let r1 = mk_op(2, 10, 1, 200, vec![1]);
    doc.add(&vec![r0, r1]);
    let removed = doc.prune_before_timestamp(150);
    assert_eq!(removed, vec![mk_hash(1)]);
    assert_eq!(doc.operations().len(), 1);
    assert!(doc.get(&mk_hash(1)).is_none());
    assert!(doc.get(&mk_hash(2)).is_some());
    // nothing else qualifies: an empty removal set
    assert!(doc.prune_before_timestamp(150).is_empty());
}

#[test]
fn prune_before_depth_per_log_keeps_newest_entries() {
    let mut doc = CausalDocument::new(Vec::new());
    let r0 = mk_op(1, 10, 0, 100, vec![]);
    let r1 = mk_op(2, 10, 1, 200, vec![1]);
    let r2 = mk_op(3, 10, 2, 300, vec![2]);
    doc.add(&vec![r0, r1, r2]);
    let removed = doc.prune_before_depth_per_log(1);
    assert_eq!(removed, vec![mk_hash(1), mk_hash(2)]);
    let logs = doc.logs();
    assert_eq!(logs.len(), 1);
    assert_eq!(logs[0].len(), 1);
    assert_eq!(logs[0].get(2).unwrap().hash, mk_hash(3));
}

#[test]
fn prune_before_depth_removes_distant_records() {
    let mut doc = CausalDocument::new(Vec::new());
    let r0 = mk_op(1, 10, 0, 100, vec![]);
    let r1 = mk_op(2, 10, 1, 200, vec![1]);
    let r2 = mk_op(3, 10, 2, 300, vec![2]);
    doc.add(&vec![r0, r1, r2]);
    // distances from the only tip: r2 = 0, r1 = 1, r0 = 2
    let removed = doc.prune_before_depth(1);
    assert_eq!(removed, vec![mk_hash(1)]);
    assert!(doc.get(&mk_hash(1)).is_none());
    assert!(doc.get(&mk_hash(2)).is_some());
    assert!(doc.get(&mk_hash(3)).is_some());
}

#[test]
fn author_log_orders_by_seq_num() {
    let mut doc = CausalDocument::new(Vec::new());
    let r1 = mk_op(2, 10, 5, 200, vec![]);
    let r0 = mk_op(1, 10, 2, 100, vec![]);
    doc.add(&vec![r1, r0]);
    let log = doc.author_log(&mk_pk(10)).unwrap();
    assert_eq!(log.len(), 2);
    assert_eq!(log.get(2).unwrap().hash, mk_hash(1));
    assert_eq!(log.get(5).unwrap().hash, mk_hash(2));
    assert_eq!(log.first().unwrap().seq_num, 5);
    assert!(log.get(3).is_none());
    assert!(doc.author_log(&mk_pk(99)).is_none());
}

#[test]
fn single_author_create_and_per_log_prune() {
    let mut doc = Document::new();
    let r1 = doc.create("A".to_string(), 0, 100).unwrap();
    let tips1: Vec<String> = doc.tips().iter().map(|h| h.to_string()).collect();
    assert_eq!(tips1, vec![r1.hash()]);
    let r2 = doc.create("A".to_string(), 1, 200).unwrap();
    assert_eq!(r2.backlink(), Some(r1.hash()));
    assert_eq!(r2.previous(), vec![r1.hash()]);
    let tips2: Vec<String> = doc.tips().iter().map(|h| h.to_string()).collect();
    assert_eq!(tips2, vec![r2.hash()]);
    let removed = doc.prune_before_depth_per_log(1);
    assert_eq!(removed.len(), 1);
    assert_eq!(removed[0].to_string(), r1.hash());
    assert!(doc.get(r1.hash()).is_none());
    assert!(doc.get(r2.hash()).is_some());
    let tips3: Vec<String> = doc.tips().iter().map(|h| h.to_string()).collect();
    assert_eq!(tips3, vec![r2.hash()]);
}

#[test]
fn two_authors_link_into_one_frontier() {
    let mut doc = CausalDocument::new(Vec::new());
    let ra = mk_op(1, 10, 0, 100, vec![]);
    let rb = mk_op(2, 11, 0, 110, vec![]);
    doc.add(&vec![ra.clone(), rb.clone()]);
    let mut tips: Vec<String> = doc.tips().iter().map(|h| h.to_string()).collect();
    tips.sort();
    let mut expected = vec![ra.hash(), rb.hash()];
    expected.sort();
    assert_eq!(tips, expected);
    // a third record by the first author links everything visible
    let r3 = Operation::new(
        mk_hash(3),
        mk_pk(10),
        "author-10".to_string(),
        1,
        120,
        Some(mk_hash(1)),
        doc.tips(),
    );
    doc.add(&vec![r3.clone()]);
    let mut linked = r3.previous();
    linked.sort();
    assert_eq!(linked, expected);
    let tips_after: Vec<String> = doc.tips().iter().map(|h| h.to_string()).collect();
    assert_eq!(tips_after, vec![r3.hash()]);
}

#[test]
fn create_rejects_missing_log_context() {
    let mut doc = Document::new();
    assert!(doc.create("X".to_string(), 5, 0).is_err());
    // sequence number zero needs no prior log
    assert!(doc.create("X".to_string(), 0, 0).is_ok());
}

#[test]
fn create_keeps_one_identity_per_name() {
    let mut doc = Document::new();
    let r1 = doc.create("A".to_string(), 0, 1).unwrap();
    let r2 = doc.create("A".to_string(), 1, 2).unwrap();
    assert_eq!(r1.public_key(), r2.public_key());
    let rb = doc.create("B".to_string(), 0, 3).unwrap();
    assert_ne!(r1.public_key(), rb.public_key());
}

#[test]
fn document_get_rejects_malformed_strings() {
    let mut doc = Document::new();
    let r = doc.create("A".to_string(), 0, 1).unwrap();
    assert!(doc.get("not-a-hash".to_string()).is_none());
    assert!(doc.get(r.hash()).is_some());
}

#[test]
fn operation_getters_expose_plain_values() {
    let op = mk_op(4, 12, 3, 77, vec![1, 2]);
    assert_eq!(op.hash(), mk_hash(4).to_string());
    assert_eq!(op.public_key(), mk_pk(12).to_string());
    assert_eq!(op.author_name(), "author-12");
    assert_eq!(op.seq_num(), 3);
    assert_eq!(op.timestamp(), 77);
    assert_eq!(op.backlink(), None);
    assert_eq!(op.previous(), vec![mk_hash(1).to_string(), mk_hash(2).to_string()]);
}

#[test]
fn operations_batch_wrapper_carries_records() {
    let ops = causal_doc::operation::Operations(vec![mk_op(1, 10, 0, 1, vec![])]);
    assert_eq!(ops.0.len(), 1);
}

#[test]
fn bootstrap_from_snapshot_rebuilds_indices() {
    let r0 = mk_op(1, 10, 0, 100, vec![]);
    let r1 = mk_op(2, 10, 1, 200, vec![1]);
    let doc = CausalDocument::new(vec![r0, r1]);
    assert_eq!(doc.operations().len(), 2);
    assert_eq!(tip_strings(&doc), vec![mk_hash(2).to_string()]);
    let log = doc.author_log(&mk_pk(10)).unwrap();
    assert_eq!(log.len(), 2);
}

#[test]
fn document_add_reports_duplicates() {
    let mut doc = Document::new();
    let r = doc.create("A".to_string(), 0, 5).unwrap();
    let ignored = doc.add(&r);
    assert_eq!(ignored, vec![r]);
}

#[test]
fn operations_unsorted_keeps_insertion_order() {
    let mut doc = CausalDocument::new(Vec::new());
    let r1 = mk_op(2, 10, 1, 200, vec![1]);
    let r0 = mk_op(1, 10, 0, 100, vec![]);
    doc.add(&vec![r1.clone(), r0.clone()]);
    assert_eq!(doc.operations_unsorted(), &vec![r1, r0]);
}

#[test]
fn document_operations_resolve_links_first() {
    let mut doc = Document::new();
    let r1 = doc.create("A".to_string(), 0, 1).unwrap();
    let r2 = doc.create("B".to_string(), 0, 2).unwrap();
    let ordered = doc.operations();
    assert_eq!(ordered.len(), 2);
    // the second record names the first among its predecessors
    assert_eq!(ordered[0].hash(), r1.hash());
    assert_eq!(ordered[1].hash(), r2.hash());
    assert_eq!(ordered[1].previous(), vec![r1.hash()]);
}

#[test]
fn operations_are_repeatable() {
    let mut doc = CausalDocument::new(Vec::new());
    doc.add(&vec![
        mk_op(3, 11, 0, 3, vec![2, 1]),
        mk_op(1, 10, 0, 1, vec![]),
        mk_op(2, 10, 1, 2, vec![1]),
    ]);
    let a: Vec<String> = doc.operations().iter().map(|o| o.hash()).collect();
    let b: Vec<String> = doc.operations().iter().map(|o| o.hash()).collect();
    assert_eq!(a, b);
}

#[test]
fn duplicate_batch_leaves_logs_unchanged() {
    let mut doc = CausalDocument::new(Vec::new());
    let r = mk_op(1, 10, 0, 100, vec![]);
    doc.add(&vec![r.clone()]);
    let before: Vec<(u64, String)> = doc.logs()[0]
        .first()
        .map(|e| (e.seq_num, e.hash.to_string()))
        .into_iter()
        .collect();
    doc.add(&vec![r]);
    assert_eq!(doc.logs().len(), 1);
    assert_eq!(doc.logs()[0].len(), 1);
    let after: Vec<(u64, String)> = doc.logs()[0]
        .first()
        .map(|e| (e.seq_num, e.hash.to_string()))
        .into_iter()
        .collect();
    assert_eq!(before, after);
}

#[test]
fn create_enters_the_author_log() {
    let mut doc = Document::new();
    let r1 = doc.create("A".to_string(), 0, 1).unwrap();
    let r2 = doc.create("A".to_string(), 1, 2).unwrap();
    assert_eq!(doc.document.logs().len(), 1);
    let log = &doc.document.logs()[0];
    assert_eq!(log.len(), 2);
    assert_eq!(log.get(0).unwrap().hash.to_string(), r1.hash());
    assert_eq!(log.get(1).unwrap().hash.to_string(), r2.hash());
}
