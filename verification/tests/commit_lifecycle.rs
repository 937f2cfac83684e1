use narwhal_bft::bft::BFT;
use narwhal_bft::certificate::BatchCertificate;
use narwhal_bft::dag::{Dag, DagNode};
use narwhal_bft::errors::BftError;
use narwhal_bft::storage::Storage;

fn node(author: u64, round: u64, digest: u64, prevs: &[u64]) -> DagNode {
    DagNode {
        certificate: BatchCertificate::new(author, round, digest),
        prev_authors: prevs.to_vec(),
    }
}

/// A small layered DAG: round 1 has authors 1, 2, 3; round 2 has the anchor
/// author 2 referencing authors 1 and 2, and author 3 referencing author 3.
fn sample_dag(order: &[usize]) -> Dag {
    let nodes = vec![
        node(1, 1, 11, &[]),
        node(2, 1, 12, &[]),
        node(3, 1, 13, &[]),
        node(2, 2, 22, &[1, 2]),
        node(3, 2, 23, &[3]),
    ];
    let mut dag = Dag::new();
    for &i in order {
        let n = &nodes[i];
        dag.insert(n.certificate, n.prev_authors.clone()).unwrap();
    }
    dag
}

#[test]
fn dag_rejects_duplicate_nodes() {
    let mut dag = Dag::new();
    dag.insert(BatchCertificate::new(1, 1, 5), vec![]).unwrap();
    assert_eq!(
        dag.insert(BatchCertificate::new(1, 1, 6), vec![]),
        Err(BftError::DuplicateCertificate)
    );
    assert!(dag.find(1, 1).is_some());
    assert!(dag.find(1, 2).is_none());
}

#[test]
fn commit_sequence_orders_by_round_then_author() {
    let dag = sample_dag(&[0, 1, 2, 3, 4]);
    let committed: Vec<(u64, u64)> = Vec::new();
    let seq = dag.commit_sequence(2, 2, &committed);
    // The anchor (2, round 2) reaches authors 1 and 2 of round 1; author 3's
    // certificates are untouched by this anchor.
    assert_eq!(seq.len(), 3);
    assert_eq!((seq[0].author(), seq[0].round(), seq[0].digest()), (1, 1, 11));
    assert_eq!((seq[1].author(), seq[1].round(), seq[1].digest()), (2, 1, 12));
    assert_eq!((seq[2].author(), seq[2].round(), seq[2].digest()), (2, 2, 22));
}

#[test]
fn commit_sequence_is_deterministic_across_insertion_orders() {
    // Two replicas receive the same certificates in different delivery
    // orders; their DAGs hold equal contents and must commit identically.
    let d1 = sample_dag(&[0, 1, 2, 3, 4]);
    let d2 = sample_dag(&[4, 2, 0, 3, 1]);
    let committed: Vec<(u64, u64)> = Vec::new();
    let s1 = d1.commit_sequence(2, 2, &committed);
    let s2 = d2.commit_sequence(2, 2, &committed);
    assert_eq!(s1, s2);
}

#[test]
fn commit_sequence_never_repeats_a_certificate() {
    let dag = sample_dag(&[0, 1, 2, 3, 4]);
    let committed: Vec<(u64, u64)> = Vec::new();
    let seq = dag.commit_sequence(2, 2, &committed);
    for i in 0..seq.len() {
        for j in (i + 1)..seq.len() {
            assert_ne!((seq[i].author(), seq[i].round()), (seq[j].author(), seq[j].round()));
        }
    }
}

#[test]
fn commit_sequence_skips_already_committed() {
    let dag = sample_dag(&[0, 1, 2, 3, 4]);
    let committed = vec![(1u64, 1u64)];
    let seq = dag.commit_sequence(2, 2, &committed);
    assert_eq!(seq.len(), 2);
    assert_eq!((seq[0].author(), seq[0].round()), (2, 1));
    assert_eq!((seq[1].author(), seq[1].round()), (2, 2));
}

#[test]
fn commit_anchor_records_history_across_anchors() {
    let mut bft = BFT::new(Storage::new());
    // Feed the sample nodes through the intake path.
    let batch = vec![
        node(1, 1, 11, &[]),
        node(2, 1, 12, &[]),
        node(3, 1, 13, &[]),
        node(2, 2, 22, &[1, 2]),
        node(3, 2, 23, &[3]),
    ];
    assert_eq!(bft.process_certificates(&batch), 0);
    let first = bft.commit_anchor(2, 2);
    assert_eq!(first.len(), 3);
    // A later anchor reaching the whole of rounds 1 and 2 commits only what
    // the first anchor left uncommitted.
    bft.process_certificate_from_primary(BatchCertificate::new(1, 3, 31), vec![2, 3])
        .unwrap();
    let second = bft.commit_anchor(3, 1);
    for c in &second {
        for d in &first {
            assert_ne!((c.author(), c.round()), (d.author(), d.round()));
        }
    }
    // The second anchor reaches (2,2) and (3,2), then (3,1) via (3,2); of
    // those, (2,2) is already committed.
    assert_eq!(second.len(), 3);
    assert_eq!((second[0].author(), second[0].round()), (3, 1));
    assert_eq!((second[1].author(), second[1].round()), (3, 2));
    assert_eq!((second[2].author(), second[2].round()), (1, 3));
}

#[test]
fn intake_isolates_a_faulty_certificate() {
    // A batch with exactly one faulty item (a duplicate of an earlier pair)
    // yields exactly one fault, and every well-formed item is processed.
    let mut bft = BFT::new(Storage::new());
    let batch = vec![
        node(1, 1, 11, &[]),
        node(1, 1, 99, &[]),
        node(2, 1, 12, &[]),
    ];
    assert_eq!(bft.process_certificates(&batch), 1);
    assert!(bft.dag.find(1, 1).is_some());
    assert!(bft.dag.find(1, 2).is_some());
    // The faulty duplicate did not replace the first certificate.
    assert_eq!(bft.dag.find(1, 1).unwrap().certificate.digest(), 11);

    // The same holds with the faulty item in another position.
    let mut bft2 = BFT::new(Storage::new());
    let batch2 = vec![
        node(1, 1, 11, &[]),
        node(2, 1, 12, &[]),
        node(2, 1, 99, &[]),
    ];
    assert_eq!(bft2.process_certificates(&batch2), 1);
    assert!(bft2.dag.find(1, 1).is_some());
    assert!(bft2.dag.find(1, 2).is_some());
}

#[test]
fn run_fails_when_already_running() {
    let mut bft = BFT::new(Storage::new());
    assert!(bft.run().is_ok());
    assert_eq!(bft.run(), Err(BftError::AlreadyRunning));
}

#[test]
fn shut_down_stops_primary_and_all_tasks() {
    let mut bft = BFT::new(Storage::new());
    assert!(bft.run().is_ok());
    assert!(bft.primary().running);
    assert!(bft.handles.any_runnable());
    bft.shut_down();
    assert!(!bft.primary().running);
    assert!(!bft.handles.any_runnable());
    assert_eq!(bft.handles.len(), 1);
}

#[test]
fn shut_down_twice_changes_nothing() {
    let mut bft = BFT::new(Storage::new());
    assert!(bft.run().is_ok());
    bft.shut_down();
    let tasks_before = bft.handles.len();
    bft.shut_down();
    assert!(!bft.primary().running);
    assert!(!bft.handles.any_runnable());
    assert_eq!(bft.handles.len(), tasks_before);
}
