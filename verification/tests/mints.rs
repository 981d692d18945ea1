use dom_cloner::document::{Document, Node};
use dom_cloner::mint::Mint;
use dom_cloner::orchestrator::{batches, BATCH};
use dom_cloner::properties::Properties;

fn document_of(identities: &[u128]) -> Document {
    let nodes = identities
        .iter()
        .map(|identity| Node::new(*identity, "Folder", "F", Properties::new(), Vec::new()))
        .collect();
    Document::from_nodes(identities[0], nodes).unwrap()
}

#[test]
fn settle_takes_a_free_candidate() {
    let source = document_of(&[1, 2, 3]);
    let mut mint = Mint::new();
    assert_eq!(mint.settle(&source, 10), 10);
    assert_eq!(mint.settle(&source, 4), 4);
    assert_eq!(mint.settle(&source, u128::MAX), u128::MAX);
}

#[test]
fn settle_steps_past_the_null_identity() {
    let source = document_of(&[5]);
    let mut mint = Mint::new();
    assert_eq!(mint.settle(&source, 0), 1);
    assert_eq!(mint.settle(&source, 0), 2);
}

#[test]
fn settle_steps_past_the_source() {
    let source = document_of(&[1, 2, 3, 5]);
    let mut mint = Mint::new();
    assert_eq!(mint.settle(&source, 1), 4);
    assert_eq!(mint.settle(&source, 1), 6);
    assert_eq!(mint.settle(&source, 5), 7);
}

#[test]
fn settle_steps_past_what_was_issued() {
    let source = document_of(&[100]);
    let mut mint = Mint::new();
    assert_eq!(mint.settle(&source, 7), 7);
    assert_eq!(mint.settle(&source, 7), 8);
    assert_eq!(mint.settle(&source, 7), 9);
    assert_eq!(mint.settle(&source, 8), 10);
}

#[test]
fn settle_counts_round() {
    let source = document_of(&[u128::MAX, 1]);
    let mut mint = Mint::new();
    assert_eq!(mint.settle(&source, u128::MAX), 2);
    assert_eq!(mint.settle(&source, u128::MAX - 1), u128::MAX - 1);
    assert_eq!(mint.settle(&source, u128::MAX - 1), 3);
}

#[test]
fn issue_gives_new_identities() {
    let source = document_of(&[1, 2, 3]);
    let mut mint = Mint::new();
    let mut issued = Vec::new();
    for _ in 0..200 {
        let identity = mint.issue(&source);
        assert_ne!(identity, 0);
        assert!(source.get_by_ref(identity).is_none());
        issued.push(identity);
    }
    issued.sort();
    issued.dedup();
    assert_eq!(issued.len(), 200);
}

#[test]
fn batch_size_is_one_hundred() {
    assert_eq!(BATCH, 100);
}

#[test]
fn batches_cut_in_order() {
    let children: Vec<u128> = vec![1, 2, 3, 4, 5];
    assert_eq!(batches(&children, 2), vec![vec![1, 2], vec![3, 4], vec![5]]);
    assert_eq!(batches(&children, 1), vec![vec![1], vec![2], vec![3], vec![4], vec![5]]);
    assert_eq!(batches(&children, 5), vec![vec![1, 2, 3, 4, 5]]);
    assert_eq!(batches(&children, 6), vec![vec![1, 2, 3, 4, 5]]);
    assert_eq!(batches(&children, usize::MAX), vec![vec![1, 2, 3, 4, 5]]);
}

#[test]
fn batches_of_nothing() {
    let children: Vec<u128> = Vec::new();
    assert!(batches(&children, 3).is_empty());
}

#[test]
fn batches_as_chunks() {
    let children: Vec<u128> = (0..250).collect();
    let expected: Vec<Vec<u128>> = children.chunks(BATCH).map(|chunk| chunk.to_vec()).collect();
    assert_eq!(batches(&children, BATCH), expected);
    assert_eq!(expected.len(), 3);
    assert_eq!(expected[2].len(), 50);
}
