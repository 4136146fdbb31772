use crc::{Crc, CRC_8_DARC};
use merkle_tree::{Location, MerkleError, MerkleTree, NodeIndex, Proof, ProofStep};

fn crc8(data: &[u8]) -> Vec<u8> {
    let crc = Crc::<u8>::new(&CRC_8_DARC);
    let mut digest = crc.digest();
    digest.update(data);
    vec![digest.finalize()]
}

/// Hands the input back: the digests then show what was hashed, and in which order.
fn echo(data: &[u8]) -> Vec<u8> {
    data.to_vec()
}

const NAMES: [&str; 8] = ["Alpha", "Bravo", "Charlie", "Delta", "Echo", "Foxtrot", "Golf", "Hotel"];

fn named_tree() -> MerkleTree<fn(&[u8]) -> Vec<u8>> {
    let items: Vec<&[u8]> = NAMES.iter().map(|name| name.as_bytes()).collect();
    MerkleTree::from_iter(&items, crc8 as fn(&[u8]) -> Vec<u8>).unwrap()
}

fn steps_of(path: &Proof) -> Vec<(Vec<u8>, Location)> {
    path.iter().map(|step| (step.hash().clone(), *step.direction())).collect()
}

#[test]
fn leaf_digests_are_the_checksums_of_the_names() {
    let expected: [u8; 8] = [0x47, 0x24, 0x7E, 0x56, 0xEF, 0x49, 0x12, 0x04];
    for (name, digest) in NAMES.iter().zip(expected) {
        assert_eq!(crc8(name.as_bytes()), vec![digest]);
    }
    let tree = named_tree();
    let leaves: Vec<Vec<u8>> = tree.leaves().to_vec();
    let expected: Vec<Vec<u8>> = expected.iter().map(|digest| vec![*digest]).collect();
    assert_eq!(leaves, expected);
}

#[test]
fn inner_digests_of_the_named_tree() {
    let tree = named_tree();
    let nodes = tree.nodes();
    assert_eq!(nodes.len(), 15);
    assert_eq!(nodes[0], vec![0x0B]);
    assert_eq!(nodes[1], vec![0x4C]);
    assert_eq!(nodes[2], vec![0xDE]);
    assert_eq!(nodes[3], vec![0x58]);
    assert_eq!(nodes[4], vec![0x28]);
    assert_eq!(nodes[5], vec![0x00]);
    assert_eq!(nodes[6], vec![0xD5]);
    assert_eq!(tree.root(), &vec![0x0B]);
}

#[test]
fn proof_for_delta() {
    let tree = named_tree();
    let path = tree.proof_for(3).unwrap();
    assert_eq!(
        steps_of(&path),
        vec![
            (vec![0x7E], Location::Left),
            (vec![0x58], Location::Left),
            (vec![0xDE], Location::Right),
        ]
    );
}

#[test]
fn verify_recomputes_the_root_for_delta() {
    let tree = named_tree();
    let path = tree.proof_for(3).unwrap();
    assert_eq!(MerkleTree::verify(&path, b"Delta", crc8), vec![0x0B]);
}

#[test]
fn verify_recomputes_the_root_from_a_proof_built_by_hand() {
    let mut path = Proof::new(8);
    path.add_step(ProofStep::new(vec![0x7E], Location::Left));
    path.add_step(ProofStep::new(vec![0x58], Location::Left));
    path.add_step(ProofStep::new(vec![0xDE], Location::Right));
    assert_eq!(MerkleTree::verify(&path, b"Delta", crc8), vec![0x0B]);
    assert_ne!(MerkleTree::verify(&path, b"Charlie", crc8), vec![0x0B]);
}

#[test]
fn verify_puts_each_sibling_on_its_side() {
    let mut path = Proof::new(2);
    path.add_step(ProofStep::new(b"S".to_vec(), Location::Right));
    assert_eq!(MerkleTree::verify(&path, b"item", echo), b"itemS".to_vec());

    let mut path = Proof::new(2);
    path.add_step(ProofStep::new(b"S".to_vec(), Location::Left));
    assert_eq!(MerkleTree::verify(&path, b"item", echo), b"Sitem".to_vec());

    let mut path = Proof::new(4);
    path.add_step(ProofStep::new(b"1".to_vec(), Location::Left));
    path.add_step(ProofStep::new(b"2".to_vec(), Location::Right));
    path.add_step(ProofStep::new(b"3".to_vec(), Location::Left));
    assert_eq!(MerkleTree::verify(&path, b"x", echo), b"31x2".to_vec());
}

#[test]
fn verify_of_an_empty_proof_is_the_digest_of_the_item() {
    let path = Proof::new(1);
    assert_eq!(MerkleTree::verify(&path, b"Alpha", crc8), vec![0x47]);
    assert_eq!(MerkleTree::verify(&path, b"", echo), Vec::<u8>::new());
}

#[test]
fn new_tree_holds_the_placeholder_everywhere() {
    let tree = MerkleTree::new(4, crc8).unwrap();
    assert_eq!(tree.nodes().len(), 7);
    for digest in tree.nodes() {
        assert_eq!(digest, &vec![0u8]);
    }
    assert_eq!(tree.root(), &vec![0u8]);
}

#[test]
fn assignment_concatenates_left_then_right() {
    let mut tree = MerkleTree::new(4, echo).unwrap();
    tree.set_at(2, b"C").unwrap();
    // positions 1..=7; the unset ones hold the placeholder
    let expected: Vec<Vec<u8>> = vec![
        vec![0, b'C', 0],
        vec![0],
        vec![b'C', 0],
        vec![0],
        vec![0],
        vec![b'C'],
        vec![0],
    ];
    assert_eq!(tree.nodes().to_vec(), expected);

    tree.set_at(3, b"D").unwrap();
    assert_eq!(tree.root(), &vec![0, b'C', b'D']);
    tree.set_at(1, b"B").unwrap();
    assert_eq!(tree.root(), &vec![0, b'B', b'C', b'D']);
    tree.set_at(0, b"A").unwrap();
    assert_eq!(tree.root(), &b"ABCD".to_vec());
    assert_eq!(tree.nodes()[1], b"AB".to_vec());
    assert_eq!(tree.nodes()[2], b"CD".to_vec());
}

#[test]
fn assignment_touches_only_the_path_to_the_root() {
    let items: Vec<&[u8]> = NAMES.iter().map(|name| name.as_bytes()).collect();
    let mut tree = MerkleTree::from_iter(&items, echo).unwrap();
    let before = tree.nodes().to_vec();
    tree.set_at(5, b"F").unwrap();
    let after = tree.nodes().to_vec();
    // leaf 5 is position 13; its ancestors are 6, 3 and 1
    for position in 1..16 {
        let changed = before[position - 1] != after[position - 1];
        assert_eq!(changed, [13, 6, 3, 1].contains(&position));
    }
    assert_eq!(tree.root(), &b"AlphaBravoCharlieDeltaEchoFGolfHotel".to_vec());
}

#[test]
fn overwriting_a_leaf_gives_the_root_of_the_new_items() {
    let mut tree = named_tree();
    tree.set_at(3, b"Dover").unwrap();
    let renamed = ["Alpha", "Bravo", "Charlie", "Dover", "Echo", "Foxtrot", "Golf", "Hotel"];
    let items: Vec<&[u8]> = renamed.iter().map(|name| name.as_bytes()).collect();
    let fresh = MerkleTree::from_iter(&items, crc8).unwrap();
    assert_eq!(tree.root(), fresh.root());
    assert_eq!(tree.nodes(), fresh.nodes());
    tree.set_at(3, b"Delta").unwrap();
    assert_eq!(tree.root(), &vec![0x0B]);
}

#[test]
fn tree_of_one_leaf() {
    let mut tree = MerkleTree::new(1, crc8).unwrap();
    assert_eq!(tree.leaf_count(), 1);
    assert_eq!(tree.root(), &vec![0u8]);
    tree.set_at(0, b"Alpha").unwrap();
    assert_eq!(tree.root(), &vec![0x47]);
    assert_eq!(tree.nodes().to_vec(), vec![vec![0x47]]);
    assert_eq!(tree.leaves().to_vec(), vec![vec![0x47]]);
    let path = tree.proof_for(0).unwrap();
    assert_eq!(path.iter().count(), 0);
    assert_eq!(path, Proof::new(1));
    assert_eq!(&MerkleTree::verify(&path, b"Alpha", crc8), tree.root());
    assert_eq!(tree.set_at(1, b"Bravo"), Err(MerkleError::IndexOutOfRange));
    assert_eq!(tree.to_node_index(0).inner(), 1);
    assert!(tree.to_node_index(0).is_root());
}

#[test]
fn tree_of_two_leaves() {
    let items: Vec<&[u8]> = vec![b"left", b"right"];
    let tree = MerkleTree::from_iter(&items, echo).unwrap();
    assert_eq!(tree.root(), &b"leftright".to_vec());
    assert_eq!(
        steps_of(&tree.proof_for(0).unwrap()),
        vec![(b"right".to_vec(), Location::Right)]
    );
    assert_eq!(
        steps_of(&tree.proof_for(1).unwrap()),
        vec![(b"left".to_vec(), Location::Left)]
    );
}

#[test]
fn assignment_out_of_range_is_refused_and_changes_nothing() {
    let mut tree = named_tree();
    let before = tree.nodes().to_vec();
    assert_eq!(tree.set_at(8, b"India"), Err(MerkleError::IndexOutOfRange));
    assert_eq!(tree.set_at(usize::MAX, b"India"), Err(MerkleError::IndexOutOfRange));
    assert_eq!(tree.nodes().to_vec(), before);
    assert_eq!(tree.set_at(7, b"Hotel"), Ok(()));
}

#[test]
fn proof_out_of_range_is_refused() {
    let tree = named_tree();
    assert_eq!(tree.proof_for(8).err(), Some(MerkleError::IndexOutOfRange));
    assert_eq!(tree.proof_for(usize::MAX).err(), Some(MerkleError::IndexOutOfRange));
    assert!(tree.proof_for(7).is_ok());
}

#[test]
fn proof_is_a_snapshot() {
    let mut tree = named_tree();
    let path = tree.proof_for(3).unwrap();
    tree.set_at(2, b"Changed").unwrap();
    assert_eq!(steps_of(&path)[0], (vec![0x7E], Location::Left));
    assert_ne!(steps_of(&tree.proof_for(3).unwrap())[0], (vec![0x7E], Location::Left));
}

#[test]
fn hasher_takes_the_empty_item() {
    let items: Vec<&[u8]> = vec![b"", b""];
    let tree = MerkleTree::from_iter(&items, crc8).unwrap();
    assert_eq!(tree.leaves().to_vec(), vec![crc8(b""), crc8(b"")]);
    let path = tree.proof_for(1).unwrap();
    assert_eq!(&MerkleTree::verify(&path, b"", crc8), tree.root());
}

#[test]
fn node_index_keeps_its_position() {
    assert_eq!(NodeIndex::new(11).inner(), 11);
    assert_eq!(NodeIndex::new(0).inner(), 0);
    assert!(NodeIndex::new(1).is_root());
    assert!(!NodeIndex::new(0).is_root());
    assert!(!NodeIndex::new(2).is_root());
}

#[test]
fn proof_step_keeps_its_digest_and_side() {
    let step = ProofStep::new(vec![1, 2, 3], Location::Right);
    assert_eq!(step.hash(), &vec![1, 2, 3]);
    assert_eq!(step.direction(), &Location::Right);
    let step = ProofStep::new(Vec::new(), Location::Left);
    assert_eq!(step.hash(), &Vec::<u8>::new());
    assert_eq!(step.direction(), &Location::Left);
}

#[test]
fn proof_keeps_its_steps_in_order() {
    let mut path = Proof::new(4);
    assert_eq!(path.iter().count(), 0);
    path.add_step(ProofStep::new(vec![1], Location::Left));
    path.add_step(ProofStep::new(vec![2], Location::Right));
    assert_eq!(
        steps_of(&path),
        vec![(vec![1], Location::Left), (vec![2], Location::Right)]
    );
}
