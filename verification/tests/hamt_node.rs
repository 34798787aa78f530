use hamt::hash::{AsBytes, HashNibbles, HashOutput, Hasher, Sha3_256};
use hamt::ipld::{EncodeStep, NodeIpld};
use hamt::link::{Cid, Link};
use hamt::node::Node;
use hamt::pointer::{Pair, Pointer};
use hamt::store::NodeStore;
use std::fmt::Debug;
use std::rc::Rc;

fn digest(bytes: &[u8]) -> HashOutput {
    let mut nibbles = [0u8; 32];
    nibbles[..bytes.len()].copy_from_slice(bytes);
    nibbles
}

fn hash_kv_pairs() -> Vec<(HashOutput, &'static str)> {
    vec![
        (digest(&[0xE0]), "first"),
        (digest(&[0xE1]), "second"),
        (digest(&[0xE2]), "third"),
        (digest(&[0xE3]), "fourth"),
    ]
}

#[derive(Debug, Clone)]
struct MockHasher;

impl Hasher for MockHasher {
    fn digest(_: vstd::seq::Seq<u8>) -> vstd::seq::Seq<u8> {
        unreachable!()
    }

    fn hash<K: AsBytes>(key: &K) -> HashOutput {
        let s = std::str::from_utf8(key.as_byte_slice()).unwrap();
        hash_kv_pairs()
            .into_iter()
            .find(|(_, v)| s == *v)
            .unwrap()
            .0
    }
}

/// Stores the blocks of a node and the nodes below it, and returns the identifier of the
/// node's block, which is the digest of what the block says.
fn put<K: Debug, V: Debug, H: Hasher + Debug>(node: &Rc<Node<K, V, H>>) -> Cid {
    let mut node = (**node).clone();
    loop {
        match node.to_ipld() {
            EncodeStep::StoreBlock(ipld) => node.note_cid(cid(&ipld)),
            EncodeStep::Encoded(ipld) => return cid(&ipld),
        }
    }
}

fn cid<K: Debug, V: Debug>(ipld: &NodeIpld<K, V>) -> Cid {
    let block = format!("{:?}", ipld);
    Cid::new(Sha3_256::hash(&block).to_vec())
}

#[test]
fn get_value_fetches_deeply_linked_value() {
    let store = &NodeStore::default();

    // Insert 4 values to trigger the creation of a linked node.
    let mut working_node = Rc::new(Node::<String, String, MockHasher>::default());
    for (digest, kv) in hash_kv_pairs().iter() {
        let hashnibbles = &mut HashNibbles::new(digest);
        working_node = working_node
            .set_value(hashnibbles, kv.to_string(), kv.to_string(), store)
            .unwrap();
    }

    // Get the values.
    for (digest, kv) in hash_kv_pairs().iter() {
        let hashnibbles = &mut HashNibbles::new(digest);
        let value = working_node.get_value(hashnibbles, store).unwrap();

        assert_eq!(value, Some(&Pair::new(kv.to_string(), kv.to_string())));
    }
}

#[test]
fn remove_value_canonicalizes_linked_node() {
    let store = &NodeStore::default();

    // Insert 4 values to trigger the creation of a linked node.
    let mut working_node = Rc::new(Node::<String, String, MockHasher>::default());
    for (digest, kv) in hash_kv_pairs().iter() {
        let hashnibbles = &mut HashNibbles::new(digest);
        working_node = working_node
            .set_value(hashnibbles, kv.to_string(), kv.to_string(), store)
            .unwrap();
    }

    assert_eq!(working_node.pointers.len(), 1);

    // Remove the third value.
    let third_digest = hash_kv_pairs()[2].0;
    let third_hashnibbles = &mut HashNibbles::new(&third_digest);
    working_node = working_node
        .remove_value(third_hashnibbles, store)
        .unwrap()
        .0;

    // Check that the third value is gone.
    match &working_node.pointers[0] {
        Pointer::Values(values) => {
            assert_eq!(values.len(), 3);
        }
        _ => panic!("Expected values pointer"),
    }

    let value = working_node.get_value(third_hashnibbles, store).unwrap();

    assert!(value.is_none());
}

#[test]
fn set_value_splits_when_bucket_threshold_reached() {
    let store = &NodeStore::default();

    // Insert 3 values into the HAMT.
    let mut working_node = Rc::new(Node::<String, String, MockHasher>::default());
    for (idx, (digest, kv)) in hash_kv_pairs().iter().take(3).enumerate() {
        let kv = kv.to_string();
        let hashnibbles = &mut HashNibbles::new(digest);
        working_node = working_node
            .set_value(hashnibbles, kv.clone(), kv.clone(), store)
            .unwrap();

        match &working_node.pointers[0] {
            Pointer::Values(values) => {
                assert_eq!(values.len(), idx + 1);
                assert_eq!(values[idx].key, kv.clone());
                assert_eq!(values[idx].value, kv.clone());
            }
            _ => panic!("Expected values pointer"),
        }
    }

    // Inserting the fourth value should introduce a link indirection.
    working_node = working_node
        .set_value(
            &mut HashNibbles::new(&hash_kv_pairs()[3].0),
            "fourth".to_string(),
            "fourth".to_string(),
            store,
        )
        .unwrap();

    match &working_node.pointers[0] {
        Pointer::Link(Link::Decoded { value: node, .. }) => {
            assert_eq!(node.bitmask.count_ones(), 4);
            assert_eq!(node.pointers.len(), 4);
        }
        _ => panic!("Expected link pointer"),
    }
}

#[test]
fn get_value_index_gets_correct_index() {
    let store = &NodeStore::default();
    let hash_expected_idx_samples = [
        (&[0x00], 0),
        (&[0x20], 1),
        (&[0x10], 1),
        (&[0x30], 3),
        (&[0x50], 4),
        (&[0x60], 5),
        (&[0x70], 6),
        (&[0x40], 4),
        (&[0x80], 8),
        (&[0xA0], 9),
        (&[0xB0], 10),
        (&[0xC0], 11),
        (&[0x90], 9),
        (&[0xE0], 13),
        (&[0xD0], 13),
        (&[0xF0], 15),
    ];

    let mut working_node = Rc::new(Node::<String, String>::default());
    for (hash, expected_idx) in hash_expected_idx_samples.into_iter() {
        let expected_idx: usize = expected_idx;
        let bytes = digest(&hash[..]);
        let hashnibbles = &mut HashNibbles::new(&bytes);

        working_node = working_node
            .set_value(
                hashnibbles,
                expected_idx.to_string(),
                expected_idx.to_string(),
                store,
            )
            .unwrap();

        assert_eq!(
            working_node.pointers[expected_idx],
            Pointer::Values(vec![Rc::new(Pair::new(
                expected_idx.to_string(),
                expected_idx.to_string()
            ))])
        );
        assert_eq!(
            working_node.get_value_index((hash[0] >> 4) as usize),
            expected_idx
        );
    }
}

#[test]
fn node_can_insert_pair_and_retrieve() {
    let store = NodeStore::default();
    let node = Rc::new(Node::<String, (i32, f64)>::default());

    let node = node.set("pill".into(), (10, 0.315), &store).unwrap();

    let value = node.get(&"pill".into(), &store).unwrap().unwrap();

    assert_eq!(value, &(10, 0.315));
}

#[test]
fn node_is_same_with_irrelevant_remove() {
    // These two keys' hashes have the same first nibble (7)
    let insert_key: String = "GL59 Tg4phDb  bv".into();
    let remove_key: String = "hK i3b4V4152EPOdA".into();
    assert_eq!(Sha3_256::hash(&insert_key)[0] >> 4, 7);
    assert_eq!(Sha3_256::hash(&remove_key)[0] >> 4, 7);

    let store = &NodeStore::default();
    let mut node0: Rc<Node<String, u64>> = Rc::new(Node::default());

    node0 = node0.set(insert_key.clone(), 0, store).unwrap();
    (node0, _) = node0.remove(&remove_key, store).unwrap();

    assert_eq!(node0.count_values().unwrap(), 1);
}

#[test]
fn node_history_independence_regression() {
    let store = &NodeStore::default();

    let mut node1: Rc<Node<String, u64>> = Rc::new(Node::default());
    let mut node2: Rc<Node<String, u64>> = Rc::new(Node::default());

    node1 = node1.set("key 17".into(), 508, store).unwrap();
    node1 = node1.set("key 81".into(), 971, store).unwrap();
    node1 = node1.set("key 997".into(), 365, store).unwrap();
    (node1, _) = node1.remove(&"key 17".into(), store).unwrap();
    node1 = node1.set("key 68".into(), 870, store).unwrap();
    node1 = node1.set("key 304".into(), 331, store).unwrap();

    node2 = node2.set("key 81".into(), 971, store).unwrap();
    node2 = node2.set("key 17".into(), 508, store).unwrap();
    node2 = node2.set("key 997".into(), 365, store).unwrap();
    node2 = node2.set("key 304".into(), 331, store).unwrap();
    node2 = node2.set("key 68".into(), 870, store).unwrap();
    (node2, _) = node2.remove(&"key 17".into(), store).unwrap();

    let cid1 = put(&node1);
    let cid2 = put(&node2);

    assert_eq!(cid1, cid2);
    assert_eq!(node1, node2);
}
