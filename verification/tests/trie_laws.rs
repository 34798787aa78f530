use hamt::error::HamtError;
use hamt::hash::{AsBytes, HashNibbles, HashOutput, Hasher, Sha3_256};
use hamt::ipld::{EncodeStep, NodeIpld, PointerIpld};
use hamt::link::{Cid, Link};
use hamt::node::Node;
use hamt::pointer::Pointer;
use hamt::store::NodeStore;
use std::collections::BTreeMap;
use std::fmt::Debug;
use std::rc::Rc;

/// Takes the key's bytes for its digest, filled up with zeros.
#[derive(Debug, Clone)]
struct PlainHasher;

impl Hasher for PlainHasher {
    fn digest(_: vstd::seq::Seq<u8>) -> vstd::seq::Seq<u8> {
        unreachable!()
    }

    fn hash<K: AsBytes>(key: &K) -> HashOutput {
        let bytes = key.as_byte_slice();
        let mut res = [0u8; 32];
        res[..bytes.len()].copy_from_slice(bytes);
        res
    }
}

type Plain = Node<Vec<u8>, u64, PlainHasher>;
type PlainStore = NodeStore<Vec<u8>, u64, PlainHasher>;

fn plain_node(keys: &[Vec<u8>]) -> Rc<Plain> {
    let store = PlainStore::default();
    let mut node: Rc<Plain> = Rc::new(Node::default());
    for (i, key) in keys.iter().enumerate() {
        node = node.set(key.clone(), i as u64, &store).unwrap();
    }
    node
}

/// Stores the blocks of the nodes below a node, and returns what the node's own block says.
fn encode<K: Debug, V: Debug, H: Hasher>(
    node: &mut Node<K, V, H>,
    blocks: &mut Vec<(Cid, NodeIpld<K, V>)>,
) -> NodeIpld<K, V> {
    loop {
        match node.to_ipld() {
            EncodeStep::StoreBlock(ipld) => node.note_cid(put_block(ipld, blocks)),
            EncodeStep::Encoded(ipld) => return ipld,
        }
    }
}

/// Stores a block, and returns its identifier, which is the digest of what the block says.
fn put_block<K: Debug, V: Debug>(
    ipld: NodeIpld<K, V>,
    blocks: &mut Vec<(Cid, NodeIpld<K, V>)>,
) -> Cid {
    let block = format!("{:?}", ipld);
    let cid = Cid::new(Sha3_256::hash(&block).to_vec());
    blocks.push((cid.clone(), ipld));
    cid
}

/// Stores the blocks of a node and the nodes below it, and returns the identifier of the
/// node's block.
fn put<K: Debug, V: Debug, H: Hasher>(
    node: &mut Node<K, V, H>,
    blocks: &mut Vec<(Cid, NodeIpld<K, V>)>,
) -> Cid {
    let ipld = encode(node, blocks);
    put_block(ipld, blocks)
}

fn cid<K: Debug, V: Debug, H: Hasher + Debug>(node: &Rc<Node<K, V, H>>) -> Cid {
    put(&mut (**node).clone(), &mut Vec::new())
}

#[derive(Debug, Clone, PartialEq)]
enum Operation {
    Insert(String, u64),
    Remove(String),
}

impl Operation {
    fn can_be_swapped_with(&self, other: &Operation) -> bool {
        match (self, other) {
            (Operation::Insert(a, v), Operation::Insert(b, w)) => a != b || v == w,
            (Operation::Insert(a, _), Operation::Remove(b)) => a != b,
            (Operation::Remove(a), Operation::Insert(b, _)) => a != b,
            (Operation::Remove(_), Operation::Remove(_)) => true,
        }
    }
}

struct Random(u64);

impl Random {
    fn below(&mut self, n: u64) -> u64 {
        self.0 = self
            .0
            .wrapping_mul(6364136223846793005)
            .wrapping_add(1442695040888963407);
        (self.0 >> 33) % n
    }

    fn operations(&mut self, n: usize, keys: u64) -> Vec<Operation> {
        (0..n)
            .map(|_| {
                let key = format!("key {}", self.below(keys));
                if self.below(3) > 0 {
                    Operation::Insert(key, self.below(1000))
                } else {
                    Operation::Remove(key)
                }
            })
            .collect()
    }

    /// Swaps operations next to each other, where that changes nothing.
    fn shuffle(&mut self, operations: &mut Vec<Operation>) {
        for _ in 0..operations.len() * 8 {
            let i = self.below(operations.len() as u64 - 1) as usize;
            if operations[i].can_be_swapped_with(&operations[i + 1]) {
                operations.swap(i, i + 1);
            }
        }
    }
}

fn node_from_operations(operations: &[Operation]) -> Rc<Node<String, u64>> {
    let store = &NodeStore::default();
    let mut node: Rc<Node<String, u64>> = Rc::new(Node::default());
    for op in operations {
        match op {
            Operation::Insert(key, value) => {
                node = node.set(key.clone(), *value, store).unwrap();
            }
            Operation::Remove(key) => {
                (node, _) = node.remove(key, store).unwrap();
            }
        }
    }
    node
}

fn map_from_operations(operations: &[Operation]) -> BTreeMap<String, u64> {
    let mut map = BTreeMap::new();
    for op in operations {
        match op {
            Operation::Insert(key, value) => {
                map.insert(key.clone(), *value);
            }
            Operation::Remove(key) => {
                map.remove(key);
            }
        }
    }
    map
}

#[test]
fn a_trie_is_a_map() {
    let mut random = Random(1);
    for _ in 0..20 {
        let operations = random.operations(200, 60);
        let node = node_from_operations(&operations);
        let map = map_from_operations(&operations);
        let store = &NodeStore::default();
        for i in 0..60 {
            let key = format!("key {}", i);
            assert_eq!(node.get(&key, store).unwrap(), map.get(&key));
        }
        assert!(node.is_well_formed());
        assert_eq!(node.is_empty(), map.is_empty());
    }
}

#[test]
fn operations_are_history_independent() {
    let mut random = Random(2);
    for _ in 0..30 {
        let original = random.operations(100, 40);
        let mut shuffled = original.clone();
        random.shuffle(&mut shuffled);
        assert_eq!(map_from_operations(&original), map_from_operations(&shuffled));
        let node1 = node_from_operations(&original);
        let node2 = node_from_operations(&shuffled);
        assert_eq!(node1, node2);
        assert_eq!(cid(&node1), cid(&node2));
    }
}

#[test]
fn the_shortest_history_makes_the_same_trie() {
    let mut random = Random(3);
    for _ in 0..20 {
        let operations = random.operations(150, 50);
        let shortest: Vec<Operation> = map_from_operations(&operations)
            .into_iter()
            .map(|(key, value)| Operation::Insert(key, value))
            .collect();
        let node1 = node_from_operations(&operations);
        let node2 = node_from_operations(&shortest);
        assert_eq!(cid(&node1), cid(&node2));
    }
}

#[test]
fn test_insert_idempotence() {
    let mut random = Random(4);
    let store = &NodeStore::default();
    for i in 0..20 {
        let node = node_from_operations(&random.operations(100, 40));
        let once = node.set(format!("key {}", i), 5, store).unwrap();
        let twice = once.set(format!("key {}", i), 5, store).unwrap();
        assert_eq!(once, twice);
        assert_eq!(cid(&once), cid(&twice));
        let other = node.set(format!("key {}", i), 6, store).unwrap();
        let over = other.set(format!("key {}", i), 5, store).unwrap();
        assert_eq!(once, over);
        assert_eq!(cid(&once), cid(&over));
        assert_ne!(cid(&once), cid(&other));
    }
}

#[test]
fn test_remove_idempotence() {
    let mut random = Random(5);
    let store = &NodeStore::default();
    for i in 0..20 {
        let node = node_from_operations(&random.operations(100, 40));
        let (once, _) = node.remove(&format!("key {}", i), store).unwrap();
        let (twice, removed) = once.remove(&format!("key {}", i), store).unwrap();
        assert!(removed.is_none());
        assert_eq!(once, twice);
        assert_eq!(cid(&once), cid(&twice));
    }
}

#[test]
fn removing_undoes_setting_and_the_other_way() {
    let mut random = Random(6);
    let store = &NodeStore::default();
    for _ in 0..20 {
        let node = node_from_operations(&random.operations(100, 40));
        let grown = node.set("new key".to_string(), 7, store).unwrap();
        let (shrunk, removed) = grown.remove(&"new key".to_string(), store).unwrap();
        let removed = removed.unwrap();
        assert_eq!(removed.key, "new key");
        assert_eq!(removed.value, 7);
        assert_eq!(node, shrunk);
        let again = shrunk.set(removed.key, removed.value, store).unwrap();
        assert_eq!(grown, again);
    }
}

#[test]
fn removing_what_is_not_there_changes_nothing() {
    let store = &PlainStore::default();
    let node = plain_node(&[vec![0x11], vec![0x12], vec![0x13], vec![0x14]]);
    for absent in [vec![0x15], vec![0x20], vec![0x11, 0x01]] {
        let (same, removed) = node.remove(&absent, store).unwrap();
        assert!(removed.is_none());
        assert_eq!(node, same);
    }
}

#[test]
fn node_can_encode_decode() {
    let mut random = Random(7);
    for _ in 0..10 {
        let mut node = (*node_from_operations(&random.operations(300, 100))).clone();
        let mut blocks = Vec::new();
        let root = put(&mut node, &mut blocks);
        let node = Rc::new(node);

        // Only the root is read at first.
        let mut store = NodeStore::default();
        let mut read: Option<Rc<Node<String, u64>>> = None;
        let mut rest = Vec::new();
        for (cid, ipld) in blocks {
            let decoded = Rc::new(Node::from_ipld(ipld));
            assert!(decoded.is_well_formed());
            if cid == root {
                read = Some(decoded);
            } else {
                rest.push((cid, decoded));
            }
        }
        let read = read.unwrap();
        assert_eq!(*node, *read);
        assert_eq!(cid(&read), root);

        // The other blocks are loaded when a lookup asks for them.
        let empty = NodeStore::default();
        for i in 0..100 {
            let key = format!("key {}", i);
            loop {
                let wanted = match read.get(&key, &store) {
                    Err(HamtError::BlockNotFound { cid }) => cid,
                    found => {
                        assert_eq!(found.unwrap(), node.get(&key, &empty).unwrap());
                        break;
                    }
                };
                assert!(store.get(&wanted).is_none());
                let (cid, loaded) = rest.iter().find(|(cid, _)| *cid == wanted).unwrap();
                store.put(cid.clone(), Rc::clone(loaded));
            }
        }

        // A change to the partly loaded trie is the change to the trie in memory.
        let a = read.set("key 5".to_string(), 1, &store).unwrap();
        let b = node.set("key 5".to_string(), 1, &empty).unwrap();
        assert_eq!(cid(&a), cid(&b));
        let (a, removed_a) = a.remove(&"key 6".to_string(), &store).unwrap();
        let (b, removed_b) = b.remove(&"key 6".to_string(), &empty).unwrap();
        assert_eq!(removed_a, removed_b);
        assert_eq!(cid(&a), cid(&b));
    }
}

#[test]
fn what_is_read_equals_what_was_written() {
    let mut random = Random(8);
    for _ in 0..10 {
        let node = node_from_operations(&random.operations(300, 100));
        let mut encoded = (*node).clone();
        let mut blocks = Vec::new();
        let ipld = encode(&mut encoded, &mut blocks);
        assert!(!blocks.is_empty());
        let read = Node::from_ipld(ipld);
        assert_eq!(encoded, read);
        assert_eq!(read, encoded);

        // Encoding changes nothing else.
        let encoded = Rc::new(encoded);
        assert_eq!(encoded, node);

        // The nodes further down are read back as well.
        for pointer in encoded.pointers.iter() {
            if let Pointer::Link(Link::Decoded { value, noted }) = pointer {
                let cid = noted.as_ref().unwrap();
                let at = blocks.iter().position(|(c, _)| c == cid).unwrap();
                let child = Node::from_ipld(blocks.remove(at).1);
                assert_eq!(**value, child);
            }
        }

        // What has been stored does not have to be stored again.
        let mut blocks = Vec::new();
        encode(&mut (*encoded).clone(), &mut blocks);
        assert!(blocks.is_empty());

        // A change leaves no identifier behind that is no longer right, and leaves those that
        // are.
        let empty = NodeStore::default();
        for i in 0..100 {
            let key = format!("key {}", i);
            let a = encoded.set(key.clone(), 2000, &empty).unwrap();
            let b = node.set(key.clone(), 2000, &empty).unwrap();
            assert_eq!(cid(&a), cid(&b));
            let mut blocks = Vec::new();
            encode(&mut (*a).clone(), &mut blocks);
            assert!(blocks.len() <= 2);
            let (a, _) = encoded.remove(&key, &empty).unwrap();
            let (b, _) = node.remove(&key, &empty).unwrap();
            assert_eq!(cid(&a), cid(&b));
        }
    }
}

#[test]
fn blocks_are_stored_and_noted_from_the_first_pointer_and_from_below() {
    // Two links from the root, the first of which leads through a second node.
    let keys: Vec<Vec<u8>> = (0u8..8)
        .map(|i| {
            if i < 4 {
                vec![0x11, 0x10 * i]
            } else {
                vec![0x30 + i]
            }
        })
        .collect();
    let mut node = (*plain_node(&keys)).clone();
    let mut links = Vec::new();
    for i in 7u8..10 {
        match node.to_ipld() {
            EncodeStep::StoreBlock(ipld) => links.push(
                ipld.pointers
                    .iter()
                    .filter(|p| matches!(p, PointerIpld::Link(_)))
                    .count(),
            ),
            EncodeStep::Encoded(_) => panic!("Expected a block to store"),
        }
        node.note_cid(Cid::new(vec![i]));
    }
    assert_eq!(links, vec![0, 1, 0]);
    match node.to_ipld() {
        EncodeStep::Encoded(ipld) => {
            assert!(matches!(&ipld.pointers[0], PointerIpld::Link(cid) if cid.bytes == [8]));
            assert!(matches!(&ipld.pointers[1], PointerIpld::Link(cid) if cid.bytes == [9]));
        }
        EncodeStep::StoreBlock(_) => panic!("Expected no block to store"),
    }
    let before = format!("{:?}", node);
    node.note_cid(Cid::new(vec![10]));
    assert_eq!(format!("{:?}", node), before);
}

#[test]
fn operations_ask_for_missing_blocks() {
    let mut node = (*plain_node(&[vec![0x11], vec![0x12], vec![0x13], vec![0x14]])).clone();
    let mut blocks = Vec::new();
    let root = put(&mut node, &mut blocks);
    assert_eq!(blocks.len(), 2);
    let (root_cid, root_ipld) = blocks.pop().unwrap();
    let (child_cid, child_ipld) = blocks.pop().unwrap();
    assert_eq!(root, root_cid);
    let read: Rc<Plain> = Rc::new(Node::from_ipld(root_ipld));
    assert_eq!(*read, node);

    let mut store = PlainStore::default();
    let mut nibbles_digest = [0u8; 32];
    nibbles_digest[0] = 0x12;
    let mut nibbles = HashNibbles::new(&nibbles_digest);
    match read.get_value(&mut nibbles, &store) {
        Err(HamtError::BlockNotFound { cid }) => assert_eq!(cid, child_cid),
        _ => panic!("Expected a missing block"),
    }
    assert_eq!(nibbles.get_cursor(), 1);
    match read.set(vec![0x15], 9, &store) {
        Err(HamtError::BlockNotFound { cid }) => assert_eq!(cid, child_cid),
        _ => panic!("Expected a missing block"),
    }
    match read.remove(&vec![0x12], &store) {
        Err(HamtError::BlockNotFound { cid }) => assert_eq!(cid, child_cid),
        _ => panic!("Expected a missing block"),
    }
    // A path that does not lead through the block needs no block.
    assert!(read.get(&vec![0x22], &store).unwrap().is_none());

    store.put(child_cid.clone(), Rc::new(Node::from_ipld(child_ipld)));
    assert_eq!(read.get(&vec![0x12], &store).unwrap(), Some(&1));
    let (shrunk, removed) = read.remove(&vec![0x12], &store).unwrap();
    assert_eq!(removed.unwrap().value, 1);
    assert_eq!(shrunk.count_values().unwrap(), 3);
}

#[test]
fn digests_that_differ_late_are_told_apart() {
    let store = &PlainStore::default();
    // Digests that agree on all but the last nibble.
    let keys: Vec<Vec<u8>> = (0..16u8)
        .map(|i| {
            let mut key = vec![0xABu8; 32];
            key[31] = 0xA0 | i;
            key
        })
        .collect();
    let mut node = plain_node(&keys);
    for (i, key) in keys.iter().enumerate() {
        assert_eq!(node.get(key, store).unwrap(), Some(&(i as u64)));
    }
    let mut nibbles_digest = [0xABu8; 32];
    nibbles_digest[31] = 0xA3;
    let mut nibbles = HashNibbles::new(&nibbles_digest);
    assert_eq!(node.get_value(&mut nibbles, store).unwrap().unwrap().value, 3);
    assert_eq!(nibbles.get_cursor(), 64);
    for key in keys.iter().take(13) {
        (node, _) = node.remove(key, store).unwrap();
    }
    // Three are left, and come up to the root.
    assert_eq!(node.count_values().unwrap(), 3);
    for key in keys.iter().skip(13) {
        let removed;
        (node, removed) = node.remove(key, store).unwrap();
        assert_eq!(&removed.unwrap().key, key);
    }
    assert!(node.is_empty());
    assert_eq!(*node, Plain::default());
}

#[test]
fn a_path_ends_with_its_digest() {
    let store = &PlainStore::default();
    let node: Rc<Plain> = Rc::new(Node::default());
    let digest = [0u8; 32];
    let mut nibbles = HashNibbles::with_cursor(&digest, 64);
    assert!(matches!(
        node.get_value(&mut nibbles, store),
        Err(HamtError::CursorOutOfBounds)
    ));
    assert!(matches!(
        node.set_value(&mut nibbles, vec![1], 1, store),
        Err(HamtError::CursorOutOfBounds)
    ));
    assert!(matches!(
        node.remove_value(&mut nibbles, store),
        Err(HamtError::CursorOutOfBounds)
    ));
    assert_eq!(nibbles.get_cursor(), 64);

    // A full bucket below the last nibble cannot be split.
    let mut node = node;
    for i in 0..3 {
        let mut nibbles = HashNibbles::with_cursor(&digest, 63);
        node = node
            .set_value(&mut nibbles, vec![i + 1], i as u64, store)
            .unwrap();
    }
    let mut nibbles = HashNibbles::with_cursor(&digest, 63);
    assert!(matches!(
        node.set_value(&mut nibbles, vec![9], 9, store),
        Err(HamtError::CursorOutOfBounds)
    ));
}

#[test]
fn buckets_are_in_the_order_of_digests() {
    let node = plain_node(&[vec![0x13], vec![0x11, 0x05], vec![0x11, 0x04]]);
    match &node.pointers[0] {
        Pointer::Values(values) => {
            let keys: Vec<Vec<u8>> = values.iter().map(|p| p.key.clone()).collect();
            assert_eq!(keys, vec![vec![0x11, 0x04], vec![0x11, 0x05], vec![0x13]]);
        }
        _ => panic!("Expected values pointer"),
    }
}

#[test]
fn values_are_found_and_removed_by_hash() {
    let store = &NodeStore::default();
    let node: Rc<Node<String, u64>> = Rc::new(Node::default());
    let node = node.set("a".to_string(), 1, store).unwrap();
    let hash = Sha3_256::hash(&"a".to_string());
    let other = Sha3_256::hash(&"b".to_string());
    assert_eq!(node.get_by_hash(&hash, store).unwrap(), Some(&1));
    assert_eq!(node.get_by_hash(&other, store).unwrap(), None);
    let found = node.get_value(&mut HashNibbles::new(&hash), store).unwrap();
    assert_eq!(Sha3_256::hash(&found.unwrap().key), hash);
    let (same, removed) = node.remove_by_hash(&other, store).unwrap();
    assert_eq!(removed, None);
    assert_eq!(node, same);
    let (empty, removed) = node.remove_by_hash(&hash, store).unwrap();
    assert_eq!(removed, Some(1));
    assert!(empty.is_empty());
    assert!(!node.is_empty());
}

#[test]
fn values_are_counted_where_there_are_no_links() {
    let mut keys: Vec<Vec<u8>> = vec![vec![0x11], vec![0x12], vec![0x13], vec![0x24]];
    assert_eq!(plain_node(&[]).count_values().unwrap(), 0);
    assert_eq!(plain_node(&keys).count_values().unwrap(), 4);
    keys.push(vec![0x14]);
    let node = plain_node(&keys);
    assert!(matches!(node.pointers[0], Pointer::Link(Link::Decoded { .. })));
    assert!(matches!(
        node.count_values(),
        Err(HamtError::ValuesPointerExpected)
    ));
}

#[test]
fn equality_looks_at_slots_and_pointers() {
    let a = plain_node(&[vec![0x11], vec![0x22]]);
    let b = plain_node(&[vec![0x11], vec![0x32]]);
    assert_ne!(*a, *b);
    let store = &PlainStore::default();
    let c = a.set(vec![0x22], 5, store).unwrap();
    assert_ne!(a, c);
    let d = c.set(vec![0x22], 1, store).unwrap();
    assert_eq!(a, d);
    assert_eq!(*a, (*a).clone());
}
