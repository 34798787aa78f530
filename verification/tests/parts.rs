use hamt::hash::{digest_before, digests_equal, AsBytes, HashNibbles, Hasher, Sha3_256};
use hamt::ipld::{EncodeStep, NodeIpld, PointerIpld};
use hamt::link::Cid;
use hamt::namefilter::Namefilter;
use hamt::node::Node;
use hamt::pointer::{Pair, Pointer};
use hamt::store::NodeStore;
use std::rc::Rc;

#[test]
fn sha3_of_known_inputs() {
    let empty = Sha3_256::hash(&"");
    assert_eq!(
        empty[..8],
        [0xa7, 0xff, 0xc6, 0xf8, 0xbf, 0x1e, 0xd7, 0x66]
    );
    let abc = Sha3_256::hash(&"abc".to_string());
    assert_eq!(abc[..8], [0x3a, 0x98, 0x5d, 0xa7, 0x4f, 0xe2, 0x25, 0xb2]);
    assert_eq!(abc, Sha3_256::hash(&b"abc".to_vec()));
}

#[test]
fn keys_are_hashed_by_their_bytes() {
    assert_eq!("\u{e9}".as_byte_slice(), [0xc3, 0xa9]);
    assert_eq!("\u{e9}".to_string().as_byte_slice(), [0xc3, 0xa9]);
    assert_eq!(vec![1u8, 2].as_byte_slice(), [1, 2]);
}

#[test]
fn nibbles_come_high_one_first() {
    let mut digest = [0u8; 32];
    digest[0] = 0x12;
    digest[1] = 0xAB;
    digest[31] = 0x0F;
    let mut nibbles = HashNibbles::new(&digest);
    let first: Vec<usize> = (0..4).map(|_| nibbles.try_next().unwrap()).collect();
    assert_eq!(first, vec![1, 2, 10, 11]);
    assert_eq!(nibbles.get_cursor(), 4);
    let mut last = HashNibbles::with_cursor(&digest, 62);
    assert_eq!(last.try_next().unwrap(), 0);
    assert_eq!(last.try_next().unwrap(), 15);
    assert!(last.try_next().is_err());
    assert_eq!(last.get_cursor(), 64);
}

#[test]
fn digests_are_ordered_by_their_first_difference() {
    let mut a = [7u8; 32];
    let b = [7u8; 32];
    assert!(digests_equal(&a, &b));
    assert!(!digest_before(&a, &b));
    a[31] = 6;
    assert!(!digests_equal(&a, &b));
    assert!(digest_before(&a, &b));
    assert!(!digest_before(&b, &a));
    a[0] = 8;
    assert!(digest_before(&b, &a));
}

#[test]
fn bitmasks_are_written_from_the_least_significant_bit_up() {
    let store = &NodeStore::default();
    let mut node: Rc<Node<String, u64>> = Rc::new(Node::default());
    for (i, byte) in [0x00u8, 0x30, 0xE0].iter().enumerate() {
        let mut digest = [0u8; 32];
        digest[0] = *byte;
        node = node
            .set_value(
                &mut HashNibbles::new(&digest),
                format!("{}", i),
                i as u64,
                store,
            )
            .unwrap();
    }
    assert_eq!(node.bitmask.count_ones(), 3);
    assert_eq!(node.get_value_index(0), 0);
    assert_eq!(node.get_value_index(1), 1);
    assert_eq!(node.get_value_index(4), 2);
    assert_eq!(node.get_value_index(15), 3);
    assert_eq!(node.get_value_index(16), 3);
    match node.to_ipld() {
        EncodeStep::Encoded(ipld) => {
            assert_eq!(ipld.bitmask, [0b0000_1001, 0b0100_0000]);
            assert_eq!(ipld.pointers.len(), 3);
            let read: Node<String, u64> = Node::from_ipld(ipld);
            assert_eq!(*node, read);
        }
        EncodeStep::StoreBlock(_) => panic!("Expected no block to store"),
    }
}

#[test]
fn malformed_nodes_are_recognised() {
    let pair = Rc::new(Pair::new("k".to_string(), 1u64));
    let ipld = NodeIpld {
        bitmask: [1, 0],
        pointers: vec![PointerIpld::Values(vec![Rc::clone(&pair)])],
    };
    let good: Node<String, u64> = Node::from_ipld(ipld);
    assert!(good.is_well_formed());
    let ipld = NodeIpld {
        bitmask: [3, 0],
        pointers: vec![PointerIpld::Values(vec![pair])],
    };
    let bad: Node<String, u64> = Node::from_ipld(ipld);
    assert!(!bad.is_well_formed());
    let mut parent: Node<String, u64> = good.clone();
    parent.pointers[0] = Pointer::Link(hamt::link::Link::Decoded {
        value: Rc::new(bad),
        noted: None,
    });
    assert!(!parent.is_well_formed());
}

#[test]
fn a_store_keeps_the_last_node_of_an_identifier() {
    let mut store: NodeStore<String, u64> = NodeStore::default();
    let a = Cid::new(vec![1, 2]);
    let b = Cid::new(vec![1]);
    assert!(a != b);
    let empty: Rc<Node<String, u64>> = Rc::new(Node::default());
    let full = empty
        .set("k".to_string(), 1, &NodeStore::default())
        .unwrap();
    store.put(a.clone(), Rc::clone(&empty));
    store.put(b.clone(), Rc::clone(&full));
    assert_eq!(**store.get(&a).unwrap(), *empty);
    store.put(a.clone(), Rc::clone(&full));
    assert_eq!(**store.get(&a).unwrap(), *full);
    assert_eq!(**store.get(&b).unwrap(), *full);
    assert!(store.get(&Cid::new(vec![])).is_none());
}

#[test]
fn pairs_are_cloned_whole() {
    let pair = Pair::new("k".to_string(), 3u64);
    assert_eq!(pair.clone(), pair);
    assert!(pair != Pair::new("k".to_string(), 4u64));
    assert!(pair != Pair::new("l".to_string(), 3u64));
}

#[test]
fn a_new_filter_has_no_bit_set() {
    assert!(Namefilter::new().bytes.iter().all(|byte| *byte == 0));
}
