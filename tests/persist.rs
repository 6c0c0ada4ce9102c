use cardinal::node::{NodeFileType, NodeMetadata};
use cardinal::persist::{LoadError, FORMAT_VERSION};
use cardinal::store::{IndexNode, Store};
use cardinal::slab::SlabIndex;

fn node(name: &str, file_type: NodeFileType, parent: Option<SlabIndex>) -> IndexNode {
    IndexNode { name: name.to_string(), file_type, parent, children: vec![] }
}

fn sample() -> (Store, SlabIndex, SlabIndex, SlabIndex) {
    let mut st = Store::new();
    let root = st.insert(node("root", NodeFileType::Dir, None), None);
    let a = st.insert(
        node("a.txt", NodeFileType::File, Some(root)),
        Some(NodeMetadata::new(NodeFileType::File, Some(1), Some(2), 30)),
    );
    let sub = st.insert(node("sübdir", NodeFileType::Dir, Some(root)), None);
    let mut r = node("root", NodeFileType::Dir, None);
    r.children = vec![a, sub];
    assert!(st.nodes.set(root, r));
    (st, root, a, sub)
}

#[test]
fn load_of_save_gives_same_entries() {
    let (mut st, root, a, sub) = sample();
    assert!(st.remove(sub));
    let words = st.save();
    assert_eq!(words[0], FORMAT_VERSION);
    assert_eq!(words[1], 3);
    let back = Store::load(&words).unwrap();
    let r = back.nodes.get(root).unwrap();
    assert_eq!(r.name, "root");
    assert_eq!(r.file_type, NodeFileType::Dir);
    assert_eq!(r.children, vec![a, sub]);
    assert_eq!(r.parent, None);
    let x = back.nodes.get(a).unwrap();
    assert_eq!(x.name, "a.txt");
    assert_eq!(x.parent, Some(root));
    assert_eq!(
        back.metadata.get(a.index),
        Some(NodeMetadata::new(NodeFileType::File, Some(1), Some(2), 30))
    );
    assert_eq!(back.metadata.get(root.index), None);
    assert!(back.nodes.get(sub).is_none());
    assert_eq!(back.nodes.indices(), vec![root, a]);
    assert_eq!(back.save(), words);
}

#[test]
fn loaded_store_reuses_freed_slot_with_new_generation() {
    let (mut st, _root, _a, sub) = sample();
    assert!(st.remove(sub));
    let mut back = Store::load(&st.save()).unwrap();
    let n = back.insert(node("new", NodeFileType::File, None), None);
    assert_eq!(n.index, sub.index);
    assert_ne!(n.generation, sub.generation);
    assert!(back.nodes.get(sub).is_none());
    assert_eq!(back.nodes.get(n).unwrap().name, "new");
}

#[test]
fn non_ascii_names_survive() {
    let (st, _root, _a, sub) = sample();
    let back = Store::load(&st.save()).unwrap();
    assert_eq!(back.nodes.get(sub).unwrap().name, "sübdir");
}

#[test]
fn empty_store_round_trip() {
    let st = Store::new();
    let words = st.save();
    assert_eq!(words, vec![FORMAT_VERSION, 0]);
    let back = Store::load(&words).unwrap();
    assert_eq!(back.nodes.slot_count(), 0);
}

#[test]
fn unknown_version_is_rejected() {
    let (st, _, _, _) = sample();
    let mut words = st.save();
    words[0] = FORMAT_VERSION + 1;
    assert_eq!(Store::load(&words).err(), Some(LoadError::UnsupportedVersion));
}

#[test]
fn truncated_or_padded_words_are_corrupt() {
    let (st, _, _, _) = sample();
    let words = st.save();
    for cut in 0..words.len() {
        let r = Store::load(&words[..cut].to_vec());
        assert_eq!(r.err(), Some(LoadError::Corrupt), "cut at {}", cut);
    }
    let mut longer = words.clone();
    longer.push(0);
    assert_eq!(Store::load(&longer).err(), Some(LoadError::Corrupt));
}

#[test]
fn invalid_char_is_corrupt() {
    let mut st = Store::new();
    st.insert(node("a", NodeFileType::File, None), None);
    let mut words = st.save();
    // version, count, generation, occupied, name length, then the char.
    assert_eq!(words[5], 'a' as u64);
    words[5] = 0xD800;
    assert_eq!(Store::load(&words).err(), Some(LoadError::Corrupt));
}

#[test]
fn removal_invalidates_metadata() {
    let (mut st, _root, a, _sub) = sample();
    assert!(st.metadata.get(a.index).is_some());
    assert!(st.remove(a));
    assert!(st.metadata.get(a.index).is_none());
    assert!(!st.remove(a));
}

#[test]
fn byte_round_trip_keeps_entries() {
    let (st, root, a, sub) = sample();
    let bytes = st.save_bytes();
    assert_eq!(bytes.len(), 8 * st.save().len());
    assert_eq!(&bytes[..8], &FORMAT_VERSION.to_le_bytes());
    let back = Store::load_bytes(&bytes).unwrap();
    assert_eq!(back.nodes.indices(), vec![root, a, sub]);
    assert_eq!(back.nodes.get(sub).unwrap().name, "sübdir");
    assert_eq!(back.save_bytes(), bytes);
}

#[test]
fn byte_length_not_multiple_of_eight_is_corrupt() {
    let (st, _, _, _) = sample();
    let mut bytes = st.save_bytes();
    bytes.pop();
    assert_eq!(Store::load_bytes(&bytes).err(), Some(LoadError::Corrupt));
    assert_eq!(Store::load_bytes(&vec![]).err(), Some(LoadError::Corrupt));
}

#[test]
fn words_and_bytes_convert_both_ways() {
    let w = vec![0x0102_0304_0506_0708u64, u64::MAX, 0];
    let b = cardinal::persist::to_bytes(&w);
    assert_eq!(&b[..8], &[8, 7, 6, 5, 4, 3, 2, 1]);
    assert_eq!(&b[8..16], &[255; 8]);
    assert_eq!(cardinal::persist::from_bytes(&b), Some(w));
    assert_eq!(cardinal::persist::from_bytes(&vec![1, 2, 3]), None);
}
