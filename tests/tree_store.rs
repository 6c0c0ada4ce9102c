use cardinal::node::{Node, NodeFileType, NodeMetadata};
use cardinal::store::Store;

fn leaf(name: &str, file_type: NodeFileType, metadata: Option<NodeMetadata>) -> Node {
    Node { children: vec![], name: name.to_string(), file_type, metadata }
}

fn sample() -> Node {
    let dir_meta = NodeMetadata::new(NodeFileType::Dir, None, Some(9), 64);
    let file_meta = NodeMetadata::new(NodeFileType::File, Some(1), Some(2), 3);
    Node {
        name: "root".to_string(),
        file_type: NodeFileType::Dir,
        metadata: Some(dir_meta),
        children: vec![
            leaf("a.txt", NodeFileType::File, Some(file_meta)),
            Node {
                name: "sub".to_string(),
                file_type: NodeFileType::Dir,
                metadata: Some(dir_meta),
                children: vec![leaf("b.txt", NodeFileType::File, None)],
            },
        ],
    }
}

#[test]
fn tree_is_stored_with_links_and_metadata() {
    let (st, root) = Store::from_tree(&sample());
    let r = st.nodes.get(root).unwrap();
    assert_eq!(r.name, "root");
    assert_eq!(r.file_type, NodeFileType::Dir);
    assert_eq!(r.parent, None);
    assert_eq!(r.children.len(), 2);
    let a = st.nodes.get(r.children[0]).unwrap();
    assert_eq!(a.name, "a.txt");
    assert_eq!(a.file_type, NodeFileType::File);
    assert_eq!(a.parent, Some(root));
    assert_eq!(st.metadata.get(r.children[0].index).unwrap().size, 3);
    let sub = st.nodes.get(r.children[1]).unwrap();
    assert_eq!(sub.name, "sub");
    assert_eq!(sub.children.len(), 1);
    let b = st.nodes.get(sub.children[0]).unwrap();
    assert_eq!(b.name, "b.txt");
    assert_eq!(b.file_type, NodeFileType::File);
    assert_eq!(b.parent, Some(r.children[1]));
    assert_eq!(st.metadata.get(sub.children[0].index), None);
    assert_eq!(st.nodes.indices().len(), 4);
}

#[test]
fn second_tree_reuses_free_slots_and_keeps_the_first() {
    let (mut st, root) = Store::from_tree(&sample());
    let a = st.nodes.get(root).unwrap().children[0];
    assert!(st.remove(a));
    let other = st.insert_tree(&leaf("c", NodeFileType::Symlink, None), Some(root));
    assert_eq!(other.index, a.index);
    assert!(st.nodes.get(a).is_none());
    assert_eq!(st.nodes.get(other).unwrap().name, "c");
    assert_eq!(st.nodes.get(other).unwrap().file_type, NodeFileType::Symlink);
    assert_eq!(st.nodes.get(root).unwrap().name, "root");
}

#[test]
fn stored_tree_survives_save_and_load() {
    let (st, root) = Store::from_tree(&sample());
    let back = Store::load_bytes(&st.save_bytes()).unwrap();
    let r = back.nodes.get(root).unwrap();
    assert_eq!(r.name, "root");
    assert_eq!(back.metadata.get(root.index).unwrap().mtime, Some(9));
    let sub = back.nodes.get(r.children[1]).unwrap();
    assert_eq!(back.nodes.get(sub.children[0]).unwrap().name, "b.txt");
}
