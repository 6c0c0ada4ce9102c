//! Index nodes: one filesystem entry each, with optional compact metadata.
use vstd::prelude::*;

verus! {

/// The kind of a filesystem entry. `File` comes first: it is the most
/// frequent kind, so it gets the smallest tag.
#[derive(Clone, Copy, Debug, PartialEq, Eq, Structural)]
pub enum NodeFileType {
    File,
    Dir,
    Symlink,
    Unknown,
}

impl NodeFileType {
    /// Classifies an entry from the answers of a status read, in the order
    /// file, directory, symbolic link; anything else is `Unknown`.
    pub fn classify(is_file: bool, is_dir: bool, is_symlink: bool) -> (r: NodeFileType)
        ensures
            r == (if is_file {
                NodeFileType::File
            } else if is_dir {
                NodeFileType::Dir
            } else if is_symlink {
                NodeFileType::Symlink
            } else {
                NodeFileType::Unknown
            }),
    {
        if is_file {
            NodeFileType::File
        } else if is_dir {
            NodeFileType::Dir
        } else if is_symlink {
            NodeFileType::Symlink
        } else {
            NodeFileType::Unknown
        }
    }
}

/// Compact attributes of an entry; times are seconds since the unix epoch,
/// absent where the filesystem does not report them.
#[derive(Clone, Copy, Debug, PartialEq, Eq, Structural)]
pub struct NodeMetadata {
    pub file_type: NodeFileType,
    pub ctime: Option<u64>,
    pub mtime: Option<u64>,
    pub size: u64,
}

impl NodeMetadata {
    /// Metadata from the values of one status read.
    pub fn new(file_type: NodeFileType, ctime: Option<u64>, mtime: Option<u64>, size: u64) -> (r:
        NodeMetadata)
        ensures
            r == (NodeMetadata { file_type, ctime, mtime, size }),
    {
        NodeMetadata { file_type, ctime, mtime, size }
    }

    pub open spec fn is_dir(&self) -> bool {
        self.file_type == NodeFileType::Dir
    }
}

/// One entry of the scanned tree.
#[derive(Debug)]
pub struct Node {
    pub children: Vec<Node>,
    pub name: String,
    /// The kind read from the entry's status; `Unknown` where it could not be read.
    pub file_type: NodeFileType,
    pub metadata: Option<NodeMetadata>,
}

/// The mathematical value of a `Node`.
pub ghost struct NodeView {
    pub name: Seq<char>,
    pub file_type: NodeFileType,
    pub metadata: Option<NodeMetadata>,
    pub children: Seq<NodeView>,
}

impl NodeView {
    /// A node that the scanner entered as a directory.
    pub open spec fn is_dir(self) -> bool {
        self.file_type == NodeFileType::Dir
    }
}

/// The views of a sequence of nodes.
pub open spec fn views_of(s: Seq<Node>) -> Seq<NodeView>
    decreases s, 0nat,
{
    if s.len() == 0 {
        Seq::empty()
    } else {
        views_of(s.drop_last()).push(view_of(s.last()))
    }
}

/// The view of one node.
pub open spec fn view_of(n: Node) -> NodeView
    decreases n, 1nat,
{
    NodeView {
        name: n.name@,
        file_type: n.file_type,
        metadata: n.metadata,
        children: views_of(n.children@),
    }
}

/// The view of `n`, if present.
pub open spec fn opt_view(n: Option<Node>) -> Option<NodeView> {
    match n {
        Some(x) => Some(view_of(x)),
        None => None,
    }
}

impl View for Node {
    type V = NodeView;

    open spec fn view(&self) -> NodeView {
        view_of(*self)
    }
}

} // verus!
