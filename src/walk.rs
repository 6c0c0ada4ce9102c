//! The scanner: turns a snapshot of a directory tree, read without following
//! symbolic links, into a tree of `Node`s, and counts what it visits.
use vstd::prelude::*;
use crate::node::{Node, NodeMetadata, NodeView, NodeFileType, view_of, views_of, opt_view};

verus! {

/// Why a status read failed.
#[derive(Clone, Copy, Debug, PartialEq, Eq, Structural)]
pub enum ReadError {
    /// The entry is gone: it lost a race with a deletion.
    NotFound,
    /// A signal interrupted the read.
    Interrupted,
    /// Anything else, such as a denied permission.
    Other,
}

/// What reading an entry's status, without following links, settled on.
#[derive(Clone, Copy, Debug, PartialEq, Eq, Structural)]
pub enum StatusRead {
    Found(NodeMetadata),
    Missing,
    Unreadable,
}

/// A failed read is tried again only when it was interrupted.
pub fn handle_error_and_retry(failed: &ReadError) -> (r: bool)
    ensures
        r == (*failed == ReadError::Interrupted),
{
    match failed {
        ReadError::Interrupted => true,
        _ => false,
    }
}

/// The status that a read's outcome settles on: metadata when it succeeded,
/// `Missing` when the entry was not found, `Unreadable` otherwise.
pub fn settle_status(outcome: Result<NodeMetadata, ReadError>) -> (r: StatusRead)
    ensures
        r == (match outcome {
            Ok(m) => StatusRead::Found(m),
            Err(ReadError::NotFound) => StatusRead::Missing,
            Err(_) => StatusRead::Unreadable,
        }),
{
    match outcome {
        Ok(m) => StatusRead::Found(m),
        Err(ReadError::NotFound) => StatusRead::Missing,
        Err(_) => StatusRead::Unreadable,
    }
}

/// One entry of a snapshot: its final path component, its status, and, for a
/// directory that was listed, its entries.
#[derive(Debug)]
pub struct FsEntry {
    pub name: String,
    pub status: StatusRead,
    pub entries: Vec<FsEntry>,
}

/// A path as the sequence of its components.
pub open spec fn path_view(p: Seq<String>) -> Seq<Seq<char>> {
    p.map_values(|s: String| s@)
}

/// The node that scanning `e` at `path` yields, or `None` where it is dropped.
pub open spec fn spec_walk(
    e: FsEntry,
    path: Seq<Seq<char>>,
    ignore: Option<Seq<Seq<char>>>,
    need_metadata: bool,
) -> Option<NodeView>
    decreases e, 1nat,
{
    if ignore == Some(path) {
        None
    } else {
        match e.status {
            StatusRead::Missing => None,
            StatusRead::Unreadable => Some(
                NodeView {
                    name: e.name@,
                    file_type: NodeFileType::Unknown,
                    metadata: None,
                    children: Seq::empty(),
                },
            ),
            StatusRead::Found(m) => if m.is_dir() {
                Some(
                    NodeView {
                        name: e.name@,
                        file_type: m.file_type,
                        metadata: Some(m),
                        children: spec_walk_entries(e.entries@, path, ignore, need_metadata),
                    },
                )
            } else {
                Some(
                    NodeView {
                        name: e.name@,
                        file_type: m.file_type,
                        metadata: if need_metadata {
                            Some(m)
                        } else {
                            None
                        },
                        children: Seq::empty(),
                    },
                )
            },
        }
    }
}

/// The nodes that the entries `s` of the directory at `path` yield, in order.
pub open spec fn spec_walk_entries(
    s: Seq<FsEntry>,
    path: Seq<Seq<char>>,
    ignore: Option<Seq<Seq<char>>>,
    need_metadata: bool,
) -> Seq<NodeView>
    decreases s, 0nat,
{
    if s.len() == 0 {
        Seq::empty()
    } else {
        let prev = spec_walk_entries(s.drop_last(), path, ignore, need_metadata);
        match spec_walk(s.last(), path.push(s.last().name@), ignore, need_metadata) {
            Some(n) => prev.push(n),
            None => prev,
        }
    }
}

/// Files (every node that is not a directory) strictly below `n`.
pub open spec fn files_below(n: NodeView) -> nat
    decreases n, 1nat,
{
    files_in(n.children)
}

/// Files among the nodes `s` and below them.
pub open spec fn files_in(s: Seq<NodeView>) -> nat
    decreases s, 0nat,
{
    if s.len() == 0 {
        0
    } else {
        files_in(s.drop_last()) + (if s.last().is_dir() {
            0nat
        } else {
            1nat
        }) + files_below(s.last())
    }
}

/// Directories strictly below `n`.
pub open spec fn dirs_below(n: NodeView) -> nat
    decreases n, 1nat,
{
    dirs_in(n.children)
}

/// Directories among the nodes `s` and below them.
pub open spec fn dirs_in(s: Seq<NodeView>) -> nat
    decreases s, 0nat,
{
    if s.len() == 0 {
        0
    } else {
        dirs_in(s.drop_last()) + (if s.last().is_dir() {
            1nat
        } else {
            0nat
        }) + dirs_below(s.last())
    }
}

/// Nodes strictly below `n`.
pub open spec fn nodes_below(n: NodeView) -> nat
    decreases n, 1nat,
{
    nodes_in(n.children)
}

/// Nodes among `s` and below them.
pub open spec fn nodes_in(s: Seq<NodeView>) -> nat
    decreases s, 0nat,
{
    if s.len() == 0 {
        0
    } else {
        nodes_in(s.drop_last()) + 1 + nodes_below(s.last())
    }
}

/// `x`, held at the largest `usize`.
pub open spec fn saturated(x: int) -> int {
    if x > usize::MAX {
        usize::MAX as int
    } else {
        x
    }
}

/// Files strictly below the root `r`, if any.
pub open spec fn files_of(r: Option<NodeView>) -> nat {
    match r {
        Some(n) => files_below(n),
        None => 0,
    }
}

/// Directories strictly below the root `r`, if any.
pub open spec fn dirs_of(r: Option<NodeView>) -> nat {
    match r {
        Some(n) => dirs_below(n),
        None => 0,
    }
}

/// The settings and progress counters of one scan.
#[derive(Debug)]
pub struct WalkData {
    pub num_files: usize,
    pub num_dirs: usize,
    pub ignore_directory: Option<Vec<String>>,
    /// If set, files get metadata; directories get it in any case.
    pub need_metadata: bool,
}

impl WalkData {
    /// The path that is never scanned, if any.
    pub open spec fn ignore_spec(&self) -> Option<Seq<Seq<char>>> {
        match self.ignore_directory {
            Some(p) => Some(path_view(p@)),
            None => None,
        }
    }

    /// Whether files get metadata.
    pub open spec fn need_metadata_spec(&self) -> bool {
        self.need_metadata
    }

    /// Settings that skip `path` and collect file metadata when `need_metadata`.
    pub fn new(path: Vec<String>, need_metadata: bool) -> (r: WalkData)
        ensures
            r.num_files == 0,
            r.num_dirs == 0,
            r.ignore_spec() == Some(path_view(path@)),
            r.need_metadata_spec() == need_metadata,
    {
        WalkData { num_files: 0, num_dirs: 0, ignore_directory: Some(path), need_metadata }
    }

    /// Whether `path` is the ignored path.
    pub fn ignores(&self, path: &Vec<String>) -> (r: bool)
        ensures
            r == (self.ignore_spec() == Some(path_view(path@))),
    {
        match &self.ignore_directory {
            None => false,
            Some(p) => {
                if p.len() != path.len() {
                    proof {
                        assert(path_view(p@).len() != path_view(path@).len());
                    }
                    return false;
                }
                let mut i: usize = 0;
                while i < p.len()
                    invariant
                        p.len() == path.len(),
                        i <= p.len(),
                        self.ignore_spec() == Some(path_view(p@)),
                        forall|k: int| 0 <= k < i ==> p@[k]@ == path@[k]@,
                    decreases p.len() - i,
                {
                    let same: bool = p[i] == path[i];
                    if !same {
                        proof {
                            assert(path_view(p@)[i as int] != path_view(path@)[i as int]);
                        }
                        return false;
                    }
                    i = i + 1;
                }
                proof {
                    assert(path_view(p@) =~= path_view(path@));
                }
                true
            },
        }
    }
}

impl Default for WalkData {
    /// Settings that skip nothing and collect no file metadata.
    fn default() -> (r: WalkData)
        ensures
            r.num_files == 0,
            r.num_dirs == 0,
            r.ignore_spec() == None::<Seq<Seq<char>>>,
            !r.need_metadata_spec(),
    {
        WalkData { num_files: 0, num_dirs: 0, ignore_directory: None, need_metadata: false }
    }
}

/// Views of nodes grow by one when a node is pushed.
proof fn lemma_views_push(s: Seq<Node>, n: Node)
    ensures
        views_of(s.push(n)) == views_of(s).push(view_of(n)),
{
    assert(s.push(n).drop_last() =~= s);
}

/// Counts of a sequence grow by what the pushed node brings.
proof fn lemma_counts_push(s: Seq<NodeView>, n: NodeView)
    ensures
        files_in(s.push(n)) == files_in(s) + (if n.is_dir() {
            0nat
        } else {
            1nat
        }) + files_below(n),
        dirs_in(s.push(n)) == dirs_in(s) + (if n.is_dir() {
            1nat
        } else {
            0nat
        }) + dirs_below(n),
{
    assert(s.push(n).drop_last() =~= s);
}

/// Adds one to a progress counter, holding at the largest `usize`.
fn bump(x: usize) -> (r: usize)
    ensures
        r == saturated(x + 1),
{
    if x < usize::MAX {
        x + 1
    } else {
        x
    }
}

/// Scans `entry`, which stands at `path`; counts every node it yields below
/// `entry` itself.
fn walk(entry: &FsEntry, path: &mut Vec<String>, walk_data: &mut WalkData) -> (r: Option<Node>)
    ensures
        opt_view(r) == spec_walk(
            *entry,
            path_view(old(path)@),
            old(walk_data).ignore_spec(),
            old(walk_data).need_metadata,
        ),
        final(path)@ == old(path)@,
        final(walk_data).ignore_directory == old(walk_data).ignore_directory,
        final(walk_data).need_metadata == old(walk_data).need_metadata,
        final(walk_data).num_files == saturated(
            old(walk_data).num_files + files_of(opt_view(r)),
        ),
        final(walk_data).num_dirs == saturated(
            old(walk_data).num_dirs + dirs_of(opt_view(r)),
        ),
    decreases entry,
{
    if walk_data.ignores(path) {
        return None;
    }
    let ghost pv = path_view(path@);
    let ghost ignore = walk_data.ignore_spec();
    let ghost need = walk_data.need_metadata;
    match entry.status {
        StatusRead::Missing => None,
        StatusRead::Unreadable => {
            let r = Node {
                children: Vec::new(),
                name: entry.name.clone(),
                file_type: NodeFileType::Unknown,
                metadata: None,
            };
            proof {
                assert(views_of(r.children@) =~= Seq::<NodeView>::empty());
            }
            Some(r)
        },
        StatusRead::Found(m) => {
            if m.file_type == NodeFileType::Dir {
                let mut children: Vec<Node> = Vec::new();
                let mut i: usize = 0;
                proof {
                    assert(entry.entries@.subrange(0, 0) =~= Seq::<FsEntry>::empty());
                    assert(views_of(children@) =~= Seq::<NodeView>::empty());
                }
                while i < entry.entries.len()
                    invariant
                        i <= entry.entries.len(),
                        path_view(path@) == pv,
                        path@ == old(path)@,
                        walk_data.ignore_spec() == ignore,
                        walk_data.ignore_directory == old(walk_data).ignore_directory,
                        walk_data.need_metadata == need,
                        need == old(walk_data).need_metadata,
                        ignore == old(walk_data).ignore_spec(),
                        pv == path_view(old(path)@),
                        views_of(children@) == spec_walk_entries(
                            entry.entries@.subrange(0, i as int),
                            pv,
                            ignore,
                            need,
                        ),
                        walk_data.num_files == saturated(
                            old(walk_data).num_files + files_in(views_of(children@)),
                        ),
                        walk_data.num_dirs == saturated(
                            old(walk_data).num_dirs + dirs_in(views_of(children@)),
                        ),
                    decreases entry.entries.len() - i,
                {
                    let child = &entry.entries[i];
                    path.push(child.name.clone());
                    proof {
                        assert(path_view(path@) =~= pv.push(child.name@));
                    }
                    let ghost files_before = walk_data.num_files;
                    let ghost dirs_before = walk_data.num_dirs;
                    let res = walk(child, path, walk_data);
                    path.pop();
                    proof {
                        assert(path@ =~= old(path)@);
                        let sub = entry.entries@.subrange(0, i as int + 1);
                        assert(sub.drop_last() =~= entry.entries@.subrange(0, i as int));
                        assert(sub.last() == *child);
                    }
                    match res {
                        Some(n) => {
                            proof {
                                lemma_views_push(children@, n);
                                lemma_counts_push(views_of(children@), view_of(n));
                            }
                            if n.file_type == NodeFileType::Dir {
                                walk_data.num_dirs = bump(walk_data.num_dirs);
                            } else {
                                walk_data.num_files = bump(walk_data.num_files);
                            }
                            children.push(n);
                        },
                        None => {},
                    }
                    i = i + 1;
                }
                proof {
                    assert(entry.entries@.subrange(0, i as int) =~= entry.entries@);
                }
                Some(
                    Node {
                        children,
                        name: entry.name.clone(),
                        file_type: m.file_type,
                        metadata: Some(m),
                    },
                )
            } else {
                let r = Node {
                    children: Vec::new(),
                    name: entry.name.clone(),
                    file_type: m.file_type,
                    metadata: if walk_data.need_metadata {
                        Some(m)
                    } else {
                        None
                    },
                };
                proof {
                    assert(views_of(r.children@) =~= Seq::<NodeView>::empty());
                }
                Some(r)
            }
        },
    }
}

/// Scans the snapshot `root` of the directory at `dir`. Yields nothing when
/// `dir` is the ignored path or is missing; counts every node below the root.
pub fn walk_it(dir: &Vec<String>, root: &FsEntry, walk_data: &mut WalkData) -> (r: Option<Node>)
    ensures
        opt_view(r) == spec_walk(
            *root,
            path_view(dir@),
            old(walk_data).ignore_spec(),
            old(walk_data).need_metadata,
        ),
        final(walk_data).ignore_directory == old(walk_data).ignore_directory,
        final(walk_data).need_metadata == old(walk_data).need_metadata,
        final(walk_data).num_files == saturated(
            old(walk_data).num_files + files_of(opt_view(r)),
        ),
        final(walk_data).num_dirs == saturated(
            old(walk_data).num_dirs + dirs_of(opt_view(r)),
        ),
{
    let mut path = dir.clone();
    proof {
        assert(path@ =~= dir@);
    }
    walk(root, &mut path, walk_data)
}

/// Every node below `n` is counted once, as a file or as a directory.
pub proof fn lemma_counts_cover_nodes(n: NodeView)
    ensures
        files_below(n) + dirs_below(n) == nodes_below(n),
    decreases n, 1nat,
{
    lemma_counts_cover_seq(n.children);
}

/// Every node among `s` and below them is counted once, as a file or as a
/// directory.
pub proof fn lemma_counts_cover_seq(s: Seq<NodeView>)
    ensures
        files_in(s) + dirs_in(s) == nodes_in(s),
    decreases s, 0nat,
{
    if s.len() > 0 {
        lemma_counts_cover_seq(s.drop_last());
        lemma_counts_cover_nodes(s.last());
    }
}

/// A scan that starts from zeroed counters and yields a root counts, in files
/// and directories together, exactly the nodes below that root (as long as no
/// counter reaches the largest `usize`).
pub proof fn lemma_walk_counts_nodes(
    e: FsEntry,
    path: Seq<Seq<char>>,
    ignore: Option<Seq<Seq<char>>>,
    need_metadata: bool,
    root: NodeView,
)
    requires
        spec_walk(e, path, ignore, need_metadata) == Some(root),
        nodes_below(root) <= usize::MAX,
    ensures
        saturated(files_below(root) as int) + saturated(dirs_below(root) as int) == nodes_below(
            root,
        ),
{
    lemma_counts_cover_nodes(root);
}

/// A symbolic link is never entered: wherever it stands, the node it yields
/// has no children.
pub proof fn lemma_symlink_is_leaf(
    e: FsEntry,
    path: Seq<Seq<char>>,
    ignore: Option<Seq<Seq<char>>>,
    need_metadata: bool,
)
    requires
        e.status matches StatusRead::Found(m) && m.file_type == NodeFileType::Symlink,
    ensures
        spec_walk(e, path, ignore, need_metadata) matches Some(n) ==> n.children.len() == 0,
{
}

/// The ignored path yields nothing, so nothing below it is scanned; every
/// other entry that was not missing yields a node.
pub proof fn lemma_ignored_path_skipped(
    e: FsEntry,
    path: Seq<Seq<char>>,
    ignored: Seq<Seq<char>>,
    need_metadata: bool,
)
    ensures
        spec_walk(e, path, Some(ignored), need_metadata) is None <==> (path == ignored
            || e.status == StatusRead::Missing),
{
}

/// Whether every symbolic link in the tree `v` is a leaf.
pub open spec fn symlinks_are_leaves(v: NodeView) -> bool
    decreases v, 1nat,
{
    &&& (v.file_type == NodeFileType::Symlink ==> v.children.len() == 0)
    &&& all_symlinks_are_leaves(v.children)
}

/// Whether every symbolic link in the trees `s` is a leaf.
pub open spec fn all_symlinks_are_leaves(s: Seq<NodeView>) -> bool
    decreases s, 0nat,
{
    s.len() == 0 || (all_symlinks_are_leaves(s.drop_last()) && symlinks_are_leaves(s.last()))
}

/// No symbolic link is ever entered: in every tree a scan yields, each node
/// of kind `Symlink` is a leaf.
pub proof fn lemma_walk_symlinks_are_leaves(
    e: FsEntry,
    path: Seq<Seq<char>>,
    ignore: Option<Seq<Seq<char>>>,
    need_metadata: bool,
)
    ensures
        spec_walk(e, path, ignore, need_metadata) matches Some(n) ==> symlinks_are_leaves(n),
    decreases e, 1nat,
{
    if let StatusRead::Found(m) = e.status {
        if m.is_dir() {
            lemma_walk_entries_symlinks_are_leaves(e.entries@, path, ignore, need_metadata);
        }
    }
}

/// Every symbolic link among the trees that a directory's entries yield is a
/// leaf.
pub proof fn lemma_walk_entries_symlinks_are_leaves(
    s: Seq<FsEntry>,
    path: Seq<Seq<char>>,
    ignore: Option<Seq<Seq<char>>>,
    need_metadata: bool,
)
    ensures
        all_symlinks_are_leaves(spec_walk_entries(s, path, ignore, need_metadata)),
    decreases s, 0nat,
{
    if s.len() > 0 {
        let prev = spec_walk_entries(s.drop_last(), path, ignore, need_metadata);
        lemma_walk_entries_symlinks_are_leaves(s.drop_last(), path, ignore, need_metadata);
        lemma_walk_symlinks_are_leaves(s.last(), path.push(s.last().name@), ignore, need_metadata);
        if let Some(n) = spec_walk(s.last(), path.push(s.last().name@), ignore, need_metadata) {
            assert(prev.push(n).drop_last() =~= prev);
        }
    }
}

/// Whether the path `d` is `q` or an ancestor of `q`.
pub open spec fn is_prefix(d: Seq<Seq<char>>, q: Seq<Seq<char>>) -> bool {
    d.len() <= q.len() && q.subrange(0, d.len() as int) == d
}

/// Whether scanning `e` at `path` yields a node at the path `q`.
pub open spec fn yields_at(
    e: FsEntry,
    path: Seq<Seq<char>>,
    ignore: Option<Seq<Seq<char>>>,
    need_metadata: bool,
    q: Seq<Seq<char>>,
) -> bool
    decreases e, 1nat,
{
    &&& spec_walk(e, path, ignore, need_metadata) is Some
    &&& (q == path || (e.status matches StatusRead::Found(m) && m.is_dir() && entries_yield_at(
        e.entries@,
        path,
        ignore,
        need_metadata,
        q,
    )))
}

/// Whether scanning the entries `s` of the directory at `path` yields a node
/// at the path `q`.
pub open spec fn entries_yield_at(
    s: Seq<FsEntry>,
    path: Seq<Seq<char>>,
    ignore: Option<Seq<Seq<char>>>,
    need_metadata: bool,
    q: Seq<Seq<char>>,
) -> bool
    decreases s, 0nat,
{
    s.len() > 0 && (entries_yield_at(s.drop_last(), path, ignore, need_metadata, q) || yields_at(
        s.last(),
        path.push(s.last().name@),
        ignore,
        need_metadata,
        q,
    ))
}

/// Nothing at or below the ignored path `d` appears in a scan that starts
/// outside `d`'s subtree (or at `d` itself, which yields nothing).
pub proof fn lemma_nothing_below_ignored(
    e: FsEntry,
    path: Seq<Seq<char>>,
    d: Seq<Seq<char>>,
    need_metadata: bool,
    q: Seq<Seq<char>>,
)
    requires
        !is_prefix(d, path) || path == d,
        yields_at(e, path, Some(d), need_metadata, q),
    ensures
        !is_prefix(d, q),
    decreases e, 1nat,
{
    if q != path {
        lemma_nothing_below_ignored_entries(e.entries@, path, d, need_metadata, q);
    }
}

/// Nothing at or below the ignored path `d` appears among the trees that the
/// entries of a directory outside `d`'s subtree yield.
pub proof fn lemma_nothing_below_ignored_entries(
    s: Seq<FsEntry>,
    path: Seq<Seq<char>>,
    d: Seq<Seq<char>>,
    need_metadata: bool,
    q: Seq<Seq<char>>,
)
    requires
        !is_prefix(d, path),
        path != d,
        entries_yield_at(s, path, Some(d), need_metadata, q),
    ensures
        !is_prefix(d, q),
    decreases s, 0nat,
{
    if entries_yield_at(s.drop_last(), path, Some(d), need_metadata, q) {
        lemma_nothing_below_ignored_entries(s.drop_last(), path, d, need_metadata, q);
    } else {
        let child = path.push(s.last().name@);
        if is_prefix(d, child) && child != d {
            if d.len() == child.len() {
                assert(child.subrange(0, d.len() as int) =~= child);
            }
            assert(d.len() <= path.len());
            assert(child.subrange(0, d.len() as int) =~= path.subrange(0, d.len() as int));
            assert(is_prefix(d, path));
        }
        lemma_nothing_below_ignored(s.last(), child, d, need_metadata, q);
    }
}

} // verus!
