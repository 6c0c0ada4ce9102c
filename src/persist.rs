//! The persistent index: a store written as a sequence of 64-bit words,
//! starting with the format version, and as the bytes of those words.
use vstd::prelude::*;
use vstd::std_specs::iter::IteratorSpec;
use vstd::utf8::{char_is_scalar, char_u32_cast, is_scalar};
use crate::node::{NodeFileType, NodeMetadata};
use crate::slab::SlabIndex;
use crate::store::{EntryView, IndexNode, IndexNodeView, Store, meta_at};

verus! {

/// The words that encode the chars `s`, one per char.
pub open spec fn enc_chars(s: Seq<char>) -> Seq<u64>
    decreases s.len(),
{
    if s.len() == 0 {
        Seq::empty()
    } else {
        enc_chars(s.drop_last()).push(s.last() as u32 as u64)
    }
}

/// Appends the words of `name`'s chars to `out`.
fn put_chars(out: &mut Vec<u64>, name: &String)
    ensures
        final(out)@ == old(out)@ + enc_chars(name@),
{
    let mut it = name.as_str().chars();
    let ghost all = name@;
    let ghost mut k: int = 0;
    proof {
        assert(old(out)@ + enc_chars(all.subrange(0, 0)) =~= old(out)@);
    }
    loop
        invariant_except_break
            0 <= k <= all.len(),
            it.remaining() == all.subrange(k, all.len() as int),
            it.obeys_prophetic_iter_laws(),
            out@ == old(out)@ + enc_chars(all.subrange(0, k)),
        ensures
            out@ == old(out)@ + enc_chars(all),
        decreases all.len() - k,
    {
        match it.next() {
            Some(c) => {
                proof {
                    assert(c == all[k]);
                    assert(all.subrange(0, k + 1).drop_last() =~= all.subrange(0, k));
                    assert(all.subrange(k + 1, all.len() as int) =~= all.subrange(k, all.len() as int).drop_first());
                }
                out.push(c as u32 as u64);
                proof {
                    k = k + 1;
                    assert(out@ =~= old(out)@ + enc_chars(all.subrange(0, k)));
                }
            },
            None => {
                proof {
                    assert(all.subrange(0, k) =~= all);
                }
                break;
            },
        }
    }
}

/// The char whose scalar value is `x`, if there is one.
pub open spec fn char_of(x: u64) -> Option<char> {
    if x <= u32::MAX && is_scalar(x as u32) {
        Some(x as u32 as char)
    } else {
        None
    }
}

/// Relies on `char::from_u32`: the char whose scalar value is `x`, `None`
/// where `x` is not a Unicode scalar value.
#[verifier::external_body]
fn char_from_u32(x: u32) -> (r: Option<char>)
    ensures
        r == (if is_scalar(x) {
            Some(x as char)
        } else {
            None
        }),
{
    char::from_u32(x)
}

fn decode_char(x: u64) -> (r: Option<char>)
    ensures
        r == char_of(x),
{
    if x > 0xffff_ffff {
        return None;
    }
    char_from_u32(x as u32)
}

proof fn lemma_char_round_trip(c: char)
    ensures
        char_of(c as u32 as u64) == Some(c),
{
    char_is_scalar(c);
    char_u32_cast(c, c as u32);
}

/// The format version that this library writes and reads.
pub const FORMAT_VERSION: u64 = 1;

/// The tag of a kind of entry.
pub open spec fn tag_of(t: NodeFileType) -> u64 {
    match t {
        NodeFileType::File => 0,
        NodeFileType::Dir => 1,
        NodeFileType::Symlink => 2,
        NodeFileType::Unknown => 3,
    }
}

pub open spec fn enc_opt(o: Option<u64>) -> Seq<u64> {
    match o {
        None => seq![0u64],
        Some(v) => seq![1u64, v],
    }
}

pub open spec fn enc_handle(h: SlabIndex) -> Seq<u64> {
    seq![h.index as u64, h.generation]
}

pub open spec fn enc_parent(o: Option<SlabIndex>) -> Seq<u64> {
    match o {
        None => seq![0u64],
        Some(h) => seq![1u64] + enc_handle(h),
    }
}

pub open spec fn enc_handles(s: Seq<SlabIndex>) -> Seq<u64>
    decreases s.len(),
{
    if s.len() == 0 {
        Seq::empty()
    } else {
        enc_handles(s.drop_last()) + enc_handle(s.last())
    }
}

pub open spec fn enc_meta(o: Option<NodeMetadata>) -> Seq<u64> {
    match o {
        None => seq![0u64],
        Some(m) => seq![1u64, tag_of(m.file_type)] + enc_opt(m.ctime) + enc_opt(m.mtime) + seq![
            m.size,
        ],
    }
}

pub open spec fn enc_node(n: IndexNodeView, m: Option<NodeMetadata>) -> Seq<u64> {
    seq![n.name.len() as u64] + enc_chars(n.name) + seq![tag_of(n.file_type)] + enc_parent(
        n.parent,
    ) + seq![n.children.len() as u64] + enc_handles(n.children) + enc_meta(m)
}

pub open spec fn enc_entry(e: EntryView) -> Seq<u64> {
    match e.1 {
        None => seq![e.0, 0u64],
        Some((n, m)) => seq![e.0, 1u64] + enc_node(n, m),
    }
}

pub open spec fn enc_entries(s: Seq<EntryView>) -> Seq<u64>
    decreases s.len(),
{
    if s.len() == 0 {
        Seq::empty()
    } else {
        enc_entries(s.drop_last()) + enc_entry(s.last())
    }
}

/// The words of a store with the entries `s`: the format version, the number
/// of slots, then each slot.
pub open spec fn enc_store(s: Seq<EntryView>) -> Seq<u64> {
    seq![FORMAT_VERSION, s.len() as u64] + enc_entries(s)
}

fn type_tag(t: NodeFileType) -> (r: u64)
    ensures
        r == tag_of(t),
{
    match t {
        NodeFileType::File => 0,
        NodeFileType::Dir => 1,
        NodeFileType::Symlink => 2,
        NodeFileType::Unknown => 3,
    }
}

fn put_opt(out: &mut Vec<u64>, o: Option<u64>)
    ensures
        final(out)@ == old(out)@ + enc_opt(o),
{
    match o {
        None => out.push(0),
        Some(v) => {
            out.push(1);
            out.push(v);
        },
    }
    proof {
        assert(out@ =~= old(out)@ + enc_opt(o));
    }
}

fn put_handle(out: &mut Vec<u64>, h: SlabIndex)
    ensures
        final(out)@ == old(out)@ + enc_handle(h),
{
    out.push(h.index as u64);
    out.push(h.generation);
    proof {
        assert(out@ =~= old(out)@ + enc_handle(h));
    }
}

fn put_parent(out: &mut Vec<u64>, o: Option<SlabIndex>)
    ensures
        final(out)@ == old(out)@ + enc_parent(o),
{
    match o {
        None => out.push(0),
        Some(h) => {
            out.push(1);
            put_handle(out, h);
        },
    }
    proof {
        assert(out@ =~= old(out)@ + enc_parent(o));
    }
}

fn put_handles(out: &mut Vec<u64>, s: &Vec<SlabIndex>)
    ensures
        final(out)@ == old(out)@ + enc_handles(s@),
{
    let mut i: usize = 0;
    proof {
        assert(old(out)@ + enc_handles(s@.subrange(0, 0)) =~= old(out)@);
    }
    while i < s.len()
        invariant
            i <= s.len(),
            out@ == old(out)@ + enc_handles(s@.subrange(0, i as int)),
        decreases s.len() - i,
    {
        put_handle(out, s[i]);
        proof {
            assert(s@.subrange(0, i + 1).drop_last() =~= s@.subrange(0, i as int));
            assert(out@ =~= old(out)@ + enc_handles(s@.subrange(0, i + 1)));
        }
        i = i + 1;
    }
    proof {
        assert(s@.subrange(0, i as int) =~= s@);
    }
}

fn put_meta(out: &mut Vec<u64>, o: Option<NodeMetadata>)
    ensures
        final(out)@ == old(out)@ + enc_meta(o),
{
    match o {
        None => out.push(0),
        Some(m) => {
            out.push(1);
            out.push(type_tag(m.file_type));
            put_opt(out, m.ctime);
            put_opt(out, m.mtime);
            out.push(m.size);
        },
    }
    proof {
        assert(out@ =~= old(out)@ + enc_meta(o));
    }
}

proof fn lemma_enc_chars_len(s: Seq<char>)
    ensures
        enc_chars(s).len() == s.len(),
    decreases s.len(),
{
    if s.len() > 0 {
        lemma_enc_chars_len(s.drop_last());
    }
}

fn put_node(out: &mut Vec<u64>, n: &IndexNode, m: Option<NodeMetadata>)
    ensures
        final(out)@ == old(out)@ + enc_node(n@, m),
{
    let p = out.len();
    out.push(0);
    put_chars(out, &n.name);
    proof {
        lemma_enc_chars_len(n.name@);
    }
    let count = out.len() - p - 1;
    out.set(p, count as u64);
    out.push(type_tag(n.file_type));
    put_parent(out, n.parent);
    out.push(n.children.len() as u64);
    put_handles(out, &n.children);
    put_meta(out, m);
    proof {
        assert(out@ =~= old(out)@ + enc_node(n@, m));
    }
}

fn put_entry(out: &mut Vec<u64>, generation: u64, n: Option<&IndexNode>, m: Option<NodeMetadata>)
    ensures
        final(out)@ == old(out)@ + enc_entry(
            (
                generation,
                match n {
                    Some(x) => Some((x@, m)),
                    None => None,
                },
            ),
        ),
{
    out.push(generation);
    match n {
        None => out.push(0),
        Some(x) => {
            out.push(1);
            put_node(out, x, m);
        },
    }
    proof {
        assert(out@ =~= old(out)@ + enc_entry(
            (
                generation,
                match n {
                    Some(x) => Some((x@, m)),
                    None => None,
                },
            ),
        ));
    }
}

impl Store {
    /// The words of this store, format version first.
    pub fn save(&self) -> (r: Vec<u64>)
        ensures
            r@ == enc_store(self.entries()),
    {
        let mut out: Vec<u64> = Vec::new();
        let n = self.nodes.slot_count();
        out.push(FORMAT_VERSION);
        out.push(n as u64);
        let mut i: usize = 0;
        proof {
            assert(self.entries().subrange(0, 0) =~= Seq::<EntryView>::empty());
            assert(out@ =~= seq![FORMAT_VERSION, n as u64] + enc_entries(
                self.entries().subrange(0, 0),
            ));
        }
        while i < n
            invariant
                i <= n,
                n == self.nodes.slots().len(),
                n == self.entries().len(),
                out@ == seq![FORMAT_VERSION, n as u64] + enc_entries(
                    self.entries().subrange(0, i as int),
                ),
            decreases n - i,
        {
            let (g, v) = self.nodes.slot(i);
            let m = match v {
                Some(_) => self.metadata.get(i),
                None => None,
            };
            let ghost before = out@;
            put_entry(&mut out, g, v, m);
            proof {
                let es = self.entries().subrange(0, i + 1);
                assert(es.drop_last() =~= self.entries().subrange(0, i as int));
                assert(es.last() == self.entries()[i as int]);
                assert(out@ =~= seq![FORMAT_VERSION, n as u64] + enc_entries(es));
            }
            i = i + 1;
        }
        proof {
            assert(self.entries().subrange(0, n as int) =~= self.entries());
        }
        out
    }
}

/// Why a load failed.
#[derive(Clone, Copy, Debug, PartialEq, Eq, Structural)]
pub enum LoadError {
    /// The first word names a format version other than `FORMAT_VERSION`.
    UnsupportedVersion,
    /// The words end early, hold a value out of range, or go on after the
    /// last slot.
    Corrupt,
}

pub open spec fn type_of(x: u64) -> Option<NodeFileType> {
    if x == 0 {
        Some(NodeFileType::File)
    } else if x == 1 {
        Some(NodeFileType::Dir)
    } else if x == 2 {
        Some(NodeFileType::Symlink)
    } else if x == 3 {
        Some(NodeFileType::Unknown)
    } else {
        None
    }
}

pub open spec fn read_opt(w: Seq<u64>, p: int) -> Option<(Option<u64>, int)> {
    if 0 <= p < w.len() && w[p] == 0 {
        Some((None, p + 1))
    } else if 0 <= p && p + 1 < w.len() && w[p] == 1 {
        Some((Some(w[p + 1]), p + 2))
    } else {
        None
    }
}

pub open spec fn read_handle(w: Seq<u64>, p: int) -> Option<(SlabIndex, int)> {
    if 0 <= p && p + 1 < w.len() && w[p] <= usize::MAX {
        Some((SlabIndex { index: w[p] as usize, generation: w[p + 1] }, p + 2))
    } else {
        None
    }
}

pub open spec fn read_parent(w: Seq<u64>, p: int) -> Option<(Option<SlabIndex>, int)> {
    if 0 <= p < w.len() && w[p] == 0 {
        Some((None, p + 1))
    } else if 0 <= p < w.len() && w[p] == 1 {
        match read_handle(w, p + 1) {
            Some((h, q)) => Some((Some(h), q)),
            None => None,
        }
    } else {
        None
    }
}

pub open spec fn read_handles(w: Seq<u64>, p: int, n: nat) -> Option<(Seq<SlabIndex>, int)>
    decreases n,
{
    if n == 0 {
        Some((Seq::empty(), p))
    } else {
        match read_handles(w, p, (n - 1) as nat) {
            Some((s, q)) => match read_handle(w, q) {
                Some((h, q2)) => Some((s.push(h), q2)),
                None => None,
            },
            None => None,
        }
    }
}

pub open spec fn read_chars(w: Seq<u64>, p: int, n: nat) -> Option<(Seq<char>, int)>
    decreases n,
{
    if n == 0 {
        Some((Seq::empty(), p))
    } else {
        match read_chars(w, p, (n - 1) as nat) {
            Some((s, q)) => if 0 <= q < w.len() && char_of(w[q]) is Some {
                Some((s.push(char_of(w[q])->0), q + 1))
            } else {
                None
            },
            None => None,
        }
    }
}

pub open spec fn read_meta(w: Seq<u64>, p: int) -> Option<(Option<NodeMetadata>, int)> {
    if 0 <= p < w.len() && w[p] == 0 {
        Some((None, p + 1))
    } else if 0 <= p && p + 1 < w.len() && w[p] == 1 && type_of(w[p + 1]) is Some {
        match read_opt(w, p + 2) {
            Some((c, q)) => match read_opt(w, q) {
                Some((m, q2)) => if q2 < w.len() {
                    Some(
                        (
                            Some(
                                NodeMetadata {
                                    file_type: type_of(w[p + 1])->0,
                                    ctime: c,
                                    mtime: m,
                                    size: w[q2],
                                },
                            ),
                            q2 + 1,
                        ),
                    )
                } else {
                    None
                },
                None => None,
            },
            None => None,
        }
    } else {
        None
    }
}

pub open spec fn read_node(w: Seq<u64>, p: int) -> Option<((IndexNodeView, Option<NodeMetadata>), int)> {
    if 0 <= p < w.len() {
        match read_chars(w, p + 1, w[p] as nat) {
            Some((name, q)) => if 0 <= q < w.len() && type_of(w[q]) is Some {
                match read_parent(w, q + 1) {
                    Some((parent, q2)) => if 0 <= q2 < w.len() {
                        match read_handles(w, q2 + 1, w[q2] as nat) {
                            Some((children, q3)) => match read_meta(w, q3) {
                                Some((m, q4)) => Some(
                                    (
                                        (
                                            IndexNodeView {
                                                name,
                                                file_type: type_of(w[q])->0,
                                                parent,
                                                children,
                                            },
                                            m,
                                        ),
                                        q4,
                                    ),
                                ),
                                None => None,
                            },
                            None => None,
                        }
                    } else {
                        None
                    },
                    None => None,
                }
            } else {
                None
            },
            None => None,
        }
    } else {
        None
    }
}

pub open spec fn read_entry(w: Seq<u64>, p: int) -> Option<(EntryView, int)> {
    if 0 <= p && p + 1 < w.len() && w[p + 1] == 0 {
        Some(((w[p], None), p + 2))
    } else if 0 <= p && p + 1 < w.len() && w[p + 1] == 1 {
        match read_node(w, p + 2) {
            Some((nm, q)) => Some(((w[p], Some(nm)), q)),
            None => None,
        }
    } else {
        None
    }
}

pub open spec fn read_entries(w: Seq<u64>, p: int, n: nat) -> Option<(Seq<EntryView>, int)>
    decreases n,
{
    if n == 0 {
        Some((Seq::empty(), p))
    } else {
        match read_entries(w, p, (n - 1) as nat) {
            Some((s, q)) => match read_entry(w, q) {
                Some((e, q2)) => Some((s.push(e), q2)),
                None => None,
            },
            None => None,
        }
    }
}

/// What the words `w` decode to: the entries of a store, or why they do not
/// hold one.
pub open spec fn read_store(w: Seq<u64>) -> Result<Seq<EntryView>, LoadError> {
    if w.len() == 0 {
        Err(LoadError::Corrupt)
    } else if w[0] != FORMAT_VERSION {
        Err(LoadError::UnsupportedVersion)
    } else if w.len() < 2 {
        Err(LoadError::Corrupt)
    } else {
        match read_entries(w, 2, w[1] as nat) {
            Some((s, q)) => if q == w.len() {
                Ok(s)
            } else {
                Err(LoadError::Corrupt)
            },
            None => Err(LoadError::Corrupt),
        }
    }
}

/// Relies on `String::push`: appends `c`.
#[verifier::external_body]
fn push_char(s: &mut String, c: char)
    ensures
        final(s)@ == old(s)@.push(c),
{
    s.push(c)
}

fn decode_type(x: u64) -> (r: Option<NodeFileType>)
    ensures
        r == type_of(x),
{
    if x == 0 {
        Some(NodeFileType::File)
    } else if x == 1 {
        Some(NodeFileType::Dir)
    } else if x == 2 {
        Some(NodeFileType::Symlink)
    } else if x == 3 {
        Some(NodeFileType::Unknown)
    } else {
        None
    }
}

fn get_opt(w: &Vec<u64>, p: usize) -> (r: Option<(Option<u64>, usize)>)
    ensures
        match r {
            Some((o, q)) => read_opt(w@, p as int) == Some((o, q as int)),
            None => read_opt(w@, p as int) is None,
        },
{
    if p < w.len() && w[p] == 0 {
        Some((None, p + 1))
    } else if p < w.len() && p + 1 < w.len() && w[p] == 1 {
        Some((Some(w[p + 1]), p + 2))
    } else {
        None
    }
}

fn get_handle(w: &Vec<u64>, p: usize) -> (r: Option<(SlabIndex, usize)>)
    ensures
        match r {
            Some((h, q)) => read_handle(w@, p as int) == Some((h, q as int)),
            None => read_handle(w@, p as int) is None,
        },
{
    if p < w.len() && p + 1 < w.len() && w[p] <= usize::MAX as u64 {
        Some((SlabIndex { index: w[p] as usize, generation: w[p + 1] }, p + 2))
    } else {
        None
    }
}

fn get_parent(w: &Vec<u64>, p: usize) -> (r: Option<(Option<SlabIndex>, usize)>)
    ensures
        match r {
            Some((o, q)) => read_parent(w@, p as int) == Some((o, q as int)),
            None => read_parent(w@, p as int) is None,
        },
{
    if p < w.len() && w[p] == 0 {
        Some((None, p + 1))
    } else if p < w.len() && w[p] == 1 {
        match get_handle(w, p + 1) {
            Some((h, q)) => Some((Some(h), q)),
            None => None,
        }
    } else {
        None
    }
}

fn get_handles(w: &Vec<u64>, p: usize, n: u64) -> (r: Option<(Vec<SlabIndex>, usize)>)
    ensures
        match r {
            Some((s, q)) => read_handles(w@, p as int, n as nat) == Some((s@, q as int)),
            None => read_handles(w@, p as int, n as nat) is None,
        },
{
    let mut s: Vec<SlabIndex> = Vec::new();
    let mut q: usize = p;
    let mut k: u64 = 0;
    while k < n
        invariant
            k <= n,
            read_handles(w@, p as int, k as nat) == Some((s@, q as int)),
        decreases n - k,
    {
        match get_handle(w, q) {
            Some((h, q2)) => {
                s.push(h);
                q = q2;
            },
            None => {
                proof {
                    assert(read_handles(w@, p as int, (k + 1) as nat) is None);
                    lemma_handles_stay_none(w@, p as int, (k + 1) as nat, n as nat);
                }
                return None;
            },
        }
        k = k + 1;
    }
    Some((s, q))
}

proof fn lemma_handles_stay_none(w: Seq<u64>, p: int, k: nat, n: nat)
    requires
        k <= n,
        read_handles(w, p, k) is None,
    ensures
        read_handles(w, p, n) is None,
    decreases n - k,
{
    if k < n {
        lemma_handles_stay_none(w, p, k + 1, n);
    }
}

proof fn lemma_chars_stay_none(w: Seq<u64>, p: int, k: nat, n: nat)
    requires
        k <= n,
        read_chars(w, p, k) is None,
    ensures
        read_chars(w, p, n) is None,
    decreases n - k,
{
    if k < n {
        lemma_chars_stay_none(w, p, k + 1, n);
    }
}

proof fn lemma_entries_stay_none(w: Seq<u64>, p: int, k: nat, n: nat)
    requires
        k <= n,
        read_entries(w, p, k) is None,
    ensures
        read_entries(w, p, n) is None,
    decreases n - k,
{
    if k < n {
        lemma_entries_stay_none(w, p, k + 1, n);
    }
}

fn get_chars(w: &Vec<u64>, p: usize, n: u64) -> (r: Option<(String, usize)>)
    ensures
        match r {
            Some((s, q)) => read_chars(w@, p as int, n as nat) == Some((s@, q as int)),
            None => read_chars(w@, p as int, n as nat) is None,
        },
{
    let mut s = String::new();
    let mut q: usize = p;
    let mut k: u64 = 0;
    while k < n
        invariant
            k <= n,
            read_chars(w@, p as int, k as nat) == Some((s@, q as int)),
        decreases n - k,
    {
        let c = if q < w.len() {
            decode_char(w[q])
        } else {
            None
        };
        match c {
            Some(c) => {
                push_char(&mut s, c);
                q = q + 1;
            },
            None => {
                proof {
                    assert(read_chars(w@, p as int, (k + 1) as nat) is None);
                    lemma_chars_stay_none(w@, p as int, (k + 1) as nat, n as nat);
                }
                return None;
            },
        }
        k = k + 1;
    }
    Some((s, q))
}

fn get_meta(w: &Vec<u64>, p: usize) -> (r: Option<(Option<NodeMetadata>, usize)>)
    ensures
        match r {
            Some((o, q)) => read_meta(w@, p as int) == Some((o, q as int)),
            None => read_meta(w@, p as int) is None,
        },
{
    if p < w.len() && w[p] == 0 {
        return Some((None, p + 1));
    }
    if !(p < w.len() && p + 1 < w.len() && w[p] == 1) {
        return None;
    }
    let t = match decode_type(w[p + 1]) {
        Some(t) => t,
        None => return None,
    };
    let (c, q) = match get_opt(w, p + 2) {
        Some(x) => x,
        None => return None,
    };
    let (m, q2) = match get_opt(w, q) {
        Some(x) => x,
        None => return None,
    };
    if q2 < w.len() {
        Some((Some(NodeMetadata { file_type: t, ctime: c, mtime: m, size: w[q2] }), q2 + 1))
    } else {
        None
    }
}

fn get_node(w: &Vec<u64>, p: usize) -> (r: Option<((IndexNode, Option<NodeMetadata>), usize)>)
    ensures
        match r {
            Some(((n, m), q)) => read_node(w@, p as int) == Some(((n@, m), q as int)),
            None => read_node(w@, p as int) is None,
        },
{
    if p >= w.len() {
        return None;
    }
    let (name, q) = match get_chars(w, p + 1, w[p]) {
        Some(x) => x,
        None => return None,
    };
    if q >= w.len() {
        return None;
    }
    let file_type = match decode_type(w[q]) {
        Some(t) => t,
        None => return None,
    };
    let (parent, q2) = match get_parent(w, q + 1) {
        Some(x) => x,
        None => return None,
    };
    if q2 >= w.len() {
        return None;
    }
    let (children, q3) = match get_handles(w, q2 + 1, w[q2]) {
        Some(x) => x,
        None => return None,
    };
    let (m, q4) = match get_meta(w, q3) {
        Some(x) => x,
        None => return None,
    };
    Some(((IndexNode { name, file_type, parent, children }, m), q4))
}

impl Store {
    /// Reads a store from the words `w`, all or nothing: the entries that
    /// `w` encodes, `UnsupportedVersion` when the first word names another
    /// format version, `Corrupt` when the words hold no store.
    pub fn load(w: &Vec<u64>) -> (r: Result<Store, LoadError>)
        ensures
            match r {
                Ok(st) => st.wf() && read_store(w@) == Ok::<Seq<EntryView>, LoadError>(st.entries()),
                Err(e) => read_store(w@) == Err::<Seq<EntryView>, LoadError>(e),
            },
    {
        if w.len() == 0 {
            return Err(LoadError::Corrupt);
        }
        if w[0] != FORMAT_VERSION {
            return Err(LoadError::UnsupportedVersion);
        }
        if w.len() < 2 {
            return Err(LoadError::Corrupt);
        }
        let n = w[1];
        let mut st = Store::new();
        let ghost mut es: Seq<EntryView> = Seq::empty();
        let mut q: usize = 2;
        let mut k: u64 = 0;
        while k < n
            invariant
                k <= n,
                w@.len() >= 2,
                w@[0] == FORMAT_VERSION,
                n == w@[1],
                st.wf(),
                read_entries(w@, 2, k as nat) == Some((es, q as int)),
                st.entries() == es,
                es.len() == k,
                forall|i: usize| #[trigger] st.metadata@.contains_key(i) ==> i < k,
            decreases n - k,
        {
            if q >= w.len() - 1 {
                proof {
                    assert(read_entries(w@, 2, (k + 1) as nat) is None);
                    lemma_entries_stay_none(w@, 2, (k + 1) as nat, n as nat);
                }
                return Err(LoadError::Corrupt);
            }
            let g = w[q];
            let ghost before = st;
            if w[q + 1] == 0 {
                st.nodes.push_slot(g, None);
                q = q + 2;
                proof {
                    es = es.push((g, None));
                    assert(st.entries() =~= es);
                }
            } else if w[q + 1] == 1 {
                match get_node(w, q + 2) {
                    Some(((node, m), q2)) => {
                        let ghost nv = node@;
                        let i = st.nodes.slot_count();
                        st.nodes.push_slot(g, Some(node));
                        match m {
                            Some(md) => st.metadata.put(i, md),
                            None => {},
                        }
                        q = q2;
                        proof {
                            es = es.push((g, Some((nv, m))));
                            assert forall|j: int| 0 <= j < i implies meta_at(st.metadata@, j)
                                == meta_at(before.metadata@, j) by {}
                            assert(!before.metadata@.contains_key(i));
                            assert(st.entries() =~= es);
                        }
                    },
                    None => {
                        proof {
                            assert(read_entries(w@, 2, (k + 1) as nat) is None);
                            lemma_entries_stay_none(w@, 2, (k + 1) as nat, n as nat);
                        }
                        return Err(LoadError::Corrupt);
                    },
                }
            } else {
                proof {
                    assert(read_entries(w@, 2, (k + 1) as nat) is None);
                    lemma_entries_stay_none(w@, 2, (k + 1) as nat, n as nat);
                }
                return Err(LoadError::Corrupt);
            }
            k = k + 1;
        }
        if q == w.len() {
            Ok(st)
        } else {
            Err(LoadError::Corrupt)
        }
    }
}

/// Whether the words `e` stand in `w` from position `p` on.
pub open spec fn stands_at(w: Seq<u64>, p: int, e: Seq<u64>) -> bool {
    0 <= p && p + e.len() <= w.len() && w.subrange(p, p + e.len()) == e
}

/// Whether the counts of the entry `e` fit in a word.
pub open spec fn entry_fits(e: EntryView) -> bool {
    match e.1 {
        Some((n, m)) => n.name.len() <= u64::MAX && n.children.len() <= u64::MAX,
        None => true,
    }
}

/// Whether every count in the entries `s` fits in a word.
pub open spec fn counts_fit(s: Seq<EntryView>) -> bool {
    &&& s.len() <= u64::MAX
    &&& forall|i: int| 0 <= i < s.len() ==> entry_fits(#[trigger] s[i])
}

proof fn lemma_split(w: Seq<u64>, p: int, a: Seq<u64>, b: Seq<u64>)
    requires
        stands_at(w, p, a + b),
    ensures
        stands_at(w, p, a),
        stands_at(w, p + a.len(), b),
{
    assert forall|k: int| 0 <= k < a.len() implies w.subrange(p, p + a.len())[k] == a[k] by {
        assert(w.subrange(p, p + a.len() + b.len())[k] == (a + b)[k]);
    }
    assert(w.subrange(p, p + a.len()) =~= a);
    assert forall|k: int| 0 <= k < b.len() implies w.subrange(p + a.len(), p + a.len() + b.len())[k]
        == b[k] by {
        assert(w.subrange(p, p + a.len() + b.len())[a.len() + k] == (a + b)[a.len() + k]);
    }
    assert(w.subrange(p + a.len(), p + a.len() + b.len()) =~= b);
}

proof fn lemma_word(w: Seq<u64>, p: int, e: Seq<u64>, k: int)
    requires
        stands_at(w, p, e),
        0 <= k < e.len(),
    ensures
        w[p + k] == e[k],
{
    assert(w.subrange(p, p + e.len())[k] == w[p + k]);
}

proof fn lemma_read_opt(w: Seq<u64>, p: int, o: Option<u64>)
    requires
        stands_at(w, p, enc_opt(o)),
    ensures
        read_opt(w, p) == Some((o, p + enc_opt(o).len())),
{
    lemma_word(w, p, enc_opt(o), 0);
    if o is Some {
        lemma_word(w, p, enc_opt(o), 1);
    }
}

proof fn lemma_read_handle(w: Seq<u64>, p: int, h: SlabIndex)
    requires
        stands_at(w, p, enc_handle(h)),
    ensures
        read_handle(w, p) == Some((h, p + 2)),
{
    lemma_word(w, p, enc_handle(h), 0);
    lemma_word(w, p, enc_handle(h), 1);
}

proof fn lemma_read_parent(w: Seq<u64>, p: int, o: Option<SlabIndex>)
    requires
        stands_at(w, p, enc_parent(o)),
    ensures
        read_parent(w, p) == Some((o, p + enc_parent(o).len())),
{
    lemma_word(w, p, enc_parent(o), 0);
    if let Some(h) = o {
        lemma_split(w, p, seq![1u64], enc_handle(h));
        lemma_read_handle(w, p + 1, h);
    }
}

proof fn lemma_read_handles(w: Seq<u64>, p: int, s: Seq<SlabIndex>)
    requires
        stands_at(w, p, enc_handles(s)),
    ensures
        read_handles(w, p, s.len()) == Some((s, p + enc_handles(s).len())),
    decreases s.len(),
{
    if s.len() > 0 {
        let s0 = s.drop_last();
        lemma_split(w, p, enc_handles(s0), enc_handle(s.last()));
        lemma_read_handles(w, p, s0);
        lemma_read_handle(w, p + enc_handles(s0).len(), s.last());
        assert(s0.push(s.last()) =~= s);
        assert((s.len() - 1) as nat == s0.len());
    }
}

proof fn lemma_read_chars(w: Seq<u64>, p: int, s: Seq<char>)
    requires
        stands_at(w, p, enc_chars(s)),
    ensures
        read_chars(w, p, s.len()) == Some((s, p + s.len())),
    decreases s.len(),
{
    lemma_enc_chars_len(s);
    if s.len() > 0 {
        let s0 = s.drop_last();
        let x = s.last() as u32 as u64;
        assert(enc_chars(s) =~= enc_chars(s0) + seq![x]);
        lemma_enc_chars_len(s0);
        lemma_split(w, p, enc_chars(s0), seq![x]);
        lemma_read_chars(w, p, s0);
        lemma_word(w, p + s0.len(), seq![x], 0);
        lemma_char_round_trip(s.last());
        assert(s0.push(s.last()) =~= s);
        assert((s.len() - 1) as nat == s0.len());
    }
}

proof fn lemma_read_meta(w: Seq<u64>, p: int, o: Option<NodeMetadata>)
    requires
        stands_at(w, p, enc_meta(o)),
    ensures
        read_meta(w, p) == Some((o, p + enc_meta(o).len())),
{
    lemma_word(w, p, enc_meta(o), 0);
    if let Some(m) = o {
        let a = seq![1u64, tag_of(m.file_type)];
        let b = enc_opt(m.ctime);
        let c = enc_opt(m.mtime);
        let d = seq![m.size];
        lemma_split(w, p, a + b + c, d);
        lemma_split(w, p, a + b, c);
        lemma_split(w, p, a, b);
        lemma_word(w, p, a, 1);
        lemma_read_opt(w, p + 2, m.ctime);
        lemma_read_opt(w, p + 2 + b.len(), m.mtime);
        lemma_word(w, p + 2 + b.len() + c.len(), d, 0);
    }
}

proof fn lemma_read_node(w: Seq<u64>, p: int, n: IndexNodeView, m: Option<NodeMetadata>)
    requires
        stands_at(w, p, enc_node(n, m)),
        n.name.len() <= u64::MAX,
        n.children.len() <= u64::MAX,
    ensures
        read_node(w, p) == Some(((n, m), p + enc_node(n, m).len())),
{
    let a = seq![n.name.len() as u64];
    let b = enc_chars(n.name);
    let c = seq![tag_of(n.file_type)];
    let d = enc_parent(n.parent);
    let e = seq![n.children.len() as u64];
    let f = enc_handles(n.children);
    let g = enc_meta(m);
    lemma_enc_chars_len(n.name);
    lemma_split(w, p, a + b + c + d + e + f, g);
    lemma_split(w, p, a + b + c + d + e, f);
    lemma_split(w, p, a + b + c + d, e);
    lemma_split(w, p, a + b + c, d);
    lemma_split(w, p, a + b, c);
    lemma_split(w, p, a, b);
    lemma_word(w, p, a, 0);
    lemma_read_chars(w, p + 1, n.name);
    let q = p + 1 + b.len();
    lemma_word(w, q, c, 0);
    lemma_read_parent(w, q + 1, n.parent);
    let q2 = q + 1 + d.len();
    lemma_word(w, q2, e, 0);
    lemma_read_handles(w, q2 + 1, n.children);
    let q3 = q2 + 1 + f.len();
    lemma_read_meta(w, q3, m);
}

proof fn lemma_read_entry(w: Seq<u64>, p: int, e: EntryView)
    requires
        stands_at(w, p, enc_entry(e)),
        entry_fits(e),
    ensures
        read_entry(w, p) == Some((e, p + enc_entry(e).len())),
{
    lemma_word(w, p, enc_entry(e), 0);
    lemma_word(w, p, enc_entry(e), 1);
    if let Some((n, m)) = e.1 {
        lemma_split(w, p, seq![e.0, 1u64], enc_node(n, m));
        lemma_read_node(w, p + 2, n, m);
    }
}

proof fn lemma_read_entries(w: Seq<u64>, p: int, s: Seq<EntryView>)
    requires
        stands_at(w, p, enc_entries(s)),
        counts_fit(s),
    ensures
        read_entries(w, p, s.len()) == Some((s, p + enc_entries(s).len())),
    decreases s.len(),
{
    if s.len() > 0 {
        let s0 = s.drop_last();
        assert(counts_fit(s0)) by {
            assert forall|i: int| 0 <= i < s0.len() implies entry_fits(#[trigger] s0[i]) by {
                assert(s0[i] == s[i]);
            }
        }
        lemma_split(w, p, enc_entries(s0), enc_entry(s.last()));
        lemma_read_entries(w, p, s0);
        assert(s.last() == s[s.len() - 1]);
        lemma_read_entry(w, p + enc_entries(s0).len(), s.last());
        assert(s0.push(s.last()) =~= s);
        assert((s.len() - 1) as nat == s0.len());
    }
}

/// Loading what was saved gives back every slot: its generation and, when
/// occupied, its node and metadata.
pub proof fn lemma_load_save(s: Seq<EntryView>)
    requires
        counts_fit(s),
    ensures
        read_store(enc_store(s)) == Ok::<Seq<EntryView>, LoadError>(s),
{
    let w = enc_store(s);
    let head = seq![FORMAT_VERSION, s.len() as u64];
    assert(w.subrange(0, w.len() as int) =~= w);
    lemma_split(w, 0, head, enc_entries(s));
    lemma_word(w, 0, head, 0);
    lemma_word(w, 0, head, 1);
    lemma_read_entries(w, 2, s);
}

/// The eight bytes of `x`, least significant first.
pub open spec fn le_bytes(x: u64) -> Seq<u8> {
    seq![
        x as u8,
        (x >> 8u64) as u8,
        (x >> 16u64) as u8,
        (x >> 24u64) as u8,
        (x >> 32u64) as u8,
        (x >> 40u64) as u8,
        (x >> 48u64) as u8,
        (x >> 56u64) as u8,
    ]
}

/// The word whose bytes, least significant first, are `b[i..i + 8]`.
pub open spec fn le_word(b: Seq<u8>, i: int) -> u64 {
    (b[i] as u64) | ((b[i + 1] as u64) << 8u64) | ((b[i + 2] as u64) << 16u64) | ((b[i + 3] as u64)
        << 24u64) | ((b[i + 4] as u64) << 32u64) | ((b[i + 5] as u64) << 40u64) | ((b[i + 6] as u64)
        << 48u64) | ((b[i + 7] as u64) << 56u64)
}

/// The bytes of the words `w`, each least significant first.
pub open spec fn words_to_bytes(w: Seq<u64>) -> Seq<u8>
    decreases w.len(),
{
    if w.len() == 0 {
        Seq::empty()
    } else {
        words_to_bytes(w.drop_last()) + le_bytes(w.last())
    }
}

/// The words that the bytes `b` hold, eight bytes each; `None` when the
/// length is not a multiple of eight.
pub open spec fn bytes_to_words(b: Seq<u8>) -> Option<Seq<u64>>
    decreases b.len(),
{
    if b.len() == 0 {
        Some(Seq::empty())
    } else if b.len() < 8 {
        None
    } else {
        match bytes_to_words(b.subrange(0, b.len() - 8)) {
            Some(w) => Some(w.push(le_word(b, b.len() - 8))),
            None => None,
        }
    }
}

proof fn lemma_le_round_trip(x: u64)
    ensures
        le_word(le_bytes(x), 0) == x,
{
    let b0 = x as u8;
    let b1 = (x >> 8u64) as u8;
    let b2 = (x >> 16u64) as u8;
    let b3 = (x >> 24u64) as u8;
    let b4 = (x >> 32u64) as u8;
    let b5 = (x >> 40u64) as u8;
    let b6 = (x >> 48u64) as u8;
    let b7 = (x >> 56u64) as u8;
    assert((b0 as u64) | ((b1 as u64) << 8u64) | ((b2 as u64) << 16u64) | ((b3 as u64) << 24u64)
        | ((b4 as u64) << 32u64) | ((b5 as u64) << 40u64) | ((b6 as u64) << 48u64) | ((b7 as u64)
        << 56u64) == x) by (bit_vector)
        requires
            b0 == x as u8,
            b1 == (x >> 8u64) as u8,
            b2 == (x >> 16u64) as u8,
            b3 == (x >> 24u64) as u8,
            b4 == (x >> 32u64) as u8,
            b5 == (x >> 40u64) as u8,
            b6 == (x >> 48u64) as u8,
            b7 == (x >> 56u64) as u8,
    ;
}

proof fn lemma_words_to_bytes_len(w: Seq<u64>)
    ensures
        words_to_bytes(w).len() == 8 * w.len(),
    decreases w.len(),
{
    if w.len() > 0 {
        lemma_words_to_bytes_len(w.drop_last());
    }
}

proof fn lemma_bytes_words_round_trip(w: Seq<u64>)
    ensures
        bytes_to_words(words_to_bytes(w)) == Some(w),
    decreases w.len(),
{
    if w.len() > 0 {
        let w0 = w.drop_last();
        let b = words_to_bytes(w);
        lemma_words_to_bytes_len(w0);
        lemma_words_to_bytes_len(w);
        assert(b.subrange(0, b.len() - 8) =~= words_to_bytes(w0));
        lemma_bytes_words_round_trip(w0);
        lemma_le_round_trip(w.last());
        assert(le_word(b, b.len() - 8) == le_word(le_bytes(w.last()), 0));
        assert(w0.push(w.last()) =~= w);
    }
}

proof fn lemma_bytes_to_words_some(b: Seq<u8>)
    ensures
        bytes_to_words(b) is Some <==> b.len() % 8 == 0,
        bytes_to_words(b) matches Some(w) ==> 8 * w.len() == b.len(),
    decreases b.len(),
{
    if b.len() >= 8 {
        lemma_bytes_to_words_some(b.subrange(0, b.len() - 8));
    }
}

fn put_le(out: &mut Vec<u8>, x: u64)
    ensures
        final(out)@ == old(out)@ + le_bytes(x),
{
    out.push(#[verifier::truncate] (x as u8));
    out.push(#[verifier::truncate] ((x >> 8) as u8));
    out.push(#[verifier::truncate] ((x >> 16) as u8));
    out.push(#[verifier::truncate] ((x >> 24) as u8));
    out.push(#[verifier::truncate] ((x >> 32) as u8));
    out.push(#[verifier::truncate] ((x >> 40) as u8));
    out.push(#[verifier::truncate] ((x >> 48) as u8));
    out.push(#[verifier::truncate] ((x >> 56) as u8));
    proof {
        assert(out@ =~= old(out)@ + le_bytes(x));
    }
}

fn get_le(b: &Vec<u8>, i: usize) -> (r: u64)
    requires
        i + 8 <= b.len(),
    ensures
        r == le_word(b@, i as int),
{
    (b[i] as u64) | ((b[i + 1] as u64) << 8) | ((b[i + 2] as u64) << 16) | ((b[i + 3] as u64) << 24)
        | ((b[i + 4] as u64) << 32) | ((b[i + 5] as u64) << 40) | ((b[i + 6] as u64) << 48) | ((
    b[i + 7] as u64) << 56)
}

/// The bytes of the words `w`, each least significant first.
pub fn to_bytes(w: &Vec<u64>) -> (r: Vec<u8>)
    ensures
        r@ == words_to_bytes(w@),
{
    let mut out: Vec<u8> = Vec::new();
    let mut i: usize = 0;
    proof {
        assert(w@.subrange(0, 0) =~= Seq::<u64>::empty());
    }
    while i < w.len()
        invariant
            i <= w.len(),
            out@ == words_to_bytes(w@.subrange(0, i as int)),
        decreases w.len() - i,
    {
        put_le(&mut out, w[i]);
        proof {
            let s = w@.subrange(0, i + 1);
            assert(s.drop_last() =~= w@.subrange(0, i as int));
        }
        i = i + 1;
    }
    proof {
        assert(w@.subrange(0, i as int) =~= w@);
    }
    out
}

/// The words that the bytes `b` hold, eight bytes each, least significant
/// first; `None` when the length is not a multiple of eight.
pub fn from_bytes(b: &Vec<u8>) -> (r: Option<Vec<u64>>)
    ensures
        match r {
            Some(w) => bytes_to_words(b@) == Some(w@),
            None => bytes_to_words(b@) is None,
        },
{
    proof {
        lemma_bytes_to_words_some(b@);
    }
    if b.len() % 8 != 0 {
        return None;
    }
    let mut w: Vec<u64> = Vec::new();
    let mut i: usize = 0;
    proof {
        assert(b@.subrange(0, 0) =~= Seq::<u8>::empty());
    }
    while i < b.len()
        invariant
            i <= b.len(),
            i % 8 == 0,
            b.len() % 8 == 0,
            bytes_to_words(b@.subrange(0, i as int)) == Some(w@),
        decreases b.len() - i,
    {
        let x = get_le(b, i);
        w.push(x);
        proof {
            let s = b@.subrange(0, i + 8);
            assert(s.subrange(0, s.len() - 8) =~= b@.subrange(0, i as int));
            assert(le_word(s, s.len() - 8) == le_word(b@, i as int));
        }
        i = i + 8;
    }
    proof {
        assert(b@.subrange(0, i as int) =~= b@);
    }
    Some(w)
}

impl Store {
    /// The bytes of this store: its words, each least significant first, the
    /// format version in the first eight bytes.
    pub fn save_bytes(&self) -> (r: Vec<u8>)
        ensures
            r@ == words_to_bytes(enc_store(self.entries())),
    {
        to_bytes(&self.save())
    }

    /// Reads a store from bytes, all or nothing: `Corrupt` when their length
    /// is not a multiple of eight, else as `load` on the words they hold.
    pub fn load_bytes(b: &Vec<u8>) -> (r: Result<Store, LoadError>)
        ensures
            match bytes_to_words(b@) {
                None => r == Err::<Store, LoadError>(LoadError::Corrupt),
                Some(w) => match r {
                    Ok(st) => st.wf() && read_store(w) == Ok::<Seq<EntryView>, LoadError>(
                        st.entries(),
                    ),
                    Err(e) => read_store(w) == Err::<Seq<EntryView>, LoadError>(e),
                },
            },
    {
        match from_bytes(b) {
            Some(w) => Store::load(&w),
            None => Err(LoadError::Corrupt),
        }
    }
}

/// Loading the bytes that were saved gives back every slot: its generation
/// and, when occupied, its node and metadata.
pub proof fn lemma_load_save_bytes(s: Seq<EntryView>)
    requires
        counts_fit(s),
    ensures
        bytes_to_words(words_to_bytes(enc_store(s))) == Some(enc_store(s)),
        read_store(enc_store(s)) == Ok::<Seq<EntryView>, LoadError>(s),
{
    lemma_bytes_words_round_trip(enc_store(s));
    lemma_load_save(s);
}

} // verus!
