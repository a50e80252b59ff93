//! The copy-on-write tree. A node holds entries sorted by 32-bit
//! surrogate key; children are leaves at depth 0 and nodes (possibly
//! lazy, known only by identifier) above. Updates never mutate a node:
//! they build a new entries vector and share everything else.

use vstd::prelude::*;
use std::rc::Rc;
use crate::errors::{UssError, UssResult};
use crate::hasher;
use crate::serializer;
use crate::store::DataLake;
use crate::tree::leaf::{rc_borrow, surrogate_of, Leaf};

verus! {

/// One child: a materialized node, a leaf, or a node known by identifier.
pub enum NodeChild {
    Node(Rc<Node>),
    Leaf(Rc<Leaf>),
    Lazy(Rc<Lazy>),
}

/// One slot of a node: the child and the surrogate key that routes to it.
pub struct NodeEntry {
    key: u32,
    child: NodeChild,
}

/// An inner or root node of the tree.
pub struct Node {
    depth: usize,
    entries: Vec<NodeEntry>,
}

/// A child known by the identifier of its serialized form: pending until
/// first loaded, or already materialized.
pub enum LazyContent {
    Pending,
    Materialized(Rc<Node>),
}

pub struct Lazy {
    content: LazyContent,
    hash: Vec<u8>,
}

/// Relies on `Rc::clone` of std: the clone is the same value.
#[verifier::external_body]
fn rc_clone<T>(rc: &Rc<T>) -> (r: Rc<T>)
    ensures
        r == *rc,
{
    rc.clone()
}

impl Clone for NodeChild {
    fn clone(&self) -> (res: Self)
        ensures
            res == *self,
    {
        match self {
            NodeChild::Node(rc) => NodeChild::Node(rc_clone(rc)),
            NodeChild::Leaf(rc) => NodeChild::Leaf(rc_clone(rc)),
            NodeChild::Lazy(rc) => NodeChild::Lazy(rc_clone(rc)),
        }
    }
}

impl Clone for NodeEntry {
    fn clone(&self) -> (res: Self)
        ensures
            res == *self,
    {
        NodeEntry { key: self.key, child: self.child.clone() }
    }
}

impl Clone for Node {
    fn clone(&self) -> (res: Self)
        ensures
            res.spec_depth() == self.spec_depth(),
            res.spec_entries() == self.spec_entries(),
    {
        let mut entries: Vec<NodeEntry> = Vec::new();
        let mut i: usize = 0;
        let n = self.entries.len();
        while i < n
            invariant
                i <= n,
                n == self.entries@.len(),
                entries@ == self.entries@.take(i as int),
            decreases n - i,
        {
            entries.push(self.entries[i].clone());
            proof {
                assert(entries@ =~= self.entries@.take(i as int + 1));
            }
            i += 1;
        }
        proof {
            assert(entries@ =~= self.entries@);
        }
        Node { depth: self.depth, entries }
    }
}

impl NodeEntry {
    pub closed spec fn spec_key(&self) -> u32 {
        self.key
    }

    pub closed spec fn spec_child(&self) -> NodeChild {
        self.child
    }

    pub fn new(key: u32, child: NodeChild) -> (r: NodeEntry)
        ensures
            r.spec_key() == key,
            r.spec_child() == child,
    {
        NodeEntry { key, child }
    }
}

/// The leaf held by a flat node's entry.
pub open spec fn leaf_at(es: Seq<NodeEntry>, i: int) -> Leaf
    recommends
        0 <= i < es.len(),
        es[i].spec_child() is Leaf,
{
    *(es[i].spec_child()->Leaf_0)
}

/// Where the find-slot walk lands: the last index whose key is not above
/// the target, stopping at the first that is; 0 when even the first is.
pub open spec fn find_off_from(es: Seq<NodeEntry>, key: u32, i: int, acc: int) -> int
    decreases es.len() - i,
{
    if i < 0 || i >= es.len() {
        acc
    } else if es[i].spec_key() <= key {
        find_off_from(es, key, i + 1, i)
    } else {
        acc
    }
}

pub open spec fn find_off(es: Seq<NodeEntry>, key: u32) -> int {
    find_off_from(es, key, 0, 0)
}

/// Surrogate keys strictly increase along the entries.
pub open spec fn sorted_strict(es: Seq<NodeEntry>) -> bool {
    forall|i: int, j: int|
        0 <= i < j < es.len() ==> (#[trigger] es[i].spec_key()) < (#[trigger] es[j].spec_key())
}

pub open spec fn has_key(es: Seq<NodeEntry>, k: u32) -> bool {
    exists|i: int| 0 <= i < es.len() && (#[trigger] es[i].spec_key()) == k
}

pub open spec fn idx_of(es: Seq<NodeEntry>, k: u32) -> int {
    choose|i: int| 0 <= i < es.len() && (#[trigger] es[i].spec_key()) == k
}

/// The walk from position `i`, already holding `acc = i - 1` as the
/// best index so far, lands on the last index whose key is not above
/// the target; everything beyond is above it.
proof fn lemma_find_off_from_sorted(es: Seq<NodeEntry>, key: u32, i: int)
    requires
        sorted_strict(es),
        1 <= i <= es.len(),
        es[i - 1].spec_key() <= key,
    ensures
        ({
            let f = find_off_from(es, key, i, i - 1);
            &&& i - 1 <= f < es.len()
            &&& es[f].spec_key() <= key
            &&& forall|j: int| f < j < es.len() ==> (#[trigger] es[j].spec_key()) > key
        }),
    decreases es.len() - i,
{
    if i < es.len() && es[i].spec_key() <= key {
        lemma_find_off_from_sorted(es, key, i + 1);
    }
}

/// The walk's landing index, characterized for sorted entries: the key's
/// own index when present, otherwise the last index below it (or 0).
pub proof fn lemma_find_off_sorted(es: Seq<NodeEntry>, key: u32)
    requires
        sorted_strict(es),
        es.len() > 0,
    ensures
        0 <= find_off(es, key) < es.len(),
        es[0].spec_key() > key ==> find_off(es, key) == 0,
        es[0].spec_key() <= key ==> es[find_off(es, key)].spec_key() <= key,
        forall|j: int| find_off(es, key) < j < es.len() ==> (#[trigger] es[j].spec_key()) > key,
        has_key(es, key) ==> es[find_off(es, key)].spec_key() == key,
{
    if es[0].spec_key() <= key {
        lemma_find_off_from_sorted(es, key, 1);
        assert(find_off(es, key) == find_off_from(es, key, 1, 0));
    } else {
        assert(find_off(es, key) == 0);
    }
    if has_key(es, key) {
        let w = choose|i: int| 0 <= i < es.len() && (#[trigger] es[i].spec_key()) == key;
        let f = find_off(es, key);
        assert(es[w].spec_key() == key);
        if w > f {
            assert(es[w].spec_key() > key);
            assert(false);
        }
        if w < f {
            assert(es[w].spec_key() < es[f].spec_key());
            assert(es[f].spec_key() <= key);
        }
    }
}


/// Surrogate keys of two distinct positions differ in a sorted node.
proof fn lemma_key_unique(es: Seq<NodeEntry>, i: int, j: int)
    requires
        sorted_strict(es),
        0 <= i < es.len(),
        0 <= j < es.len(),
        es[i].spec_key() == es[j].spec_key(),
    ensures
        i == j,
{
}

/// What a flat node associates with a surrogate key.
pub open spec fn flat_lookup(es: Seq<NodeEntry>, k: u32) -> Option<Leaf> {
    if has_key(es, k) {
        Some(leaf_at(es, idx_of(es, k)))
    } else {
        None
    }
}

/// A key present at position `w` looks up to the leaf there.
proof fn lemma_lookup_at(es: Seq<NodeEntry>, w: int)
    requires
        sorted_strict(es),
        0 <= w < es.len(),
    ensures
        flat_lookup(es, es[w].spec_key()) == Some(leaf_at(es, w)),
{
    let k = es[w].spec_key();
    assert(has_key(es, k));
    let i = idx_of(es, k);
    assert(0 <= i < es.len() && es[i].spec_key() == k);
    lemma_key_unique(es, i, w);
}

/// The entries of a flat node: keys strictly increasing, every child a
/// well-formed leaf filed under its own surrogate.
pub open spec fn flat_es_wf(es: Seq<NodeEntry>) -> bool {
    &&& sorted_strict(es)
    &&& forall|i: int| 0 <= i < es.len() ==> (#[trigger] es[i].spec_child()) is Leaf
    &&& forall|i: int|
        0 <= i < es.len() ==> (#[trigger] es[i].spec_key()) == leaf_at(es, i).spec_key_u32()
            && leaf_at(es, i).wf()
}

/// Renewing the slot that already carries a key renews exactly that
/// association and nothing else.
#[verifier::spinoff_prover]
proof fn lemma_set_replace(oes: Seq<NodeEntry>, nes: Seq<NodeEntry>, pos: int, leaf: Leaf)
    requires
        flat_es_wf(oes),
        leaf.wf(),
        0 <= pos < oes.len(),
        oes[pos].spec_key() == leaf.spec_key_u32(),
        nes.len() == oes.len(),
        forall|i: int| 0 <= i < oes.len() && i != pos ==> nes[i] == oes[i],
        nes[pos].spec_key() == leaf.spec_key_u32(),
        nes[pos].spec_child() is Leaf,
        leaf_at(nes, pos) == leaf,
    ensures
        flat_es_wf(nes),
        forall|k: u32|
            flat_lookup(nes, k) == (if k == leaf.spec_key_u32() {
                Some(leaf)
            } else {
                flat_lookup(oes, k)
            }),
{
    assert forall|i: int| 0 <= i < nes.len() implies (#[trigger] nes[i].spec_key()) == oes[
        i
    ].spec_key() by {}
    assert(sorted_strict(nes));
    assert forall|i: int| 0 <= i < nes.len() implies (#[trigger] nes[i].spec_child()) is Leaf by {
        if i != pos {
            assert(nes[i] == oes[i]);
        }
    }
    assert forall|i: int|
        0 <= i < nes.len() implies (#[trigger] nes[i].spec_key()) == leaf_at(nes, i).spec_key_u32()
        && leaf_at(nes, i).wf() by {
        if i != pos {
            assert(nes[i] == oes[i]);
        }
    }
    assert(flat_es_wf(nes));
    assert forall|k: u32|
        flat_lookup(nes, k) == (if k == leaf.spec_key_u32() {
            Some(leaf)
        } else {
            flat_lookup(oes, k)
        }) by {
        if k == leaf.spec_key_u32() {
            lemma_lookup_at(nes, pos);
        } else {
            if has_key(nes, k) {
                let w = choose|i: int| 0 <= i < nes.len() && (#[trigger] nes[i].spec_key()) == k;
                assert(w != pos);
                assert(oes[w].spec_key() == k);
                lemma_lookup_at(nes, w);
                lemma_lookup_at(oes, w);
            } else {
                if has_key(oes, k) {
                    let w = choose|i: int|
                        0 <= i < oes.len() && (#[trigger] oes[i].spec_key()) == k;
                    assert(nes[w].spec_key() == k);
                }
            }
        }
    }
}

/// Inserting a new key at its ordered position adds exactly that
/// association and keeps every other.
#[verifier::spinoff_prover]
proof fn lemma_set_insert(oes: Seq<NodeEntry>, nes: Seq<NodeEntry>, pos: int, leaf: Leaf)
    requires
        flat_es_wf(oes),
        leaf.wf(),
        0 <= pos <= oes.len(),
        forall|i: int| 0 <= i < pos ==> (#[trigger] oes[i].spec_key()) < leaf.spec_key_u32(),
        forall|i: int| pos <= i < oes.len() ==> (#[trigger] oes[i].spec_key()) > leaf.spec_key_u32(),
        nes.len() == oes.len() + 1,
        forall|i: int| 0 <= i < pos ==> nes[i] == oes[i],
        forall|i: int| pos < i < nes.len() ==> nes[i] == oes[i - 1],
        nes[pos].spec_key() == leaf.spec_key_u32(),
        nes[pos].spec_child() is Leaf,
        leaf_at(nes, pos) == leaf,
    ensures
        flat_es_wf(nes),
        forall|k: u32|
            flat_lookup(nes, k) == (if k == leaf.spec_key_u32() {
                Some(leaf)
            } else {
                flat_lookup(oes, k)
            }),
{
    assert forall|i: int, j: int| 0 <= i < j < nes.len() implies (#[trigger] nes[i].spec_key()) < (
    #[trigger] nes[j].spec_key()) by {
        if i < pos && j < pos {
        } else if i < pos && j == pos {
        } else if i < pos && j > pos {
            if j - 1 == i {
            } else {
                assert(oes[i].spec_key() < oes[j - 1].spec_key());
            }
        } else if i == pos {
            assert(nes[j] == oes[j - 1]);
            assert(oes[j - 1].spec_key() > leaf.spec_key_u32());
        } else {
            assert(oes[i - 1].spec_key() < oes[j - 1].spec_key());
        }
    }
    assert(sorted_strict(nes));
    assert forall|i: int| 0 <= i < nes.len() implies (#[trigger] nes[i].spec_child()) is Leaf by {
        if i < pos {
            assert(nes[i] == oes[i]);
        } else if i > pos {
            assert(nes[i] == oes[i - 1]);
        }
    }
    assert forall|i: int|
        0 <= i < nes.len() implies (#[trigger] nes[i].spec_key()) == leaf_at(nes, i).spec_key_u32()
        && leaf_at(nes, i).wf() by {
        if i < pos {
            assert(nes[i] == oes[i]);
        } else if i > pos {
            assert(nes[i] == oes[i - 1]);
        }
    }
    assert(flat_es_wf(nes));
    assert forall|k: u32|
        flat_lookup(nes, k) == (if k == leaf.spec_key_u32() {
            Some(leaf)
        } else {
            flat_lookup(oes, k)
        }) by {
        if k == leaf.spec_key_u32() {
            lemma_lookup_at(nes, pos);
            if has_key(oes, k) {
                let w = choose|i: int| 0 <= i < oes.len() && (#[trigger] oes[i].spec_key()) == k;
                assert(oes[w].spec_key() == k);
                assert(false);
            }
        } else {
            if has_key(nes, k) {
                let w = choose|i: int| 0 <= i < nes.len() && (#[trigger] nes[i].spec_key()) == k;
                assert(w != pos);
                let wo = if w < pos {
                    w
                } else {
                    w - 1
                };
                assert(oes[wo].spec_key() == k);
                lemma_lookup_at(nes, w);
                lemma_lookup_at(oes, wo);
            } else {
                if has_key(oes, k) {
                    let w = choose|i: int|
                        0 <= i < oes.len() && (#[trigger] oes[i].spec_key()) == k;
                    let wn = if w < pos {
                        w
                    } else {
                        w + 1
                    };
                    assert(nes[wn].spec_key() == k);
                }
            }
        }
    }
}

/// Appends `src[from..to]`, cloned, onto `dst`.
fn push_range(dst: &mut Vec<NodeEntry>, src: &Vec<NodeEntry>, from: usize, to: usize)
    requires
        from <= to <= src@.len(),
    ensures
        final(dst)@ == old(dst)@ + src@.subrange(from as int, to as int),
{
    let mut i: usize = from;
    proof {
        assert(dst@ =~= dst@ + src@.subrange(from as int, from as int));
    }
    while i < to
        invariant
            from <= i <= to <= src@.len(),
            dst@ == old(dst)@ + src@.subrange(from as int, i as int),
        decreases to - i,
    {
        dst.push(src[i].clone());
        proof {
            assert(old(dst)@ + src@.subrange(from as int, i as int) + seq![src@[i as int]]
                =~= old(dst)@ + src@.subrange(from as int, i as int + 1));
        }
        i += 1;
    }
}

/// `find_off` stays within the entries.
proof fn lemma_find_off_in_range(es: Seq<NodeEntry>, key: u32)
    requires
        es.len() > 0,
    ensures
        0 <= find_off(es, key) < es.len(),
{
    lemma_find_off_from_in_range(es, key, 0, 0);
}

proof fn lemma_find_off_from_in_range(es: Seq<NodeEntry>, key: u32, i: int, acc: int)
    requires
        es.len() > 0,
        0 <= i,
        0 <= acc < es.len(),
    ensures
        0 <= find_off_from(es, key, i, acc) < es.len(),
    decreases es.len() - i,
{
    if 0 <= i < es.len() && es[i].spec_key() <= key {
        lemma_find_off_from_in_range(es, key, i + 1, i);
    }
}

impl Node {
    pub closed spec fn spec_depth(&self) -> usize {
        self.depth
    }

    pub closed spec fn spec_entries(&self) -> Seq<NodeEntry> {
        self.entries@
    }

    /// A flat node: every tree grown from `Node::new` by `set` is one.
    pub open spec fn flat_wf(&self) -> bool {
        self.spec_depth() == 0 && flat_es_wf(self.spec_entries())
    }

    pub fn new_from_props(depth: usize, entries: Vec<NodeEntry>) -> (r: Node)
        ensures
            r.spec_depth() == depth,
            r.spec_entries() == entries@,
    {
        Node { depth, entries }
    }

    pub fn new_with_depth(depth: usize) -> (r: Node)
        ensures
            r.spec_depth() == depth,
            r.spec_entries().len() == 0,
    {
        Node { depth, entries: Vec::new() }
    }

    /// An empty tree.
    pub fn new() -> (r: Node)
        ensures
            r.flat_wf(),
            r.spec_entries().len() == 0,
            forall|k: u32| flat_lookup(r.spec_entries(), k) is None,
    {
        let r = Node { depth: 0, entries: Vec::new() };
        proof {
            assert(forall|k: u32| !has_key(r.spec_entries(), k));
        }
        r
    }

    /// The slot the find-slot walk picks: the last entry whose key is not
    /// above the target, or the first entry; 0 on an empty node.
    pub fn get_internal_offset(&self, key: u32) -> (r: usize)
        ensures
            r as int == find_off(self.spec_entries(), key),
            self.spec_entries().len() > 0 ==> r < self.spec_entries().len(),
            self.spec_entries().len() == 0 ==> r == 0,
    {
        let ghost es = self.spec_entries();
        if self.entries.len() == 0 {
            return 0;
        }
        let mut index: usize = 0;
        let mut i: usize = 0;
        let n = self.entries.len();
        proof {
            lemma_find_off_in_range(es, key);
        }
        while i < n
            invariant
                i <= n,
                index < n,
                n == es.len(),
                es == self.spec_entries(),
                find_off(es, key) == find_off_from(es, key, i as int, index as int),
                0 <= find_off(es, key) < es.len(),
            decreases n - i,
    {
            if self.entries[i].key <= key {
                index = i;
            } else {
                return index;
            }
            i += 1;
        }
        index
    }

    /// A copy of this node with the leaf filed under its key: replaced
    /// in place when the key is present, inserted in order when not,
    /// one child path rebuilt at greater depths. The receiver is never
    /// changed, so older roots stay valid.
    ///
    /// The exact association law is stated for flat nodes, the only kind
    /// this API grows; above depth 0 the contract pins success, depth
    /// preservation and termination, and the routing is descriptive.
    pub fn set_rc_leaf(&self, leaf: Rc<Leaf>) -> (r: UssResult<Node>)
        ensures
            r is Ok,
            r->Ok_0.spec_depth() as int == (if self.spec_entries().len() == 0 {
                0int
            } else {
                self.spec_depth() as int
            }),
            self.flat_wf() && (*leaf).wf() ==> ({
                let n = r->Ok_0;
                &&& n.flat_wf()
                &&& forall|k: u32|
                    flat_lookup(n.spec_entries(), k) == (if k == (*leaf).spec_key_u32() {
                        Some(*leaf)
                    } else {
                        flat_lookup(self.spec_entries(), k)
                    })
            }),
        decreases self.spec_depth(),
    {
        let key = rc_borrow(&leaf).key_u32();

        if self.entries.len() == 0 {
            let mut entries: Vec<NodeEntry> = Vec::new();
            entries.push(NodeEntry { key, child: NodeChild::Leaf(leaf) });
            let n = Node { depth: 0, entries };
            proof {
                if self.flat_wf() && (*leaf).wf() {
                    let nes = n.spec_entries();
                    assert(leaf_at(nes, 0) == *leaf);
                    assert forall|k: u32|
                        flat_lookup(nes, k) == (if k == (*leaf).spec_key_u32() {
                            Some(*leaf)
                        } else {
                            flat_lookup(self.spec_entries(), k)
                        }) by {
                        if k == (*leaf).spec_key_u32() {
                            lemma_lookup_at(nes, 0);
                        } else {
                            assert(!has_key(nes, k));
                            assert(!has_key(self.spec_entries(), k));
                        }
                    }
                }
            }
            return Ok(n);
        }

        let offset = self.get_internal_offset(key);
        let ghost oes = self.spec_entries();
        proof {
            if self.flat_wf() {
                lemma_find_off_sorted(oes, key);
            }
        }

        if self.depth == 0 {
            let entry_key = self.entries[offset].key;

            if entry_key == key {
                let mut entries: Vec<NodeEntry> = Vec::new();
                push_range(&mut entries, &self.entries, 0, offset);
                entries.push(NodeEntry { key, child: NodeChild::Leaf(leaf) });
                push_range(&mut entries, &self.entries, offset + 1, self.entries.len());
                let n = Node { depth: 0, entries };
                proof {
                    if self.flat_wf() && (*leaf).wf() {
                        let nes = n.spec_entries();
                        assert(nes.len() == oes.len());
                        assert forall|i: int| 0 <= i < oes.len() && i != offset as int
                            implies nes[i] == oes[i] by {
                            if i < offset as int {
                                assert(nes[i] == oes.subrange(0, offset as int)[i]);
                            } else {
                                assert(nes[i] == oes.subrange(
                                    offset as int + 1,
                                    oes.len() as int,
                                )[i - offset - 1]);
                            }
                        }
                        assert(leaf_at(nes, offset as int) == *leaf);
                        lemma_set_replace(oes, nes, offset as int, leaf_at(nes, offset as int));
                    }
                }
                return Ok(n);
            } else {
                let pos: usize = if entry_key <= key {
                    offset + 1
                } else {
                    offset
                };
                let mut entries: Vec<NodeEntry> = Vec::new();
                push_range(&mut entries, &self.entries, 0, pos);
                entries.push(NodeEntry { key, child: NodeChild::Leaf(leaf) });
                push_range(&mut entries, &self.entries, pos, self.entries.len());
                let n = Node { depth: 0, entries };
                proof {
                    if self.flat_wf() && (*leaf).wf() {
                        let nes = n.spec_entries();
                        if entry_key <= key {
                            assert(oes[offset as int].spec_key() < key);
                            assert forall|i: int| 0 <= i < pos as int
                                implies (#[trigger] oes[i].spec_key()) < key by {
                                if i < offset as int {
                                    assert(oes[i].spec_key() < oes[offset as int].spec_key());
                                }
                            }
                        } else {
                            assert(offset == 0);
                            assert(oes[0].spec_key() > key) by {
                                if oes[0].spec_key() <= key {
                                    assert(oes[find_off(oes, key)].spec_key() <= key);
                                }
                            }
                            assert forall|i: int| pos as int <= i < oes.len()
                                implies (#[trigger] oes[i].spec_key()) > key by {
                                if i > 0 {
                                    assert(oes[0].spec_key() < oes[i].spec_key());
                                }
                            }
                        }
                        assert(nes.len() == oes.len() + 1);
                        assert forall|i: int| 0 <= i < (pos as int) implies nes[i] == oes[i] by {
                            assert(nes[i] == oes.subrange(0, pos as int)[i]);
                        }
                        assert forall|i: int| (pos as int) < i < nes.len()
                            implies nes[i] == oes[i - 1] by {
                            assert(nes[i] == oes.subrange(pos as int, oes.len() as int)[i - pos
                                - 1]);
                        }
                        assert(leaf_at(nes, pos as int) == *leaf);
                        lemma_set_insert(oes, nes, pos as int, leaf_at(nes, pos as int));
                    }
                }
                return Ok(n);
            }
        }

        // deeper node: rebuild one child path copy-on-write; a slot that
        // does not hold a usable node is repaired by pushing its entry
        // and the new leaf one level down
        let is_sub_node: bool = match &self.entries[offset].child {
            NodeChild::Node(node) => rc_borrow(node).depth() < self.depth,
            _ => false,
        };
        if is_sub_node {
            let sub = match &self.entries[offset].child {
                NodeChild::Node(node) => {
                    match rc_borrow(node).set_rc_leaf(leaf) {
                        Ok(n) => n,
                        Err(e) => {
                            return Err(e);
                        },
                    }
                },
                _ => {
                    return Err(UssError::StaticError("Node::set_rc_leaf: unreachable"));
                },
            };
            let mut entries: Vec<NodeEntry> = Vec::new();
            push_range(&mut entries, &self.entries, 0, offset);
            entries.push(NodeEntry { key, child: NodeChild::Node(Rc::new(sub)) });
            push_range(&mut entries, &self.entries, offset + 1, self.entries.len());
            return Ok(Node { depth: self.depth, entries });
        } else {
            let mut inner: Vec<NodeEntry> = Vec::new();
            inner.push(self.entries[offset].clone());
            inner.push(NodeEntry { key, child: NodeChild::Leaf(leaf) });
            let mut entries: Vec<NodeEntry> = Vec::new();
            push_range(&mut entries, &self.entries, 0, offset);
            entries.push(
                NodeEntry {
                    key,
                    child: NodeChild::Node(Rc::new(Node { depth: self.depth - 1, entries: inner })),
                },
            );
            push_range(&mut entries, &self.entries, offset + 1, self.entries.len());
            return Ok(Node { depth: self.depth, entries });
        }
    }

    pub fn set_leaf(&self, leaf: Leaf) -> (r: UssResult<Node>)
        ensures
            r is Ok,
            self.flat_wf() && leaf.wf() ==> ({
                let n = r->Ok_0;
                &&& n.flat_wf()
                &&& forall|k: u32|
                    flat_lookup(n.spec_entries(), k) == (if k == leaf.spec_key_u32() {
                        Some(leaf)
                    } else {
                        flat_lookup(self.spec_entries(), k)
                    })
            }),
    {
        self.set_rc_leaf(Rc::new(leaf))
    }

    pub fn depth(&self) -> (r: usize)
        ensures
            r == self.spec_depth(),
    {
        self.depth
    }

    pub fn entry_count(&self) -> (r: usize)
        ensures
            r == self.spec_entries().len(),
    {
        self.entries.len()
    }
}


/// The handle under which a leaf's pair of handles is serialized.
pub open spec fn leaf_handle(l: Leaf) -> Seq<u8> {
    serializer::handle_of(serializer::pair_code(l.spec_key_ref(), l.spec_val_ref()))
}

/// The canonical child list a flat node hashes: each leaf's surrogate
/// with the handle of its serialized pair.
pub open spec fn flat_hash_list(es: Seq<NodeEntry>) -> Seq<(u32, Seq<u8>)> {
    Seq::new(es.len(), |i: int| (es[i].spec_key(), leaf_handle(leaf_at(es, i))))
}

/// Every leaf's serialized pair is short enough to stay inline: hashing
/// such a node touches the lake only if the node's own encoding spills.
pub open spec fn all_pairs_inline(es: Seq<NodeEntry>) -> bool {
    forall|i: int|
        0 <= i < es.len() ==> (#[trigger] serializer::pair_code(
            leaf_at(es, i).spec_key_ref(),
            leaf_at(es, i).spec_val_ref(),
        )).len() < 36
}

impl Lazy {
    pub closed spec fn spec_hash(&self) -> Seq<u8> {
        self.hash@
    }

    pub closed spec fn spec_content(&self) -> LazyContent {
        self.content
    }

    /// A pending lazy child, known only by identifier.
    pub fn from_hash(hash: Vec<u8>) -> (r: Lazy)
        ensures
            r.spec_hash() == hash@,
            r.spec_content() is Pending,
    {
        Lazy { content: LazyContent::Pending, hash }
    }

    /// As `from_hash`, taking the identifier behind a shared reference.
    pub fn from_rc_hash(hash: Rc<Vec<u8>>) -> (r: Lazy)
        ensures
            r.spec_hash() == (*hash)@,
            r.spec_content() is Pending,
    {
        let h = crate::tree::leaf::clone_bytes(rc_borrow(&hash));
        Lazy::from_hash(h)
    }

    /// A lazy child already carrying its node.
    pub fn from_node(node: Rc<Node>, hash: Vec<u8>) -> (r: Lazy)
        ensures
            r.spec_hash() == hash@,
            r.spec_content() matches LazyContent::Materialized(n) && n == node,
    {
        Lazy { content: LazyContent::Materialized(node), hash }
    }

    /// The identifier this child is stored under.
    pub fn hash(&self) -> (r: &Vec<u8>)
        ensures
            r@ == self.spec_hash(),
    {
        &self.hash
    }

    /// Whether the child has already been materialized.
    pub fn is_materialized(&self) -> (r: bool)
        ensures
            r == (self.spec_content() is Materialized),
    {
        match &self.content {
            LazyContent::Materialized(_) => true,
            LazyContent::Pending => false,
        }
    }

    /// The child node. A pending child is loaded from its identifier and
    /// cached: the state goes Pending to Materialized and stays there, so
    /// a later `load` hands the same node back without touching the lake.
    /// Loading never changes the identifier, and a failed load leaves the
    /// child pending.
    pub fn load(&mut self, lake: &DataLake) -> (r: UssResult<Rc<Node>>)
        requires
            lake.wf(),
        ensures
            final(self).spec_hash() == old(self).spec_hash(),
            old(self).spec_content() matches LazyContent::Materialized(n) ==> (r matches Ok(m)
                && m == n && *final(self) == *old(self)),
            old(self).spec_content() is Pending && r is Ok ==> ({
                &&& final(self).spec_content() matches LazyContent::Materialized(n) && r matches Ok(m)
                    && m == n
            }),
            r is Err ==> *final(self) == *old(self),
            old(self).spec_content() is Pending && r is Ok ==> ({
                let m = r->Ok_0;
                (*m).spec_depth() == 0 ==> (*m).flat_wf()
            }),
            lake.is_complete() && old(self).spec_content() is Pending && r is Ok ==> (forall|e: Seq<(u32, Seq<u8>)>|
                serializer::resolve(old(self).spec_hash(), lake.contents())
                    == #[trigger] serializer::node_code(0, e) ==> rebuilt_matches(
                    *(r->Ok_0),
                    e,
                    lake.contents(),
                )),
            lake.is_complete() && old(self).spec_content() is Pending ==> (forall|e: Seq<(u32, Seq<u8>)>|
                serializer::resolve(old(self).spec_hash(), lake.contents())
                    == #[trigger] serializer::node_code(0, e) && stored_flat_ok(e, lake.contents())
                    ==> r is Ok),
    {
        match &self.content {
            LazyContent::Materialized(node) => Ok(rc_clone(node)),
            LazyContent::Pending => {
                match Node::from_hash(self.hash.as_slice(), lake) {
                    Ok(n) => {
                        let rc = Rc::new(n);
                        self.content = LazyContent::Materialized(rc_clone(&rc));
                        Ok(rc)
                    },
                    Err(e) => Err(e),
                }
            },
        }
    }

    /// The child node, without caching: what the tree's read paths use
    /// when the child sits behind a shared reference that cannot take
    /// the materialized state back.
    fn load_fresh(&self, lake: &DataLake) -> (r: UssResult<Rc<Node>>)
        requires
            lake.wf(),
        ensures
            self.spec_content() matches LazyContent::Materialized(n) ==> (r matches Ok(m) && m
                == n),
            self.spec_content() is Pending && r is Ok ==> ({
                let m = r->Ok_0;
                (*m).spec_depth() == 0 ==> (*m).flat_wf()
            }),
    {
        match &self.content {
            LazyContent::Materialized(node) => Ok(rc_clone(node)),
            LazyContent::Pending => {
                match Node::from_hash(self.hash.as_slice(), lake) {
                    Ok(n) => Ok(Rc::new(n)),
                    Err(e) => Err(e),
                }
            },
        }
    }
}

/// The rebuilt leaf carries whatever the stored child handle resolves
/// to: if that resolution is the encoding of a pair of handles, they are
/// the leaf's key and value handles.
pub open spec fn leaf_matches_handle(l: Leaf, h: Seq<u8>, contents: Map<Seq<u8>, Seq<u8>>) -> bool {
    forall|x: Seq<u8>, y: Seq<u8>|
        serializer::resolve(h, contents) == #[trigger] serializer::pair_code(x, y)
            ==> l.spec_key_ref() == x && l.spec_val_ref() == y
}

/// Element `i` of the rebuilt node matches element `i` of the stored
/// list: the stored key, a leaf child with empty caches, its handles
/// bound to the stored child handle's resolution.
pub open spec fn rebuilt_entry_ok(
    n: Node,
    e: Seq<(u32, Seq<u8>)>,
    contents: Map<Seq<u8>, Seq<u8>>,
    i: int,
) -> bool {
    &&& n.spec_entries()[i].spec_key() == e[i].0
    &&& leaf_at(n.spec_entries(), i).spec_key_val() is None
    &&& leaf_at(n.spec_entries(), i).spec_val_val() is None
    &&& leaf_matches_handle(leaf_at(n.spec_entries(), i), e[i].1, contents)
}

/// The rebuilt node carries exactly the stored list: one leaf per
/// element, filed under the stored key, with empty caches and handles
/// taken from the stored child handles.
pub open spec fn rebuilt_matches(
    n: Node,
    e: Seq<(u32, Seq<u8>)>,
    contents: Map<Seq<u8>, Seq<u8>>,
) -> bool {
    &&& n.spec_depth() == 0
    &&& n.spec_entries().len() == e.len()
    &&& forall|i: int| 0 <= i < e.len() ==> #[trigger] rebuilt_entry_ok(n, e, contents, i)
}

/// A stored child is sound: its handle resolves to an encoded pair whose
/// key handle checksums to the stored key.
pub open spec fn stored_child_ok(k: u32, h: Seq<u8>, contents: Map<Seq<u8>, Seq<u8>>) -> bool {
    exists|x: Seq<u8>, y: Seq<u8>|
        serializer::resolve(h, contents) == #[trigger] serializer::pair_code(x, y)
            && crate::tree::leaf::surrogate_of_handle(x) == k
}

/// A stored flat node is sound: keys strictly increase and every child
/// handle resolves to a pair matching its key. Rebuilding such a node
/// must succeed.
pub open spec fn stored_flat_ok(e: Seq<(u32, Seq<u8>)>, contents: Map<Seq<u8>, Seq<u8>>) -> bool {
    &&& forall|i: int, j: int| 0 <= i < j < e.len() ==> (#[trigger] e[i].0) < (#[trigger] e[j].0)
    &&& forall|i: int| 0 <= i < e.len() ==> #[trigger] stored_child_ok(e[i].0, e[i].1, contents)
}

impl Node {
    /// Rebuilds a node from the handle of its serialized form. At depth
    /// 0 every child is loaded as a leaf and checked: its surrogate must
    /// match the stored key, and the keys must strictly increase; any
    /// mismatch is an integrity failure. Above depth 0 the children stay
    /// lazy. Rebuilding succeeds whenever the handle names a sound flat
    /// node.
    #[verifier::spinoff_prover]
    #[verifier::rlimit(100)]
    pub fn from_hash(hash: &[u8], lake: &DataLake) -> (r: UssResult<Node>)
        requires
            lake.wf(),
        ensures
            r matches Ok(n) ==> (n.spec_depth() == 0 ==> n.flat_wf()),
            lake.is_complete() && r is Ok ==> (forall|e: Seq<(u32, Seq<u8>)>|
                serializer::resolve(hash@, lake.contents()) == #[trigger] serializer::node_code(
                    0,
                    e,
                ) ==> rebuilt_matches(r->Ok_0, e, lake.contents())),
            lake.is_complete() ==> (forall|e: Seq<(u32, Seq<u8>)>|
                serializer::resolve(hash@, lake.contents()) == #[trigger] serializer::node_code(
                    0,
                    e,
                ) && stored_flat_ok(e, lake.contents()) ==> r is Ok),
    {
        let ghost contents = lake.contents();
        let parsed = match serializer::deserialize_node(hash, lake) {
            Ok(p) => p,
            Err(err) => {
                proof {
                    if lake.is_complete() {
                        assert forall|e: Seq<(u32, Seq<u8>)>|
                            serializer::resolve(hash@, contents)
                                == #[trigger] serializer::node_code(0, e) implies false by {
                            assert(serializer::resolve(hash@, contents)
                                == serializer::node_code(0u64, e));
                        }
                    }
                }
                return Err(err);
            },
        };
        let (depth64, children) = parsed;
        if depth64 > usize::MAX as u64 {
            proof {
                if lake.is_complete() {
                    assert forall|e: Seq<(u32, Seq<u8>)>|
                        serializer::resolve(hash@, contents)
                            == #[trigger] serializer::node_code(0, e) implies false by {
                        assert(serializer::resolve(hash@, contents)
                            == serializer::node_code(0u64, e));
                        assert(parsed.0 == 0u64);
                    }
                }
            }
            return Err(UssError::StaticError("Node::from_hash: depth out of range"));
        }
        let depth: usize = depth64 as usize;
        let mut entries: Vec<NodeEntry> = Vec::new();

        if depth == 0 {
            let mut i: usize = 0;
            let n = children.len();
            while i < n
                invariant
                    i <= n,
                    n == children@.len(),
                    lake.wf(),
                    contents == lake.contents(),
                    entries@.len() == i,
                    flat_es_wf(entries@),
                    forall|j: int|
                        0 <= j < i ==> (#[trigger] entries@[j].spec_key()) == children@[j].0
                            && leaf_at(entries@, j).spec_key_val() is None && leaf_at(
                            entries@,
                            j,
                        ).spec_val_val() is None,
                    lake.is_complete() ==> forall|j: int|
                        0 <= j < i ==> #[trigger] leaf_matches_handle(
                            leaf_at(entries@, j),
                            children@[j].1@,
                            contents,
                        ),
                    lake.is_complete() ==> (forall|d: u64, e2: Seq<(u32, Seq<u8>)>|
                        serializer::resolve(hash@, contents) == #[trigger] serializer::node_code(
                            d,
                            e2,
                        ) ==> d == 0 && serializer::entries_view(children@) == e2),
                decreases n - i,
            {
                let ghost stored_sound = lake.is_complete() && (exists|e: Seq<(u32, Seq<u8>)>|
                    serializer::resolve(hash@, contents) == #[trigger] serializer::node_code(0, e)
                        && stored_flat_ok(e, contents));
                proof {
                    if stored_sound {
                        let e = choose|e: Seq<(u32, Seq<u8>)>|
                            serializer::resolve(hash@, contents)
                                == #[trigger] serializer::node_code(0, e) && stored_flat_ok(
                                e,
                                contents,
                            );
                        assert(serializer::resolve(hash@, contents)
                            == serializer::node_code(0u64, e));
                        assert(serializer::entries_view(children@) == e);
                        assert(stored_child_ok(e[i as int].0, e[i as int].1, contents));
                        assert(e[i as int] == (children@[i as int].0, children@[i as int].1@));
                    }
                }
                let check_key = children[i].0;
                let leaf = match Leaf::from_hash(children[i].1.as_slice(), lake) {
                    Ok(l) => l,
                    Err(err) => {
                        proof {
                            if stored_sound {
                                let e = choose|e: Seq<(u32, Seq<u8>)>|
                                    serializer::resolve(hash@, contents)
                                        == #[trigger] serializer::node_code(0, e)
                                        && stored_flat_ok(e, contents);
                                let (x, y) = choose|x: Seq<u8>, y: Seq<u8>|
                                    serializer::resolve(children@[i as int].1@, contents)
                                        == #[trigger] serializer::pair_code(x, y)
                                        && crate::tree::leaf::surrogate_of_handle(x)
                                        == children@[i as int].0;
                                assert(false);
                            }
                        }
                        return Err(err);
                    },
                };
                proof {
                    if stored_sound {
                        let e = choose|e: Seq<(u32, Seq<u8>)>|
                            serializer::resolve(hash@, contents)
                                == #[trigger] serializer::node_code(0, e) && stored_flat_ok(
                                e,
                                contents,
                            );
                        let (x, y) = choose|x: Seq<u8>, y: Seq<u8>|
                            serializer::resolve(children@[i as int].1@, contents)
                                == #[trigger] serializer::pair_code(x, y)
                                && crate::tree::leaf::surrogate_of_handle(x)
                                == children@[i as int].0;
                        assert(leaf.spec_key_ref() == x);
                        assert(leaf.spec_key_u32() == crate::tree::leaf::surrogate_of_handle(x));
                        assert(leaf.spec_key_u32() == children@[i as int].0);
                    }
                }
                let key = leaf.key_u32();
                if check_key != key {
                    proof {
                        assert(!stored_sound);
                    }
                    return Err(
                        UssError::StaticError(
                            "Node::from_hash: leaf key does not match entry key",
                        ),
                    );
                }
                if entries.len() > 0 && entries[entries.len() - 1].key >= key {
                    proof {
                        if stored_sound {
                            let e = choose|e: Seq<(u32, Seq<u8>)>|
                                serializer::resolve(hash@, contents)
                                    == #[trigger] serializer::node_code(0, e) && stored_flat_ok(
                                    e,
                                    contents,
                                );
                            assert(entries@[i as int - 1].spec_key() == children@[i as int
                                - 1].0);
                            assert(e[i as int - 1] == (children@[i as int - 1].0, children@[i as int
                                - 1].1@));
                            assert(e[i as int - 1].0 < e[i as int].0);
                            assert(false);
                        }
                    }
                    return Err(
                        UssError::StaticError("Node::from_hash: keys out of order"),
                    );
                }
                let ghost before = entries@;
                entries.push(NodeEntry { key, child: NodeChild::Leaf(Rc::new(leaf)) });
                proof {
                    assert(leaf_at(entries@, i as int) == leaf);
                    assert(leaf.spec_key_val() is None);
                    assert(leaf.spec_val_val() is None);
                    assert forall|j: int|
                        0 <= j < i as int + 1 implies (#[trigger] entries@[j].spec_key())
                        == children@[j].0 && leaf_at(entries@, j).spec_key_val() is None
                        && leaf_at(entries@, j).spec_val_val() is None by {
                        if j < i as int {
                            assert(entries@[j] == before[j]);
                            assert(before[j].spec_key() == children@[j].0);
                            assert(leaf_at(before, j).spec_key_val() is None);
                            assert(leaf_at(before, j).spec_val_val() is None);
                        } else {
                            assert(entries@[j].spec_key() == key);
                            assert(key == children@[i as int].0);
                        }
                    }
                    if lake.is_complete() {
                        assert forall|j: int|
                            0 <= j < i as int + 1 implies #[trigger] leaf_matches_handle(
                            leaf_at(entries@, j),
                            children@[j].1@,
                            contents,
                        ) by {
                            if j < i as int {
                                assert(entries@[j] == before[j]);
                                assert(leaf_matches_handle(
                                    leaf_at(before, j),
                                    children@[j].1@,
                                    contents,
                                ));
                                assert(leaf_at(entries@, j) == leaf_at(before, j));
                            } else {
                                assert forall|x: Seq<u8>, y: Seq<u8>|
                                    serializer::resolve(children@[j].1@, contents)
                                        == #[trigger] serializer::pair_code(
                                        x,
                                        y,
                                    ) implies leaf.spec_key_ref() == x && leaf.spec_val_ref()
                                    == y by {}
                            }
                        }
                    }
                    assert forall|a: int, b: int|
                        0 <= a < b < entries@.len() implies (#[trigger] entries@[a].spec_key()) < (
                    #[trigger] entries@[b].spec_key()) by {
                        if b < i as int {
                        } else {
                            assert(entries@[b].spec_key() == key);
                            assert(entries@[a] == before[a]);
                            if a < i as int - 1 {
                                assert(before[a].spec_key() < before[i as int - 1].spec_key());
                            }
                        }
                    }
                    assert(flat_es_wf(entries@));
                }
                i += 1;
            }
            let ghost es_final = entries@;
            let node = Node { depth, entries };
            proof {
                assert(node.spec_entries() == es_final);
                assert(node.flat_wf());
                if lake.is_complete() {
                    assert forall|e: Seq<(u32, Seq<u8>)>|
                        serializer::resolve(hash@, contents)
                            == #[trigger] serializer::node_code(0, e) implies rebuilt_matches(
                        node,
                        e,
                        contents,
                    ) by {
                        assert(serializer::resolve(hash@, contents)
                            == serializer::node_code(0u64, e));
                        assert(parsed.0 == 0u64 && serializer::entries_view(parsed.1@) == e);
                        assert(serializer::entries_view(children@) == e);
                        assert(e.len() == children@.len());
                        assert(es_final.len() == children@.len());
                        assert forall|i: int| 0 <= i < e.len() implies rebuilt_entry_ok(
                            node,
                            e,
                            contents,
                            i,
                        ) by {
                            assert(e[i] == (children@[i].0, children@[i].1@));
                            assert(es_final[i].spec_key() == children@[i].0);
                            assert(leaf_at(es_final, i).spec_key_val() is None);
                            assert(leaf_at(es_final, i).spec_val_val() is None);
                            assert(leaf_matches_handle(
                                leaf_at(es_final, i),
                                children@[i].1@,
                                contents,
                            ));
                        }
                    }
                }
            }
            return Ok(node);
        }

        let mut i: usize = 0;
        let n = children.len();
        while i < n
            invariant
                i <= n,
                n == children@.len(),
            decreases n - i,
        {
            let key = children[i].0;
            let h = crate::tree::leaf::clone_bytes(&children[i].1);
            entries.push(NodeEntry { key, child: NodeChild::Lazy(Rc::new(Lazy::from_hash(h))) });
            i += 1;
        }
        proof {
            if lake.is_complete() {
                assert forall|e: Seq<(u32, Seq<u8>)>|
                    serializer::resolve(hash@, contents)
                        == #[trigger] serializer::node_code(0, e) implies false by {
                    assert(serializer::resolve(hash@, contents) == serializer::node_code(0u64, e));
                    assert(depth64 == 0);
                }
            }
        }
        Ok(Node { depth, entries })
    }

    /// The leaf whose surrogate is the greatest at or below `key` along
    /// the walk's path; on a flat node, exactly the entry the walk picks.
    /// Above depth 0 the descent is verified to terminate and to reject
    /// malformed children, with the result otherwise descriptive.
    pub fn get_ge_by_u32(&self, key: u32, lake: &DataLake) -> (r: UssResult<Option<Rc<Leaf>>>)
        requires
            lake.wf(),
        ensures
            self.flat_wf() ==> r is Ok,
            self.flat_wf() && self.spec_entries().len() == 0 ==> r->Ok_0 is None,
            self.flat_wf() && self.spec_entries().len() > 0 ==> (r->Ok_0 matches Some(l) && *l
                == leaf_at(self.spec_entries(), find_off(self.spec_entries(), key))),
        decreases self.spec_depth(),
    {
        if self.entries.len() == 0 {
            return Ok(None);
        }

        let offset = self.get_internal_offset(key);
        proof {
            if self.flat_wf() {
                assert(self.spec_entries()[offset as int].spec_child() is Leaf);
            }
        }

        match &self.entries[offset].child {
            NodeChild::Leaf(leaf) => {
                proof {
                    assert(self.spec_entries()[offset as int].spec_child() == NodeChild::Leaf(
                        *leaf,
                    ));
                }
                Ok(Some(rc_clone(leaf)))
            },
            NodeChild::Node(node) => {
                proof {
                    assert(!(self.spec_entries()[offset as int].spec_child() is Leaf));
                }
                let nref = rc_borrow(node);
                if nref.depth() < self.depth {
                    nref.get_ge_by_u32(key, lake)
                } else {
                    Err(UssError::StaticError("Node::get_ge_by_u32: malformed node child"))
                }
            },
            NodeChild::Lazy(lazy) => {
                proof {
                    assert(!(self.spec_entries()[offset as int].spec_child() is Leaf));
                }
                let node = match rc_borrow(lazy).load_fresh(lake) {
                    Ok(n) => n,
                    Err(e) => {
                        return Err(e);
                    },
                };
                let nref = rc_borrow(&node);
                if nref.depth() < self.depth {
                    nref.get_ge_by_u32(key, lake)
                } else {
                    Err(UssError::StaticError("Node::get_ge_by_u32: malformed lazy child"))
                }
            },
        }
    }

    /// The leaf filed under exactly this surrogate, if any.
    pub fn get_by_u32(&self, key: u32, lake: &DataLake) -> (r: UssResult<Option<Rc<Leaf>>>)
        requires
            lake.wf(),
        ensures
            self.flat_wf() ==> ({
                &&& r is Ok
                &&& (r->Ok_0 is Some <==> has_key(self.spec_entries(), key))
                &&& (r->Ok_0 matches Some(l) ==> flat_lookup(self.spec_entries(), key) == Some(
                    *l,
                ))
            }),
    {
        let leaf = match self.get_ge_by_u32(key, lake) {
            Ok(l) => l,
            Err(e) => {
                return Err(e);
            },
        };

        proof {
            if self.flat_wf() && self.spec_entries().len() > 0 {
                lemma_find_off_sorted(self.spec_entries(), key);
            }
        }

        if let Some(leaf) = leaf {
            if rc_borrow(&leaf).key_u32() == key {
                proof {
                    if self.flat_wf() {
                        let es = self.spec_entries();
                        let f = find_off(es, key);
                        assert(es[f].spec_key() == key);
                        lemma_lookup_at(es, f);
                    }
                }
                return Ok(Some(leaf));
            }
            proof {
                if self.flat_wf() {
                    let es = self.spec_entries();
                    if has_key(es, key) {
                        assert(es[find_off(es, key)].spec_key() == key);
                    }
                }
            }
            return Ok(None);
        }

        Ok(None)
    }

    /// The surrogate a key payload is filed under: the checksum of the
    /// key's handle. Serializing the key may spill it into the lake.
    pub fn key_to_u32(&self, key: &Vec<u8>, lake: &mut DataLake) -> (r: UssResult<u32>)
        requires
            old(lake).wf(),
            key@.len() <= 65535,
        ensures
            final(lake).wf(),
            final(lake).is_complete() == old(lake).is_complete(),
            final(lake).spec_readonly() == old(lake).spec_readonly(),
            forall|id: Seq<u8>| #[trigger]
                old(lake).records().dom().contains(id) ==> final(lake).records().dom().contains(id)
                    && final(lake).records()[id] == old(lake).records()[id],
            r matches Ok(k) ==> k == surrogate_of(key@),
            key@.len() < 36 ==> r is Ok && *final(lake) == *old(lake),
            old(lake).is_complete() ==> (r is Ok <==> (key@.len() < 36 || old(lake).can_store(
                key@,
            ))),
    {
        let handle = match serializer::serialize(key, lake) {
            Ok(h) => h,
            Err(e) => {
                return Err(e);
            },
        };
        Ok(hasher::checksum_u32(handle.as_slice(), handle.len() as u32))
    }

    /// `get_ge_by_u32` under the surrogate of a key payload.
    pub fn get_ge(&self, key: &Vec<u8>, lake: &mut DataLake) -> (r: UssResult<Option<Rc<Leaf>>>)
        requires
            old(lake).wf(),
            key@.len() <= 65535,
        ensures
            final(lake).wf(),
            final(lake).is_complete() == old(lake).is_complete(),
            forall|id: Seq<u8>| #[trigger]
                old(lake).records().dom().contains(id) ==> final(lake).records().dom().contains(id)
                    && final(lake).records()[id] == old(lake).records()[id],
            self.flat_wf() && key@.len() < 36 ==> r is Ok,
            self.flat_wf() && old(lake).is_complete() ==> (r is Ok <==> (key@.len() < 36 || old(
                lake,
            ).can_store(key@))),
    {
        let k = match self.key_to_u32(key, lake) {
            Ok(k) => k,
            Err(e) => {
                return Err(e);
            },
        };
        self.get_ge_by_u32(k, lake)
    }

    /// The leaf stored under a key payload, if any.
    pub fn get(&self, key: &Vec<u8>, lake: &mut DataLake) -> (r: UssResult<Option<Rc<Leaf>>>)
        requires
            old(lake).wf(),
            key@.len() <= 65535,
        ensures
            final(lake).wf(),
            final(lake).is_complete() == old(lake).is_complete(),
            final(lake).spec_readonly() == old(lake).spec_readonly(),
            forall|id: Seq<u8>| #[trigger]
                old(lake).records().dom().contains(id) ==> final(lake).records().dom().contains(id)
                    && final(lake).records()[id] == old(lake).records()[id],
            self.flat_wf() ==> ({
                &&& (r is Ok || key@.len() >= 36)
                &&& (r matches Ok(o) ==> ((o is Some <==> has_key(
                    self.spec_entries(),
                    surrogate_of(key@),
                )) && (o matches Some(l) ==> flat_lookup(self.spec_entries(), surrogate_of(key@))
                    == Some(*l))))
            }),
            self.flat_wf() && old(lake).is_complete() ==> (r is Ok <==> (key@.len() < 36 || old(
                lake,
            ).can_store(key@))),
    {
        let k = match self.key_to_u32(key, lake) {
            Ok(k) => k,
            Err(e) => {
                return Err(e);
            },
        };
        self.get_by_u32(k, lake)
    }

    /// Files a key-value pair: builds the leaf (spilling long payloads
    /// into the lake) and returns the copy of this tree that holds it.
    pub fn set(&self, key: Vec<u8>, val: Vec<u8>, lake: &mut DataLake) -> (r: UssResult<Node>)
        requires
            old(lake).wf(),
            key@.len() <= 65535,
            val@.len() <= 65535,
        ensures
            final(lake).wf(),
            final(lake).is_complete() == old(lake).is_complete(),
            final(lake).spec_readonly() == old(lake).spec_readonly(),
            forall|id: Seq<u8>| #[trigger]
                old(lake).records().dom().contains(id) ==> final(lake).records().dom().contains(id)
                    && final(lake).records()[id] == old(lake).records()[id],
            key@.len() < 36 && val@.len() < 36 ==> r is Ok && *final(lake) == *old(lake),
            old(lake).is_complete() && key@.len() < 36 ==> (r is Ok <==> (val@.len() < 36 || old(
                lake,
            ).can_store(val@))),
            self.flat_wf() && r is Ok ==> ({
                let n = r->Ok_0;
                let sk = surrogate_of(key@);
                &&& n.flat_wf()
                &&& flat_lookup(n.spec_entries(), sk) matches Some(l) && l.spec_key_ref()
                    == serializer::handle_of(key@) && l.spec_val_ref() == serializer::handle_of(
                    val@,
                ) && l.spec_key_val() == Some(key@) && l.spec_val_val() == Some(val@)
                &&& forall|k: u32|
                    k != sk ==> flat_lookup(n.spec_entries(), k) == flat_lookup(
                        self.spec_entries(),
                        k,
                    )
            }),
            self.flat_wf() && r is Ok && old(lake).is_complete() && Leaf::payloads_fresh(
                *old(lake),
                key@,
                val@,
            ) ==> ({
                let l = flat_lookup(r->Ok_0.spec_entries(), surrogate_of(key@))->Some_0;
                &&& l.valid(final(lake).contents())
                &&& l.resolved(final(lake).contents())
                &&& l.key_bytes(final(lake).contents()) == key@
                &&& l.value_bytes(final(lake).contents()) == val@
            }),
    {
        let leaf = match Leaf::from_kv(key, val, lake) {
            Ok(l) => l,
            Err(e) => {
                return Err(e);
            },
        };
        self.set_leaf(leaf)
    }
}


impl Node {
    /// Gathers the leaves under this node, left to right, loading lazy
    /// children as needed; a flat node contributes exactly its entries.
    pub fn collect_leaves(&self, lake: &DataLake, out: &mut Vec<Rc<Leaf>>) -> (r: UssResult<()>)
        requires
            lake.wf(),
        ensures
            self.flat_wf() ==> ({
                &&& r is Ok
                &&& final(out)@.len() == old(out)@.len() + self.spec_entries().len()
                &&& forall|i: int| 0 <= i < old(out)@.len() ==> final(out)@[i] == old(out)@[i]
                &&& forall|i: int|
                    0 <= i < self.spec_entries().len() ==> *(#[trigger] final(out)@[old(out)@.len()
                        + i]) == leaf_at(self.spec_entries(), i)
            }),
            final(out)@.len() >= old(out)@.len(),
        decreases self.spec_depth(),
    {
        let ghost base = out@;
        let mut i: usize = 0;
        let n = self.entries.len();
        while i < n
            invariant
                i <= n,
                n == self.spec_entries().len(),
                lake.wf(),
                base == old(out)@,
                out@.len() >= base.len(),
                self.flat_wf() ==> ({
                    &&& out@.len() == base.len() + i
                    &&& forall|j: int| 0 <= j < base.len() ==> out@[j] == base[j]
                    &&& forall|j: int|
                        0 <= j < i ==> *(#[trigger] out@[base.len() + j]) == leaf_at(
                            self.spec_entries(),
                            j,
                        )
                }),
            decreases n - i,
        {
            proof {
                if self.flat_wf() {
                    assert(self.spec_entries()[i as int].spec_child() is Leaf);
                }
            }
            match &self.entries[i].child {
                NodeChild::Leaf(leaf) => {
                    proof {
                        assert(self.spec_entries()[i as int].spec_child() == NodeChild::Leaf(
                            *leaf,
                        ));
                    }
                    out.push(rc_clone(leaf));
                    proof {
                        if self.flat_wf() {
                            assert(*(out@[base.len() + i as int]) == leaf_at(
                                self.spec_entries(),
                                i as int,
                            ));
                        }
                    }
                },
                NodeChild::Node(node) => {
                    proof {
                        assert(!(self.spec_entries()[i as int].spec_child() is Leaf));
                    }
                    let nref = rc_borrow(node);
                    if nref.depth() < self.depth {
                        match nref.collect_leaves(lake, out) {
                            Ok(_) => (),
                            Err(e) => {
                                return Err(e);
                            },
                        }
                    } else {
                        return Err(
                            UssError::StaticError("Node::collect_leaves: malformed node child"),
                        );
                    }
                },
                NodeChild::Lazy(lazy) => {
                    proof {
                        assert(!(self.spec_entries()[i as int].spec_child() is Leaf));
                    }
                    let node = match rc_borrow(lazy).load_fresh(lake) {
                        Ok(n) => n,
                        Err(e) => {
                            return Err(e);
                        },
                    };
                    let nref = rc_borrow(&node);
                    if nref.depth() < self.depth {
                        match nref.collect_leaves(lake, out) {
                            Ok(_) => (),
                            Err(e) => {
                                return Err(e);
                            },
                        }
                    } else {
                        return Err(
                            UssError::StaticError("Node::collect_leaves: malformed lazy child"),
                        );
                    }
                },
            }
            i += 1;
        }
        Ok(())
    }

    /// Serializes this node's canonical form and returns its handle: at
    /// depth 0 the list of leaf surrogates with each leaf's own handle,
    /// above it the list of entry keys with each child's handle. When
    /// every encoding involved stays inline, success is owed and the
    /// lake is untouched; a spilled pair or node blob succeeds exactly
    /// by the lake's room at its own store, step by step.
    pub fn hash(&self, lake: &mut DataLake) -> (r: UssResult<Vec<u8>>)
        requires
            old(lake).wf(),
        ensures
            final(lake).wf(),
            final(lake).is_complete() == old(lake).is_complete(),
            final(lake).spec_readonly() == old(lake).spec_readonly(),
            forall|id: Seq<u8>| #[trigger]
                old(lake).records().dom().contains(id) ==> final(lake).records().dom().contains(id)
                    && final(lake).records()[id] == old(lake).records()[id],
            self.flat_wf() && r is Ok ==> r->Ok_0@ == serializer::handle_of(
                serializer::node_code(0, flat_hash_list(self.spec_entries())),
            ),
            old(lake).is_complete() && self.flat_wf() && r is Ok ==> ({
                let nc = serializer::node_code(0, flat_hash_list(self.spec_entries()));
                let h = serializer::handle_of(nc);
                &&& serializer::handle_resolved(h, final(lake).contents())
                &&& (nc.len() < 36 ==> serializer::resolve(h, final(lake).contents()) == nc)
            }),
            self.flat_wf() && all_pairs_inline(self.spec_entries()) && serializer::node_code(
                0,
                flat_hash_list(self.spec_entries()),
            ).len() < 36 ==> r is Ok && *final(lake) == *old(lake),
        decreases self.spec_depth(),
    {
        let mut children: Vec<(u32, Vec<u8>)> = Vec::new();
        let n = self.entries.len();
        let mut i: usize = 0;

        if self.depth == 0 {
            while i < n
                invariant
                    i <= n,
                    n == self.spec_entries().len(),
                    lake.wf(),
                    lake.is_complete() == old(lake).is_complete(),
                    lake.spec_readonly() == old(lake).spec_readonly(),
                    forall|id: Seq<u8>| #[trigger]
                        old(lake).records().dom().contains(id) ==> lake.records().dom().contains(
                            id,
                        ) && lake.records()[id] == old(lake).records()[id],
                    self.flat_wf() ==> serializer::entries_view(children@) =~= flat_hash_list(
                        self.spec_entries(),
                    ).take(i as int),
                    self.flat_wf() && all_pairs_inline(self.spec_entries()) ==> *lake == *old(
                        lake,
                    ),
                decreases n - i,
            {
                let ghost prev = *lake;
                match &self.entries[i].child {
                    NodeChild::Leaf(leaf) => {
                        let lref = rc_borrow(leaf);
                        proof {
                            if self.flat_wf() {
                                assert(leaf_at(self.spec_entries(), i as int) == *leaf);
                            }
                        }
                        let h = match lref.hash(lake) {
                            Ok(h) => h,
                            Err(e) => {
                                proof {
                                    if self.flat_wf() && all_pairs_inline(self.spec_entries()) {
                                        assert(serializer::pair_code(
                                            leaf_at(self.spec_entries(), i as int).spec_key_ref(),
                                            leaf_at(self.spec_entries(), i as int).spec_val_ref(),
                                        ).len() < 36);
                                        assert(false);
                                    }
                                }
                                return Err(e);
                            },
                        };
                        let ghost before = children@;
                        children.push((lref.key_u32(), h));
                        proof {
                            assert forall|id: Seq<u8>| #[trigger]
                                old(lake).records().dom().contains(
                                    id,
                                ) implies lake.records().dom().contains(id) && lake.records()[id]
                                == old(lake).records()[id] by {
                                assert(prev.records().dom().contains(id));
                            }
                            if self.flat_wf() {
                                assert(serializer::entries_view(children@) =~= flat_hash_list(
                                    self.spec_entries(),
                                ).take(i as int + 1)) by {
                                    assert(serializer::entries_view(children@) =~= serializer::entries_view(
                                        before,
                                    ) + seq![
                                        (children@[i as int].0, children@[i as int].1@),
                                    ]);
                                    assert(leaf_at(self.spec_entries(), i as int) == *leaf);
                                }
                                if all_pairs_inline(self.spec_entries()) {
                                    assert(serializer::pair_code(
                                        leaf_at(self.spec_entries(), i as int).spec_key_ref(),
                                        leaf_at(self.spec_entries(), i as int).spec_val_ref(),
                                    ).len() < 36);
                                    assert(*lake == prev);
                                    assert(prev == *old(lake));
                                }
                            }
                        }
                    },
                    _ => {
                        proof {
                            if self.flat_wf() {
                                assert(self.spec_entries()[i as int].spec_child() is Leaf);
                            }
                        }
                        return Err(UssError::StaticError("Node::hash: unexpected child"));
                    },
                }
                i += 1;
            }
        } else {
            while i < n
                invariant
                    i <= n,
                    n == self.spec_entries().len(),
                    self.spec_depth() != 0,
                    lake.wf(),
                    lake.is_complete() == old(lake).is_complete(),
                    lake.spec_readonly() == old(lake).spec_readonly(),
                    forall|id: Seq<u8>| #[trigger]
                        old(lake).records().dom().contains(id) ==> lake.records().dom().contains(
                            id,
                        ) && lake.records()[id] == old(lake).records()[id],
                decreases n - i,
            {
                let ghost prev = *lake;
                match &self.entries[i].child {
                    NodeChild::Lazy(lazy) => {
                        children.push(
                            (
                                self.entries[i].key,
                                crate::tree::leaf::clone_bytes(rc_borrow(lazy).hash()),
                            ),
                        );
                    },
                    NodeChild::Node(node) => {
                        let nref = rc_borrow(node);
                        if nref.depth() < self.depth {
                            let h = match nref.hash(lake) {
                                Ok(h) => h,
                                Err(e) => {
                                    return Err(e);
                                },
                            };
                            children.push((self.entries[i].key, h));
                            proof {
                                assert forall|id: Seq<u8>| #[trigger]
                                    old(lake).records().dom().contains(
                                        id,
                                    ) implies lake.records().dom().contains(id) && lake.records()[
                                    id] == old(lake).records()[id] by {
                                    assert(prev.records().dom().contains(id));
                                }
                            }
                        } else {
                            return Err(
                                UssError::StaticError("Node::hash: malformed node child"),
                            );
                        }
                    },
                    NodeChild::Leaf(_) => {
                        return Err(UssError::StaticError("Node::hash: unexpected leaf"));
                    },
                }
                i += 1;
            }
        }

        let nb = match serializer::node_to_bytes(self.depth as u64, &children) {
            Ok(v) => v,
            Err(e) => {
                return Err(e);
            },
        };
        proof {
            if self.flat_wf() {
                assert(flat_hash_list(self.spec_entries()).take(n as int) =~= flat_hash_list(
                    self.spec_entries(),
                ));
            }
        }
        if nb.len() > 65535 {
            return Err(UssError::StaticError("Node::hash: serialized node too long"));
        }
        let r = serializer::serialize(&nb, lake);
        proof {
            if old(lake).is_complete() && self.flat_wf() && r is Ok {
                let nc = serializer::node_code(0, flat_hash_list(self.spec_entries()));
                assert(nb@ == nc);
                serializer::lemma_handle_len(nc);
                if nc.len() < 36 {
                    crate::base64::lemma_decode_encode(nc);
                }
            }
        }
        r
    }
}

/// Walks the leaves of a tree in surrogate order. The leaves are
/// gathered when the iterator is built, so a failed lazy load surfaces
/// at construction and `next` is total: a deliberate reshaping of a
/// walk that would otherwise have to yield failures item by item.
pub struct NodeIterator {
    leaves: Vec<Rc<Leaf>>,
    index: usize,
}

impl NodeIterator {
    pub closed spec fn spec_leaves(&self) -> Seq<Rc<Leaf>> {
        self.leaves@
    }

    pub closed spec fn spec_index(&self) -> int {
        self.index as int
    }

    /// Gathers the node's leaves; on a flat node, exactly its entries.
    pub fn from(node: &Node, lake: &DataLake) -> (r: UssResult<NodeIterator>)
        requires
            lake.wf(),
        ensures
            node.flat_wf() ==> ({
                &&& r is Ok
                &&& r->Ok_0.spec_index() == 0
                &&& r->Ok_0.spec_leaves().len() == node.spec_entries().len()
                &&& forall|i: int|
                    0 <= i < node.spec_entries().len() ==> *(
                    #[trigger] r->Ok_0.spec_leaves()[i]) == leaf_at(node.spec_entries(), i)
            }),
    {
        let mut leaves: Vec<Rc<Leaf>> = Vec::new();
        match node.collect_leaves(lake, &mut leaves) {
            Ok(_) => {
                proof {
                    if node.flat_wf() {
                        assert forall|i: int|
                            0 <= i < node.spec_entries().len() implies *(leaves@[i]) == leaf_at(
                            node.spec_entries(),
                            i,
                        ) by {
                            assert(*(leaves@[0 + i]) == leaf_at(node.spec_entries(), i));
                        }
                    }
                }
                Ok(NodeIterator { leaves, index: 0 })
            },
            Err(e) => Err(e),
        }
    }

    /// The next leaf, left to right; `None` once all are out.
    pub fn next(&mut self) -> (r: Option<Rc<Leaf>>)
        ensures
            final(self).spec_leaves() == old(self).spec_leaves(),
            old(self).spec_index() < old(self).spec_leaves().len() ==> (r matches Some(l) && l
                == old(self).spec_leaves()[old(self).spec_index()] && final(self).spec_index()
                == old(self).spec_index() + 1),
            old(self).spec_index() >= old(self).spec_leaves().len() ==> r is None
                && final(self).spec_index() == old(self).spec_index(),
    {
        if self.index < self.leaves.len() {
            let l = rc_clone(&self.leaves[self.index]);
            self.index = self.index + 1;
            Some(l)
        } else {
            None
        }
    }
}

} // verus!
