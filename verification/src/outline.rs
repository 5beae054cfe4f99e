//! The database outline.
//!
//! The outline is a tree of the headings found in the segments.  It is built
//! by taking the headings in segment order and hanging each into the tree
//! built so far.

use vstd::prelude::*;
use crate::segment::{HeadingDef, HeadingLevel, Segment, SegmentRef, StatementAddress};
use crate::segment_set::SegmentSet;
use std::sync::Arc;
use crate::segment_order::SegmentId;

verus! {

/// A node of the outline.
#[derive(Debug)]
pub struct OutlineNode {
    /// Level of this outline
    pub level: HeadingLevel,
    /// Statement address
    pub stmt_address: StatementAddress,
    /// A list of children subsections
    pub children: Vec<OutlineNode>,
}

/// A heading as the outline records it: its level and its statement.
pub type Entry = (HeadingLevel, StatementAddress);

/// The mathematical content of an outline node.
pub struct OutlineTree {
    pub level: HeadingLevel,
    pub address: StatementAddress,
    pub children: Seq<OutlineTree>,
}

impl OutlineTree {
    /// A node without children.
    pub open spec fn leaf(entry: Entry) -> OutlineTree {
        OutlineTree { level: entry.0, address: entry.1, children: Seq::empty() }
    }

    /// The heading of the node itself.
    pub open spec fn entry(self) -> Entry {
        (self.level, self.address)
    }

    /// The headings of the node and of the first `k` of its subtrees, each
    /// node before its children.
    pub open spec fn preorder_upto(self, k: nat) -> Seq<Entry>
        decreases self, k,
    {
        if k == 0 {
            seq![self.entry()]
        } else if k <= self.children.len() {
            self.preorder_upto((k - 1) as nat) + self.children[k - 1].preorder()
        } else {
            self.preorder_upto(self.children.len())
        }
    }

    /// The headings of the tree in pre-order: each node before its children,
    /// the children first to last.
    pub open spec fn preorder(self) -> Seq<Entry>
        decreases self, self.children.len() + 1,
    {
        self.preorder_upto(self.children.len())
    }

    /// The tree after `child` was added: under the last child where that
    /// child is deeper than `child`, and else as a new last child.
    pub open spec fn with_child(self, child: OutlineTree) -> OutlineTree
        decreases self,
    {
        if self.children.len() > 0 && self.children.last().level.depth() > child.level.depth() {
            OutlineTree {
                children: self.children.drop_last().push(self.children.last().with_child(child)),
                ..self
            }
        } else {
            OutlineTree { children: self.children.push(child), ..self }
        }
    }

    /// The tree after the leaves `entries` were added one after the other.
    pub open spec fn with_entries(self, entries: Seq<Entry>) -> OutlineTree
        decreases entries.len(),
    {
        if entries.len() == 0 {
            self
        } else {
            self.with_entries(entries.drop_last()).with_child(OutlineTree::leaf(entries.last()))
        }
    }
}

/// Adding a child puts its headings behind all the headings of the tree: the
/// pre-order of the tree stays the order in which the headings were added.
pub proof fn lemma_with_child_preorder(tree: OutlineTree, child: OutlineTree)
    ensures
        tree.with_child(child).preorder() == tree.preorder() + child.preorder(),
    decreases tree,
{
    let n = tree.children.len();
    let after = tree.with_child(child);
    if n > 0 && tree.children.last().level.depth() > child.level.depth() {
        let last = tree.children.last();
        lemma_with_child_preorder(last, child);
        assert(after.children.len() == n);
        assert(after.children[n - 1] == last.with_child(child));
        lemma_preorder_prefix(tree, after, (n - 1) as nat);
        assert(after.preorder() == after.preorder_upto((n - 1) as nat) + last.with_child(
            child,
        ).preorder());
        assert(tree.preorder() == tree.preorder_upto((n - 1) as nat) + last.preorder());
        assert(after.preorder() =~= tree.preorder() + child.preorder());
    } else {
        assert(after.children.len() == n + 1);
        assert(after.children[n as int] == child);
        lemma_preorder_prefix(tree, after, n);
        assert(after.preorder() == after.preorder_upto(n) + child.preorder());
    }
}

/// Two nodes with the same heading and the same first `k` children have the
/// same pre-order up to `k`.
proof fn lemma_preorder_prefix(a: OutlineTree, b: OutlineTree, k: nat)
    requires
        a.entry() == b.entry(),
        k <= a.children.len(),
        k <= b.children.len(),
        forall|i: int| 0 <= i < k ==> a.children[i] == b.children[i],
    ensures
        a.preorder_upto(k) == b.preorder_upto(k),
    decreases k,
{
    if k > 0 {
        lemma_preorder_prefix(a, b, (k - 1) as nat);
    }
}

/// The pre-order of a tree grown from a root by adding leaves is the root's
/// heading followed by the leaves' headings, in the order of adding.
pub proof fn lemma_with_entries_preorder(root: OutlineTree, entries: Seq<Entry>)
    ensures
        root.with_entries(entries).preorder() == root.preorder() + entries,
    decreases entries.len(),
{
    if entries.len() == 0 {
        assert(root.preorder() + entries =~= root.preorder());
    } else {
        let leaf = OutlineTree::leaf(entries.last());
        lemma_with_entries_preorder(root, entries.drop_last());
        lemma_with_child_preorder(root.with_entries(entries.drop_last()), leaf);
        assert(leaf.preorder() =~= seq![entries.last()]);
        assert(root.preorder() + entries.drop_last() + seq![entries.last()] =~= root.preorder()
            + entries);
    }
}

/// The views of the first `k` of `nodes`.
pub open spec fn views_upto(nodes: Seq<OutlineNode>, k: nat) -> Seq<OutlineTree>
    decreases nodes, k,
{
    if k == 0 {
        Seq::empty()
    } else if k <= nodes.len() {
        views_upto(nodes, (k - 1) as nat).push(nodes[k - 1]@)
    } else {
        views_upto(nodes, nodes.len())
    }
}

impl View for OutlineNode {
    type V = OutlineTree;

    open spec fn view(&self) -> OutlineTree
        decreases self,
    {
        OutlineTree {
            level: self.level,
            address: self.stmt_address,
            children: views_upto(self.children@, self.children@.len()),
        }
    }
}

/// The views of the first `k` of `nodes` are `k` trees, one for each node.
proof fn lemma_views_upto(nodes: Seq<OutlineNode>, k: nat)
    requires
        k <= nodes.len(),
    ensures
        views_upto(nodes, k).len() == k,
        forall|i: int| 0 <= i < k ==> #[trigger] views_upto(nodes, k)[i] == nodes[i]@,
    decreases k,
{
    reveal_with_fuel(views_upto, 2);
    if k > 0 {
        lemma_views_upto(nodes, (k - 1) as nat);
    }
}

impl Clone for OutlineNode {
    fn clone(&self) -> (copy: Self)
        ensures
            copy@ == self@,
        decreases self,
    {
        let mut children: Vec<OutlineNode> = Vec::new();
        let mut i: usize = 0;
        while i < self.children.len()
            invariant
                i <= self.children@.len(),
                children@.len() == i,
                forall|k: int| 0 <= k < i ==> (#[trigger] children@[k])@ == self.children@[k]@,
            decreases self.children@.len() - i,
        {
            children.push(self.children[i].clone());
            i += 1;
        }
        let copy = OutlineNode { level: self.level, stmt_address: self.stmt_address, children };
        proof {
            self.lemma_view();
            copy.lemma_view();
            assert(copy@.children =~= self@.children);
        }
        copy
    }
}

impl Default for OutlineNode {
    fn default() -> (node: Self)
        ensures
            node@ == OutlineTree::leaf(
                (HeadingLevel::Database, StatementAddress { segment_id: SegmentId(0), index: 0 }),
            ),
    {
        let node = OutlineNode {
            level: HeadingLevel::Database,
            stmt_address: StatementAddress::new(SegmentId(0), 0),
            children: Vec::new(),
        };
        assert(node@.children =~= Seq::empty());
        node
    }
}

/// The headings of one segment as the outline records them, in source order.
pub open spec fn segment_entries(id: SegmentId, segment: Segment) -> Seq<Entry> {
    Seq::new(
        segment.outline@.len(),
        |k: int|
            (
                segment.outline@[k].level,
                StatementAddress { segment_id: id, index: segment.outline@[k].index },
            ),
    )
}

/// The headings of the first `n` of the segments `segments`, which bear the
/// identifiers `ids`, in source order.
pub open spec fn entries_upto(ids: Seq<SegmentId>, segments: Seq<Segment>, n: int) -> Seq<Entry>
    decreases n,
{
    if n <= 0 {
        Seq::empty()
    } else {
        entries_upto(ids, segments, n - 1) + segment_entries(ids[n - 1], segments[n - 1])
    }
}

/// The root of the outline of a database whose first segment is `first`.
pub open spec fn root_tree(first: SegmentId) -> OutlineTree {
    OutlineTree::leaf((HeadingLevel::Database, StatementAddress { segment_id: first, index: 0 }))
}

impl OutlineNode {
    /// Build the root node for a database
    pub fn root_node(segments: &Vec<SegmentRef>) -> (node: Self)
        requires
            segments@.len() > 0,
        ensures
            node@ == root_tree(segments@[0].id),
    {
        let node = OutlineNode {
            level: HeadingLevel::Database,
            stmt_address: StatementAddress::new(segments[0].id, 0),
            children: Vec::new(),
        };
        assert(node@.children =~= Seq::empty());
        node
    }

    /// The view of a node is made of the views of its children.
    pub proof fn lemma_view(&self)
        ensures
            self@.level == self.level,
            self@.address == self.stmt_address,
            self@.children.len() == self.children@.len(),
            forall|i: int|
                0 <= i < self.children@.len() ==> #[trigger] self@.children[i]
                    == self.children@[i]@,
    {
        lemma_views_upto(self.children@, self.children@.len());
    }

    /// Build an outline node, with a generic statement address, from a
    /// heading, which is specific to a segment.
    pub fn from_heading_def(heading: &HeadingDef, segment_id: SegmentId) -> (node: Self)
        ensures
            node@ == OutlineTree::leaf(
                (heading.level, StatementAddress { segment_id, index: heading.index }),
            ),
    {
        let node = OutlineNode {
            level: heading.level,
            stmt_address: StatementAddress::new(segment_id, heading.index),
            children: Vec::new(),
        };
        assert(node@.children =~= Seq::empty());
        node
    }

    /// Add a child to this node, or to the correct sub-node: below the last
    /// child where that child is deeper than the new node, and else behind
    /// it.
    pub fn add_child(&mut self, child: OutlineNode)
        ensures
            final(self)@ == old(self)@.with_child(child@),
            final(self)@.preorder() == old(self)@.preorder() + child@.preorder(),
        decreases *old(self),
    {
        let ghost before = self@;
        proof {
            self.lemma_view();
        }
        let n = self.children.len();
        if n > 0 && self.children[n - 1].level.number() > child.level.number() {
            proof {
                self.children@[n - 1].lemma_view();
            }
            let mut last = self.children.pop().unwrap();
            last.add_child(child);
            self.children.push(last);
            proof {
                self.lemma_view();
                assert(self@.children =~= before.children.drop_last().push(
                    before.children.last().with_child(child@),
                ));
            }
        } else {
            self.children.push(child);
            proof {
                self.lemma_view();
                assert(self@.children =~= before.children.push(child@));
            }
        }
        proof {
            lemma_with_child_preorder(before, child@);
        }
    }
}

/// Builds the overall outline from the different segments: the root, and
/// under it every heading of every segment, added in source order.  The
/// pre-order of the outline is therefore the root followed by the headings as
/// they stand in the sources.
pub fn build_outline(node: &mut OutlineNode, sset: &Arc<SegmentSet>)
    requires
        sset.ids().len() > 0,
    ensures
        final(node)@ == root_tree(sset.ids()[0]).with_entries(
            entries_upto(sset.ids(), sset.contents(), sset.ids().len() as int),
        ),
        final(node)@.preorder() == seq![root_tree(sset.ids()[0]).entry()] + entries_upto(
            sset.ids(),
            sset.contents(),
            sset.ids().len() as int,
        ),
{
    let segments = sset.segments();
    *node = OutlineNode::root_node(&segments);
    let ghost root = root_tree(sset.ids()[0]);
    let mut n: usize = 0;
    while n < segments.len()
        invariant
            n <= segments@.len(),
            segments@.len() == sset.ids().len(),
            segments@.len() == sset.contents().len(),
            forall|i: int|
                0 <= i < segments@.len() ==> (#[trigger] segments@[i]).id == sset.ids()[i]
                    && *segments@[i].segment == sset.contents()[i],
            node@ == root.with_entries(entries_upto(sset.ids(), sset.contents(), n as int)),
        decreases segments@.len() - n,
    {
        let id = segments[n].id;
        let segment = segments[n].segment;
        let ghost before = entries_upto(sset.ids(), sset.contents(), n as int);
        let ghost here = segment_entries(id, *segment);
        assert(before + here.subrange(0, 0) =~= before);
        let mut k: usize = 0;
        while k < segment.outline.len()
            invariant
                k <= segment.outline@.len(),
                here == segment_entries(id, *segment),
                node@ == root.with_entries(before + here.subrange(0, k as int)),
            decreases segment.outline@.len() - k,
        {
            let ghost so_far = before + here.subrange(0, k as int);
            let child = OutlineNode::from_heading_def(&segment.outline[k], id);
            node.add_child(child);
            k += 1;
            proof {
                let now = before + here.subrange(0, k as int);
                assert(now.drop_last() =~= so_far);
                assert(now.last() == here[k - 1]);
            }
        }
        proof {
            assert(here.subrange(0, segment.outline@.len() as int) =~= here);
        }
        n += 1;
    }
    proof {
        lemma_with_entries_preorder(
            root,
            entries_upto(sset.ids(), sset.contents(), sset.ids().len() as int),
        );
        assert(root.preorder() =~= seq![root.entry()]);
    }
}

} // verus!
