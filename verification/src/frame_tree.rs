//! The frame tree: nested documents composed into one page.
//!
//! A node names the pipeline that renders one document, a back-reference to
//! the pipeline of its parent document (`None` for a root), and the child
//! frames in document order.  Trees are plain values here: the coordinator
//! never aliases two tree nodes, and what the running system shares through
//! pipeline handles, the model reads from the registry instead.

use vstd::prelude::*;
use crate::pipeline::{Pipeline, PipelineView, reg_has, reg_get, reg_wf, find_pipeline};

verus! {

/// One node of the frame tree.
pub struct FrameTree {
    /// The pipeline that renders this node's document.
    pub pipeline_id: u64,
    /// Pipeline of the parent document; `None` for a root node.
    pub parent: Option<u64>,
    /// Child frames, in document order.
    pub children: Vec<FrameTree>,
}

/// Mathematical image of a [`FrameTree`].
pub struct FrameNode {
    pub pipeline: u64,
    pub parent: Option<u64>,
    pub children: Seq<FrameNode>,
}

impl FrameTree {
    /// The node's image, computed structurally.
    pub open spec fn view_rec(self) -> FrameNode
        decreases self,
    {
        FrameNode {
            pipeline: self.pipeline_id,
            parent: self.parent,
            children: forest_view(self.children@),
        }
    }
}

/// Images of a sequence of trees.
pub open spec fn forest_view(f: Seq<FrameTree>) -> Seq<FrameNode>
    decreases f,
{
    if f.len() == 0 {
        Seq::empty()
    } else {
        seq![f[0].view_rec()] + forest_view(f.drop_first())
    }
}

impl View for FrameTree {
    type V = FrameNode;

    open spec fn view(&self) -> FrameNode {
        self.view_rec()
    }
}

/// `forest_view` maps the sequence pointwise.
pub proof fn lemma_forest_view(f: Seq<FrameTree>)
    ensures
        forest_view(f).len() == f.len(),
        forall|i: int| 0 <= i < f.len() ==> forest_view(f)[i] == f[i]@,
    decreases f,
{
    if f.len() > 0 {
        lemma_forest_view(f.drop_first());
        assert forall|i: int| 0 <= i < f.len() implies forest_view(f)[i] == f[i]@ by {
            if i > 0 {
                assert(forest_view(f)[i] == forest_view(f.drop_first())[i - 1]);
                assert(f.drop_first()[i - 1] == f[i]);
            }
        }
    }
}

impl FrameNode {
    /// Every pipeline id in the tree, in depth-first pre-order.
    pub open spec fn ids(self) -> Seq<u64>
        decreases self,
    {
        seq![self.pipeline] + forest_ids(self.children)
    }

    /// Whether `id` names a pipeline anywhere in the tree.
    pub open spec fn contains_id(self, id: u64) -> bool {
        self.ids().contains(id)
    }
}

/// Pipeline ids of a forest, trees in order, each in pre-order.
pub open spec fn forest_ids(f: Seq<FrameNode>) -> Seq<u64>
    decreases f,
{
    if f.len() == 0 {
        Seq::empty()
    } else {
        f[0].ids() + forest_ids(f.drop_first())
    }
}

/// `id` is among a forest's ids exactly when some tree of the forest holds it.
pub proof fn lemma_forest_ids_contains(f: Seq<FrameNode>, id: u64)
    ensures
        forest_ids(f).contains(id) <==> exists|k: int|
            0 <= k < f.len() && #[trigger] f[k].contains_id(id),
    decreases f,
{
    if f.len() > 0 {
        lemma_forest_ids_contains(f.drop_first(), id);
        lemma_seq_concat_contains(f[0].ids(), forest_ids(f.drop_first()), id);
        if f[0].contains_id(id) {
            assert(forest_ids(f).contains(id));
        }
        if forest_ids(f).contains(id) && !f[0].contains_id(id) {
            let k = choose|k: int|
                0 <= k < f.drop_first().len() && #[trigger] f.drop_first()[k].contains_id(id);
            assert(f[k + 1].contains_id(id));
        }
        if exists|k: int| 0 <= k < f.len() && #[trigger] f[k].contains_id(id) {
            let k = choose|k: int| 0 <= k < f.len() && #[trigger] f[k].contains_id(id);
            if k > 0 {
                assert(f.drop_first()[k - 1].contains_id(id));
            }
        }
    }
}

/// Membership in a concatenation is membership in either part.
pub proof fn lemma_seq_concat_contains<T>(a: Seq<T>, b: Seq<T>, x: T)
    ensures
        (a + b).contains(x) <==> a.contains(x) || b.contains(x),
{
    if a.contains(x) {
        let i = choose|i: int| 0 <= i < a.len() && a[i] == x;
        assert((a + b)[i] == x);
    }
    if b.contains(x) {
        let i = choose|i: int| 0 <= i < b.len() && b[i] == x;
        assert((a + b)[a.len() + i] == x);
    }
    if (a + b).contains(x) {
        let i = choose|i: int| 0 <= i < (a + b).len() && (a + b)[i] == x;
        if i < a.len() {
            assert(a[i] == x);
        } else {
            assert(b[i - a.len()] == x);
        }
    }
}

impl FrameNode {
    /// Parent back-references are consistent: every child of a node names
    /// that node's pipeline as its parent, recursively.
    pub open spec fn links_ok(self) -> bool
        decreases self,
    {
        forest_links_ok(self.children, self.pipeline)
    }

    /// A well-formed tree: no pipeline appears twice, and every node's
    /// `parent` matches its tree parent's pipeline.
    pub open spec fn wf(self) -> bool {
        self.ids().no_duplicates() && self.links_ok()
    }

    /// The first node in pre-order whose pipeline is `id`, if any.
    pub open spec fn find(self, id: u64) -> Option<FrameNode>
        decreases self,
    {
        if self.pipeline == id {
            Some(self)
        } else {
            forest_find(self.children, id)
        }
    }

    /// The tree with every strict descendant whose pipeline is `id` replaced
    /// by `new`, which inherits the displaced node's parent back-reference.
    /// In a well-formed tree at most one node matches.
    pub open spec fn replace(self, id: u64, new: FrameNode) -> FrameNode
        decreases self,
    {
        FrameNode {
            pipeline: self.pipeline,
            parent: self.parent,
            children: forest_replace(self.children, id, new),
        }
    }

    /// The tree with `child` appended to the children of every node whose
    /// pipeline is `source`; the appended node's parent back-reference is set
    /// to `source`.  In a well-formed tree at most one node matches.
    pub open spec fn attach(self, source: u64, child: FrameNode) -> FrameNode
        decreases self,
    {
        let mapped = forest_attach(self.children, source, child);
        FrameNode {
            pipeline: self.pipeline,
            parent: self.parent,
            children: if self.pipeline == source {
                mapped.push(FrameNode { pipeline: child.pipeline, parent: Some(source), children: child.children })
            } else {
                mapped
            },
        }
    }
}

/// Every tree of the forest has consistent parent links under `parent`.
pub open spec fn forest_links_ok(f: Seq<FrameNode>, parent: u64) -> bool
    decreases f,
{
    if f.len() == 0 {
        true
    } else {
        f[0].parent == Some(parent) && f[0].links_ok() && forest_links_ok(f.drop_first(), parent)
    }
}

/// First pre-order match across a forest.
pub open spec fn forest_find(f: Seq<FrameNode>, id: u64) -> Option<FrameNode>
    decreases f,
{
    if f.len() == 0 {
        None
    } else {
        match f[0].find(id) {
            Some(n) => Some(n),
            None => forest_find(f.drop_first(), id),
        }
    }
}

/// `replace` applied across a forest: a tree whose root matches is replaced
/// whole (keeping its parent back-reference), any other tree recursively.
pub open spec fn forest_replace(f: Seq<FrameNode>, id: u64, new: FrameNode) -> Seq<FrameNode>
    decreases f,
{
    if f.len() == 0 {
        Seq::empty()
    } else {
        let head = if f[0].pipeline == id {
            FrameNode { pipeline: new.pipeline, parent: f[0].parent, children: new.children }
        } else {
            f[0].replace(id, new)
        };
        seq![head] + forest_replace(f.drop_first(), id, new)
    }
}

/// `attach` applied to every tree of a forest.
pub open spec fn forest_attach(f: Seq<FrameNode>, source: u64, child: FrameNode) -> Seq<FrameNode>
    decreases f,
{
    if f.len() == 0 {
        Seq::empty()
    } else {
        seq![f[0].attach(source, child)] + forest_attach(f.drop_first(), source, child)
    }
}

/// `forest_replace` maps the forest pointwise.
pub proof fn lemma_forest_replace(f: Seq<FrameNode>, id: u64, new: FrameNode)
    ensures
        forest_replace(f, id, new).len() == f.len(),
        forall|i: int| 0 <= i < f.len() ==> forest_replace(f, id, new)[i] == (if f[i].pipeline == id {
            FrameNode { pipeline: new.pipeline, parent: f[i].parent, children: new.children }
        } else {
            f[i].replace(id, new)
        }),
    decreases f,
{
    if f.len() > 0 {
        lemma_forest_replace(f.drop_first(), id, new);
        assert forall|i: int| 0 <= i < f.len() implies forest_replace(f, id, new)[i] == (if f[i].pipeline == id {
            FrameNode { pipeline: new.pipeline, parent: f[i].parent, children: new.children }
        } else {
            f[i].replace(id, new)
        }) by {
            if i > 0 {
                assert(forest_replace(f, id, new)[i] == forest_replace(f.drop_first(), id, new)[i - 1]);
                assert(f.drop_first()[i - 1] == f[i]);
            }
        }
    }
}

/// `forest_attach` maps the forest pointwise.
pub proof fn lemma_forest_attach(f: Seq<FrameNode>, source: u64, child: FrameNode)
    ensures
        forest_attach(f, source, child).len() == f.len(),
        forall|i: int| 0 <= i < f.len() ==> forest_attach(f, source, child)[i] == f[i].attach(
            source,
            child,
        ),
    decreases f,
{
    if f.len() > 0 {
        lemma_forest_attach(f.drop_first(), source, child);
        assert forall|i: int| 0 <= i < f.len() implies forest_attach(f, source, child)[i] == f[i].attach(
            source,
            child,
        ) by {
            if i > 0 {
                assert(forest_attach(f, source, child)[i] == forest_attach(f.drop_first(), source, child)[i - 1]);
                assert(f.drop_first()[i - 1] == f[i]);
            }
        }
    }
}

/// Ids of a concatenation of forests, in order.
pub proof fn lemma_forest_ids_concat(a: Seq<FrameNode>, b: Seq<FrameNode>)
    ensures
        forest_ids(a + b) == forest_ids(a) + forest_ids(b),
    decreases a,
{
    if a.len() == 0 {
        assert(a + b =~= b);
        assert(forest_ids(a) + forest_ids(b) =~= forest_ids(b));
    } else {
        lemma_forest_ids_concat(a.drop_first(), b);
        assert((a + b).drop_first() =~= a.drop_first() + b);
        assert((a + b)[0] == a[0]);
        assert(forest_ids(a + b) == a[0].ids() + (forest_ids(a.drop_first()) + forest_ids(b)));
        assert(a[0].ids() + (forest_ids(a.drop_first()) + forest_ids(b)) =~= (a[0].ids()
            + forest_ids(a.drop_first())) + forest_ids(b));
    }
}

/// If the first `i` trees of a forest hold no match, the forest's first match
/// is the first match of the rest.
pub proof fn lemma_forest_find_skip(f: Seq<FrameNode>, id: u64, i: int)
    requires
        0 <= i <= f.len(),
        forall|k: int| 0 <= k < i ==> (#[trigger] f[k].find(id)) is None,
    ensures
        forest_find(f, id) == forest_find(f.skip(i), id),
    decreases i,
{
    if i > 0 {
        lemma_forest_find_skip(f, id, i - 1);
        assert(f.skip(i - 1).len() > 0);
        assert(f.skip(i - 1)[0] == f[i - 1]);
        assert(f[i - 1].find(id) is None);
        assert(f.skip(i - 1).drop_first() =~= f.skip(i));
        assert(forest_find(f.skip(i - 1), id) == forest_find(f.skip(i - 1).drop_first(), id));
    } else {
        assert(f.skip(0) =~= f);
    }
}

impl FrameTree {
    /// Whether `id` names a pipeline anywhere in this tree.
    pub fn contains(&self, id: u64) -> (r: bool)
        ensures
            r == self@.contains_id(id),
        decreases *self,
    {
        proof {
            lemma_forest_view(self.children@);
            lemma_forest_ids_contains(self@.children, id);
            lemma_seq_concat_contains(seq![self@.pipeline], forest_ids(self@.children), id);
        }
        if self.pipeline_id == id {
            proof {
                assert(seq![self@.pipeline].contains(id)) by {
                    assert(seq![self@.pipeline][0] == id);
                }
            }
            return true;
        }
        let mut i: usize = 0;
        while i < self.children.len()
            invariant
                i <= self.children.len(),
                forall|k: int| 0 <= k < i ==> !(#[trigger] self@.children[k]).contains_id(id),
                forest_view(self.children@).len() == self.children@.len(),
                forall|k: int|
                    0 <= k < self.children@.len() ==> forest_view(self.children@)[k] == self.children@[k]@,
            decreases self.children.len() - i,
        {
            if self.children[i].contains(id) {
                proof {
                    assert(self@.children[i as int].contains_id(id));
                    lemma_forest_ids_contains(self@.children, id);
                    lemma_seq_concat_contains(seq![self@.pipeline], forest_ids(self@.children), id);
                }
                return true;
            }
            i = i + 1;
        }
        false
    }

    /// A fresh tree equal to this one.  Nodes are duplicated; the pipelines
    /// they name are shared through the registry.
    pub fn clone_tree(&self) -> (r: FrameTree)
        ensures
            r@ == self@,
        decreases *self,
    {
        let mut children: Vec<FrameTree> = Vec::new();
        let mut i: usize = 0;
        while i < self.children.len()
            invariant
                i <= self.children.len(),
                children@.len() == i,
                forall|k: int| 0 <= k < i ==> (#[trigger] children@[k])@ == self.children@[k]@,
            decreases self.children.len() - i,
        {
            children.push(self.children[i].clone_tree());
            i = i + 1;
        }
        let r = FrameTree { pipeline_id: self.pipeline_id, parent: self.parent, children };
        proof {
            lemma_forest_view(r.children@);
            lemma_forest_view(self.children@);
            assert(forest_view(r.children@) =~= forest_view(self.children@));
        }
        r
    }

    /// The first node in pre-order whose pipeline is `id`, as a fresh tree.
    pub fn find(&self, id: u64) -> (r: Option<FrameTree>)
        ensures
            match r {
                Some(t) => self@.find(id) == Some(t@),
                None => self@.find(id) is None,
            },
        decreases *self,
    {
        proof {
            lemma_forest_view(self.children@);
        }
        if self.pipeline_id == id {
            return Some(self.clone_tree());
        }
        let ghost f = self@.children;
        let mut i: usize = 0;
        while i < self.children.len()
            invariant
                i <= self.children.len(),
                self.pipeline_id != id,
                f == self@.children,
                f.len() == self.children@.len(),
                forall|k: int| 0 <= k < f.len() ==> f[k] == self.children@[k]@,
                forall|k: int| 0 <= k < i ==> (#[trigger] f[k].find(id)) is None,
            decreases self.children.len() - i,
        {
            let found = self.children[i].find(id);
            match found {
                Some(t) => {
                    proof {
                        lemma_forest_find_skip(f, id, i as int);
                        assert(f.skip(i as int)[0] == f[i as int]);
                        assert(f.skip(i as int).len() > 0);
                    }
                    return Some(t);
                },
                None => {},
            }
            i = i + 1;
        }
        proof {
            lemma_forest_find_skip(f, id, f.len() as int);
            assert(f.skip(f.len() as int).len() == 0);
        }
        None
    }

    /// The tree with the node whose pipeline is `id` replaced by a fresh copy
    /// of `new_child`, which inherits the displaced node's parent
    /// back-reference.  Only strict descendants are considered; a tree
    /// without a match is returned unchanged.
    pub fn replace_child(&self, id: u64, new_child: &FrameTree) -> (r: FrameTree)
        ensures
            r@ == self@.replace(id, new_child@),
        decreases *self,
    {
        let mut children: Vec<FrameTree> = Vec::new();
        let mut i: usize = 0;
        while i < self.children.len()
            invariant
                i <= self.children.len(),
                children@.len() == i,
                forall|k: int| 0 <= k < i ==> (#[trigger] children@[k])@ == (if self.children@[k]@.pipeline == id {
                    FrameNode {
                        pipeline: new_child@.pipeline,
                        parent: self.children@[k]@.parent,
                        children: new_child@.children,
                    }
                } else {
                    self.children@[k]@.replace(id, new_child@)
                }),
            decreases self.children.len() - i,
        {
            if self.children[i].pipeline_id == id {
                let mut replacement = new_child.clone_tree();
                replacement.parent = self.children[i].parent;
                children.push(replacement);
            } else {
                children.push(self.children[i].replace_child(id, new_child));
            }
            i = i + 1;
        }
        let r = FrameTree { pipeline_id: self.pipeline_id, parent: self.parent, children };
        proof {
            lemma_forest_view(r.children@);
            lemma_forest_view(self.children@);
            lemma_forest_replace(self@.children, id, new_child@);
            assert(forest_view(r.children@) =~= forest_replace(self@.children, id, new_child@));
        }
        r
    }

    /// The tree with a fresh copy of `child` appended to the children of
    /// every node whose pipeline is `source`; the copy's parent
    /// back-reference is set to `source`.
    pub fn attach_child(&self, source: u64, child: &FrameTree) -> (r: FrameTree)
        ensures
            r@ == self@.attach(source, child@),
        decreases *self,
    {
        let mut children: Vec<FrameTree> = Vec::new();
        let mut i: usize = 0;
        while i < self.children.len()
            invariant
                i <= self.children.len(),
                children@.len() == i,
                forall|k: int| 0 <= k < i ==> (#[trigger] children@[k])@ == self.children@[k]@.attach(
                    source,
                    child@,
                ),
            decreases self.children.len() - i,
        {
            children.push(self.children[i].attach_child(source, child));
            i = i + 1;
        }
        if self.pipeline_id == source {
            let mut appended = child.clone_tree();
            appended.parent = Some(source);
            children.push(appended);
        }
        let r = FrameTree { pipeline_id: self.pipeline_id, parent: self.parent, children };
        proof {
            lemma_forest_view(r.children@);
            lemma_forest_view(self.children@);
            lemma_forest_attach(self@.children, source, child@);
            if self.pipeline_id == source {
                assert(r.children@.len() == self.children@.len() + 1);
                assert(forest_view(r.children@) =~= forest_attach(self@.children, source, child@).push(
                    FrameNode { pipeline: child@.pipeline, parent: Some(source), children: child@.children },
                ));
            } else {
                assert(forest_view(r.children@) =~= forest_attach(self@.children, source, child@));
            }
        }
        r
    }

    /// A deep, detached snapshot of this tree under the registry `reg`,
    /// suitable for transmission to the compositor.
    pub fn to_sendable(&self, reg: &Vec<Pipeline>) -> (r: SendableFrameTree)
        requires
            reg_wf(reg@),
            forall|id: u64| self@.contains_id(id) ==> reg_has(reg@, id),
        ensures
            r@ == sendable_of(self@, reg@),
        decreases *self,
    {
        proof {
            assert(self@.ids()[0] == self.pipeline_id);
            assert(self@.contains_id(self.pipeline_id));
            lemma_forest_view(self.children@);
        }
        let rec = find_pipeline(reg, self.pipeline_id);
        let pipeline = rec.unwrap().clone_pipeline();
        let mut children: Vec<SendableFrameTree> = Vec::new();
        let mut i: usize = 0;
        while i < self.children.len()
            invariant
                i <= self.children.len(),
                children@.len() == i,
                reg_wf(reg@),
                forall|id: u64| self@.contains_id(id) ==> reg_has(reg@, id),
                forall|k: int| 0 <= k < self.children@.len() ==> forest_view(self.children@)[k]
                    == self.children@[k]@,
                forest_view(self.children@).len() == self.children@.len(),
                forall|k: int| 0 <= k < i ==> (#[trigger] children@[k])@ == sendable_of(
                    self@.children[k],
                    reg@,
                ),
            decreases self.children.len() - i,
        {
            proof {
                assert forall|id: u64| self.children@[i as int]@.contains_id(id) implies reg_has(
                    reg@,
                    id,
                ) by {
                    lemma_forest_ids_contains(self@.children, id);
                    lemma_seq_concat_contains(seq![self@.pipeline], forest_ids(self@.children), id);
                    assert(self@.children[i as int].contains_id(id));
                    assert(self@.contains_id(id));
                }
            }
            children.push(self.children[i].to_sendable(reg));
            i = i + 1;
        }
        let r = SendableFrameTree { pipeline, children };
        proof {
            lemma_sendable_forest_view(r.children@);
            lemma_sendable_forest_of(self@.children, reg@);
            assert(sendable_forest_view(r.children@) =~= sendable_forest_of(self@.children, reg@));
        }
        r
    }

    /// Every pipeline id in the tree, in depth-first pre-order.
    pub fn all_ids(&self) -> (r: Vec<u64>)
        ensures
            r@ == self@.ids(),
        decreases *self,
    {
        let mut r: Vec<u64> = Vec::new();
        r.push(self.pipeline_id);
        let mut i: usize = 0;
        while i < self.children.len()
            invariant
                i <= self.children.len(),
                r@ == seq![self.pipeline_id] + forest_ids(forest_view(self.children@.subrange(0, i as int))),
            decreases self.children.len() - i,
        {
            proof {
                lemma_forest_view(self.children@);
                lemma_forest_view(self.children@.subrange(0, i as int));
                lemma_forest_view(self.children@.subrange(0, i + 1 as int));
            }
            let mut child_ids = self.children[i].all_ids();
            r.append(&mut child_ids);
            proof {
                let prefix = forest_view(self.children@.subrange(0, i as int));
                let next = forest_view(self.children@.subrange(0, i + 1 as int));
                assert(next =~= prefix + seq![self.children@[i as int]@]);
                lemma_forest_ids_concat(prefix, seq![self.children@[i as int]@]);
                assert(forest_ids(seq![self.children@[i as int]@]) == self.children@[i as int]@.ids()
                    + forest_ids(Seq::<FrameNode>::empty())) by {
                    assert(seq![self.children@[i as int]@].drop_first() =~= Seq::<FrameNode>::empty());
                }
                assert(forest_ids(Seq::<FrameNode>::empty()) =~= Seq::<u64>::empty());
                assert(forest_ids(seq![self.children@[i as int]@]) =~= self.children@[i as int]@.ids());
                assert(r@ =~= seq![self.pipeline_id] + forest_ids(next));
            }
            i = i + 1;
        }
        proof {
            assert(self.children@.subrange(0, self.children@.len() as int) =~= self.children@);
            lemma_forest_view(self.children@);
        }
        r
    }
}

/// A deep, detached snapshot of a frame tree: each node carries a copy of
/// its pipeline's record rather than a reference into the registry.
pub struct SendableFrameTree {
    pub pipeline: Pipeline,
    pub children: Vec<SendableFrameTree>,
}

/// Mathematical image of a [`SendableFrameTree`].
pub struct SendableNode {
    pub pipeline: PipelineView,
    pub children: Seq<SendableNode>,
}

impl SendableFrameTree {
    /// The snapshot's image, computed structurally.
    pub open spec fn view_rec(self) -> SendableNode
        decreases self,
    {
        SendableNode {
            pipeline: self.pipeline@,
            children: sendable_forest_view(self.children@),
        }
    }
}

/// Images of a sequence of snapshots.
pub open spec fn sendable_forest_view(f: Seq<SendableFrameTree>) -> Seq<SendableNode>
    decreases f,
{
    if f.len() == 0 {
        Seq::empty()
    } else {
        seq![f[0].view_rec()] + sendable_forest_view(f.drop_first())
    }
}

impl View for SendableFrameTree {
    type V = SendableNode;

    open spec fn view(&self) -> SendableNode {
        self.view_rec()
    }
}

/// `sendable_forest_view` maps the sequence pointwise.
pub proof fn lemma_sendable_forest_view(f: Seq<SendableFrameTree>)
    ensures
        sendable_forest_view(f).len() == f.len(),
        forall|i: int| 0 <= i < f.len() ==> sendable_forest_view(f)[i] == f[i]@,
    decreases f,
{
    if f.len() > 0 {
        lemma_sendable_forest_view(f.drop_first());
        assert forall|i: int| 0 <= i < f.len() implies sendable_forest_view(f)[i] == f[i]@ by {
            if i > 0 {
                assert(sendable_forest_view(f)[i] == sendable_forest_view(f.drop_first())[i - 1]);
                assert(f.drop_first()[i - 1] == f[i]);
            }
        }
    }
}

impl SendableNode {
    /// Whether `id` names a pipeline anywhere in the snapshot.
    pub open spec fn contains_id(self, id: u64) -> bool
        decreases self,
    {
        self.pipeline.id == id || sendable_forest_contains(self.children, id)
    }
}

/// Whether some snapshot of the forest holds `id`.
pub open spec fn sendable_forest_contains(f: Seq<SendableNode>, id: u64) -> bool
    decreases f,
{
    if f.len() == 0 {
        false
    } else {
        f[0].contains_id(id) || sendable_forest_contains(f.drop_first(), id)
    }
}

/// The snapshot that `to_sendable` takes of `t` under registry `reg`;
/// meaningful when every id of `t` is registered and `reg` is well formed.
pub open spec fn sendable_of(t: FrameNode, reg: Seq<Pipeline>) -> SendableNode
    decreases t,
{
    SendableNode {
        pipeline: reg_get(reg, t.pipeline)@,
        children: sendable_forest_of(t.children, reg),
    }
}

/// `sendable_of` applied to every tree of a forest.
pub open spec fn sendable_forest_of(f: Seq<FrameNode>, reg: Seq<Pipeline>) -> Seq<SendableNode>
    decreases f,
{
    if f.len() == 0 {
        Seq::empty()
    } else {
        seq![sendable_of(f[0], reg)] + sendable_forest_of(f.drop_first(), reg)
    }
}

/// `sendable_forest_of` maps the forest pointwise.
pub proof fn lemma_sendable_forest_of(f: Seq<FrameNode>, reg: Seq<Pipeline>)
    ensures
        sendable_forest_of(f, reg).len() == f.len(),
        forall|i: int| 0 <= i < f.len() ==> sendable_forest_of(f, reg)[i] == sendable_of(f[i], reg),
    decreases f,
{
    if f.len() > 0 {
        lemma_sendable_forest_of(f.drop_first(), reg);
        assert forall|i: int| 0 <= i < f.len() implies sendable_forest_of(f, reg)[i] == sendable_of(
            f[i],
            reg,
        ) by {
            if i > 0 {
                assert(sendable_forest_of(f, reg)[i] == sendable_forest_of(f.drop_first(), reg)[i - 1]);
                assert(f.drop_first()[i - 1] == f[i]);
            }
        }
    }
}

impl SendableFrameTree {
    /// Whether `id` names a pipeline anywhere in this snapshot.
    pub fn contains(&self, id: u64) -> (r: bool)
        ensures
            r == self@.contains_id(id),
        decreases *self,
    {
        proof {
            lemma_sendable_forest_view(self.children@);
        }
        if self.pipeline.id == id {
            return true;
        }
        let ghost f = self@.children;
        let mut i: usize = 0;
        while i < self.children.len()
            invariant
                i <= self.children.len(),
                self.pipeline.id != id,
                f == self@.children,
                f.len() == self.children@.len(),
                forall|k: int| 0 <= k < f.len() ==> f[k] == self.children@[k]@,
                forall|k: int| 0 <= k < i ==> !(#[trigger] f[k]).contains_id(id),
            decreases self.children.len() - i,
        {
            if self.children[i].contains(id) {
                proof {
                    lemma_sendable_forest_contains_skip(f, id, i as int);
                }
                return true;
            }
            i = i + 1;
        }
        proof {
            lemma_sendable_forest_contains_skip(f, id, f.len() as int);
        }
        false
    }
}

/// The ids of a one-tree forest.
pub proof fn lemma_forest_ids_singleton(n: FrameNode)
    ensures
        forest_ids(seq![n]) == n.ids(),
{
    assert(seq![n].drop_first() =~= Seq::<FrameNode>::empty());
    assert(forest_ids(seq![n].drop_first()) =~= Seq::<u64>::empty());
    assert(forest_ids(seq![n]) =~= n.ids() + Seq::<u64>::empty());
    assert(n.ids() + Seq::<u64>::empty() =~= n.ids());
}

/// After a replacement, every id comes from the old tree or from the
/// replacement.
pub proof fn lemma_replace_ids(t: FrameNode, id: u64, new: FrameNode, x: u64)
    requires
        t.replace(id, new).contains_id(x),
    ensures
        t.contains_id(x) || new.contains_id(x),
    decreases t,
{
    let r = t.replace(id, new);
    lemma_seq_concat_contains(seq![r.pipeline], forest_ids(r.children), x);
    lemma_seq_concat_contains(seq![t.pipeline], forest_ids(t.children), x);
    if seq![r.pipeline].contains(x) {
        assert(seq![t.pipeline][0] == t.pipeline);
        assert(seq![t.pipeline].contains(x));
    } else {
        lemma_forest_replace_ids(t.children, id, new, x);
    }
}

/// Forest version of [`lemma_replace_ids`].
pub proof fn lemma_forest_replace_ids(f: Seq<FrameNode>, id: u64, new: FrameNode, x: u64)
    requires
        forest_ids(forest_replace(f, id, new)).contains(x),
    ensures
        forest_ids(f).contains(x) || new.contains_id(x),
    decreases f,
{
    if f.len() > 0 {
        let r = forest_replace(f, id, new);
        let head = if f[0].pipeline == id {
            FrameNode { pipeline: new.pipeline, parent: f[0].parent, children: new.children }
        } else {
            f[0].replace(id, new)
        };
        assert(r == seq![head] + forest_replace(f.drop_first(), id, new));
        assert(r[0] == head);
        assert(r.drop_first() =~= forest_replace(f.drop_first(), id, new));
        assert(forest_ids(r) == head.ids() + forest_ids(forest_replace(f.drop_first(), id, new)));
        lemma_seq_concat_contains(head.ids(), forest_ids(forest_replace(f.drop_first(), id, new)), x);
        lemma_seq_concat_contains(f[0].ids(), forest_ids(f.drop_first()), x);
        if head.ids().contains(x) {
            if f[0].pipeline == id {
                assert(head.ids() =~= new.ids());
            } else {
                lemma_replace_ids(f[0], id, new, x);
            }
        } else {
            lemma_forest_replace_ids(f.drop_first(), id, new, x);
        }
    }
}

/// After an attachment, every id comes from the old tree or from the child.
pub proof fn lemma_attach_ids(t: FrameNode, s: u64, c: FrameNode, x: u64)
    requires
        t.attach(s, c).contains_id(x),
    ensures
        t.contains_id(x) || c.contains_id(x),
    decreases t,
{
    let r = t.attach(s, c);
    let cn = FrameNode { pipeline: c.pipeline, parent: Some(s), children: c.children };
    lemma_seq_concat_contains(seq![r.pipeline], forest_ids(r.children), x);
    lemma_seq_concat_contains(seq![t.pipeline], forest_ids(t.children), x);
    if seq![r.pipeline].contains(x) {
        assert(seq![t.pipeline][0] == t.pipeline);
        assert(seq![t.pipeline].contains(x));
    } else {
        let mapped = forest_attach(t.children, s, c);
        if t.pipeline == s {
            assert(mapped.push(cn) =~= mapped + seq![cn]);
            lemma_forest_ids_concat(mapped, seq![cn]);
            lemma_forest_ids_singleton(cn);
            lemma_seq_concat_contains(forest_ids(mapped), cn.ids(), x);
            if cn.ids().contains(x) {
                assert(cn.ids() =~= c.ids());
            } else {
                lemma_forest_attach_ids(t.children, s, c, x);
            }
        } else {
            lemma_forest_attach_ids(t.children, s, c, x);
        }
    }
}

/// Forest version of [`lemma_attach_ids`].
pub proof fn lemma_forest_attach_ids(f: Seq<FrameNode>, s: u64, c: FrameNode, x: u64)
    requires
        forest_ids(forest_attach(f, s, c)).contains(x),
    ensures
        forest_ids(f).contains(x) || c.contains_id(x),
    decreases f,
{
    if f.len() > 0 {
        let r = forest_attach(f, s, c);
        assert(r == seq![f[0].attach(s, c)] + forest_attach(f.drop_first(), s, c));
        assert(r[0] == f[0].attach(s, c));
        assert(r.drop_first() =~= forest_attach(f.drop_first(), s, c));
        assert(forest_ids(r) == f[0].attach(s, c).ids() + forest_ids(forest_attach(f.drop_first(), s, c)));
        lemma_seq_concat_contains(
            f[0].attach(s, c).ids(),
            forest_ids(forest_attach(f.drop_first(), s, c)),
            x,
        );
        lemma_seq_concat_contains(f[0].ids(), forest_ids(f.drop_first()), x);
        if f[0].attach(s, c).ids().contains(x) {
            lemma_attach_ids(f[0], s, c, x);
        } else {
            lemma_forest_attach_ids(f.drop_first(), s, c, x);
        }
    }
}

/// If the first `i` snapshots hold no match, the forest holds a match exactly
/// when the rest does.
pub proof fn lemma_sendable_forest_contains_skip(f: Seq<SendableNode>, id: u64, i: int)
    requires
        0 <= i <= f.len(),
        forall|k: int| 0 <= k < i ==> !(#[trigger] f[k]).contains_id(id),
    ensures
        sendable_forest_contains(f, id) == sendable_forest_contains(f.skip(i), id),
    decreases i,
{
    if i > 0 {
        lemma_sendable_forest_contains_skip(f, id, i - 1);
        assert(f.skip(i - 1).len() > 0);
        assert(f.skip(i - 1)[0] == f[i - 1]);
        assert(!f[i - 1].contains_id(id));
        assert(f.skip(i - 1).drop_first() =~= f.skip(i));
        assert(sendable_forest_contains(f.skip(i - 1), id) == sendable_forest_contains(
            f.skip(i - 1).drop_first(),
            id,
        ));
    } else {
        assert(f.skip(0) =~= f);
    }
}


/// Attaching a child with consistent links keeps a tree's parent
/// back-references consistent: every mapped node keeps its pipeline and
/// parent, and the appended copy points at the node it joins.
pub proof fn lemma_attach_preserves_links(t: FrameNode, s: u64, c: FrameNode)
    requires
        t.links_ok(),
        c.links_ok(),
    ensures
        t.attach(s, c).links_ok(),
    decreases t,
{
    let cn = FrameNode { pipeline: c.pipeline, parent: Some(s), children: c.children };
    lemma_forest_attach_preserves_links(t.children, t.pipeline, s, c);
    let mapped = forest_attach(t.children, s, c);
    if t.pipeline == s {
        assert(cn.links_ok());
        lemma_forest_links_push(mapped, t.pipeline, cn);
    }
}

/// Forest version of [`lemma_attach_preserves_links`].
pub proof fn lemma_forest_attach_preserves_links(f: Seq<FrameNode>, parent: u64, s: u64, c: FrameNode)
    requires
        forest_links_ok(f, parent),
        c.links_ok(),
    ensures
        forest_links_ok(forest_attach(f, s, c), parent),
    decreases f,
{
    if f.len() > 0 {
        lemma_attach_preserves_links(f[0], s, c);
        lemma_forest_attach_preserves_links(f.drop_first(), parent, s, c);
        let r = forest_attach(f, s, c);
        assert(r[0] == f[0].attach(s, c));
        assert(r.drop_first() =~= forest_attach(f.drop_first(), s, c));
        assert(r[0].parent == f[0].parent);
    }
}

/// Appending one more consistent tree keeps a forest's links consistent.
pub proof fn lemma_forest_links_push(f: Seq<FrameNode>, parent: u64, n: FrameNode)
    requires
        forest_links_ok(f, parent),
        n.parent == Some(parent),
        n.links_ok(),
    ensures
        forest_links_ok(f.push(n), parent),
    decreases f,
{
    if f.len() == 0 {
        assert(f.push(n)[0] == n);
        assert(f.push(n).drop_first() =~= Seq::<FrameNode>::empty());
        assert(forest_links_ok(f.push(n).drop_first(), parent));
    } else {
        lemma_forest_links_push(f.drop_first(), parent, n);
        assert(f.push(n)[0] == f[0]);
        assert(f.push(n).drop_first() =~= f.drop_first().push(n));
    }
}


/// Attaching under a pipeline the tree does not hold changes nothing.
pub proof fn lemma_attach_noop(t: FrameNode, s: u64, c: FrameNode)
    requires
        !t.contains_id(s),
    ensures
        t.attach(s, c) == t,
    decreases t,
{
    lemma_seq_concat_contains(seq![t.pipeline], forest_ids(t.children), s);
    assert(seq![t.pipeline][0] == t.pipeline);
    assert(t.pipeline != s);
    lemma_forest_attach_noop(t.children, s, c);
    assert(t.attach(s, c) =~~= t);
}

/// Forest version of [`lemma_attach_noop`].
pub proof fn lemma_forest_attach_noop(f: Seq<FrameNode>, s: u64, c: FrameNode)
    requires
        !forest_ids(f).contains(s),
    ensures
        forest_attach(f, s, c) == f,
    decreases f,
{
    if f.len() > 0 {
        lemma_seq_concat_contains(f[0].ids(), forest_ids(f.drop_first()), s);
        lemma_attach_noop(f[0], s, c);
        lemma_forest_attach_noop(f.drop_first(), s, c);
        assert(forest_attach(f, s, c) =~~= f);
    } else {
        assert(forest_attach(f, s, c) =~~= f);
    }
}

/// A concatenation has no duplicates exactly when neither part has one and
/// the parts share no element.
pub proof fn lemma_no_dup_concat<T>(a: Seq<T>, b: Seq<T>)
    ensures
        (a + b).no_duplicates() <==> (a.no_duplicates() && b.no_duplicates() && forall|x: T|
            !(a.contains(x) && #[trigger] b.contains(x))),
{
    if (a + b).no_duplicates() {
        assert forall|x: T| !(a.contains(x) && #[trigger] b.contains(x)) by {
            if a.contains(x) && b.contains(x) {
                let i = choose|i: int| 0 <= i < a.len() && a[i] == x;
                let j = choose|j: int| 0 <= j < b.len() && b[j] == x;
                assert((a + b)[i] == (a + b)[a.len() + j]);
                assert(false);
            }
        }
        assert(a.no_duplicates()) by {
            assert forall|i: int, j: int| 0 <= i < a.len() && 0 <= j < a.len() && i != j implies a[i]
                != a[j] by {
                assert((a + b)[i] != (a + b)[j]);
            }
        }
        assert(b.no_duplicates()) by {
            assert forall|i: int, j: int| 0 <= i < b.len() && 0 <= j < b.len() && i != j implies b[i]
                != b[j] by {
                assert((a + b)[a.len() + i] != (a + b)[a.len() + j]);
            }
        }
    }
    if a.no_duplicates() && b.no_duplicates() && (forall|x: T|
        !(a.contains(x) && #[trigger] b.contains(x))) {
        assert forall|i: int, j: int|
            0 <= i < (a + b).len() && 0 <= j < (a + b).len() && i != j implies (a + b)[i] != (a
            + b)[j] by {
            if i < a.len() && j < a.len() {
                assert(a[i] != a[j]);
            } else if i >= a.len() && j >= a.len() {
                assert(b[i - a.len()] != b[j - a.len()]);
            } else if i < a.len() && j >= a.len() {
                if a[i] == b[j - a.len()] {
                    assert(a.contains(a[i]));
                    assert(b.contains(a[i]));
                }
            } else {
                if b[i - a.len()] == a[j] {
                    assert(a.contains(a[j]));
                    assert(b.contains(a[j]));
                }
            }
        }
    }
}

/// The ids present after attaching a single-node child: the old ids, plus
/// the child's exactly where the tree holds the source.
pub proof fn lemma_attach_ids_iff(t: FrameNode, s: u64, c: FrameNode, x: u64)
    requires
        c.children.len() == 0,
    ensures
        t.attach(s, c).contains_id(x) <==> (t.contains_id(x) || (x == c.pipeline
            && t.contains_id(s))),
    decreases t,
{
    let cn = FrameNode { pipeline: c.pipeline, parent: Some(s), children: c.children };
    let r = t.attach(s, c);
    let mapped = forest_attach(t.children, s, c);
    lemma_seq_concat_contains(seq![r.pipeline], forest_ids(r.children), x);
    lemma_seq_concat_contains(seq![t.pipeline], forest_ids(t.children), x);
    lemma_seq_concat_contains(seq![t.pipeline], forest_ids(t.children), s);
    lemma_forest_attach_ids_iff(t.children, s, c, x);
    assert(seq![t.pipeline].contains(t.pipeline)) by {
        assert(seq![t.pipeline][0] == t.pipeline);
    }
    assert(forall|y: u64| seq![t.pipeline].contains(y) ==> y == t.pipeline);
    if t.pipeline == s {
        assert(mapped.push(cn) =~= mapped + seq![cn]);
        lemma_forest_ids_concat(mapped, seq![cn]);
        lemma_forest_ids_singleton(cn);
        lemma_seq_concat_contains(forest_ids(mapped), cn.ids(), x);
        assert(forest_ids(cn.children) =~= Seq::<u64>::empty());
        assert(cn.ids() =~= seq![c.pipeline]);
        assert(forall|y: u64| cn.ids().contains(y) ==> y == c.pipeline);
        assert(cn.ids()[0] == c.pipeline);
        assert(t.contains_id(s));
    }
}

/// Forest version of [`lemma_attach_ids_iff`].
pub proof fn lemma_forest_attach_ids_iff(f: Seq<FrameNode>, s: u64, c: FrameNode, x: u64)
    requires
        c.children.len() == 0,
    ensures
        forest_ids(forest_attach(f, s, c)).contains(x) <==> (forest_ids(f).contains(x) || (x
            == c.pipeline && forest_ids(f).contains(s))),
    decreases f,
{
    if f.len() > 0 {
        let r = forest_attach(f, s, c);
        assert(r[0] == f[0].attach(s, c));
        assert(r.drop_first() =~= forest_attach(f.drop_first(), s, c));
        assert(forest_ids(r) == f[0].attach(s, c).ids() + forest_ids(
            forest_attach(f.drop_first(), s, c),
        ));
        lemma_seq_concat_contains(
            f[0].attach(s, c).ids(),
            forest_ids(forest_attach(f.drop_first(), s, c)),
            x,
        );
        lemma_seq_concat_contains(f[0].ids(), forest_ids(f.drop_first()), x);
        lemma_seq_concat_contains(f[0].ids(), forest_ids(f.drop_first()), s);
        lemma_attach_ids_iff(f[0], s, c, x);
        lemma_forest_attach_ids_iff(f.drop_first(), s, c, x);
    }
}

/// Law: attaching a fresh single-node child keeps a tree free of duplicate
/// pipelines: at most one node holds the source in a duplicate-free tree, so
/// the child joins at most once, under an id the tree does not hold.
pub proof fn lemma_attach_preserves_no_dup(t: FrameNode, s: u64, c: FrameNode)
    requires
        c.children.len() == 0,
        t.ids().no_duplicates(),
        !t.contains_id(c.pipeline),
    ensures
        t.attach(s, c).ids().no_duplicates(),
    decreases t,
{
    let cn = FrameNode { pipeline: c.pipeline, parent: Some(s), children: c.children };
    let r = t.attach(s, c);
    let mapped = forest_attach(t.children, s, c);
    lemma_no_dup_concat(seq![t.pipeline], forest_ids(t.children));
    lemma_no_dup_concat(seq![r.pipeline], forest_ids(r.children));
    lemma_seq_concat_contains(seq![t.pipeline], forest_ids(t.children), c.pipeline);
    assert(seq![t.pipeline][0] == t.pipeline);
    lemma_forest_attach_preserves_no_dup(t.children, s, c);
    lemma_forest_attach_ids_iff(t.children, s, c, t.pipeline);
    if t.pipeline == s {
        assert(!forest_ids(t.children).contains(s));
        lemma_forest_attach_noop(t.children, s, c);
        assert(mapped == t.children);
        assert(mapped.push(cn) =~= mapped + seq![cn]);
        lemma_forest_ids_concat(mapped, seq![cn]);
        lemma_forest_ids_singleton(cn);
        assert(forest_ids(cn.children) =~= Seq::<u64>::empty());
        assert(cn.ids() =~= seq![c.pipeline]);
        lemma_no_dup_concat(forest_ids(mapped), cn.ids());
        assert forall|x: u64| !(forest_ids(mapped).contains(x) && #[trigger] cn.ids().contains(x)) by {
            if cn.ids().contains(x) {
                let i = choose|i: int| 0 <= i < cn.ids().len() && cn.ids()[i] == x;
                assert(x == c.pipeline);
                lemma_seq_concat_contains(seq![t.pipeline], forest_ids(t.children), c.pipeline);
            }
        }
        assert(forest_ids(r.children).no_duplicates());
        assert forall|x: u64| !(seq![r.pipeline].contains(x) && #[trigger] forest_ids(
            r.children,
        ).contains(x)) by {
            if seq![r.pipeline].contains(x) {
                let i = choose|i: int| 0 <= i < 1 && seq![r.pipeline][i] == x;
                assert(x == t.pipeline);
                lemma_seq_concat_contains(forest_ids(mapped), cn.ids(), x);
                if cn.ids().contains(x) {
                    let j = choose|j: int| 0 <= j < cn.ids().len() && cn.ids()[j] == x;
                    assert(x == c.pipeline);
                }
            }
        }
    } else {
        lemma_forest_attach_ids_iff(t.children, s, c, t.pipeline);
        assert forall|x: u64| !(seq![r.pipeline].contains(x) && #[trigger] forest_ids(
            r.children,
        ).contains(x)) by {
            if seq![r.pipeline].contains(x) {
                let i = choose|i: int| 0 <= i < 1 && seq![r.pipeline][i] == x;
                assert(x == t.pipeline);
                lemma_forest_attach_ids_iff(t.children, s, c, x);
                if x == c.pipeline {
                    lemma_seq_concat_contains(seq![t.pipeline], forest_ids(t.children), c.pipeline);
                }
            }
        }
    }
}

/// Forest version of [`lemma_attach_preserves_no_dup`].
pub proof fn lemma_forest_attach_preserves_no_dup(f: Seq<FrameNode>, s: u64, c: FrameNode)
    requires
        c.children.len() == 0,
        forest_ids(f).no_duplicates(),
        !forest_ids(f).contains(c.pipeline),
    ensures
        forest_ids(forest_attach(f, s, c)).no_duplicates(),
    decreases f,
{
    if f.len() > 0 {
        let r = forest_attach(f, s, c);
        assert(r[0] == f[0].attach(s, c));
        assert(r.drop_first() =~= forest_attach(f.drop_first(), s, c));
        assert(forest_ids(r) == f[0].attach(s, c).ids() + forest_ids(
            forest_attach(f.drop_first(), s, c),
        ));
        lemma_no_dup_concat(f[0].ids(), forest_ids(f.drop_first()));
        lemma_no_dup_concat(
            f[0].attach(s, c).ids(),
            forest_ids(forest_attach(f.drop_first(), s, c)),
        );
        lemma_seq_concat_contains(f[0].ids(), forest_ids(f.drop_first()), c.pipeline);
        lemma_attach_preserves_no_dup(f[0], s, c);
        lemma_forest_attach_preserves_no_dup(f.drop_first(), s, c);
        assert forall|x: u64| !(f[0].attach(s, c).ids().contains(x) && #[trigger] forest_ids(
            forest_attach(f.drop_first(), s, c),
        ).contains(x)) by {
            lemma_attach_ids_iff(f[0], s, c, x);
            lemma_forest_attach_ids_iff(f.drop_first(), s, c, x);
            lemma_seq_concat_contains(f[0].ids(), forest_ids(f.drop_first()), s);
            lemma_seq_concat_contains(f[0].ids(), forest_ids(f.drop_first()), x);
        }
    }
}


/// Law: attaching a fresh single-node child anywhere in a well-formed tree
/// leaves a well-formed tree — no pipeline appears twice, and every node's
/// parent back-reference still matches its tree parent's pipeline.
pub proof fn lemma_attach_preserves_wf(t: FrameNode, s: u64, c: FrameNode)
    requires
        c.children.len() == 0,
        t.wf(),
        !t.contains_id(c.pipeline),
    ensures
        t.attach(s, c).wf(),
{
    assert(c.links_ok()) by {
        assert(forest_links_ok(c.children, c.pipeline));
    }
    lemma_attach_preserves_no_dup(t, s, c);
    lemma_attach_preserves_links(t, s, c);
}

} // verus!
