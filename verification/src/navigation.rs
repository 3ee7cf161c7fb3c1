//! Session history: the current frame tree with its back and forward stacks.

use vstd::prelude::*;
use crate::frame_tree::{FrameTree, FrameNode, forest_view, lemma_forest_view};

verus! {

/// The back stack, the current page, and the forward stack.
///
/// `previous` holds the oldest entry at the bottom; `next` holds the
/// most-recent-forward entry at the top.  The three parts always reference
/// distinct trees: `back`, `forward` and `load` move trees between them and
/// never duplicate one.
pub struct NavigationContext {
    /// Back stack, oldest at the bottom.
    pub previous: Vec<FrameTree>,
    /// The page currently granted to the compositor, once one exists.
    pub current: Option<FrameTree>,
    /// Forward stack, most recent at the top.
    pub next: Vec<FrameTree>,
}

/// Whether some tree of the forest holds `id`.
pub open spec fn forest_contains(f: Seq<FrameTree>, id: u64) -> bool {
    exists|i: int| 0 <= i < f.len() && (#[trigger] f[i])@.contains_id(id)
}

/// The subtrees rooted at `id`, one per tree of the forest that holds it,
/// in forest order.
pub open spec fn forest_found(f: Seq<FrameTree>, id: u64) -> Seq<FrameNode>
    decreases f,
{
    if f.len() == 0 {
        Seq::empty()
    } else {
        (match f[0]@.find(id) {
            Some(n) => seq![n],
            None => Seq::empty(),
        }) + forest_found(f.drop_first(), id)
    }
}

/// `forest_found` over one more tree at the end.
pub proof fn lemma_forest_found_snoc(f: Seq<FrameTree>, id: u64)
    requires
        f.len() > 0,
    ensures
        forest_found(f, id) == forest_found(f.drop_last(), id) + (match f.last()@.find(id) {
            Some(n) => seq![n],
            None => Seq::<FrameNode>::empty(),
        }),
    decreases f,
{
    let head = match f[0]@.find(id) {
        Some(n) => seq![n],
        None => Seq::<FrameNode>::empty(),
    };
    let tail_found = match f.last()@.find(id) {
        Some(n) => seq![n],
        None => Seq::<FrameNode>::empty(),
    };
    if f.len() == 1 {
        assert(f.drop_first().len() == 0);
        assert(f.drop_last().len() == 0);
        assert(f.last() == f[0]);
        assert(forest_found(f.drop_first(), id) =~= Seq::<FrameNode>::empty());
        assert(forest_found(f.drop_last(), id) =~= Seq::<FrameNode>::empty());
        assert(forest_found(f, id) == head + forest_found(f.drop_first(), id));
        assert(forest_found(f, id) =~= forest_found(f.drop_last(), id) + tail_found);
    } else {
        lemma_forest_found_snoc(f.drop_first(), id);
        assert(f.drop_first().last() == f.last());
        assert(f.drop_first().drop_last() =~= f.drop_last().drop_first());
        assert(f.drop_last()[0] == f[0]);
        assert(f.drop_last().len() > 0);
        assert(forest_found(f.drop_last(), id) == head + forest_found(f.drop_last().drop_first(), id));
        assert(forest_found(f, id) == head + (forest_found(f.drop_last().drop_first(), id)
            + tail_found));
        assert(head + (forest_found(f.drop_last().drop_first(), id) + tail_found) =~= (head
            + forest_found(f.drop_last().drop_first(), id)) + tail_found);
    }
}

impl NavigationContext {
    /// Whether `id` names a pipeline in the back stack, the current page or
    /// the forward stack.
    pub open spec fn contains_spec(self, id: u64) -> bool {
        ||| forest_contains(self.previous@, id)
        ||| (self.current is Some && self.current.unwrap()@.contains_id(id))
        ||| forest_contains(self.next@, id)
    }

    /// The subtrees rooted at `id` across the back stack, the current page
    /// and the forward stack, in that order.
    pub open spec fn found_spec(self, id: u64) -> Seq<FrameNode> {
        forest_found(self.previous@, id) + (match self.current {
            Some(c) => match c@.find(id) {
                Some(n) => seq![n],
                None => Seq::<FrameNode>::empty(),
            },
            None => Seq::<FrameNode>::empty(),
        }) + forest_found(self.next@, id)
    }

    /// An empty history: no current page, both stacks empty.
    pub fn new() -> (r: NavigationContext)
        ensures
            r.previous@.len() == 0,
            r.current is None,
            r.next@.len() == 0,
    {
        NavigationContext { previous: Vec::new(), current: None, next: Vec::new() }
    }

    /// Step back in history: the current page moves to the forward stack and
    /// the top of the back stack becomes current.  Returns a fresh copy of
    /// the new current tree.
    pub fn back(&mut self) -> (r: FrameTree)
        requires
            old(self).previous@.len() > 0,
            old(self).current is Some,
        ensures
            final(self).next@ == old(self).next@.push(old(self).current.unwrap()),
            final(self).previous@ == old(self).previous@.drop_last(),
            final(self).current == Some(old(self).previous@.last()),
            r@ == old(self).previous@.last()@,
    {
        let cur = self.current.take().unwrap();
        self.next.push(cur);
        let dest = self.previous.pop().unwrap();
        let r = dest.clone_tree();
        self.current = Some(dest);
        r
    }

    /// Step forward in history: the current page moves to the back stack and
    /// the top of the forward stack becomes current.  Returns a fresh copy of
    /// the new current tree.
    pub fn forward(&mut self) -> (r: FrameTree)
        requires
            old(self).next@.len() > 0,
            old(self).current is Some,
        ensures
            final(self).previous@ == old(self).previous@.push(old(self).current.unwrap()),
            final(self).next@ == old(self).next@.drop_last(),
            final(self).current == Some(old(self).next@.last()),
            r@ == old(self).next@.last()@,
    {
        let cur = self.current.take().unwrap();
        self.previous.push(cur);
        let dest = self.next.pop().unwrap();
        let r = dest.clone_tree();
        self.current = Some(dest);
        r
    }

    /// Commit a new page: the current page (if any) moves to the back stack,
    /// the forward stack is cleared, and its trees are returned as the
    /// evicted entries.
    pub fn load(&mut self, frame_tree: FrameTree) -> (evicted: Vec<FrameTree>)
        ensures
            evicted@ == old(self).next@,
            final(self).next@.len() == 0,
            final(self).current == Some(frame_tree),
            final(self).previous@ == (if old(self).current is Some {
                old(self).previous@.push(old(self).current.unwrap())
            } else {
                old(self).previous@
            }),
    {
        let mut evicted: Vec<FrameTree> = Vec::new();
        core::mem::swap(&mut evicted, &mut self.next);
        match self.current.take() {
            Some(c) => self.previous.push(c),
            None => {},
        }
        self.current = Some(frame_tree);
        evicted
    }

    /// Whether `id` names a pipeline anywhere in the history.
    pub fn contains(&self, pipeline_id: u64) -> (r: bool)
        ensures
            r == self.contains_spec(pipeline_id),
    {
        let mut i: usize = 0;
        while i < self.previous.len()
            invariant
                i <= self.previous.len(),
                forall|k: int| 0 <= k < i ==> !(#[trigger] self.previous@[k])@.contains_id(
                    pipeline_id,
                ),
            decreases self.previous.len() - i,
        {
            if self.previous[i].contains(pipeline_id) {
                return true;
            }
            i = i + 1;
        }
        match &self.current {
            Some(c) => {
                if c.contains(pipeline_id) {
                    return true;
                }
            },
            None => {},
        }
        let mut j: usize = 0;
        while j < self.next.len()
            invariant
                j <= self.next.len(),
                !self.contains_spec(pipeline_id) || forest_contains(self.next@, pipeline_id),
                forall|k: int| 0 <= k < j ==> !(#[trigger] self.next@[k])@.contains_id(pipeline_id),
            decreases self.next.len() - j,
        {
            if self.next[j].contains(pipeline_id) {
                return true;
            }
            j = j + 1;
        }
        false
    }

    /// Fresh copies of the subtrees rooted at `pipeline_id`, one per place in
    /// the history that holds it: back stack, then current, then forward.
    pub fn find_all(&self, pipeline_id: u64) -> (r: Vec<FrameTree>)
        ensures
            forest_view(r@) == self.found_spec(pipeline_id),
    {
        let mut r: Vec<FrameTree> = Vec::new();
        let mut i: usize = 0;
        while i < self.previous.len()
            invariant
                i <= self.previous.len(),
                forest_view(r@) == forest_found(self.previous@.subrange(0, i as int), pipeline_id),
            decreases self.previous.len() - i,
        {
            proof {
                lemma_forest_found_snoc(self.previous@.subrange(0, i + 1 as int), pipeline_id);
                assert(self.previous@.subrange(0, i + 1 as int).drop_last() =~= self.previous@.subrange(
                    0,
                    i as int,
                ));
                assert(self.previous@.subrange(0, i + 1 as int).last() == self.previous@[i as int]);
            }
            push_found(&mut r, &self.previous[i], pipeline_id);
            i = i + 1;
        }
        proof {
            assert(self.previous@.subrange(0, self.previous@.len() as int) =~= self.previous@);
        }
        match &self.current {
            Some(c) => {
                let ghost before = forest_view(r@);
                push_found(&mut r, c, pipeline_id);
            },
            None => {},
        }
        let ghost mid = forest_view(r@);
        let mut j: usize = 0;
        while j < self.next.len()
            invariant
                j <= self.next.len(),
                forest_view(r@) == mid + forest_found(self.next@.subrange(0, j as int), pipeline_id),
                mid == forest_found(self.previous@, pipeline_id) + (match self.current {
                    Some(c) => match c@.find(pipeline_id) {
                        Some(n) => seq![n],
                        None => Seq::<FrameNode>::empty(),
                    },
                    None => Seq::<FrameNode>::empty(),
                }),
            decreases self.next.len() - j,
        {
            proof {
                lemma_forest_found_snoc(self.next@.subrange(0, j + 1 as int), pipeline_id);
                assert(self.next@.subrange(0, j + 1 as int).drop_last() =~= self.next@.subrange(
                    0,
                    j as int,
                ));
                assert(self.next@.subrange(0, j + 1 as int).last() == self.next@[j as int]);
            }
            push_found(&mut r, &self.next[j], pipeline_id);
            proof {
                assert(forest_view(r@) =~= mid + forest_found(
                    self.next@.subrange(0, j + 1 as int),
                    pipeline_id,
                ));
            }
            j = j + 1;
        }
        proof {
            assert(self.next@.subrange(0, self.next@.len() as int) =~= self.next@);
            assert(forest_view(r@) =~= self.found_spec(pipeline_id));
        }
        r
    }
}

/// Append to `r` a fresh copy of the subtree of `t` rooted at `id`, if there
/// is one.
fn push_found(r: &mut Vec<FrameTree>, t: &FrameTree, id: u64) -> (found: bool)
    ensures
        forest_view(final(r)@) == forest_view(old(r)@) + (match t@.find(id) {
            Some(n) => seq![n],
            None => Seq::<FrameNode>::empty(),
        }),
        found == (t@.find(id) is Some),
{
    proof {
        lemma_forest_view(r@);
    }
    match t.find(id) {
        Some(sub) => {
            r.push(sub);
            proof {
                lemma_forest_view(r@);
                assert(forest_view(r@) =~= forest_view(old(r)@) + seq![t@.find(id).unwrap()]);
            }
            true
        },
        None => {
            proof {
                assert(forest_view(r@) =~= forest_view(old(r)@) + Seq::<FrameNode>::empty());
            }
            false
        },
    }
}

} // verus!
