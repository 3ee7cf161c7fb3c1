//! The coordinator's event-loop state machine.
//!
//! The constellation owns the pipeline registry, the navigation context and
//! the queue of pending frame changes.  Each inbox message is handled to
//! completion by one call of [`Constellation::handle_request`], which mutates
//! that state and returns the messages to send outward — pipeline lifecycle
//! commands, paint-permission grants and revocations, and frame-tree
//! snapshots for the compositor — as a list of [`Action`] values, in the
//! order they must be performed.

use vstd::prelude::*;
use crate::url::{Url, is_script_path, same_origin_spec};
use crate::pipeline::{
    Pipeline, PipelineView, NavigationType, reg_has, reg_get, reg_wf, lemma_reg_get, find_pipeline,
};
use crate::frame_tree::{
    FrameTree, FrameNode, SendableFrameTree, forest_view, forest_ids, forest_links_ok,
    lemma_forest_view, lemma_forest_ids_concat, sendable_of,
};
use crate::navigation::NavigationContext;

verus! {

/// A window size in device pixels.
#[derive(Clone, Copy, PartialEq, Eq, Structural, Debug)]
pub struct WindowSize {
    pub width: u64,
    pub height: u64,
}

/// Which way a history traversal goes.
#[derive(Clone, Copy, PartialEq, Eq, Structural, Debug)]
pub enum NavigationDirection {
    Forward,
    Back,
}

/// One inbox message.  Window sizes arrive with the message: querying the
/// compositor for them is the driver's job.
pub enum Msg {
    /// Shut everything down and stop the loop.
    ExitMsg,
    /// One-shot bootstrap: load `url` as the first root document.
    InitLoadUrlMsg(Url, WindowSize),
    /// Navigate the frame holding the source pipeline to `url`.
    LoadUrlMsg(u64, Url, WindowSize),
    /// The source pipeline's document parsed an `<iframe>` for `url`.
    LoadIframeUrlMsg(Url, u64, u64, WindowSize),
    /// Step through history.
    NavigateMsg(NavigationDirection),
    /// A pipeline's renderer asks for permission to paint.
    RendererReadyMsg(u64),
    /// The window was resized; tell the inactive pipelines.
    ResizedWindowBroadcast(WindowSize),
}

/// One outward message, to be performed by the driver in list order.
pub enum Action {
    /// Spawn the worker trio for a new pipeline.  `script_worker` names the
    /// script task to attach to: the pipeline's own id for a fresh one, an
    /// existing pipeline's worker for a same-origin iframe.
    CreatePipeline { id: u64, subpage_id: Option<u64>, script_worker: u64, size: WindowSize },
    /// Tell the pipeline to load `url`.
    LoadPipeline { id: u64, url: Url, navigation_type: Option<NavigationType> },
    /// Tell the pipeline to reload its URL with the given navigation type.
    ReloadPipeline { id: u64, navigation_type: NavigationType },
    /// Hand a script-only URL to the pipeline's script worker.
    ExecutePipeline { id: u64, url: Url },
    /// Send the compositor the new frame tree and await its acknowledgment.
    SetIds { snapshot: SendableFrameTree },
    /// Let the pipeline push frames to the compositor.
    GrantPaintPermission { id: u64 },
    /// Stop the pipeline from pushing frames.
    RevokePaintPermission { id: u64 },
    /// Background size update for a pipeline not in the current tree.
    ResizeInactive { id: u64, size: WindowSize },
    /// Orderly shutdown of one pipeline's worker trio.
    ExitPipeline { id: u64 },
    /// Shut down the image cache.
    ExitImageCache,
    /// Shut down the resource task.
    ExitResourceTask,
}

/// A navigation awaiting its new pipeline's renderer-ready signal.
pub struct FrameChange {
    /// Pipeline whose subtree the change replaces; `None` for the one-shot
    /// root bootstrap.
    pub before: Option<u64>,
    /// The tree that becomes visible when the new pipeline is ready.
    pub after: FrameTree,
}

/// The coordinator's state.
pub struct Constellation {
    /// Every live pipeline, keyed by id.
    pub pipelines: Vec<Pipeline>,
    /// Session history: back stack, current page, forward stack.
    pub navigation_context: NavigationContext,
    /// The next pipeline id to allocate.
    pub next_pipeline_id: u64,
    /// In-flight navigations awaiting renderer-ready.
    pub pending_frames: Vec<FrameChange>,
}

/// All pipeline ids of a forest of trees, trees in order, each pre-order.
pub open spec fn forest_tree_ids(f: Seq<FrameTree>) -> Seq<u64> {
    forest_ids(forest_view(f))
}

/// The suffix of `post` past the end of `pre`, which `post` must extend.
pub open spec fn seq_extends<T>(post: Seq<T>, pre: Seq<T>) -> bool {
    post.len() >= pre.len() && post.subrange(0, pre.len() as int) == pre
}

/// Whether the actions from position `lo` on hold an exit for pipeline `x`.
pub open spec fn has_exit_action(a: Seq<Action>, lo: int, x: u64) -> bool {
    exists|j: int| lo <= j < a.len() && a[j] == (Action::ExitPipeline { id: x })
}

/// The action list that publishes tree `t`: one `SetIds` snapshot taken under
/// registry `reg`, then one paint-permission grant per node, in pre-order.
pub open spec fn is_grant_seq(a: Seq<Action>, t: FrameNode, reg: Seq<Pipeline>) -> bool {
    &&& a.len() == 1 + t.ids().len()
    &&& (a[0] matches Action::SetIds { snapshot } && snapshot@ == sendable_of(t, reg))
    &&& forall|k: int| 0 <= k < t.ids().len() ==> a[k + 1] == (Action::GrantPaintPermission {
        id: t.ids()[k],
    })
}

impl Constellation {
    /// Every id reachable from the navigation context is registered.
    pub open spec fn nav_registered(self) -> bool {
        forall|id: u64| self.navigation_context.contains_spec(id) ==> reg_has(self.pipelines@, id)
    }

    /// Every id reachable from a pending frame change is registered.
    pub open spec fn pending_registered(self) -> bool {
        forall|k: int, id: u64|
            0 <= k < self.pending_frames@.len() && (#[trigger] self.pending_frames@[k].after@.contains_id(
                id,
            )) ==> reg_has(self.pipelines@, id)
    }

    /// A fresh coordinator: nothing registered, empty history, no pending
    /// changes, ids allocated from zero.
    pub fn new() -> (r: Constellation)
        ensures
            r.pipelines@.len() == 0,
            r.navigation_context.previous@.len() == 0,
            r.navigation_context.current is None,
            r.navigation_context.next@.len() == 0,
            r.next_pipeline_id == 0,
            r.pending_frames@.len() == 0,
    {
        Constellation {
            pipelines: Vec::new(),
            navigation_context: NavigationContext::new(),
            next_pipeline_id: 0,
            pending_frames: Vec::new(),
        }
    }

    /// Allocate a fresh pipeline id.  Ids are handed out strictly
    /// increasing: the result is the old counter, and the counter grows.
    fn get_next_pipeline_id(&mut self) -> (id: u64)
        requires
            old(self).next_pipeline_id < u64::MAX,
        ensures
            id == old(self).next_pipeline_id,
            final(self).next_pipeline_id == id + 1,
            final(self).pipelines == old(self).pipelines,
            final(self).navigation_context == old(self).navigation_context,
            final(self).pending_frames == old(self).pending_frames,
    {
        let id = self.next_pipeline_id;
        self.next_pipeline_id = self.next_pipeline_id + 1;
        id
    }

    /// Publish `frame_tree` to the compositor and grant paint permission to
    /// every pipeline in it: appends the `SetIds` snapshot (the driver blocks
    /// for the compositor's acknowledgment before going on) and then one
    /// grant per node.
    fn set_ids(&self, frame_tree: &FrameTree, actions: &mut Vec<Action>)
        requires
            reg_wf(self.pipelines@),
            forall|id: u64| frame_tree@.contains_id(id) ==> reg_has(self.pipelines@, id),
        ensures
            seq_extends(final(actions)@, old(actions)@),
            is_grant_seq(
                final(actions)@.skip(old(actions)@.len() as int),
                frame_tree@,
                self.pipelines@,
            ),
    {
        let snapshot = frame_tree.to_sendable(&self.pipelines);
        actions.push(Action::SetIds { snapshot });
        let ids = frame_tree.all_ids();
        let ghost base = old(actions)@;
        let mut k: usize = 0;
        while k < ids.len()
            invariant
                k <= ids.len(),
                ids@ == frame_tree@.ids(),
                actions@.len() == base.len() + 1 + k,
                actions@.subrange(0, base.len() as int) == base,
                actions@[base.len() as int] matches Action::SetIds { snapshot }
                    && snapshot@ == sendable_of(frame_tree@, self.pipelines@),
                forall|j: int| 0 <= j < k ==> actions@[base.len() + 1 + j]
                    == (Action::GrantPaintPermission { id: ids@[j] }),
            decreases ids.len() - k,
        {
            actions.push(Action::GrantPaintPermission { id: ids[k] });
            proof {
                assert(actions@.subrange(0, base.len() as int) =~= base);
            }
            k = k + 1;
        }
    }

    /// Shut down every registered pipeline, then the image cache, then the
    /// resource task.  The caller acknowledges the requester and stops the
    /// loop; the state is left untouched.
    fn handle_exit(&self) -> (actions: Vec<Action>)
        ensures
            actions@.len() == self.pipelines@.len() + 2,
            forall|k: int| 0 <= k < self.pipelines@.len() ==> actions@[k] == (Action::ExitPipeline {
                id: self.pipelines@[k].id,
            }),
            actions@[self.pipelines@.len() as int] is ExitImageCache,
            actions@[self.pipelines@.len() as int + 1] is ExitResourceTask,
    {
        let mut actions: Vec<Action> = Vec::new();
        let mut k: usize = 0;
        while k < self.pipelines.len()
            invariant
                k <= self.pipelines@.len(),
                actions@.len() == k,
                forall|j: int| 0 <= j < k ==> actions@[j] == (Action::ExitPipeline {
                    id: self.pipelines@[j].id,
                }),
            decreases self.pipelines.len() - k,
        {
            actions.push(Action::ExitPipeline { id: self.pipelines[k].id });
            k = k + 1;
        }
        actions.push(Action::ExitImageCache);
        actions.push(Action::ExitResourceTask);
        actions
    }
}

/// The resize notices owed for the ids of one history stack: one per id not
/// shown by the current tree, in order.
pub open spec fn resize_actions(ids: Seq<u64>, cur: Option<FrameTree>, size: WindowSize) -> Seq<
    Action,
>
    decreases ids,
{
    if ids.len() == 0 {
        Seq::empty()
    } else {
        (if cur is Some && cur.unwrap()@.contains_id(ids[0]) {
            Seq::<Action>::empty()
        } else {
            seq![Action::ResizeInactive { id: ids[0], size }]
        }) + resize_actions(ids.drop_first(), cur, size)
    }
}

/// `resize_actions` over one more id at the end.
pub proof fn lemma_resize_actions_snoc(ids: Seq<u64>, cur: Option<FrameTree>, size: WindowSize)
    requires
        ids.len() > 0,
    ensures
        resize_actions(ids, cur, size) == resize_actions(ids.drop_last(), cur, size) + (if cur
            is Some && cur.unwrap()@.contains_id(ids.last()) {
            Seq::<Action>::empty()
        } else {
            seq![Action::ResizeInactive { id: ids.last(), size }]
        }),
    decreases ids,
{
    let head = if cur is Some && cur.unwrap()@.contains_id(ids[0]) {
        Seq::<Action>::empty()
    } else {
        seq![Action::ResizeInactive { id: ids[0], size }]
    };
    let tail = if cur is Some && cur.unwrap()@.contains_id(ids.last()) {
        Seq::<Action>::empty()
    } else {
        seq![Action::ResizeInactive { id: ids.last(), size }]
    };
    if ids.len() == 1 {
        assert(ids.drop_first().len() == 0);
        assert(ids.drop_last().len() == 0);
        assert(ids.last() == ids[0]);
        assert(resize_actions(ids.drop_first(), cur, size) =~= Seq::<Action>::empty());
        assert(resize_actions(ids.drop_last(), cur, size) =~= Seq::<Action>::empty());
        assert(resize_actions(ids, cur, size) == head + resize_actions(ids.drop_first(), cur, size));
        assert(resize_actions(ids, cur, size) =~= resize_actions(ids.drop_last(), cur, size) + tail);
    } else {
        lemma_resize_actions_snoc(ids.drop_first(), cur, size);
        assert(ids.drop_first().last() == ids.last());
        assert(ids.drop_first().drop_last() =~= ids.drop_last().drop_first());
        assert(ids.drop_last()[0] == ids[0]);
        assert(ids.drop_last().len() > 0);
        assert(resize_actions(ids.drop_last(), cur, size) == head + resize_actions(
            ids.drop_last().drop_first(),
            cur,
            size,
        ));
        assert(resize_actions(ids, cur, size) == head + (resize_actions(
            ids.drop_last().drop_first(),
            cur,
            size,
        ) + tail));
        assert(head + (resize_actions(ids.drop_last().drop_first(), cur, size) + tail) =~= (head
            + resize_actions(ids.drop_last().drop_first(), cur, size)) + tail);
    }
}

/// A pipeline record's image with its navigation type replaced.
pub open spec fn pv_with_nav(v: PipelineView, t: Option<NavigationType>) -> PipelineView {
    PipelineView {
        id: v.id,
        subpage_id: v.subpage_id,
        url: v.url,
        navigation_type: t,
        script_worker: v.script_worker,
    }
}

/// Set the navigation type of the record carrying `id`, if one does; every
/// other record keeps its value.
fn set_navigation_type(reg: &mut Vec<Pipeline>, id: u64, t: NavigationType)
    requires
        reg_wf(old(reg)@),
    ensures
        reg_wf(final(reg)@),
        final(reg)@.len() == old(reg)@.len(),
        forall|x: u64| reg_has(final(reg)@, x) == reg_has(old(reg)@, x),
        forall|x: u64| reg_has(old(reg)@, x) ==> reg_get(final(reg)@, x)@ == (if x == id {
            pv_with_nav(reg_get(old(reg)@, x)@, Some(t))
        } else {
            reg_get(old(reg)@, x)@
        }),
{
    let ghost or = old(reg)@;
    let mut j: usize = 0;
    while j < reg.len()
        invariant
            j <= reg.len(),
            or == old(reg)@,
            reg@ == or,
            reg_wf(or),
            forall|k: int| 0 <= k < j ==> or[k].id != id,
        decreases reg.len() - j,
    {
        if reg[j].id == id {
            let mut p = reg[j].clone_pipeline();
            p.navigation_type = Some(t);
            proof {
                assert(p@ == pv_with_nav(or[j as int]@, Some(t)));
            }
            reg[j] = p;
            proof {
                let fr = reg@;
                assert(fr.len() == or.len());
                assert(forall|i: int| 0 <= i < fr.len() ==> fr[i].id == or[i].id);
                assert forall|x: u64| reg_has(fr, x) == reg_has(or, x) by {
                    if reg_has(fr, x) {
                        let i = choose|i: int| 0 <= i < fr.len() && fr[i].id == x;
                        assert(or[i].id == x);
                    }
                    if reg_has(or, x) {
                        let i = choose|i: int| 0 <= i < or.len() && or[i].id == x;
                        assert(fr[i].id == x);
                    }
                }
                assert forall|x: u64| reg_has(or, x) implies reg_get(fr, x)@ == (if x == id {
                    pv_with_nav(reg_get(or, x)@, Some(t))
                } else {
                    reg_get(or, x)@
                }) by {
                    let i = choose|i: int| 0 <= i < or.len() && or[i].id == x;
                    lemma_reg_get(or, x, i);
                    lemma_reg_get(fr, x, i);
                    if x == id {
                        if i != j {
                            assert(or[i].id != or[j as int].id);
                            assert(false);
                        }
                    } else {
                        assert(i != j);
                    }
                }
            }
            return;
        }
        j = j + 1;
    }
    proof {
        assert forall|x: u64| reg_has(or, x) implies reg_get(reg@, x)@ == (if x == id {
            pv_with_nav(reg_get(or, x)@, Some(t))
        } else {
            reg_get(or, x)@
        }) by {
            if x == id {
                let i = choose|i: int| 0 <= i < or.len() && or[i].id == x;
                assert(false);
            }
        }
    }
}

/// Set the navigation type of every record named by `ids`; every other
/// record keeps its value.
fn set_navigation_types(reg: &mut Vec<Pipeline>, ids: &Vec<u64>, t: NavigationType)
    requires
        reg_wf(old(reg)@),
    ensures
        reg_wf(final(reg)@),
        final(reg)@.len() == old(reg)@.len(),
        forall|x: u64| reg_has(final(reg)@, x) == reg_has(old(reg)@, x),
        forall|x: u64| reg_has(old(reg)@, x) ==> reg_get(final(reg)@, x)@ == (if ids@.contains(x) {
            pv_with_nav(reg_get(old(reg)@, x)@, Some(t))
        } else {
            reg_get(old(reg)@, x)@
        }),
{
    let ghost or = old(reg)@;
    let mut k: usize = 0;
    while k < ids.len()
        invariant
            k <= ids.len(),
            or == old(reg)@,
            reg_wf(reg@),
            reg@.len() == or.len(),
            reg_wf(or),
            forall|x: u64| reg_has(reg@, x) == reg_has(or, x),
            forall|x: u64| reg_has(or, x) ==> reg_get(reg@, x)@ == (if ids@.subrange(
                0,
                k as int,
            ).contains(x) {
                pv_with_nav(reg_get(or, x)@, Some(t))
            } else {
                reg_get(or, x)@
            }),
        decreases ids.len() - k,
    {
        let ghost mid = reg@;
        set_navigation_type(reg, ids[k], t);
        proof {
            let prefix = ids@.subrange(0, k as int);
            let next = ids@.subrange(0, k + 1 as int);
            assert(next =~= prefix.push(ids@[k as int]));
            assert forall|x: u64| reg_has(or, x) implies reg_get(reg@, x)@ == (if next.contains(x) {
                pv_with_nav(reg_get(or, x)@, Some(t))
            } else {
                reg_get(or, x)@
            }) by {
                assert(reg_has(mid, x));
                if x == ids@[k as int] {
                    assert(next[k as int] == x);
                    assert(next.contains(x));
                } else {
                    assert(reg_get(reg@, x)@ == reg_get(mid, x)@);
                    if next.contains(x) {
                        let i = choose|i: int| 0 <= i < next.len() && next[i] == x;
                        assert(prefix[i] == x);
                        assert(prefix.contains(x));
                    } else {
                        if prefix.contains(x) {
                            let i = choose|i: int| 0 <= i < prefix.len() && prefix[i] == x;
                            assert(next[i] == x);
                        }
                    }
                }
            }
        }
        k = k + 1;
    }
    proof {
        assert(ids@.subrange(0, ids@.len() as int) =~= ids@);
    }
}

/// Remove the record carrying `id`; every other record keeps its value.
fn remove_pipeline(reg: &mut Vec<Pipeline>, id: u64)
    requires
        reg_wf(old(reg)@),
        reg_has(old(reg)@, id),
    ensures
        reg_wf(final(reg)@),
        final(reg)@.len() == old(reg)@.len() - 1,
        !reg_has(final(reg)@, id),
        forall|x: u64| x != id ==> reg_has(final(reg)@, x) == reg_has(old(reg)@, x),
        forall|x: u64| x != id && reg_has(old(reg)@, x) ==> reg_get(final(reg)@, x) == reg_get(
            old(reg)@,
            x,
        ),
{
    let ghost or = old(reg)@;
    let mut j: usize = 0;
    while j < reg.len()
        invariant
            j <= reg.len(),
            or == old(reg)@,
            reg@ == or,
            reg_wf(or),
            reg_has(or, id),
            forall|k: int| 0 <= k < j ==> or[k].id != id,
        decreases reg.len() - j,
    {
        if reg[j].id == id {
            reg.remove(j);
            proof {
                let fr = reg@;
                assert(fr.len() == or.len() - 1);
                assert(forall|k: int| 0 <= k < j ==> fr[k] == or[k]);
                assert(forall|k: int| j <= k < fr.len() ==> fr[k] == or[k + 1]);
                assert forall|i1: int, i2: int| 0 <= i1 < i2 < fr.len() implies fr[i1].id
                    != fr[i2].id by {
                    let o1: int = if i1 < j { i1 } else { i1 + 1 };
                    let o2: int = if i2 < j { i2 } else { i2 + 1 };
                    assert(or[o1].id != or[o2].id);
                }
                assert forall|k: int| 0 <= k < fr.len() implies fr[k].id != id by {
                    let o: int = if k < j { k } else { k + 1 };
                    if o != j {
                        assert(or[o].id != or[j as int].id);
                    }
                }
                assert forall|x: u64| x != id implies reg_has(fr, x) == reg_has(or, x) by {
                    if reg_has(fr, x) {
                        let i = choose|i: int| 0 <= i < fr.len() && fr[i].id == x;
                        let o: int = if i < j { i } else { i + 1 };
                        assert(or[o].id == x);
                    }
                    if reg_has(or, x) {
                        let i = choose|i: int| 0 <= i < or.len() && or[i].id == x;
                        assert(i != j);
                        let n: int = if i < j { i } else { i - 1 };
                        assert(fr[n].id == x);
                    }
                }
                assert forall|x: u64| x != id && reg_has(or, x) implies reg_get(fr, x) == reg_get(
                    or,
                    x,
                ) by {
                    let i = choose|i: int| 0 <= i < or.len() && or[i].id == x;
                    assert(i != j);
                    let n: int = if i < j { i } else { i - 1 };
                    assert(fr[n] == or[i]);
                    lemma_reg_get(or, x, i);
                    lemma_reg_get(fr, x, n);
                }
            }
            return;
        }
        j = j + 1;
    }
    proof {
        let i = choose|i: int| 0 <= i < or.len() && or[i].id == id;
        assert(false);
    }
}

impl Constellation {
    /// Publish `frame_tree` and grant paint permission to its pipelines; if
    /// the tree's root pipeline was loaded as a fresh navigation, commit the
    /// tree to history: the old current page moves to the back stack, the
    /// forward stack is evicted, and every pipeline of the evicted trees that
    /// is nowhere else in the navigation context is exited and dropped from
    /// the registry.
    fn grant_paint_permission(&mut self, frame_tree: FrameTree, actions: &mut Vec<Action>)
        requires
            reg_wf(old(self).pipelines@),
            forall|id: u64| frame_tree@.contains_id(id) ==> reg_has(old(self).pipelines@, id),
        ensures
            final(self).next_pipeline_id == old(self).next_pipeline_id,
            final(self).pending_frames == old(self).pending_frames,
            reg_wf(final(self).pipelines@),
            seq_extends(final(actions)@, old(actions)@),
            is_grant_seq(
                final(actions)@.subrange(
                    old(actions)@.len() as int,
                    old(actions)@.len() + 1 + frame_tree@.ids().len() as int,
                ),
                frame_tree@,
                old(self).pipelines@,
            ),
            reg_get(old(self).pipelines@, frame_tree@.pipeline)@.navigation_type != Some(
                NavigationType::Load,
            ) ==> {
                &&& *final(self) == *old(self)
                &&& final(actions)@.len() == old(actions)@.len() + 1 + frame_tree@.ids().len() as int
            },
            reg_get(old(self).pipelines@, frame_tree@.pipeline)@.navigation_type == Some(
                NavigationType::Load,
            ) ==> {
                &&& final(self).navigation_context.current == Some(frame_tree)
                &&& final(self).navigation_context.next@.len() == 0
                &&& final(self).navigation_context.previous@ == (if old(
                    self,
                ).navigation_context.current is Some {
                    old(self).navigation_context.previous@.push(
                        old(self).navigation_context.current.unwrap(),
                    )
                } else {
                    old(self).navigation_context.previous@
                })
                &&& forall|x: u64| reg_has(final(self).pipelines@, x) <==> (reg_has(
                    old(self).pipelines@,
                    x,
                ) && !(forest_tree_ids(old(self).navigation_context.next@).contains(x) && !final(self).navigation_context.contains_spec(x)))
                &&& forall|x: u64| reg_has(final(self).pipelines@, x) ==> reg_get(
                    final(self).pipelines@,
                    x,
                ) == reg_get(old(self).pipelines@, x)
                &&& forall|j: int| old(actions)@.len() + 1 + frame_tree@.ids().len() as int <= j
                    < final(actions)@.len() ==> final(actions)@[j] is ExitPipeline
                &&& forall|x: u64| #[trigger] has_exit_action(
                    final(actions)@,
                    old(actions)@.len() + 1 + frame_tree@.ids().len() as int,
                    x,
                ) <==> (forest_tree_ids(old(self).navigation_context.next@).contains(x)
                    && !final(self).navigation_context.contains_spec(x)
                    && reg_has(old(self).pipelines@, x))
            },
    {
        proof {
            assert(frame_tree@.ids()[0] == frame_tree@.pipeline);
            assert(frame_tree@.contains_id(frame_tree@.pipeline));
        }
        self.set_ids(&frame_tree, actions);
        let ghost after_grant = actions@;
        let root = find_pipeline(&self.pipelines, frame_tree.pipeline_id).unwrap();
        let is_load = matches!(root.navigation_type, Some(NavigationType::Load));
        proof {
            assert(after_grant.subrange(0, old(actions)@.len() as int) == old(actions)@);
        }
        if !is_load {
            proof {
                assert(final(actions)@.subrange(
                    old(actions)@.len() as int,
                    old(actions)@.len() + 1 + frame_tree@.ids().len() as int,
                ) =~= after_grant.skip(old(actions)@.len() as int));
            }
            return;
        }
        let ghost reg0 = self.pipelines@;
        let evicted = self.navigation_context.load(frame_tree);
        let ghost nav = self.navigation_context;

        let mut eids: Vec<u64> = Vec::new();
        let mut e: usize = 0;
        while e < evicted.len()
            invariant
                e <= evicted.len(),
                eids@ == forest_tree_ids(evicted@.subrange(0, e as int)),
            decreases evicted.len() - e,
        {
            proof {
                lemma_forest_view(evicted@.subrange(0, e as int));
                lemma_forest_view(evicted@.subrange(0, e + 1 as int));
                lemma_forest_view(evicted@);
            }
            let mut tree_ids = evicted[e].all_ids();
            eids.append(&mut tree_ids);
            proof {
                let prefix = forest_view(evicted@.subrange(0, e as int));
                let next = forest_view(evicted@.subrange(0, e + 1 as int));
                assert(next =~= prefix + seq![evicted@[e as int]@]);
                lemma_forest_ids_concat(prefix, seq![evicted@[e as int]@]);
                crate::frame_tree::lemma_forest_ids_singleton(evicted@[e as int]@);
                assert(eids@ =~= forest_tree_ids(evicted@.subrange(0, e + 1 as int)));
            }
            e = e + 1;
        }
        proof {
            assert(evicted@.subrange(0, evicted@.len() as int) =~= evicted@);
        }

        let ghost abase = actions@;
        let mut k: usize = 0;
        while k < eids.len()
            invariant
                k <= eids.len(),
                self.navigation_context == nav,
                self.next_pipeline_id == old(self).next_pipeline_id,
                self.pending_frames == old(self).pending_frames,
                reg_wf(reg0),
                reg_wf(self.pipelines@),
                abase == actions@.subrange(0, abase.len() as int),
                abase.len() <= actions@.len(),
                forall|x: u64| reg_has(self.pipelines@, x) <==> (reg_has(reg0, x) && !(
                eids@.subrange(0, k as int).contains(x) && !nav.contains_spec(x))),
                forall|x: u64| reg_has(self.pipelines@, x) ==> reg_get(self.pipelines@, x)
                    == reg_get(reg0, x),
                forall|j: int| abase.len() <= j < actions@.len() ==> actions@[j] is ExitPipeline,
                forall|x: u64| #[trigger] has_exit_action(actions@, abase.len() as int, x) <==> (
                eids@.subrange(0, k as int).contains(x) && !nav.contains_spec(x) && reg_has(
                    reg0,
                    x,
                )),
            decreases eids.len() - k,
        {
            let ghost prefix = eids@.subrange(0, k as int);
            let ghost next = eids@.subrange(0, k + 1 as int);
            proof {
                assert(next =~= prefix.push(eids@[k as int]));
            }
            let id = eids[k];
            let ghost acts0 = actions@;
            let ghost mid = self.pipelines@;
            let in_nav = self.navigation_context.contains(id);
            let mut pushed = false;
            if !in_nav {
                let still = matches!(find_pipeline(&self.pipelines, id), Some(_));
                if still {
                    actions.push(Action::ExitPipeline { id });
                    remove_pipeline(&mut self.pipelines, id);
                    pushed = true;
                    proof {
                        assert(actions@.subrange(0, abase.len() as int) =~= abase);
                        assert(actions@ == acts0.push(Action::ExitPipeline { id }));
                    }
                }
            }
            proof {
                assert(next[k as int] == id);
                assert(next.contains(id));
                assert forall|x: u64| x != id implies next.contains(x) == prefix.contains(x) by {
                    if next.contains(x) {
                        let i = choose|i: int| 0 <= i < next.len() && next[i] == x;
                        assert(prefix[i] == x);
                    }
                    if prefix.contains(x) {
                        let i = choose|i: int| 0 <= i < prefix.len() && prefix[i] == x;
                        assert(next[i] == x);
                    }
                }
                let fr = self.pipelines@;
                assert forall|x: u64| reg_has(fr, x) <==> (reg_has(reg0, x) && !(next.contains(x)
                    && !nav.contains_spec(x))) by {
                    if x != id {
                        assert(reg_has(fr, x) == reg_has(mid, x));
                    }
                }
                assert forall|x: u64| #[trigger] has_exit_action(actions@, abase.len() as int, x)
                    <==> (next.contains(x) && !nav.contains_spec(x) && reg_has(reg0, x)) by {
                    let had = has_exit_action(acts0, abase.len() as int, x);
                    let now = has_exit_action(actions@, abase.len() as int, x);
                    assert(had == (exists|j: int|
                        abase.len() <= j < acts0.len() && acts0[j] == (Action::ExitPipeline {
                            id: x,
                        })));
                    assert(now == (exists|j: int|
                        abase.len() <= j < actions@.len() && actions@[j] == (Action::ExitPipeline {
                            id: x,
                        })));
                    if pushed {
                        assert(actions@ == acts0.push(Action::ExitPipeline { id }));
                        if had {
                            let j = choose|j: int|
                                abase.len() <= j < acts0.len() && acts0[j]
                                    == (Action::ExitPipeline { id: x });
                            assert(actions@[j] == (Action::ExitPipeline { id: x }));
                            assert(now);
                        }
                        if x == id {
                            assert(actions@[acts0.len() as int] == (Action::ExitPipeline { id: x }));
                            assert(now);
                        }
                        if now && !had {
                            let j = choose|j: int|
                                abase.len() <= j < actions@.len() && actions@[j]
                                    == (Action::ExitPipeline { id: x });
                            if j < acts0.len() {
                                assert(acts0[j] == (Action::ExitPipeline { id: x }));
                                assert(false);
                            }
                            assert(x == id);
                        }
                    } else {
                        assert(actions@ == acts0);
                        assert(now == had);
                        if x == id && next.contains(x) && !nav.contains_spec(x) && reg_has(
                            reg0,
                            x,
                        ) {
                            if !reg_has(mid, x) {
                                assert(prefix.contains(x));
                                assert(had);
                            } else {
                                assert(false);
                            }
                        }
                        if x == id && had {
                            assert(prefix.contains(x) && !nav.contains_spec(x) && reg_has(reg0, x));
                            let i = choose|i: int| 0 <= i < prefix.len() && prefix[i] == x;
                            assert(next[i] == x);
                        }
                    }
                }
            }
            k = k + 1;
        }
        proof {
            assert(eids@.subrange(0, eids@.len() as int) =~= eids@);
            assert(eids@ == forest_tree_ids(old(self).navigation_context.next@));
            assert(abase.len() == old(actions)@.len() + 1 + frame_tree@.ids().len() as int);
            let lo = old(actions)@.len() + 1 + frame_tree@.ids().len() as int;
            assert(lo == abase.len() as int);
            assert forall|x: u64| #[trigger] has_exit_action(actions@, lo, x) <==> (eids@.contains(x)
                && !nav.contains_spec(x) && reg_has(reg0, x)) by {
                assert(k == eids@.len());
                assert(eids@.subrange(0, k as int).contains(x) == eids@.contains(x));
                assert(has_exit_action(actions@, abase.len() as int, x) <==> (eids@.subrange(
                    0,
                    k as int,
                ).contains(x) && !nav.contains_spec(x) && reg_has(reg0, x)));
                assert(has_exit_action(actions@, lo, x) == has_exit_action(
                    actions@,
                    abase.len() as int,
                    x,
                ));
            }
            assert(final(actions)@.subrange(
                old(actions)@.len() as int,
                old(actions)@.len() + 1 + frame_tree@.ids().len() as int,
            ) =~= after_grant.skip(old(actions)@.len() as int));
            assert(final(actions)@.subrange(0, old(actions)@.len() as int) =~= old(actions)@);
        }
    }

    /// Tell every pipeline of the back and forward stacks that is not shown
    /// by the current tree about the new window size.  The current tree's
    /// pipelines learn of it through the compositor instead.
    fn handle_resized_window(&self, new_size: WindowSize) -> (actions: Vec<Action>)
        ensures
            actions@ == resize_actions(
                forest_tree_ids(self.navigation_context.previous@),
                self.navigation_context.current,
                new_size,
            ) + resize_actions(
                forest_tree_ids(self.navigation_context.next@),
                self.navigation_context.current,
                new_size,
            ),
    {
        let mut actions: Vec<Action> = Vec::new();
        self.resize_stack(&self.navigation_context.previous, new_size, &mut actions);
        let ghost first = actions@;
        self.resize_stack(&self.navigation_context.next, new_size, &mut actions);
        proof {
            assert(actions@ =~= resize_actions(
                forest_tree_ids(self.navigation_context.previous@),
                self.navigation_context.current,
                new_size,
            ) + resize_actions(
                forest_tree_ids(self.navigation_context.next@),
                self.navigation_context.current,
                new_size,
            ));
        }
        actions
    }

    /// Append the resize notices owed for one history stack.
    fn resize_stack(&self, stack: &Vec<FrameTree>, new_size: WindowSize, actions: &mut Vec<Action>)
        ensures
            final(actions)@ == old(actions)@ + resize_actions(
                forest_tree_ids(stack@),
                self.navigation_context.current,
                new_size,
            ),
    {
        let ghost base = old(actions)@;
        let mut ids: Vec<u64> = Vec::new();
        let mut e: usize = 0;
        while e < stack.len()
            invariant
                e <= stack.len(),
                ids@ == forest_tree_ids(stack@.subrange(0, e as int)),
            decreases stack.len() - e,
        {
            proof {
                lemma_forest_view(stack@.subrange(0, e as int));
                lemma_forest_view(stack@.subrange(0, e + 1 as int));
                lemma_forest_view(stack@);
            }
            let mut tree_ids = stack[e].all_ids();
            ids.append(&mut tree_ids);
            proof {
                let prefix = forest_view(stack@.subrange(0, e as int));
                let next = forest_view(stack@.subrange(0, e + 1 as int));
                assert(next =~= prefix + seq![stack@[e as int]@]);
                lemma_forest_ids_concat(prefix, seq![stack@[e as int]@]);
                crate::frame_tree::lemma_forest_ids_singleton(stack@[e as int]@);
                assert(ids@ =~= forest_tree_ids(stack@.subrange(0, e + 1 as int)));
            }
            e = e + 1;
        }
        proof {
            assert(stack@.subrange(0, stack@.len() as int) =~= stack@);
        }
        let mut k: usize = 0;
        while k < ids.len()
            invariant
                k <= ids.len(),
                ids@ == forest_tree_ids(stack@),
                actions@ == base + resize_actions(
                    ids@.subrange(0, k as int),
                    self.navigation_context.current,
                    new_size,
                ),
            decreases ids.len() - k,
        {
            let ghost prefix = ids@.subrange(0, k as int);
            let skip = match &self.navigation_context.current {
                Some(c) => c.contains(ids[k]),
                None => false,
            };
            if !skip {
                actions.push(Action::ResizeInactive { id: ids[k], size: new_size });
            }
            proof {
                let next = ids@.subrange(0, k + 1 as int);
                lemma_resize_actions_snoc(next, self.navigation_context.current, new_size);
                assert(next.drop_last() =~= prefix);
                assert(next.last() == ids@[k as int]);
                assert(actions@ =~= base + resize_actions(
                    next,
                    self.navigation_context.current,
                    new_size,
                ));
            }
            k = k + 1;
        }
        proof {
            assert(ids@.subrange(0, ids@.len() as int) =~= ids@);
        }
    }
}

/// A pending change covers `source` inside `cur`: the change's own subtree
/// holds the source, or the source's subtree holds the change's target.
/// Meaningful when every pending `before` id is found in `cur`.
pub open spec fn pending_covers(pending: Seq<FrameChange>, cur: FrameNode, source: u64) -> bool {
    exists|k: int|
        0 <= k < pending.len() && {
            let old_id = (#[trigger] pending[k]).before.unwrap();
            cur.find(old_id).unwrap().contains_id(source) || cur.find(source).unwrap().contains_id(
                old_id,
            )
        }
}

/// The index of the most recently enqueued pending change whose new
/// pipeline is `id`, or a negative number when there is none.
pub open spec fn rfind_pending(p: Seq<FrameChange>, id: u64) -> int
    decreases p,
{
    if p.len() == 0 {
        -1
    } else if p.last().after.pipeline_id == id {
        p.len() - 1
    } else {
        rfind_pending(p.drop_last(), id)
    }
}

impl Constellation {
    /// What a bootstrap load leaves behind: one fresh root pipeline,
    /// registered; for a document URL, a load command and a pending root
    /// frame change; for a script-only URL, an execute command and nothing
    /// pending.  History is untouched either way.
    pub open spec fn init_load_post(
        pre: Constellation,
        post: Constellation,
        actions: Seq<Action>,
        url: Url,
        size: WindowSize,
    ) -> bool {
        let id = pre.next_pipeline_id;
        let script = is_script_path(url@.path);
        &&& post.next_pipeline_id == id + 1
        &&& post.navigation_context == pre.navigation_context
        &&& post.pipelines@.len() == pre.pipelines@.len() + 1
        &&& post.pipelines@.subrange(0, pre.pipelines@.len() as int) == pre.pipelines@
        &&& post.pipelines@.last()@ == (PipelineView {
            id,
            subpage_id: None,
            url: if script { None } else { Some(url@) },
            navigation_type: if script { None } else { Some(NavigationType::Load) },
            script_worker: id,
        })
        &&& actions.len() == 2
        &&& actions[0] == (Action::CreatePipeline { id, subpage_id: None, script_worker: id, size })
        &&& (if script {
            &&& post.pending_frames == pre.pending_frames
            &&& (actions[1] matches Action::ExecutePipeline { id: eid, url: u } && eid == id && u@
                == url@)
        } else {
            &&& post.pending_frames@.len() == pre.pending_frames@.len() + 1
            &&& post.pending_frames@.subrange(0, pre.pending_frames@.len() as int)
                == pre.pending_frames@
            &&& post.pending_frames@.last().before is None
            &&& post.pending_frames@.last().after@ == (FrameNode {
                pipeline: id,
                parent: None,
                children: Seq::empty(),
            })
            &&& (actions[1] matches Action::LoadPipeline { id: lid, url: u, navigation_type: t }
                && lid == id && u@ == url@ && t == Some(NavigationType::Load))
        })
    }

    /// One-shot bootstrap: create the first pipeline for `url` with no
    /// parent, register it, and (for a document URL) enqueue the root frame
    /// change that makes it visible once its renderer is ready.
    pub fn handle_init_load(&mut self, url: Url, size: WindowSize) -> (actions: Vec<Action>)
        requires
            old(self).next_pipeline_id < u64::MAX,
        ensures
            Self::init_load_post(*old(self), *final(self), actions@, url, size),
    {
        let id = self.get_next_pipeline_id();
        let mut actions: Vec<Action> = Vec::new();
        actions.push(Action::CreatePipeline { id, subpage_id: None, script_worker: id, size });
        let script = url.is_script();
        let p = if script {
            actions.push(Action::ExecutePipeline { id, url });
            Pipeline { id, subpage_id: None, url: None, navigation_type: None, script_worker: id }
        } else {
            let record_url = url.clone_url();
            actions.push(
                Action::LoadPipeline { id, url, navigation_type: Some(NavigationType::Load) },
            );
            self.pending_frames.push(
                FrameChange {
                    before: None,
                    after: FrameTree { pipeline_id: id, parent: None, children: Vec::new() },
                },
            );
            Pipeline {
                id,
                subpage_id: None,
                url: Some(record_url),
                navigation_type: Some(NavigationType::Load),
                script_worker: id,
            }
        };
        self.pipelines.push(p);
        proof {
            assert(self.pipelines@.subrange(0, old(self).pipelines@.len() as int) =~= old(
                self,
            ).pipelines@);
            if !script {
                assert(self.pending_frames@.subrange(0, old(self).pending_frames@.len() as int)
                    =~= old(self).pending_frames@);
                assert(forest_view(self.pending_frames@.last().after.children@) =~= Seq::<
                    FrameNode,
                >::empty());
            }
        }
        actions
    }

    /// The source pipeline sits in the current tree, every pending change
    /// names a `before` pipeline that the current tree holds, the source is
    /// registered, and an id can still be allocated.  A violation of the
    /// first three is a protocol break by an upstream actor.
    pub open spec fn load_url_ok(self, source_id: u64) -> bool {
        &&& self.navigation_context.current is Some
        &&& self.navigation_context.current.unwrap()@.find(source_id) is Some
        &&& forall|k: int| 0 <= k < self.pending_frames@.len() ==> {
            &&& (#[trigger] self.pending_frames@[k]).before is Some
            &&& self.navigation_context.current.unwrap()@.find(
                self.pending_frames@[k].before.unwrap(),
            ) is Some
        }
        &&& reg_wf(self.pipelines@)
        &&& reg_has(self.pipelines@, source_id)
        &&& self.next_pipeline_id < u64::MAX
    }

    /// What a top-level or frame navigation leaves behind.  A load whose
    /// source a pending change already covers is dropped whole; a script-only
    /// URL creates and registers a pipeline and hands the URL to its script
    /// worker; any other load creates, registers and loads a pipeline and
    /// enqueues a frame change replacing the source's subtree.
    pub open spec fn load_url_post(
        pre: Constellation,
        post: Constellation,
        actions: Seq<Action>,
        source_id: u64,
        url: Url,
        size: WindowSize,
    ) -> bool {
        let cur = pre.navigation_context.current.unwrap()@;
        let covered = pending_covers(pre.pending_frames@, cur, source_id);
        let id = pre.next_pipeline_id;
        let script = is_script_path(url@.path);
        let source_frame = cur.find(source_id).unwrap();
        let subpage = reg_get(pre.pipelines@, source_id)@.subpage_id;
        &&& (covered ==> post == pre && actions.len() == 0)
        &&& (!covered ==> {
            &&& post.next_pipeline_id == id + 1
            &&& post.navigation_context == pre.navigation_context
            &&& post.pipelines@.len() == pre.pipelines@.len() + 1
            &&& post.pipelines@.subrange(0, pre.pipelines@.len() as int) == pre.pipelines@
            &&& post.pipelines@.last()@ == (PipelineView {
                id,
                subpage_id: subpage,
                url: if script { None } else { Some(url@) },
                navigation_type: if script { None } else { Some(NavigationType::Load) },
                script_worker: id,
            })
            &&& actions.len() == 2
            &&& actions[0] == (Action::CreatePipeline {
                id,
                subpage_id: subpage,
                script_worker: id,
                size,
            })
            &&& (if script {
                &&& post.pending_frames == pre.pending_frames
                &&& (actions[1] matches Action::ExecutePipeline { id: eid, url: u } && eid == id
                    && u@ == url@)
            } else {
                &&& post.pending_frames@.len() == pre.pending_frames@.len() + 1
                &&& post.pending_frames@.subrange(0, pre.pending_frames@.len() as int)
                    == pre.pending_frames@
                &&& post.pending_frames@.last().before == Some(source_id)
                &&& post.pending_frames@.last().after@ == (FrameNode {
                    pipeline: id,
                    parent: source_frame.parent,
                    children: Seq::empty(),
                })
                &&& (actions[1] matches Action::LoadPipeline { id: lid, url: u, navigation_type: t }
                    && lid == id && u@ == url@ && t == Some(NavigationType::Load))
            })
        })
    }

    /// Whether a pending change already covers a load from `source_id`, in
    /// which case the load must be dropped.
    fn covers_source(&self, source_id: u64) -> (r: bool)
        requires
            self.load_url_ok(source_id),
        ensures
            r == pending_covers(
                self.pending_frames@,
                self.navigation_context.current.unwrap()@,
                source_id,
            ),
    {
        let cur = match &self.navigation_context.current {
            Some(c) => c,
            None => {
                proof {
                    assert(false);
                }
                return false;
            },
        };
        let source_frame = cur.find(source_id).unwrap();
        let ghost pending = self.pending_frames@;
        let ghost cv = cur@;
        let mut k: usize = 0;
        while k < self.pending_frames.len()
            invariant
                k <= self.pending_frames@.len(),
                pending == self.pending_frames@,
                cv == self.navigation_context.current.unwrap()@,
                cur@ == cv,
                self.load_url_ok(source_id),
                source_frame@ == cv.find(source_id).unwrap(),
                forall|j: int| 0 <= j < k ==> !{
                    let old_id = (#[trigger] pending[j]).before.unwrap();
                    cv.find(old_id).unwrap().contains_id(source_id) || cv.find(
                        source_id,
                    ).unwrap().contains_id(old_id)
                },
            decreases self.pending_frames@.len() - k,
        {
            proof {
                assert(pending[k as int].before is Some);
                assert(cv.find(pending[k as int].before.unwrap()) is Some);
            }
            let old_id = match self.pending_frames[k].before {
                Some(i) => i,
                None => {
                    proof {
                        assert(false);
                    }
                    return false;
                },
            };
            let changing = cur.find(old_id).unwrap();
            if changing.contains(source_id) || source_frame.contains(old_id) {
                proof {
                    let ki = k as int;
                    assert(0 <= ki < pending.len() && {
                        let oi = pending[ki].before.unwrap();
                        cv.find(oi).unwrap().contains_id(source_id) || cv.find(
                            source_id,
                        ).unwrap().contains_id(oi)
                    });
                }
                return true;
            }
            k = k + 1;
        }
        proof {
            if pending_covers(pending, cv, source_id) {
                let j = choose|j: int|
                    0 <= j < pending.len() && {
                        let old_id = (#[trigger] pending[j]).before.unwrap();
                        cv.find(old_id).unwrap().contains_id(source_id) || cv.find(
                            source_id,
                        ).unwrap().contains_id(old_id)
                    };
                assert(false);
            }
        }
        false
    }

    /// Navigate the frame holding `source_id` to `url`, unless a pending
    /// change already covers that frame, in which case the load is silently
    /// dropped.
    pub fn handle_load_url(&mut self, source_id: u64, url: Url, size: WindowSize) -> (actions: Vec<
        Action,
    >)
        requires
            old(self).load_url_ok(source_id),
        ensures
            Self::load_url_post(*old(self), *final(self), actions@, source_id, url, size),
    {
        if self.covers_source(source_id) {
            return Vec::new();
        }
        let cur = match &self.navigation_context.current {
            Some(c) => c,
            None => {
                proof {
                    assert(false);
                }
                return Vec::new();
            },
        };
        let source_frame = cur.find(source_id).unwrap();
        let parent = source_frame.parent;
        let subpage = find_pipeline(&self.pipelines, source_id).unwrap().subpage_id;
        let id = self.get_next_pipeline_id();
        let mut actions: Vec<Action> = Vec::new();
        actions.push(Action::CreatePipeline { id, subpage_id: subpage, script_worker: id, size });
        let script = url.is_script();
        let p = if script {
            actions.push(Action::ExecutePipeline { id, url });
            Pipeline { id, subpage_id: subpage, url: None, navigation_type: None, script_worker: id }
        } else {
            let record_url = url.clone_url();
            actions.push(
                Action::LoadPipeline { id, url, navigation_type: Some(NavigationType::Load) },
            );
            self.pending_frames.push(
                FrameChange {
                    before: Some(source_id),
                    after: FrameTree { pipeline_id: id, parent, children: Vec::new() },
                },
            );
            Pipeline {
                id,
                subpage_id: subpage,
                url: Some(record_url),
                navigation_type: Some(NavigationType::Load),
                script_worker: id,
            }
        };
        self.pipelines.push(p);
        proof {
            assert(self.pipelines@.subrange(0, old(self).pipelines@.len() as int) =~= old(
                self,
            ).pipelines@);
            if !script {
                assert(self.pending_frames@.subrange(0, old(self).pending_frames@.len() as int)
                    =~= old(self).pending_frames@);
                assert(forest_view(self.pending_frames@.last().after.children@) =~= Seq::<
                    FrameNode,
                >::empty());
            }
        }
        actions
    }
}



/// Whether some pending change's tree holds `id`.
pub open spec fn pending_contains(p: Seq<FrameChange>, id: u64) -> bool {
    exists|k: int| 0 <= k < p.len() && (#[trigger] p[k]).after@.contains_id(id)
}

impl Constellation {
    /// The source pipeline is registered with a URL, it sits somewhere in the
    /// history or in a pending tree, and an id can still be allocated.  A
    /// violation of the first two is a protocol break by an upstream actor.
    pub open spec fn load_iframe_ok(self, source_id: u64) -> bool {
        &&& reg_wf(self.pipelines@)
        &&& reg_has(self.pipelines@, source_id)
        &&& reg_get(self.pipelines@, source_id)@.url is Some
        &&& (self.navigation_context.contains_spec(source_id) || pending_contains(
            self.pending_frames@,
            source_id,
        ))
        &&& self.next_pipeline_id < u64::MAX
    }

    /// What an iframe load leaves behind.  A child pipeline is created and
    /// registered, sharing the source's script worker exactly when the child
    /// URL is same-origin with the source's.  For a document URL the child
    /// frame is attached under every copy of the source frame — in the
    /// history and in pending trees alike — with no pending change of its
    /// own; for a script-only URL nothing is attached.
    pub open spec fn load_iframe_post(
        pre: Constellation,
        post: Constellation,
        actions: Seq<Action>,
        url: Url,
        source_id: u64,
        subpage_id: u64,
        size: WindowSize,
    ) -> bool {
        let id = pre.next_pipeline_id;
        let script = is_script_path(url@.path);
        let same = same_origin_spec(reg_get(pre.pipelines@, source_id)@.url.unwrap(), url@);
        let worker = if same {
            reg_get(pre.pipelines@, source_id)@.script_worker
        } else {
            id
        };
        let child = FrameNode { pipeline: id, parent: Some(source_id), children: Seq::empty() };
        &&& post.next_pipeline_id == id + 1
        &&& post.pipelines@.len() == pre.pipelines@.len() + 1
        &&& post.pipelines@.subrange(0, pre.pipelines@.len() as int) == pre.pipelines@
        &&& post.pipelines@.last()@ == (PipelineView {
            id,
            subpage_id: Some(subpage_id),
            url: if script { None } else { Some(url@) },
            navigation_type: None,
            script_worker: worker,
        })
        &&& actions.len() == 2
        &&& actions[0] == (Action::CreatePipeline {
            id,
            subpage_id: Some(subpage_id),
            script_worker: worker,
            size,
        })
        &&& (if script {
            &&& post.navigation_context == pre.navigation_context
            &&& post.pending_frames == pre.pending_frames
            &&& (actions[1] matches Action::ExecutePipeline { id: eid, url: u } && eid == id && u@
                == url@)
        } else {
            &&& post.navigation_context.previous@.len()
                == pre.navigation_context.previous@.len()
            &&& forall|k: int| 0 <= k < pre.navigation_context.previous@.len() ==> (
            #[trigger] post.navigation_context.previous@[k])@
                == pre.navigation_context.previous@[k]@.attach(source_id, child)
            &&& post.navigation_context.next@.len() == pre.navigation_context.next@.len()
            &&& forall|k: int| 0 <= k < pre.navigation_context.next@.len() ==> (
            #[trigger] post.navigation_context.next@[k])@
                == pre.navigation_context.next@[k]@.attach(source_id, child)
            &&& (post.navigation_context.current is Some) == (pre.navigation_context.current
                is Some)
            &&& (pre.navigation_context.current is Some
                ==> post.navigation_context.current.unwrap()@
                == pre.navigation_context.current.unwrap()@.attach(source_id, child))
            &&& post.pending_frames@.len() == pre.pending_frames@.len()
            &&& forall|k: int| 0 <= k < pre.pending_frames@.len() ==> (
            #[trigger] post.pending_frames@[k]).before == pre.pending_frames@[k].before
                && post.pending_frames@[k].after@ == pre.pending_frames@[k].after@.attach(
                source_id,
                child,
            )
            &&& (actions[1] matches Action::LoadPipeline { id: lid, url: u, navigation_type: t }
                && lid == id && u@ == url@ && t is None)
        })
    }

    /// A document of `source_id` parsed an `<iframe>`: create the child
    /// pipeline, reusing the source's script worker for a same-origin URL,
    /// and attach the child frame under every copy of the source frame.
    pub fn handle_load_iframe_url(
        &mut self,
        url: Url,
        source_id: u64,
        subpage_id: u64,
        size: WindowSize,
    ) -> (actions: Vec<Action>)
        requires
            old(self).load_iframe_ok(source_id),
        ensures
            Self::load_iframe_post(
                *old(self),
                *final(self),
                actions@,
                url,
                source_id,
                subpage_id,
                size,
            ),
    {
        let source = find_pipeline(&self.pipelines, source_id).unwrap();
        let same = match &source.url {
            Some(u) => u.same_origin(&url),
            None => {
                proof {
                    assert(false);
                }
                false
            },
        };
        let source_worker = source.script_worker;
        let id = self.get_next_pipeline_id();
        let worker = if same {
            source_worker
        } else {
            id
        };
        let mut actions: Vec<Action> = Vec::new();
        actions.push(
            Action::CreatePipeline { id, subpage_id: Some(subpage_id), script_worker: worker, size },
        );
        let script = url.is_script();
        let p = if script {
            actions.push(Action::ExecutePipeline { id, url });
            Pipeline {
                id,
                subpage_id: Some(subpage_id),
                url: None,
                navigation_type: None,
                script_worker: worker,
            }
        } else {
            let record_url = url.clone_url();
            actions.push(Action::LoadPipeline { id, url, navigation_type: None });
            let child = FrameTree { pipeline_id: id, parent: Some(source_id), children: Vec::new() };
            proof {
                assert(forest_view(child.children@) =~= Seq::<FrameNode>::empty());
            }
            self.attach_everywhere(source_id, &child);
            Pipeline {
                id,
                subpage_id: Some(subpage_id),
                url: Some(record_url),
                navigation_type: None,
                script_worker: worker,
            }
        };
        self.pipelines.push(p);
        proof {
            assert(self.pipelines@.subrange(0, old(self).pipelines@.len() as int) =~= old(
                self,
            ).pipelines@);
        }
        actions
    }

    /// Attach a copy of `child` under every node whose pipeline is
    /// `source_id`, across the whole history and every pending tree.
    fn attach_everywhere(&mut self, source_id: u64, child: &FrameTree)
        ensures
            final(self).pipelines == old(self).pipelines,
            final(self).next_pipeline_id == old(self).next_pipeline_id,
            final(self).navigation_context.previous@.len()
                == old(self).navigation_context.previous@.len(),
            forall|k: int| 0 <= k < old(self).navigation_context.previous@.len() ==> (
            #[trigger] final(self).navigation_context.previous@[k])@
                == old(self).navigation_context.previous@[k]@.attach(source_id, child@),
            final(self).navigation_context.next@.len() == old(self).navigation_context.next@.len(),
            forall|k: int| 0 <= k < old(self).navigation_context.next@.len() ==> (
            #[trigger] final(self).navigation_context.next@[k])@
                == old(self).navigation_context.next@[k]@.attach(source_id, child@),
            (final(self).navigation_context.current is Some)
                == (old(self).navigation_context.current is Some),
            old(self).navigation_context.current is Some
                ==> final(self).navigation_context.current.unwrap()@
                == old(self).navigation_context.current.unwrap()@.attach(source_id, child@),
            final(self).pending_frames@.len() == old(self).pending_frames@.len(),
            forall|k: int| 0 <= k < old(self).pending_frames@.len() ==> (
            #[trigger] final(self).pending_frames@[k]).before
                == old(self).pending_frames@[k].before
                && final(self).pending_frames@[k].after@
                == old(self).pending_frames@[k].after@.attach(source_id, child@),
    {
        attach_in_stack(&mut self.navigation_context.previous, source_id, child);
        attach_in_stack(&mut self.navigation_context.next, source_id, child);
        match self.navigation_context.current.take() {
            Some(c) => {
                let t = c.attach_child(source_id, child);
                self.navigation_context.current = Some(t);
            },
            None => {},
        }
        let ghost nav_mid = self.navigation_context;
        let mut k: usize = 0;
        while k < self.pending_frames.len()
            invariant
                k <= self.pending_frames@.len(),
                self.navigation_context == nav_mid,
                self.pipelines == old(self).pipelines,
                self.next_pipeline_id == old(self).next_pipeline_id,
                self.pending_frames@.len() == old(self).pending_frames@.len(),
                forall|j: int| k <= j < self.pending_frames@.len()
                    ==> #[trigger] self.pending_frames@[j] == old(self).pending_frames@[j],
                forall|j: int| 0 <= j < k ==> (#[trigger] self.pending_frames@[j]).before == old(
                    self,
                ).pending_frames@[j].before && self.pending_frames@[j].after@ == old(
                    self,
                ).pending_frames@[j].after@.attach(source_id, child@),
            decreases self.pending_frames@.len() - k,
        {
            let b = self.pending_frames[k].before;
            let t = self.pending_frames[k].after.attach_child(source_id, child);
            self.pending_frames[k] = FrameChange { before: b, after: t };
            k = k + 1;
        }
    }
}

/// Attach a copy of `child` under every matching node of every tree of one
/// history stack.
fn attach_in_stack(stack: &mut Vec<FrameTree>, source_id: u64, child: &FrameTree)
    ensures
        final(stack)@.len() == old(stack)@.len(),
        forall|k: int| 0 <= k < old(stack)@.len() ==> (#[trigger] final(stack)@[k])@ == old(
            stack,
        )@[k]@.attach(source_id, child@),
{
    let mut k: usize = 0;
    while k < stack.len()
        invariant
            k <= stack@.len(),
            stack@.len() == old(stack)@.len(),
            forall|j: int| k <= j < stack@.len() ==> #[trigger] stack@[j] == old(stack)@[j],
            forall|j: int| 0 <= j < k ==> (#[trigger] stack@[j])@ == old(stack)@[j]@.attach(
                source_id,
                child@,
            ),
        decreases stack@.len() - k,
    {
        let t = stack[k].attach_child(source_id, child);
        stack[k] = t;
        k = k + 1;
    }
}


impl Constellation {
    /// The registry is well formed and covers the history, and a traversal
    /// with a nonempty stack finds a current page to move aside.
    pub open spec fn navigate_ok(self, direction: NavigationDirection) -> bool {
        &&& reg_wf(self.pipelines@)
        &&& self.nav_registered()
        &&& (match direction {
            NavigationDirection::Forward => self.navigation_context.next@.len() > 0
                ==> self.navigation_context.current is Some,
            NavigationDirection::Back => self.navigation_context.previous@.len() > 0
                ==> self.navigation_context.current is Some,
        })
    }

    /// What a history traversal leaves behind.  Against an empty stack it is
    /// a no-op.  Otherwise paint permission is revoked from the whole current
    /// tree, the destination tree becomes current, every one of its pipelines
    /// is reloaded as a history navigation (and its record marked so), and
    /// the destination is republished and granted paint permission.  History
    /// is never committed here: the destination's root was reloaded as a
    /// `Navigate`, not a `Load`.
    pub open spec fn navigate_post(
        pre: Constellation,
        post: Constellation,
        actions: Seq<Action>,
        direction: NavigationDirection,
    ) -> bool {
        let empty = match direction {
            NavigationDirection::Forward => pre.navigation_context.next@.len() == 0,
            NavigationDirection::Back => pre.navigation_context.previous@.len() == 0,
        };
        let dest = match direction {
            NavigationDirection::Forward => pre.navigation_context.next@.last(),
            NavigationDirection::Back => pre.navigation_context.previous@.last(),
        };
        let cur_ids = pre.navigation_context.current.unwrap()@.ids();
        let dest_ids = dest@.ids();
        &&& (empty ==> post == pre && actions.len() == 0)
        &&& (!empty ==> {
            &&& post.next_pipeline_id == pre.next_pipeline_id
            &&& post.pending_frames == pre.pending_frames
            &&& post.navigation_context.current == Some(dest)
            &&& (match direction {
                NavigationDirection::Forward => post.navigation_context.previous@
                    == pre.navigation_context.previous@.push(
                    pre.navigation_context.current.unwrap(),
                ) && post.navigation_context.next@ == pre.navigation_context.next@.drop_last(),
                NavigationDirection::Back => post.navigation_context.next@
                    == pre.navigation_context.next@.push(pre.navigation_context.current.unwrap())
                    && post.navigation_context.previous@
                    == pre.navigation_context.previous@.drop_last(),
            })
            &&& post.pipelines@.len() == pre.pipelines@.len()
            &&& (forall|x: u64| reg_has(post.pipelines@, x) == reg_has(pre.pipelines@, x))
            &&& (forall|x: u64| reg_has(pre.pipelines@, x) ==> reg_get(post.pipelines@, x)@ == (
            if dest_ids.contains(x) {
                pv_with_nav(reg_get(pre.pipelines@, x)@, Some(NavigationType::Navigate))
            } else {
                reg_get(pre.pipelines@, x)@
            }))
            &&& actions.len() == cur_ids.len() + dest_ids.len() + 1 + dest_ids.len()
            &&& (forall|k: int| 0 <= k < cur_ids.len() ==> actions[k]
                == (Action::RevokePaintPermission { id: cur_ids[k] }))
            &&& (forall|k: int| 0 <= k < dest_ids.len() ==> actions[cur_ids.len() + k]
                == (Action::ReloadPipeline {
                id: dest_ids[k],
                navigation_type: NavigationType::Navigate,
            }))
            &&& is_grant_seq(
                actions.subrange(
                    cur_ids.len() + dest_ids.len() as int,
                    actions.len() as int,
                ),
                dest@,
                post.pipelines@,
            )
        })
    }

    /// Step through history: revoke paint from the current page, make the
    /// destination current, reload its pipelines as a history traversal, and
    /// republish it.  A traversal against an empty stack is a no-op.
    pub fn handle_navigate(&mut self, direction: NavigationDirection) -> (actions: Vec<Action>)
        requires
            old(self).navigate_ok(direction),
        ensures
            Self::navigate_post(*old(self), *final(self), actions@, direction),
    {
        match direction {
            NavigationDirection::Forward => {
                if self.navigation_context.next.is_empty() {
                    return Vec::new();
                }
            },
            NavigationDirection::Back => {
                if self.navigation_context.previous.is_empty() {
                    return Vec::new();
                }
            },
        }
        let mut actions: Vec<Action> = Vec::new();
        let cur_ids = match &self.navigation_context.current {
            Some(c) => c.all_ids(),
            None => {
                proof {
                    assert(false);
                }
                return Vec::new();
            },
        };
        let mut k: usize = 0;
        while k < cur_ids.len()
            invariant
                k <= cur_ids@.len(),
                actions@.len() == k,
                forall|j: int| 0 <= j < k ==> actions@[j] == (Action::RevokePaintPermission {
                    id: cur_ids@[j],
                }),
            decreases cur_ids@.len() - k,
        {
            actions.push(Action::RevokePaintPermission { id: cur_ids[k] });
            k = k + 1;
        }
        let dest = match direction {
            NavigationDirection::Forward => self.navigation_context.forward(),
            NavigationDirection::Back => self.navigation_context.back(),
        };
        let dest_ids = dest.all_ids();
        set_navigation_types(&mut self.pipelines, &dest_ids, NavigationType::Navigate);
        let ghost mid_actions = actions@;
        let mut m: usize = 0;
        while m < dest_ids.len()
            invariant
                m <= dest_ids@.len(),
                actions@.len() == mid_actions.len() + m,
                actions@.subrange(0, mid_actions.len() as int) == mid_actions,
                forall|j: int| 0 <= j < m ==> actions@[mid_actions.len() + j]
                    == (Action::ReloadPipeline {
                    id: dest_ids@[j],
                    navigation_type: NavigationType::Navigate,
                }),
            decreases dest_ids@.len() - m,
        {
            actions.push(
                Action::ReloadPipeline {
                    id: dest_ids[m],
                    navigation_type: NavigationType::Navigate,
                },
            );
            proof {
                assert(actions@.subrange(0, mid_actions.len() as int) =~= mid_actions);
            }
            m = m + 1;
        }
        proof {
            let stack = match direction {
                NavigationDirection::Forward => old(self).navigation_context.next@,
                NavigationDirection::Back => old(self).navigation_context.previous@,
            };
            assert(stack[stack.len() - 1] == stack.last());
            assert(dest@ == stack.last()@);
            assert forall|x: u64| dest@.contains_id(x) implies reg_has(self.pipelines@, x) by {
                assert((#[trigger] stack[stack.len() - 1])@.contains_id(x));
                assert(crate::navigation::forest_contains(stack, x));
                assert(old(self).navigation_context.contains_spec(x));
                assert(reg_has(old(self).pipelines@, x));
            }
            assert(dest@.ids()[0] == dest@.pipeline);
            assert(dest@.contains_id(dest@.pipeline));
            assert(dest_ids@.contains(dest@.pipeline));
            assert(reg_get(self.pipelines@, dest@.pipeline)@.navigation_type == Some(
                NavigationType::Navigate,
            ));
        }
        let ghost pre_grant = actions@;
        let ghost reg_mid = self.pipelines@;
        self.grant_paint_permission(dest, &mut actions);
        proof {
            assert(actions@.subrange(pre_grant.len() as int, actions@.len() as int)
                =~= actions@.subrange(
                pre_grant.len() as int,
                pre_grant.len() + 1 + dest@.ids().len() as int,
            ));
            assert(actions@.subrange(0, pre_grant.len() as int) == pre_grant);
            assert forall|k: int| 0 <= k < pre_grant.len() implies #[trigger] actions@[k]
                == pre_grant[k] by {
                assert(actions@.subrange(0, pre_grant.len() as int)[k] == actions@[k]);
            }
            assert forall|k: int| 0 <= k < mid_actions.len() implies #[trigger] pre_grant[k]
                == mid_actions[k] by {
                assert(pre_grant.subrange(0, mid_actions.len() as int)[k] == pre_grant[k]);
            }
        }
        actions
    }
}


/// The tree that a completed pending change publishes: the change's own tree
/// when it is a new root, the current tree with the changed subtree replaced
/// for a sub-frame navigation, or the current tree with the new frame
/// attached under its parent for a completed iframe load.
pub open spec fn published_spec(fc: FrameChange, cur: Option<FrameTree>) -> FrameNode {
    let to_add = fc.after@;
    if to_add.parent is None {
        to_add
    } else if fc.before is Some {
        cur.unwrap()@.replace(fc.before.unwrap(), to_add)
    } else {
        cur.unwrap()@.attach(to_add.parent.unwrap(), to_add)
    }
}

/// A non-negative `rfind_pending` result indexes a matching change.
pub proof fn lemma_rfind_pending(p: Seq<FrameChange>, id: u64)
    ensures
        rfind_pending(p, id) == -1 || (0 <= rfind_pending(p, id) < p.len()
            && p[rfind_pending(p, id)].after.pipeline_id == id),
    decreases p,
{
    if p.len() > 0 && p.last().after.pipeline_id != id {
        lemma_rfind_pending(p.drop_last(), id);
    }
}

/// The most recently enqueued pending change whose new pipeline is `id`.
fn rposition_pending(p: &Vec<FrameChange>, id: u64) -> (r: Option<usize>)
    ensures
        match r {
            Some(i) => rfind_pending(p@, id) == i as int,
            None => rfind_pending(p@, id) == -1,
        },
{
    proof {
        assert(p@.subrange(0, p@.len() as int) =~= p@);
    }
    let mut i: usize = p.len();
    while i > 0
        invariant
            i <= p@.len(),
            rfind_pending(p@, id) == rfind_pending(p@.subrange(0, i as int), id),
        decreases i,
    {
        i = i - 1;
        proof {
            assert(p@.subrange(0, i + 1 as int).last() == p@[i as int]);
            assert(p@.subrange(0, i + 1 as int).len() == i + 1);
        }
        if p[i].after.pipeline_id == id {
            return Some(i);
        }
        proof {
            assert(p@.subrange(0, i + 1 as int).drop_last() =~= p@.subrange(0, i as int));
        }
    }
    proof {
        assert(p@.subrange(0, 0).len() == 0);
    }
    None
}

impl Constellation {
    /// The registry is well formed and covers the history and the pending
    /// trees; and if the signal completes a pending change, the change is
    /// coherent with the current tree: a sub-frame change finds its `before`
    /// subtree there, and a completed iframe load finds its parent frame.
    pub open spec fn renderer_ready_ok(self, pipeline_id: u64) -> bool {
        &&& reg_wf(self.pipelines@)
        &&& self.nav_registered()
        &&& self.pending_registered()
        &&& ({
            let cur_has = self.navigation_context.current is Some
                && self.navigation_context.current.unwrap()@.contains_id(pipeline_id);
            let hit = rfind_pending(self.pending_frames@, pipeline_id);
            (!cur_has && hit >= 0) ==> {
                let fc = self.pending_frames@[hit];
                &&& (fc.after@.parent is Some ==> self.navigation_context.current is Some)
                &&& (fc.before is Some ==> self.navigation_context.current is Some
                    && self.navigation_context.current.unwrap()@.find(fc.before.unwrap()) is Some)
                &&& (fc.before is None && fc.after@.parent is Some
                    ==> self.navigation_context.current.unwrap()@.contains_id(
                    fc.after@.parent.unwrap(),
                ))
            }
        })
    }

    /// What a renderer-ready signal leaves behind.  A signal for a pipeline
    /// already in the current tree republishes that tree and changes nothing.
    /// A signal matching no pending change is ignored.  Otherwise the most
    /// recently enqueued matching change is removed and its tree published:
    /// the replaced subtree's pipelines lose paint permission first, and if
    /// the new tree's root pipeline was loaded as a fresh navigation the
    /// published tree is committed to history, evicting the forward stack and
    /// exiting its pipelines wherever they survive nowhere else.
    pub open spec fn renderer_ready_post(
        pre: Constellation,
        post: Constellation,
        actions: Seq<Action>,
        pipeline_id: u64,
    ) -> bool {
        let cur_has = pre.navigation_context.current is Some
            && pre.navigation_context.current.unwrap()@.contains_id(pipeline_id);
        let hit = rfind_pending(pre.pending_frames@, pipeline_id);
        if cur_has {
            &&& post == pre
            &&& is_grant_seq(actions, pre.navigation_context.current.unwrap()@, pre.pipelines@)
        } else if hit < 0 {
            &&& post == pre
            &&& actions.len() == 0
        } else {
            let fc = pre.pending_frames@[hit];
            let published = published_spec(fc, pre.navigation_context.current);
            let rev_ids = if fc.before is Some {
                pre.navigation_context.current.unwrap()@.find(fc.before.unwrap()).unwrap().ids()
            } else {
                Seq::<u64>::empty()
            };
            let commit = reg_get(pre.pipelines@, published.pipeline)@.navigation_type == Some(
                NavigationType::Load,
            );
            &&& post.next_pipeline_id == pre.next_pipeline_id
            &&& post.pending_frames@ == pre.pending_frames@.update(
                hit,
                pre.pending_frames@.last(),
            ).drop_last()
            &&& (forall|k: int| 0 <= k < rev_ids.len() ==> actions[k]
                == (Action::RevokePaintPermission { id: rev_ids[k] }))
            &&& is_grant_seq(
                actions.subrange(
                    rev_ids.len() as int,
                    rev_ids.len() + 1 + published.ids().len() as int,
                ),
                published,
                pre.pipelines@,
            )
            &&& (!commit ==> {
                &&& post.navigation_context == pre.navigation_context
                &&& post.pipelines == pre.pipelines
                &&& actions.len() == rev_ids.len() + 1 + published.ids().len()
            })
            &&& (commit ==> {
                &&& post.navigation_context.current is Some
                &&& post.navigation_context.current.unwrap()@ == published
                &&& post.navigation_context.next@.len() == 0
                &&& post.navigation_context.previous@ == (if pre.navigation_context.current
                    is Some {
                    pre.navigation_context.previous@.push(pre.navigation_context.current.unwrap())
                } else {
                    pre.navigation_context.previous@
                })
                &&& (forall|x: u64| #[trigger] reg_has(post.pipelines@, x) <==> (reg_has(
                    pre.pipelines@,
                    x,
                ) && !(forest_tree_ids(pre.navigation_context.next@).contains(x)
                    && !post.navigation_context.contains_spec(x))))
                &&& (forall|x: u64| reg_has(post.pipelines@, x) ==> reg_get(post.pipelines@, x)
                    == reg_get(pre.pipelines@, x))
                &&& (forall|j: int| rev_ids.len() + 1 + published.ids().len() as int <= j
                    < actions.len() ==> actions[j] is ExitPipeline)
                &&& (forall|x: u64| #[trigger] has_exit_action(
                    actions,
                    rev_ids.len() + 1 + published.ids().len() as int,
                    x,
                ) <==> (forest_tree_ids(pre.navigation_context.next@).contains(x)
                    && !post.navigation_context.contains_spec(x) && reg_has(pre.pipelines@, x)))
            })
        }
    }

    /// A pipeline's renderer asks to paint: republish the current tree if the
    /// pipeline is already visible; otherwise complete the most recent
    /// matching pending change, or ignore a signal that matches nothing.
    #[verifier::rlimit(50)]
    pub fn handle_renderer_ready(&mut self, pipeline_id: u64) -> (actions: Vec<Action>)
        requires
            old(self).renderer_ready_ok(pipeline_id),
        ensures
            Self::renderer_ready_post(*old(self), *final(self), actions@, pipeline_id),
    {
        let mut actions: Vec<Action> = Vec::new();
        let cur_has = match &self.navigation_context.current {
            Some(c) => c.contains(pipeline_id),
            None => false,
        };
        if cur_has {
            match &self.navigation_context.current {
                Some(c) => {
                    proof {
                        assert forall|x: u64| c@.contains_id(x) implies reg_has(
                            self.pipelines@,
                            x,
                        ) by {
                            assert(self.navigation_context.contains_spec(x));
                        }
                    }
                    self.set_ids(c, &mut actions);
                    proof {
                        assert(actions@.subrange(0, actions@.len() as int) =~= actions@);
                        assert(actions@.skip(0) =~= actions@);
                    }
                },
                None => {
                    proof {
                        assert(false);
                    }
                },
            }
            return actions;
        }
        proof {
            lemma_rfind_pending(self.pending_frames@, pipeline_id);
        }
        let index = match rposition_pending(&self.pending_frames, pipeline_id) {
            Some(i) => i,
            None => {
                return actions;
            },
        };
        let fc = self.pending_frames.swap_remove(index);
        let ghost fcg = fc;
        match fc.before {
            Some(revoke_id) => {
                let next_tree = match &self.navigation_context.current {
                    Some(cur) => {
                        let to_revoke = cur.find(revoke_id).unwrap();
                        let rev_ids = to_revoke.all_ids();
                        let mut k: usize = 0;
                        while k < rev_ids.len()
                            invariant
                                k <= rev_ids@.len(),
                                actions@.len() == k,
                                forall|j: int| 0 <= j < k ==> actions@[j]
                                    == (Action::RevokePaintPermission { id: rev_ids@[j] }),
                            decreases rev_ids@.len() - k,
                        {
                            actions.push(Action::RevokePaintPermission { id: rev_ids[k] });
                            k = k + 1;
                        }
                        if fc.after.parent.is_some() {
                            cur.replace_child(revoke_id, &fc.after)
                        } else {
                            fc.after
                        }
                    },
                    None => {
                        proof {
                            assert(false);
                        }
                        fc.after
                    },
                };
                proof {
                    assert forall|x: u64| next_tree@.contains_id(x) implies reg_has(
                        self.pipelines@,
                        x,
                    ) by {
                        if fcg.after@.parent is Some {
                            crate::frame_tree::lemma_replace_ids(
                                old(self).navigation_context.current.unwrap()@,
                                revoke_id,
                                fcg.after@,
                                x,
                            );
                        }
                        if old(self).navigation_context.current.unwrap()@.contains_id(x) {
                            assert(old(self).navigation_context.contains_spec(x));
                        } else {
                            assert(fcg.after@.contains_id(x));
                            assert(old(self).pending_frames@[index as int].after@.contains_id(x));
                        }
                    }
                }
                proof {
                    assert(next_tree@ == published_spec(fcg, old(self).navigation_context.current));
                    assert(self.pipelines == old(self).pipelines);
                    assert(self.navigation_context == old(self).navigation_context);
                }
                let ghost pre_grant = actions@;
                self.grant_paint_permission(next_tree, &mut actions);
                proof {
                    assert(rfind_pending(old(self).pending_frames@, pipeline_id) == index as int);
                    assert(fcg == old(self).pending_frames@[index as int]);
                    assert(next_tree@ == published_spec(
                        old(self).pending_frames@[index as int],
                        old(self).navigation_context.current,
                    ));
                    assert(actions@.subrange(0, pre_grant.len() as int) == pre_grant);
                    assert forall|j: int| 0 <= j < pre_grant.len() implies #[trigger] actions@[j]
                        == pre_grant[j] by {
                        assert(actions@.subrange(0, pre_grant.len() as int)[j] == actions@[j]);
                    }
                    if reg_get(old(self).pipelines@, next_tree@.pipeline)@.navigation_type == Some(
                        NavigationType::Load,
                    ) {
                        assert forall|x: u64| #[trigger] reg_has(self.pipelines@, x) <==> (reg_has(
                            old(self).pipelines@,
                            x,
                        ) && !(forest_tree_ids(old(self).navigation_context.next@).contains(x)
                            && !self.navigation_context.contains_spec(x))) by {
                            let a = reg_has(self.pipelines@, x);
                            let b = reg_has(old(self).pipelines@, x);
                            let c = forest_tree_ids(old(self).navigation_context.next@).contains(x);
                            let d = self.navigation_context.contains_spec(x);
                        }
                    }
                    let hitg = rfind_pending(old(self).pending_frames@, pipeline_id);
                    let fcp = old(self).pending_frames@[hitg];
                    assert(published_spec(fcp, old(self).navigation_context.current)
                        == next_tree@);
                }
            },
            None => {
                let next_tree = match &fc.after.parent {
                    Some(pid) => {
                        let parent_id = *pid;
                        match &self.navigation_context.current {
                            Some(cur) => cur.attach_child(parent_id, &fc.after),
                            None => {
                                proof {
                                    assert(false);
                                }
                                fc.after
                            },
                        }
                    },
                    None => fc.after,
                };
                proof {
                    assert forall|x: u64| next_tree@.contains_id(x) implies reg_has(
                        self.pipelines@,
                        x,
                    ) by {
                        if fcg.after@.parent is Some {
                            crate::frame_tree::lemma_attach_ids(
                                old(self).navigation_context.current.unwrap()@,
                                fcg.after@.parent.unwrap(),
                                fcg.after@,
                                x,
                            );
                        }
                        if fcg.after@.parent is Some && old(
                            self,
                        ).navigation_context.current.unwrap()@.contains_id(x) {
                            assert(old(self).navigation_context.contains_spec(x));
                        } else {
                            assert(fcg.after@.contains_id(x));
                            assert(old(self).pending_frames@[index as int].after@.contains_id(x));
                        }
                    }
                }
                proof {
                    assert(next_tree@ == published_spec(fcg, old(self).navigation_context.current));
                    assert(self.pipelines == old(self).pipelines);
                    assert(self.navigation_context == old(self).navigation_context);
                }
                let ghost pre_grant = actions@;
                self.grant_paint_permission(next_tree, &mut actions);
                proof {
                    assert(rfind_pending(old(self).pending_frames@, pipeline_id) == index as int);
                    assert(fcg == old(self).pending_frames@[index as int]);
                    assert(next_tree@ == published_spec(
                        old(self).pending_frames@[index as int],
                        old(self).navigation_context.current,
                    ));
                    assert(actions@.subrange(0, pre_grant.len() as int) == pre_grant);
                    assert forall|j: int| 0 <= j < pre_grant.len() implies #[trigger] actions@[j]
                        == pre_grant[j] by {
                        assert(actions@.subrange(0, pre_grant.len() as int)[j] == actions@[j]);
                    }
                    if reg_get(old(self).pipelines@, next_tree@.pipeline)@.navigation_type == Some(
                        NavigationType::Load,
                    ) {
                        assert forall|x: u64| #[trigger] reg_has(self.pipelines@, x) <==> (reg_has(
                            old(self).pipelines@,
                            x,
                        ) && !(forest_tree_ids(old(self).navigation_context.next@).contains(x)
                            && !self.navigation_context.contains_spec(x))) by {
                            let a = reg_has(self.pipelines@, x);
                            let b = reg_has(old(self).pipelines@, x);
                            let c = forest_tree_ids(old(self).navigation_context.next@).contains(x);
                            let d = self.navigation_context.contains_spec(x);
                        }
                    }
                    let hitg = rfind_pending(old(self).pending_frames@, pipeline_id);
                    let fcp = old(self).pending_frames@[hitg];
                    assert(published_spec(fcp, old(self).navigation_context.current)
                        == next_tree@);
                }
            },
        }
        actions
    }
}


impl Constellation {
    /// What each message demands of the state before it can be handled; a
    /// violation of any clause beyond the id-counter bound is a protocol
    /// break by an upstream actor and is treated as fatal.
    pub open spec fn msg_ok(self, request: Msg) -> bool {
        match request {
            Msg::ExitMsg => true,
            Msg::InitLoadUrlMsg(_, _) => self.next_pipeline_id < u64::MAX,
            Msg::LoadUrlMsg(source_id, _, _) => self.load_url_ok(source_id),
            Msg::LoadIframeUrlMsg(_, source_id, _, _) => self.load_iframe_ok(source_id),
            Msg::NavigateMsg(direction) => self.navigate_ok(direction),
            Msg::RendererReadyMsg(pipeline_id) => self.renderer_ready_ok(pipeline_id),
            Msg::ResizedWindowBroadcast(_) => true,
        }
    }

    /// What each message leaves behind, per handler.
    pub open spec fn request_post(
        pre: Constellation,
        post: Constellation,
        actions: Seq<Action>,
        request: Msg,
    ) -> bool {
        match request {
            Msg::ExitMsg => {
                &&& post == pre
                &&& actions.len() == pre.pipelines@.len() + 2
                &&& (forall|k: int| 0 <= k < pre.pipelines@.len() ==> actions[k]
                    == (Action::ExitPipeline { id: pre.pipelines@[k].id }))
                &&& actions[pre.pipelines@.len() as int] is ExitImageCache
                &&& actions[pre.pipelines@.len() as int + 1] is ExitResourceTask
            },
            Msg::InitLoadUrlMsg(url, size) => Self::init_load_post(pre, post, actions, url, size),
            Msg::LoadUrlMsg(source_id, url, size) => Self::load_url_post(
                pre,
                post,
                actions,
                source_id,
                url,
                size,
            ),
            Msg::LoadIframeUrlMsg(url, source_id, subpage_id, size) => Self::load_iframe_post(
                pre,
                post,
                actions,
                url,
                source_id,
                subpage_id,
                size,
            ),
            Msg::NavigateMsg(direction) => Self::navigate_post(pre, post, actions, direction),
            Msg::RendererReadyMsg(pipeline_id) => Self::renderer_ready_post(
                pre,
                post,
                actions,
                pipeline_id,
            ),
            Msg::ResizedWindowBroadcast(size) => {
                &&& post == pre
                &&& actions == resize_actions(
                    forest_tree_ids(pre.navigation_context.previous@),
                    pre.navigation_context.current,
                    size,
                ) + resize_actions(
                    forest_tree_ids(pre.navigation_context.next@),
                    pre.navigation_context.current,
                    size,
                )
            },
        }
    }

    /// Handle one inbox message to completion.  Returns the outward messages
    /// to perform, in order, and whether the loop goes on: only `ExitMsg`
    /// stops it.
    pub fn handle_request(&mut self, request: Msg) -> (r: (Vec<Action>, bool))
        requires
            old(self).msg_ok(request),
        ensures
            Self::request_post(*old(self), *final(self), r.0@, request),
            r.1 == !(request is ExitMsg),
    {
        match request {
            Msg::ExitMsg => (self.handle_exit(), false),
            Msg::InitLoadUrlMsg(url, size) => (self.handle_init_load(url, size), true),
            Msg::LoadUrlMsg(source_id, url, size) => (
                self.handle_load_url(source_id, url, size),
                true,
            ),
            Msg::LoadIframeUrlMsg(url, source_id, subpage_id, size) => (
                self.handle_load_iframe_url(url, source_id, subpage_id, size),
                true,
            ),
            Msg::NavigateMsg(direction) => (self.handle_navigate(direction), true),
            Msg::RendererReadyMsg(pipeline_id) => (self.handle_renderer_ready(pipeline_id), true),
            Msg::ResizedWindowBroadcast(size) => (self.handle_resized_window(size), true),
        }
    }

    /// Law: the id counter never shrinks, so the ids that successive
    /// messages allocate are strictly increasing.
    pub proof fn lemma_ids_strictly_increasing(
        pre: Constellation,
        post: Constellation,
        actions: Seq<Action>,
        request: Msg,
    )
        requires
            Self::request_post(pre, post, actions, request),
        ensures
            post.next_pipeline_id >= pre.next_pipeline_id,
    {
    }

    /// Law: a Back followed by a Forward, with nothing in between, restores
    /// the prior current frame tree and both history stacks.
    pub proof fn lemma_forward_undoes_back(
        pre: Constellation,
        mid: Constellation,
        post: Constellation,
        a1: Seq<Action>,
        a2: Seq<Action>,
    )
        requires
            pre.navigation_context.previous@.len() > 0,
            pre.navigation_context.current is Some,
            Self::navigate_post(pre, mid, a1, NavigationDirection::Back),
            Self::navigate_post(mid, post, a2, NavigationDirection::Forward),
        ensures
            post.navigation_context.current == pre.navigation_context.current,
            post.navigation_context.previous@ == pre.navigation_context.previous@,
            post.navigation_context.next@ == pre.navigation_context.next@,
    {
        assert(mid.navigation_context.next@.len() > 0);
        assert(mid.navigation_context.next@.last() == pre.navigation_context.current.unwrap());
        assert(post.navigation_context.next@ =~= pre.navigation_context.next@);
        assert(post.navigation_context.previous@ =~= pre.navigation_context.previous@);
    }
}


/// A registry extended by one record keeps every id it had.
pub proof fn lemma_reg_has_grows(pre: Seq<Pipeline>, post: Seq<Pipeline>, x: u64)
    requires
        post.len() == pre.len() + 1,
        post.subrange(0, pre.len() as int) == pre,
        reg_has(pre, x),
    ensures
        reg_has(post, x),
{
    let i = choose|i: int| 0 <= i < pre.len() && pre[i].id == x;
    assert(post.subrange(0, pre.len() as int)[i] == post[i]);
    assert(post[i].id == x);
}

/// The ids of a single-node tree.
pub proof fn lemma_single_node_ids(n: FrameNode)
    requires
        n.children.len() == 0,
    ensures
        n.ids() == seq![n.pipeline],
        forall|x: u64| n.contains_id(x) <==> x == n.pipeline,
{
    assert(forest_ids(n.children) =~= Seq::<u64>::empty());
    assert(n.ids() =~= seq![n.pipeline]);
    assert forall|x: u64| n.contains_id(x) <==> x == n.pipeline by {
        if x == n.pipeline {
            assert(n.ids()[0] == x);
        }
        if n.contains_id(x) {
            let i = choose|i: int| 0 <= i < n.ids().len() && n.ids()[i] == x;
        }
    }
}

impl Constellation {
    /// Law: a bootstrap load keeps every pipeline of the history and the
    /// pending queue registered; the one tree it adds holds only the fresh,
    /// registered pipeline.
    pub proof fn lemma_init_load_keeps_registered(
        pre: Constellation,
        post: Constellation,
        actions: Seq<Action>,
        url: Url,
        size: WindowSize,
    )
        requires
            Self::init_load_post(pre, post, actions, url, size),
            pre.nav_registered(),
            pre.pending_registered(),
        ensures
            post.nav_registered(),
            post.pending_registered(),
    {
        let id = pre.next_pipeline_id;
        assert(post.pipelines@[pre.pipelines@.len() as int].id == id);
        assert(reg_has(post.pipelines@, id));
        assert forall|x: u64| post.navigation_context.contains_spec(x) implies reg_has(
            post.pipelines@,
            x,
        ) by {
            lemma_reg_has_grows(pre.pipelines@, post.pipelines@, x);
        }
        assert forall|k: int, x: u64|
            0 <= k < post.pending_frames@.len() && (#[trigger] post.pending_frames@[k].after@.contains_id(
                x,
            )) implies reg_has(post.pipelines@, x) by {
            if k < pre.pending_frames@.len() {
                assert(post.pending_frames@.subrange(0, pre.pending_frames@.len() as int)[k]
                    == post.pending_frames@[k]);
                assert(pre.pending_frames@[k].after@.contains_id(x));
                lemma_reg_has_grows(pre.pipelines@, post.pipelines@, x);
            } else {
                lemma_single_node_ids(post.pending_frames@.last().after@);
                assert(x == id);
            }
        }
    }

    /// Law: a top-level or frame navigation keeps every pipeline of the
    /// history and the pending queue registered.
    pub proof fn lemma_load_url_keeps_registered(
        pre: Constellation,
        post: Constellation,
        actions: Seq<Action>,
        source_id: u64,
        url: Url,
        size: WindowSize,
    )
        requires
            Self::load_url_post(pre, post, actions, source_id, url, size),
            pre.nav_registered(),
            pre.pending_registered(),
        ensures
            post.nav_registered(),
            post.pending_registered(),
    {
        let cur = pre.navigation_context.current.unwrap()@;
        if pending_covers(pre.pending_frames@, cur, source_id) {
        } else {
            let id = pre.next_pipeline_id;
            assert(post.pipelines@[pre.pipelines@.len() as int].id == id);
            assert(reg_has(post.pipelines@, id));
            assert forall|x: u64| post.navigation_context.contains_spec(x) implies reg_has(
                post.pipelines@,
                x,
            ) by {
                lemma_reg_has_grows(pre.pipelines@, post.pipelines@, x);
            }
            assert forall|k: int, x: u64|
                0 <= k < post.pending_frames@.len() && (
                #[trigger] post.pending_frames@[k].after@.contains_id(x)) implies reg_has(
                post.pipelines@,
                x,
            ) by {
                if k < pre.pending_frames@.len() {
                    assert(post.pending_frames@.subrange(0, pre.pending_frames@.len() as int)[k]
                        == post.pending_frames@[k]);
                    assert(pre.pending_frames@[k].after@.contains_id(x));
                    lemma_reg_has_grows(pre.pipelines@, post.pipelines@, x);
                } else {
                    lemma_single_node_ids(post.pending_frames@.last().after@);
                    assert(x == id);
                }
            }
        }
    }

    /// Law: an iframe load keeps every pipeline of the history and the
    /// pending queue registered: a tree gains at most the fresh pipeline,
    /// which is registered at once.
    pub proof fn lemma_load_iframe_keeps_registered(
        pre: Constellation,
        post: Constellation,
        actions: Seq<Action>,
        url: Url,
        source_id: u64,
        subpage_id: u64,
        size: WindowSize,
    )
        requires
            Self::load_iframe_post(pre, post, actions, url, source_id, subpage_id, size),
            pre.nav_registered(),
            pre.pending_registered(),
        ensures
            post.nav_registered(),
            post.pending_registered(),
    {
        let id = pre.next_pipeline_id;
        let child = FrameNode { pipeline: id, parent: Some(source_id), children: Seq::empty() };
        assert(post.pipelines@[pre.pipelines@.len() as int].id == id);
        assert(reg_has(post.pipelines@, id));
        let script = is_script_path(url@.path);
        assert forall|x: u64| post.navigation_context.contains_spec(x) implies reg_has(
            post.pipelines@,
            x,
        ) by {
            if !pre.navigation_context.contains_spec(x) {
                assert(!script);
                lemma_single_node_ids(child);
                if crate::navigation::forest_contains(post.navigation_context.previous@, x) {
                    let k = choose|k: int|
                        0 <= k < post.navigation_context.previous@.len() && (
                        #[trigger] post.navigation_context.previous@[k])@.contains_id(x);
                    crate::frame_tree::lemma_attach_ids(
                        pre.navigation_context.previous@[k]@,
                        source_id,
                        child,
                        x,
                    );
                    if pre.navigation_context.previous@[k]@.contains_id(x) {
                        assert(crate::navigation::forest_contains(
                            pre.navigation_context.previous@,
                            x,
                        ));
                    }
                    assert(x == id);
                } else if crate::navigation::forest_contains(post.navigation_context.next@, x) {
                    let k = choose|k: int|
                        0 <= k < post.navigation_context.next@.len() && (
                        #[trigger] post.navigation_context.next@[k])@.contains_id(x);
                    crate::frame_tree::lemma_attach_ids(
                        pre.navigation_context.next@[k]@,
                        source_id,
                        child,
                        x,
                    );
                    if pre.navigation_context.next@[k]@.contains_id(x) {
                        assert(crate::navigation::forest_contains(
                            pre.navigation_context.next@,
                            x,
                        ));
                    }
                    assert(x == id);
                } else {
                    assert(post.navigation_context.current is Some
                        && post.navigation_context.current.unwrap()@.contains_id(x));
                    crate::frame_tree::lemma_attach_ids(
                        pre.navigation_context.current.unwrap()@,
                        source_id,
                        child,
                        x,
                    );
                    assert(x == id);
                }
            } else {
                lemma_reg_has_grows(pre.pipelines@, post.pipelines@, x);
            }
        }
        assert forall|k: int, x: u64|
            0 <= k < post.pending_frames@.len() && (#[trigger] post.pending_frames@[k].after@.contains_id(
                x,
            )) implies reg_has(post.pipelines@, x) by {
            if script {
                assert(pre.pending_frames@[k].after@.contains_id(x));
                lemma_reg_has_grows(pre.pipelines@, post.pipelines@, x);
            } else {
                lemma_single_node_ids(child);
                crate::frame_tree::lemma_attach_ids(
                    pre.pending_frames@[k].after@,
                    source_id,
                    child,
                    x,
                );
                if pre.pending_frames@[k].after@.contains_id(x) {
                    lemma_reg_has_grows(pre.pipelines@, post.pipelines@, x);
                } else {
                    assert(x == id);
                }
            }
        }
    }

    /// Law: a history traversal keeps every pipeline of the history and the
    /// pending queue registered: it only moves trees between the stacks.
    pub proof fn lemma_navigate_keeps_registered(
        pre: Constellation,
        post: Constellation,
        actions: Seq<Action>,
        direction: NavigationDirection,
    )
        requires
            Self::navigate_post(pre, post, actions, direction),
            pre.navigation_context.current is Some,
            pre.nav_registered(),
            pre.pending_registered(),
        ensures
            post.nav_registered(),
            post.pending_registered(),
    {
        let empty = match direction {
            NavigationDirection::Forward => pre.navigation_context.next@.len() == 0,
            NavigationDirection::Back => pre.navigation_context.previous@.len() == 0,
        };
        if !empty {
            assert forall|x: u64| post.navigation_context.contains_spec(x) implies reg_has(
                post.pipelines@,
                x,
            ) by {
                assert(pre.navigation_context.contains_spec(x)) by {
                    Self::lemma_navigate_moves_trees(pre, post, actions, direction, x);
                }
            }
            assert forall|k: int, x: u64|
                0 <= k < post.pending_frames@.len() && (
                #[trigger] post.pending_frames@[k].after@.contains_id(x)) implies reg_has(
                post.pipelines@,
                x,
            ) by {
                assert(pre.pending_frames@[k].after@.contains_id(x));
            }
        }
    }

    /// Law, in part: a traversal only moves trees between the current page
    /// and the two stacks; a pipeline in the history afterwards was in the
    /// history before.
    pub proof fn lemma_navigate_moves_trees(
        pre: Constellation,
        post: Constellation,
        actions: Seq<Action>,
        direction: NavigationDirection,
        x: u64,
    )
        requires
            Self::navigate_post(pre, post, actions, direction),
            pre.navigation_context.current is Some,
            (match direction {
                NavigationDirection::Forward => pre.navigation_context.next@.len() > 0,
                NavigationDirection::Back => pre.navigation_context.previous@.len() > 0,
            }),
            post.navigation_context.contains_spec(x),
        ensures
            pre.navigation_context.contains_spec(x),
    {
        let pn = pre.navigation_context;
        let qn = post.navigation_context;
        match direction {
            NavigationDirection::Forward => {
                if crate::navigation::forest_contains(qn.previous@, x) {
                    let k = choose|k: int|
                        0 <= k < qn.previous@.len() && (#[trigger] qn.previous@[k])@.contains_id(x);
                    if k < pn.previous@.len() {
                        assert(pn.previous@[k]@.contains_id(x));
                    } else {
                        assert(qn.previous@[k] == pn.current.unwrap());
                    }
                } else if qn.current is Some && qn.current.unwrap()@.contains_id(x) {
                    assert(pn.next@[pn.next@.len() - 1] == pn.next@.last());
                    assert((#[trigger] pn.next@[pn.next@.len() - 1])@.contains_id(x));
                } else {
                    let k = choose|k: int|
                        0 <= k < qn.next@.len() && (#[trigger] qn.next@[k])@.contains_id(x);
                    assert(pn.next@[k] == qn.next@[k]);
                    assert((#[trigger] pn.next@[k])@.contains_id(x));
                }
            },
            NavigationDirection::Back => {
                if crate::navigation::forest_contains(qn.next@, x) {
                    let k = choose|k: int|
                        0 <= k < qn.next@.len() && (#[trigger] qn.next@[k])@.contains_id(x);
                    if k < pn.next@.len() {
                        assert(pn.next@[k]@.contains_id(x));
                    } else {
                        assert(qn.next@[k] == pn.current.unwrap());
                    }
                } else if qn.current is Some && qn.current.unwrap()@.contains_id(x) {
                    assert(pn.previous@[pn.previous@.len() - 1] == pn.previous@.last());
                    assert((#[trigger] pn.previous@[pn.previous@.len() - 1])@.contains_id(x));
                } else {
                    let k = choose|k: int|
                        0 <= k < qn.previous@.len() && (#[trigger] qn.previous@[k])@.contains_id(x);
                    assert(pn.previous@[k] == qn.previous@[k]);
                    assert((#[trigger] pn.previous@[k])@.contains_id(x));
                }
            },
        }
    }
}


/// A single node is a well-formed tree.
pub proof fn lemma_single_node_wf(n: FrameNode)
    requires
        n.children.len() == 0,
    ensures
        n.wf(),
{
    lemma_single_node_ids(n);
    assert(forest_links_ok(n.children, n.pipeline));
}

impl Constellation {
    /// Law, in part: the tree that a bootstrap or top-level load enqueues is
    /// well formed — it holds one pipeline, once, with no parent link to
    /// match.
    pub proof fn lemma_new_pending_tree_wf(post: Constellation)
        requires
            post.pending_frames@.len() > 0,
            post.pending_frames@.last().after@.children.len() == 0,
        ensures
            post.pending_frames@.last().after@.wf(),
    {
        lemma_single_node_wf(post.pending_frames@.last().after@);
    }
}


impl Constellation {
    /// Law: an iframe load keeps every frame tree well formed — in the
    /// history and in the pending queue alike — provided the fresh pipeline
    /// id is indeed fresh, which the id counter guarantees in any run.
    pub proof fn lemma_load_iframe_keeps_trees_wf(
        pre: Constellation,
        post: Constellation,
        actions: Seq<Action>,
        url: Url,
        source_id: u64,
        subpage_id: u64,
        size: WindowSize,
    )
        requires
            Self::load_iframe_post(pre, post, actions, url, source_id, subpage_id, size),
            !pre.navigation_context.contains_spec(pre.next_pipeline_id),
            !pending_contains(pre.pending_frames@, pre.next_pipeline_id),
            forall|k: int| 0 <= k < pre.navigation_context.previous@.len() ==> (
            #[trigger] pre.navigation_context.previous@[k])@.wf(),
            forall|k: int| 0 <= k < pre.navigation_context.next@.len() ==> (
            #[trigger] pre.navigation_context.next@[k])@.wf(),
            pre.navigation_context.current is Some
                ==> pre.navigation_context.current.unwrap()@.wf(),
            forall|k: int| 0 <= k < pre.pending_frames@.len() ==> (
            #[trigger] pre.pending_frames@[k]).after@.wf(),
        ensures
            forall|k: int| 0 <= k < post.navigation_context.previous@.len() ==> (
            #[trigger] post.navigation_context.previous@[k])@.wf(),
            forall|k: int| 0 <= k < post.navigation_context.next@.len() ==> (
            #[trigger] post.navigation_context.next@[k])@.wf(),
            post.navigation_context.current is Some
                ==> post.navigation_context.current.unwrap()@.wf(),
            forall|k: int| 0 <= k < post.pending_frames@.len() ==> (
            #[trigger] post.pending_frames@[k]).after@.wf(),
    {
        let id = pre.next_pipeline_id;
        let child = FrameNode { pipeline: id, parent: Some(source_id), children: Seq::empty() };
        let script = is_script_path(url@.path);
        if !script {
            assert forall|k: int| 0 <= k < post.navigation_context.previous@.len() implies (
            #[trigger] post.navigation_context.previous@[k])@.wf() by {
                assert(!pre.navigation_context.previous@[k]@.contains_id(id)) by {
                    if pre.navigation_context.previous@[k]@.contains_id(id) {
                        assert(crate::navigation::forest_contains(
                            pre.navigation_context.previous@,
                            id,
                        ));
                    }
                }
                crate::frame_tree::lemma_attach_preserves_wf(
                    pre.navigation_context.previous@[k]@,
                    source_id,
                    child,
                );
            }
            assert forall|k: int| 0 <= k < post.navigation_context.next@.len() implies (
            #[trigger] post.navigation_context.next@[k])@.wf() by {
                assert(!pre.navigation_context.next@[k]@.contains_id(id)) by {
                    if pre.navigation_context.next@[k]@.contains_id(id) {
                        assert(crate::navigation::forest_contains(
                            pre.navigation_context.next@,
                            id,
                        ));
                    }
                }
                crate::frame_tree::lemma_attach_preserves_wf(
                    pre.navigation_context.next@[k]@,
                    source_id,
                    child,
                );
            }
            if pre.navigation_context.current is Some {
                crate::frame_tree::lemma_attach_preserves_wf(
                    pre.navigation_context.current.unwrap()@,
                    source_id,
                    child,
                );
            }
            assert forall|k: int| 0 <= k < post.pending_frames@.len() implies (
            #[trigger] post.pending_frames@[k]).after@.wf() by {
                assert(!pre.pending_frames@[k].after@.contains_id(id)) by {
                    if (#[trigger] pre.pending_frames@[k]).after@.contains_id(id) {
                        assert(pending_contains(pre.pending_frames@, id));
                    }
                }
                crate::frame_tree::lemma_attach_preserves_wf(
                    pre.pending_frames@[k].after@,
                    source_id,
                    child,
                );
            }
        }
    }
}


impl Constellation {
    /// Law: completing a renderer-ready signal keeps every pipeline of the
    /// history and the pending queue registered, provided no pending tree
    /// shares a pipeline with the forward stack — the one place eviction
    /// looks.  In any run of the coordinator the stacks and the pending
    /// trees are disjoint, since a pending tree holds only pipelines that
    /// were never committed.
    pub proof fn lemma_renderer_ready_keeps_registered(
        pre: Constellation,
        post: Constellation,
        actions: Seq<Action>,
        pipeline_id: u64,
    )
        requires
            Self::renderer_ready_post(pre, post, actions, pipeline_id),
            pre.renderer_ready_ok(pipeline_id),
            forall|k: int, x: u64|
                0 <= k < pre.pending_frames@.len() && (#[trigger] pre.pending_frames@[k].after@.contains_id(
                    x,
                )) ==> !forest_tree_ids(pre.navigation_context.next@).contains(x),
        ensures
            post.nav_registered(),
            post.pending_registered(),
    {
        let cur_has = pre.navigation_context.current is Some
            && pre.navigation_context.current.unwrap()@.contains_id(pipeline_id);
        let hit = rfind_pending(pre.pending_frames@, pipeline_id);
        if cur_has || hit < 0 {
        } else {
            lemma_rfind_pending(pre.pending_frames@, pipeline_id);
            let fc = pre.pending_frames@[hit];
            let published = published_spec(fc, pre.navigation_context.current);
            let commit = reg_get(pre.pipelines@, published.pipeline)@.navigation_type == Some(
                NavigationType::Load,
            );
            let shrunk = pre.pending_frames@.update(hit, pre.pending_frames@.last()).drop_last();
            assert forall|k: int, x: u64|
                0 <= k < post.pending_frames@.len() && (
                #[trigger] post.pending_frames@[k].after@.contains_id(x)) implies reg_has(
                post.pipelines@,
                x,
            ) by {
                let j: int = if k == hit && hit < pre.pending_frames@.len() - 1 {
                    pre.pending_frames@.len() - 1
                } else {
                    k
                };
                assert(post.pending_frames@[k] == pre.pending_frames@[j]);
                assert(pre.pending_frames@[j].after@.contains_id(x));
                assert(reg_has(pre.pipelines@, x));
                if commit {
                    assert(!forest_tree_ids(pre.navigation_context.next@).contains(x));
                }
            }
            if !commit {
                assert(post.nav_registered());
            } else {
                assert forall|x: u64| post.navigation_context.contains_spec(x) implies reg_has(
                    post.pipelines@,
                    x,
                ) by {
                    assert(reg_has(pre.pipelines@, x)) by {
                        let qn = post.navigation_context;
                        let pn = pre.navigation_context;
                        if crate::navigation::forest_contains(qn.previous@, x) {
                            let k = choose|k: int|
                                0 <= k < qn.previous@.len() && (
                                #[trigger] qn.previous@[k])@.contains_id(x);
                            if k < pn.previous@.len() {
                                assert(pn.previous@[k]@.contains_id(x));
                                assert(pn.contains_spec(x));
                            } else {
                                assert(qn.previous@[k] == pn.current.unwrap());
                                assert(pn.contains_spec(x));
                            }
                        } else if qn.current is Some && qn.current.unwrap()@.contains_id(x) {
                            assert(published.contains_id(x));
                            if fc.after@.parent is None {
                                assert(fc.after@.contains_id(x));
                                assert(pre.pending_frames@[hit].after@.contains_id(x));
                            } else if fc.before is Some {
                                crate::frame_tree::lemma_replace_ids(
                                    pn.current.unwrap()@,
                                    fc.before.unwrap(),
                                    fc.after@,
                                    x,
                                );
                                if pn.current.unwrap()@.contains_id(x) {
                                    assert(pn.contains_spec(x));
                                } else {
                                    assert(pre.pending_frames@[hit].after@.contains_id(x));
                                }
                            } else {
                                crate::frame_tree::lemma_attach_ids(
                                    pn.current.unwrap()@,
                                    fc.after@.parent.unwrap(),
                                    fc.after@,
                                    x,
                                );
                                if pn.current.unwrap()@.contains_id(x) {
                                    assert(pn.contains_spec(x));
                                } else {
                                    assert(pre.pending_frames@[hit].after@.contains_id(x));
                                }
                            }
                        }
                    }
                    assert(!(forest_tree_ids(pre.navigation_context.next@).contains(x)
                        && !post.navigation_context.contains_spec(x)));
                }
            }
        }
    }
}

} // verus!
