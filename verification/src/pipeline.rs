//! Pipeline records.
//!
//! A pipeline is one document's worker trio (script, layout, renderer).  The
//! coordinator keeps one record per live pipeline in its registry; the record
//! is the single authority for the pipeline's mutable state (its URL and the
//! navigation type of its last load), which in the running system lives in a
//! handle shared by every frame-tree node that shows the document.

use vstd::prelude::*;
use crate::url::{Url, UrlView};

verus! {

/// How a load was issued: a fresh navigation, or a history traversal.
#[derive(Clone, Copy, PartialEq, Eq, Structural, Debug)]
pub enum NavigationType {
    Load,
    Navigate,
}

/// The coordinator's record of one live pipeline.
pub struct Pipeline {
    /// Identifier allocated by the coordinator; unique for the process.
    pub id: u64,
    /// Identifier of the `<iframe>` element in the parent document; `None`
    /// exactly for root documents.
    pub subpage_id: Option<u64>,
    /// URL of the last load issued to this pipeline; `None` until one is.
    pub url: Option<Url>,
    /// Navigation type of the last load; `None` until a load is issued.
    pub navigation_type: Option<NavigationType>,
    /// Identity of the script worker serving this pipeline.  A same-origin
    /// iframe child shares its source's worker; every other pipeline gets a
    /// fresh one, named by the pipeline's own id.
    pub script_worker: u64,
}

/// Mathematical image of a [`Pipeline`].
pub struct PipelineView {
    pub id: u64,
    pub subpage_id: Option<u64>,
    pub url: Option<UrlView>,
    pub navigation_type: Option<NavigationType>,
    pub script_worker: u64,
}

impl View for Pipeline {
    type V = PipelineView;

    open spec fn view(&self) -> PipelineView {
        PipelineView {
            id: self.id,
            subpage_id: self.subpage_id,
            url: match self.url {
                Some(u) => Some(u@),
                None => None,
            },
            navigation_type: self.navigation_type,
            script_worker: self.script_worker,
        }
    }
}

/// Some registry record carries `id`.
pub open spec fn reg_has(reg: Seq<Pipeline>, id: u64) -> bool {
    exists|i: int| 0 <= i < reg.len() && reg[i].id == id
}

/// The registry record carrying `id`; meaningful only under `reg_wf`.
pub open spec fn reg_get(reg: Seq<Pipeline>, id: u64) -> Pipeline {
    reg[choose|i: int| 0 <= i < reg.len() && reg[i].id == id]
}

/// A well-formed registry: no pipeline id appears twice.
pub open spec fn reg_wf(reg: Seq<Pipeline>) -> bool {
    forall|i: int, j: int| 0 <= i < j < reg.len() ==> reg[i].id != reg[j].id
}

/// In a well-formed registry, any record carrying `id` is the record that
/// `reg_get` names.
pub proof fn lemma_reg_get(reg: Seq<Pipeline>, id: u64, i: int)
    requires
        reg_wf(reg),
        0 <= i < reg.len(),
        reg[i].id == id,
    ensures
        reg_has(reg, id),
        reg_get(reg, id) == reg[i],
{
    let j = choose|j: int| 0 <= j < reg.len() && reg[j].id == id;
    if i != j {
        assert(reg[i].id != reg[j].id);
    }
}

/// A borrow of the registry record carrying `id`, when one exists.
pub fn find_pipeline(reg: &Vec<Pipeline>, id: u64) -> (r: Option<&Pipeline>)
    requires
        reg_wf(reg@),
    ensures
        match r {
            Some(p) => reg_has(reg@, id) && *p == reg_get(reg@, id),
            None => !reg_has(reg@, id),
        },
{
    let mut i: usize = 0;
    while i < reg.len()
        invariant
            i <= reg.len(),
            reg_wf(reg@),
            forall|k: int| 0 <= k < i ==> reg@[k].id != id,
        decreases reg.len() - i,
    {
        if reg[i].id == id {
            proof {
                lemma_reg_get(reg@, id, i as int);
            }
            return Some(&reg[i]);
        }
        i = i + 1;
    }
    None
}

impl Pipeline {
    /// A fresh record equal to this one.
    pub fn clone_pipeline(&self) -> (r: Pipeline)
        ensures
            r@ == self@,
    {
        Pipeline {
            id: self.id,
            subpage_id: self.subpage_id,
            url: match &self.url {
                Some(u) => Some(u.clone_url()),
                None => None,
            },
            navigation_type: self.navigation_type,
            script_worker: self.script_worker,
        }
    }
}

} // verus!
