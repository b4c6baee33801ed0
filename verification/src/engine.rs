//! The update cycle's decisions: which patches to apply and in what order,
//! which status event to emit at each step, and how the cache advances. The
//! host performs the downloads and the file writes and drives this state.

use crate::patch_list::{
    cache_wf, clone_patch, filter_unapplied_patches, patch_models, record_applied, sort_patches,
    sorted_by_index, spec_record, spec_sort, LocalCache, PatchInfo, PatchInfoModel,
};
use vstd::prelude::*;

verus! {

/// One status event of the engine, as shown to the host.
pub struct PatchingStatus {
    pub status: String,
    pub current: Option<u32>,
    pub total: Option<u32>,
    pub filename: Option<String>,
    pub error: Option<String>,
}

/// The `idle` event.
pub fn status_idle() -> (r: PatchingStatus)
    ensures
        r.status@ == "idle"@,
        r.current is None && r.total is None && r.filename is None && r.error is None,
{
    PatchingStatus {
        status: String::from_str("idle"),
        current: None,
        total: None,
        filename: None,
        error: None,
    }
}

/// The `checking` event.
pub fn status_checking() -> (r: PatchingStatus)
    ensures
        r.status@ == "checking"@,
        r.current is None && r.total is None && r.filename is None && r.error is None,
{
    PatchingStatus {
        status: String::from_str("checking"),
        current: None,
        total: None,
        filename: None,
        error: None,
    }
}

/// The `ready` event.
pub fn status_ready() -> (r: PatchingStatus)
    ensures
        r.status@ == "ready"@,
        r.current is None && r.total is None && r.filename is None && r.error is None,
{
    PatchingStatus {
        status: String::from_str("ready"),
        current: None,
        total: None,
        filename: None,
        error: None,
    }
}

/// The `error` event, carrying the message.
pub fn status_error(message: String) -> (r: PatchingStatus)
    ensures
        r.status@ == "error"@,
        r.error matches Some(m) && m@ == message@,
        r.current is None && r.total is None && r.filename is None,
{
    PatchingStatus {
        status: String::from_str("error"),
        current: None,
        total: None,
        filename: None,
        error: Some(message),
    }
}

/// The error message for a failed step: the host's configured message if
/// there is one, else the prefix followed by the raw error.
pub fn error_message(configured: &Option<String>, prefix: &str, raw: &str) -> (r: String)
    ensures
        match configured {
            Some(m) => r@ == m@,
            None => r@ == prefix@ + raw@,
        },
{
    match configured {
        Some(m) => m.clone(),
        None => {
            let mut s = prefix.to_owned();
            s.append(raw);
            s
        },
    }
}

/// The downloader's retry policy: after failed attempt number `attempt`
/// (1-based), back off linearly — `attempt` seconds — and try again, until
/// `max_retries` attempts have been spent; then give up.
pub fn retry_delay(attempt: u32, max_retries: u32) -> (r: Option<u64>)
    ensures
        attempt < max_retries <==> r == Some(attempt as u64),
        attempt >= max_retries <==> r is None,
{
    if attempt < max_retries {
        Some(attempt as u64)
    } else {
        None
    }
}

/// One update cycle: the queue of patches still to apply, in ascending index
/// order, the position reached, and the cache as recorded so far.
pub struct UpdateCycle {
    pub queue: Vec<PatchInfo>,
    pub pos: usize,
    pub cache: LocalCache,
}

impl UpdateCycle {
    /// Well-formedness: the position is within the queue and the cache keeps
    /// its invariant.
    pub open spec fn wf(&self) -> bool {
        &&& self.pos <= self.queue@.len()
        &&& cache_wf(self.cache@)
    }

    /// Plans a cycle: the manifest stably sorted by index, with the records
    /// already in the cache's applied set dropped; nothing applied yet.
    pub fn begin(manifest: Vec<PatchInfo>, cache: LocalCache) -> (r: UpdateCycle)
        requires
            cache_wf(cache@),
        ensures
            r.wf(),
            r.pos == 0,
            r.cache@ == cache@,
            patch_models(r.queue@) == spec_sort(patch_models(manifest@)).filter(
                |m: PatchInfoModel| !cache@.installed_patches.contains(m.index),
            ),
            sorted_by_index(patch_models(r.queue@)),
            manifest@.len() == 0 ==> r.queue@.len() == 0,
    {
        let ghost mm = patch_models(manifest@);
        let sorted = sort_patches(manifest);
        let queue = filter_unapplied_patches(&sorted, &cache);
        proof {
            crate::patch_list::lemma_sort_permutes(mm);
            lemma_filter_sorted(
                patch_models(sorted@),
                |m: PatchInfoModel| !cache@.installed_patches.contains(m.index),
            );
            if mm.len() == 0 {
                assert(spec_sort(mm) =~= Seq::<PatchInfoModel>::empty());
                reveal(Seq::filter);
            }
        }
        UpdateCycle { queue, pos: 0, cache }
    }

    /// How many patches the cycle applies.
    pub fn total(&self) -> (n: usize)
        ensures
            n == self.queue@.len(),
    {
        self.queue.len()
    }

    /// Whether every queued patch has been applied.
    pub fn is_done(&self) -> (r: bool)
        requires
            self.wf(),
        ensures
            r == (self.pos == self.queue@.len()),
    {
        self.pos == self.queue.len()
    }

    /// The patch to apply next.
    pub fn current(&self) -> (r: &PatchInfo)
        requires
            self.wf(),
            self.pos < self.queue@.len(),
        ensures
            r@ == patch_models(self.queue@)[self.pos as int],
    {
        &self.queue[self.pos]
    }

    /// The `downloading` event for the patch to apply next: 1-based position,
    /// queue length, and the patch's filename.
    pub fn downloading_status(&self) -> (r: PatchingStatus)
        requires
            self.wf(),
            self.pos < self.queue@.len(),
        ensures
            r.status@ == "downloading"@,
            r.current == Some((self.pos + 1) as u32),
            r.total == Some(self.queue@.len() as u32),
            r.filename matches Some(f) && f@ == patch_models(self.queue@)[self.pos as int].filename,
            r.error is None,
    {
        let n = self.queue.len();
        PatchingStatus {
            status: String::from_str("downloading"),
            current: Some((self.pos + 1) as u32),
            total: Some(n as u32),
            filename: Some(self.queue[self.pos].filename.clone()),
            error: None,
        }
    }

    /// The `patching` event for the patch to apply next.
    pub fn patching_status(&self) -> (r: PatchingStatus)
        requires
            self.wf(),
            self.pos < self.queue@.len(),
        ensures
            r.status@ == "patching"@,
            r.current == Some((self.pos + 1) as u32),
            r.total == Some(self.queue@.len() as u32),
            r.filename matches Some(f) && f@ == patch_models(self.queue@)[self.pos as int].filename,
            r.error is None,
    {
        let n = self.queue.len();
        PatchingStatus {
            status: String::from_str("patching"),
            current: Some((self.pos + 1) as u32),
            total: Some(n as u32),
            filename: Some(self.queue[self.pos].filename.clone()),
            error: None,
        }
    }

    /// Records that the current patch fully applied: its index joins the
    /// cache and the cycle advances. The host persists the cache before
    /// moving on, so a crash reattempts only unrecorded patches.
    pub fn complete_current(&mut self)
        requires
            old(self).wf(),
            old(self).pos < old(self).queue@.len(),
        ensures
            final(self).wf(),
            final(self).queue@ == old(self).queue@,
            final(self).pos == old(self).pos + 1,
            final(self).cache@ == spec_record(
                old(self).cache@,
                patch_models(old(self).queue@)[old(self).pos as int].index,
            ),
            final(self).cache@.installed_patches.contains(
                patch_models(old(self).queue@)[old(self).pos as int].index,
            ),
            final(self).cache@.last_patch_id >= patch_models(old(self).queue@)[old(
                self,
            ).pos as int].index,
    {
        let n = self.queue.len();
        proof {
            assert(self.pos < n);
        }
        let idx = self.queue[self.pos].index;
        record_applied(&mut self.cache, idx);
        self.pos = self.pos + 1;
    }
}

/// Filtering keeps a list sorted by index.
pub proof fn lemma_filter_sorted(s: Seq<PatchInfoModel>, pred: spec_fn(PatchInfoModel) -> bool)
    requires
        sorted_by_index(s),
    ensures
        sorted_by_index(s.filter(pred)),
    decreases s.len(),
{
    reveal(Seq::filter);
    if s.len() == 0 {
    } else {
        assert(sorted_by_index(s.drop_last()));
        lemma_filter_sorted(s.drop_last(), pred);
        let f = s.drop_last().filter(pred);
        if pred(s.last()) {
            assert(s.filter(pred) == f.push(s.last()));
            assert forall|i: int, j: int|
                0 <= i < j < f.push(s.last()).len() implies (#[trigger] f.push(s.last())[i]).index
                <= (#[trigger] f.push(s.last())[j]).index by {
                if j == f.len() {
                    assert(f.push(s.last())[i] == f[i]);
                    lemma_filter_member_bound(s.drop_last(), pred, i, s.last().index);
                } else {
                    assert(f.push(s.last())[i] == f[i]);
                    assert(f.push(s.last())[j] == f[j]);
                }
            }
        }
    }
}

/// Every member of a filtered sorted list whose elements are all bounded by
/// `bound` stays bounded.
proof fn lemma_filter_member_bound(
    s: Seq<PatchInfoModel>,
    pred: spec_fn(PatchInfoModel) -> bool,
    i: int,
    bound: u32,
)
    requires
        forall|k: int| 0 <= k < s.len() ==> (#[trigger] s[k]).index <= bound,
        0 <= i < s.filter(pred).len(),
    ensures
        s.filter(pred)[i].index <= bound,
    decreases s.len(),
{
    reveal(Seq::filter);
    if s.len() == 0 {
    } else {
        let f = s.drop_last().filter(pred);
        assert(forall|k: int|
            0 <= k < s.drop_last().len() ==> (#[trigger] s.drop_last()[k]).index <= bound);
        if pred(s.last()) {
            if i < f.len() {
                lemma_filter_member_bound(s.drop_last(), pred, i, bound);
            } else {
                assert(s.filter(pred)[i] == s.last());
                assert(s[s.len() - 1].index <= bound);
            }
        } else {
            lemma_filter_member_bound(s.drop_last(), pred, i, bound);
        }
    }
}

} // verus!
