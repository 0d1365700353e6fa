//! The download scheduler: decides what must be fetched for one (site,
//! group), runs the work under a bounded number of in-flight fetches, judges
//! each completed fetch against the published digest, and files every
//! outcome in the metadata document.
//!
//! The caller performs the fetches themselves and hands each outcome back;
//! every decision in between is made and proved here.

use crate::bytestr::{views, NEWLINE, TAB};
use crate::catalog::RemoteEntry;
use crate::checksum::{digest, digest_of};
use crate::metadata::{
    doc_wf, field_ok, find_rec, rec_key, FileState, MetaRecord, MetadataDocument,
};
use vstd::prelude::*;

verus! {

/// How often an entry may be attempted before it is given up.
pub const MAX_ATTEMPTS: u64 = 4;

/// How often a digest mismatch triggers an automatic re-fetch: once.
pub const MAX_MISMATCH_ATTEMPTS: u64 = 2;

/// An entry is settled when its record says so with the digest the catalog
/// currently publishes; such an entry is never fetched again.
pub open spec fn verified_current(
    doc: Seq<MetaRecord>,
    site: Seq<u8>,
    group: Seq<u8>,
    e: RemoteEntry,
) -> bool {
    match find_rec(doc, (site, group, e.remote_path@)) {
        Option::Some(r) => r.state == FileState::Verified && r.last_digest@ == e.expected_digest@,
        Option::None => false,
    }
}

/// The entries of a catalog snapshot that still need work, in catalog order.
pub open spec fn work_list(
    cat: Seq<RemoteEntry>,
    doc: Seq<MetaRecord>,
    site: Seq<u8>,
    group: Seq<u8>,
) -> Seq<RemoteEntry>
    decreases cat.len(),
{
    if cat.len() == 0 {
        Seq::empty()
    } else if !verified_current(doc, site, group, cat[0]) {
        seq![cat[0]] + work_list(cat.skip(1), doc, site, group)
    } else {
        work_list(cat.skip(1), doc, site, group)
    }
}

/// How many entries of the catalog are already settled.
pub open spec fn count_current(
    cat: Seq<RemoteEntry>,
    doc: Seq<MetaRecord>,
    site: Seq<u8>,
    group: Seq<u8>,
) -> int
    decreases cat.len(),
{
    if cat.len() == 0 {
        0
    } else {
        (if verified_current(doc, site, group, cat[0]) {
            1int
        } else {
            0int
        }) + count_current(cat.skip(1), doc, site, group)
    }
}

/// A run over a catalog with `k` of `n` entries already settled fetches
/// exactly the remaining `n - k`.
pub proof fn lemma_work_list_len(
    cat: Seq<RemoteEntry>,
    doc: Seq<MetaRecord>,
    site: Seq<u8>,
    group: Seq<u8>,
)
    ensures
        work_list(cat, doc, site, group).len() == cat.len() - count_current(cat, doc, site, group),
    decreases cat.len(),
{
    if cat.len() > 0 {
        lemma_work_list_len(cat.skip(1), doc, site, group);
    }
}

/// Against an unchanged catalog whose entries are all settled, a new run has
/// nothing to fetch: no settled entry is ever fetched again, and the
/// document comes out of the run untouched.
pub proof fn lemma_acquire_idempotent(
    cat: Seq<RemoteEntry>,
    doc: Seq<MetaRecord>,
    site: Seq<u8>,
    group: Seq<u8>,
)
    requires
        forall|i: int| 0 <= i < cat.len() ==> verified_current(doc, site, group, #[trigger] cat[i]),
    ensures
        work_list(cat, doc, site, group) == Seq::<RemoteEntry>::empty(),
    decreases cat.len(),
{
    if cat.len() > 0 {
        assert(verified_current(doc, site, group, cat[0]));
        assert forall|i: int| 0 <= i < cat.skip(1).len() implies verified_current(
            doc,
            site,
            group,
            #[trigger] cat.skip(1)[i],
        ) by {
            assert(cat.skip(1)[i] == cat[i + 1]);
        }
        lemma_acquire_idempotent(cat.skip(1), doc, site, group);
    }
}

/// Computes the work set: exactly the catalog entries not yet settled, in
/// catalog order.  Settled entries are left alone, which is what lets an
/// interrupted run resume without redundant work.
pub fn compute_work_set(
    cat: Vec<RemoteEntry>,
    doc: &MetadataDocument,
    site: &[u8],
    group: &[u8],
) -> (r: Vec<WorkItem>)
    ensures
        r@.map_values(|w: WorkItem| w.entry) == work_list(cat@, doc.records@, site@, group@),
        forall|i: int| 0 <= i < r@.len() ==> (#[trigger] r@[i]).attempts == 0,
{
    let ghost catv = cat@;
    let mut r: Vec<WorkItem> = Vec::new();
    let mut rest = cat;
    proof {
        assert(rest@ =~= catv.skip(0));
        assert(r@.map_values(|w: WorkItem| w.entry) + work_list(
            catv,
            doc.records@,
            site@,
            group@,
        ) =~= work_list(catv, doc.records@, site@, group@));
    }
    let mut i: usize = 0;
    let _n = rest.len();
    let ghost n = catv.len();
    while rest.len() > 0
        invariant
            i <= n,
            n == catv.len(),
            n <= usize::MAX,
            i + rest@.len() == n,
            rest@ == catv.skip(i as int),
            work_list(catv, doc.records@, site@, group@) == r@.map_values(|w: WorkItem| w.entry)
                + work_list(catv.skip(i as int), doc.records@, site@, group@),
            forall|t: int| 0 <= t < r@.len() ==> (#[trigger] r@[t]).attempts == 0,
        decreases rest@.len(),
    {
        let e = rest.remove(0);
        proof {
            assert(e == catv[i as int]);
            assert(catv.skip(i as int)[0] == catv[i as int]);
            assert(catv.skip(i as int).skip(1) =~= catv.skip(i as int + 1));
            assert(rest@ =~= catv.skip(i as int + 1));
        }
        let ghost pre = r@;
        let current = match doc.get(site, group, e.remote_path.as_slice()) {
            Some(rec) => {
                matches!(rec.state, FileState::Verified) && crate::bytestr::bytes_eq(
                    rec.last_digest.as_slice(),
                    e.expected_digest.as_slice(),
                )
            },
            None => false,
        };
        proof {
            assert(current == verified_current(doc.records@, site@, group@, e));
        }
        if !current {
            r.push(WorkItem { entry: e, attempts: 0 });
            proof {
                assert(r@.map_values(|w: WorkItem| w.entry) =~= pre.map_values(
                    |w: WorkItem| w.entry,
                ) + seq![e]);
                assert(pre.map_values(|w: WorkItem| w.entry) + (seq![e] + work_list(
                    catv.skip(i as int + 1),
                    doc.records@,
                    site@,
                    group@,
                )) =~= r@.map_values(|w: WorkItem| w.entry) + work_list(
                    catv.skip(i as int + 1),
                    doc.records@,
                    site@,
                    group@,
                ));
            }
        }
        i += 1;
    }
    proof {
        assert(catv.skip(i as int) =~= Seq::<RemoteEntry>::empty());
        assert(r@.map_values(|w: WorkItem| w.entry) + Seq::<RemoteEntry>::empty() =~= r@.map_values(
            |w: WorkItem| w.entry,
        ));
    }
    r
}

/// One unit of work: a catalog entry and how often it has been attempted.
pub struct WorkItem {
    pub entry: RemoteEntry,
    pub attempts: u64,
}

/// The scheduler for one (site, group) run.
pub struct Scheduler {
    pub site: Vec<u8>,
    pub group: Vec<u8>,
    /// The concurrency bound the caller configured.
    pub num_threads: usize,
    /// Work not yet handed out; the next item leaves from the end.
    pub queue: Vec<WorkItem>,
    /// Work handed out and not yet completed: the fetches in flight.
    pub in_flight: Vec<WorkItem>,
    /// How many items the run started with.
    pub total: u64,
    pub verified: u64,
    pub fetched: u64,
    pub mismatched: u64,
    pub failed: u64,
    /// The remote paths of the items that ended mismatched or failed.
    pub failed_paths: Vec<Vec<u8>>,
}

impl Scheduler {
    /// The scheduler's standing invariant.  In particular: never more
    /// fetches in flight than the configured bound, and every item is
    /// accounted for exactly once.
    pub open spec fn wf(&self) -> bool {
        &&& self.num_threads >= 1
        &&& self.in_flight@.len() <= self.num_threads
        &&& self.verified + self.fetched + self.mismatched + self.failed + self.queue@.len()
            + self.in_flight@.len() == self.total
        &&& field_ok(self.site@)
        &&& field_ok(self.group@)
        &&& forall|i: int|
            0 <= i < self.queue@.len() ==> item_ok(#[trigger] self.queue@[i])
                && self.queue@[i].attempts < MAX_ATTEMPTS
        &&& forall|i: int|
            0 <= i < self.in_flight@.len() ==> item_ok(#[trigger] self.in_flight@[i])
                && self.in_flight@[i].attempts <= MAX_ATTEMPTS
    }

    /// Starts a run over a computed work set.
    pub fn new(site: Vec<u8>, group: Vec<u8>, work: Vec<WorkItem>, num_threads: usize) -> (s:
        Scheduler)
        requires
            num_threads >= 1,
            work@.len() <= u64::MAX,
            field_ok(site@),
            field_ok(group@),
            forall|i: int|
                0 <= i < work@.len() ==> item_ok(#[trigger] work@[i]) && (#[trigger] work@[i]).attempts
                    == 0,
        ensures
            s.wf(),
            s.site == site,
            s.group == group,
            s.num_threads == num_threads,
            s.queue == work,
            s.in_flight@.len() == 0,
            s.total == work@.len(),
            s.verified == 0 && s.fetched == 0 && s.mismatched == 0 && s.failed == 0,
            s.failed_paths@.len() == 0,
    {
        let total = work.len() as u64;
        Scheduler {
            site,
            group,
            num_threads,
            queue: work,
            in_flight: Vec::new(),
            total,
            verified: 0,
            fetched: 0,
            mismatched: 0,
            failed: 0,
            failed_paths: Vec::new(),
        }
    }

    /// Hands the next item out, when there is one and the concurrency bound
    /// leaves room.  The returned index points into the in-flight list; the
    /// caller fetches that item's remote path.
    pub fn launch(&mut self) -> (r: Option<usize>)
        requires
            old(self).wf(),
        ensures
            final(self).wf(),
            r is Some <==> old(self).queue@.len() > 0 && old(self).in_flight@.len() < old(
                self,
            ).num_threads,
            r is None ==> *final(self) == *old(self),
            r matches Some(idx) ==> {
                &&& idx == old(self).in_flight@.len()
                &&& final(self).in_flight@ == old(self).in_flight@.push(
                    WorkItem {
                        entry: old(self).queue@.last().entry,
                        attempts: (old(self).queue@.last().attempts + 1) as u64,
                    },
                )
                &&& final(self).queue@ == old(self).queue@.drop_last()
                &&& final(self).in_flight@.len() <= final(self).num_threads
                &&& unchanged_counts(old(self), final(self))
            },
    {
        if self.queue.len() == 0 || self.in_flight.len() >= self.num_threads {
            return None;
        }
        let item = self.queue.pop().unwrap();
        let attempts = item.attempts + 1;
        let idx = self.in_flight.len();
        self.in_flight.push(WorkItem { entry: item.entry, attempts });
        Some(idx)
    }

    /// Whether every item of the run landed well: fetched or verified,
    /// nothing mismatched, nothing failed.  A taxonomy run that does not
    /// pass this is discarded as a whole: no partial dump is usable.
    pub fn run_clean(&self) -> (b: bool)
        requires
            self.wf(),
        ensures
            b == (self.verified + self.fetched == self.total),
    {
        self.verified + self.fetched == self.total
    }

    /// Whether the run is over: nothing queued, nothing in flight.
    pub fn done(&self) -> (b: bool)
        ensures
            b == (self.queue@.len() == 0 && self.in_flight@.len() == 0),
    {
        self.queue.len() == 0 && self.in_flight.len() == 0
    }
}

/// An item whose textual fields can be filed in the document.
pub open spec fn item_ok(w: WorkItem) -> bool {
    field_ok(w.entry.remote_path@) && field_ok(w.entry.expected_digest@)
}

/// The counters a transition does not touch.
pub open spec fn unchanged_counts(a: &Scheduler, b: &Scheduler) -> bool {
    &&& a.site == b.site
    &&& a.group == b.group
    &&& a.num_threads == b.num_threads
    &&& a.total == b.total
    &&& a.verified == b.verified
    &&& a.fetched == b.fetched
    &&& a.mismatched == b.mismatched
    &&& a.failed == b.failed
    &&& a.failed_paths == b.failed_paths
}

/// The document changed exactly by filing `rec` under its key.
pub open spec fn doc_upserted(pre: Seq<MetaRecord>, post: Seq<MetaRecord>, rec: MetaRecord) -> bool {
    &&& find_rec(post, rec_key(rec)) == Some(rec)
    &&& forall|k: (Seq<u8>, Seq<u8>, Seq<u8>)|
        k != rec_key(rec) ==> #[trigger] find_rec(post, k) == find_rec(pre, k)
}

impl Scheduler {
    /// The remote path of an in-flight item, for the caller to fetch.
    pub fn flight_path(&self, idx: usize) -> (r: &Vec<u8>)
        requires
            idx < self.in_flight@.len(),
        ensures
            r@ == self.in_flight@[idx as int].entry.remote_path@,
    {
        &self.in_flight[idx].entry.remote_path
    }

    /// Judges a completed fetch: the content is held to the digest the
    /// catalog published.  A match is filed as verified; an entry without a
    /// published digest is filed as fetched, never verified; a mismatch is
    /// re-fetched once and then surfaced, with its path listed.
    pub fn complete_fetch(&mut self, idx: usize, bytes: &[u8], doc: &mut MetadataDocument)
        requires
            old(self).wf(),
            idx < old(self).in_flight@.len(),
            doc_wf(old(doc).records@),
        ensures
            final(self).wf(),
            doc_wf(final(doc).records@),
            final(self).in_flight@ == old(self).in_flight@.remove(idx as int),
            final(self).site == old(self).site && final(self).group == old(self).group,
            final(self).num_threads == old(self).num_threads,
            final(self).total == old(self).total,
            ({
                let w = old(self).in_flight@[idx as int];
                let d = digest_of(bytes@);
                if w.entry.expected_digest@.len() == 0 {
                    // unverifiable: fetched, never verified
                    &&& final(self).fetched == old(self).fetched + 1
                    &&& final(self).verified == old(self).verified
                    &&& final(self).mismatched == old(self).mismatched
                    &&& final(self).failed == old(self).failed
                    &&& final(self).queue@ == old(self).queue@
                    &&& final(self).failed_paths@ == old(self).failed_paths@
                    &&& exists|r: MetaRecord|
                        {
                            &&& #[trigger] doc_upserted(old(doc).records@, final(doc).records@, r)
                            &&& rec_key(r) == (
                                old(self).site@,
                                old(self).group@,
                                w.entry.remote_path@,
                            )
                            &&& r.state == FileState::Fetched
                            &&& r.last_digest@ == d
                            &&& r.attempts == w.attempts
                        }
                } else if d == w.entry.expected_digest@ {
                    // the content matches what the archive published
                    &&& final(self).verified == old(self).verified + 1
                    &&& final(self).fetched == old(self).fetched
                    &&& final(self).mismatched == old(self).mismatched
                    &&& final(self).failed == old(self).failed
                    &&& final(self).queue@ == old(self).queue@
                    &&& final(self).failed_paths@ == old(self).failed_paths@
                    &&& exists|r: MetaRecord|
                        {
                            &&& #[trigger] doc_upserted(old(doc).records@, final(doc).records@, r)
                            &&& rec_key(r) == (
                                old(self).site@,
                                old(self).group@,
                                w.entry.remote_path@,
                            )
                            &&& r.state == FileState::Verified
                            &&& r.last_digest@ == w.entry.expected_digest@
                            &&& r.attempts == w.attempts
                        }
                } else if w.attempts < MAX_MISMATCH_ATTEMPTS {
                    // one automatic re-fetch after a mismatch
                    &&& final(self).verified == old(self).verified
                    &&& final(self).fetched == old(self).fetched
                    &&& final(self).mismatched == old(self).mismatched
                    &&& final(self).failed == old(self).failed
                    &&& final(self).queue@ == old(self).queue@.push(
                        old(self).in_flight@[idx as int],
                    )
                    &&& final(self).failed_paths@ == old(self).failed_paths@
                    &&& exists|r: MetaRecord|
                        {
                            &&& #[trigger] doc_upserted(old(doc).records@, final(doc).records@, r)
                            &&& rec_key(r) == (
                                old(self).site@,
                                old(self).group@,
                                w.entry.remote_path@,
                            )
                            &&& r.state == FileState::Mismatched
                            &&& r.last_digest@ == d
                            &&& r.attempts == w.attempts
                        }
                } else {
                    // surfaced: mismatched for good, path listed
                    &&& final(self).mismatched == old(self).mismatched + 1
                    &&& final(self).verified == old(self).verified
                    &&& final(self).fetched == old(self).fetched
                    &&& final(self).failed == old(self).failed
                    &&& final(self).queue@ == old(self).queue@
                    &&& views(final(self).failed_paths@) == views(old(self).failed_paths@).push(
                        w.entry.remote_path@,
                    )
                    &&& exists|r: MetaRecord|
                        {
                            &&& #[trigger] doc_upserted(old(doc).records@, final(doc).records@, r)
                            &&& rec_key(r) == (
                                old(self).site@,
                                old(self).group@,
                                w.entry.remote_path@,
                            )
                            &&& r.state == FileState::Mismatched
                            &&& r.last_digest@ == d
                            &&& r.attempts == w.attempts
                        }
                }
            }),
    {
        let w = self.in_flight.remove(idx);
        proof {
            assert(w == old(self).in_flight@[idx as int]);
            assert forall|t: int| 0 <= t < self.in_flight@.len() implies item_ok(
                #[trigger] self.in_flight@[t],
            ) && self.in_flight@[t].attempts <= MAX_ATTEMPTS by {
                if t < idx {
                    assert(self.in_flight@[t] == old(self).in_flight@[t]);
                } else {
                    assert(self.in_flight@[t] == old(self).in_flight@[t + 1]);
                }
            }
        }
        let d = digest(bytes);
        proof {
            crate::checksum::lemma_hex_no_low(crate::checksum::md5_of(bytes@), TAB);
            crate::checksum::lemma_hex_no_low(crate::checksum::md5_of(bytes@), NEWLINE);
        }
        let site = vstd::slice::slice_to_vec(self.site.as_slice());
        let group = vstd::slice::slice_to_vec(self.group.as_slice());
        if w.entry.expected_digest.len() == 0 {
            let rec = MetaRecord {
                site,
                group,
                remote_path: w.entry.remote_path,
                state: FileState::Fetched,
                last_digest: d,
                attempts: w.attempts,
            };
            let ghost filed = rec;
            doc.upsert(rec);
            proof {
                assert(doc_upserted(old(doc).records@, doc.records@, filed));
            }
            self.fetched = self.fetched + 1;
        } else if crate::bytestr::bytes_eq(d.as_slice(), w.entry.expected_digest.as_slice()) {
            let rec = MetaRecord {
                site,
                group,
                remote_path: w.entry.remote_path,
                state: FileState::Verified,
                last_digest: d,
                attempts: w.attempts,
            };
            let ghost filed = rec;
            doc.upsert(rec);
            proof {
                assert(doc_upserted(old(doc).records@, doc.records@, filed));
            }
            self.verified = self.verified + 1;
        } else if w.attempts < MAX_MISMATCH_ATTEMPTS {
            let path_copy = vstd::slice::slice_to_vec(w.entry.remote_path.as_slice());
            let rec = MetaRecord {
                site,
                group,
                remote_path: path_copy,
                state: FileState::Mismatched,
                last_digest: d,
                attempts: w.attempts,
            };
            let ghost filed = rec;
            doc.upsert(rec);
            proof {
                assert(doc_upserted(old(doc).records@, doc.records@, filed));
            }
            self.queue.push(w);
        } else {
            let path_copy = vstd::slice::slice_to_vec(w.entry.remote_path.as_slice());
            let rec = MetaRecord {
                site,
                group,
                remote_path: w.entry.remote_path,
                state: FileState::Mismatched,
                last_digest: d,
                attempts: w.attempts,
            };
            let ghost filed = rec;
            doc.upsert(rec);
            proof {
                assert(doc_upserted(old(doc).records@, doc.records@, filed));
            }
            self.mismatched = self.mismatched + 1;
            let ghost fp_pre = self.failed_paths@;
            self.failed_paths.push(path_copy);
            proof {
                assert(views(self.failed_paths@) =~= views(fp_pre).push(path_copy@));
            }
        }
    }

    /// Judges a failed fetch attempt (a transport or local write failure):
    /// transient until the attempt ceiling, then surfaced as failed with the
    /// path listed.
    pub fn complete_error(&mut self, idx: usize, doc: &mut MetadataDocument)
        requires
            old(self).wf(),
            idx < old(self).in_flight@.len(),
            doc_wf(old(doc).records@),
        ensures
            final(self).wf(),
            doc_wf(final(doc).records@),
            final(self).in_flight@ == old(self).in_flight@.remove(idx as int),
            final(self).site == old(self).site && final(self).group == old(self).group,
            final(self).num_threads == old(self).num_threads,
            final(self).total == old(self).total,
            ({
                let w = old(self).in_flight@[idx as int];
                if w.attempts < MAX_ATTEMPTS {
                    // transient: the item goes back in the queue
                    &&& final(self).verified == old(self).verified
                    &&& final(self).fetched == old(self).fetched
                    &&& final(self).mismatched == old(self).mismatched
                    &&& final(self).failed == old(self).failed
                    &&& final(self).queue@ == old(self).queue@.push(
                        old(self).in_flight@[idx as int],
                    )
                    &&& final(self).failed_paths@ == old(self).failed_paths@
                    &&& exists|r: MetaRecord|
                        {
                            &&& #[trigger] doc_upserted(old(doc).records@, final(doc).records@, r)
                            &&& rec_key(r) == (
                                old(self).site@,
                                old(self).group@,
                                w.entry.remote_path@,
                            )
                            &&& r.state == FileState::Fetching
                            &&& r.attempts == w.attempts
                        }
                } else {
                    // attempts exhausted: failed for good, path listed
                    &&& final(self).failed == old(self).failed + 1
                    &&& final(self).verified == old(self).verified
                    &&& final(self).fetched == old(self).fetched
                    &&& final(self).mismatched == old(self).mismatched
                    &&& final(self).queue@ == old(self).queue@
                    &&& views(final(self).failed_paths@) == views(old(self).failed_paths@).push(
                        w.entry.remote_path@,
                    )
                    &&& exists|r: MetaRecord|
                        {
                            &&& #[trigger] doc_upserted(old(doc).records@, final(doc).records@, r)
                            &&& rec_key(r) == (
                                old(self).site@,
                                old(self).group@,
                                w.entry.remote_path@,
                            )
                            &&& r.state == FileState::Failed
                            &&& r.attempts == w.attempts
                        }
                }
            }),
    {
        let w = self.in_flight.remove(idx);
        proof {
            assert(w == old(self).in_flight@[idx as int]);
            assert forall|t: int| 0 <= t < self.in_flight@.len() implies item_ok(
                #[trigger] self.in_flight@[t],
            ) && self.in_flight@[t].attempts <= MAX_ATTEMPTS by {
                if t < idx {
                    assert(self.in_flight@[t] == old(self).in_flight@[t]);
                } else {
                    assert(self.in_flight@[t] == old(self).in_flight@[t + 1]);
                }
            }
        }
        let site = vstd::slice::slice_to_vec(self.site.as_slice());
        let group = vstd::slice::slice_to_vec(self.group.as_slice());
        if w.attempts < MAX_ATTEMPTS {
            let path_copy = vstd::slice::slice_to_vec(w.entry.remote_path.as_slice());
            let rec = MetaRecord {
                site,
                group,
                remote_path: path_copy,
                state: FileState::Fetching,
                last_digest: Vec::new(),
                attempts: w.attempts,
            };
            let ghost filed = rec;
            doc.upsert(rec);
            proof {
                assert(doc_upserted(old(doc).records@, doc.records@, filed));
            }
            self.queue.push(w);
        } else {
            let path_copy = vstd::slice::slice_to_vec(w.entry.remote_path.as_slice());
            let rec = MetaRecord {
                site,
                group,
                remote_path: w.entry.remote_path,
                state: FileState::Failed,
                last_digest: Vec::new(),
                attempts: w.attempts,
            };
            let ghost filed = rec;
            doc.upsert(rec);
            proof {
                assert(doc_upserted(old(doc).records@, doc.records@, filed));
            }
            self.failed = self.failed + 1;
            let ghost fp_pre = self.failed_paths@;
            self.failed_paths.push(path_copy);
            proof {
                assert(views(self.failed_paths@) =~= views(fp_pre).push(path_copy@));
            }
        }
    }
}

/// Filing a verified record with the currently published digest settles the
/// entry: the next run's work set will leave it alone.
pub proof fn lemma_verified_entry_settled(
    pre: Seq<MetaRecord>,
    post: Seq<MetaRecord>,
    site: Seq<u8>,
    group: Seq<u8>,
    e: RemoteEntry,
    r: MetaRecord,
)
    requires
        doc_upserted(pre, post, r),
        rec_key(r) == (site, group, e.remote_path@),
        r.state == FileState::Verified,
        r.last_digest@ == e.expected_digest@,
    ensures
        verified_current(post, site, group, e),
{
}

/// Filing anything but a verified record leaves the entry unsettled: a file
/// whose content did not match is fetched again on the next run, never
/// silently accepted.
pub proof fn lemma_unverified_entry_not_settled(
    pre: Seq<MetaRecord>,
    post: Seq<MetaRecord>,
    site: Seq<u8>,
    group: Seq<u8>,
    e: RemoteEntry,
    r: MetaRecord,
)
    requires
        doc_upserted(pre, post, r),
        rec_key(r) == (site, group, e.remote_path@),
        r.state != FileState::Verified,
    ensures
        !verified_current(post, site, group, e),
{
}

/// The concurrency bound holds in every reachable scheduler state: with a
/// configured width of `num_threads`, never more fetches are in flight.
pub proof fn lemma_concurrency_bound(s: &Scheduler)
    requires
        s.wf(),
    ensures
        s.in_flight@.len() <= s.num_threads,
{
}

/// The delay before retrying a failed attempt: bounded exponential backoff.
pub fn backoff_ms(attempt: u64) -> (r: u64)
    ensures
        r == if attempt < 6 {
            (250u64 << attempt) as u64
        } else {
            16000u64
        },
{
    if attempt < 6 {
        250u64 << attempt
    } else {
        16000
    }
}

} // verus!
