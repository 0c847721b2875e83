use vstd::prelude::*;
use crate::blend::{blend, result_matches, LightingResult};
use crate::sample::{same_corners, LightingSample};

verus! {

/// One live registry entry: the caller's handle, the opaque external
/// reference it stands for, the corner snapshot taken at enqueue time, and
/// the blended result once the compute pass has worked the entry.
#[verifier::reject_recursive_types(R)]
pub struct RegistryEntry<R> {
    pub handle: u32,
    pub external_ref: R,
    pub sample: LightingSample,
    pub result: Option<LightingResult>,
}

/// One external write handed out by the flush pass: the caller applies the
/// result to the external reference under the given handle.
#[verifier::reject_recursive_types(R)]
pub struct FlushWrite<R> {
    pub handle: u32,
    pub external_ref: R,
    pub result: LightingResult,
}

/// The handle-keyed worklist. `R` is the host's opaque external reference
/// type; the registry stores each reference untouched and hands it back at
/// flush time. Keeping the reference and the cached computation state in
/// one entry makes the two handle-keyed mappings agree by construction:
/// a handle has a reference exactly while it has cached state.
#[verifier::reject_recursive_types(R)]
pub struct Registry<R> {
    entries: Vec<RegistryEntry<R>>,
}

/// No two entries share a handle.
pub open spec fn handles_distinct<R>(s: Seq<RegistryEntry<R>>) -> bool {
    forall|i: int, j: int| 0 <= i < j < s.len() ==> s[i].handle != s[j].handle
}

/// Some entry carries the given handle.
pub open spec fn seq_has_handle<R>(s: Seq<RegistryEntry<R>>, h: u32) -> bool {
    exists|i: int| 0 <= i < s.len() && s[i].handle == h
}

/// The position of the entry carrying the given handle (meaningful only
/// when one exists).
pub open spec fn index_of_handle<R>(s: Seq<RegistryEntry<R>>, h: u32) -> int {
    choose|i: int| 0 <= i < s.len() && s[i].handle == h
}

/// The handle-keyed map a sequence of entries stands for.
pub open spec fn map_of<R>(s: Seq<RegistryEntry<R>>) -> Map<u32, RegistryEntry<R>> {
    Map::new(|h: u32| seq_has_handle(s, h), |h: u32| s[index_of_handle(s, h)])
}

/// How the compute pass transforms one entry: identity on handle, external
/// reference and corner snapshot; an already completed entry is untouched;
/// a pending one is completed with a result matching its snapshot.
pub open spec fn entry_computed<R>(before: RegistryEntry<R>, after: RegistryEntry<R>) -> bool {
    &&& after.handle == before.handle
    &&& after.external_ref == before.external_ref
    &&& same_corners(after.sample, before.sample)
    &&& after.sample.completed
    &&& if before.sample.completed {
        after == before
    } else {
        match after.result {
            Some(res) => result_matches(before.sample, res),
            None => false,
        }
    }
}

/// The compute pass over the whole registry: the same handles live before
/// and after, and every entry has been worked.
pub open spec fn computed_rel<R>(
    before: Map<u32, RegistryEntry<R>>,
    after: Map<u32, RegistryEntry<R>>,
) -> bool {
    &&& after.dom() == before.dom()
    &&& forall|h: u32| #[trigger] before.dom().contains(h) ==> entry_computed(before[h], after[h])
}

/// A write the flush pass may hand out from a given registry state: its
/// handle was live and completed there, and it carries that entry's
/// external reference and result.
pub open spec fn write_from<R>(before: Map<u32, RegistryEntry<R>>, w: FlushWrite<R>) -> bool {
    &&& before.dom().contains(w.handle)
    &&& before[w.handle].sample.completed
    &&& before[w.handle].external_ref == w.external_ref
    &&& before[w.handle].result == Some(w.result)
}

/// Some write carries the given handle.
pub open spec fn seq_has_write<R>(writes: Seq<FlushWrite<R>>, h: u32) -> bool {
    exists|i: int| 0 <= i < writes.len() && writes[i].handle == h
}

/// The flush pass over the whole registry: the writes list exactly the
/// completed entries, one write per handle, each carrying that entry's
/// external reference and result; the registry keeps exactly the entries
/// that were not completed, unchanged.
pub open spec fn flush_rel<R>(
    before: Map<u32, RegistryEntry<R>>,
    after: Map<u32, RegistryEntry<R>>,
    writes: Seq<FlushWrite<R>>,
) -> bool {
    &&& forall|h: u32|
        #[trigger] after.dom().contains(h) <==> (before.dom().contains(h)
            && !before[h].sample.completed)
    &&& forall|h: u32| #[trigger] after.dom().contains(h) ==> after[h] == before[h]
    &&& forall|i: int, j: int| 0 <= i < j < writes.len() ==> writes[i].handle != writes[j].handle
    &&& forall|i: int| 0 <= i < writes.len() ==> write_from(before, #[trigger] writes[i])
    &&& forall|h: u32|
        #[trigger] before.dom().contains(h) && before[h].sample.completed ==> seq_has_write(
            writes,
            h,
        )
}

/// Per-entry invariant: the result slot is filled exactly when the sample
/// is completed, and then matches the snapshot.
pub open spec fn entry_wf<R>(e: RegistryEntry<R>) -> bool {
    &&& (e.result is Some <==> e.sample.completed)
    &&& (match e.result {
        Some(res) => result_matches(e.sample, res),
        None => true,
    })
}

impl<R> Registry<R> {
    /// Entries keyed by handle: the registry's abstract contents.
    pub closed spec fn contents(self) -> Map<u32, RegistryEntry<R>> {
        map_of(self.entries@)
    }

    /// Well-formed: one entry per handle, each entry's result slot tied to
    /// its completion flag.
    pub closed spec fn wf(self) -> bool {
        &&& handles_distinct(self.entries@)
        &&& forall|i: int| 0 <= i < self.entries@.len() ==> entry_wf(#[trigger] self.entries@[i])
    }

    /// An empty registry.
    pub fn new() -> (r: Registry<R>)
        ensures
            r.wf(),
            r.contents() == Map::<u32, RegistryEntry<R>>::empty(),
    {
        let r = Registry { entries: Vec::new() };
        proof {
            assert(r.contents() =~= Map::<u32, RegistryEntry<R>>::empty());
        }
        r
    }

    /// Number of live (queued or computed, not yet flushed) entries.
    pub fn size(&self) -> (n: usize)
        requires
            self.wf(),
        ensures
            n == self.contents().dom().len(),
    {
        proof {
            lemma_contents_card(self.entries@);
        }
        self.entries.len()
    }

    fn find_index(&self, handle: u32) -> (r: Option<usize>)
        ensures
            match r {
                Some(i) => i < self.entries@.len() && self.entries@[i as int].handle == handle,
                None => !seq_has_handle(self.entries@, handle),
            },
    {
        let mut i: usize = 0;
        while i < self.entries.len()
            invariant
                i <= self.entries@.len(),
                forall|j: int| 0 <= j < i ==> (#[trigger] self.entries@[j]).handle != handle,
            decreases self.entries@.len() - i,
        {
            if self.entries[i].handle == handle {
                return Some(i);
            }
            i = i + 1;
        }
        None
    }

    /// Inserts or overwrites the entry for `handle` with a fresh, uncomputed
    /// snapshot. Overwriting is not an error: any prior pending or completed
    /// work under the handle is silently discarded.
    pub fn enqueue(&mut self, handle: u32, external_ref: R, snapshot: LightingSample)
        requires
            old(self).wf(),
        ensures
            final(self).wf(),
            final(self).contents() == old(self).contents().insert(
                handle,
                (RegistryEntry {
                    handle,
                    external_ref,
                    sample: (LightingSample {
                        ne: snapshot.ne,
                        nw: snapshot.nw,
                        se: snapshot.se,
                        sw: snapshot.sw,
                        completed: false,
                    }),
                    result: None,
                }),
            ),
    {
        self.dequeue(handle);
        let e = RegistryEntry {
            handle,
            external_ref,
            sample: LightingSample {
                ne: snapshot.ne,
                nw: snapshot.nw,
                se: snapshot.se,
                sw: snapshot.sw,
                completed: false,
            },
            result: None,
        };
        proof {
            assert(!map_of(self.entries@).dom().contains(handle));
            assert(!seq_has_handle(self.entries@, handle));
        }
        let ghost mid = self.entries@;
        self.entries.push(e);
        proof {
            lemma_map_of_push(mid, e);
            assert(self.contents() =~= old(self).contents().insert(e.handle, e));
        }
    }

    /// The compute pass: runs the blend engine over every entry not yet
    /// completed, storing its result in the entry and marking it completed.
    /// Entries are independent; already completed entries are untouched.
    pub fn compute(&mut self)
        requires
            old(self).wf(),
        ensures
            final(self).wf(),
            computed_rel(old(self).contents(), final(self).contents()),
    {
        let ghost so = old(self).entries@;
        let n = self.entries.len();
        let mut i: usize = 0;
        while i < n
            invariant
                n == so.len(),
                i <= n,
                self.entries@.len() == so.len(),
                handles_distinct(so),
                forall|j: int| 0 <= j < so.len() ==> entry_wf(#[trigger] so[j]),
                forall|j: int|
                    0 <= j < so.len() ==> (#[trigger] self.entries@[j]).handle == so[j].handle,
                forall|j: int| i <= j < so.len() ==> #[trigger] self.entries@[j] == so[j],
                forall|j: int|
                    0 <= j < i ==> entry_computed(so[j], #[trigger] self.entries@[j]) && entry_wf(
                        self.entries@[j],
                    ),
            decreases n - i,
        {
            let ghost s_at = self.entries@;
            if !self.entries[i].sample.completed {
                let e = self.entries.remove(i);
                let res = blend(&e.sample);
                let e2 = RegistryEntry {
                    handle: e.handle,
                    external_ref: e.external_ref,
                    sample: LightingSample {
                        ne: e.sample.ne,
                        nw: e.sample.nw,
                        se: e.sample.se,
                        sw: e.sample.sw,
                        completed: true,
                    },
                    result: Some(res),
                };
                self.entries.insert(i, e2);
                proof {
                    assert(self.entries@ =~= s_at.update(i as int, e2));
                }
            }
            i = i + 1;
        }
        proof {
            let sn = self.entries@;
            assert(handles_distinct(sn)) by {
                assert forall|a: int, b: int| 0 <= a < b < sn.len() implies sn[a].handle
                    != sn[b].handle by {
                    assert(sn[a].handle == so[a].handle && sn[b].handle == so[b].handle);
                }
            }
            assert forall|h: u32| #[trigger] map_of(so).dom().contains(h) implies map_of(
                sn,
            ).dom().contains(h) && entry_computed(map_of(so)[h], map_of(sn)[h]) by {
                let j = index_of_handle(so, h);
                assert(so[j].handle == h);
                assert(sn[j].handle == h);
                let k = index_of_handle(sn, h);
                assert(sn[k].handle == h);
                assert(so[k].handle == h);
                assert(k == j);
                assert(entry_computed(so[j], sn[j]));
            }
            assert forall|h: u32| #[trigger] map_of(sn).dom().contains(h) implies map_of(
                so,
            ).dom().contains(h) by {
                let j = index_of_handle(sn, h);
                assert(so[j].handle == h);
            }
            assert(map_of(sn).dom() =~= map_of(so).dom());
        }
    }

    fn find_first_completed(&self) -> (r: Option<usize>)
        ensures
            match r {
                Some(i) => i < self.entries@.len() && self.entries@[i as int].sample.completed,
                None => forall|j: int|
                    0 <= j < self.entries@.len() ==> !(#[trigger] self.entries@[j]).sample.completed,
            },
    {
        let mut i: usize = 0;
        while i < self.entries.len()
            invariant
                i <= self.entries@.len(),
                forall|j: int|
                    0 <= j < i ==> !(#[trigger] self.entries@[j]).sample.completed,
            decreases self.entries@.len() - i,
        {
            if self.entries[i].sample.completed {
                return Some(i);
            }
            i = i + 1;
        }
        None
    }

    /// The flush pass: removes every completed entry and hands back one
    /// external write per removed entry; entries not yet completed stay for
    /// a later pass. The caller applies the writes after this call returns,
    /// so a dequeue that races a flush of the same handle sees one total
    /// order: the entry is already evicted, the dequeue is a no-op, and the
    /// writeback happens exactly once.
    pub fn flush(&mut self) -> (writes: Vec<FlushWrite<R>>)
        requires
            old(self).wf(),
        ensures
            final(self).wf(),
            flush_rel(old(self).contents(), final(self).contents(), writes@),
    {
        let ghost m0 = old(self).contents();
        let mut writes: Vec<FlushWrite<R>> = Vec::new();
        let mut opt = self.find_first_completed();
        while opt.is_some()
            invariant
                handles_distinct(self.entries@),
                forall|j: int|
                    0 <= j < self.entries@.len() ==> entry_wf(#[trigger] self.entries@[j]),
                forall|k: int|
                    0 <= k < writes@.len() ==> write_from(m0, #[trigger] writes@[k]),
                forall|a: int, b: int|
                    0 <= a < b < writes@.len() ==> writes@[a].handle != writes@[b].handle,
                forall|h: u32|
                    #[trigger] self.contents().dom().contains(h) <==> (m0.dom().contains(h)
                        && !seq_has_write(writes@, h)),
                forall|h: u32|
                    #[trigger] self.contents().dom().contains(h) ==> self.contents()[h] == m0[h],
                match opt {
                    Some(i) => i < self.entries@.len()
                        && self.entries@[i as int].sample.completed,
                    None => forall|j: int|
                        0 <= j < self.entries@.len() ==> !(
                        #[trigger] self.entries@[j]).sample.completed,
                },
            decreases self.entries@.len(),
        {
            let i = opt.unwrap();
            let ghost s_at = self.entries@;
            let ghost w_at = writes@;
            let ghost h = s_at[i as int].handle;
            proof {
                assert(self.contents().dom().contains(h)) by {
                    assert(self.entries@[i as int].handle == h);
                }
                assert(!seq_has_write(w_at, h));
                assert(m0.dom().contains(h));
                assert(self.contents()[h] == self.entries@[i as int]) by {
                    let k = index_of_handle(self.entries@, h);
                    assert(self.entries@[k].handle == h);
                    assert(k == i as int);
                }
                assert(m0[h] == s_at[i as int]);
            }
            let e = self.entries.remove(i);
            proof {
                lemma_map_of_remove(s_at, i as int);
                assert(e == s_at[i as int]);
            }
            match e.result {
                Some(res) => {
                    writes.push(
                        FlushWrite { handle: e.handle, external_ref: e.external_ref, result: res },
                    );
                    proof {
                        assert(write_from(m0, writes@[w_at.len() as int]));
                        assert forall|h2: u32|
                            seq_has_write(writes@, h2) <==> (seq_has_write(w_at, h2) || h2
                                == h) by {
                            if seq_has_write(writes@, h2) {
                                let k = choose|k: int|
                                    0 <= k < writes@.len() && writes@[k].handle == h2;
                                if k < w_at.len() {
                                    assert(w_at[k].handle == h2);
                                }
                            }
                            if seq_has_write(w_at, h2) {
                                let k = choose|k: int|
                                    0 <= k < w_at.len() && w_at[k].handle == h2;
                                assert(writes@[k].handle == h2);
                            }
                            if h2 == h {
                                assert(writes@[w_at.len() as int].handle == h2);
                            }
                        }
                    }
                },
                None => {
                    proof {
                        assert(entry_wf(e));
                        assert(false);
                    }
                },
            }
            opt = self.find_first_completed();
        }
        proof {
            let mf = self.contents();
            assert forall|h: u32| #[trigger] mf.dom().contains(h) implies (m0.dom().contains(h)
                && !m0[h].sample.completed) by {
                let j = index_of_handle(self.entries@, h);
                assert(self.entries@[j].handle == h);
                assert(!self.entries@[j].sample.completed);
                assert(mf[h] == self.entries@[j]);
            }
            assert forall|h: u32|
                m0.dom().contains(h) && !m0[h].sample.completed implies #[trigger] mf.dom().contains(
                h,
            ) by {
                if seq_has_write(writes@, h) {
                    let k = choose|k: int| 0 <= k < writes@.len() && writes@[k].handle == h;
                    assert(write_from(m0, writes@[k]));
                }
            }
            assert forall|h: u32|
                #[trigger] m0.dom().contains(h) && m0[h].sample.completed implies seq_has_write(
                writes@,
                h,
            ) by {
                if !seq_has_write(writes@, h) {
                    assert(mf.dom().contains(h));
                    let j = index_of_handle(self.entries@, h);
                    assert(self.entries@[j].handle == h);
                    assert(!self.entries@[j].sample.completed);
                    assert(mf[h] == self.entries@[j]);
                }
            }
        }
        writes
    }

    /// Removes the entry for `handle`, if any; a no-op (not an error) for an
    /// unknown handle. Discards any pending or completed work under the
    /// handle, so an entry dequeued before the flush pass is never written.
    pub fn dequeue(&mut self, handle: u32)
        requires
            old(self).wf(),
        ensures
            final(self).wf(),
            final(self).contents() == old(self).contents().remove(handle),
    {
        let found = self.find_index(handle);
        match found {
            Some(i) => {
                let _ = self.entries.remove(i);
                proof {
                    lemma_map_of_remove(old(self).entries@, i as int);
                }
            },
            None => {
                proof {
                    assert(!map_of(self.entries@).dom().contains(handle));
                    assert(self.contents() =~= old(self).contents().remove(handle));
                }
            },
        }
    }
}

/// Law: an entry enqueued and then dequeued before any compute pass leaves
/// no trace. The contents are as if the handle had only ever been removed:
/// the handle is not live, a previously empty registry is empty again (its
/// size is zero), and no flush pass from the resulting state ever hands out
/// a write for the handle.
pub proof fn lemma_enqueue_then_dequeue_is_gone<R>(
    m: Map<u32, RegistryEntry<R>>,
    e: RegistryEntry<R>,
    h: u32,
)
    ensures
        m.insert(h, e).remove(h) == m.remove(h),
        !m.insert(h, e).remove(h).dom().contains(h),
        m.dom() == Set::<u32>::empty() ==> m.insert(h, e).remove(h).dom() == Set::<u32>::empty()
            && m.insert(h, e).remove(h).dom().len() == 0,
        forall|after: Map<u32, RegistryEntry<R>>, writes: Seq<FlushWrite<R>>|
            #[trigger] flush_rel(m.insert(h, e).remove(h), after, writes) ==> !seq_has_write(
                writes,
                h,
            ),
{
    assert(m.insert(h, e).remove(h) =~= m.remove(h));
    if m.dom() == Set::<u32>::empty() {
        assert(m.insert(h, e).remove(h).dom() =~= Set::<u32>::empty());
    }
    assert forall|after: Map<u32, RegistryEntry<R>>, writes: Seq<FlushWrite<R>>|
        #[trigger] flush_rel(m.insert(h, e).remove(h), after, writes) implies !seq_has_write(
        writes,
        h,
    ) by {
        if seq_has_write(writes, h) {
            let i = choose|i: int| 0 <= i < writes.len() && writes[i].handle == h;
            assert(write_from(m.insert(h, e).remove(h), writes[i]));
        }
    }
}

/// Law: enqueue any number of fresh entries under distinct handles, run the
/// compute pass, then the flush pass: exactly one write per queued handle
/// is handed out, the number of writes equals the number of queued handles,
/// each write carries a result matching its queued snapshot, and the
/// registry is empty afterwards.
pub proof fn lemma_batch_writes_each_handle_once<R>(
    queued: Map<u32, RegistryEntry<R>>,
    computed: Map<u32, RegistryEntry<R>>,
    flushed: Map<u32, RegistryEntry<R>>,
    writes: Seq<FlushWrite<R>>,
)
    requires
        queued.dom().finite(),
        forall|h: u32| #[trigger] queued.dom().contains(h) ==> !queued[h].sample.completed,
        computed_rel(queued, computed),
        flush_rel(computed, flushed, writes),
    ensures
        flushed.dom() == Set::<u32>::empty(),
        flushed.dom().len() == 0,
        writes.len() == queued.dom().len(),
        forall|h: u32| #[trigger] queued.dom().contains(h) <==> seq_has_write(writes, h),
        forall|i: int, j: int| 0 <= i < j < writes.len() ==> writes[i].handle != writes[j].handle,
        forall|i: int|
            0 <= i < writes.len() ==> result_matches(
                queued[(#[trigger] writes[i]).handle].sample,
                writes[i].result,
            ),
{
    // every computed entry is completed, so nothing survives the flush
    assert forall|h: u32| !(#[trigger] flushed.dom().contains(h)) by {
        if flushed.dom().contains(h) {
            assert(computed.dom().contains(h) && !computed[h].sample.completed);
            assert(queued.dom().contains(h));
            assert(entry_computed(queued[h], computed[h]));
        }
    }
    assert(flushed.dom() =~= Set::<u32>::empty());
    // each queued handle is written ...
    assert forall|h: u32| #[trigger] queued.dom().contains(h) implies seq_has_write(
        writes,
        h,
    ) by {
        assert(entry_computed(queued[h], computed[h]));
        assert(computed.dom().contains(h));
        assert(computed[h].sample.completed);
    }
    // ... and each written handle was queued, with a matching result
    assert forall|h: u32| seq_has_write(writes, h) implies #[trigger] queued.dom().contains(h) by {
        let i = choose|i: int| 0 <= i < writes.len() && writes[i].handle == h;
        assert(write_from(computed, writes[i]));
    }
    assert forall|i: int| 0 <= i < writes.len() implies result_matches(
        queued[(#[trigger] writes[i]).handle].sample,
        writes[i].result,
    ) by {
        let h = writes[i].handle;
        assert(write_from(computed, writes[i]));
        assert(queued.dom().contains(h));
        assert(entry_computed(queued[h], computed[h]));
        assert(same_corners(computed[h].sample, queued[h].sample));
    }
    // count the writes against the queued handles
    let hs = writes.map_values(|w: FlushWrite<R>| w.handle);
    assert(hs.no_duplicates()) by {
        assert forall|a: int, b: int|
            0 <= a < hs.len() && 0 <= b < hs.len() && a != b implies hs[a] != hs[b] by {
            if a < b {
                assert(writes[a].handle != writes[b].handle);
            } else {
                assert(writes[b].handle != writes[a].handle);
            }
        }
    }
    hs.unique_seq_to_set();
    assert(hs.to_set() =~= queued.dom()) by {
        assert forall|h: u32| #[trigger] hs.to_set().contains(h) implies queued.dom().contains(
            h,
        ) by {
            let i = choose|i: int| 0 <= i < hs.len() && hs[i] == h;
            assert(writes[i].handle == h);
        }
        assert forall|h: u32| #[trigger] queued.dom().contains(h) implies hs.to_set().contains(
            h,
        ) by {
            assert(seq_has_write(writes, h));
            let i = choose|i: int| 0 <= i < writes.len() && writes[i].handle == h;
            assert(hs[i] == h);
        }
    }
}

/// A well-formed entry sequence stands for a map of the same size.
proof fn lemma_contents_card<R>(s: Seq<RegistryEntry<R>>)
    requires
        handles_distinct(s),
    ensures
        map_of(s).dom().finite(),
        map_of(s).dom().len() == s.len(),
{
    broadcast use vstd::seq_lib::seq_to_set_is_finite;

    let hs = s.map_values(|e: RegistryEntry<R>| e.handle);
    assert(hs.no_duplicates());
    hs.unique_seq_to_set();
    assert(map_of(s).dom() =~= hs.to_set()) by {
        assert forall|h: u32| #[trigger] map_of(s).dom().contains(h) implies hs.to_set().contains(
            h,
        ) by {
            let i = index_of_handle(s, h);
            assert(hs[i] == h);
        }
        assert forall|h: u32| #[trigger] hs.to_set().contains(h) implies map_of(s).dom().contains(
            h,
        ) by {
            let i = choose|i: int| 0 <= i < hs.len() && hs[i] == h;
            assert(s[i].handle == h);
        }
    }
}

/// Appending an entry under a fresh handle inserts exactly that entry into
/// the map the sequence stands for.
proof fn lemma_map_of_push<R>(s: Seq<RegistryEntry<R>>, e: RegistryEntry<R>)
    requires
        handles_distinct(s),
        !seq_has_handle(s, e.handle),
    ensures
        map_of(s.push(e)) == map_of(s).insert(e.handle, e),
        handles_distinct(s.push(e)),
{
    let s2 = s.push(e);
    assert(s2[s.len() as int] == e);
    assert(forall|j: int| 0 <= j < s.len() ==> s2[j] == s[j]);
    assert(handles_distinct(s2)) by {
        assert forall|a: int, b: int| 0 <= a < b < s2.len() implies s2[a].handle != s2[b].handle by {
            if b < s.len() {
                assert(s2[a] == s[a] && s2[b] == s[b]);
            } else {
                assert(s2[b] == e);
                assert(s2[a] == s[a]);
            }
        }
    }
    assert(map_of(s2) =~= map_of(s).insert(e.handle, e)) by {
        assert forall|h: u32| #[trigger] map_of(s2).dom().contains(h) implies map_of(s).insert(
            e.handle,
            e,
        ).dom().contains(h) && map_of(s2)[h] == map_of(s).insert(e.handle, e)[h] by {
            let j = index_of_handle(s2, h);
            assert(s2[j].handle == h);
            if j == s.len() {
                assert(map_of(s2)[h] == e);
            } else {
                assert(s2[j] == s[j]);
                assert(h != e.handle);
                let k = index_of_handle(s, h);
                assert(s[k].handle == h);
                assert(k == j);
            }
        }
        assert forall|h: u32| #[trigger] map_of(s).insert(e.handle, e).dom().contains(
            h,
        ) implies map_of(s2).dom().contains(h) by {
            if h == e.handle {
                assert(s2[s.len() as int].handle == h);
            } else {
                let k = index_of_handle(s, h);
                assert(s[k].handle == h);
                assert(s2[k].handle == h);
            }
        }
    }
}

/// Removing the entry at position `i` removes exactly its handle from the
/// map the sequence stands for.
proof fn lemma_map_of_remove<R>(s: Seq<RegistryEntry<R>>, i: int)
    requires
        handles_distinct(s),
        0 <= i < s.len(),
    ensures
        map_of(s.remove(i)) == map_of(s).remove(s[i].handle),
        handles_distinct(s.remove(i)),
        !seq_has_handle(s.remove(i), s[i].handle),
{
    let s2 = s.remove(i);
    let h0 = s[i].handle;
    assert(forall|j: int| 0 <= j < i ==> s2[j] == s[j]);
    assert(forall|j: int| i <= j < s2.len() ==> s2[j] == s[j + 1]);
    assert forall|j: int| 0 <= j < s2.len() implies (#[trigger] s2[j]).handle != h0 by {
        let jo: int = if j < i {
            j
        } else {
            j + 1
        };
        assert(s2[j] == s[jo]);
    }
    assert(handles_distinct(s2)) by {
        assert forall|a: int, b: int| 0 <= a < b < s2.len() implies s2[a].handle != s2[b].handle by {
            let ao: int = if a < i {
                a
            } else {
                a + 1
            };
            let bo: int = if b < i {
                b
            } else {
                b + 1
            };
            assert(s2[a] == s[ao] && s2[b] == s[bo]);
        }
    }
    assert(map_of(s2) =~= map_of(s).remove(h0)) by {
        assert forall|h: u32| #[trigger] map_of(s2).dom().contains(h) implies map_of(
            s,
        ).remove(h0).dom().contains(h) && map_of(s2)[h] == map_of(s).remove(h0)[h] by {
            let j = index_of_handle(s2, h);
            let jo: int = if j < i {
                j
            } else {
                j + 1
            };
            assert(s2[j] == s[jo]);
            assert(s[jo].handle == h);
            assert(seq_has_handle(s, h));
            let k = index_of_handle(s, h);
            assert(s[k].handle == h);
            assert(k == jo);
        }
        assert forall|h: u32| #[trigger] map_of(s).remove(h0).dom().contains(h) implies map_of(
            s2,
        ).dom().contains(h) by {
            let k = index_of_handle(s, h);
            assert(s[k].handle == h);
            assert(k != i);
            let j: int = if k < i {
                k
            } else {
                k - 1
            };
            assert(s2[j] == s[k]);
        }
    }
}

} // verus!
