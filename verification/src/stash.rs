//! The stash archive: an append-style store of content that a blocked actor
//! was denied from writing or deleting.
//!
//! Entries are immutable once created; ids increase with time and are
//! unique. The content fingerprint is a fast non-cryptographic hash used for
//! display and dedup hints only.

use vstd::prelude::*;
use crate::path::GuardPath;

verus! {

/// The process that attempted the denied operation.
pub struct ProcessInfo {
    pub name: String,
    pub pid: u32,
}

impl Clone for ProcessInfo {
    /// Copies the process description exactly.
    fn clone(&self) -> (r: Self)
        ensures
            r.name@ == self.name@,
            r.pid == self.pid,
    {
        ProcessInfo { name: self.name.clone(), pid: self.pid }
    }
}

/// Size, fingerprint and kind of an archived entry.
pub struct StashMetadata {
    pub file_size: u64,
    pub file_hash: u64,
    pub is_deletion: bool,
}

/// One archived denial: the denied content (absent for deletions) plus its
/// metadata.
pub struct StashEntry {
    pub id: u64,
    pub timestamp: u64,
    pub original_path: GuardPath,
    pub process_info: ProcessInfo,
    pub operation: String,
    pub file_content: Option<Vec<u8>>,
    pub metadata: StashMetadata,
}

/// The ghost mirror of a stash entry.
pub ghost struct StashEntryView {
    pub id: u64,
    pub timestamp: u64,
    pub path: Seq<Seq<char>>,
    pub process_name: Seq<char>,
    pub pid: u32,
    pub operation: Seq<char>,
    pub content: Option<Seq<u8>>,
    pub file_size: u64,
    pub file_hash: u64,
    pub is_deletion: bool,
}

/// The ghost mirror of an entry.
pub open spec fn entry_view(e: StashEntry) -> StashEntryView {
    StashEntryView {
        id: e.id,
        timestamp: e.timestamp,
        path: e.original_path@,
        process_name: e.process_info.name@,
        pid: e.process_info.pid,
        operation: e.operation@,
        content: match e.file_content {
            Option::None => None,
            Option::Some(c) => Some(c@),
        },
        file_size: e.metadata.file_size,
        file_hash: e.metadata.file_hash,
        is_deletion: e.metadata.is_deletion,
    }
}

/// The ghost mirrors of a list of entries.
pub open spec fn stash_views(es: Seq<StashEntry>) -> Seq<StashEntryView> {
    Seq::new(es.len(), |i: int| entry_view(es[i]))
}

/// The 64-bit FNV-1a fingerprint of a byte sequence.
pub open spec fn fnv1a(s: Seq<u8>) -> u64
    decreases s.len(),
{
    if s.len() == 0 {
        0xcbf29ce484222325u64
    } else {
        (fnv1a(s.drop_last()) ^ (s.last() as u64)).wrapping_mul(0x100000001b3u64)
    }
}

/// Computes the FNV-1a fingerprint of `content`.
pub fn fingerprint(content: &Vec<u8>) -> (r: u64)
    ensures
        r == fnv1a(content@),
{
    let mut h: u64 = 0xcbf29ce484222325u64;
    let mut i: usize = 0;
    assert(content@.take(0) =~= Seq::<u8>::empty());
    while i < content.len()
        invariant
            i <= content.len(),
            h == fnv1a(content@.take(i as int)),
        decreases content.len() - i,
    {
        let b = content[i];
        h = (h ^ (b as u64)).wrapping_mul(0x100000001b3u64);
        proof {
            assert(content@.take(i as int + 1).drop_last() =~= content@.take(i as int));
            assert(content@.take(i as int + 1).last() == content@[i as int]);
        }
        i += 1;
    }
    assert(content@.take(content.len() as int) =~= content@);
    h
}

/// The index of the first entry with the given id, or -1.
pub open spec fn find_entry_view(es: Seq<StashEntryView>, id: u64) -> int
    decreases es.len(),
{
    if es.len() == 0 {
        -1
    } else if es[0].id == id {
        0
    } else {
        let r = find_entry_view(es.drop_first(), id);
        if r < 0 {
            -1
        } else {
            r + 1
        }
    }
}

/// Characterizes `find_entry_view`: the first matching index, or -1.
pub proof fn lemma_find_entry_view(es: Seq<StashEntryView>, id: u64)
    ensures
        find_entry_view(es, id) >= 0 ==> {
            let i = find_entry_view(es, id);
            i < es.len() && es[i].id == id && forall|j: int| 0 <= j < i ==> es[j].id != id
        },
        find_entry_view(es, id) < 0 ==> forall|j: int| 0 <= j < es.len() ==> es[j].id != id,
    decreases es.len(),
{
    if es.len() > 0 && es[0].id != id {
        lemma_find_entry_view(es.drop_first(), id);
        let r = find_entry_view(es.drop_first(), id);
        if r >= 0 {
            assert(es[r + 1] == es.drop_first()[r]);
            assert forall|j: int| 0 <= j < r + 1 implies es[j].id != id by {
                if j > 0 {
                    assert(es.drop_first()[j - 1] == es[j]);
                }
            }
        } else {
            assert forall|j: int| 0 <= j < es.len() implies es[j].id != id by {
                if j > 0 {
                    assert(es.drop_first()[j - 1] == es[j]);
                }
            }
        }
    }
}

/// Errors raised by the stash archive.
#[derive(Debug)]
pub enum StashError {
    /// No entry carries the requested id.
    NotFound,
    /// The entry records a deletion and holds no content to re-apply.
    DeletionRecord,
}

/// The durable archive of denied content.
pub struct StashManager {
    pub entries: Vec<StashEntry>,
}

/// Copies a byte vector.
pub fn clone_bytes(v: &Vec<u8>) -> (r: Vec<u8>)
    ensures
        r@ == v@,
{
    let mut out: Vec<u8> = Vec::new();
    let mut i: usize = 0;
    while i < v.len()
        invariant
            i <= v.len(),
            out@ == v@.take(i as int),
        decreases v.len() - i,
    {
        out.push(v[i]);
        assert(out@ =~= v@.take(i as int + 1));
        i += 1;
    }
    assert(v@.take(v.len() as int) =~= v@);
    out
}

impl StashManager {
    /// An empty archive.
    pub fn new() -> (r: Self)
        ensures
            stash_views(r.entries@) =~= Seq::<StashEntryView>::empty(),
    {
        StashManager { entries: Vec::new() }
    }

    /// An unused id not smaller than `now_ms`: `now_ms` itself, or one past
    /// an id already in the way.
    fn fresh_id(&self, now_ms: u64) -> (r: u64)
        requires
            forall|i: int|
                0 <= i < self.entries@.len() ==> (#[trigger] self.entries@[i].id) < 0xffffffffffffffffu64,
        ensures
            r >= now_ms,
            forall|i: int| 0 <= i < self.entries@.len() ==> (#[trigger] self.entries@[i].id) != r,
            r == now_ms || exists|i: int|
                0 <= i < self.entries@.len() && (#[trigger] self.entries@[i].id) + 1 == r,
    {
        let mut candidate: u64 = now_ms;
        let mut i: usize = 0;
        while i < self.entries.len()
            invariant
                i <= self.entries@.len(),
                candidate >= now_ms,
                forall|j: int|
                    0 <= j < self.entries@.len() ==> (#[trigger] self.entries@[j].id)
                        < 0xffffffffffffffffu64,
                forall|j: int| 0 <= j < i ==> (#[trigger] self.entries@[j].id) < candidate,
                candidate == now_ms || exists|j: int|
                    0 <= j < self.entries@.len() && (#[trigger] self.entries@[j].id) + 1
                        == candidate,
            decreases self.entries@.len() - i,
        {
            let e: &StashEntry = &self.entries[i];
            if e.id >= candidate {
                candidate = e.id + 1;
                assert(self.entries@[i as int].id + 1 == candidate);
            }
            i += 1;
        }
        candidate
    }

    /// Archives denied content under a fresh, time-ordered id, recording the
    /// process, operation, size and fingerprint. Returns the new id.
    pub fn create_stash(
        &mut self,
        path: &GuardPath,
        content: &Vec<u8>,
        process_info: &ProcessInfo,
        operation: &str,
        now_ms: u64,
    ) -> (r: u64)
        requires
            forall|i: int|
                0 <= i < old(self).entries@.len() ==> (#[trigger] old(self).entries@[i].id)
                    < 0xffffffffffffffffu64,
        ensures
            r >= now_ms,
            forall|i: int|
                0 <= i < old(self).entries@.len() ==> (#[trigger] old(self).entries@[i].id) != r,
            r == now_ms || exists|i: int|
                0 <= i < old(self).entries@.len() && (#[trigger] old(self).entries@[i].id) + 1
                    == r,
            stash_views(final(self).entries@) == stash_views(old(self).entries@).push(
                (StashEntryView {
                    id: r,
                    timestamp: now_ms,
                    path: path@,
                    process_name: process_info.name@,
                    pid: process_info.pid,
                    operation: operation@,
                    content: Some(content@),
                    file_size: content@.len() as u64,
                    file_hash: fnv1a(content@),
                    is_deletion: false,
                }),
            ),
    {
        let id = self.fresh_id(now_ms);
        let file_hash = fingerprint(content);
        let entry = StashEntry {
            id,
            timestamp: now_ms,
            original_path: path.clone(),
            process_info: process_info.clone(),
            operation: operation.to_owned(),
            file_content: Some(clone_bytes(content)),
            metadata: StashMetadata {
                file_size: content.len() as u64,
                file_hash,
                is_deletion: false,
            },
        };
        let ghost prev = self.entries@;
        self.entries.push(entry);
        proof {
            assert forall|j: int|
                0 <= j < self.entries@.len() implies stash_views(self.entries@)[j] == stash_views(
                prev,
            ).push(entry_view(self.entries@.last()))[j] by {
                if j < prev.len() {
                    assert(self.entries@[j] == prev[j]);
                }
            }
            assert(stash_views(self.entries@) =~= stash_views(prev).push(
                entry_view(self.entries@.last()),
            ));
        }
        id
    }

    /// Archives a deletion attempt: metadata only, no content.
    pub fn create_deletion_stash(
        &mut self,
        path: &GuardPath,
        process_info: &ProcessInfo,
        now_ms: u64,
    ) -> (r: u64)
        requires
            forall|i: int|
                0 <= i < old(self).entries@.len() ==> (#[trigger] old(self).entries@[i].id)
                    < 0xffffffffffffffffu64,
        ensures
            r >= now_ms,
            forall|i: int|
                0 <= i < old(self).entries@.len() ==> (#[trigger] old(self).entries@[i].id) != r,
            r == now_ms || exists|i: int|
                0 <= i < old(self).entries@.len() && (#[trigger] old(self).entries@[i].id) + 1
                    == r,
            stash_views(final(self).entries@) == stash_views(old(self).entries@).push(
                (StashEntryView {
                    id: r,
                    timestamp: now_ms,
                    path: path@,
                    process_name: process_info.name@,
                    pid: process_info.pid,
                    operation: "delete"@,
                    content: None,
                    file_size: 0,
                    file_hash: 0,
                    is_deletion: true,
                }),
            ),
    {
        let id = self.fresh_id(now_ms);
        let entry = StashEntry {
            id,
            timestamp: now_ms,
            original_path: path.clone(),
            process_info: process_info.clone(),
            operation: "delete".to_owned(),
            file_content: None,
            metadata: StashMetadata { file_size: 0, file_hash: 0, is_deletion: true },
        };
        let ghost prev = self.entries@;
        self.entries.push(entry);
        proof {
            assert forall|j: int|
                0 <= j < self.entries@.len() implies stash_views(self.entries@)[j] == stash_views(
                prev,
            ).push(entry_view(self.entries@.last()))[j] by {
                if j < prev.len() {
                    assert(self.entries@[j] == prev[j]);
                }
            }
            assert(stash_views(self.entries@) =~= stash_views(prev).push(
                entry_view(self.entries@.last()),
            ));
        }
        id
    }

    /// Looks an entry up by id.
    pub fn get_stash(&self, stash_id: u64) -> (r: Option<&StashEntry>)
        ensures
            find_entry_view(stash_views(self.entries@), stash_id) >= 0 ==> r is Some && entry_view(
                *r->0,
            ) == stash_views(self.entries@)[find_entry_view(stash_views(self.entries@), stash_id)],
            find_entry_view(stash_views(self.entries@), stash_id) < 0 ==> r is None,
    {
        proof {
            lemma_find_entry_view(stash_views(self.entries@), stash_id);
        }
        let ghost vs = stash_views(self.entries@);
        let mut i: usize = 0;
        while i < self.entries.len()
            invariant
                i <= self.entries@.len(),
                vs == stash_views(self.entries@),
                vs.len() == self.entries@.len(),
                forall|j: int| 0 <= j < i ==> vs[j].id != stash_id,
            decreases self.entries@.len() - i,
        {
            let e: &StashEntry = &self.entries[i];
            assert(entry_view(*e) == vs[i as int]);
            if e.id == stash_id {
                proof {
                    lemma_find_entry_view(vs, stash_id);
                    let fi = find_entry_view(vs, stash_id);
                    if fi < 0 {
                        assert(vs[i as int].id != stash_id);
                    } else {
                        if fi < i {
                            assert(vs[fi].id != stash_id);
                        }
                        if fi > i {
                            assert(vs[i as int].id != stash_id);
                        }
                    }
                }
                return Some(e);
            }
            i += 1;
        }
        proof {
            lemma_find_entry_view(vs, stash_id);
            let fi = find_entry_view(vs, stash_id);
            if fi >= 0 {
                assert(vs[fi].id != stash_id);
            }
        }
        None
    }

    /// The content and original path to write back for an archived write
    /// denial. Fails with `NotFound` when no entry has the id, and with
    /// `DeletionRecord` when the entry is a deletion record without content.
    pub fn apply_stash(&self, stash_id: u64) -> (r: Result<(GuardPath, Vec<u8>), StashError>)
        ensures
            ({
                let vs = stash_views(self.entries@);
                let fi = find_entry_view(vs, stash_id);
                if fi < 0 {
                    r is Err && r->Err_0 is NotFound
                } else if vs[fi].is_deletion || vs[fi].content is None {
                    r is Err && r->Err_0 is DeletionRecord
                } else {
                    r is Ok && r->Ok_0.0@ == vs[fi].path && r->Ok_0.1@ == vs[fi].content->0
                }
            }),
    {
        match self.get_stash(stash_id) {
            None => Err(StashError::NotFound),
            Some(entry) => {
                if entry.metadata.is_deletion {
                    return Err(StashError::DeletionRecord);
                }
                match &entry.file_content {
                    None => Err(StashError::DeletionRecord),
                    Some(content) => Ok((entry.original_path.clone(), clone_bytes(content))),
                }
            },
        }
    }

    /// Removes the entry with the given id, if present. Returns whether one
    /// was removed.
    pub fn delete_stash(&mut self, stash_id: u64) -> (r: bool)
        ensures
            ({
                let vs = stash_views(old(self).entries@);
                let fi = find_entry_view(vs, stash_id);
                if fi >= 0 {
                    r && stash_views(final(self).entries@) == vs.remove(fi)
                } else {
                    !r && final(self).entries == old(self).entries
                }
            }),
    {
        proof {
            lemma_find_entry_view(stash_views(self.entries@), stash_id);
        }
        let ghost vs = stash_views(self.entries@);
        let mut i: usize = 0;
        while i < self.entries.len()
            invariant
                i <= self.entries@.len(),
                self.entries == old(self).entries,
                vs == stash_views(self.entries@),
                vs.len() == self.entries@.len(),
                forall|j: int| 0 <= j < i ==> vs[j].id != stash_id,
            decreases self.entries@.len() - i,
        {
            let matched = self.entries[i].id == stash_id;
            proof {
                assert(vs[i as int] == entry_view(self.entries@[i as int]));
            }
            if matched {
                proof {
                    lemma_find_entry_view(vs, stash_id);
                    let fi = find_entry_view(vs, stash_id);
                    assert(vs[i as int].id == stash_id);
                    if fi < 0 {
                        assert(vs[i as int].id != stash_id);
                        assert(false);
                    } else if fi < i {
                        assert(vs[fi].id != stash_id);
                        assert(vs[fi].id == stash_id);
                        assert(false);
                    } else if fi > i {
                        assert(vs[i as int].id != stash_id);
                        assert(false);
                    }
                    assert(fi == i as int);
                }
                let ghost prev = self.entries@;
                self.entries.remove(i);
                proof {
                    assert(self.entries@ == prev.remove(i as int));
                    assert forall|j: int|
                        0 <= j < self.entries@.len() implies stash_views(self.entries@)[j]
                        == vs.remove(i as int)[j] by {
                        if j < i {
                            assert(prev.remove(i as int)[j] == prev[j]);
                            assert(vs.remove(i as int)[j] == vs[j]);
                        } else {
                            assert(prev.remove(i as int)[j] == prev[j + 1]);
                            assert(vs.remove(i as int)[j] == vs[j + 1]);
                        }
                    }
                    assert(stash_views(self.entries@) =~= vs.remove(i as int));
                }
                return true;
            }
            i += 1;
        }
        proof {
            lemma_find_entry_view(vs, stash_id);
            let fi = find_entry_view(vs, stash_id);
            if fi >= 0 {
                assert(vs[fi].id == stash_id);
                assert(vs[fi].id != stash_id);
                assert(false);
            }
        }
        false
    }
}

/// Stable insertion of an entry into a newest-first sequence.
pub open spec fn insert_entry_desc(x: StashEntryView, s: Seq<StashEntryView>) -> Seq<
    StashEntryView,
>
    decreases s.len(),
{
    if s.len() == 0 {
        seq![x]
    } else if x.timestamp >= s[0].timestamp {
        seq![x] + s
    } else {
        seq![s[0]] + insert_entry_desc(x, s.drop_first())
    }
}

/// Insertion sort of entries, newest first.
pub open spec fn sort_entries_desc(s: Seq<StashEntryView>) -> Seq<StashEntryView>
    decreases s.len(),
{
    if s.len() == 0 {
        Seq::empty()
    } else {
        insert_entry_desc(s[0], sort_entries_desc(s.drop_first()))
    }
}

proof fn lemma_insert_entry_desc_at(x: StashEntryView, s: Seq<StashEntryView>, idx: int)
    requires
        0 <= idx <= s.len(),
        forall|j: int| 0 <= j < idx ==> !(x.timestamp >= s[j].timestamp),
        idx < s.len() ==> x.timestamp >= s[idx].timestamp,
    ensures
        insert_entry_desc(x, s) == s.take(idx) + seq![x] + s.skip(idx),
    decreases idx,
{
    if idx == 0 {
        assert(insert_entry_desc(x, s) =~= s.take(0) + seq![x] + s.skip(0));
    } else {
        assert(s.len() > 0);
        let t = s.drop_first();
        assert(forall|j: int| 0 <= j < idx - 1 ==> t[j] == s[j + 1]);
        lemma_insert_entry_desc_at(x, t, idx - 1);
        assert(insert_entry_desc(x, s) == seq![s[0]] + insert_entry_desc(x, t));
        assert(seq![s[0]] + (t.take(idx - 1) + seq![x] + t.skip(idx - 1)) =~= s.take(idx) + seq![x]
            + s.skip(idx));
    }
}

/// Copies an entry, keeping its ghost mirror.
pub fn clone_entry(e: &StashEntry) -> (r: StashEntry)
    ensures
        entry_view(r) == entry_view(*e),
{
    let content: Option<Vec<u8>> = match &e.file_content {
        Option::None => None,
        Option::Some(c) => Some(clone_bytes(c)),
    };
    StashEntry {
        id: e.id,
        timestamp: e.timestamp,
        original_path: e.original_path.clone(),
        process_info: e.process_info.clone(),
        operation: e.operation.clone(),
        file_content: content,
        metadata: StashMetadata {
            file_size: e.metadata.file_size,
            file_hash: e.metadata.file_hash,
            is_deletion: e.metadata.is_deletion,
        },
    }
}

impl StashManager {
    /// The archived entries, newest first by timestamp.
    pub fn list_stashes(&self) -> (r: Vec<StashEntry>)
        ensures
            stash_views(r@) == sort_entries_desc(stash_views(self.entries@)),
    {
        let ghost ev = stash_views(self.entries@);
        let mut out: Vec<StashEntry> = Vec::new();
        let mut k: usize = self.entries.len();
        proof {
            assert(ev.skip(k as int) =~= Seq::<StashEntryView>::empty());
            assert(stash_views(out@) =~= sort_entries_desc(ev.skip(k as int)));
        }
        while k > 0
            invariant
                k <= self.entries@.len(),
                self.entries == old_entries_of(*self),
                ev == stash_views(self.entries@),
                ev.len() == self.entries@.len(),
                stash_views(out@) == sort_entries_desc(ev.skip(k as int)),
            decreases k,
        {
            k -= 1;
            let x: &StashEntry = &self.entries[k];
            assert(entry_view(*x) == ev[k as int]);
            let ghost acc = stash_views(out@);
            let mut idx: usize = 0;
            let mut stop = false;
            while idx < out.len() && !stop
                invariant
                    idx <= out.len(),
                    stash_views(out@) == acc,
                    acc.len() == out.len(),
                    entry_view(*x) == ev[k as int],
                    forall|j: int|
                        0 <= j < idx ==> !(x.timestamp >= acc[j].timestamp),
                    stop ==> idx < out.len() && x.timestamp >= acc[idx as int].timestamp,
                decreases out.len() - idx + if stop {
                    0int
                } else {
                    1int
                },
            {
                let y: &StashEntry = &out[idx];
                assert(entry_view(*y) == acc[idx as int]);
                if x.timestamp >= y.timestamp {
                    stop = true;
                } else {
                    idx += 1;
                }
            }
            let xe = clone_entry(x);
            let ghost prev = out@;
            out.insert(idx, xe);
            proof {
                lemma_insert_entry_desc_at(ev[k as int], acc, idx as int);
                assert forall|j: int|
                    0 <= j < out@.len() implies stash_views(out@)[j] == (acc.take(idx as int)
                    + seq![ev[k as int]] + acc.skip(idx as int))[j] by {
                    if j < idx {
                        assert(out@[j] == prev[j]);
                        assert(stash_views(prev)[j] == entry_view(prev[j]));
                    } else if j == idx {
                        assert(out@[j] == xe);
                    } else {
                        assert(out@[j] == prev[j - 1]);
                        assert(stash_views(prev)[j - 1] == entry_view(prev[j - 1]));
                    }
                }
                assert(stash_views(out@) =~= acc.take(idx as int) + seq![ev[k as int]] + acc.skip(
                    idx as int,
                ));
                assert(ev.skip(k as int)[0] == ev[k as int]);
                assert(ev.skip(k as int).drop_first() =~= ev.skip(k as int + 1));
            }
        }
        assert(ev.skip(0) =~= ev);
        out
    }

    /// Deletes every entry older than the cutoff `now_ms - max_age_ms`.
    /// Returns how many were removed.
    pub fn clear_old_stashes(&mut self, max_age_ms: u64, now_ms: u64) -> (r: usize)
        ensures
            ({
                let cutoff = if now_ms >= max_age_ms {
                    (now_ms - max_age_ms) as u64
                } else {
                    0u64
                };
                stash_views(final(self).entries@) == keep_recent(
                    stash_views(old(self).entries@),
                    cutoff,
                ) && r + final(self).entries@.len() == old(self).entries@.len()
            }),
    {
        let cutoff: u64 = if now_ms >= max_age_ms {
            now_ms - max_age_ms
        } else {
            0
        };
        let ghost orig = self.entries@;
        let n0 = self.entries.len();
        let mut i: usize = 0;
        let ghost mut k: int = 0;
        proof {
            assert(orig.take(0) =~= Seq::<StashEntry>::empty());
            assert(stash_views(orig.take(0)) =~= Seq::<StashEntryView>::empty());
            assert(keep_recent(stash_views(orig.take(0)), cutoff) =~= Seq::<
                StashEntryView,
            >::empty());
            assert(orig.skip(0) =~= orig);
            assert(self.entries@ =~= orig.take(0) + orig.skip(0));
        }
        while i < self.entries.len()
            invariant
                0 <= k <= orig.len(),
                i as int == keep_recent(stash_views(orig.take(k)), cutoff).len(),
                n0 == orig.len(),
                self.entries@ == keep_kept(orig.take(k), cutoff) + orig.skip(k),
                stash_views(keep_kept(orig.take(k), cutoff)) == keep_recent(
                    stash_views(orig.take(k)),
                    cutoff,
                ),
            decreases orig.len() - k,
        {
            proof {
                assert(orig.skip(k).len() > 0);
                assert(self.entries@[i as int] == orig.skip(k)[0]);
                assert(orig.skip(k)[0] == orig[k]);
                assert(orig.take(k + 1).drop_last() =~= orig.take(k));
                assert(orig.take(k + 1).last() == orig[k]);
                assert(stash_views(orig.take(k + 1)).drop_last() =~= stash_views(orig.take(k)));
                assert(stash_views(orig.take(k + 1)).last() == entry_view(orig[k]));
                assert(stash_views(orig.take(k + 1)) =~= stash_views(orig.take(k)).push(
                    entry_view(orig[k]),
                ));
            }
            let ts = self.entries[i].timestamp;
            if ts < cutoff {
                self.entries.remove(i);
                proof {
                    assert(keep_kept(orig.take(k + 1), cutoff) =~= keep_kept(
                        orig.take(k),
                        cutoff,
                    ));
                    assert(self.entries@ =~= keep_kept(orig.take(k + 1), cutoff) + orig.skip(
                        k + 1,
                    ));
                }
            } else {
                i += 1;
                proof {
                    assert(keep_kept(orig.take(k + 1), cutoff) =~= keep_kept(
                        orig.take(k),
                        cutoff,
                    ).push(orig[k]));
                    assert(self.entries@ =~= keep_kept(orig.take(k + 1), cutoff) + orig.skip(
                        k + 1,
                    ));
                    assert(stash_views(keep_kept(orig.take(k + 1), cutoff)) =~= keep_recent(
                        stash_views(orig.take(k + 1)),
                        cutoff,
                    ));
                }
            }
            proof {
                if !(ts < cutoff) {
                } else {
                    assert(stash_views(keep_kept(orig.take(k + 1), cutoff)) =~= keep_recent(
                        stash_views(orig.take(k + 1)),
                        cutoff,
                    ));
                }
                k = k + 1;
            }
        }
        proof {
            assert(orig.skip(k).len() == 0);
            assert(k == orig.len());
            assert(orig.take(k) =~= orig);
            assert(self.entries@ =~= keep_kept(orig, cutoff));
            lemma_keep_recent_len(stash_views(orig), cutoff);
            assert(self.entries@.len() == keep_recent(stash_views(orig), cutoff).len());
        }
        n0 - self.entries.len()
    }
}

/// The entries whose timestamp is at least `cutoff`, in order (view level).
pub open spec fn keep_recent(es: Seq<StashEntryView>, cutoff: u64) -> Seq<StashEntryView>
    decreases es.len(),
{
    if es.len() == 0 {
        es
    } else {
        let rest = keep_recent(es.drop_last(), cutoff);
        if es.last().timestamp < cutoff {
            rest
        } else {
            rest.push(es.last())
        }
    }
}

/// The summary text for one archived entry.
pub open spec fn stash_diff_text(e: StashEntryView) -> Seq<char> {
    if e.is_deletion {
        "Deletion attempt of: "@ + crate::strutil::join_segs(e.path)
    } else {
        "Stash: "@ + crate::strutil::dec_str(e.id) + "\nFile: "@ + crate::strutil::join_segs(
            e.path,
        ) + "\nOperation: "@ + e.operation + "\nProcess: "@ + e.process_name + " (PID: "@
            + crate::strutil::dec_str(e.pid as u64) + ")\nTime: "@ + crate::strutil::dec_str(
            e.timestamp,
        ) + " ms\nSize: "@ + crate::strutil::dec_str(e.file_size) + " bytes"@
    }
}

impl StashManager {
    /// A human-readable summary of one entry, or `NotFound`.
    pub fn get_stash_diff(&self, stash_id: u64) -> (r: Result<String, StashError>)
        ensures
            ({
                let vs = stash_views(self.entries@);
                let fi = find_entry_view(vs, stash_id);
                if fi < 0 {
                    r is Err && r->Err_0 is NotFound
                } else {
                    r is Ok && r->Ok_0@ == stash_diff_text(vs[fi])
                }
            }),
    {
        let entry = match self.get_stash(stash_id) {
            None => {
                return Err(StashError::NotFound);
            },
            Some(e) => e,
        };
        let path_text = entry.original_path.to_display();
        if entry.metadata.is_deletion {
            let mut out: String = "Deletion attempt of: ".to_owned();
            out.append(path_text.as_str());
            assert(out@ =~= stash_diff_text(entry_view(*entry)));
            Ok(out)
        } else {
            let mut out: String = "Stash: ".to_owned();
            out.append(crate::strutil::u64_to_string(entry.id).as_str());
            out.append("\nFile: ");
            out.append(path_text.as_str());
            out.append("\nOperation: ");
            out.append(entry.operation.as_str());
            out.append("\nProcess: ");
            out.append(entry.process_info.name.as_str());
            out.append(" (PID: ");
            out.append(crate::strutil::u64_to_string(entry.process_info.pid as u64).as_str());
            out.append(")\nTime: ");
            out.append(crate::strutil::u64_to_string(entry.timestamp).as_str());
            out.append(" ms\nSize: ");
            out.append(crate::strutil::u64_to_string(entry.metadata.file_size).as_str());
            out.append(" bytes");
            assert(out@ =~= stash_diff_text(entry_view(*entry)));
            Ok(out)
        }
    }
}

/// Pruning never grows the archive.
pub proof fn lemma_keep_recent_len(es: Seq<StashEntryView>, cutoff: u64)
    ensures
        keep_recent(es, cutoff).len() <= es.len(),
    decreases es.len(),
{
    if es.len() > 0 {
        lemma_keep_recent_len(es.drop_last(), cutoff);
    }
}

/// The entries whose timestamp is at least `cutoff`, in order (value level).
pub open spec fn keep_kept(es: Seq<StashEntry>, cutoff: u64) -> Seq<StashEntry>
    decreases es.len(),
{
    if es.len() == 0 {
        es
    } else {
        let rest = keep_kept(es.drop_last(), cutoff);
        if es.last().timestamp < cutoff {
            rest
        } else {
            rest.push(es.last())
        }
    }
}

/// Identity helper naming the receiver's entries in loop invariants.
pub open spec fn old_entries_of(s: StashManager) -> Vec<StashEntry> {
    s.entries
}

/// Archiving denied content and fetching it back by the returned id yields
/// exactly the archived entry, byte for byte.
pub proof fn lemma_stash_round_trip(es: Seq<StashEntryView>, e: StashEntryView)
    requires
        forall|i: int| 0 <= i < es.len() ==> (#[trigger] es[i].id) != e.id,
    ensures
        ({
            let es2 = es.push(e);
            let fi = find_entry_view(es2, e.id);
            fi == es.len() && es2[fi] == e
        }),
    decreases es.len(),
{
    let es2 = es.push(e);
    if es.len() == 0 {
        assert(es2[0] == e);
        assert(find_entry_view(es2, e.id) == 0);
    } else {
        assert(es2[0] == es[0]);
        assert(es[0].id != e.id);
        assert(es2.drop_first() =~= es.drop_first().push(e));
        assert forall|i: int| 0 <= i < es.drop_first().len() implies (#[trigger] es.drop_first()[i].id)
            != e.id by {
            assert(es.drop_first()[i] == es[i + 1]);
        }
        lemma_stash_round_trip(es.drop_first(), e);
    }
}

} // verus!
