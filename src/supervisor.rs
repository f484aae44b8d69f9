use vstd::prelude::*;

use crate::index::{entry_of, ids_before, kinds_view, top, with_all, with_entry, without, EntryView, Trie};
use crate::record::HistoryRecord;
use crate::text::lower_of;

verus! {

/// How long records stay indexed by default: three days, in seconds.
pub const DEFAULT_RETENTION_SECS: i64 = 259200;

/// The records taken out one after another.
pub open spec fn without_all(s: Seq<EntryView>, rs: Seq<HistoryRecord>) -> Seq<EntryView>
    decreases rs.len(),
{
    if rs.len() == 0 {
        s
    } else {
        without(without_all(s, rs.drop_last()), rs.last().id)
    }
}

/// `now - retention`, or the earliest instant when that underflows.
pub open spec fn cutoff_of(now: i64, retention: i64) -> i64 {
    if now as int - retention as int >= i64::MIN as int {
        (now - retention) as i64
    } else {
        i64::MIN
    }
}

/// How long records of each kind stay listed, in seconds.
pub struct Retention {
    pub text_secs: i64,
    pub image_secs: i64,
    pub file_secs: i64,
}

/// The cutoff for a kind code under a retention policy; unknown codes get
/// the latest instant, so nothing of theirs is listed.
pub open spec fn kind_cutoff(r: Retention, kind: i32, now: i64) -> i64 {
    if kind == 0 {
        cutoff_of(now, r.text_secs)
    } else if kind == 1 {
        cutoff_of(now, r.image_secs)
    } else if kind == 2 {
        cutoff_of(now, r.file_secs)
    } else {
        i64::MAX
    }
}

impl Retention {
    pub open spec fn wf(&self) -> bool {
        self.text_secs >= 0 && self.image_secs >= 0 && self.file_secs >= 0
    }

    /// The same retention for every kind.
    pub fn uniform(secs: i64) -> (r: Retention)
        ensures
            r.text_secs == secs,
            r.image_secs == secs,
            r.file_secs == secs,
    {
        Retention { text_secs: secs, image_secs: secs, file_secs: secs }
    }

    /// The per-kind cutoffs at `now`, in the order text, image, file: the
    /// history store lists a record only when it is newer than its kind's.
    pub fn cutoffs(&self, now: i64) -> (r: (i64, i64, i64))
        requires
            self.wf(),
        ensures
            r == (kind_cutoff(*self, 0, now), kind_cutoff(*self, 1, now), kind_cutoff(*self, 2, now)),
    {
        (saturating_cutoff(now, self.text_secs), saturating_cutoff(now, self.image_secs), saturating_cutoff(
            now,
            self.file_secs,
        ))
    }

    /// Whether a record of kind code `kind` captured at `timestamp` is still
    /// listed at `now`.
    pub fn listed(&self, kind: i32, timestamp: i64, now: i64) -> (r: bool)
        requires
            self.wf(),
        ensures
            r == (timestamp > kind_cutoff(*self, kind, now)),
    {
        let (t, i, f) = self.cutoffs(now);
        if kind == 0 {
            timestamp > t
        } else if kind == 1 {
            timestamp > i
        } else if kind == 2 {
            timestamp > f
        } else {
            false
        }
    }
}

/// `now - retention`, or the earliest instant when that underflows.
fn saturating_cutoff(now: i64, retention: i64) -> (r: i64)
    requires
        retention >= 0,
    ensures
        r == cutoff_of(now, retention),
{
    if now >= i64::MIN + retention {
        now - retention
    } else {
        i64::MIN
    }
}

/// Keeps the index in step with the history store: loads recent history,
/// takes in new records and evicts the expired ones.
pub struct ClipboardIndexer {
    pub trie: Trie,
    /// How long a record stays indexed, in seconds.
    pub retention_secs: i64,
    /// The newest capture instant taken in since startup.
    pub last_indexed_at: i64,
    /// When startup loading ran.
    pub last_hydrated_at: i64,
}

impl ClipboardIndexer {
    pub open spec fn wf(&self) -> bool {
        self.trie.wf() && self.retention_secs >= 0
    }

    /// An indexer with an empty index, created at `now`.
    pub fn new(retention_secs: i64, now: i64) -> (r: ClipboardIndexer)
        requires
            retention_secs >= 0,
        ensures
            r.wf(),
            r.trie@ == Seq::<EntryView>::empty(),
            r.retention_secs == retention_secs,
            r.last_indexed_at == now,
            r.last_hydrated_at == now,
    {
        ClipboardIndexer { trie: Trie::new(), retention_secs, last_indexed_at: now, last_hydrated_at: now }
    }

    /// The instant before which records have expired.
    pub fn cutoff(&self, now: i64) -> (r: i64)
        requires
            self.wf(),
        ensures
            r == cutoff_of(now, self.retention_secs),
    {
        saturating_cutoff(now, self.retention_secs)
    }

    /// Startup loading: indexes the recent records the store handed over.
    pub fn hydrate(&mut self, records: &[HistoryRecord], now: i64)
        requires
            old(self).wf(),
        ensures
            final(self).wf(),
            final(self).trie@ == with_all(old(self).trie@, records@),
            final(self).last_hydrated_at == now,
            final(self).last_indexed_at == old(self).last_indexed_at,
            final(self).retention_secs == old(self).retention_secs,
    {
        self.trie.insert_list(records);
        self.last_hydrated_at = now;
    }

    /// Takes in a record the store has just persisted.
    pub fn on_new_record(&mut self, record: &HistoryRecord)
        requires
            old(self).wf(),
        ensures
            final(self).wf(),
            final(self).trie@ == with_entry(old(self).trie@, entry_of(*record)),
            final(self).last_indexed_at == if record.timestamp > old(self).last_indexed_at {
                record.timestamp
            } else {
                old(self).last_indexed_at
            },
            final(self).last_hydrated_at == old(self).last_hydrated_at,
            final(self).retention_secs == old(self).retention_secs,
    {
        self.trie.insert(record);
        if record.timestamp > self.last_indexed_at {
            self.last_indexed_at = record.timestamp;
        }
    }

    /// The ids of the indexed records that have expired at `now`.
    pub fn expired_ids(&self, now: i64) -> (r: Vec<i32>)
        requires
            self.wf(),
        ensures
            r@ == ids_before(self.trie@, cutoff_of(now, self.retention_secs)),
    {
        let c = self.cutoff(now);
        self.trie.td_lt_ids(c)
    }

    /// Takes the given records out of the index.
    pub fn evict(&mut self, records: &[HistoryRecord])
        requires
            old(self).wf(),
        ensures
            final(self).wf(),
            final(self).trie@ == without_all(old(self).trie@, records@),
            final(self).last_indexed_at == old(self).last_indexed_at,
            final(self).last_hydrated_at == old(self).last_hydrated_at,
            final(self).retention_secs == old(self).retention_secs,
    {
        let ghost s0 = self.trie@;
        let mut i: usize = 0;
        while i < records.len()
            invariant
                i <= records@.len(),
                self.wf(),
                self.trie@ == without_all(s0, records@.take(i as int)),
                self.last_indexed_at == old(self).last_indexed_at,
                self.last_hydrated_at == old(self).last_hydrated_at,
                self.retention_secs == old(self).retention_secs,
            decreases records@.len() - i,
        {
            proof {
                assert(records@.take(i + 1).drop_last() =~= records@.take(i as int));
            }
            self.trie.delete(&records[i]);
            i += 1;
        }
        assert(records@.take(i as int) =~= records@);
    }

    /// The read path: an empty query asks for the plain listing from the
    /// store (`None`); any other query gets the ids of at most `n` matching
    /// records, newest first.
    pub fn search(&self, query: &str, n: u64, type_list: Option<Vec<i32>>) -> (r: Option<Vec<i32>>)
        requires
            self.wf(),
        ensures
            query@.len() == 0 ==> r is None,
            query@.len() > 0 ==> (r matches Some(ids) && ids@ == top(
                self.trie@,
                lower_of(query@),
                kinds_view(&type_list),
                n as nat,
            )),
    {
        if query.is_empty() {
            None
        } else {
            Some(self.trie.search(query, n, type_list))
        }
    }
}

} // verus!
