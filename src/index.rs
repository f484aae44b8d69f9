use vstd::prelude::*;

use crate::record::HistoryRecord;
use crate::text::{chars_of, fold_case, lower_of};
use crate::trie::{Posting, SuffixTrie};

verus! {

/// An indexed record as the contracts see it.
pub struct EntryView {
    pub id: i32,
    pub kind: i32,
    pub captured_at: i64,
    pub content: Seq<char>,
}

/// The indexed projection of a history record: id, kind code, capture instant
/// and the lower-case content that queries are matched against.
pub struct IndexEntry {
    pub id: i32,
    pub kind: i32,
    pub captured_at: i64,
    pub content: Vec<char>,
}

impl View for IndexEntry {
    type V = EntryView;

    open spec fn view(&self) -> EntryView {
        EntryView {
            id: self.id,
            kind: self.kind,
            captured_at: self.captured_at,
            content: self.content@,
        }
    }
}

/// `a` is listed ahead of `b`: newer first, and of two equally old ones the
/// larger id first.
pub open spec fn ranks_before(a: EntryView, b: EntryView) -> bool {
    a.captured_at > b.captured_at || (a.captured_at == b.captured_at && a.id > b.id)
}

pub open spec fn ranked(s: Seq<EntryView>) -> bool {
    forall|i: int, j: int| 0 <= i < j < s.len() ==> ranks_before(#[trigger] s[i], #[trigger] s[j])
}

pub open spec fn distinct_ids(s: Seq<EntryView>) -> bool {
    forall|i: int, j: int| 0 <= i < j < s.len() ==> (#[trigger] s[i]).id != (#[trigger] s[j]).id
}

/// The shape every index keeps: entries in rank order, one per id.
pub open spec fn well_formed(s: Seq<EntryView>) -> bool {
    ranked(s) && distinct_ids(s)
}

pub open spec fn has_id(s: Seq<EntryView>, id: i32) -> bool {
    exists|i: int| 0 <= i < s.len() && (#[trigger] s[i]).id == id
}

/// `needle` occurs in `hay` as a contiguous run.
pub open spec fn occurs(needle: Seq<char>, hay: Seq<char>) -> bool {
    exists|i: int|
        0 <= i && i + needle.len() <= hay.len() && #[trigger] hay.subrange(i, i + needle.len())
            == needle
}

/// No filter lets every kind through; a list lets through the kinds it holds.
pub open spec fn admits(kinds: Option<Seq<i32>>, kind: i32) -> bool {
    match kinds {
        None => true,
        Some(ks) => ks.contains(kind),
    }
}

pub open spec fn kinds_view(kinds: &Option<Vec<i32>>) -> Option<Seq<i32>> {
    match kinds {
        None => None,
        Some(v) => Some(v@),
    }
}

pub open spec fn is_hit(e: EntryView, q: Seq<char>, kinds: Option<Seq<i32>>) -> bool {
    occurs(q, e.content) && admits(kinds, e.kind)
}

/// The entries that a folded query and a kind filter select, in index order.
pub open spec fn hits(s: Seq<EntryView>, q: Seq<char>, kinds: Option<Seq<i32>>) -> Seq<EntryView>
    decreases s.len(),
{
    if s.len() == 0 {
        s
    } else if is_hit(s[0], q, kinds) {
        seq![s[0]] + hits(s.drop_first(), q, kinds)
    } else {
        hits(s.drop_first(), q, kinds)
    }
}

pub open spec fn ids(s: Seq<EntryView>) -> Seq<i32> {
    s.map_values(|e: EntryView| e.id)
}

/// What a search returns: the ids of the first `n` hits.
pub open spec fn top(s: Seq<EntryView>, q: Seq<char>, kinds: Option<Seq<i32>>, n: nat) -> Seq<i32> {
    let all = ids(hits(s, q, kinds));
    if all.len() <= n {
        all
    } else {
        all.take(n as int)
    }
}

/// `e` put in its rank position.
pub open spec fn placed(s: Seq<EntryView>, e: EntryView) -> Seq<EntryView>
    decreases s.len(),
{
    if s.len() == 0 {
        seq![e]
    } else if ranks_before(e, s[0]) {
        seq![e] + s
    } else {
        seq![s[0]] + placed(s.drop_first(), e)
    }
}

/// Adding an entry: nothing changes when its id is already there.
pub open spec fn with_entry(s: Seq<EntryView>, e: EntryView) -> Seq<EntryView> {
    if has_id(s, e.id) {
        s
    } else {
        placed(s, e)
    }
}

/// Every entry with id `id` taken out.
pub open spec fn without(s: Seq<EntryView>, id: i32) -> Seq<EntryView>
    decreases s.len(),
{
    if s.len() == 0 {
        s
    } else if s[0].id == id {
        without(s.drop_first(), id)
    } else {
        seq![s[0]] + without(s.drop_first(), id)
    }
}

/// The index entry of a record: its content folded to lower case.
pub open spec fn entry_of(r: HistoryRecord) -> EntryView {
    EntryView { id: r.id, kind: r.kind, captured_at: r.timestamp, content: lower_of(r.content@) }
}

/// The records added one after another, first to last.
pub open spec fn with_all(s: Seq<EntryView>, rs: Seq<HistoryRecord>) -> Seq<EntryView>
    decreases rs.len(),
{
    if rs.len() == 0 {
        s
    } else {
        with_entry(with_all(s, rs.drop_last()), entry_of(rs.last()))
    }
}

/// Ids of the entries captured strictly before `t`, in index order.
pub open spec fn ids_before(s: Seq<EntryView>, t: i64) -> Seq<i32>
    decreases s.len(),
{
    if s.len() == 0 {
        Seq::empty()
    } else if s[0].captured_at < t {
        seq![s[0].id] + ids_before(s.drop_first(), t)
    } else {
        ids_before(s.drop_first(), t)
    }
}

/// Ids of the entries captured strictly after `t`, in index order.
pub open spec fn ids_after(s: Seq<EntryView>, t: i64) -> Seq<i32>
    decreases s.len(),
{
    if s.len() == 0 {
        Seq::empty()
    } else if s[0].captured_at > t {
        seq![s[0].id] + ids_after(s.drop_first(), t)
    } else {
        ids_after(s.drop_first(), t)
    }
}

/// How many distinct capture instants a ranked sequence holds: one for each
/// run of equal instants.
pub open spec fn instants(s: Seq<EntryView>) -> nat
    decreases s.len(),
{
    if s.len() == 0 {
        0
    } else if s.len() >= 2 && s[1].captured_at == s[0].captured_at {
        instants(s.drop_first())
    } else {
        1 + instants(s.drop_first())
    }
}

// ---------------------------------------------------------------------------
// Lemmas

pub(crate) proof fn lemma_ids_cons(x: EntryView, t: Seq<EntryView>)
    ensures
        ids(seq![x] + t) == seq![x.id] + ids(t),
{
    assert(ids(seq![x] + t) =~= seq![x.id] + ids(t));
}

pub(crate) proof fn lemma_hits_within(s: Seq<EntryView>, q: Seq<char>, kinds: Option<Seq<i32>>)
    ensures
        hits(s, q, kinds).len() <= s.len(),
        forall|x: EntryView| #[trigger] hits(s, q, kinds).contains(x) ==> s.contains(x) && is_hit(x, q, kinds),
    decreases s.len(),
{
    if s.len() > 0 {
        let rest = s.drop_first();
        lemma_hits_within(rest, q, kinds);
        assert forall|x: EntryView| hits(s, q, kinds).contains(x) implies s.contains(x) && is_hit(x, q, kinds) by {
            if is_hit(s[0], q, kinds) && x != s[0] {
                let i = choose|i: int| 0 <= i < hits(s, q, kinds).len() && hits(s, q, kinds)[i] == x;
                assert(hits(rest, q, kinds)[i - 1] == x);
                assert(hits(rest, q, kinds).contains(x));
            }
            if rest.contains(x) {
                let j = choose|j: int| 0 <= j < rest.len() && rest[j] == x;
                assert(s[j + 1] == x);
            }
            if x == s[0] {
                assert(s[0] == x);
            }
        }
    }
}

pub(crate) proof fn lemma_hits_complete(s: Seq<EntryView>, q: Seq<char>, kinds: Option<Seq<i32>>, i: int)
    requires
        0 <= i < s.len(),
        is_hit(s[i], q, kinds),
    ensures
        hits(s, q, kinds).contains(s[i]),
    decreases s.len(),
{
    let h = hits(s, q, kinds);
    if i == 0 {
        assert(h[0] == s[0]);
    } else {
        let rest = s.drop_first();
        assert(rest[i - 1] == s[i]);
        lemma_hits_complete(rest, q, kinds, i - 1);
        let hr = hits(rest, q, kinds);
        let j = choose|j: int| 0 <= j < hr.len() && hr[j] == s[i];
        if is_hit(s[0], q, kinds) {
            assert(h[j + 1] == s[i]);
        } else {
            assert(h[j] == s[i]);
        }
    }
}

pub(crate) proof fn lemma_hits_well_formed(s: Seq<EntryView>, q: Seq<char>, kinds: Option<Seq<i32>>)
    requires
        well_formed(s),
    ensures
        well_formed(hits(s, q, kinds)),
    decreases s.len(),
{
    if s.len() > 0 {
        let rest = s.drop_first();
        assert(well_formed(rest)) by {
            assert forall|i: int, j: int| 0 <= i < j < rest.len() implies ranks_before(#[trigger] rest[i], #[trigger] rest[j]) && rest[i].id != rest[j].id by {
                assert(rest[i] == s[i + 1] && rest[j] == s[j + 1]);
            }
        }
        lemma_hits_well_formed(rest, q, kinds);
        lemma_hits_within(rest, q, kinds);
        let hr = hits(rest, q, kinds);
        if is_hit(s[0], q, kinds) {
            let h = hits(s, q, kinds);
            assert forall|i: int, j: int| 0 <= i < j < h.len() implies ranks_before(#[trigger] h[i], #[trigger] h[j]) && h[i].id != h[j].id by {
                if i == 0 {
                    assert(h[0] == s[0]);
                    assert(h[j] == hr[j - 1]);
                    assert(hr.contains(hr[j - 1]));
                    assert(rest.contains(hr[j - 1]));
                    let k = choose|k: int| 0 <= k < rest.len() && rest[k] == hr[j - 1];
                    assert(s[k + 1] == rest[k]);
                } else {
                    assert(h[i] == hr[i - 1] && h[j] == hr[j - 1]);
                }
            }
        }
    }
}

pub(crate) proof fn lemma_placed_at(s: Seq<EntryView>, e: EntryView, p: int)
    requires
        0 <= p <= s.len(),
        forall|j: int| 0 <= j < p ==> ranks_before(#[trigger] s[j], e),
        p == s.len() || ranks_before(e, s[p]),
    ensures
        s.insert(p, e) == placed(s, e),
    decreases p,
{
    if p == 0 {
        assert(s.insert(0, e) =~= seq![e] + s);
    } else {
        let rest = s.drop_first();
        assert(ranks_before(s[0], e));
        assert forall|j: int| 0 <= j < p - 1 implies ranks_before(#[trigger] rest[j], e) by {
            assert(rest[j] == s[j + 1]);
        }
        if p < s.len() {
            assert(rest[p - 1] == s[p]);
        }
        lemma_placed_at(rest, e, p - 1);
        assert(s.insert(p, e) =~= seq![s[0]] + rest.insert(p - 1, e));
    }
}

pub(crate) proof fn lemma_without_absent(s: Seq<EntryView>, id: i32)
    requires
        !has_id(s, id),
    ensures
        without(s, id) == s,
    decreases s.len(),
{
    if s.len() > 0 {
        let rest = s.drop_first();
        assert(!has_id(rest, id)) by {
            if has_id(rest, id) {
                let i = choose|i: int| 0 <= i < rest.len() && (#[trigger] rest[i]).id == id;
                assert(s[i + 1].id == id);
            }
        }
        assert(s[0].id != id);
        lemma_without_absent(rest, id);
        assert(seq![s[0]] + rest =~= s);
    }
}

pub(crate) proof fn lemma_without_at(s: Seq<EntryView>, k: int)
    requires
        0 <= k < s.len(),
        distinct_ids(s),
    ensures
        without(s, s[k].id) == s.remove(k),
    decreases k,
{
    let id = s[k].id;
    let rest = s.drop_first();
    assert(distinct_ids(rest)) by {
        assert forall|i: int, j: int| 0 <= i < j < rest.len() implies (#[trigger] rest[i]).id != (#[trigger] rest[j]).id by {
            assert(rest[i] == s[i + 1] && rest[j] == s[j + 1]);
        }
    }
    if k == 0 {
        assert(!has_id(rest, id)) by {
            if has_id(rest, id) {
                let i = choose|i: int| 0 <= i < rest.len() && (#[trigger] rest[i]).id == id;
                assert(s[i + 1].id == id);
            }
        }
        lemma_without_absent(rest, id);
        assert(s.remove(0) =~= rest);
    } else {
        assert(rest[k - 1] == s[k]);
        lemma_without_at(rest, k - 1);
        assert(s.remove(k) =~= seq![s[0]] + rest.remove(k - 1));
    }
}

/// When the first `p` entries were captured at or after `t`, the entries
/// before `t` all lie past them.
proof fn lemma_before_skip(s: Seq<EntryView>, t: i64, p: int)
    requires
        0 <= p <= s.len(),
        forall|j: int| 0 <= j < p ==> (#[trigger] s[j]).captured_at >= t,
    ensures
        ids_before(s, t) == ids_before(s.subrange(p, s.len() as int), t),
    decreases p,
{
    if p == 0 {
        assert(s.subrange(0, s.len() as int) =~= s);
    } else {
        let rest = s.drop_first();
        assert forall|j: int| 0 <= j < p - 1 implies (#[trigger] rest[j]).captured_at >= t by {
            assert(rest[j] == s[j + 1]);
        }
        lemma_before_skip(rest, t, p - 1);
        assert(rest.subrange(p - 1, rest.len() as int) =~= s.subrange(p, s.len() as int));
    }
}

/// When every entry was captured before `t`, all their ids are listed.
proof fn lemma_all_before(s: Seq<EntryView>, t: i64)
    requires
        forall|j: int| 0 <= j < s.len() ==> (#[trigger] s[j]).captured_at < t,
    ensures
        ids_before(s, t) == ids(s),
    decreases s.len(),
{
    if s.len() == 0 {
        assert(ids(s) =~= Seq::<i32>::empty());
    } else {
        let rest = s.drop_first();
        assert forall|j: int| 0 <= j < rest.len() implies (#[trigger] rest[j]).captured_at < t by {
            assert(rest[j] == s[j + 1]);
        }
        lemma_all_before(rest, t);
        assert(seq![s[0]] + rest =~= s);
        lemma_ids_cons(s[0], rest);
    }
}

/// When the first `p` entries were captured after `t` and the others not,
/// the entries after `t` are the first `p`.
proof fn lemma_after_split(s: Seq<EntryView>, t: i64, p: int)
    requires
        0 <= p <= s.len(),
        forall|j: int| 0 <= j < p ==> (#[trigger] s[j]).captured_at > t,
        forall|j: int| p <= j < s.len() ==> (#[trigger] s[j]).captured_at <= t,
    ensures
        ids_after(s, t) == ids(s.take(p)),
    decreases s.len(),
{
    if s.len() == 0 {
        assert(ids(s.take(p)) =~= Seq::<i32>::empty());
    } else {
        let rest = s.drop_first();
        let q = if p > 0 { p - 1 } else { 0 };
        assert forall|j: int| 0 <= j < q implies (#[trigger] rest[j]).captured_at > t by {
            assert(rest[j] == s[j + 1]);
        }
        assert forall|j: int| q <= j < rest.len() implies (#[trigger] rest[j]).captured_at <= t by {
            assert(rest[j] == s[j + 1]);
        }
        lemma_after_split(rest, t, q);
        if p > 0 {
            assert(s.take(p) =~= seq![s[0]] + rest.take(q));
            lemma_ids_cons(s[0], rest.take(q));
        } else {
            assert(s.take(0) =~= Seq::<EntryView>::empty());
            assert(rest.take(0) =~= Seq::<EntryView>::empty());
            assert(ids(s.take(0)) =~= Seq::<i32>::empty());
            assert(ids(rest.take(0)) =~= Seq::<i32>::empty());
        }
    }
}

// ---------------------------------------------------------------------------
// Laws of the index

/// The entries behind a search result: the first `n` hits.
pub open spec fn top_entries(s: Seq<EntryView>, q: Seq<char>, kinds: Option<Seq<i32>>, n: nat) -> Seq<EntryView> {
    let all = hits(s, q, kinds);
    if all.len() <= n {
        all
    } else {
        all.take(n as int)
    }
}

/// A search finds every indexed record whose folded content holds the folded
/// query and whose kind the filter admits, as long as the limit covers all of
/// the hits.
pub proof fn lemma_search_finds_record(s: Seq<EntryView>, i: int, q: Seq<char>, kinds: Option<Seq<i32>>, n: nat)
    requires
        well_formed(s),
        0 <= i < s.len(),
        occurs(q, s[i].content),
        admits(kinds, s[i].kind),
        n >= 1,
        hits(s, q, kinds).len() <= n,
    ensures
        top(s, q, kinds, n).contains(s[i].id),
{
    lemma_hits_complete(s, q, kinds, i);
    let h = hits(s, q, kinds);
    let j = choose|j: int| 0 <= j < h.len() && h[j] == s[i];
    assert(ids(h)[j] == s[i].id);
}

/// A search result lists records of the index, newest first and of equally
/// old ones the larger id first, each id once, and no more than the limit.
pub proof fn lemma_search_ranked(s: Seq<EntryView>, q: Seq<char>, kinds: Option<Seq<i32>>, n: nat)
    requires
        well_formed(s),
    ensures
        top(s, q, kinds, n) == ids(top_entries(s, q, kinds, n)),
        top(s, q, kinds, n).len() <= n,
        ranked(top_entries(s, q, kinds, n)),
        distinct_ids(top_entries(s, q, kinds, n)),
        forall|x: EntryView| #[trigger] top_entries(s, q, kinds, n).contains(x) ==> s.contains(x) && is_hit(x, q, kinds),
{
    lemma_hits_well_formed(s, q, kinds);
    lemma_hits_within(s, q, kinds);
    let h = hits(s, q, kinds);
    let t = top_entries(s, q, kinds, n);
    if h.len() > n {
        assert(ids(h).take(n as int) =~= ids(h.take(n as int)));
        assert forall|x: EntryView| #[trigger] t.contains(x) implies s.contains(x) && is_hit(x, q, kinds) by {
            let j = choose|j: int| 0 <= j < t.len() && t[j] == x;
            assert(h[j] == x);
            assert(h.contains(x));
        }
    }
}

proof fn lemma_without_placed(s: Seq<EntryView>, e: EntryView)
    requires
        !has_id(s, e.id),
    ensures
        without(placed(s, e), e.id) == s,
    decreases s.len(),
{
    if s.len() == 0 {
        assert(seq![e].drop_first() =~= s);
        assert(seq![e][0] == e);
        assert(without(s, e.id) == s);
    } else {
        let rest = s.drop_first();
        assert(!has_id(rest, e.id)) by {
            if has_id(rest, e.id) {
                let i = choose|i: int| 0 <= i < rest.len() && (#[trigger] rest[i]).id == e.id;
                assert(s[i + 1].id == e.id);
            }
        }
        if ranks_before(e, s[0]) {
            assert((seq![e] + s).drop_first() =~= s);
            assert((seq![e] + s)[0] == e);
            lemma_without_absent(s, e.id);
        } else {
            assert(s[0].id != e.id);
            lemma_without_placed(rest, e);
            assert((seq![s[0]] + placed(rest, e)).drop_first() =~= placed(rest, e));
            assert((seq![s[0]] + placed(rest, e))[0] == s[0]);
            assert(seq![s[0]] + rest =~= s);
        }
    }
}

proof fn lemma_placed_has(s: Seq<EntryView>, e: EntryView)
    ensures
        has_id(placed(s, e), e.id),
    decreases s.len(),
{
    if s.len() == 0 || ranks_before(e, s[0]) {
        assert(placed(s, e)[0] == e);
    } else {
        lemma_placed_has(s.drop_first(), e);
        let p = placed(s.drop_first(), e);
        let i = choose|i: int| 0 <= i < p.len() && (#[trigger] p[i]).id == e.id;
        assert(placed(s, e)[i + 1] == p[i]);
    }
}

/// Inserting a record that is not indexed and then deleting it gives back the
/// index as it was, so every search answers as before.
pub proof fn lemma_insert_then_delete(s: Seq<EntryView>, e: EntryView)
    requires
        well_formed(s),
        !has_id(s, e.id),
    ensures
        without(with_entry(s, e), e.id) == s,
        forall|q: Seq<char>, kinds: Option<Seq<i32>>, n: nat|
            #[trigger] top(without(with_entry(s, e), e.id), q, kinds, n) == top(s, q, kinds, n),
{
    lemma_without_placed(s, e);
}

/// Inserting the same record twice leaves the index as one insert does.
pub proof fn lemma_insert_idempotent(s: Seq<EntryView>, e: EntryView)
    ensures
        with_entry(with_entry(s, e), e) == with_entry(s, e),
{
    if !has_id(s, e.id) {
        lemma_placed_has(s, e);
    }
}

/// Queries that fold to the same lower-case text get the same results.
pub proof fn lemma_search_case_insensitive(
    s: Seq<EntryView>,
    q1: Seq<char>,
    q2: Seq<char>,
    kinds: Option<Seq<i32>>,
    n: nat,
)
    requires
        lower_of(q1) == lower_of(q2),
    ensures
        top(s, lower_of(q1), kinds, n) == top(s, lower_of(q2), kinds, n),
{
}

// ---------------------------------------------------------------------------
// Executable helpers

/// Whether `needle` occurs in `hay` as a contiguous run.
pub fn occurs_in(needle: &Vec<char>, hay: &Vec<char>) -> (r: bool)
    ensures
        r == occurs(needle@, hay@),
{
    let hn = needle.len();
    let hh = hay.len();
    if hn > hh {
        return false;
    }
    let mut i: usize = 0;
    while i <= hh - hn
        invariant
            hn <= hh,
            hn == needle@.len(),
            hh == hay@.len(),
            i <= hh - hn + 1,
            forall|k: int| 0 <= k < i ==> #[trigger] hay@.subrange(k, k + hn) != needle@,
        decreases hh - hn + 1 - i,
    {
        let mut j: usize = 0;
        while j < hn && hay[i + j] == needle[j]
            invariant
                j <= hn,
                i + hn <= hh,
                hn == needle@.len(),
                hh == hay@.len(),
                forall|m: int| 0 <= m < j ==> hay@[i + m] == needle@[m],
            decreases hn - j,
        {
            j += 1;
        }
        if j == hn {
            assert(hay@.subrange(i as int, i + hn) =~= needle@);
            return true;
        }
        assert(hay@.subrange(i as int, i + hn)[j as int] != needle@[j as int]);
        i += 1;
    }
    false
}

/// Whether a kind filter lets a kind code through.
pub fn kind_admitted(kinds: &Option<Vec<i32>>, kind: i32) -> (r: bool)
    ensures
        r == admits(kinds_view(kinds), kind),
{
    match kinds {
        None => true,
        Some(v) => {
            let mut i: usize = 0;
            while i < v.len()
                invariant
                    i <= v@.len(),
                    kinds_view(kinds) == Some(v@),
                    forall|j: int| 0 <= j < i ==> v@[j] != kind,
                decreases v@.len() - i,
            {
                if v[i] == kind {
                    assert(v@[i as int] == kind);
                    assert(v@.contains(kind));
                    return true;
                }
                i += 1;
            }
            false
        },
    }
}

fn ranks_before_exec(a: &IndexEntry, b: &IndexEntry) -> (r: bool)
    ensures
        r == ranks_before(a@, b@),
{
    a.captured_at > b.captured_at || (a.captured_at == b.captured_at && a.id > b.id)
}

/// The substring index: a generalized suffix trie over the folded content of
/// the indexed records, beside the records themselves kept in rank order
/// (newest first, then larger id first), one entry per id. Being ordered by
/// capture instant, the records also answer the time-range queries.
pub struct Trie {
    entries: Vec<IndexEntry>,
    suffixes: SuffixTrie,
}

impl View for Trie {
    type V = Seq<EntryView>;

    closed spec fn view(&self) -> Seq<EntryView> {
        self.entries@.map_values(|e: IndexEntry| e@)
    }
}

impl Trie {
    pub open spec fn wf(&self) -> bool {
        well_formed(self@) && self.trie_indexes_entries()
    }

    /// The suffix trie indexes exactly the entries.
    pub closed spec fn trie_indexes_entries(&self) -> bool {
        self.suffixes.inv(self@)
    }

    /// An empty index.
    pub fn new() -> (r: Trie)
        ensures
            r.wf(),
            r@ == Seq::<EntryView>::empty(),
    {
        let r = Trie { entries: Vec::new(), suffixes: SuffixTrie::new() };
        assert(r@ =~= Seq::<EntryView>::empty());
        r
    }

    /// How many records are indexed.
    pub fn len(&self) -> (r: usize)
        ensures
            r == self@.len(),
    {
        self.entries.len()
    }

    /// Where the entry with id `id` stands, if there is one.
    fn position_of(&self, id: i32) -> (r: Option<usize>)
        ensures
            match r {
                None => !has_id(self@, id),
                Some(k) => k < self@.len() && self@[k as int].id == id,
            },
    {
        let mut i: usize = 0;
        while i < self.entries.len()
            invariant
                i <= self@.len(),
                self@.len() == self.entries@.len(),
                forall|j: int| 0 <= j < i ==> (#[trigger] self@[j]).id != id,
            decreases self@.len() - i,
        {
            if self.entries[i].id == id {
                return Some(i);
            }
            i += 1;
        }
        None
    }

    /// Whether a record with id `id` is indexed.
    pub fn contains_id(&self, id: i32) -> (r: bool)
        ensures
            r == has_id(self@, id),
    {
        self.position_of(id).is_some()
    }

    /// Adds an entry in its rank position; an entry whose id is already
    /// indexed leaves the index as it was.
    pub fn insert_entry(&mut self, e: IndexEntry)
        requires
            old(self).wf(),
        ensures
            final(self).wf(),
            final(self)@ == with_entry(old(self)@, e@),
    {
        let ghost s = self@;
        let ghost ev = e@;
        if self.position_of(e.id).is_some() {
            return;
        }
        let mut p: usize = 0;
        while p < self.entries.len() && ranks_before_exec(&self.entries[p], &e)
            invariant
                p <= s.len(),
                self@ == s,
                e@ == ev,
                self.entries@.len() == s.len(),
                forall|j: int| 0 <= j < p ==> ranks_before(#[trigger] s[j], ev),
            decreases s.len() - p,
        {
            assert(self.entries@[p as int]@ == s[p as int]);
            p += 1;
        }
        proof {
            if p < s.len() {
                assert(s[p as int].id != ev.id);
                assert(ranks_before(ev, s[p as int]));
            }
            lemma_placed_at(s, ev, p as int);
        }
        let posting = Posting { id: e.id, kind: e.kind, captured_at: e.captured_at };
        self.suffixes.insert_record(&e.content, posting, Ghost(s), Ghost(ev));
        self.entries.insert(p, e);
        proof {
            let t = s.insert(p as int, ev);
            assert(self@ =~= t);
            assert forall|i: int, j: int| 0 <= i < j < t.len() implies ranks_before(#[trigger] t[i], #[trigger] t[j]) && t[i].id != t[j].id by {
                if j < p {
                    assert(t[i] == s[i] && t[j] == s[j]);
                } else if j == p {
                    assert(t[i] == s[i]);
                } else if i < p {
                    assert(t[i] == s[i] && t[j] == s[j - 1]);
                } else if i == p {
                    assert(t[j] == s[j - 1]);
                    assert(ranks_before(ev, s[p as int]));
                    if j - 1 > p {
                        assert(ranks_before(s[p as int], s[j - 1]));
                    }
                } else {
                    assert(t[i] == s[i - 1] && t[j] == s[j - 1]);
                }
            }
        }
    }

    /// Indexes one record under its lower-case content; a record whose id is
    /// already indexed leaves the index as it was.
    pub fn insert(&mut self, doc: &HistoryRecord)
        requires
            old(self).wf(),
        ensures
            final(self).wf(),
            final(self)@ == with_entry(old(self)@, entry_of(*doc)),
    {
        let folded = fold_case(doc.content.as_str());
        let content = chars_of(folded.as_str());
        let e = IndexEntry { id: doc.id, kind: doc.kind, captured_at: doc.timestamp, content };
        self.insert_entry(e);
    }

    /// Indexes records one after another, first to last.
    pub fn insert_list(&mut self, docs: &[HistoryRecord])
        requires
            old(self).wf(),
        ensures
            final(self).wf(),
            final(self)@ == with_all(old(self)@, docs@),
    {
        let ghost s0 = self@;
        let mut i: usize = 0;
        while i < docs.len()
            invariant
                i <= docs@.len(),
                self.wf(),
                self@ == with_all(s0, docs@.take(i as int)),
            decreases docs@.len() - i,
        {
            proof {
                assert(docs@.take(i + 1).drop_last() =~= docs@.take(i as int));
            }
            self.insert(&docs[i]);
            i += 1;
        }
        assert(docs@.take(i as int) =~= docs@);
    }

    /// The ids of at most `n` records whose content holds the folded query
    /// and whose kind the filter admits, in rank order. A non-empty query is
    /// walked down the suffix trie; the empty one, held by every record, reads
    /// the records in order.
    pub fn search_folded(&self, query: &Vec<char>, n: u64, type_list: &Option<Vec<i32>>) -> (r: Vec<i32>)
        requires
            self.wf(),
        ensures
            r@ == top(self@, query@, kinds_view(type_list), n as nat),
    {
        if query.len() == 0 {
            self.scan_folded(query, n, type_list)
        } else {
            self.suffixes.search(query, n, type_list, Ghost(self@))
        }
    }

    /// The same answer as `search_folded`, read off the records in order.
    fn scan_folded(&self, query: &Vec<char>, n: u64, type_list: &Option<Vec<i32>>) -> (r: Vec<i32>)
        ensures
            r@ == top(self@, query@, kinds_view(type_list), n as nat),
    {
        let ghost s = self@;
        let ghost q = query@;
        let ghost k = kinds_view(type_list);
        let mut out: Vec<i32> = Vec::new();
        let mut i: usize = 0;
        assert(s.subrange(0, s.len() as int) =~= s);
        while i < self.entries.len() && (out.len() as u64) < n
            invariant
                i <= s.len(),
                s == self@,
                q == query@,
                k == kinds_view(type_list),
                self.entries@.len() == s.len(),
                out@.len() <= n,
                ids(hits(s, q, k)) == out@ + ids(hits(s.subrange(i as int, s.len() as int), q, k)),
            decreases s.len() - i,
        {
            let e = &self.entries[i];
            assert(e@ == s[i as int]);
            let m = occurs_in(query, &e.content) && kind_admitted(type_list, e.kind);
            proof {
                let sub = s.subrange(i as int, s.len() as int);
                assert(sub.drop_first() =~= s.subrange(i + 1, s.len() as int));
                assert(sub[0] == s[i as int]);
                lemma_ids_cons(s[i as int], hits(sub.drop_first(), q, k));
            }
            if m {
                out.push(e.id);
            }
            proof {
                let sub = s.subrange(i as int, s.len() as int);
                assert(ids(hits(s, q, k)) =~= out@ + ids(hits(s.subrange(i + 1, s.len() as int), q, k)));
            }
            i += 1;
        }
        proof {
            let all = ids(hits(s, q, k));
            let rest = ids(hits(s.subrange(i as int, s.len() as int), q, k));
            if i == s.len() {
                assert(s.subrange(i as int, s.len() as int) =~= Seq::<EntryView>::empty());
                assert(rest =~= Seq::<i32>::empty());
                assert(all =~= out@);
            } else if all.len() <= n {
                assert(all =~= out@);
            } else {
                assert(all.take(n as int) =~= out@);
            }
        }
        out
    }

    /// Searches with a query folded to lower case first: the ids of at most
    /// `n` matching records of the admitted kinds, newest first.
    pub fn search(&self, query: &str, n: u64, type_list: Option<Vec<i32>>) -> (r: Vec<i32>)
        requires
            self.wf(),
        ensures
            r@ == top(self@, lower_of(query@), kinds_view(&type_list), n as nat),
    {
        let folded = fold_case(query);
        let q = chars_of(folded.as_str());
        self.search_folded(&q, n, &type_list)
    }

    /// Takes the record's entry out of the index, found by its id: the id
    /// leaves every posting list along the suffixes of the stored content, and
    /// trie nodes left as empty leaves are unlinked.
    pub fn delete(&mut self, doc: &HistoryRecord)
        requires
            old(self).wf(),
        ensures
            final(self).wf(),
            final(self)@ == without(old(self)@, doc.id),
    {
        let ghost s = self@;
        match self.position_of(doc.id) {
            None => {
                proof {
                    lemma_without_absent(s, doc.id);
                }
            },
            Some(k) => {
                proof {
                    lemma_without_at(s, k as int);
                }
                self.suffixes.remove_record(&self.entries[k].content, doc.id, Ghost(s), Ghost(k as int));
                let _ = self.entries.remove(k);
                proof {
                    let t = s.remove(k as int);
                    assert(self@ =~= t);
                    assert forall|i: int, j: int| 0 <= i < j < t.len() implies ranks_before(#[trigger] t[i], #[trigger] t[j]) && t[i].id != t[j].id by {
                        if j < k {
                            assert(t[i] == s[i] && t[j] == s[j]);
                        } else if i < k {
                            assert(t[i] == s[i] && t[j] == s[j + 1]);
                        } else {
                            assert(t[i] == s[i + 1] && t[j] == s[j + 1]);
                        }
                    }
                }
            },
        }
    }

    /// Ids of the records captured strictly before `timestamp`, newest first:
    /// they form the tail of the ranked records, found by binary search.
    pub fn td_lt_ids(&self, timestamp: i64) -> (r: Vec<i32>)
        requires
            self.wf(),
        ensures
            r@ == ids_before(self@, timestamp),
    {
        let ghost s = self@;
        let len = self.entries.len();
        let mut lo: usize = 0;
        let mut hi: usize = len;
        while lo < hi
            invariant
                lo <= hi <= len,
                len == s.len(),
                s == self@,
                ranked(s),
                self.entries@.len() == s.len(),
                forall|j: int| 0 <= j < lo ==> (#[trigger] s[j]).captured_at >= timestamp,
                forall|j: int| hi <= j < len ==> (#[trigger] s[j]).captured_at < timestamp,
            decreases hi - lo,
        {
            let mid = lo + (hi - lo) / 2;
            assert(self.entries@[mid as int]@ == s[mid as int]);
            if self.entries[mid].captured_at >= timestamp {
                assert forall|j: int| 0 <= j <= mid implies (#[trigger] s[j]).captured_at >= timestamp by {
                    if j < mid {
                        assert(ranks_before(s[j], s[mid as int]));
                    }
                }
                lo = mid + 1;
            } else {
                assert forall|j: int| mid <= j < len implies (#[trigger] s[j]).captured_at < timestamp by {
                    if j > mid {
                        assert(ranks_before(s[mid as int], s[j]));
                    }
                }
                hi = mid;
            }
        }
        let p = lo;
        let mut out: Vec<i32> = Vec::new();
        let mut i: usize = p;
        assert(s.subrange(p as int, p as int) =~= Seq::<EntryView>::empty());
        while i < len
            invariant
                p <= i <= len,
                len == s.len(),
                s == self@,
                self.entries@.len() == s.len(),
                out@ == ids(s.subrange(p as int, i as int)),
            decreases len - i,
        {
            assert(self.entries@[i as int]@ == s[i as int]);
            out.push(self.entries[i].id);
            assert(s.subrange(p as int, i + 1) =~= s.subrange(p as int, i as int).push(s[i as int]));
            assert(out@ =~= ids(s.subrange(p as int, i + 1)));
            i += 1;
        }
        proof {
            lemma_before_skip(s, timestamp, p as int);
            lemma_all_before(s.subrange(p as int, len as int), timestamp);
        }
        out
    }

    /// Ids of the records captured strictly after `timestamp`, newest first:
    /// they form the head of the ranked records.
    pub fn td_gt_ids(&self, timestamp: i64) -> (r: Vec<i32>)
        requires
            self.wf(),
        ensures
            r@ == ids_after(self@, timestamp),
    {
        let ghost s = self@;
        let len = self.entries.len();
        let mut out: Vec<i32> = Vec::new();
        let mut i: usize = 0;
        assert(s.take(0) =~= Seq::<EntryView>::empty());
        while i < len && self.entries[i].captured_at > timestamp
            invariant
                i <= len,
                len == s.len(),
                s == self@,
                self.entries@.len() == s.len(),
                out@ == ids(s.take(i as int)),
                forall|j: int| 0 <= j < i ==> (#[trigger] s[j]).captured_at > timestamp,
            decreases len - i,
        {
            assert(self.entries@[i as int]@ == s[i as int]);
            out.push(self.entries[i].id);
            assert(s.take(i + 1) =~= s.take(i as int).push(s[i as int]));
            assert(out@ =~= ids(s.take(i + 1)));
            i += 1;
        }
        proof {
            if i < len {
                assert(self.entries@[i as int]@ == s[i as int]);
                assert forall|j: int| i <= j < len implies (#[trigger] s[j]).captured_at <= timestamp by {
                    if j > i {
                        assert(ranks_before(s[i as int], s[j]));
                    }
                }
            }
            lemma_after_split(s, timestamp, i as int);
        }
        out
    }

    /// How many distinct capture instants the index holds.
    pub fn instant_count(&self) -> (r: usize)
        ensures
            r == instants(self@),
    {
        let ghost s = self@;
        let mut c: usize = 0;
        let mut i: usize = 0;
        assert(s.subrange(0, s.len() as int) =~= s);
        while i < self.entries.len()
            invariant
                i <= s.len(),
                c <= i,
                s == self@,
                self.entries@.len() == s.len(),
                instants(s) == c + instants(s.subrange(i as int, s.len() as int)),
            decreases s.len() - i,
        {
            proof {
                let sub = s.subrange(i as int, s.len() as int);
                assert(sub.drop_first() =~= s.subrange(i + 1, s.len() as int));
                assert(sub[0] == s[i as int]);
                if i + 1 < s.len() {
                    assert(sub[1] == s[i + 1]);
                }
            }
            if !(i + 1 < self.entries.len() && self.entries[i + 1].captured_at == self.entries[i].captured_at) {
                c += 1;
            }
            i += 1;
        }
        assert(s.subrange(i as int, s.len() as int) =~= Seq::<EntryView>::empty());
        c
    }

    /// How many indexed records hold the folded `path` in their content; none
    /// when no record does.
    pub fn posting_len(&self, path: &str) -> (r: Option<usize>)
        requires
            self.wf(),
        ensures
            r == (if hits(self@, lower_of(path@), None).len() == 0 {
                None
            } else {
                Some(hits(self@, lower_of(path@), None).len() as usize)
            }),
    {
        let folded = fold_case(path);
        let q = chars_of(folded.as_str());
        if q.len() > 0 {
            let c = self.suffixes.count(&q, Ghost(self@));
            return if c == 0 {
                None
            } else {
                Some(c)
            };
        }
        let ghost s = self@;
        let mut c: usize = 0;
        let mut i: usize = 0;
        assert(s.subrange(0, s.len() as int) =~= s);
        while i < self.entries.len()
            invariant
                i <= s.len(),
                c <= i,
                s == self@,
                q@ == lower_of(path@),
                self.entries@.len() == s.len(),
                hits(s, q@, None).len() == c + hits(s.subrange(i as int, s.len() as int), q@, None).len(),
            decreases s.len() - i,
        {
            let e = &self.entries[i];
            assert(e@ == s[i as int]);
            proof {
                let sub = s.subrange(i as int, s.len() as int);
                assert(sub.drop_first() =~= s.subrange(i + 1, s.len() as int));
                assert(sub[0] == s[i as int]);
            }
            if occurs_in(&q, &e.content) {
                c += 1;
            }
            i += 1;
        }
        assert(s.subrange(i as int, s.len() as int) =~= Seq::<EntryView>::empty());
        if c == 0 {
            None
        } else {
            Some(c)
        }
    }
}

} // verus!
