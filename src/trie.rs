use vstd::pervasive::VecAdditionalExecFns;
use vstd::prelude::*;

use crate::index::{
    distinct_ids, has_id, hits, ids, kind_admitted, kinds_view, lemma_hits_complete,
    lemma_hits_well_formed, lemma_ids_cons, top, lemma_hits_within, lemma_placed_at,
    lemma_without_absent, lemma_without_at, is_hit, occurs, placed, ranks_before,
    well_formed, without, EntryView,
};

verus! {

/// What a posting list records of an indexed record.
#[derive(Clone, Copy)]
pub struct Posting {
    pub id: i32,
    pub kind: i32,
    pub captured_at: i64,
}

pub open spec fn post(e: EntryView) -> Posting {
    Posting { id: e.id, kind: e.kind, captured_at: e.captured_at }
}

pub open spec fn posts(s: Seq<EntryView>) -> Seq<Posting> {
    s.map_values(|e: EntryView| post(e))
}

/// Some entry of `s` holds `w` in its content.
pub open spec fn contained(s: Seq<EntryView>, w: Seq<char>) -> bool {
    exists|i: int| 0 <= i < s.len() && occurs(w, #[trigger] s[i].content)
}

// ---------------------------------------------------------------------------
// Lemmas on hits

pub(crate) proof fn lemma_hits_none(s: Seq<EntryView>, w: Seq<char>, kinds: Option<Seq<i32>>)
    requires
        !contained(s, w),
    ensures
        hits(s, w, kinds) == Seq::<EntryView>::empty(),
{
    lemma_hits_within(s, w, kinds);
    let h = hits(s, w, kinds);
    if h.len() > 0 {
        assert(h.contains(h[0]));
        assert(s.contains(h[0]));
        let i = choose|i: int| 0 <= i < s.len() && s[i] == h[0];
        assert(occurs(w, s[i].content));
    }
    assert(h =~= Seq::<EntryView>::empty());
}

pub(crate) proof fn lemma_occurs_prefix(w: Seq<char>, x: Seq<char>, j: int)
    requires
        occurs(w, x),
        0 <= j <= w.len(),
    ensures
        occurs(w.take(j), x),
{
    let i = choose|i: int| 0 <= i && i + w.len() <= x.len() && #[trigger] x.subrange(i, i + w.len()) == w;
    assert(x.subrange(i, i + j) =~= w.take(j));
}

pub(crate) proof fn lemma_contained_prefix(s: Seq<EntryView>, w: Seq<char>, j: int)
    requires
        contained(s, w),
        0 <= j <= w.len(),
    ensures
        contained(s, w.take(j)),
{
    let i = choose|i: int| 0 <= i < s.len() && occurs(w, #[trigger] s[i].content);
    lemma_occurs_prefix(w, s[i].content, j);
}

proof fn lemma_rest_well_formed(s: Seq<EntryView>)
    requires
        well_formed(s),
        s.len() > 0,
    ensures
        well_formed(s.drop_first()),
{
    let rest = s.drop_first();
    assert forall|i: int, j: int| 0 <= i < j < rest.len() implies ranks_before(#[trigger] rest[i], #[trigger] rest[j]) && rest[i].id != rest[j].id by {
        assert(rest[i] == s[i + 1] && rest[j] == s[j + 1]);
    }
}

/// Adding an entry changes the hits of `w` only if the entry holds `w`, and
/// then by placing it among them.
pub(crate) proof fn lemma_hits_placed(s: Seq<EntryView>, e: EntryView, w: Seq<char>)
    requires
        well_formed(s),
        !has_id(s, e.id),
    ensures
        hits(placed(s, e), w, None) == if is_hit(e, w, None) {
            placed(hits(s, w, None), e)
        } else {
            hits(s, w, None)
        },
    decreases s.len(),
{
    let h = hits(s, w, None);
    if s.len() == 0 {
        assert(seq![e].drop_first() =~= s);
        assert(seq![e][0] == e);
    } else if ranks_before(e, s[0]) {
        let t = seq![e] + s;
        assert(t.drop_first() =~= s);
        assert(t[0] == e);
        if is_hit(e, w, None) && h.len() > 0 {
            lemma_hits_within(s, w, None);
            assert(h.contains(h[0]));
            assert(s.contains(h[0]));
            let k = choose|k: int| 0 <= k < s.len() && s[k] == h[0];
            if k > 0 {
                assert(ranks_before(s[0], s[k]));
            }
            assert(ranks_before(e, h[0]));
        }
    } else {
        let rest = s.drop_first();
        lemma_rest_well_formed(s);
        assert(!has_id(rest, e.id)) by {
            if has_id(rest, e.id) {
                let i = choose|i: int| 0 <= i < rest.len() && (#[trigger] rest[i]).id == e.id;
                assert(s[i + 1].id == e.id);
            }
        }
        lemma_hits_placed(rest, e, w);
        let t = seq![s[0]] + placed(rest, e);
        assert(t.drop_first() =~= placed(rest, e));
        assert(t[0] == s[0]);
        if is_hit(s[0], w, None) {
            let hs = seq![s[0]] + hits(rest, w, None);
            assert(hs[0] == s[0]);
            assert(hs.drop_first() =~= hits(rest, w, None));
            assert(!ranks_before(e, hs[0]));
        }
    }
}

/// Removing an id from the entries removes it from the hits of every `w`.
pub(crate) proof fn lemma_hits_without(s: Seq<EntryView>, id: i32, w: Seq<char>)
    ensures
        hits(without(s, id), w, None) == without(hits(s, w, None), id),
    decreases s.len(),
{
    if s.len() > 0 {
        let rest = s.drop_first();
        lemma_hits_without(rest, id, w);
        if s[0].id != id {
            let t = seq![s[0]] + without(rest, id);
            assert(t.drop_first() =~= without(rest, id));
            assert(t[0] == s[0]);
        }
        if is_hit(s[0], w, None) {
            let hs = seq![s[0]] + hits(rest, w, None);
            assert(hs[0] == s[0]);
            assert(hs.drop_first() =~= hits(rest, w, None));
        }
    }
}

/// Filtering the hits of `q` by kind gives the hits of `q` with that filter.
pub(crate) proof fn lemma_hits_refine(s: Seq<EntryView>, q: Seq<char>, kinds: Option<Seq<i32>>)
    ensures
        hits(hits(s, q, None), q, kinds) == hits(s, q, kinds),
    decreases s.len(),
{
    if s.len() > 0 {
        let rest = s.drop_first();
        lemma_hits_refine(rest, q, kinds);
        if is_hit(s[0], q, None) {
            let hs = seq![s[0]] + hits(rest, q, None);
            assert(hs[0] == s[0]);
            assert(hs.drop_first() =~= hits(rest, q, None));
        }
    }
}


// ---------------------------------------------------------------------------
// Progress of an insertion: which paths have had the new record added.

/// `anc` is a proper prefix of `p`.
spec fn below(anc: Seq<char>, p: Seq<char>) -> bool {
    anc.len() < p.len() && p.take(anc.len() as int) == anc
}

/// `w` is a prefix, of length at least one, of a suffix of `c` that starts
/// before `i`, or of the suffix at `i` no longer than `j - i`.
spec fn done(c: Seq<char>, i: int, j: int, w: Seq<char>) -> bool {
    &&& w.len() >= 1
    &&& {
        ||| (exists|a: int| 0 <= a < i && a + w.len() <= c.len() && #[trigger] c.subrange(a, a + w.len()) == w)
        ||| (i + w.len() <= j && c.subrange(i, i + w.len()) == w)
    }
}

proof fn lemma_done_step(c: Seq<char>, i: int, j: int, w: Seq<char>)
    requires
        0 <= i <= j < c.len(),
    ensures
        done(c, i, j + 1, w) == (done(c, i, j, w) || w == c.subrange(i, j + 1)),
{
}

proof fn lemma_done_prefix(c: Seq<char>, i: int, j: int, w: Seq<char>, ch: char)
    requires
        0 <= i <= j <= c.len(),
        w.len() >= 1,
        done(c, i, j, w.push(ch)),
    ensures
        done(c, i, j, w),
{
    let v = w.push(ch);
    if exists|a: int| 0 <= a < i && a + v.len() <= c.len() && #[trigger] c.subrange(a, a + v.len()) == v {
        let a = choose|a: int| 0 <= a < i && a + v.len() <= c.len() && #[trigger] c.subrange(a, a + v.len()) == v;
        assert(c.subrange(a, a + w.len()) =~= w) by {
            assert forall|k: int| 0 <= k < w.len() implies c.subrange(a, a + w.len())[k] == w[k] by {
                assert(c.subrange(a, a + v.len())[k] == v[k]);
            }
        }
    } else {
        assert(c.subrange(i, i + w.len()) =~= w) by {
            assert forall|k: int| 0 <= k < w.len() implies c.subrange(i, i + w.len())[k] == w[k] by {
                assert(c.subrange(i, i + v.len())[k] == v[k]);
            }
        }
    }
}

proof fn lemma_done_next_suffix(c: Seq<char>, i: int, w: Seq<char>)
    requires
        0 <= i < c.len(),
    ensures
        done(c, i, c.len() as int, w) == done(c, i + 1, i + 1, w),
{
    if done(c, i + 1, i + 1, w) {
        let a = choose|a: int| 0 <= a < i + 1 && a + w.len() <= c.len() && #[trigger] c.subrange(a, a + w.len()) == w;
        if a < i {
            assert(0 <= a < i && a + w.len() <= c.len() && c.subrange(a, a + w.len()) == w);
        }
    }
    if done(c, i, c.len() as int, w) {
        if i + w.len() <= c.len() && c.subrange(i, i + w.len()) == w {
            assert(0 <= i < i + 1 && i + w.len() <= c.len() && c.subrange(i, i + w.len()) == w);
        }
    }
}

proof fn lemma_done_all(c: Seq<char>, w: Seq<char>)
    ensures
        done(c, c.len() as int, c.len() as int, w) == (w.len() >= 1 && occurs(w, c)),
{
    if w.len() >= 1 && occurs(w, c) {
        let a = choose|a: int| 0 <= a && a + w.len() <= c.len() && #[trigger] c.subrange(a, a + w.len()) == w;
        assert(0 <= a < c.len());
    }
}

proof fn lemma_placed_members(s: Seq<EntryView>, e: EntryView)
    ensures
        forall|k: int| 0 <= k < placed(s, e).len() ==> #[trigger] placed(s, e)[k] == e || s.contains(placed(s, e)[k]),
        placed(s, e).contains(e),
    decreases s.len(),
{
    let t = placed(s, e);
    if s.len() == 0 {
        assert(t[0] == e);
    } else if ranks_before(e, s[0]) {
        assert(t[0] == e);
        assert forall|k: int| 0 <= k < t.len() implies #[trigger] t[k] == e || s.contains(t[k]) by {
            if k > 0 {
                assert(t[k] == s[k - 1]);
            }
        }
    } else {
        let rest = s.drop_first();
        lemma_placed_members(rest, e);
        let r = placed(rest, e);
        assert forall|k: int| 0 <= k < t.len() implies #[trigger] t[k] == e || s.contains(t[k]) by {
            if k == 0 {
                assert(t[0] == s[0]);
            } else {
                assert(t[k] == r[k - 1]);
                if r[k - 1] != e {
                    assert(rest.contains(r[k - 1]));
                    let q = choose|q: int| 0 <= q < rest.len() && rest[q] == r[k - 1];
                    assert(s[q + 1] == rest[q]);
                }
            }
        }
        let q = choose|q: int| 0 <= q < r.len() && r[q] == e;
        assert(t[q + 1] == e);
    }
}

proof fn lemma_without_members(s: Seq<EntryView>, id: i32)
    ensures
        forall|x: EntryView| #[trigger] without(s, id).contains(x) ==> s.contains(x) && x.id != id,
    decreases s.len(),
{
    if s.len() > 0 {
        let rest = s.drop_first();
        lemma_without_members(rest, id);
        let t = without(s, id);
        assert forall|x: EntryView| t.contains(x) implies s.contains(x) && x.id != id by {
            let k = choose|k: int| 0 <= k < t.len() && t[k] == x;
            let r = without(rest, id);
            if s[0].id == id {
                assert(r.contains(x));
            } else if k == 0 {
                assert(t[0] == s[0]);
            } else {
                assert(t[k] == r[k - 1]);
                assert(r.contains(x));
            }
            if rest.contains(x) {
                let q = choose|q: int| 0 <= q < rest.len() && rest[q] == x;
                assert(s[q + 1] == x);
            }
        }
    }
}

// ---------------------------------------------------------------------------
// Posting lists

/// Where the posting with `id` stands in `list`, if anywhere.
fn posting_index(list: &Vec<Posting>, id: i32) -> (r: Option<usize>)
    ensures
        match r {
            Some(k) => k < list@.len() && list@[k as int].id == id,
            None => forall|k: int| 0 <= k < list@.len() ==> (#[trigger] list@[k]).id != id,
        },
{
    let mut k: usize = 0;
    while k < list.len()
        invariant
            k <= list@.len(),
            forall|j: int| 0 <= j < k ==> (#[trigger] list@[j]).id != id,
        decreases list@.len() - k,
    {
        if list[k].id == id {
            return Some(k);
        }
        k += 1;
    }
    None
}

/// Puts a posting in its rank position.
fn place_posting(list: &mut Vec<Posting>, p: Posting, Ghost(h): Ghost<Seq<EntryView>>, Ghost(e): Ghost<EntryView>)
    requires
        old(list)@ == posts(h),
        well_formed(h),
        !has_id(h, e.id),
        p == post(e),
    ensures
        final(list)@ == posts(placed(h, e)),
{
    let mut i: usize = 0;
    while i < list.len() && (list[i].captured_at > p.captured_at || (list[i].captured_at == p.captured_at
        && list[i].id > p.id))
        invariant
            list@ == posts(h),
            i <= h.len(),
            p == post(e),
            forall|j: int| 0 <= j < i ==> ranks_before(#[trigger] h[j], e),
        decreases h.len() - i,
    {
        assert(list@[i as int] == post(h[i as int]));
        i += 1;
    }
    proof {
        if i < h.len() {
            assert(list@[i as int] == post(h[i as int]));
            assert(h[i as int].id != e.id);
            assert(ranks_before(e, h[i as int]));
        }
        lemma_placed_at(h, e, i as int);
    }
    list.insert(i, p);
    assert(list@ =~= posts(h.insert(i as int, e)));
}

/// Takes the posting at `k` out.
fn remove_posting(list: &mut Vec<Posting>, k: usize, Ghost(h): Ghost<Seq<EntryView>>)
    requires
        old(list)@ == posts(h),
        distinct_ids(h),
        k < h.len(),
    ensures
        final(list)@ == posts(without(h, h[k as int].id)),
{
    proof {
        lemma_without_at(h, k as int);
    }
    list.remove(k);
    assert(list@ =~= posts(h.remove(k as int)));
}

// ---------------------------------------------------------------------------
// The trie

struct TrieNode {
    children: Vec<(char, usize)>,
    doc_ids: Vec<Posting>,
}

/// A generalized suffix trie kept in an arena: node 0 is the root, each child
/// edge is labelled by a character, and each node's posting list holds, in
/// rank order, the records whose folded content contains the node's path.
pub struct SuffixTrie {
    nodes: Vec<TrieNode>,
    paths: Ghost<Seq<Option<Seq<char>>>>,
}

impl SuffixTrie {
    /// Node `n` is in use; unlinked nodes keep their slot but have no path.
    spec fn live(&self, n: int) -> bool {
        0 <= n < self.nodes@.len() && self.paths@[n] is Some
    }

    /// The characters on the edges from the root down to node `n`.
    spec fn path(&self, n: int) -> Seq<char> {
        self.paths@[n]->Some_0
    }

    spec fn kids(&self, n: int) -> Seq<(char, usize)> {
        self.nodes@[n].children@
    }

    spec fn docs(&self, n: int) -> Seq<Posting> {
        self.nodes@[n].doc_ids@
    }

    spec fn linked(&self, n: int, ch: char, m: int) -> bool {
        exists|k: int| 0 <= k < self.kids(n).len() && #[trigger] self.kids(n)[k] == (ch, m as usize)
    }

    spec fn has_kid(&self, n: int, ch: char) -> bool {
        exists|k: int| 0 <= k < self.kids(n).len() && (#[trigger] self.kids(n)[k]).0 == ch
    }

    /// The arena is a tree: the root has the empty path, an edge extends its
    /// parent's path by its label, no two edges of a node share a label, no two
    /// live nodes share a path, and every other live node hangs from the node
    /// of its path's prefix.
    spec fn structure(&self) -> bool {
        &&& self.nodes@.len() >= 1
        &&& self.paths@.len() == self.nodes@.len()
        &&& self.paths@[0] == Some(Seq::<char>::empty())
        &&& forall|n: int, k: int|
            self.live(n) && 0 <= k < self.kids(n).len() ==> self.live(#[trigger] self.kids(n)[k].1 as int)
                && self.path(self.kids(n)[k].1 as int) == self.path(n).push(self.kids(n)[k].0)
        &&& forall|n: int, k1: int, k2: int|
            self.live(n) && 0 <= k1 < k2 < self.kids(n).len() ==> (#[trigger] self.kids(n)[k1]).0
                != (#[trigger] self.kids(n)[k2]).0
        &&& forall|m1: int, m2: int|
            self.live(m1) && self.live(m2) && #[trigger] self.path(m1) == #[trigger] self.path(m2) ==> m1 == m2
        &&& forall|m: int|
            #[trigger] self.live(m) && m != 0 ==> exists|n: int|
                self.live(n) && #[trigger] self.path(n) == self.path(m).drop_last() && self.linked(
                    n,
                    self.path(m).last(),
                    m,
                )
    }

    /// Each non-root node lists, in rank order, the entries of `src(path)`
    /// that hold its path.
    spec fn postings_match(&self, src: spec_fn(Seq<char>) -> Seq<EntryView>) -> bool {
        forall|n: int|
            self.live(n) && n != 0 ==> #[trigger] self.docs(n) == posts(
                hits(src(self.path(n)), self.path(n), None),
            )
    }

    /// Every path that `need` asks for, one character below a live node, has
    /// its child node.
    spec fn complete(&self, need: spec_fn(Seq<char>) -> bool) -> bool {
        forall|n: int, ch: char| self.live(n) && need(self.path(n).push(ch)) ==> #[trigger] self.has_kid(n, ch)
    }

    /// The trie indexes exactly the entries of `s`.
    pub(crate) closed spec fn inv(&self, s: Seq<EntryView>) -> bool {
        &&& self.structure()
        &&& self.postings_match(|w: Seq<char>| s)
        &&& self.complete(|w: Seq<char>| contained(s, w))
    }

    /// A trie with the root alone, indexing nothing.
    pub(crate) fn new() -> (r: SuffixTrie)
        ensures
            r.inv(Seq::empty()),
    {
        let mut nodes: Vec<TrieNode> = Vec::new();
        nodes.push(TrieNode { children: Vec::new(), doc_ids: Vec::new() });
        let ghost p = seq![Some(Seq::<char>::empty())];
        let r = SuffixTrie { nodes, paths: Ghost(p) };
        assert forall|n: int, ch: char| r.live(n) && contained(Seq::<EntryView>::empty(), r.path(n).push(ch)) implies #[trigger] r.has_kid(n, ch) by {}
        r
    }

    /// The child of node `n` along `ch`, if there is one.
    fn child_of(&self, n: usize, ch: char) -> (r: Option<usize>)
        requires
            self.structure(),
            self.live(n as int),
        ensures
            match r {
                Some(m) => self.live(m as int) && self.path(m as int) == self.path(n as int).push(ch)
                    && self.linked(n as int, ch, m as int),
                None => !self.has_kid(n as int, ch),
            },
    {
        let kids = &self.nodes[n].children;
        let mut k: usize = 0;
        while k < kids.len()
            invariant
                k <= kids@.len(),
                self.structure(),
                self.live(n as int),
                kids@ == self.kids(n as int),
                forall|j: int| 0 <= j < k ==> (#[trigger] kids@[j]).0 != ch,
            decreases kids@.len() - k,
        {
            let (c, m) = kids[k];
            if c == ch {
                assert(self.kids(n as int)[k as int] == (ch, m));
                return Some(m);
            }
            k += 1;
        }
        None
    }

    /// Walks the folded query from the root.
    fn find(&self, q: &Vec<char>) -> (r: Option<usize>)
        requires
            self.structure(),
        ensures
            match r {
                Some(m) => self.live(m as int) && self.path(m as int) == q@,
                None => exists|j: int, n: int|
                    0 <= j < q@.len() && self.live(n) && self.path(n) == q@.take(j) && !#[trigger] self.has_kid(n, q@[j]),
            },
    {
        let mut cur: usize = 0;
        let mut j: usize = 0;
        assert(q@.take(0) =~= Seq::<char>::empty());
        while j < q.len()
            invariant
                self.structure(),
                j <= q@.len(),
                self.live(cur as int),
                self.path(cur as int) == q@.take(j as int),
            decreases q@.len() - j,
        {
            match self.child_of(cur, q[j]) {
                Some(m) => {
                    assert(q@.take(j + 1) =~= q@.take(j as int).push(q@[j as int]));
                    cur = m;
                },
                None => {
                    assert(!self.has_kid(cur as int, q@[j as int]));
                    return None;
                },
            }
            j += 1;
        }
        assert(q@.take(j as int) =~= q@);
        Some(cur)
    }

    /// Partway through adding `e` (whose content is `c`): the paths that
    /// `done` covers index `s2`, the others still index `s`.
    spec fn mid(&self, s: Seq<EntryView>, s2: Seq<EntryView>, c: Seq<char>, i: int, j: int) -> bool {
        &&& self.structure()
        &&& self.postings_match(|w: Seq<char>| if done(c, i, j, w) { s2 } else { s })
        &&& self.complete(|w: Seq<char>| contained(s, w) || done(c, i, j, w))
    }

    proof fn lemma_same_shape(a: &SuffixTrie, b: &SuffixTrie)
        requires
            a.structure(),
            a.paths@ == b.paths@,
            a.nodes@.len() == b.nodes@.len(),
            forall|n: int| 0 <= n < a.nodes@.len() ==> #[trigger] a.kids(n) == b.kids(n),
        ensures
            b.structure(),
            forall|n: int, ch: char| 0 <= n < a.nodes@.len() ==> (#[trigger] b.has_kid(n, ch) == a.has_kid(n, ch)),
    {
        assert forall|n: int, k: int| b.live(n) && 0 <= k < b.kids(n).len() implies b.live(#[trigger] b.kids(n)[k].1 as int)
            && b.path(b.kids(n)[k].1 as int) == b.path(n).push(b.kids(n)[k].0) by {
            assert(a.kids(n) == b.kids(n));
            assert(a.kids(n)[k] == b.kids(n)[k]);
        }
        assert forall|n: int, k1: int, k2: int| b.live(n) && 0 <= k1 < k2 < b.kids(n).len() implies (#[trigger] b.kids(n)[k1]).0
            != (#[trigger] b.kids(n)[k2]).0 by {
            assert(a.kids(n) == b.kids(n));
            assert(a.kids(n)[k1] == b.kids(n)[k1]);
        }
        assert forall|m1: int, m2: int| b.live(m1) && b.live(m2) && #[trigger] b.path(m1) == #[trigger] b.path(m2) implies m1 == m2 by {
            assert(a.live(m1) && a.live(m2) && a.path(m1) == a.path(m2));
        }
        assert forall|m: int| #[trigger] b.live(m) && m != 0 implies exists|n: int|
            b.live(n) && #[trigger] b.path(n) == b.path(m).drop_last() && b.linked(n, b.path(m).last(), m) by {
            assert(a.live(m));
            let n = choose|n: int| a.live(n) && #[trigger] a.path(n) == a.path(m).drop_last() && a.linked(n, a.path(m).last(), m);
            assert(a.kids(n) == b.kids(n));
            let k = choose|k: int| 0 <= k < a.kids(n).len() && #[trigger] a.kids(n)[k] == (a.path(m).last(), m as usize);
            assert(b.kids(n)[k] == (b.path(m).last(), m as usize));
            assert(b.linked(n, b.path(m).last(), m));
            assert(b.live(n));
            assert(b.path(n) == b.path(m).drop_last());
        }
        assert forall|n: int, ch: char| 0 <= n < a.nodes@.len() implies (#[trigger] b.has_kid(n, ch) == a.has_kid(n, ch)) by {
            assert(a.kids(n) == b.kids(n));
            if a.has_kid(n, ch) {
                let k = choose|k: int| 0 <= k < a.kids(n).len() && (#[trigger] a.kids(n)[k]).0 == ch;
                assert(b.kids(n)[k].0 == ch);
            }
            if b.has_kid(n, ch) {
                let k = choose|k: int| 0 <= k < b.kids(n).len() && (#[trigger] b.kids(n)[k]).0 == ch;
                assert(a.kids(n)[k].0 == ch);
            }
        }
    }

    /// Adds a child of `cur` along `ch`, with an empty posting list.
    fn add_child(
        &mut self,
        cur: usize,
        ch: char,
        Ghost(s): Ghost<Seq<EntryView>>,
        Ghost(s2): Ghost<Seq<EntryView>>,
        Ghost(c): Ghost<Seq<char>>,
        Ghost(i): Ghost<int>,
        Ghost(j): Ghost<int>,
    ) -> (m: usize)
        requires
            old(self).mid(s, s2, c, i, j),
            0 <= i <= j < c.len(),
            ch == c[j],
            old(self).live(cur as int),
            old(self).path(cur as int) == c.subrange(i, j),
            !old(self).has_kid(cur as int, ch),
        ensures
            final(self).mid(s, s2, c, i, j),
            final(self).live(m as int),
            final(self).path(m as int) == c.subrange(i, j + 1),
            final(self).live(cur as int),
            final(self).path(cur as int) == c.subrange(i, j),
            final(self).linked(cur as int, ch, m as int),
    {
        let ghost a = *self;
        let ghost w = a.path(cur as int).push(ch);
        proof {
            assert(w =~= c.subrange(i, j + 1));
            assert(!(contained(s, w) || done(c, i, j, w)));
        }
        let m = self.nodes.len();
        self.nodes.push(TrieNode { children: Vec::new(), doc_ids: Vec::new() });
        self.paths = Ghost(self.paths@.push(Some(w)));
        let mut node = TrieNode { children: Vec::new(), doc_ids: Vec::new() };
        self.nodes.set_and_swap(cur, &mut node);
        node.children.push((ch, m));
        self.nodes.set_and_swap(cur, &mut node);
        proof {
            let b = *self;
            assert(b.kids(cur as int) == a.kids(cur as int).push((ch, m)));
            assert(b.docs(cur as int) == a.docs(cur as int));
            assert(b.kids(m as int) == Seq::<(char, usize)>::empty());
            assert(b.docs(m as int) == Seq::<Posting>::empty());
            assert forall|n: int| 0 <= n < a.nodes@.len() && n != cur implies #[trigger] b.nodes@[n] == a.nodes@[n] by {}
            assert forall|n: int| 0 <= n < a.nodes@.len() implies #[trigger] b.paths@[n] == a.paths@[n] by {}
            assert(b.linked(cur as int, ch, m as int)) by {
                assert(b.kids(cur as int)[a.kids(cur as int).len() as int] == (ch, m));
            }
            // the shape invariants
            assert forall|n: int, k: int| b.live(n) && 0 <= k < b.kids(n).len() implies b.live(#[trigger] b.kids(n)[k].1 as int)
                && b.path(b.kids(n)[k].1 as int) == b.path(n).push(b.kids(n)[k].0) by {
                if n == m {
                } else if n == cur && k == a.kids(n).len() {
                } else {
                    assert(b.kids(n)[k] == a.kids(n)[k]);
                    assert(a.live(n));
                }
            }
            assert forall|n: int, k1: int, k2: int| b.live(n) && 0 <= k1 < k2 < b.kids(n).len() implies (#[trigger] b.kids(n)[k1]).0
                != (#[trigger] b.kids(n)[k2]).0 by {
                if n == cur && k2 == a.kids(n).len() {
                    assert(b.kids(n)[k1] == a.kids(n)[k1]);
                    assert(!a.has_kid(cur as int, ch));
                } else if n != m {
                    assert(b.kids(n)[k1] == a.kids(n)[k1]);
                    assert(b.kids(n)[k2] == a.kids(n)[k2]);
                    assert(a.live(n));
                }
            }
            assert forall|m1: int, m2: int| b.live(m1) && b.live(m2) && #[trigger] b.path(m1) == #[trigger] b.path(m2) implies m1 == m2 by {
                if m1 == m && m2 != m {
                    assert(a.live(m2) && a.path(m2) == w);
                    assert(m2 != 0);
                    let n = choose|n: int| a.live(n) && #[trigger] a.path(n) == a.path(m2).drop_last() && a.linked(n, a.path(m2).last(), m2);
                    assert(w.drop_last() =~= a.path(cur as int));
                    assert(n == cur);
                    let k = choose|k: int| 0 <= k < a.kids(n).len() && #[trigger] a.kids(n)[k] == (a.path(m2).last(), m2 as usize);
                    assert(a.kids(n)[k].0 == ch);
                } else if m2 == m && m1 != m {
                    assert(a.live(m1) && a.path(m1) == w);
                    assert(m1 != 0);
                    let n = choose|n: int| a.live(n) && #[trigger] a.path(n) == a.path(m1).drop_last() && a.linked(n, a.path(m1).last(), m1);
                    assert(w.drop_last() =~= a.path(cur as int));
                    assert(n == cur);
                    let k = choose|k: int| 0 <= k < a.kids(n).len() && #[trigger] a.kids(n)[k] == (a.path(m1).last(), m1 as usize);
                    assert(a.kids(n)[k].0 == ch);
                } else if m1 != m && m2 != m {
                    assert(a.live(m1) && a.live(m2));
                }
            }
            assert forall|q: int| #[trigger] b.live(q) && q != 0 implies exists|n: int|
                b.live(n) && #[trigger] b.path(n) == b.path(q).drop_last() && b.linked(n, b.path(q).last(), q) by {
                if q == m {
                    assert(w.drop_last() =~= a.path(cur as int));
                    assert(b.path(cur as int) == b.path(q).drop_last());
                    assert(b.linked(cur as int, b.path(q).last(), q));
                } else {
                    assert(a.live(q));
                    let n = choose|n: int| a.live(n) && #[trigger] a.path(n) == a.path(q).drop_last() && a.linked(n, a.path(q).last(), q);
                    let k = choose|k: int| 0 <= k < a.kids(n).len() && #[trigger] a.kids(n)[k] == (a.path(q).last(), q as usize);
                    assert(b.kids(n)[k] == a.kids(n)[k]);
                    assert(b.path(n) == b.path(q).drop_last());
                    assert(b.linked(n, b.path(q).last(), q));
                }
            }
            assert(b.structure());
            // the posting lists
            assert forall|n: int| b.live(n) && n != 0 implies #[trigger] b.docs(n) == posts(
                hits((|v: Seq<char>| if done(c, i, j, v) { s2 } else { s })(b.path(n)), b.path(n), None),
            ) by {
                if n == m {
                    lemma_hits_none(s, w, None);
                    assert(posts(Seq::<EntryView>::empty()) =~= Seq::<Posting>::empty());
                } else {
                    assert(a.live(n));
                    assert(a.docs(n) == posts(hits((|v: Seq<char>| if done(c, i, j, v) { s2 } else { s })(a.path(n)), a.path(n), None)));
                }
            }
            // every needed child exists
            assert forall|n: int, ch2: char| b.live(n) && (|v: Seq<char>| contained(s, v) || done(c, i, j, v))(b.path(n).push(ch2)) implies #[trigger] b.has_kid(n, ch2) by {
                if n == m {
                    let v = w.push(ch2);
                    if contained(s, v) {
                        lemma_contained_prefix(s, v, w.len() as int);
                        assert(v.take(w.len() as int) =~= w);
                    }
                    if done(c, i, j, v) {
                        lemma_done_prefix(c, i, j, w, ch2);
                    }
                } else {
                    assert(a.live(n));
                    assert(a.has_kid(n, ch2));
                    let k = choose|k: int| 0 <= k < a.kids(n).len() && (#[trigger] a.kids(n)[k]).0 == ch2;
                    assert(b.kids(n)[k] == a.kids(n)[k]);
                }
            }
        }
        m
    }

    /// Makes sure node `m`, on the walk of suffix `i` at depth `j + 1`, lists `e`.
    fn mark(
        &mut self,
        cur: usize,
        m: usize,
        p: Posting,
        Ghost(s): Ghost<Seq<EntryView>>,
        Ghost(s2): Ghost<Seq<EntryView>>,
        Ghost(e): Ghost<EntryView>,
        Ghost(i): Ghost<int>,
        Ghost(j): Ghost<int>,
    )
        requires
            old(self).mid(s, s2, e.content, i, j),
            0 <= i <= j < e.content.len(),
            old(self).live(cur as int),
            old(self).path(cur as int) == e.content.subrange(i, j),
            old(self).live(m as int),
            old(self).path(m as int) == e.content.subrange(i, j + 1),
            old(self).linked(cur as int, e.content[j], m as int),
            well_formed(s),
            !has_id(s, e.id),
            s2 == placed(s, e),
            p == post(e),
        ensures
            final(self).mid(s, s2, e.content, i, j + 1),
            final(self).live(m as int),
            final(self).path(m as int) == e.content.subrange(i, j + 1),
    {
        let ghost a = *self;
        let ghost c = e.content;
        let ghost w = c.subrange(i, j + 1);
        let ghost h = hits(s, w, None);
        proof {
            lemma_hits_placed(s, e, w);
            assert(c.subrange(i, i + w.len()) == w);
            assert(occurs(w, c));
            assert(is_hit(e, w, None));
            lemma_placed_members(h, e);
            lemma_hits_well_formed(s, w, None);
            lemma_hits_within(s, w, None);
            assert(!has_id(h, e.id)) by {
                if has_id(h, e.id) {
                    let k = choose|k: int| 0 <= k < h.len() && (#[trigger] h[k]).id == e.id;
                    assert(h.contains(h[k]));
                    assert(s.contains(h[k]));
                    let q = choose|q: int| 0 <= q < s.len() && s[q] == h[k];
                    assert(s[q].id == e.id);
                }
            }
            assert(a.docs(m as int) == posts(hits(if done(c, i, j, w) { s2 } else { s }, w, None)));
        }
        match posting_index(&self.nodes[m].doc_ids, p.id) {
            Some(k) => {
                proof {
                    if !done(c, i, j, w) {
                        assert(a.docs(m as int) == posts(h));
                        assert(h[k as int].id == e.id);
                        assert(has_id(h, e.id));
                    }
                }
            },
            None => {
                proof {
                    if done(c, i, j, w) {
                        assert(a.docs(m as int) == posts(placed(h, e)));
                        let q = choose|q: int| 0 <= q < placed(h, e).len() && placed(h, e)[q] == e;
                        assert(a.docs(m as int)[q].id == e.id);
                    }
                }
                let mut node = TrieNode { children: Vec::new(), doc_ids: Vec::new() };
                self.nodes.set_and_swap(m, &mut node);
                place_posting(&mut node.doc_ids, p, Ghost(h), Ghost(e));
                self.nodes.set_and_swap(m, &mut node);
            },
        }
        proof {
            let b = *self;
            assert(b.docs(m as int) == posts(placed(h, e)));
            assert forall|n: int| 0 <= n < a.nodes@.len() implies #[trigger] a.kids(n) == b.kids(n) by {}
            Self::lemma_same_shape(&a, &b);
            assert forall|n: int| b.live(n) && n != 0 implies #[trigger] b.docs(n) == posts(
                hits((|v: Seq<char>| if done(c, i, j + 1, v) { s2 } else { s })(b.path(n)), b.path(n), None),
            ) by {
                lemma_done_step(c, i, j, b.path(n));
                if n != m {
                    assert(a.live(n));
                    assert(b.docs(n) == a.docs(n));
                    assert(a.path(n) != w);
                }
            }
            assert forall|n: int, ch2: char| b.live(n) && (|v: Seq<char>| contained(s, v) || done(c, i, j + 1, v))(b.path(n).push(ch2)) implies #[trigger] b.has_kid(n, ch2) by {
                let v = b.path(n).push(ch2);
                lemma_done_step(c, i, j, v);
                assert(a.live(n));
                if v == w {
                    assert(a.path(n) =~= v.drop_last());
                    assert(v.drop_last() =~= a.path(cur as int));
                    assert(n == cur);
                    assert(ch2 == c[j]);
                    let k = choose|k: int| 0 <= k < a.kids(n).len() && #[trigger] a.kids(n)[k] == (c[j], m);
                    assert(a.kids(n)[k].0 == ch2);
                    assert(a.has_kid(n, ch2));
                } else {
                    assert(a.has_kid(n, ch2));
                }
            }
        }
    }

    proof fn lemma_root_only_empty(&self, n: int)
        requires
            self.structure(),
            self.live(n),
            n != 0,
        ensures
            self.path(n).len() >= 1,
    {
        if self.path(n).len() == 0 {
            assert(self.path(n) =~= self.path(0));
            assert(self.live(0));
        }
    }

    proof fn lemma_mid_start(&self, s: Seq<EntryView>, s2: Seq<EntryView>, c: Seq<char>)
        requires
            self.inv(s),
        ensures
            self.mid(s, s2, c, 0, 0),
    {
        assert forall|n: int| self.live(n) && n != 0 implies #[trigger] self.docs(n) == posts(
            hits((|v: Seq<char>| if done(c, 0, 0, v) { s2 } else { s })(self.path(n)), self.path(n), None),
        ) by {
            assert(self.docs(n) == posts(hits((|v: Seq<char>| s)(self.path(n)), self.path(n), None)));
        }
        assert forall|n: int, ch: char| self.live(n) && (|v: Seq<char>| contained(s, v) || done(c, 0, 0, v))(self.path(n).push(ch)) implies #[trigger] self.has_kid(n, ch) by {
            assert((|v: Seq<char>| contained(s, v))(self.path(n).push(ch)));
        }
    }

    proof fn lemma_mid_next(&self, s: Seq<EntryView>, s2: Seq<EntryView>, c: Seq<char>, i: int)
        requires
            self.mid(s, s2, c, i, c.len() as int),
            0 <= i < c.len(),
        ensures
            self.mid(s, s2, c, i + 1, i + 1),
    {
        assert forall|n: int| self.live(n) && n != 0 implies #[trigger] self.docs(n) == posts(
            hits((|v: Seq<char>| if done(c, i + 1, i + 1, v) { s2 } else { s })(self.path(n)), self.path(n), None),
        ) by {
            lemma_done_next_suffix(c, i, self.path(n));
        }
        assert forall|n: int, ch: char| self.live(n) && (|v: Seq<char>| contained(s, v) || done(c, i + 1, i + 1, v))(self.path(n).push(ch)) implies #[trigger] self.has_kid(n, ch) by {
            lemma_done_next_suffix(c, i, self.path(n).push(ch));
        }
    }

    proof fn lemma_mid_end(&self, s: Seq<EntryView>, e: EntryView)
        requires
            self.mid(s, placed(s, e), e.content, e.content.len() as int, e.content.len() as int),
            well_formed(s),
            !has_id(s, e.id),
        ensures
            self.inv(placed(s, e)),
    {
        let c = e.content;
        let s2 = placed(s, e);
        let len = c.len() as int;
        lemma_placed_members(s, e);
        assert forall|n: int| self.live(n) && n != 0 implies #[trigger] self.docs(n) == posts(
            hits((|v: Seq<char>| s2)(self.path(n)), self.path(n), None),
        ) by {
            let w = self.path(n);
            self.lemma_root_only_empty(n);
            lemma_done_all(c, w);
            lemma_hits_placed(s, e, w);
            assert(self.docs(n) == posts(hits((|v: Seq<char>| if done(c, len, len, v) { s2 } else { s })(w), w, None)));
        }
        assert forall|n: int, ch: char| self.live(n) && (|v: Seq<char>| contained(s2, v))(self.path(n).push(ch)) implies #[trigger] self.has_kid(n, ch) by {
            let v = self.path(n).push(ch);
            lemma_done_all(c, v);
            let k = choose|k: int| 0 <= k < s2.len() && occurs(v, #[trigger] s2[k].content);
            if s2[k] != e {
                assert(s.contains(s2[k]));
                let q = choose|q: int| 0 <= q < s.len() && s[q] == s2[k];
                assert(contained(s, v));
            } else {
                assert(done(c, len, len, v));
            }
            assert((|w: Seq<char>| contained(s, w) || done(c, len, len, w))(v));
        }
    }

    /// Adds an entry not yet indexed: every prefix of every suffix of its
    /// content gets a node, and that node's posting list gets the entry.
    pub(crate) fn insert_record(
        &mut self,
        content: &Vec<char>,
        p: Posting,
        Ghost(s): Ghost<Seq<EntryView>>,
        Ghost(e): Ghost<EntryView>,
    )
        requires
            old(self).inv(s),
            well_formed(s),
            !has_id(s, e.id),
            content@ == e.content,
            p == post(e),
        ensures
            final(self).inv(placed(s, e)),
    {
        let ghost s2 = placed(s, e);
        let ghost c = e.content;
        let n = content.len();
        proof {
            self.lemma_mid_start(s, s2, c);
        }
        let mut i: usize = 0;
        while i < n
            invariant
                i <= n,
                n == c.len(),
                content@ == c,
                c == e.content,
                self.mid(s, s2, c, i as int, i as int),
                well_formed(s),
                !has_id(s, e.id),
                s2 == placed(s, e),
                p == post(e),
            decreases n - i,
        {
            let mut cur: usize = 0;
            let mut j: usize = i;
            assert(c.subrange(i as int, i as int) =~= Seq::<char>::empty());
            while j < n
                invariant
                    i <= j <= n,
                    n == c.len(),
                    content@ == c,
                    c == e.content,
                    self.mid(s, s2, c, i as int, j as int),
                    self.live(cur as int),
                    self.path(cur as int) == c.subrange(i as int, j as int),
                    well_formed(s),
                    !has_id(s, e.id),
                    s2 == placed(s, e),
                    p == post(e),
                decreases n - j,
            {
                let ch = content[j];
                let m = match self.child_of(cur, ch) {
                    Some(m) => {
                        assert(c.subrange(i as int, j + 1) =~= c.subrange(i as int, j as int).push(ch));
                        m
                    },
                    None => self.add_child(cur, ch, Ghost(s), Ghost(s2), Ghost(c), Ghost(i as int), Ghost(j as int)),
                };
                self.mark(cur, m, p, Ghost(s), Ghost(s2), Ghost(e), Ghost(i as int), Ghost(j as int));
                cur = m;
                j += 1;
            }
            proof {
                self.lemma_mid_next(s, s2, c, i as int);
            }
            i += 1;
        }
        proof {
            self.lemma_mid_end(s, e);
        }
    }

    /// Partway through removing `id` (whose content is `c`): the paths that
    /// `done` covers index `s3`, the others still index `s`.
    spec fn dmid(&self, s: Seq<EntryView>, s3: Seq<EntryView>, c: Seq<char>, i: int, j: int) -> bool {
        &&& self.structure()
        &&& self.postings_match(|w: Seq<char>| if done(c, i, j, w) { s3 } else { s })
        &&& self.complete(|w: Seq<char>| contained(s, w))
    }

    /// Takes entry `s[k]` off the posting list of node `m`, on the walk of
    /// suffix `i` at depth `j + 1`.
    fn unmark(&mut self, m: usize, id: i32, Ghost(s): Ghost<Seq<EntryView>>, Ghost(k): Ghost<int>, Ghost(i): Ghost<int>, Ghost(j): Ghost<int>)
        requires
            0 <= k < s.len(),
            old(self).dmid(s, without(s, s[k].id), s[k].content, i, j),
            0 <= i <= j < s[k].content.len(),
            old(self).live(m as int),
            old(self).path(m as int) == s[k].content.subrange(i, j + 1),
            well_formed(s),
            id == s[k].id,
        ensures
            final(self).dmid(s, without(s, s[k].id), s[k].content, i, j + 1),
            final(self).live(m as int),
            final(self).path(m as int) == old(self).path(m as int),
    {
        let ghost a = *self;
        let ghost e = s[k];
        let ghost c = e.content;
        let ghost s3 = without(s, e.id);
        let ghost w = c.subrange(i, j + 1);
        let ghost h = hits(s, w, None);
        proof {
            assert(c.subrange(i, i + w.len()) == w);
            assert(occurs(w, c));
            lemma_hits_complete(s, w, None, k);
            lemma_hits_well_formed(s, w, None);
            lemma_hits_without(s, e.id, w);
            lemma_without_members(h, e.id);
            assert(a.docs(m as int) == posts(hits(if done(c, i, j, w) { s3 } else { s }, w, None)));
        }
        match posting_index(&self.nodes[m].doc_ids, id) {
            Some(q) => {
                proof {
                    if done(c, i, j, w) {
                        let t = without(h, e.id);
                        assert(a.docs(m as int) == posts(t));
                        assert(a.docs(m as int)[q as int].id == id);
                        assert(q < t.len());
                        assert(a.docs(m as int)[q as int] == post(t[q as int]));
                        assert(t.contains(t[q as int]));
                        lemma_without_members(h, e.id);
                        assert(t[q as int].id != e.id);
                        assert(false);
                    }
                    assert(a.docs(m as int) == posts(h));
                    assert(h[q as int].id == e.id);
                }
                let mut node = TrieNode { children: Vec::new(), doc_ids: Vec::new() };
                self.nodes.set_and_swap(m, &mut node);
                remove_posting(&mut node.doc_ids, q, Ghost(h));
                self.nodes.set_and_swap(m, &mut node);
            },
            None => {
                proof {
                    if !done(c, i, j, w) {
                        assert(a.docs(m as int) == posts(h));
                        let q = choose|q: int| 0 <= q < h.len() && h[q] == e;
                        assert(a.docs(m as int)[q].id == e.id);
                    }
                }
            },
        }
        proof {
            let b = *self;
            assert(b.docs(m as int) == posts(without(h, e.id)));
            assert forall|n: int| 0 <= n < a.nodes@.len() implies #[trigger] a.kids(n) == b.kids(n) by {}
            Self::lemma_same_shape(&a, &b);
            assert forall|n: int| b.live(n) && n != 0 implies #[trigger] b.docs(n) == posts(
                hits((|v: Seq<char>| if done(c, i, j + 1, v) { s3 } else { s })(b.path(n)), b.path(n), None),
            ) by {
                lemma_done_step(c, i, j, b.path(n));
                if n != m {
                    assert(a.live(n));
                    assert(b.docs(n) == a.docs(n));
                    assert(a.path(n) != w);
                }
            }
            assert forall|n: int, ch2: char| b.live(n) && (|v: Seq<char>| contained(s, v))(b.path(n).push(ch2)) implies #[trigger] b.has_kid(n, ch2) by {
                assert(a.live(n));
                assert(a.has_kid(n, ch2));
            }
        }
    }

    proof fn lemma_dmid_start(&self, s: Seq<EntryView>, s3: Seq<EntryView>, c: Seq<char>)
        requires
            self.inv(s),
        ensures
            self.dmid(s, s3, c, 0, 0),
    {
        assert forall|n: int| self.live(n) && n != 0 implies #[trigger] self.docs(n) == posts(
            hits((|v: Seq<char>| if done(c, 0, 0, v) { s3 } else { s })(self.path(n)), self.path(n), None),
        ) by {
            assert(self.docs(n) == posts(hits((|v: Seq<char>| s)(self.path(n)), self.path(n), None)));
        }
    }

    proof fn lemma_dmid_next(&self, s: Seq<EntryView>, s3: Seq<EntryView>, c: Seq<char>, i: int)
        requires
            self.dmid(s, s3, c, i, c.len() as int),
            0 <= i < c.len(),
        ensures
            self.dmid(s, s3, c, i + 1, i + 1),
    {
        assert forall|n: int| self.live(n) && n != 0 implies #[trigger] self.docs(n) == posts(
            hits((|v: Seq<char>| if done(c, i + 1, i + 1, v) { s3 } else { s })(self.path(n)), self.path(n), None),
        ) by {
            lemma_done_next_suffix(c, i, self.path(n));
        }
    }

    proof fn lemma_dmid_end(&self, s: Seq<EntryView>, k: int)
        requires
            0 <= k < s.len(),
            self.dmid(s, without(s, s[k].id), s[k].content, s[k].content.len() as int, s[k].content.len() as int),
            well_formed(s),
        ensures
            self.inv(without(s, s[k].id)),
    {
        let e = s[k];
        let c = e.content;
        let s3 = without(s, e.id);
        let len = c.len() as int;
        lemma_without_members(s, e.id);
        assert forall|n: int| self.live(n) && n != 0 implies #[trigger] self.docs(n) == posts(
            hits((|v: Seq<char>| s3)(self.path(n)), self.path(n), None),
        ) by {
            let w = self.path(n);
            self.lemma_root_only_empty(n);
            lemma_done_all(c, w);
            lemma_hits_without(s, e.id, w);
            assert(self.docs(n) == posts(hits((|v: Seq<char>| if done(c, len, len, v) { s3 } else { s })(w), w, None)));
            if !occurs(w, c) {
                let h = hits(s, w, None);
                lemma_hits_within(s, w, None);
                assert(!has_id(h, e.id)) by {
                    if has_id(h, e.id) {
                        let q = choose|q: int| 0 <= q < h.len() && (#[trigger] h[q]).id == e.id;
                        assert(h.contains(h[q]));
                        assert(s.contains(h[q]));
                        let r = choose|r: int| 0 <= r < s.len() && s[r] == h[q];
                        if r != k {
                            if r < k {
                                assert(s[r].id != s[k].id);
                            } else {
                                assert(s[k].id != s[r].id);
                            }
                        }
                    }
                }
                lemma_without_absent(h, e.id);
            }
        }
        assert forall|n: int, ch: char| self.live(n) && (|v: Seq<char>| contained(s3, v))(self.path(n).push(ch)) implies #[trigger] self.has_kid(n, ch) by {
            let v = self.path(n).push(ch);
            let q = choose|q: int| 0 <= q < s3.len() && occurs(v, #[trigger] s3[q].content);
            assert(s3.contains(s3[q]));
            assert(s.contains(s3[q]));
            let r = choose|r: int| 0 <= r < s.len() && s[r] == s3[q];
            assert(contained(s, v));
            assert((|w: Seq<char>| contained(s, w))(v));
        }
    }

    /// Removes entry `s[k]`: its id leaves the posting list of every node on
    /// the paths of its content's suffixes.
    pub(crate) fn remove_record(&mut self, content: &Vec<char>, id: i32, Ghost(s): Ghost<Seq<EntryView>>, Ghost(k): Ghost<int>)
        requires
            old(self).inv(s),
            well_formed(s),
            0 <= k < s.len(),
            s[k].id == id,
            s[k].content == content@,
        ensures
            final(self).inv(without(s, id)),
    {
        let ghost c = content@;
        let ghost s3 = without(s, id);
        let n = content.len();
        proof {
            self.lemma_dmid_start(s, s3, c);
        }
        let mut i: usize = 0;
        while i < n
            invariant
                i <= n,
                n == c.len(),
                content@ == c,
                0 <= k < s.len(),
                s[k].id == id,
                s[k].content == c,
                s3 == without(s, id),
                self.dmid(s, s3, c, i as int, i as int),
                well_formed(s),
            decreases n - i,
        {
            let mut cur: usize = 0;
            let mut j: usize = i;
            assert(c.subrange(i as int, i as int) =~= Seq::<char>::empty());
            while j < n
                invariant
                    i <= j <= n,
                    n == c.len(),
                    content@ == c,
                    0 <= k < s.len(),
                    s[k].id == id,
                    s[k].content == c,
                    s3 == without(s, id),
                    self.dmid(s, s3, c, i as int, j as int),
                    self.live(cur as int),
                    self.path(cur as int) == c.subrange(i as int, j as int),
                    well_formed(s),
                decreases n - j,
            {
                let ch = content[j];
                let ghost w = c.subrange(i as int, j + 1);
                proof {
                    assert(w =~= self.path(cur as int).push(ch));
                    assert(c.subrange(i as int, i + w.len()) == w);
                    assert(occurs(w, s[k].content));
                    assert(contained(s, w));
                    assert((|v: Seq<char>| contained(s, v))(self.path(cur as int).push(ch)));
                    assert(self.has_kid(cur as int, ch));
                }
                match self.child_of(cur, ch) {
                    Some(m) => {
                        self.unmark(m, id, Ghost(s), Ghost(k), Ghost(i as int), Ghost(j as int));
                        proof {
                            assert(self.live(m as int));
                        }
                        cur = m;
                    },
                    None => {
                        assert(false);
                    },
                }
                j += 1;
            }
            proof {
                self.lemma_dmid_next(s, s3, c, i as int);
            }
            i += 1;
        }
        proof {
            self.lemma_dmid_end(s, k);
        }
        let mut i: usize = 0;
        while i < n
            invariant
                self.inv(s3),
            decreases n - i,
        {
            proof {
                assert(self.live(0));
            }
            self.prune_from(0, content, i, Ghost(s3));
            i += 1;
        }
    }

    proof fn lemma_missing_query(&self, s: Seq<EntryView>, q: Seq<char>)
        requires
            self.inv(s),
            exists|j: int, n: int|
                0 <= j < q.len() && self.live(n) && self.path(n) == q.take(j) && !#[trigger] self.has_kid(n, q[j]),
        ensures
            !contained(s, q),
    {
        let (j, n) = choose|j: int, n: int|
            0 <= j < q.len() && self.live(n) && self.path(n) == q.take(j) && !#[trigger] self.has_kid(n, q[j]);
        assert(q.take(j + 1) =~= self.path(n).push(q[j]));
        if contained(s, q) {
            lemma_contained_prefix(s, q, j + 1);
            assert((|v: Seq<char>| contained(s, v))(self.path(n).push(q[j])));
        }
    }

    /// The ids of at most `n` entries whose content holds the folded query
    /// and whose kind the filter admits, in rank order.
    pub(crate) fn search(
        &self,
        query: &Vec<char>,
        n: u64,
        type_list: &Option<Vec<i32>>,
        Ghost(s): Ghost<Seq<EntryView>>,
    ) -> (r: Vec<i32>)
        requires
            self.inv(s),
            query@.len() >= 1,
        ensures
            r@ == top(s, query@, kinds_view(type_list), n as nat),
    {
        let ghost q = query@;
        let ghost k = kinds_view(type_list);
        match self.find(query) {
            None => {
                proof {
                    self.lemma_missing_query(s, q);
                    lemma_hits_none(s, q, k);
                    assert(ids(hits(s, q, k)) =~= Seq::<i32>::empty());
                }
                Vec::new()
            },
            Some(m) => {
                let ghost h = hits(s, q, None);
                proof {
                    if m == 0 {
                        assert(self.path(0).len() == 0);
                    }
                    assert(self.docs(m as int) == posts(h));
                    lemma_hits_within(s, q, None);
                    lemma_hits_refine(s, q, k);
                    assert forall|t: int| 0 <= t < h.len() implies occurs(q, (#[trigger] h[t]).content) by {
                        assert(h.contains(h[t]));
                        assert(is_hit(h[t], q, None));
                    }
                }
                let list = &self.nodes[m].doc_ids;
                let mut out: Vec<i32> = Vec::new();
                let mut i: usize = 0;
                assert(h.subrange(0, h.len() as int) =~= h);
                while i < list.len() && (out.len() as u64) < n
                    invariant
                        i <= h.len(),
                        list@ == posts(h),
                        k == kinds_view(type_list),
                        forall|t: int| 0 <= t < h.len() ==> occurs(q, (#[trigger] h[t]).content),
                        out@.len() <= n,
                        ids(hits(h, q, k)) == out@ + ids(hits(h.subrange(i as int, h.len() as int), q, k)),
                    decreases h.len() - i,
                {
                    let pst = list[i];
                    let keep = kind_admitted(type_list, pst.kind);
                    proof {
                        let sub = h.subrange(i as int, h.len() as int);
                        assert(sub.drop_first() =~= h.subrange(i + 1, h.len() as int));
                        assert(sub[0] == h[i as int]);
                        assert(pst == post(h[i as int]));
                        assert(occurs(q, h[i as int].content));
                        lemma_ids_cons(h[i as int], hits(sub.drop_first(), q, k));
                    }
                    if keep {
                        out.push(pst.id);
                    }
                    proof {
                        assert(ids(hits(h, q, k)) =~= out@ + ids(hits(h.subrange(i + 1, h.len() as int), q, k)));
                    }
                    i += 1;
                }
                proof {
                    let all = ids(hits(h, q, k));
                    let rest = ids(hits(h.subrange(i as int, h.len() as int), q, k));
                    if i == h.len() {
                        assert(h.subrange(i as int, h.len() as int) =~= Seq::<EntryView>::empty());
                        assert(rest =~= Seq::<i32>::empty());
                        assert(all =~= out@);
                    } else if all.len() <= n {
                        assert(all =~= out@);
                    } else {
                        assert(all.take(n as int) =~= out@);
                    }
                }
                out
            },
        }
    }

    /// How many entries hold the folded query.
    pub(crate) fn count(&self, query: &Vec<char>, Ghost(s): Ghost<Seq<EntryView>>) -> (r: usize)
        requires
            self.inv(s),
            query@.len() >= 1,
        ensures
            r == hits(s, query@, None).len(),
    {
        match self.find(query) {
            None => {
                proof {
                    self.lemma_missing_query(s, query@);
                    lemma_hits_none(s, query@, None);
                }
                0
            },
            Some(m) => {
                proof {
                    if m == 0 {
                        assert(self.path(0).len() == 0);
                    }
                    assert(self.docs(m as int) == posts(hits(s, query@, None)));
                }
                self.nodes[m].doc_ids.len()
            },
        }
    }

    /// Where the child edge of node `n` along `ch` stands, if there is one.
    fn child_index(&self, n: usize, ch: char) -> (r: Option<usize>)
        requires
            self.structure(),
            self.live(n as int),
        ensures
            match r {
                Some(k) => k < self.kids(n as int).len() && self.kids(n as int)[k as int].0 == ch,
                None => !self.has_kid(n as int, ch),
            },
    {
        let kids = &self.nodes[n].children;
        let mut k: usize = 0;
        while k < kids.len()
            invariant
                k <= kids@.len(),
                kids@ == self.kids(n as int),
                forall|j: int| 0 <= j < k ==> (#[trigger] kids@[j]).0 != ch,
            decreases kids@.len() - k,
        {
            if kids[k].0 == ch {
                return Some(k);
            }
            k += 1;
        }
        None
    }

    /// Unlinks the child at edge `k` of node `n`: a leaf whose posting list
    /// is empty.
    fn prune_child(&mut self, n: usize, k: usize, Ghost(s): Ghost<Seq<EntryView>>)
        requires
            old(self).inv(s),
            old(self).live(n as int),
            k < old(self).kids(n as int).len(),
            old(self).docs(old(self).kids(n as int)[k as int].1 as int).len() == 0,
            old(self).kids(old(self).kids(n as int)[k as int].1 as int).len() == 0,
        ensures
            final(self).inv(s),
            forall|q: int|
                old(self).live(q) && q != old(self).kids(n as int)[k as int].1 as int ==> #[trigger] final(self).live(q)
                    && final(self).path(q) == old(self).path(q),
    {
        let total = self.nodes.len();
        let ghost a = *self;
        let ghost m = a.kids(n as int)[k as int].1 as int;
        let ghost ch = a.kids(n as int)[k as int].0;
        let mut node = TrieNode { children: Vec::new(), doc_ids: Vec::new() };
        self.nodes.set_and_swap(n, &mut node);
        node.children.remove(k);
        self.nodes.set_and_swap(n, &mut node);
        self.paths = Ghost(self.paths@.update(m, None));
        proof {
            let b = *self;
            let w = a.path(m);
            assert(a.live(m) && w == a.path(n as int).push(ch));
            assert(m != n) by {
                if m == n {
                    assert(w.len() == a.path(n as int).len() + 1);
                }
            }
            assert(m != 0) by {
                if m == 0 {
                    assert(w.len() >= 1);
                }
            }
            assert(b.kids(n as int) == a.kids(n as int).remove(k as int));
            a.kids(n as int).remove_ensures(k as int);
            assert forall|q: int| 0 <= q < a.nodes@.len() && q != n implies #[trigger] b.nodes@[q] == a.nodes@[q] by {}
            assert forall|q: int| #[trigger] b.live(q) <==> a.live(q) && q != m by {}
            assert forall|q: int| b.live(q) implies #[trigger] b.path(q) == a.path(q) by {}
            // the edge at k is the only edge into m
            assert forall|q: int, k2: int| a.live(q) && 0 <= k2 < a.kids(q).len() && #[trigger] a.kids(q)[k2].1 as int == m implies q == n && k2 == k by {
                let c2 = a.kids(q)[k2].0;
                assert(a.path(m) == a.path(q).push(c2));
                assert(a.path(q) =~= w.drop_last());
                assert(a.path(n as int) =~= w.drop_last());
                assert(q == n);
                if k2 != k {
                    assert(c2 == w.last());
                    assert(ch == w.last());
                    if k2 < k {
                        assert(a.kids(q)[k2].0 != a.kids(q)[k as int].0);
                    } else {
                        assert(a.kids(q)[k as int].0 != a.kids(q)[k2].0);
                    }
                }
            }
            // no entry holds m's path
            assert(!contained(s, w)) by {
                if contained(s, w) {
                    let i = choose|i: int| 0 <= i < s.len() && occurs(w, #[trigger] s[i].content);
                    lemma_hits_complete(s, w, None, i);
                    assert(a.docs(m) == posts(hits(s, w, None)));
                }
            }
            assert forall|q: int, k2: int| b.live(q) && 0 <= k2 < b.kids(q).len() implies b.live(#[trigger] b.kids(q)[k2].1 as int)
                && b.path(b.kids(q)[k2].1 as int) == b.path(q).push(b.kids(q)[k2].0) by {
                let k3 = if q == n && k2 >= k { k2 + 1 } else { k2 };
                if q != n {
                    assert(b.nodes@[q] == a.nodes@[q]);
                }
                assert(b.kids(q)[k2] == a.kids(q)[k3]);
                assert(a.live(q));
                if a.kids(q)[k3].1 as int == m {
                    assert(q == n && k3 == k);
                }
            }
            assert forall|q: int, k1: int, k2: int| b.live(q) && 0 <= k1 < k2 < b.kids(q).len() implies (#[trigger] b.kids(q)[k1]).0
                != (#[trigger] b.kids(q)[k2]).0 by {
                let j1 = if q == n && k1 >= k { k1 + 1 } else { k1 };
                let j2 = if q == n && k2 >= k { k2 + 1 } else { k2 };
                if q != n {
                    assert(b.nodes@[q] == a.nodes@[q]);
                }
                assert(b.kids(q)[k1] == a.kids(q)[j1]);
                assert(b.kids(q)[k2] == a.kids(q)[j2]);
                assert(a.live(q));
            }
            assert forall|m1: int, m2: int| b.live(m1) && b.live(m2) && #[trigger] b.path(m1) == #[trigger] b.path(m2) implies m1 == m2 by {
                assert(a.live(m1) && a.live(m2) && a.path(m1) == a.path(m2));
            }
            assert forall|q: int| #[trigger] b.live(q) && q != 0 implies exists|p: int|
                b.live(p) && #[trigger] b.path(p) == b.path(q).drop_last() && b.linked(p, b.path(q).last(), q) by {
                assert(a.live(q));
                let p = choose|p: int| a.live(p) && #[trigger] a.path(p) == a.path(q).drop_last() && a.linked(p, a.path(q).last(), q);
                let k2 = choose|k2: int| 0 <= k2 < a.kids(p).len() && #[trigger] a.kids(p)[k2] == (a.path(q).last(), q as usize);
                assert(p != m) by {
                    if p == m {
                        assert(a.kids(m).len() == 0);
                    }
                }
                assert(q != m);
                assert(!(p == n && k2 == k)) by {
                    if p == n && k2 == k {
                        assert(a.kids(p)[k2].1 as int == m);
                        assert(a.kids(p)[k2].1 == q as usize);
                        assert(q < total);
                    }
                }
                let k3 = if p == n && k2 > k { k2 - 1 } else { k2 };
                if p != n {
                    assert(b.nodes@[p] == a.nodes@[p]);
                } else {
                    assert(a.kids(n as int).remove(k as int)[k3] == a.kids(n as int)[k2]);
                }
                assert(b.kids(p)[k3] == a.kids(p)[k2]);
                assert(b.live(p));
                assert(b.path(p) == b.path(q).drop_last());
                assert(b.linked(p, b.path(q).last(), q));
            }
            assert(b.structure());
            assert forall|q: int| b.live(q) && q != 0 implies #[trigger] b.docs(q) == posts(
                hits((|v: Seq<char>| s)(b.path(q)), b.path(q), None),
            ) by {
                assert(a.live(q));
                if q != n {
                    assert(b.nodes@[q] == a.nodes@[q]);
                }
                assert(b.docs(q) == a.docs(q));
            }
            assert forall|q: int, c2: char| b.live(q) && (|v: Seq<char>| contained(s, v))(b.path(q).push(c2)) implies #[trigger] b.has_kid(q, c2) by {
                assert(a.live(q));
                assert(a.has_kid(q, c2));
                let k2 = choose|k2: int| 0 <= k2 < a.kids(q).len() && (#[trigger] a.kids(q)[k2]).0 == c2;
                if q == n && k2 == k {
                    assert(a.path(q).push(c2) == w);
                } else {
                    let k3 = if q == n && k2 > k { k2 - 1 } else { k2 };
                    if q != n {
                        assert(b.nodes@[q] == a.nodes@[q]);
                    } else {
                        assert(a.kids(n as int).remove(k as int)[k3] == a.kids(n as int)[k2]);
                    }
                    assert(b.kids(q)[k3] == a.kids(q)[k2]);
                }
            }
        }
    }

    /// Every live node of `before` that is not below node `n` is live in
    /// `after`, with the same path.
    spec fn keeps(before: SuffixTrie, after: SuffixTrie, n: int) -> bool {
        forall|q: int|
            before.live(q) && !below(before.path(n), before.path(q)) ==> #[trigger] after.live(q) && after.path(q)
                == before.path(q)
    }

    /// Walks `content[j..]` below node `n` and, on the way back up, unlinks
    /// every node on the walk that is an empty leaf.
    #[verifier::rlimit(40)]
    fn prune_from(&mut self, n: usize, content: &Vec<char>, j: usize, Ghost(s): Ghost<Seq<EntryView>>)
        requires
            old(self).inv(s),
            old(self).live(n as int),
        ensures
            final(self).inv(s),
            Self::keeps(*old(self), *final(self), n as int),
        decreases content@.len() - j,
    {
        let ghost a = *self;
        if j >= content.len() {
            assert(Self::keeps(a, *self, n as int));
            return;
        }
        let ch = content[j];
        let k = match self.child_index(n, ch) {
            None => {
                assert(Self::keeps(a, *self, n as int));
                return;
            },
            Some(k) => k,
        };
        let m = self.nodes[n].children[k].1;
        let ghost pn = a.path(n as int);
        let ghost pm = a.path(m as int);
        proof {
            assert(a.kids(n as int)[k as int].1 == m);
            assert(pm == pn.push(ch));
            assert(!below(pm, pn));
        }
        self.prune_from(m, content, j + 1, Ghost(s));
        let ghost b = *self;
        proof {
            assert(Self::keeps(a, b, m as int));
            assert forall|q: int| #[trigger] a.live(q) && !below(pn, a.path(q)) implies b.live(q) && b.path(q) == a.path(q) by {
                if below(pm, a.path(q)) {
                    assert(a.path(q).take(pn.len() as int) =~= pm.take(pn.len() as int));
                    assert(pm.take(pn.len() as int) =~= pn);
                }
            }
            assert(Self::keeps(a, b, n as int));
            assert(b.live(n as int) && b.path(n as int) == pn);
        }
        match self.child_index(n, ch) {
            None => {},
            Some(k2) => {
                let m2 = self.nodes[n].children[k2].1;
                proof {
                    assert(b.kids(n as int)[k2 as int].1 == m2);
                    assert(b.path(m2 as int) == pn.push(ch));
                    assert(b.path(m2 as int).take(pn.len() as int) =~= pn);
                }
                if self.nodes[m2].doc_ids.len() == 0 && self.nodes[m2].children.len() == 0 {
                    self.prune_child(n, k2, Ghost(s));
                    proof {
                        assert forall|q: int| #[trigger] a.live(q) && !below(pn, a.path(q)) implies self.live(q) && self.path(q) == a.path(q) by {
                            assert(b.live(q) && b.path(q) == a.path(q));
                            assert(q != b.kids(n as int)[k2 as int].1 as int);
                        }
                        assert(Self::keeps(a, *self, n as int));
                    }
                }
            },
        }
    }
}

} // verus!
