use vstd::prelude::*;
use crate::error::IndexError;
use crate::posting::{Posting, PostingView, postings_view, strictly_increasing};
use crate::tokenizer::{
    Token, TokenView, TokenizerConfig, bytes_eq, bytes_lt, lemma_lex_total, lex_lt, lemma_tokenize_len, tokenize, tokenize_spec,
};

verus! {

/// The value stored under key `k` in an association list whose keys are unique.
pub open spec fn assoc<V>(es: Seq<(Seq<u8>, V)>, k: Seq<u8>) -> Option<V>
    decreases es.len(),
{
    if es.len() == 0 {
        None
    } else if es.last().0 == k {
        Some(es.last().1)
    } else {
        assoc(es.drop_last(), k)
    }
}

pub open spec fn keys_unique<V>(es: Seq<(Seq<u8>, V)>) -> bool {
    forall|i: int, j: int| 0 <= i < j < es.len() ==> es[i].0 != es[j].0
}

pub proof fn lemma_assoc_update<V>(es: Seq<(Seq<u8>, V)>, k: int, v: V)
    requires
        keys_unique(es),
        0 <= k < es.len(),
    ensures
        keys_unique(es.update(k, (es[k].0, v))),
        forall|t: Seq<u8>|
            #[trigger] assoc(es.update(k, (es[k].0, v)), t) == if t == es[k].0 {
                Some(v)
            } else {
                assoc(es, t)
            },
    decreases es.len(),
{
    let n = es.update(k, (es[k].0, v));
    assert(n.drop_last() =~= if k == es.len() - 1 {
        es.drop_last()
    } else {
        es.drop_last().update(k, (es[k].0, v))
    });
    if k < es.len() - 1 {
        lemma_assoc_update(es.drop_last(), k, v);
    }
    assert forall|t: Seq<u8>| #[trigger] assoc(n, t) == if t == es[k].0 {
        Some(v)
    } else {
        assoc(es, t)
    } by {
        if k < es.len() - 1 {
            assert(n.last() == es.last());
            assert(es.last().0 != es[k].0);
            if t != es.last().0 {
                assert(assoc(n, t) == assoc(n.drop_last(), t));
                assert(assoc(es, t) == assoc(es.drop_last(), t));
            }
        } else {
            assert(n.last() == (es[k].0, v));
            assert(es.last() == es[k]);
        }
    }
}

pub proof fn lemma_assoc_insert<V>(es: Seq<(Seq<u8>, V)>, k: int, key: Seq<u8>, v: V)
    requires
        keys_unique(es),
        0 <= k <= es.len(),
        forall|i: int| 0 <= i < es.len() ==> es[i].0 != key,
    ensures
        keys_unique(es.insert(k, (key, v))),
        forall|t: Seq<u8>|
            #[trigger] assoc(es.insert(k, (key, v)), t) == if t == key {
                Some(v)
            } else {
                assoc(es, t)
            },
    decreases es.len(),
{
    let n = es.insert(k, (key, v));
    assert forall|i: int, j: int| 0 <= i < j < n.len() implies n[i].0 != n[j].0 by {
        if i < k && j > k {
            assert(n[j] == es[j - 1]);
        } else if i > k {
            assert(n[i] == es[i - 1] && n[j] == es[j - 1]);
        } else if j > k {
            assert(n[j] == es[j - 1]);
        }
    }
    if k == es.len() {
        assert(n.drop_last() =~= es);
        assert(n.last() == (key, v));
    } else {
        assert(n.drop_last() =~= es.drop_last().insert(k, (key, v)));
        assert(n.last() == es.last());
        assert(es.last() == es[es.len() - 1]);
        lemma_assoc_insert(es.drop_last(), k, key, v);
        assert forall|t: Seq<u8>| #[trigger] assoc(n, t) == if t == key {
            Some(v)
        } else {
            assoc(es, t)
        } by {
            if t != es.last().0 {
                assert(assoc(n, t) == assoc(n.drop_last(), t));
                assert(assoc(es, t) == assoc(es.drop_last(), t));
            }
        }
    }
}

pub proof fn lemma_assoc_absent<V>(es: Seq<(Seq<u8>, V)>, t: Seq<u8>)
    requires
        forall|i: int| 0 <= i < es.len() ==> es[i].0 != t,
    ensures
        assoc(es, t) is None,
    decreases es.len(),
{
    if es.len() > 0 {
        lemma_assoc_absent(es.drop_last(), t);
    }
}

pub proof fn lemma_assoc_some<V>(es: Seq<(Seq<u8>, V)>, t: Seq<u8>)
    requires
        assoc(es, t) is Some,
    ensures
        exists|i: int| 0 <= i < es.len() && es[i].0 == t && es[i].1 == assoc(es, t)->0,
    decreases es.len(),
{
    if es.last().0 != t {
        lemma_assoc_some(es.drop_last(), t);
        let i = choose|i: int|
            0 <= i < es.len() - 1 && es.drop_last()[i].0 == t && es.drop_last()[i].1 == assoc(
                es,
                t,
            )->0;
        assert(es[i] == es.drop_last()[i]);
    } else {
        assert(es[es.len() - 1] == es.last());
    }
}

/// The posting for row `r` in a posting list.
pub open spec fn find_row(ps: Seq<PostingView>, r: u64) -> Option<PostingView>
    decreases ps.len(),
{
    if ps.len() == 0 {
        None
    } else if ps.last().row_id == r {
        Some(ps.last())
    } else {
        find_row(ps.drop_last(), r)
    }
}

pub proof fn lemma_find_row_absent(ps: Seq<PostingView>, r: u64)
    requires
        forall|i: int| 0 <= i < ps.len() ==> ps[i].row_id != r,
    ensures
        find_row(ps, r) is None,
    decreases ps.len(),
{
    if ps.len() > 0 {
        lemma_find_row_absent(ps.drop_last(), r);
    }
}

proof fn lemma_find_row_insert(ps: Seq<PostingView>, k: int, p: PostingView)
    requires
        strictly_increasing(ps),
        0 <= k <= ps.len(),
        forall|i: int| 0 <= i < k ==> ps[i].row_id < p.row_id,
        forall|i: int| k <= i < ps.len() ==> ps[i].row_id > p.row_id,
    ensures
        strictly_increasing(ps.insert(k, p)),
        forall|r: u64|
            #[trigger] find_row(ps.insert(k, p), r) == if r == p.row_id {
                Some(p)
            } else {
                find_row(ps, r)
            },
    decreases ps.len(),
{
    let n = ps.insert(k, p);
    assert forall|i: int, j: int| 0 <= i < j < n.len() implies n[i].row_id < n[j].row_id by {
        if j < k {
        } else if j == k {
        } else if i < k {
        } else if i == k {
            assert(n[j] == ps[j - 1]);
        } else {
            assert(n[j] == ps[j - 1] && n[i] == ps[i - 1]);
        }
    }
    if k == ps.len() {
        assert(n.drop_last() =~= ps);
        assert(n.last() == p);
    } else {
        assert(n.drop_last() =~= ps.drop_last().insert(k, p));
        assert(n.last() == ps.last());
        assert(ps.last() == ps[ps.len() - 1]);
        lemma_find_row_insert(ps.drop_last(), k, p);
        assert forall|r: u64| #[trigger] find_row(n, r) == if r == p.row_id {
            Some(p)
        } else {
            find_row(ps, r)
        } by {
            if r != ps.last().row_id {
                assert(find_row(n, r) == find_row(n.drop_last(), r));
                assert(find_row(ps, r) == find_row(ps.drop_last(), r));
            }
        }
    }
}

/// The positions at which `t` stands among the tokens, in order.
pub open spec fn term_positions(toks: Seq<TokenView>, t: Seq<u8>) -> Seq<u32>
    decreases toks.len(),
{
    if toks.len() == 0 {
        Seq::empty()
    } else {
        let rest = term_positions(toks.drop_last(), t);
        if toks.last().term == t {
            rest.push(toks.last().position)
        } else {
            rest
        }
    }
}

/// What a row with these tokens contributes to the posting list of `t`.
pub open spec fn doc_posting(toks: Seq<TokenView>, t: Seq<u8>, r: u64) -> Option<PostingView> {
    let ps = term_positions(toks, t);
    if ps.len() > 0 {
        Some(PostingView { row_id: r, freq: ps.len() as u32, positions: ps })
    } else {
        None
    }
}

/// One dictionary entry: a term and its posting list.
#[derive(Debug)]
pub struct TermEntry {
    pub term: Vec<u8>,
    pub postings: Vec<Posting>,
}

impl View for TermEntry {
    type V = (Seq<u8>, Seq<PostingView>);

    open spec fn view(&self) -> (Seq<u8>, Seq<PostingView>) {
        (self.term@, postings_view(self.postings@))
    }
}

/// A row of the segment and its length in tokens.
#[derive(Debug, Clone, Copy, PartialEq, Eq, Structural)]
pub struct DocInfo {
    pub row_id: u64,
    pub length: u32,
}

/// The length of row `r`, if the segment holds it.
pub open spec fn doc_len(docs: Seq<DocInfo>, r: u64) -> Option<u32>
    decreases docs.len(),
{
    if docs.len() == 0 {
        None
    } else if docs.last().row_id == r {
        Some(docs.last().length)
    } else {
        doc_len(docs.drop_last(), r)
    }
}

pub open spec fn total_len(docs: Seq<DocInfo>) -> nat
    decreases docs.len(),
{
    if docs.len() == 0 {
        0
    } else {
        total_len(docs.drop_last()) + docs.last().length as nat
    }
}

/// An in-memory segment: dictionary entries, the rows it covers and their
/// token counts.
#[derive(Debug)]
pub struct Segment {
    pub entries: Vec<TermEntry>,
    pub docs: Vec<DocInfo>,
    pub total_tokens: u64,
}

pub open spec fn entries_view(es: Seq<TermEntry>) -> Seq<(Seq<u8>, Seq<PostingView>)> {
    es.map_values(|e: TermEntry| e@)
}

impl Segment {
    pub open spec fn dict(&self) -> Seq<(Seq<u8>, Seq<PostingView>)> {
        entries_view(self.entries@)
    }

    /// The posting of row `r` for term `t`.
    pub open spec fn posting_at(&self, t: Seq<u8>, r: u64) -> Option<PostingView> {
        match assoc(self.dict(), t) {
            Some(ps) => find_row(ps, r),
            None => None,
        }
    }

    pub open spec fn has_row(&self, r: u64) -> bool {
        exists|k: int| 0 <= k < self.docs@.len() && self.docs@[k].row_id == r
    }

    pub open spec fn wf(&self) -> bool {
        let d = self.dict();
        &&& keys_unique(d)
        &&& forall|i: int| 0 <= i < d.len() - 1 ==> #[trigger] lex_lt(d[i].0, d[i + 1].0)
        &&& forall|i: int| 0 <= i < d.len() ==> strictly_increasing(#[trigger] d[i].1)
        &&& forall|i: int| 0 <= i < d.len() ==> (#[trigger] d[i].1).len() > 0
        &&& forall|i: int| 0 <= i < d.len() ==> (#[trigger] d[i].1).len() <= u64::MAX
        &&& forall|i: int, j: int|
            0 <= i < d.len() && 0 <= j < d[i].1.len() ==> self.has_row(#[trigger] d[i].1[j].row_id)
        &&& forall|i: int, j: int|
            0 <= i < d.len() && 0 <= j < d[i].1.len() ==> (#[trigger] d[i].1[j]).positions.len() <= u32::MAX
        &&& forall|i: int, j: int|
            0 <= i < j < self.docs@.len() ==> self.docs@[i].row_id != self.docs@[j].row_id
        &&& self.total_tokens == total_len(self.docs@)
    }

    /// An empty segment.
    pub fn new() -> (r: Segment)
        ensures
            r.wf(),
            r.docs@.len() == 0,
            r.dict().len() == 0,
    {
        let r = Segment { entries: Vec::new(), docs: Vec::new(), total_tokens: 0 };
        assert(r.dict() =~= Seq::<(Seq<u8>, Seq<PostingView>)>::empty());
        r
    }

    /// Number of rows in the segment.
    pub fn num_docs(&self) -> (r: usize)
        ensures
            r == self.docs@.len(),
    {
        self.docs.len()
    }

    /// Whether the segment holds row `r`.
    pub fn contains_row(&self, r: u64) -> (b: bool)
        ensures
            b == self.has_row(r),
    {
        let mut k: usize = 0;
        while k < self.docs.len()
            invariant
                k <= self.docs@.len(),
                forall|i: int| 0 <= i < k ==> self.docs@[i].row_id != r,
            decreases self.docs@.len() - k,
        {
            if self.docs[k].row_id == r {
                return true;
            }
            k = k + 1;
        }
        false
    }
}

pub proof fn lemma_assoc_at<V>(es: Seq<(Seq<u8>, V)>, k: int)
    requires
        keys_unique(es),
        0 <= k < es.len(),
    ensures
        assoc(es, es[k].0) == Some(es[k].1),
    decreases es.len(),
{
    if k < es.len() - 1 {
        assert(es.last() == es[es.len() - 1]);
        lemma_assoc_at(es.drop_last(), k);
    }
}

proof fn lemma_find_row_none(ps: Seq<PostingView>, r: u64)
    requires
        find_row(ps, r) is None,
    ensures
        forall|i: int| 0 <= i < ps.len() ==> ps[i].row_id != r,
    decreases ps.len(),
{
    if ps.len() > 0 {
        lemma_find_row_none(ps.drop_last(), r);
        assert forall|i: int| 0 <= i < ps.len() implies ps[i].row_id != r by {
            if i < ps.len() - 1 {
                assert(ps[i] == ps.drop_last()[i]);
            }
        }
    }
}

/// The positions of `t` among the tokens, if it occurs.
pub open spec fn positions_opt(toks: Seq<TokenView>, t: Seq<u8>) -> Option<Seq<u32>> {
    if term_positions(toks, t).len() > 0 {
        Some(term_positions(toks, t))
    } else {
        None
    }
}

proof fn lemma_term_positions_len(toks: Seq<TokenView>, t: Seq<u8>)
    ensures
        term_positions(toks, t).len() <= toks.len(),
    decreases toks.len(),
{
    if toks.len() > 0 {
        lemma_term_positions_len(toks.drop_last(), t);
    }
}

/// The terms of one row, each with the positions where it occurs.
struct Group {
    term: Vec<u8>,
    positions: Vec<u32>,
}

impl View for Group {
    type V = (Seq<u8>, Seq<u32>);

    closed spec fn view(&self) -> (Seq<u8>, Seq<u32>) {
        (self.term@, self.positions@)
    }
}

spec fn groups_view(gs: Seq<Group>) -> Seq<(Seq<u8>, Seq<u32>)> {
    gs.map_values(|g: Group| g@)
}

fn copy_bytes(v: &Vec<u8>) -> (r: Vec<u8>)
    ensures
        r@ == v@,
{
    let mut r: Vec<u8> = Vec::new();
    let mut i: usize = 0;
    while i < v.len()
        invariant
            i <= v@.len(),
            r@ == v@.subrange(0, i as int),
        decreases v@.len() - i,
    {
        r.push(v[i]);
        i = i + 1;
    }
    assert(r@ =~= v@);
    r
}

fn group_tokens(toks: &Vec<Token>) -> (gs: Vec<Group>)
    ensures
        keys_unique(groups_view(gs@)),
        forall|t: Seq<u8>|
            #[trigger] assoc(groups_view(gs@), t) == positions_opt(
                toks@.map_values(|k: Token| k@),
                t,
            ),
{
    let ghost tv = toks@.map_values(|k: Token| k@);
    let mut gs: Vec<Group> = Vec::new();
    let mut i: usize = 0;
    while i < toks.len()
        invariant
            i <= toks@.len(),
            tv == toks@.map_values(|k: Token| k@),
            keys_unique(groups_view(gs@)),
            forall|t: Seq<u8>|
                #[trigger] assoc(groups_view(gs@), t) == positions_opt(tv.take(i as int), t),
        decreases toks@.len() - i,
    {
        let ghost gv = groups_view(gs@);
        let tok = &toks[i];
        assert(tv[i as int] == tok@);
        assert(tv.take(i + 1).drop_last() =~= tv.take(i as int));
        assert(tv.take(i + 1).last() == tok@);
        let mut k: usize = 0;
        let mut found = false;
        while k < gs.len() && !found
            invariant
                k <= gs@.len(),
                gv == groups_view(gs@),
                !found ==> forall|m: int| 0 <= m < k ==> gv[m].0 != tok.term@,
                found ==> k < gs@.len() && gv[k as int].0 == tok.term@,
            decreases gs@.len() - k + if found { 0int } else { 1int },
        {
            if bytes_eq(&gs[k].term, &tok.term) {
                found = true;
            } else {
                k = k + 1;
            }
        }
        if found {
            let mut ps = crate::posting::copy_u32s(&gs[k].positions);
            ps.push(tok.position);
            let g = Group { term: copy_bytes(&tok.term), positions: ps };
            proof {
                lemma_assoc_at(gv, k as int);
                lemma_assoc_update(gv, k as int, g@.1);
            }
            gs[k] = g;
            assert(groups_view(gs@) =~= gv.update(k as int, (gv[k as int].0, g@.1)));
        } else {
            let mut ps: Vec<u32> = Vec::new();
            ps.push(tok.position);
            let g = Group { term: copy_bytes(&tok.term), positions: ps };
            proof {
                lemma_assoc_absent(gv, tok.term@);
            }
            gs.push(g);
            assert(groups_view(gs@) =~= gv.push(g@));
            assert(groups_view(gs@).drop_last() =~= gv);
            assert(g@.1 =~= Seq::<u32>::empty().push(tok.position));
        }
        i = i + 1;
    }
    assert(tv.take(i as int) =~= tv);
    gs
}

impl Segment {
    /// Adds posting `p` to the list of `term`, creating the entry if needed.
    pub(crate) fn insert_posting(&mut self, term: &Vec<u8>, p: Posting)
        requires
            old(self).wf(),
            old(self).has_row(p.row_id),
            old(self).posting_at(term@, p.row_id) is None,
            p@.positions.len() <= u32::MAX,
        ensures
            final(self).wf(),
            final(self).docs@ == old(self).docs@,
            forall|t: Seq<u8>, r: u64|
                #[trigger] final(self).posting_at(t, r) == if t == term@ && r == p.row_id {
                    Some(p@)
                } else {
                    old(self).posting_at(t, r)
                },
    {
        let ghost d = self.dict();
        let ghost pv = p@;
        let mut e: usize = 0;
        let mut found = false;
        while e < self.entries.len() && !found
            invariant
                e <= self.entries@.len(),
                d == self.dict(),
                !found ==> forall|m: int| 0 <= m < e ==> d[m].0 != term@,
                found ==> e < self.entries@.len() && d[e as int].0 == term@,
            decreases self.entries@.len() - e + if found { 0int } else { 1int },
        {
            if bytes_eq(&self.entries[e].term, term) {
                found = true;
            } else {
                e = e + 1;
            }
        }
        if found {
            let ghost old_ps = d[e as int].1;
            proof {
                lemma_assoc_at(d, e as int);
                lemma_find_row_none(old_ps, p.row_id);
            }
            let mut ps = crate::posting::copy_postings(&self.entries[e].postings);
            let mut k: usize = 0;
            while k < ps.len() && ps[k].row_id < p.row_id
                invariant
                    k <= ps@.len(),
                    postings_view(ps@) == old_ps,
                    forall|m: int| 0 <= m < k ==> old_ps[m].row_id < p.row_id,
                decreases ps@.len() - k,
            {
                k = k + 1;
            }
            proof {
                assert(strictly_increasing(old_ps));
                assert forall|m: int| k <= m < old_ps.len() implies old_ps[m].row_id
                    > p.row_id by {
                    if m > k {
                        assert(old_ps[k as int].row_id < old_ps[m].row_id);
                    }
                    assert(old_ps[k as int].row_id != p.row_id);
                }
                lemma_find_row_insert(old_ps, k as int, pv);
            }
            ps.insert(k, p);
            // the list's length is bounded by that of a vector
            let _count = ps.len();
            assert(postings_view(ps@) =~= old_ps.insert(k as int, pv));
            let entry = TermEntry { term: copy_bytes(term), postings: ps };
            proof {
                lemma_assoc_update(d, e as int, entry@.1);
            }
            self.entries.set(e, entry);
            assert(self.dict() =~= d.update(e as int, (d[e as int].0, entry@.1)));
            assert forall|t: Seq<u8>, r: u64| #[trigger] self.posting_at(t, r) == if t == term@ && r
                == pv.row_id {
                Some(pv)
            } else {
                old(self).posting_at(t, r)
            } by {
                assert(assoc(self.dict(), t) == if t == d[e as int].0 {
                    Some(entry@.1)
                } else {
                    assoc(d, t)
                });
            }
            proof {
                let nd = self.dict();
                assert forall|i: int, j: int|
                    0 <= i < nd.len() && 0 <= j < nd[i].1.len() implies self.has_row(
                    #[trigger] nd[i].1[j].row_id,
                ) by {
                    assert(self.docs@ == old(self).docs@);
                    assert(old(self).has_row(pv.row_id));
                    if i != e {
                        assert(nd[i] == d[i]);
                        assert(old(self).has_row(d[i].1[j].row_id));
                    } else if j < k {
                        assert(nd[i].1[j] == old_ps[j]);
                        assert(old(self).has_row(d[i].1[j].row_id));
                    } else if j > k {
                        assert(nd[i].1[j] == old_ps[j - 1]);
                        assert(old(self).has_row(d[i].1[j - 1].row_id));
                    }
                }
            }
        } else {
            let mut ps: Vec<Posting> = Vec::new();
            ps.push(p);
            let entry = TermEntry { term: copy_bytes(term), postings: ps };
            let mut k: usize = 0;
            while k < self.entries.len() && bytes_lt(&self.entries[k].term, term)
                invariant
                    k <= self.entries@.len(),
                    d == self.dict(),
                    forall|m: int| 0 <= m < k ==> lex_lt(#[trigger] d[m].0, term@),
                decreases self.entries@.len() - k,
            {
                k = k + 1;
            }
            proof {
                if k < d.len() {
                    assert(d[k as int] == self.entries@[k as int]@);
                    lemma_lex_total(d[k as int].0, term@);
                }
                lemma_assoc_insert(d, k as int, term@, seq![pv]);
            }
            self.entries.insert(k, entry);
            assert(self.dict() =~= d.insert(k as int, (term@, seq![pv]))) by {
                assert(postings_view(ps@) =~= seq![pv]);
            }
            proof {
                lemma_assoc_absent(d, term@);
                assert(seq![pv].drop_last() =~= Seq::<PostingView>::empty());
                assert(seq![pv].last() == pv);
                assert forall|t: Seq<u8>, r: u64| #[trigger] self.posting_at(t, r) == if t == term@
                    && r == pv.row_id {
                    Some(pv)
                } else {
                    old(self).posting_at(t, r)
                } by {
                    assert(find_row(seq![pv], r) == if pv.row_id == r {
                        Some(pv)
                    } else {
                        find_row(Seq::<PostingView>::empty(), r)
                    });
                }
                let nd = self.dict();
                assert forall|i: int, j: int|
                    0 <= i < nd.len() && 0 <= j < nd[i].1.len() implies self.has_row(
                    #[trigger] nd[i].1[j].row_id,
                ) by {
                    assert(self.docs@ == old(self).docs@);
                    assert(old(self).has_row(pv.row_id));
                    if i < k {
                        assert(nd[i] == d[i]);
                        assert(old(self).has_row(d[i].1[j].row_id));
                    } else if i > k {
                        assert(nd[i] == d[i - 1]);
                        assert(old(self).has_row(d[i - 1].1[j].row_id));
                    }
                }
                assert forall|i: int| 0 <= i < nd.len() implies strictly_increasing(#[trigger] nd[i].1) && nd[i].1.len() > 0 by {
                    if i < k {
                        assert(nd[i] == d[i]);
                    } else if i > k {
                        assert(nd[i] == d[i - 1]);
                    }
                }
                assert forall|i: int| 0 <= i < nd.len() - 1 implies #[trigger] lex_lt(nd[i].0, nd[i + 1].0) by {
                    if i + 1 < k {
                        assert(nd[i] == d[i] && nd[i + 1] == d[i + 1]);
                        assert(lex_lt(d[i].0, d[i + 1].0));
                    } else if i + 1 == k {
                        assert(nd[i] == d[i]);
                        assert(lex_lt(d[i].0, term@));
                    } else if i == k {
                        assert(nd[i + 1] == d[i]);
                        assert(lex_lt(term@, d[i].0));
                    } else {
                        assert(nd[i] == d[i - 1] && nd[i + 1] == d[i]);
                        let j = i - 1;
                        assert(old(self).wf());
                        assert(j + 1 == i);
                        assert(lex_lt(d[j].0, d[j + 1].0));
                    }
                }
            }
        }
    }
}

/// Whether a row with this text can be added: the segment does not hold the
/// row yet, and the token total stays within range.
pub open spec fn can_add(seg: Segment, row_id: u64, text: Seq<u8>, config: TokenizerConfig) -> bool {
    &&& !seg.has_row(row_id)
    &&& seg.total_tokens + tokenize_spec(text, config).len() <= u64::MAX
}

/// `new` is `old` with row `row_id`, whose tokens are `toks`, added.
pub open spec fn doc_added(old: Segment, new: Segment, row_id: u64, toks: Seq<TokenView>) -> bool {
    &&& forall|t: Seq<u8>, r: u64|
        #[trigger] new.posting_at(t, r) == if r == row_id {
            doc_posting(toks, t, r)
        } else {
            old.posting_at(t, r)
        }
    &&& forall|r: u64|
        #[trigger] doc_len(new.docs@, r) == if r == row_id {
            Some(toks.len() as u32)
        } else {
            doc_len(old.docs@, r)
        }
    &&& new.total_tokens == old.total_tokens + toks.len()
    &&& new.docs@.len() == old.docs@.len() + 1
    &&& forall|r: u64| #[trigger] new.has_row(r) == (old.has_row(r) || r == row_id)
}

pub proof fn lemma_absent_row(seg: Segment, t: Seq<u8>, r: u64)
    requires
        seg.wf(),
        !seg.has_row(r),
    ensures
        seg.posting_at(t, r) is None,
{
    let d = seg.dict();
    if assoc(d, t) is Some {
        lemma_assoc_some(d, t);
        let i = choose|i: int| 0 <= i < d.len() && d[i].0 == t && d[i].1 == assoc(d, t)->0;
        assert forall|j: int| 0 <= j < d[i].1.len() implies d[i].1[j].row_id != r by {
            assert(seg.has_row(d[i].1[j].row_id));
        }
        lemma_find_row_absent(d[i].1, r);
    }
}

impl Segment {
    /// Tokenizes `text` and adds the postings of row `row_id`. Fails with
    /// `Index`, leaving the segment as it was, when the segment already holds
    /// the row or the token total would overflow.
    pub fn add_document(&mut self, row_id: u64, text: &Vec<u8>, config: &TokenizerConfig) -> (res:
        Result<(), IndexError>)
        requires
            old(self).wf(),
            text@.len() < u32::MAX,
        ensures
            final(self).wf(),
            can_add(*old(self), row_id, text@, *config) ==> res is Ok && doc_added(
                *old(self),
                *final(self),
                row_id,
                tokenize_spec(text@, *config),
            ),
            !can_add(*old(self), row_id, text@, *config) ==> res == Err::<(), IndexError>(
                IndexError::Index,
            ) && *final(self) == *old(self),
    {
        if self.contains_row(row_id) {
            return Err(IndexError::Index);
        }
        let toks = tokenize(text, config);
        let ghost tv = toks@.map_values(|k: Token| k@);
        proof {
            lemma_tokenize_len(text@, *config);
        }
        if toks.len() as u64 > u64::MAX - self.total_tokens {
            return Err(IndexError::Index);
        }
        let ghost old_self = *self;
        let ghost od = self.dict();
        let info = DocInfo { row_id, length: toks.len() as u32 };
        self.docs.push(info);
        self.total_tokens = self.total_tokens + toks.len() as u64;
        assert(self.docs@.drop_last() =~= old_self.docs@);
        assert(self.dict() == od);
        proof {
            assert(self.has_row(row_id)) by {
                assert(self.docs@[self.docs@.len() - 1].row_id == row_id);
            }
            assert forall|i: int, j: int|
                0 <= i < od.len() && 0 <= j < od[i].1.len() implies self.has_row(
                #[trigger] od[i].1[j].row_id,
            ) by {
                assert(old_self.has_row(od[i].1[j].row_id));
                let k = choose|k: int|
                    0 <= k < old_self.docs@.len() && old_self.docs@[k].row_id == od[i].1[j].row_id;
                assert(self.docs@[k] == old_self.docs@[k]);
            }
            assert forall|i: int, j: int|
                0 <= i < j < self.docs@.len() implies self.docs@[i].row_id
                != self.docs@[j].row_id by {
                if j == self.docs@.len() - 1 {
                    assert(self.docs@[i] == old_self.docs@[i]);
                }
            }
            assert forall|t: Seq<u8>, r: u64| #[trigger] self.posting_at(t, r) == if r == row_id {
                None
            } else {
                old_self.posting_at(t, r)
            } by {
                if r == row_id {
                    lemma_absent_row(old_self, t, r);
                }
            }
        }
        let groups = group_tokens(&toks);
        let ghost gv = groups_view(groups@);
        let mut j: usize = 0;
        assert(gv.take(0) =~= Seq::<(Seq<u8>, Seq<u32>)>::empty());
        while j < groups.len()
            invariant
                j <= groups@.len(),
                gv == groups_view(groups@),
                keys_unique(gv),
                forall|t: Seq<u8>| #[trigger] assoc(gv, t) == positions_opt(tv, t),
                tv.len() < u32::MAX,
                self.wf(),
                self.has_row(row_id),
                self.docs@ == old_self.docs@.push(info),
                self.total_tokens == old_self.total_tokens + tv.len(),
                forall|t: Seq<u8>, r: u64|
                    #[trigger] self.posting_at(t, r) == if r == row_id {
                        if assoc(gv.take(j as int), t) is Some {
                            doc_posting(tv, t, r)
                        } else {
                            None
                        }
                    } else {
                        old_self.posting_at(t, r)
                    },
            decreases groups@.len() - j,
        {
            let g = &groups[j];
            let ghost key = gv[j as int].0;
            assert(g@ == gv[j as int]);
            proof {
                assert forall|m: int| 0 <= m < gv.take(j as int).len() implies gv.take(
                    j as int,
                )[m].0 != key by {}
                lemma_assoc_absent(gv.take(j as int), key);
                lemma_assoc_at(gv, j as int);
                lemma_term_positions_len(tv, key);
            }
            let p = Posting {
                row_id,
                freq: g.positions.len() as u32,
                positions: crate::posting::copy_u32s(&g.positions),
            };
            let ghost pv = p@;
            self.insert_posting(&g.term, p);
            proof {
                assert(gv.take(j + 1).drop_last() =~= gv.take(j as int));
                assert(gv.take(j + 1).last() == gv[j as int]);
                assert(doc_posting(tv, key, row_id) == Some(pv));
            }
            j = j + 1;
        }
        assert(gv.take(j as int) =~= gv);
        assert(self.docs@.drop_last() =~= old_self.docs@);
        assert forall|r: u64| #[trigger] self.has_row(r) == (old_self.has_row(r) || r == row_id) by {
            if old_self.has_row(r) {
                let m = choose|m: int| 0 <= m < old_self.docs@.len() && old_self.docs@[m].row_id == r;
                assert(self.docs@[m] == old_self.docs@[m]);
            }
            if self.has_row(r) && r != row_id {
                let m = choose|m: int| 0 <= m < self.docs@.len() && self.docs@[m].row_id == r;
                assert(m < old_self.docs@.len());
                assert(self.docs@[m] == old_self.docs@[m]);
            }
        }
        Ok(())
    }
}

pub proof fn lemma_doc_len_member(docs: Seq<DocInfo>, k: int)
    requires
        0 <= k < docs.len(),
    ensures
        doc_len(docs, docs[k].row_id) is Some,
    decreases docs.len(),
{
    if k < docs.len() - 1 && docs.last().row_id != docs[k].row_id {
        lemma_doc_len_member(docs.drop_last(), k);
    }
}

pub proof fn lemma_doc_len_some(docs: Seq<DocInfo>, r: u64)
    requires
        doc_len(docs, r) is Some,
    ensures
        exists|k: int| 0 <= k < docs.len() && docs[k].row_id == r,
    decreases docs.len(),
{
    if docs.last().row_id != r {
        lemma_doc_len_some(docs.drop_last(), r);
        let k = choose|k: int| 0 <= k < docs.len() - 1 && docs.drop_last()[k].row_id == r;
        assert(docs[k] == docs.drop_last()[k]);
    } else {
        assert(docs[docs.len() - 1] == docs.last());
    }
}

/// A copy of a text.
pub fn copy_text(v: &Vec<u8>) -> (r: Vec<u8>)
    ensures
        r@ == v@,
{
    copy_bytes(v)
}

pub proof fn lemma_total_len_prefix(docs: Seq<DocInfo>, k: int)
    requires
        0 <= k <= docs.len(),
    ensures
        total_len(docs.take(k)) <= total_len(docs),
    decreases docs.len(),
{
    if k < docs.len() {
        lemma_total_len_prefix(docs.drop_last(), k);
        assert(docs.drop_last().take(k) =~= docs.take(k));
    } else {
        assert(docs.take(k) =~= docs);
    }
}

/// In a strictly increasing list, the posting of a row is the one that has it.
pub proof fn lemma_find_row_at(ps: Seq<PostingView>, j: int)
    requires
        strictly_increasing(ps),
        0 <= j < ps.len(),
    ensures
        find_row(ps, ps[j].row_id) == Some(ps[j]),
    decreases ps.len(),
{
    if j < ps.len() - 1 {
        assert(ps.last() == ps[ps.len() - 1]);
        lemma_find_row_at(ps.drop_last(), j);
    }
}

pub proof fn lemma_find_row_index(ps: Seq<PostingView>, r: u64) -> (j: int)
    requires
        find_row(ps, r) is Some,
    ensures
        0 <= j < ps.len(),
        ps[j].row_id == r,
        ps[j] == find_row(ps, r)->0,
    decreases ps.len(),
{
    if ps.last().row_id == r {
        (ps.len() - 1) as int
    } else {
        let j = lemma_find_row_index(ps.drop_last(), r);
        assert(ps[j] == ps.drop_last()[j]);
        j
    }
}

/// The length of a row in two concatenated row lists: the later list wins.
pub proof fn lemma_doc_len_append(x: Seq<DocInfo>, y: Seq<DocInfo>, r: u64)
    ensures
        doc_len(x + y, r) == match doc_len(y, r) {
            Some(l) => Some(l),
            None => doc_len(x, r),
        },
    decreases y.len(),
{
    if y.len() == 0 {
        assert(x + y =~= x);
    } else {
        assert((x + y).drop_last() =~= x + y.drop_last());
        assert((x + y).last() == y.last());
        lemma_doc_len_append(x, y.drop_last(), r);
    }
}

} // verus!
