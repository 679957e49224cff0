use vstd::prelude::*;
use vstd::seq_lib::seq_to_set_is_finite;
use vstd::set::axiom_set_remove_len;
use vstd::set_lib::lemma_len_subset;
use crate::index::{DocInfo, Segment, assoc, doc_len, find_row};
use crate::posting::{Posting, postings_view, strictly_increasing};
use crate::scorer::{Bm25Params, TERM_SCORE_BOUND, lemma_score_nonneg, score_term, term_score};
use crate::tokenizer::bytes_eq;

verus! {

/// A row and its relevance score.
#[derive(Debug, Clone, Copy, PartialEq, Eq, Structural)]
pub struct ScoredRow {
    pub row_id: u64,
    pub score: u128,
}

/// `x` comes before `y` in a ranking: higher score first, then lower row id.
pub open spec fn ranks_before(x: ScoredRow, y: ScoredRow) -> bool {
    x.score > y.score || (x.score == y.score && x.row_id < y.row_id)
}

pub open spec fn sorted_by_rank(s: Seq<ScoredRow>) -> bool {
    forall|i: int, j: int| 0 <= i < j < s.len() ==> ranks_before(s[i], s[j])
}

/// The document frequency of `t`: the length of its posting list.
pub open spec fn doc_freq(seg: Segment, t: Seq<u8>) -> int {
    match assoc(seg.dict(), t) {
        Some(ps) => ps.len() as int,
        None => 0,
    }
}

/// What term `t` adds to the score of row `r`.
pub open spec fn term_contrib(seg: Segment, t: Seq<u8>, r: u64, p: Bm25Params) -> int {
    match seg.posting_at(t, r) {
        Some(post) => match doc_len(seg.docs@, r) {
            Some(dl) => term_score(
                post.freq as int,
                doc_freq(seg, t),
                seg.docs@.len() as int,
                dl as int,
                seg.total_tokens as int,
                p,
            ),
            None => 0,
        },
        None => 0,
    }
}

/// The score of row `r` for the query terms: the sum of the terms' contributions.
pub open spec fn row_score(seg: Segment, q: Seq<Seq<u8>>, r: u64, p: Bm25Params) -> int
    decreases q.len(),
{
    if q.len() == 0 {
        0
    } else {
        row_score(seg, q.drop_last(), r, p) + term_contrib(seg, q.last(), r, p)
    }
}

/// A row that has a posting for some query term.
pub open spec fn is_candidate(seg: Segment, q: Seq<Seq<u8>>, r: u64) -> bool {
    exists|i: int| 0 <= i < q.len() && seg.posting_at(q[i], r) is Some
}

pub open spec fn terms_view(q: Seq<Vec<u8>>) -> Seq<Seq<u8>> {
    q.map_values(|t: Vec<u8>| t@)
}

/// `out` is the best `k` of `pool` in ranking order.
pub open spec fn top_k_of(out: Seq<ScoredRow>, pool: Seq<ScoredRow>, k: int) -> bool {
    &&& sorted_by_rank(out)
    &&& out.len() <= k
    &&& forall|i: int| 0 <= i < out.len() ==> pool.contains(out[i])
    &&& forall|x: ScoredRow|
        pool.contains(x) && !out.contains(x) ==> out.len() == k && forall|i: int|
            0 <= i < out.len() ==> ranks_before(out[i], x)
}

fn ranks_before_exec(x: &ScoredRow, y: &ScoredRow) -> (r: bool)
    ensures
        r == ranks_before(*x, *y),
{
    x.score > y.score || (x.score == y.score && x.row_id < y.row_id)
}

/// Index of the dictionary entry of `t`.
fn find_entry(seg: &Segment, t: &Vec<u8>) -> (r: Option<usize>)
    requires
        seg.wf(),
    ensures
        match r {
            Some(e) => e < seg.entries@.len() && seg.dict()[e as int].0 == t@ && assoc(seg.dict(), t@)
                == Some(seg.dict()[e as int].1),
            None => assoc(seg.dict(), t@) is None,
        },
{
    let mut e: usize = 0;
    while e < seg.entries.len()
        invariant
            e <= seg.entries@.len(),
            seg.wf(),
            forall|m: int| 0 <= m < e ==> seg.dict()[m].0 != t@,
        decreases seg.entries@.len() - e,
    {
        assert(seg.dict()[e as int] == seg.entries@[e as int]@);
        if bytes_eq(&seg.entries[e].term, t) {
            proof {
                crate::index::lemma_assoc_at(seg.dict(), e as int);
            }
            return Some(e);
        }
        e = e + 1;
    }
    proof {
        crate::index::lemma_assoc_absent(seg.dict(), t@);
    }
    None
}

/// Index of the posting of row `r` in a strictly increasing list.
fn find_posting(ps: &Vec<Posting>, r: u64) -> (j: Option<usize>)
    requires
        strictly_increasing(postings_view(ps@)),
    ensures
        match j {
            Some(j) => j < ps@.len() && find_row(postings_view(ps@), r) == Some(ps@[j as int]@),
            None => find_row(postings_view(ps@), r) is None,
        },
{
    let ghost v = postings_view(ps@);
    let mut j: usize = 0;
    while j < ps.len()
        invariant
            j <= ps@.len(),
            v == postings_view(ps@),
            strictly_increasing(v),
            forall|m: int| 0 <= m < j ==> v[m].row_id != r,
        decreases ps@.len() - j,
    {
        assert(v[j as int] == ps@[j as int]@);
        if ps[j].row_id == r {
            proof {
                crate::index::lemma_find_row_at(v, j as int);
            }
            return Some(j);
        }
        j = j + 1;
    }
    proof {
        crate::index::lemma_find_row_absent(v, r);
    }
    None
}

proof fn lemma_doc_len_at(docs: Seq<DocInfo>, k: int)
    requires
        0 <= k < docs.len(),
        forall|i: int, j: int| 0 <= i < j < docs.len() ==> docs[i].row_id != docs[j].row_id,
    ensures
        doc_len(docs, docs[k].row_id) == Some(docs[k].length),
    decreases docs.len(),
{
    if k < docs.len() - 1 {
        assert(docs.last() == docs[docs.len() - 1]);
        lemma_doc_len_at(docs.drop_last(), k);
    }
}

proof fn lemma_doc_len_absent(docs: Seq<DocInfo>, r: u64)
    requires
        forall|i: int| 0 <= i < docs.len() ==> docs[i].row_id != r,
    ensures
        doc_len(docs, r) is None,
    decreases docs.len(),
{
    if docs.len() > 0 {
        lemma_doc_len_absent(docs.drop_last(), r);
    }
}

/// The length of row `r` in the segment.
fn find_doc_len(seg: &Segment, r: u64) -> (l: Option<u32>)
    requires
        seg.wf(),
    ensures
        l == doc_len(seg.docs@, r),
{
    let mut k: usize = 0;
    while k < seg.docs.len()
        invariant
            k <= seg.docs@.len(),
            seg.wf(),
            forall|m: int| 0 <= m < k ==> seg.docs@[m].row_id != r,
        decreases seg.docs@.len() - k,
    {
        if seg.docs[k].row_id == r {
            proof {
                lemma_doc_len_at(seg.docs@, k as int);
            }
            return Some(seg.docs[k].length);
        }
        k = k + 1;
    }
    proof {
        lemma_doc_len_absent(seg.docs@, r);
    }
    None
}

/// The score of row `r` for the query terms.
pub fn score_row(seg: &Segment, q: &Vec<Vec<u8>>, r: u64, p: &Bm25Params) -> (s: u128)
    requires
        seg.wf(),
        p.valid(),
        q@.len() <= u32::MAX,
    ensures
        s == row_score(*seg, terms_view(q@), r, *p),
{
    let ghost qv = terms_view(q@);
    let dl = find_doc_len(seg, r);
    let mut sum: u128 = 0;
    let mut i: usize = 0;
    assert(qv.take(0) =~= Seq::<Seq<u8>>::empty());
    while i < q.len()
        invariant
            i <= q@.len(),
            q@.len() <= u32::MAX,
            qv == terms_view(q@),
            seg.wf(),
            p.valid(),
            dl == doc_len(seg.docs@, r),
            sum == row_score(*seg, qv.take(i as int), r, *p),
            sum <= i * TERM_SCORE_BOUND,
        decreases q@.len() - i,
    {
        assert(qv.take(i + 1).drop_last() =~= qv.take(i as int));
        assert(qv.take(i + 1).last() == q@[i as int]@);
        let mut add: u128 = 0;
        match find_entry(seg, &q[i]) {
            Some(e) => {
                let ps = &seg.entries[e].postings;
                assert(seg.dict()[e as int].1 == postings_view(ps@));
                match find_posting(ps, r) {
                    Some(j) => {
                        match dl {
                            Some(len) => {
                                add = score_term(
                                    ps[j].freq,
                                    ps.len() as u64,
                                    seg.docs.len() as u64,
                                    len,
                                    seg.total_tokens,
                                    p,
                                );
                            },
                            None => {},
                        }
                    },
                    None => {},
                }
            },
            None => {},
        }
        proof {
            assert(sum + add <= (i + 1) * TERM_SCORE_BOUND) by (nonlinear_arith)
                requires sum <= i * TERM_SCORE_BOUND, add < TERM_SCORE_BOUND;
            assert((i + 1) * TERM_SCORE_BOUND <= 0x1_0000_0000 * TERM_SCORE_BOUND) by (nonlinear_arith)
                requires i + 1 <= 0x1_0000_0000;
        }
        sum = sum + add;
        i = i + 1;
    }
    assert(qv.take(i as int) =~= qv);
    sum
}

/// Inserts `item` into a ranking of at most `k` rows, dropping the last
/// row when the ranking would grow beyond `k`.
fn insert_ranked(out: &mut Vec<ScoredRow>, item: ScoredRow, k: usize)
    requires
        sorted_by_rank(old(out)@),
        old(out)@.len() <= k,
        k > 0,
        forall|i: int| 0 <= i < old(out)@.len() ==> old(out)@[i].row_id != item.row_id,
    ensures
        sorted_by_rank(final(out)@),
        final(out)@.len() <= k,
        final(out)@.len() as int == if old(out)@.len() < k {
            old(out)@.len() + 1int
        } else {
            k as int
        },
        forall|i: int|
            0 <= i < final(out)@.len() ==> old(out)@.contains(#[trigger] final(out)@[i])
                || final(out)@[i] == item,
        forall|y: ScoredRow|
            old(out)@.push(item).contains(y) && !final(out)@.contains(y) ==> final(out)@.len() == k
                && forall|i: int| 0 <= i < final(out)@.len() ==> ranks_before(final(out)@[i], y),
        final(out)@.contains(item) && old(out)@.len() == k ==> ranks_before(
            item,
            old(out)@[k - 1],
        ),
{
    let ghost o = out@;
    let mut p: usize = 0;
    while p < out.len() && ranks_before_exec(&out[p], &item)
        invariant
            p <= out@.len(),
            out@ == o,
            forall|i: int| 0 <= i < p ==> ranks_before(o[i], item),
        decreases out@.len() - p,
    {
        p = p + 1;
    }
    proof {
        if p < o.len() {
            assert(ranks_before(item, o[p as int]));
            assert forall|j: int| p <= j < o.len() implies ranks_before(item, o[j]) by {
                if j > p {
                    assert(ranks_before(o[p as int], o[j]));
                }
            }
        }
    }
    if p >= k {
        proof {
            assert forall|y: ScoredRow| o.push(item).contains(y) && !out@.contains(y) implies out@.len()
                == k && forall|i: int| 0 <= i < out@.len() ==> ranks_before(out@[i], y) by {
                let m = choose|m: int| 0 <= m < o.push(item).len() && o.push(item)[m] == y;
                if m < o.len() {
                    assert(out@.contains(o[m]));
                }
            }
        }
        return;
    }
    out.insert(p, item);
    let ghost n = out@;
    assert(n == o.insert(p as int, item));
    assert(sorted_by_rank(n)) by {
        assert forall|i: int, j: int| 0 <= i < j < n.len() implies ranks_before(n[i], n[j]) by {
            if j < p {
            } else if j == p {
            } else if i < p {
                assert(n[j] == o[j - 1]);
                assert(ranks_before(o[i], o[j - 1]));
            } else if i == p {
                assert(n[j] == o[j - 1]);
            } else {
                assert(n[i] == o[i - 1] && n[j] == o[j - 1]);
            }
        }
    }
    if out.len() > k {
        let _ = out.pop();
        assert(out@ =~= n.subrange(0, k as int));
        proof {
            assert(n[k as int] == o[k - 1]);
            assert forall|y: ScoredRow| o.push(item).contains(y) && !out@.contains(y) implies out@.len()
                == k && forall|i: int| 0 <= i < out@.len() ==> ranks_before(out@[i], y) by {
                let m = choose|m: int| 0 <= m < o.push(item).len() && o.push(item)[m] == y;
                if m == o.len() {
                    assert(out@[p as int] == item);
                } else if m < p {
                    assert(out@[m] == y);
                } else if m < k - 1 {
                    assert(out@[m + 1] == y);
                } else {
                    assert(y == n[k as int]);
                    assert forall|i: int| 0 <= i < out@.len() implies ranks_before(out@[i], y) by {
                        assert(out@[i] == n[i]);
                    }
                }
            }
            assert forall|i: int| 0 <= i < out@.len() implies o.contains(#[trigger] out@[i])
                || out@[i] == item by {
                if i < p {
                    assert(out@[i] == o[i]);
                } else if i > p {
                    assert(out@[i] == o[i - 1]);
                }
            }
            if o.len() == k {
                assert(ranks_before(item, o[k - 1]));
            }
        }
    } else {
        proof {
            assert forall|y: ScoredRow| o.push(item).contains(y) implies out@.contains(y) by {
                let m = choose|m: int| 0 <= m < o.push(item).len() && o.push(item)[m] == y;
                if m == o.len() {
                    assert(out@[p as int] == item);
                } else if m < p {
                    assert(out@[m] == y);
                } else {
                    assert(out@[m + 1] == y);
                }
            }
            assert forall|i: int| 0 <= i < out@.len() implies o.contains(#[trigger] out@[i])
                || out@[i] == item by {
                if i < p {
                    assert(out@[i] == o[i]);
                } else if i > p {
                    assert(out@[i] == o[i - 1]);
                }
            }
        }
    }
}

/// Whether the filter admits row `r`: no filter admits every row, a list
/// admits the rows it names.
pub open spec fn admitted(filter: Option<Seq<u64>>, r: u64) -> bool {
    match filter {
        Some(rows) => rows.contains(r),
        None => true,
    }
}

pub open spec fn filter_view(filter: &Option<Vec<u64>>) -> Option<Seq<u64>> {
    match filter {
        Some(rows) => Some(rows@),
        None => None,
    }
}

/// Whether `r` is among `rows`.
pub fn contains_row_id(rows: &Vec<u64>, r: u64) -> (b: bool)
    ensures
        b == rows@.contains(r),
{
    let mut k: usize = 0;
    while k < rows.len()
        invariant
            k <= rows@.len(),
            forall|m: int| 0 <= m < k ==> rows@[m] != r,
        decreases rows@.len() - k,
    {
        if rows[k] == r {
            assert(rows@[k as int] == r);
            return true;
        }
        k = k + 1;
    }
    false
}

fn admits(filter: &Option<Vec<u64>>, r: u64) -> (b: bool)
    ensures
        b == admitted(filter_view(filter), r),
{
    match filter {
        Some(rows) => contains_row_id(rows, r),
        None => true,
    }
}

/// The row as ranked for the query.
pub open spec fn scored(seg: Segment, q: Seq<Seq<u8>>, r: u64, p: Bm25Params) -> ScoredRow {
    ScoredRow { row_id: r, score: row_score(seg, q, r, p) as u128 }
}

/// The sum of `s[a..m]`.
pub open spec fn sum_range(s: Seq<u128>, a: int, m: int) -> int
    decreases m - a,
{
    if m <= a {
        0
    } else {
        sum_range(s, a, m - 1) + s[m - 1]
    }
}

proof fn lemma_contrib_nonneg(seg: Segment, t: Seq<u8>, r: u64, p: Bm25Params)
    requires
        p.valid(),
    ensures
        term_contrib(seg, t, r, p) >= 0,
{
    match seg.posting_at(t, r) {
        Some(post) => match doc_len(seg.docs@, r) {
            Some(dl) => {
                lemma_score_nonneg(
                    post.freq as int,
                    doc_freq(seg, t),
                    seg.docs@.len() as int,
                    dl as int,
                    seg.total_tokens as int,
                    p,
                );
            },
            None => {},
        },
        None => {},
    }
}

/// A row without postings for the first `a` query terms scores at most the
/// sum of the remaining terms' bounds.
proof fn lemma_row_score_bound(
    seg: Segment,
    qv: Seq<Seq<u8>>,
    r: u64,
    p: Bm25Params,
    ubs: Seq<u128>,
    a: int,
    m: int,
)
    requires
        p.valid(),
        0 <= a,
        0 <= m <= qv.len(),
        ubs.len() == qv.len(),
        forall|t: int| 0 <= t < a && t < qv.len() ==> seg.posting_at(qv[t], r) is None,
        forall|t: int, x: u64| 0 <= t < qv.len() ==> #[trigger] term_contrib(seg, qv[t], x, p) <= ubs[t],
    ensures
        0 <= row_score(seg, qv.take(m), r, p) <= sum_range(ubs, a, m),
    decreases m,
{
    if m > 0 {
        lemma_row_score_bound(seg, qv, r, p, ubs, a, m - 1);
        assert(qv.take(m).drop_last() =~= qv.take(m - 1));
        assert(qv.take(m).last() == qv[m - 1]);
        lemma_contrib_nonneg(seg, qv[m - 1], r, p);
        assert(term_contrib(seg, qv[m - 1], r, p) <= ubs[m - 1]);
    } else {
        assert(qv.take(0).len() == 0);
    }
}

/// A bound on what term `t` adds to the score of any row: the largest
/// contribution over its posting list.
fn term_upper_bound(seg: &Segment, t: &Vec<u8>, p: &Bm25Params) -> (u: u128)
    requires
        seg.wf(),
        p.valid(),
    ensures
        u < TERM_SCORE_BOUND,
        forall|r: u64| term_contrib(*seg, t@, r, *p) <= u,
{
    match find_entry(seg, t) {
        None => {
            0
        },
        Some(e) => {
            let ps = &seg.entries[e].postings;
            let ghost pv = postings_view(ps@);
            assert(seg.dict()[e as int].1 == pv);
            assert(strictly_increasing(pv));
            let mut best: u128 = 0;
            let mut j: usize = 0;
            while j < ps.len()
                invariant
                    j <= ps@.len(),
                    seg.wf(),
                    p.valid(),
                    pv == postings_view(ps@),
                    strictly_increasing(pv),
                    assoc(seg.dict(), t@) == Some(pv),
                    best < TERM_SCORE_BOUND,
                    forall|jj: int| 0 <= jj < j ==> term_contrib(*seg, t@, #[trigger] pv[jj].row_id, *p) <= best,
                decreases ps@.len() - j,
            {
                let row = ps[j].row_id;
                assert(pv[j as int] == ps@[j as int]@);
                proof {
                    crate::index::lemma_find_row_at(pv, j as int);
                }
                match find_doc_len(seg, row) {
                    Some(len) => {
                        let s = score_term(
                            ps[j].freq,
                            ps.len() as u64,
                            seg.docs.len() as u64,
                            len,
                            seg.total_tokens,
                            p,
                        );
                        if s > best {
                            best = s;
                        }
                    },
                    None => {},
                }
                j = j + 1;
            }
            proof {
                assert forall|r: u64| term_contrib(*seg, t@, r, *p) <= best by {
                    if seg.posting_at(t@, r) is Some {
                        let jj = crate::index::lemma_find_row_index(pv, r);
                        assert(pv[jj].row_id == r);
                    }
                }
            }
            best
        },
    }
}

/// `out` ranks the `k` best admitted candidates: each row in it has a
/// posting for some query term and carries its full score, they come in
/// ranking order, and every admitted candidate left out ranks after all of
/// them, which can only happen when `out` holds `k` rows.
pub open spec fn is_top_k_result(
    out: Seq<ScoredRow>,
    seg: Segment,
    qv: Seq<Seq<u8>>,
    k: int,
    p: Bm25Params,
    fv: Option<Seq<u64>>,
) -> bool {
    &&& sorted_by_rank(out)
    &&& out.len() <= k
    &&& forall|i: int|
        0 <= i < out.len() ==> is_candidate(seg, qv, #[trigger] out[i].row_id) && admitted(
            fv,
            out[i].row_id,
        ) && out[i] == scored(seg, qv, out[i].row_id, p)
    &&& forall|r: u64|
        is_candidate(seg, qv, r) && admitted(fv, r) && !(exists|i: int|
            0 <= i < out.len() && #[trigger] out[i].row_id == r) ==> out.len() == k && forall|i: int|
            0 <= i < out.len() ==> ranks_before(out[i], scored(seg, qv, r, p))
}

proof fn lemma_sorted_no_duplicates(s: Seq<ScoredRow>)
    requires
        sorted_by_rank(s),
    ensures
        s.no_duplicates(),
{
    assert forall|i: int, j: int| 0 <= i < s.len() && 0 <= j < s.len() && i != j implies s[i]
        != s[j] by {
        if i < j {
            assert(ranks_before(s[i], s[j]));
        } else {
            assert(ranks_before(s[j], s[i]));
        }
    }
}

proof fn lemma_result_contained(
    a: Seq<ScoredRow>,
    b: Seq<ScoredRow>,
    seg: Segment,
    qv: Seq<Seq<u8>>,
    k: int,
    p: Bm25Params,
    fv: Option<Seq<u64>>,
)
    requires
        is_top_k_result(a, seg, qv, k, p, fv),
        is_top_k_result(b, seg, qv, k, p, fv),
    ensures
        forall|x: ScoredRow| a.contains(x) ==> b.contains(x),
{
    assert forall|x: ScoredRow| a.contains(x) implies b.contains(x) by {
        if !b.contains(x) {
            let i = choose|i: int| 0 <= i < a.len() && a[i] == x;
            let r = x.row_id;
            assert(a[i].row_id == r);
            if exists|j: int| 0 <= j < b.len() && #[trigger] b[j].row_id == r {
                let j = choose|j: int| 0 <= j < b.len() && #[trigger] b[j].row_id == r;
                assert(b[j] == x);
            }
            assert(b.len() == k);
            assert forall|j: int| 0 <= j < b.len() implies a.to_set().remove(x).contains(
                #[trigger] b[j],
            ) by {
                let r2 = b[j].row_id;
                assert(ranks_before(b[j], x));
                if exists|m: int| 0 <= m < a.len() && #[trigger] a[m].row_id == r2 {
                    let m = choose|m: int| 0 <= m < a.len() && #[trigger] a[m].row_id == r2;
                    assert(a[m] == b[j]);
                    assert(a.contains(b[j]));
                } else {
                    assert(ranks_before(a[i], scored(seg, qv, r2, p)));
                    assert(false);
                }
            }
            lemma_sorted_no_duplicates(a);
            lemma_sorted_no_duplicates(b);
            a.unique_seq_to_set();
            b.unique_seq_to_set();
            seq_to_set_is_finite(a);
            assert(b.to_set().subset_of(a.to_set().remove(x))) by {
                assert forall|y: ScoredRow| b.to_set().contains(y) implies a.to_set().remove(
                    x,
                ).contains(y) by {
                    let j = choose|j: int| 0 <= j < b.len() && b[j] == y;
                }
            }
            lemma_len_subset(b.to_set(), a.to_set().remove(x));
            axiom_set_remove_len(a.to_set(), x);
            assert(a.to_set().contains(x));
        }
    }
}

proof fn lemma_sorted_same_elements(a: Seq<ScoredRow>, b: Seq<ScoredRow>)
    requires
        sorted_by_rank(a),
        sorted_by_rank(b),
        forall|x: ScoredRow| a.contains(x) <==> b.contains(x),
    ensures
        a == b,
    decreases a.len(),
{
    if a.len() == 0 {
        if b.len() > 0 {
            assert(b.contains(b[0]));
        }
        assert(a =~= b);
    } else if b.len() == 0 {
        assert(a.contains(a[0]));
    } else {
        assert(a.contains(a[0]));
        assert(b.contains(b[0]));
        let j = choose|j: int| 0 <= j < b.len() && b[j] == a[0];
        let m = choose|m: int| 0 <= m < a.len() && a[m] == b[0];
        if a[0] != b[0] {
            assert(j > 0 && m > 0);
            assert(ranks_before(b[0], b[j]));
            assert(ranks_before(a[0], a[m]));
        }
        lemma_sorted_no_duplicates(a);
        lemma_sorted_no_duplicates(b);
        let a1 = a.drop_first();
        let b1 = b.drop_first();
        assert forall|x: ScoredRow| a1.contains(x) <==> b1.contains(x) by {
            if a1.contains(x) {
                let i = choose|i: int| 0 <= i < a1.len() && a1[i] == x;
                assert(a[i + 1] == x);
                assert(b.contains(x));
                let n = choose|n: int| 0 <= n < b.len() && b[n] == x;
                assert(n != 0);
                assert(b1[n - 1] == x);
            }
            if b1.contains(x) {
                let i = choose|i: int| 0 <= i < b1.len() && b1[i] == x;
                assert(b[i + 1] == x);
                assert(a.contains(x));
                let n = choose|n: int| 0 <= n < a.len() && a[n] == x;
                assert(n != 0);
                assert(a1[n - 1] == x);
            }
        }
        lemma_sorted_same_elements(a1, b1);
        assert(a =~= seq![a[0]] + a1);
        assert(b =~= seq![b[0]] + b1);
    }
}

/// The ranked result is determined by the segment, the query, `k`, the
/// parameters and the filter: any two rankings that meet the contract of
/// `search` are equal. So `search` returns exactly what scoring every row
/// that has a posting for a query term, ranking them all and keeping the
/// first `k` would return.
pub proof fn lemma_top_k_unique(
    a: Seq<ScoredRow>,
    b: Seq<ScoredRow>,
    seg: Segment,
    qv: Seq<Seq<u8>>,
    k: int,
    p: Bm25Params,
    fv: Option<Seq<u64>>,
)
    requires
        is_top_k_result(a, seg, qv, k, p, fv),
        is_top_k_result(b, seg, qv, k, p, fv),
    ensures
        a == b,
{
    lemma_result_contained(a, b, seg, qv, k, p, fv);
    lemma_result_contained(b, a, seg, qv, k, p, fv);
    lemma_sorted_same_elements(a, b);
}

/// Ranked top-k retrieval: the `k` admitted rows with the highest scores for
/// the query terms, best first, ties broken by lower row id. Every row in
/// the result has a posting for some query term and carries its full score;
/// every such admitted row that is left out ranks after all rows returned,
/// and then the result holds `k` rows. A term listed twice counts twice.
///
/// Terms are visited in order, each term's postings in row order. Each term
/// has a precomputed bound on what it can add to a score; once `k` rows are
/// held and the bounds of the terms not yet visited sum to less than the
/// k-th score, the rows that only those terms reach cannot enter the result
/// and are never scored.
pub fn search(
    seg: &Segment,
    q: &Vec<Vec<u8>>,
    k: usize,
    p: &Bm25Params,
    filter: &Option<Vec<u64>>,
) -> (out: Vec<ScoredRow>)
    requires
        seg.wf(),
        p.valid(),
        q@.len() <= u32::MAX,
    ensures
        is_top_k_result(out@, *seg, terms_view(q@), k as int, *p, filter_view(filter)),
{
    let ghost qv = terms_view(q@);
    let ghost fv = filter_view(filter);
    let mut out: Vec<ScoredRow> = Vec::new();
    if k == 0 {
        return out;
    }
    let mut ubs: Vec<u128> = Vec::new();
    let mut u: usize = 0;
    while u < q.len()
        invariant
            u <= q@.len(),
            qv == terms_view(q@),
            seg.wf(),
            p.valid(),
            ubs@.len() == u,
            forall|t: int| 0 <= t < u ==> ubs@[t] < TERM_SCORE_BOUND,
            forall|t: int, x: u64| 0 <= t < u ==> #[trigger] term_contrib(*seg, qv[t], x, *p) <= ubs@[t],
        decreases q@.len() - u,
    {
        assert(qv[u as int] == q@[u as int]@);
        let b = term_upper_bound(seg, &q[u], p);
        ubs.push(b);
        u = u + 1;
    }
    let mut done: Vec<u64> = Vec::new();
    let ghost mut pool: Seq<ScoredRow> = Seq::empty();
    let mut stop = false;
    let mut a: usize = 0;
    while a < q.len() && !stop
        invariant
            a <= q@.len(),
            ubs@.len() == q@.len(),
            forall|t: int| 0 <= t < q@.len() ==> ubs@[t] < TERM_SCORE_BOUND,
            forall|t: int, x: u64| 0 <= t < q@.len() ==> #[trigger] term_contrib(*seg, qv[t], x, *p) <= ubs@[t],
            stop ==> out@.len() == k && forall|r: u64|
                is_candidate(*seg, qv, r) && admitted(fv, r) && !done@.contains(r) ==> row_score(
                    *seg,
                    qv,
                    r,
                    *p,
                ) < out@[k - 1].score,
            k > 0,
            qv == terms_view(q@),
            fv == filter_view(filter),
            seg.wf(),
            p.valid(),
            q@.len() <= u32::MAX,
            pool.len() == done@.len(),
            forall|m: int|
                0 <= m < pool.len() ==> pool[m].row_id == done@[m] && #[trigger] pool[m] == scored(
                    *seg,
                    qv,
                    done@[m],
                    *p,
                ) && is_candidate(*seg, qv, done@[m]) && admitted(fv, done@[m]),
            top_k_of(out@, pool, k as int),
            forall|t: int, r: u64|
                0 <= t < a && seg.posting_at(qv[t], r) is Some && admitted(fv, r) ==> done@.contains(
                    r,
                ),
        decreases q@.len() - a + if stop { 0int } else { 1int },
    {
        assert(qv[a as int] == q@[a as int]@);
        let mut rest: u128 = 0;
        let mut m: usize = a;
        while m < q.len()
            invariant
                a <= m <= q@.len(),
                ubs@.len() == q@.len(),
                forall|t: int| 0 <= t < q@.len() ==> ubs@[t] < TERM_SCORE_BOUND,
                q@.len() <= u32::MAX,
                rest == sum_range(ubs@, a as int, m as int),
                rest <= (m - a) * TERM_SCORE_BOUND,
            decreases q@.len() - m,
        {
            proof {
                assert(rest + ubs@[m as int] <= (m + 1 - a) * TERM_SCORE_BOUND) by (nonlinear_arith)
                    requires rest <= (m - a) * TERM_SCORE_BOUND, ubs@[m as int] < TERM_SCORE_BOUND;
                assert((m + 1 - a) * TERM_SCORE_BOUND <= 0x1_0000_0000 * TERM_SCORE_BOUND) by (nonlinear_arith)
                    requires m + 1 - a <= 0x1_0000_0000;
            }
            rest = rest + ubs[m];
            m = m + 1;
        }
        if out.len() == k && rest < out[k - 1].score {
            proof {
                assert forall|r: u64|
                    is_candidate(*seg, qv, r) && admitted(fv, r) && !done@.contains(r) implies row_score(
                        *seg,
                        qv,
                        r,
                        *p,
                    ) < out@[k - 1].score by {
                    assert forall|t: int| 0 <= t < a && t < qv.len() implies seg.posting_at(qv[t], r) is None by {
                        if seg.posting_at(qv[t], r) is Some {
                            assert(done@.contains(r));
                        }
                    }
                    lemma_row_score_bound(*seg, qv, r, *p, ubs@, a as int, qv.len() as int);
                    assert(qv.take(qv.len() as int) =~= qv);
                }
            }
            stop = true;
        } else {
        match find_entry(seg, &q[a]) {
            None => {},
            Some(e) => {
                let ps = &seg.entries[e].postings;
                let ghost pv = postings_view(ps@);
                assert(seg.dict()[e as int].1 == pv);
                assert(strictly_increasing(pv));
                let mut j: usize = 0;
                while j < ps.len()
                    invariant
                        j <= ps@.len(),
                        k > 0,
                        pv == postings_view(ps@),
                        assoc(seg.dict(), qv[a as int]) == Some(pv),
                        a < q@.len(),
                        ubs@.len() == q@.len(),
                        forall|t: int| 0 <= t < q@.len() ==> ubs@[t] < TERM_SCORE_BOUND,
                        forall|t: int, x: u64| 0 <= t < q@.len() ==> #[trigger] term_contrib(*seg, qv[t], x, *p) <= ubs@[t],
                        qv == terms_view(q@),
                        fv == filter_view(filter),
                        seg.wf(),
                        p.valid(),
                        q@.len() <= u32::MAX,
                        strictly_increasing(pv),
                        pool.len() == done@.len(),
                        forall|m: int|
                            0 <= m < pool.len() ==> pool[m].row_id == done@[m] && #[trigger] pool[m]
                                == scored(*seg, qv, done@[m], *p) && is_candidate(*seg, qv, done@[m])
                                && admitted(fv, done@[m]),
                        top_k_of(out@, pool, k as int),
                        forall|t: int, r: u64|
                            0 <= t < a && seg.posting_at(qv[t], r) is Some && admitted(fv, r)
                                ==> done@.contains(r),
                        forall|jj: int|
                            0 <= jj < j && admitted(fv, pv[jj].row_id) ==> done@.contains(
                                #[trigger] pv[jj].row_id,
                            ),
                    decreases ps@.len() - j,
                {
                    let r = ps[j].row_id;
                    assert(pv[j as int].row_id == r);
                    if !contains_row_id(&done, r) && admits(filter, r) {
                        let s = score_row(seg, q, r, p);
                        let item = ScoredRow { row_id: r, score: s };
                        proof {
                            crate::index::lemma_find_row_at(pv, j as int);
                            assert(seg.posting_at(qv[a as int], r) is Some);
                            assert(is_candidate(*seg, qv, r));
                            assert forall|i: int| 0 <= i < out@.len() implies out@[i].row_id != r by {
                                let m = choose|m: int| 0 <= m < pool.len() && pool[m] == out@[i];
                                assert(done@[m] == out@[i].row_id);
                            }
                        }
                        let ghost old_out = out@;
                        insert_ranked(&mut out, item, k);
                        let ghost old_pool = pool;
                        proof {
                            pool = pool.push(item);
                        }
                        let ghost old_done = done@;
                        done.push(r);
                        proof {
                            assert forall|x: u64| old_done.contains(x) implies done@.contains(x) by {
                                let m = choose|m: int| 0 <= m < old_done.len() && old_done[m] == x;
                                assert(done@[m] == x);
                            }
                            assert(done@[done@.len() - 1] == r);
                            assert forall|i: int| 0 <= i < out@.len() implies pool.contains(out@[i]) by {
                                if old_out.contains(out@[i]) {
                                    let m = choose|m: int| 0 <= m < old_out.len() && old_out[m] == out@[i];
                                    let mm = choose|mm: int| 0 <= mm < old_pool.len() && old_pool[mm] == old_out[m];
                                    assert(pool[mm] == old_pool[mm]);
                                } else {
                                    assert(pool[pool.len() - 1] == item);
                                }
                            }
                            assert forall|x: ScoredRow| pool.contains(x) && !out@.contains(x) implies out@.len()
                                == k && forall|i: int| 0 <= i < out@.len() ==> ranks_before(out@[i], x) by {
                                let m = choose|m: int| 0 <= m < pool.len() && pool[m] == x;
                                if m == pool.len() - 1 {
                                    assert(old_out.push(item).contains(x)) by {
                                        assert(old_out.push(item)[old_out.len() as int] == x);
                                    }
                                } else if old_out.contains(x) {
                                    let n = choose|n: int| 0 <= n < old_out.len() && old_out[n] == x;
                                    assert(old_out.push(item)[n] == x);
                                } else {
                                    assert(old_pool.contains(x)) by {
                                        assert(old_pool[m] == x);
                                    }
                                    assert forall|i: int| 0 <= i < out@.len() implies ranks_before(out@[i], x) by {
                                        if old_out.contains(out@[i]) {
                                        } else {
                                            assert(ranks_before(item, old_out[k - 1]));
                                        }
                                    }
                                }
                            }
                            assert forall|m: int| 0 <= m < pool.len() implies pool[m].row_id == done@[m]
                                && #[trigger] pool[m] == scored(*seg, qv, done@[m], *p) && is_candidate(
                                *seg,
                                qv,
                                done@[m],
                            ) && admitted(fv, done@[m]) by {
                                if m < old_pool.len() {
                                    assert(pool[m] == old_pool[m]);
                                }
                            }
                            assert forall|t: int, r2: u64|
                                0 <= t < a && seg.posting_at(qv[t], r2) is Some && admitted(fv, r2)
                                    implies done@.contains(r2) by {
                                assert(old_done.contains(r2));
                            }
                        }
                    }
                    proof {
                        assert(done@.contains(r) || !admitted(fv, r));
                    }
                    j = j + 1;
                }
                proof {
                    assert forall|r: u64|
                        seg.posting_at(qv[a as int], r) is Some && admitted(fv, r) implies done@.contains(r) by {
                        let jj = crate::index::lemma_find_row_index(pv, r);
                        assert(pv[jj].row_id == r);
                    }
                }
            },
        }
        proof {
            assert forall|t: int, r: u64|
                0 <= t < a + 1 && seg.posting_at(qv[t], r) is Some && admitted(fv, r) implies done@.contains(
                r,
            ) by {
                if t == a && assoc(seg.dict(), qv[a as int]) is None {
                    assert(seg.posting_at(qv[t], r) is None);
                }
            }
        }
        a = a + 1;
        }
    }
    proof {
        assert forall|r: u64|
            is_candidate(*seg, qv, r) && admitted(fv, r) && !(exists|i: int|
                0 <= i < out@.len() && #[trigger] out@[i].row_id == r) implies out@.len() == k
            && forall|i: int| 0 <= i < out@.len() ==> ranks_before(out@[i], scored(*seg, qv, r, *p)) by {
            let t = choose|t: int| 0 <= t < qv.len() && seg.posting_at(qv[t], r) is Some;
            if !done@.contains(r) {
                assert(stop);
                assert(row_score(*seg, qv, r, *p) < out@[k - 1].score);
                assert forall|t2: int| 0 <= t2 < 0 && t2 < qv.len() implies seg.posting_at(qv[t2], r) is None by {}
                lemma_row_score_bound(*seg, qv, r, *p, ubs@, 0, qv.len() as int);
                assert(qv.take(qv.len() as int) =~= qv);
                assert(scored(*seg, qv, r, *p).score == row_score(*seg, qv, r, *p));
                assert forall|i: int| 0 <= i < out@.len() implies ranks_before(out@[i], scored(*seg, qv, r, *p)) by {
                    if i < k - 1 {
                        assert(ranks_before(out@[i], out@[k - 1]));
                    }
                }
            } else {
            let m = choose|m: int| 0 <= m < done@.len() && done@[m] == r;
            assert(pool[m] == scored(*seg, qv, r, *p));
            assert(pool.contains(scored(*seg, qv, r, *p)));
            if out@.contains(scored(*seg, qv, r, *p)) {
                let i = choose|i: int| 0 <= i < out@.len() && out@[i] == scored(*seg, qv, r, *p);
                assert(out@[i].row_id == r);
            }
            }
        }
        assert forall|i: int| 0 <= i < out@.len() implies is_candidate(*seg, qv, #[trigger] out@[i].row_id)
            && admitted(fv, out@[i].row_id) && out@[i] == scored(*seg, qv, out@[i].row_id, *p) by {
            let m = choose|m: int| 0 <= m < pool.len() && pool[m] == out@[i];
            assert(pool[m] == scored(*seg, qv, done@[m], *p));
        }
    }
    out
}

/// A copy of the posting list of term `t`, if the segment has the term.
pub fn term_postings(seg: &Segment, t: &Vec<u8>) -> (r: Option<Vec<Posting>>)
    requires
        seg.wf(),
    ensures
        match r {
            Some(ps) => assoc(seg.dict(), t@) == Some(postings_view(ps@)),
            None => assoc(seg.dict(), t@) is None,
        },
{
    match find_entry(seg, t) {
        Some(e) => {
            assert(seg.dict()[e as int].1 == postings_view(seg.entries@[e as int].postings@));
            Some(crate::posting::copy_postings(&seg.entries[e].postings))
        },
        None => None,
    }
}

} // verus!
