use vstd::prelude::*;
use crate::error::IndexError;
use crate::index::{DocInfo, Segment, assoc, find_row, total_len};
use crate::posting::{PostingView, postings_view};
use crate::query::doc_freq;
use vstd::seq_lib::seq_to_set_is_finite;
use vstd::set_lib::lemma_set_disjoint_lens;

verus! {

/// No row is held by both segments.
pub open spec fn rows_disjoint(a: Segment, b: Segment) -> bool {
    forall|r: u64| !(a.has_row(r) && b.has_row(r))
}

/// The content of the union of two row-disjoint segments.
pub open spec fn merged_posting(a: Segment, b: Segment, t: Seq<u8>, r: u64) -> Option<PostingView> {
    if a.has_row(r) {
        a.posting_at(t, r)
    } else {
        b.posting_at(t, r)
    }
}

proof fn lemma_total_len_append(x: Seq<DocInfo>, y: Seq<DocInfo>)
    ensures
        total_len(x + y) == total_len(x) + total_len(y),
    decreases y.len(),
{
    if y.len() > 0 {
        assert((x + y).drop_last() =~= x + y.drop_last());
        lemma_total_len_append(x, y.drop_last());
    } else {
        assert(x + y =~= x);
    }
}

proof fn lemma_row_of_posting(seg: Segment, t: Seq<u8>, r: u64)
    requires
        seg.wf(),
        seg.posting_at(t, r) is Some,
    ensures
        seg.has_row(r),
{
    let d = seg.dict();
    crate::index::lemma_assoc_some(d, t);
    let i = choose|i: int| 0 <= i < d.len() && d[i].0 == t && d[i].1 == assoc(d, t)->0;
    let j = crate::index::lemma_find_row_index(d[i].1, r);
    assert(seg.has_row(d[i].1[j].row_id));
}

/// Merges segment `b` into segment `a`. The rows of the two must be disjoint,
/// else the merge fails with `Index` and leaves `a` as it was. On success the
/// merged segment holds both segments' rows, each with the postings and
/// length it had, and its token total is the sum of theirs.
pub fn merge_into(a: &mut Segment, b: &Segment) -> (res: Result<(), IndexError>)
    requires
        old(a).wf(),
        b.wf(),
    ensures
        final(a).wf(),
        rows_disjoint(*old(a), *b) && old(a).total_tokens + b.total_tokens <= u64::MAX ==> {
            &&& res is Ok
            &&& forall|t: Seq<u8>, r: u64|
                #[trigger] final(a).posting_at(t, r) == merged_posting(*old(a), *b, t, r)
            &&& forall|r: u64|
                #[trigger] final(a).has_row(r) == (old(a).has_row(r) || b.has_row(r))
            &&& final(a).total_tokens == old(a).total_tokens + b.total_tokens
            &&& final(a).docs@ == old(a).docs@ + b.docs@
        },
        !(rows_disjoint(*old(a), *b) && old(a).total_tokens + b.total_tokens <= u64::MAX) ==> res
            == Err::<(), IndexError>(IndexError::Index) && *final(a) == *old(a),
{
    let mut k: usize = 0;
    while k < b.docs.len()
        invariant
            k <= b.docs@.len(),
            forall|m: int| 0 <= m < k ==> !old(a).has_row(#[trigger] b.docs@[m].row_id),
            *a == *old(a),
            old(a).wf(),
        decreases b.docs@.len() - k,
    {
        if a.contains_row(b.docs[k].row_id) {
            return Err(IndexError::Index);
        }
        k = k + 1;
    }
    assert(rows_disjoint(*old(a), *b)) by {
        assert forall|r: u64| !(old(a).has_row(r) && b.has_row(r)) by {
            if b.has_row(r) {
                let m = choose|m: int| 0 <= m < b.docs@.len() && b.docs@[m].row_id == r;
                assert(!old(a).has_row(b.docs@[m].row_id));
            }
        }
    }
    if b.total_tokens > u64::MAX - a.total_tokens {
        return Err(IndexError::Index);
    }
    let ghost a0 = *a;
    // the rows first, so that every posting added below has its row
    let mut k: usize = 0;
    while k < b.docs.len()
        invariant
            k <= b.docs@.len(),
            b.wf(),
            a0.wf(),
            rows_disjoint(a0, *b),
            a.docs@ == a0.docs@ + b.docs@.take(k as int),
            a.entries@ == a0.entries@,
            a.total_tokens == a0.total_tokens + total_len(b.docs@.take(k as int)),
            total_len(b.docs@) == b.total_tokens,
            a0.total_tokens + b.total_tokens <= u64::MAX,
        decreases b.docs@.len() - k,
    {
        proof {
            crate::index::lemma_total_len_prefix(b.docs@, k + 1);
            assert(b.docs@.take(k + 1).drop_last() =~= b.docs@.take(k as int));
        }
        a.docs.push(b.docs[k]);
        a.total_tokens = a.total_tokens + b.docs[k].length as u64;
        assert(a.docs@ =~= a0.docs@ + b.docs@.take(k + 1));
        k = k + 1;
    }
    assert(b.docs@.take(k as int) =~= b.docs@);
    proof {
        lemma_total_len_append(a0.docs@, b.docs@);
        assert(a.dict() == a0.dict());
        assert forall|r: u64| #[trigger] a.has_row(r) == (a0.has_row(r) || b.has_row(r)) by {
            if a.has_row(r) {
                let m = choose|m: int| 0 <= m < a.docs@.len() && a.docs@[m].row_id == r;
                if m < a0.docs@.len() {
                    assert(a.docs@[m] == a0.docs@[m]);
                } else {
                    assert(a.docs@[m] == b.docs@[m - a0.docs@.len()]);
                }
            }
            if a0.has_row(r) {
                let m = choose|m: int| 0 <= m < a0.docs@.len() && a0.docs@[m].row_id == r;
                assert(a.docs@[m] == a0.docs@[m]);
            }
            if b.has_row(r) {
                let m = choose|m: int| 0 <= m < b.docs@.len() && b.docs@[m].row_id == r;
                assert(a.docs@[a0.docs@.len() + m] == b.docs@[m]);
            }
        }
        assert forall|i: int, j: int|
            0 <= i < j < a.docs@.len() implies a.docs@[i].row_id != a.docs@[j].row_id by {
            if j < a0.docs@.len() {
                assert(a.docs@[i] == a0.docs@[i] && a.docs@[j] == a0.docs@[j]);
            } else if i >= a0.docs@.len() {
                assert(a.docs@[i] == b.docs@[i - a0.docs@.len()]);
                assert(a.docs@[j] == b.docs@[j - a0.docs@.len()]);
            } else {
                assert(a.docs@[i] == a0.docs@[i]);
                assert(a.docs@[j] == b.docs@[j - a0.docs@.len()]);
                assert(a0.has_row(a.docs@[i].row_id));
                assert(b.has_row(b.docs@[j - a0.docs@.len()].row_id));
            }
        }
        assert forall|i: int, j: int|
            0 <= i < a.dict().len() && 0 <= j < a.dict()[i].1.len() implies a.has_row(
            #[trigger] a.dict()[i].1[j].row_id,
        ) by {
            assert(a0.has_row(a0.dict()[i].1[j].row_id));
        }
        assert(b.dict().take(0) =~= Seq::<(Seq<u8>, Seq<PostingView>)>::empty());
        assert forall|t: Seq<u8>, r: u64| #[trigger] a.posting_at(t, r) == if a0.has_row(r) {
            a0.posting_at(t, r)
        } else if assoc(b.dict().take(0), t) is Some {
            b.posting_at(t, r)
        } else {
            None
        } by {
            if !a0.has_row(r) {
                crate::index::lemma_absent_row(a0, t, r);
            }
        }
    }
    let ghost a1 = *a;
    let bd = &b.entries;
    let mut e: usize = 0;
    while e < bd.len()
        invariant
            e <= bd@.len(),
            bd == &b.entries,
            b.wf(),
            a0.wf(),
            a.wf(),
            rows_disjoint(a0, *b),
            a.docs@ == a1.docs@,
            a.total_tokens == a1.total_tokens,
            forall|r: u64| #[trigger] a.has_row(r) == (a0.has_row(r) || b.has_row(r)),
            forall|t: Seq<u8>, r: u64|
                #[trigger] a.posting_at(t, r) == if a0.has_row(r) {
                    a0.posting_at(t, r)
                } else if assoc(b.dict().take(e as int), t) is Some {
                    b.posting_at(t, r)
                } else {
                    None
                },
        decreases bd@.len() - e,
    {
        let ghost bdict = b.dict();
        let ghost key = bdict[e as int].0;
        let ghost ps = bdict[e as int].1;
        proof {
            crate::index::lemma_assoc_at(bdict, e as int);
            assert forall|m: int| 0 <= m < bdict.take(e as int).len() implies bdict.take(
                e as int,
            )[m].0 != key by {}
            crate::index::lemma_assoc_absent(bdict.take(e as int), key);
            assert(bdict.take(e + 1).drop_last() =~= bdict.take(e as int));
            assert(bdict.take(e + 1).last() == bdict[e as int]);
        }
        let entry = &bd[e];
        assert(entry@ == bdict[e as int]);
        let mut j: usize = 0;
        while j < entry.postings.len()
            invariant
                j <= entry.postings@.len(),
                ps == postings_view(entry.postings@),
                crate::posting::strictly_increasing(ps),
                key == entry.term@,
                b.wf(),
                a0.wf(),
                a.wf(),
                rows_disjoint(a0, *b),
                a.docs@ == a1.docs@,
                a.total_tokens == a1.total_tokens,
                assoc(bdict, key) == Some(ps),
                e < bdict.len(),
                bdict[e as int].1 == ps,
                assoc(bdict.take(e as int), key) is None,
                bdict == b.dict(),
                forall|jj: int| 0 <= jj < ps.len() ==> b.has_row(#[trigger] ps[jj].row_id),
                forall|r: u64| #[trigger] a.has_row(r) == (a0.has_row(r) || b.has_row(r)),
                forall|t: Seq<u8>, r: u64|
                    #[trigger] a.posting_at(t, r) == if a0.has_row(r) {
                        a0.posting_at(t, r)
                    } else if assoc(bdict.take(e as int), t) is Some {
                        b.posting_at(t, r)
                    } else if t == key && find_row(ps.take(j as int), r) is Some {
                        b.posting_at(t, r)
                    } else {
                        None
                    },
            decreases entry.postings@.len() - j,
        {
            let p = entry.postings[j].copy();
            let ghost pv = p@;
            assert(pv == ps[j as int]);
            proof {
                assert(b.has_row(pv.row_id));
                assert(!a0.has_row(pv.row_id));
                assert(bdict[e as int].1[j as int].positions.len() <= u32::MAX);
                crate::index::lemma_find_row_at(ps, j as int);
                assert(ps.take(j + 1).drop_last() =~= ps.take(j as int));
                assert(ps.take(j + 1).last() == pv);
                assert forall|m: int| 0 <= m < ps.take(j as int).len() implies ps.take(j as int)[m].row_id
                    != pv.row_id by {
                    assert(ps[m].row_id < ps[j as int].row_id);
                }
                crate::index::lemma_find_row_absent(ps.take(j as int), pv.row_id);
            }
            let ghost before = *a;
            a.insert_posting(&entry.term, p);
            assert forall|r: u64| #[trigger] a.has_row(r) == before.has_row(r) by {
                assert(a.docs@ == before.docs@);
            }
            j = j + 1;
        }
        proof {
            assert(ps.take(j as int) =~= ps);
            assert forall|t: Seq<u8>, r: u64| #[trigger] a.posting_at(t, r) == if a0.has_row(r) {
                a0.posting_at(t, r)
            } else if assoc(bdict.take(e + 1), t) is Some {
                b.posting_at(t, r)
            } else {
                None
            } by {
                if t == key && !a0.has_row(r) && find_row(ps, r) is None {
                    assert(b.posting_at(t, r) is None);
                }
            }
        }
        e = e + 1;
    }
    proof {
        assert(b.dict().take(e as int) =~= b.dict());
        assert forall|t: Seq<u8>, r: u64| #[trigger] a.posting_at(t, r) == merged_posting(a0, *b, t, r) by {
            if !a0.has_row(r) && assoc(b.dict(), t) is None {
                assert(b.posting_at(t, r) is None);
            }
        }
    }
    Ok(())
}

/// The rows that have a posting for term `t`.
pub open spec fn term_rows(seg: Segment, t: Seq<u8>) -> Set<u64> {
    Set::new(|r: u64| seg.posting_at(t, r) is Some)
}

/// Whether term `t` occurs in the segment.
pub open spec fn has_term(seg: Segment, t: Seq<u8>) -> bool {
    exists|r: u64| seg.posting_at(t, r) is Some
}

/// Merging a segment into an empty one yields the same content: every term
/// keeps the postings it had, row for row.
pub proof fn lemma_merge_identity(empty: Segment, b: Segment)
    requires
        empty.wf(),
        empty.docs@.len() == 0,
        b.wf(),
    ensures
        rows_disjoint(empty, b),
        empty.total_tokens + b.total_tokens == b.total_tokens,
        forall|t: Seq<u8>, r: u64| #[trigger] merged_posting(empty, b, t, r) == b.posting_at(t, r),
{
    assert forall|r: u64| !empty.has_row(r) by {}
    assert(empty.total_tokens == 0);
}

/// The terms of a merged segment are those of its inputs, and the rows with
/// a posting for a term are the disjoint union of the inputs' rows for it.
pub proof fn lemma_merge_complete(a: Segment, b: Segment, t: Seq<u8>)
    requires
        a.wf(),
        b.wf(),
        rows_disjoint(a, b),
    ensures
        (exists|r: u64| #[trigger] merged_posting(a, b, t, r) is Some) == (has_term(a, t) || has_term(
            b,
            t,
        )),
        Set::new(|r: u64| merged_posting(a, b, t, r) is Some) == term_rows(a, t).union(
            term_rows(b, t),
        ),
        term_rows(a, t).disjoint(term_rows(b, t)),
{
    assert forall|r: u64| a.posting_at(t, r) is Some implies a.has_row(r) by {
        lemma_row_of_posting(a, t, r);
    }
    assert forall|r: u64| b.posting_at(t, r) is Some implies b.has_row(r) by {
        lemma_row_of_posting(b, t, r);
    }
    assert forall|r: u64| !a.has_row(r) implies a.posting_at(t, r) is None by {
        crate::index::lemma_absent_row(a, t, r);
    }
    if has_term(a, t) {
        let r = choose|r: u64| a.posting_at(t, r) is Some;
        assert(merged_posting(a, b, t, r) is Some);
    }
    if has_term(b, t) {
        let r = choose|r: u64| b.posting_at(t, r) is Some;
        assert(merged_posting(a, b, t, r) is Some);
    }
    assert forall|r: u64| !(term_rows(a, t).contains(r) && term_rows(b, t).contains(r)) by {
        if term_rows(a, t).contains(r) && term_rows(b, t).contains(r) {
            assert(a.has_row(r) && b.has_row(r));
        }
    }
    assert(Set::new(|r: u64| merged_posting(a, b, t, r) is Some) =~= term_rows(a, t).union(
        term_rows(b, t),
    ));
}

/// The document frequency of a term counts the rows that have a posting for it.
pub proof fn lemma_doc_freq_counts_rows(seg: Segment, t: Seq<u8>)
    requires
        seg.wf(),
    ensures
        term_rows(seg, t).finite(),
        term_rows(seg, t).len() == doc_freq(seg, t),
{
    let d = seg.dict();
    match assoc(d, t) {
        Some(ps) => {
            crate::index::lemma_assoc_some(d, t);
            let i = choose|i: int| 0 <= i < d.len() && d[i].0 == t && d[i].1 == assoc(d, t)->0;
            assert(crate::posting::strictly_increasing(d[i].1));
            let rs = ps.map_values(|x: PostingView| x.row_id);
            assert(rs.no_duplicates()) by {
                assert forall|x: int, y: int| 0 <= x < rs.len() && 0 <= y < rs.len() && x != y implies rs[x] != rs[y] by {
                    if x < y {
                        assert(ps[x].row_id < ps[y].row_id);
                    } else {
                        assert(ps[y].row_id < ps[x].row_id);
                    }
                }
            }
            assert forall|r: u64| term_rows(seg, t).contains(r) == rs.to_set().contains(r) by {
                if term_rows(seg, t).contains(r) {
                    let j = crate::index::lemma_find_row_index(ps, r);
                    assert(rs[j] == r);
                }
                if rs.to_set().contains(r) {
                    let j = choose|j: int| 0 <= j < rs.len() && rs[j] == r;
                    crate::index::lemma_find_row_at(ps, j);
                }
            }
            assert(term_rows(seg, t) =~= rs.to_set());
            rs.unique_seq_to_set();
            seq_to_set_is_finite(rs);
        },
        None => {
            assert(term_rows(seg, t) =~= Set::<u64>::empty());
        },
    }
}

/// A term's document frequency in the merge of two row-disjoint segments is
/// the sum of its document frequencies in them.
pub proof fn lemma_merge_doc_freq(a: Segment, b: Segment, m: Segment, t: Seq<u8>)
    requires
        a.wf(),
        b.wf(),
        m.wf(),
        rows_disjoint(a, b),
        forall|t2: Seq<u8>, r: u64| #[trigger] m.posting_at(t2, r) == merged_posting(a, b, t2, r),
    ensures
        doc_freq(m, t) == doc_freq(a, t) + doc_freq(b, t),
{
    lemma_merge_complete(a, b, t);
    assert(term_rows(m, t) =~= Set::new(|r: u64| merged_posting(a, b, t, r) is Some));
    lemma_doc_freq_counts_rows(a, t);
    lemma_doc_freq_counts_rows(b, t);
    lemma_doc_freq_counts_rows(m, t);
    lemma_set_disjoint_lens(term_rows(a, t), term_rows(b, t));
}

} // verus!
