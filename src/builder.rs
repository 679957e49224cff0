use vstd::prelude::*;
use crate::error::IndexError;
use crate::index::{Segment, doc_len, doc_posting};
use crate::merger::merge_into;
use crate::posting::PostingView;
use crate::posting::strictly_increasing;
use crate::tokenizer::{TokenizerConfig, tokenize_spec};

verus! {

/// One row of input: its row id and its text.
#[derive(Debug)]
pub struct Document {
    pub row_id: u64,
    pub text: Vec<u8>,
}

impl View for Document {
    type V = (u64, Seq<u8>);

    open spec fn view(&self) -> (u64, Seq<u8>) {
        (self.row_id, self.text@)
    }
}

impl Document {
    pub fn new(row_id: u64, text: Vec<u8>) -> (r: Document)
        ensures
            r@ == (row_id, text@),
    {
        Document { row_id, text }
    }
}

pub open spec fn documents_view(ds: Seq<Document>) -> Seq<(u64, Seq<u8>)> {
    ds.map_values(|d: Document| d@)
}

/// The text of row `r` among the documents.
pub open spec fn row_text(ds: Seq<(u64, Seq<u8>)>, r: u64) -> Option<Seq<u8>>
    decreases ds.len(),
{
    if ds.len() == 0 {
        None
    } else if ds.last().0 == r {
        Some(ds.last().1)
    } else {
        row_text(ds.drop_last(), r)
    }
}

pub open spec fn rows_distinct(ds: Seq<(u64, Seq<u8>)>) -> bool {
    forall|i: int, j: int| 0 <= i < j < ds.len() ==> ds[i].0 != ds[j].0
}

/// The posting of row `r` for term `t` in an index of these documents.
pub open spec fn indexed_posting(
    ds: Seq<(u64, Seq<u8>)>,
    config: TokenizerConfig,
    t: Seq<u8>,
    r: u64,
) -> Option<crate::posting::PostingView> {
    match row_text(ds, r) {
        Some(text) => doc_posting(tokenize_spec(text, config), t, r),
        None => None,
    }
}

/// The number of tokens over all documents.
pub open spec fn tokens_total(ds: Seq<(u64, Seq<u8>)>, config: TokenizerConfig) -> nat
    decreases ds.len(),
{
    if ds.len() == 0 {
        0
    } else {
        tokens_total(ds.drop_last(), config) + tokenize_spec(ds.last().1, config).len()
    }
}

/// The documents that one segment can index.
pub open spec fn buildable(ds: Seq<(u64, Seq<u8>)>, config: TokenizerConfig) -> bool {
    rows_distinct(ds) && tokens_total(ds, config) <= u64::MAX
}

proof fn lemma_tokens_total_prefix(ds: Seq<(u64, Seq<u8>)>, config: TokenizerConfig, i: int)
    requires
        0 <= i <= ds.len(),
    ensures
        tokens_total(ds.take(i), config) <= tokens_total(ds, config),
    decreases ds.len(),
{
    if i < ds.len() {
        lemma_tokens_total_prefix(ds.drop_last(), config, i);
        assert(ds.drop_last().take(i) =~= ds.take(i));
    } else {
        assert(ds.take(i) =~= ds);
    }
}

proof fn lemma_row_text_some(ds: Seq<(u64, Seq<u8>)>, r: u64)
    requires
        row_text(ds, r) is Some,
    ensures
        ds.contains((r, row_text(ds, r)->0)),
    decreases ds.len(),
{
    if ds.last().0 != r {
        lemma_row_text_some(ds.drop_last(), r);
        let k = choose|k: int|
            0 <= k < ds.len() - 1 && ds.drop_last()[k] == (r, row_text(ds, r)->0);
        assert(ds[k] == ds.drop_last()[k]);
    } else {
        assert(ds[ds.len() - 1] == ds.last());
    }
}

proof fn lemma_row_text_of_member(ds: Seq<(u64, Seq<u8>)>, k: int)
    requires
        rows_distinct(ds),
        0 <= k < ds.len(),
    ensures
        row_text(ds, ds[k].0) == Some(ds[k].1),
    decreases ds.len(),
{
    if k < ds.len() - 1 {
        assert(ds.last() == ds[ds.len() - 1]);
        lemma_row_text_of_member(ds.drop_last(), k);
    }
}

proof fn lemma_row_text_absent(ds: Seq<(u64, Seq<u8>)>, r: u64)
    requires
        forall|k: int| 0 <= k < ds.len() ==> ds[k].0 != r,
    ensures
        row_text(ds, r) is None,
    decreases ds.len(),
{
    if ds.len() > 0 {
        lemma_row_text_absent(ds.drop_last(), r);
    }
}

proof fn lemma_tokens_total_remove(ds: Seq<(u64, Seq<u8>)>, config: TokenizerConfig, k: int)
    requires
        0 <= k < ds.len(),
    ensures
        tokens_total(ds, config) == tokens_total(ds.remove(k), config) + tokenize_spec(ds[k].1, config).len(),
    decreases ds.len(),
{
    if k == ds.len() - 1 {
        assert(ds.remove(k) =~= ds.drop_last());
    } else {
        assert(ds.remove(k).drop_last() =~= ds.drop_last().remove(k));
        assert(ds.remove(k).last() == ds.last());
        lemma_tokens_total_remove(ds.drop_last(), config, k);
    }
}

proof fn lemma_tokens_total_same_documents(a: Seq<(u64, Seq<u8>)>, b: Seq<(u64, Seq<u8>)>, config: TokenizerConfig)
    requires
        rows_distinct(a),
        rows_distinct(b),
        forall|d: (u64, Seq<u8>)| a.contains(d) <==> b.contains(d),
    ensures
        tokens_total(a, config) == tokens_total(b, config),
    decreases a.len(),
{
    if a.len() == 0 {
        if b.len() > 0 {
            assert(b.contains(b[0]));
        }
    } else {
        let x = a.last();
        assert(a.contains(a[a.len() - 1]));
        let k = choose|k: int| 0 <= k < b.len() && b[k] == x;
        let a1 = a.drop_last();
        let b1 = b.remove(k);
        assert forall|i: int, j: int| 0 <= i < j < b1.len() implies b1[i].0 != b1[j].0 by {
            let ii = if i < k { i } else { i + 1 };
            let jj = if j < k { j } else { j + 1 };
            assert(b1[i] == b[ii] && b1[j] == b[jj]);
        }
        assert forall|d: (u64, Seq<u8>)| a1.contains(d) <==> b1.contains(d) by {
            if a1.contains(d) {
                let i = choose|i: int| 0 <= i < a1.len() && a1[i] == d;
                assert(a[i] == d);
                assert(a[i].0 != a[a.len() - 1].0);
                assert(b.contains(d));
                let m = choose|m: int| 0 <= m < b.len() && b[m] == d;
                assert(m != k);
                if m < k {
                    assert(b1[m] == d);
                } else {
                    assert(b1[m - 1] == d);
                }
            }
            if b1.contains(d) {
                let i = choose|i: int| 0 <= i < b1.len() && b1[i] == d;
                let ii = if i < k { i } else { i + 1 };
                assert(b[ii] == d);
                assert(b[ii].0 != b[k].0);
                assert(a.contains(d));
                let m = choose|m: int| 0 <= m < a.len() && a[m] == d;
                assert(m != a.len() - 1);
                assert(a1[m] == d);
            }
        }
        lemma_tokens_total_same_documents(a1, b1, config);
        lemma_tokens_total_remove(b, config, k);
    }
}

/// Indexing is independent of the order in which rows arrive: two
/// collections holding the same documents, each row once, give every term
/// the same postings, every row the same length, and the same token total.
pub proof fn lemma_order_independent(
    a: Seq<(u64, Seq<u8>)>,
    b: Seq<(u64, Seq<u8>)>,
    config: TokenizerConfig,
)
    requires
        rows_distinct(a),
        rows_distinct(b),
        forall|d: (u64, Seq<u8>)| a.contains(d) <==> b.contains(d),
    ensures
        forall|t: Seq<u8>, r: u64|
            #[trigger] indexed_posting(a, config, t, r) == indexed_posting(b, config, t, r),
        forall|r: u64| #[trigger] text_len(a, config, r) == text_len(b, config, r),
        forall|r: u64| #[trigger] row_text(a, r) == row_text(b, r),
        tokens_total(a, config) == tokens_total(b, config),
{
    assert forall|r: u64| row_text(a, r) == row_text(b, r) by {
        if row_text(a, r) is Some {
            lemma_row_text_some(a, r);
            let k = choose|k: int| 0 <= k < b.len() && b[k] == (r, row_text(a, r)->0);
            lemma_row_text_of_member(b, k);
        } else if row_text(b, r) is Some {
            lemma_row_text_some(b, r);
            let k = choose|k: int| 0 <= k < a.len() && a[k] == (r, row_text(b, r)->0);
            lemma_row_text_of_member(a, k);
        }
    }
    assert forall|t: Seq<u8>, r: u64|
        #[trigger] indexed_posting(a, config, t, r) == indexed_posting(b, config, t, r) by {
        assert(row_text(a, r) == row_text(b, r));
    }
    assert forall|r: u64| #[trigger] text_len(a, config, r) == text_len(b, config, r) by {
        assert(row_text(a, r) == row_text(b, r));
    }
    lemma_tokens_total_same_documents(a, b, config);
}

/// Within a well-formed segment every posting list has strictly increasing
/// row ids.
pub proof fn lemma_postings_strictly_increasing(seg: Segment)
    requires
        seg.wf(),
    ensures
        forall|i: int| 0 <= i < seg.dict().len() ==> strictly_increasing(#[trigger] seg.dict()[i].1),
{
}

/// Builds one segment from documents. Succeeds exactly when the rows are
/// distinct and the token total fits; the segment then holds, for every term
/// and row, the posting that the row's text gives.
pub fn build_segment(docs: &Vec<Document>, config: &TokenizerConfig) -> (res: Result<Segment, IndexError>)
    requires
        forall|k: int| 0 <= k < docs@.len() ==> docs@[k].text@.len() < u32::MAX,
    ensures
        match res {
            Ok(seg) => {
                &&& buildable(documents_view(docs@), *config)
                &&& seg.wf()
                &&& seg.docs@.len() == docs@.len()
                &&& forall|t: Seq<u8>, r: u64|
                    #[trigger] seg.posting_at(t, r) == indexed_posting(
                        documents_view(docs@),
                        *config,
                        t,
                        r,
                    )
                &&& forall|r: u64|
                    #[trigger] doc_len(seg.docs@, r) == match row_text(documents_view(docs@), r) {
                        Some(text) => Some(tokenize_spec(text, *config).len() as u32),
                        None => None,
                    }
            },
            Err(e) => e == IndexError::Index && !buildable(documents_view(docs@), *config),
        },
{
    let ghost dv = documents_view(docs@);
    let mut seg = Segment::new();
    let mut i: usize = 0;
    assert(dv.take(0) =~= Seq::<(u64, Seq<u8>)>::empty());
    while i < docs.len()
        invariant
            i <= docs@.len(),
            dv == documents_view(docs@),
            forall|k: int| 0 <= k < docs@.len() ==> docs@[k].text@.len() < u32::MAX,
            seg.wf(),
            seg.docs@.len() == i,
            rows_distinct(dv.take(i as int)),
            seg.total_tokens == tokens_total(dv.take(i as int), *config),
            forall|r: u64| seg.has_row(r) <==> exists|k: int| 0 <= k < i && dv[k].0 == r,
            forall|t: Seq<u8>, r: u64|
                #[trigger] seg.posting_at(t, r) == indexed_posting(dv.take(i as int), *config, t, r),
            forall|r: u64|
                #[trigger] doc_len(seg.docs@, r) == match row_text(dv.take(i as int), r) {
                    Some(text) => Some(tokenize_spec(text, *config).len() as u32),
                    None => None,
                },
        decreases docs@.len() - i,
    {
        let d = &docs[i];
        assert(dv[i as int] == d@);
        let ghost old_seg = seg;
        let ghost pre = dv.take(i as int);
        let ghost next = dv.take(i + 1);
        assert(next.drop_last() =~= pre);
        assert(next.last() == d@);
        let r = seg.add_document(d.row_id, &d.text, config);
        if r.is_err() {
            proof {
                if old_seg.has_row(d.row_id) {
                    let k = choose|k: int| 0 <= k < i && dv[k].0 == d.row_id;
                    assert(dv[k].0 == dv[i as int].0);
                } else {
                    lemma_tokens_total_prefix(dv, *config, i + 1);
                }
            }
            return Err(IndexError::Index);
        }
        proof {
            assert forall|r: u64| seg.has_row(r) <==> exists|k: int| 0 <= k < i + 1 && dv[k].0 == r by {
                if seg.has_row(r) {
                    let k = choose|k: int| 0 <= k < seg.docs@.len() && seg.docs@[k].row_id == r;
                    if doc_len(seg.docs@, r) is None {
                        assert(false) by {
                            crate::index::lemma_doc_len_member(seg.docs@, k);
                        }
                    }
                    if r != d.row_id {
                        assert(old_seg.has_row(r)) by {
                            crate::index::lemma_doc_len_some(old_seg.docs@, r);
                        }
                    }
                } else if exists|k: int| 0 <= k < i + 1 && dv[k].0 == r {
                    let k = choose|k: int| 0 <= k < i + 1 && dv[k].0 == r;
                    if k < i {
                        assert(old_seg.has_row(r));
                        let m = choose|m: int| 0 <= m < old_seg.docs@.len() && old_seg.docs@[m].row_id == r;
                        crate::index::lemma_doc_len_member(old_seg.docs@, m);
                        crate::index::lemma_doc_len_some(seg.docs@, r);
                    } else {
                        crate::index::lemma_doc_len_some(seg.docs@, r);
                    }
                }
            }
            assert forall|a: int, b: int| 0 <= a < b < next.len() implies next[a].0 != next[b].0 by {
                if b == i {
                    assert(next[a] == dv[a]);
                    if dv[a].0 == d.row_id {
                        assert(old_seg.has_row(d.row_id));
                    }
                } else {
                    assert(next[a] == pre[a] && next[b] == pre[b]);
                }
            }
        }
        i = i + 1;
    }
    assert(dv.take(i as int) =~= dv);
    Ok(seg)
}

/// Settings of a build.
pub struct InvertedIndexParams {
    /// Whether new segments are merged into one right away.
    pub enable_merge: bool,
    pub tokenizer: TokenizerConfig,
    /// How many rows a segment accumulates before it is flushed.
    pub max_rows_per_segment: usize,
}

/// Whether a build may start: without merging, the directory of the existing
/// segments must be given, and a segment must be allowed at least one row.
pub open spec fn config_valid(enable_merge: bool, has_dir: bool, max_rows: usize) -> bool {
    (enable_merge || has_dir) && max_rows > 0
}

/// Checks the build settings before any work is done.
pub fn check_build_config(params: &InvertedIndexParams, index_store_dir: Option<&str>) -> (r: Result<(), IndexError>)
    ensures
        r is Ok <==> config_valid(params.enable_merge, index_store_dir is Some, params.max_rows_per_segment),
        r is Err ==> r == Err::<(), IndexError>(IndexError::Configuration),
{
    if (!params.enable_merge && index_store_dir.is_none()) || params.max_rows_per_segment == 0 {
        Err(IndexError::Configuration)
    } else {
        Ok(())
    }
}

/// Trains an inverted index over the rows of all batches, in whatever order
/// they arrive, flushing a segment whenever it reaches the configured number
/// of rows and, if merging is enabled, merging the segments into one. An
/// invalid configuration is rejected before anything is read or built.
/// With merging enabled, the new rows are consolidated with the `existing`
/// segments into one segment; without, only the new segments are returned.
pub fn train_inverted_index(
    batches: &Vec<Vec<Document>>,
    params: &InvertedIndexParams,
    index_store_dir: Option<&str>,
    existing: &Vec<Segment>,
) -> (res: Result<Vec<Segment>, IndexError>)
    requires
        parts_wf(existing@),
        forall|b: int, k: int|
            0 <= b < batches@.len() && 0 <= k < batches@[b]@.len() ==> batches@[b]@[k].text@.len()
                < u32::MAX,
    ensures
        !config_valid(params.enable_merge, index_store_dir is Some, params.max_rows_per_segment)
            ==> res == Err::<Vec<Segment>, IndexError>(IndexError::Configuration),
        config_valid(params.enable_merge, index_store_dir is Some, params.max_rows_per_segment)
            && !params.enable_merge ==> built(
            res,
            flatten_batches(batches@),
            params.tokenizer,
            params.max_rows_per_segment,
            false,
        ),
        config_valid(params.enable_merge, index_store_dir is Some, params.max_rows_per_segment)
            && params.enable_merge ==> consolidated(
            res,
            existing@,
            flatten_batches(batches@),
            params.tokenizer,
        ),
{
    match check_build_config(params, index_store_dir) {
        Err(e) => {
            return Err(e);
        },
        Ok(()) => {},
    }
    let mut all: Vec<Document> = Vec::new();
    let mut b: usize = 0;
    while b < batches.len()
        invariant
            b <= batches@.len(),
            documents_view(all@) == flatten_batches(batches@.take(b as int)),
            forall|k: int| 0 <= k < all@.len() ==> all@[k].text@.len() < u32::MAX,
            forall|c: int, k: int|
                0 <= c < batches@.len() && 0 <= k < batches@[c]@.len() ==> batches@[c]@[k].text@.len()
                    < u32::MAX,
        decreases batches@.len() - b,
    {
        let batch = &batches[b];
        let mut k: usize = 0;
        let ghost base = documents_view(all@);
        assert(batches@.take(b + 1).drop_last() =~= batches@.take(b as int));
        assert(batches@.take(b + 1).last() == *batch);
        while k < batch.len()
            invariant
                k <= batch@.len(),
                documents_view(all@) == base + documents_view(batch@.take(k as int)),
                forall|m: int| 0 <= m < all@.len() ==> all@[m].text@.len() < u32::MAX,
                forall|m: int| 0 <= m < batch@.len() ==> batch@[m].text@.len() < u32::MAX,
            decreases batch@.len() - k,
        {
            let d = Document { row_id: batch[k].row_id, text: crate::index::copy_text(&batch[k].text) };
            let ghost before = all@;
            all.push(d);
            assert(documents_view(batch@.take(k + 1)) =~= documents_view(batch@.take(k as int)).push(
                batch@[k as int]@,
            ));
            assert(documents_view(all@) =~= documents_view(before).push(d@));
            k = k + 1;
        }
        assert(batch@.take(k as int) =~= batch@);
        b = b + 1;
    }
    assert(batches@.take(b as int) =~= batches@);
    let ghost ds = documents_view(all@);
    let fresh = build_segments(&all, &params.tokenizer, params.max_rows_per_segment, params.enable_merge);
    if !params.enable_merge {
        return fresh;
    }
    let segs = match fresh {
        Err(e) => {
            return Err(e);
        },
        Ok(segs) => segs,
    };
    let n = &segs[0];
    let ghost cfg = params.tokenizer;
    proof {
        let e0 = Seq::<Segment>::empty();
        assert(segs@ =~= e0.push(*n));
        assert(n.wf()) by {
            assert(segs@[0] == *n);
        }
        assert forall|t: Seq<u8>, r: u64| #[trigger] n.posting_at(t, r) == indexed_posting(ds, cfg, t, r) by {
            lemma_parts_push(e0, *n, t, r);
        }
        assert forall|r: u64| #[trigger] doc_len(n.docs@, r) == text_len(ds, cfg, r) by {
            lemma_parts_doc_push(e0, *n, r);
        }
        lemma_parts_doc_push(e0, *n, 0);
        assert forall|r: u64| #[trigger] n.has_row(r) == (row_text(ds, r) is Some) by {
            if n.has_row(r) {
                assert(segs@[0].has_row(r));
            }
            if parts_have_row(segs@, r) {
                let j = choose|j: int| 0 <= j < segs@.len() && #[trigger] segs@[j].has_row(r);
            }
        }
        lemma_parts_doc_push(existing@, *n, 0);
    }
    match merge_with_existing(existing, n) {
        Err(e) => {
            proof {
                assert(n.total_tokens == tokens_total(ds, cfg));
                assert(ds == flatten_batches(batches@));
                if !parts_disjoint(existing@) {
                } else if parts_total(existing@) + n.total_tokens > u64::MAX {
                } else {
                    let r = choose|r: u64| parts_have_row(existing@, r) && #[trigger] n.has_row(r);
                    assert(row_text(ds, r) is Some);
                }
                assert(!mergeable(existing@, ds, cfg));
            }
            Err(e)
        },
        Ok(m) => {
            proof {
                let all = existing@.push(*n);
                assert forall|t: Seq<u8>, r: u64| #[trigger] m.posting_at(t, r) == match indexed_posting(ds, cfg, t, r) {
                    Some(p) => Some(p),
                    None => parts_posting(existing@, t, r),
                } by {
                    lemma_parts_push(existing@, *n, t, r);
                }
                assert forall|r: u64| #[trigger] doc_len(m.docs@, r) == match text_len(ds, cfg, r) {
                    Some(l) => Some(l),
                    None => parts_doc_len(existing@, r),
                } by {
                    lemma_parts_doc_push(existing@, *n, r);
                }
                assert forall|r: u64| #[trigger] m.has_row(r) == (parts_have_row(existing@, r) || row_text(ds, r) is Some) by {
                    if parts_have_row(all, r) {
                        let i = choose|i: int| 0 <= i < all.len() && #[trigger] all[i].has_row(r);
                        if i < existing@.len() {
                            assert(all[i] == existing@[i]);
                        }
                    }
                    if parts_have_row(existing@, r) {
                        let i = choose|i: int| 0 <= i < existing@.len() && #[trigger] existing@[i].has_row(r);
                        assert(all[i] == existing@[i]);
                    }
                    if n.has_row(r) {
                        assert(all[existing@.len() as int] == *n);
                    }
                }
            }
            let mut out: Vec<Segment> = Vec::new();
            out.push(m);
            proof {
                assert(out@[0] == m);
                assert(n.total_tokens == tokens_total(ds, cfg));
                assert(ds == flatten_batches(batches@));
                assert(buildable(ds, cfg));
                assert forall|r: u64| !(#[trigger] parts_have_row(existing@, r) && row_text(ds, r) is Some) by {
                    if row_text(ds, r) is Some {
                        assert(n.has_row(r));
                    }
                }
                assert(mergeable(existing@, ds, cfg));
            }
            Ok(out)
        },
    }
}

/// Whether the existing segments and the documents can be consolidated into
/// one segment: the documents can be indexed, no row is held twice, and the
/// token totals add up within range.
pub open spec fn mergeable(existing: Seq<Segment>, ds: Seq<(u64, Seq<u8>)>, config: TokenizerConfig) -> bool {
    &&& buildable(ds, config)
    &&& parts_disjoint(existing)
    &&& forall|r: u64| !(#[trigger] parts_have_row(existing, r) && row_text(ds, r) is Some)
    &&& parts_total(existing) + tokens_total(ds, config) <= u64::MAX
}

/// What a build with merging yields: on success one segment holding the new
/// rows as their texts give them and every existing row as it was, with
/// their lengths and the summed token total; on failure, `Index` exactly
/// when the inputs cannot be consolidated.
pub open spec fn consolidated(
    res: Result<Vec<Segment>, IndexError>,
    existing: Seq<Segment>,
    ds: Seq<(u64, Seq<u8>)>,
    config: TokenizerConfig,
) -> bool {
    match res {
        Ok(segs) => {
            &&& mergeable(existing, ds, config)
            &&& segs@.len() == 1
            &&& segs@[0].wf()
            &&& forall|t: Seq<u8>, r: u64|
                #[trigger] segs@[0].posting_at(t, r) == match indexed_posting(ds, config, t, r) {
                    Some(p) => Some(p),
                    None => parts_posting(existing, t, r),
                }
            &&& forall|r: u64|
                #[trigger] segs@[0].has_row(r) == (parts_have_row(existing, r) || row_text(ds, r) is Some)
            &&& forall|r: u64|
                #[trigger] doc_len(segs@[0].docs@, r) == match text_len(ds, config, r) {
                    Some(l) => Some(l),
                    None => parts_doc_len(existing, r),
                }
            &&& segs@[0].total_tokens == parts_total(existing) + tokens_total(ds, config)
        },
        Err(e) => e == IndexError::Index && !mergeable(existing, ds, config),
    }
}

/// The documents of all batches, batch after batch.
pub open spec fn flatten_batches(bs: Seq<Vec<Document>>) -> Seq<(u64, Seq<u8>)>
    decreases bs.len(),
{
    if bs.len() == 0 {
        Seq::empty()
    } else {
        flatten_batches(bs.drop_last()) + documents_view(bs.last()@)
    }
}

/// The posting of row `r` for term `t` in a list of segments: that of the
/// last segment that has one.
pub open spec fn parts_posting(parts: Seq<Segment>, t: Seq<u8>, r: u64) -> Option<PostingView>
    decreases parts.len(),
{
    if parts.len() == 0 {
        None
    } else {
        match parts.last().posting_at(t, r) {
            Some(p) => Some(p),
            None => parts_posting(parts.drop_last(), t, r),
        }
    }
}

pub open spec fn parts_have_row(parts: Seq<Segment>, r: u64) -> bool {
    exists|j: int| 0 <= j < parts.len() && #[trigger] parts[j].has_row(r)
}

pub open spec fn parts_wf(parts: Seq<Segment>) -> bool {
    forall|j: int| 0 <= j < parts.len() ==> (#[trigger] parts[j]).wf()
}

/// No row is held by two of the segments.
pub open spec fn parts_disjoint(parts: Seq<Segment>) -> bool {
    forall|j1: int, j2: int, r: u64|
        0 <= j1 < j2 < parts.len() && #[trigger] parts[j1].has_row(r) ==> !#[trigger] parts[j2].has_row(r)
}

/// What a build of `ds` yields: on success, well-formed row-disjoint
/// segments that together index exactly the documents, one segment when
/// merging, else segments of at most `max_rows` rows, with every row's
/// length and the token total that its text gives; on failure, `Index`
/// exactly when the documents cannot be indexed together.
pub open spec fn built(
    res: Result<Vec<Segment>, IndexError>,
    ds: Seq<(u64, Seq<u8>)>,
    config: TokenizerConfig,
    max_rows: usize,
    merge: bool,
) -> bool {
    match res {
        Ok(segs) => {
            &&& buildable(ds, config)
            &&& parts_wf(segs@)
            &&& parts_disjoint(segs@)
            &&& forall|t: Seq<u8>, r: u64|
                #[trigger] parts_posting(segs@, t, r) == indexed_posting(ds, config, t, r)
            &&& forall|r: u64| #[trigger] parts_have_row(segs@, r) == (row_text(ds, r) is Some)
            &&& forall|r: u64| #[trigger] parts_doc_len(segs@, r) == text_len(ds, config, r)
            &&& parts_total(segs@) == tokens_total(ds, config)
            &&& merge ==> segs@.len() == 1
            &&& !merge ==> forall|j: int| 0 <= j < segs@.len() ==> (#[trigger] segs@[j]).docs@.len() <= max_rows
        },
        Err(e) => e == IndexError::Index && !buildable(ds, config),
    }
}

/// The length of row `r` in a list of segments: that given by the last
/// segment that holds the row.
pub open spec fn parts_doc_len(parts: Seq<Segment>, r: u64) -> Option<u32>
    decreases parts.len(),
{
    if parts.len() == 0 {
        None
    } else {
        match doc_len(parts.last().docs@, r) {
            Some(l) => Some(l),
            None => parts_doc_len(parts.drop_last(), r),
        }
    }
}

/// The token totals of a list of segments, added up.
pub open spec fn parts_total(parts: Seq<Segment>) -> nat
    decreases parts.len(),
{
    if parts.len() == 0 {
        0
    } else {
        parts_total(parts.drop_last()) + parts.last().total_tokens as nat
    }
}

/// The length in tokens of row `r` among the documents.
pub open spec fn text_len(ds: Seq<(u64, Seq<u8>)>, config: TokenizerConfig, r: u64) -> Option<u32> {
    match row_text(ds, r) {
        Some(text) => Some(tokenize_spec(text, config).len() as u32),
        None => None,
    }
}

proof fn lemma_parts_doc_push(parts: Seq<Segment>, x: Segment, r: u64)
    ensures
        parts_doc_len(parts.push(x), r) == match doc_len(x.docs@, r) {
            Some(l) => Some(l),
            None => parts_doc_len(parts, r),
        },
        parts_total(parts.push(x)) == parts_total(parts) + x.total_tokens,
{
    assert(parts.push(x).drop_last() =~= parts);
    assert(parts.push(x).last() == x);
}

proof fn lemma_parts_push(parts: Seq<Segment>, x: Segment, t: Seq<u8>, r: u64)
    ensures
        parts_posting(parts.push(x), t, r) == match x.posting_at(t, r) {
            Some(p) => Some(p),
            None => parts_posting(parts, t, r),
        },
{
    assert(parts.push(x).drop_last() =~= parts);
    assert(parts.push(x).last() == x);
}

proof fn lemma_parts_absent(parts: Seq<Segment>, t: Seq<u8>, r: u64)
    requires
        parts_wf(parts),
        !parts_have_row(parts, r),
    ensures
        parts_posting(parts, t, r) is None,
    decreases parts.len(),
{
    if parts.len() > 0 {
        let n = parts.len() - 1;
        assert(parts[n].wf() && !parts[n].has_row(r));
        crate::index::lemma_absent_row(parts.last(), t, r);
        assert forall|j: int| 0 <= j < n implies !(#[trigger] parts.drop_last()[j]).has_row(r) by {
            assert(parts.drop_last()[j] == parts[j]);
        }
        lemma_parts_absent(parts.drop_last(), t, r);
    }
}

proof fn lemma_row_text_prefix(ds: Seq<(u64, Seq<u8>)>, i: int, r: u64)
    requires
        0 <= i <= ds.len(),
    ensures
        (row_text(ds.take(i), r) is Some) == (exists|k: int| 0 <= k < i && ds[k].0 == r),
    decreases i,
{
    if i > 0 {
        assert(ds.take(i).drop_last() =~= ds.take(i - 1));
        assert(ds.take(i).last() == ds[i - 1]);
        lemma_row_text_prefix(ds, i - 1, r);
        if row_text(ds.take(i), r) is Some && ds[i - 1].0 != r {
            let k = choose|k: int| 0 <= k < i - 1 && ds[k].0 == r;
        }
    }
}

/// Whether any of the segments holds row `r`.
fn any_has_row(segs: &Vec<Segment>, r: u64) -> (b: bool)
    ensures
        b == parts_have_row(segs@, r),
{
    let mut j: usize = 0;
    while j < segs.len()
        invariant
            j <= segs@.len(),
            forall|m: int| 0 <= m < j ==> !(#[trigger] segs@[m]).has_row(r),
        decreases segs@.len() - j,
    {
        if segs[j].contains_row(r) {
            return true;
        }
        j = j + 1;
    }
    false
}

/// Builds segments from documents, flushing the current segment whenever it
/// holds `max_rows` rows; when `merge` is set, each flushed segment is
/// merged into a single consolidated one.
pub fn build_segments(docs: &Vec<Document>, config: &TokenizerConfig, max_rows: usize, merge: bool) -> (res:
    Result<Vec<Segment>, IndexError>)
    requires
        max_rows > 0,
        forall|k: int| 0 <= k < docs@.len() ==> docs@[k].text@.len() < u32::MAX,
    ensures
        built(res, documents_view(docs@), *config, max_rows, merge),
{
    let ghost dv = documents_view(docs@);
    let mut segs: Vec<Segment> = Vec::new();
    let mut cur = Segment::new();
    let mut total: u64 = 0;
    let mut i: usize = 0;
    assert(dv.take(0) =~= Seq::<(u64, Seq<u8>)>::empty());
    proof {
        assert forall|t: Seq<u8>, r: u64| #[trigger] parts_posting(segs@.push(cur), t, r) == indexed_posting(dv.take(0), *config, t, r) by {
            lemma_parts_push(segs@, cur, t, r);
            crate::index::lemma_absent_row(cur, t, r);
        }
        assert forall|r: u64| #[trigger] parts_doc_len(segs@.push(cur), r) == text_len(dv.take(0), *config, r) by {
            lemma_parts_doc_push(segs@, cur, r);
        }
        lemma_parts_doc_push(segs@, cur, 0);
    }
    while i < docs.len()
        invariant
            i <= docs@.len(),
            max_rows > 0,
            dv == documents_view(docs@),
            forall|k: int| 0 <= k < docs@.len() ==> docs@[k].text@.len() < u32::MAX,
            parts_wf(segs@.push(cur)),
            parts_disjoint(segs@.push(cur)),
            forall|t: Seq<u8>, r: u64|
                #[trigger] parts_posting(segs@.push(cur), t, r) == indexed_posting(dv.take(i as int), *config, t, r),
            forall|r: u64| #[trigger] parts_have_row(segs@.push(cur), r) == exists|k: int| 0 <= k < i && dv[k].0 == r,
            rows_distinct(dv.take(i as int)),
            total == tokens_total(dv.take(i as int), *config),
            forall|r: u64| #[trigger] parts_doc_len(segs@.push(cur), r) == text_len(dv.take(i as int), *config, r),
            parts_total(segs@.push(cur)) == total,
            cur.total_tokens <= total,
            cur.docs@.len() < max_rows,
            merge ==> segs@.len() <= 1,
            merge && segs@.len() == 1 ==> segs@[0].total_tokens + cur.total_tokens == total,
            merge && segs@.len() == 0 ==> cur.total_tokens == total,
            !merge ==> forall|j: int| 0 <= j < segs@.len() ==> (#[trigger] segs@[j]).docs@.len() <= max_rows,
        decreases docs@.len() - i,
    {
        let d = &docs[i];
        assert(dv[i as int] == d@);
        let ghost pre = dv.take(i as int);
        let ghost next = dv.take(i + 1);
        assert(next.drop_last() =~= pre);
        assert(next.last() == d@);
        let ghost p0 = segs@.push(cur);
        assert(p0[p0.len() - 1] == cur);
        if any_has_row(&segs, d.row_id) {
            proof {
                let j = choose|j: int| 0 <= j < segs@.len() && #[trigger] segs@[j].has_row(d.row_id);
                assert(p0[j] == segs@[j]);
                assert(parts_have_row(p0, d.row_id));
                let k = choose|k: int| 0 <= k < i && dv[k].0 == d.row_id;
                assert(dv[k].0 == dv[i as int].0);
            }
            return Err(IndexError::Index);
        }
        let ghost old_cur = cur;
        let before = cur.total_tokens;
        match cur.add_document(d.row_id, &d.text, config) {
            Err(e) => {
                proof {
                    if old_cur.has_row(d.row_id) {
                        assert(parts_have_row(p0, d.row_id));
                        let k = choose|k: int| 0 <= k < i && dv[k].0 == d.row_id;
                        assert(dv[k].0 == dv[i as int].0);
                    } else {
                        lemma_tokens_total_prefix(dv, *config, i + 1);
                    }
                }
                return Err(IndexError::Index);
            },
            Ok(()) => {},
        }
        let delta = cur.total_tokens - before;
        if total > u64::MAX - delta {
            proof {
                lemma_tokens_total_prefix(dv, *config, i + 1);
            }
            return Err(IndexError::Index);
        }
        total = total + delta;
        let ghost p1 = segs@.push(cur);
        proof {
            assert forall|r: u64| #[trigger] parts_doc_len(p1, r) == text_len(next, *config, r) by {
                lemma_parts_doc_push(segs@, cur, r);
                lemma_parts_doc_push(segs@, old_cur, r);
                assert(parts_doc_len(p0, r) == text_len(pre, *config, r));
            }
            lemma_parts_doc_push(segs@, cur, 0);
            lemma_parts_doc_push(segs@, old_cur, 0);
            assert(p1.drop_last() =~= segs@);
            assert(p0.drop_last() =~= segs@);
            assert(!parts_have_row(p0, d.row_id)) by {
                if parts_have_row(p0, d.row_id) {
                    let j = choose|j: int| 0 <= j < p0.len() && #[trigger] p0[j].has_row(d.row_id);
                    if j < segs@.len() {
                        assert(p0[j] == segs@[j]);
                    }
                }
            }
            assert forall|j: int| 0 <= j < p1.len() implies (#[trigger] p1[j]).wf() by {
                if j < segs@.len() {
                    assert(p1[j] == p0[j]);
                }
            }
            assert forall|j1: int, j2: int, r: u64|
                0 <= j1 < j2 < p1.len() && #[trigger] p1[j1].has_row(r) implies !#[trigger] p1[j2].has_row(r) by {
                assert(p1[j1] == p0[j1]);
                if j2 < segs@.len() {
                    assert(p1[j2] == p0[j2]);
                } else if r == d.row_id {
                    assert(parts_have_row(p0, r));
                }
            }
            assert forall|r: u64| #[trigger] parts_have_row(p1, r) == exists|k: int| 0 <= k < i + 1 && dv[k].0 == r by {
                if parts_have_row(p1, r) {
                    let j = choose|j: int| 0 <= j < p1.len() && #[trigger] p1[j].has_row(r);
                    if r != d.row_id {
                        if j < segs@.len() {
                            assert(p1[j] == p0[j]);
                        }
                        assert(p0[j].has_row(r));
                        assert(parts_have_row(p0, r));
                    }
                }
                if exists|k: int| 0 <= k < i + 1 && dv[k].0 == r {
                    if r == d.row_id {
                        assert(p1[p1.len() - 1].has_row(r));
                    } else {
                        let k = choose|k: int| 0 <= k < i + 1 && dv[k].0 == r;
                        assert(k < i);
                        assert(parts_have_row(p0, r));
                        let j = choose|j: int| 0 <= j < p0.len() && #[trigger] p0[j].has_row(r);
                        if j < segs@.len() {
                            assert(p1[j] == p0[j]);
                        } else {
                            assert(p1[j].has_row(r));
                        }
                    }
                }
            }
            assert forall|t: Seq<u8>, r: u64| #[trigger] parts_posting(p1, t, r) == indexed_posting(next, *config, t, r) by {
                if r == d.row_id {
                    assert(!parts_have_row(segs@, r)) by {
                        if parts_have_row(segs@, r) {
                            let j = choose|j: int| 0 <= j < segs@.len() && #[trigger] segs@[j].has_row(r);
                            assert(p0[j] == segs@[j]);
                        }
                    }
                    assert forall|j: int| 0 <= j < segs@.len() implies (#[trigger] segs@[j]).wf() by {
                        assert(p0[j] == segs@[j]);
                    }
                    lemma_parts_absent(segs@, t, r);
                } else {
                    assert(parts_posting(p0, t, r) == indexed_posting(pre, *config, t, r));
                }
            }
            assert forall|a: int, b: int| 0 <= a < b < next.len() implies next[a].0 != next[b].0 by {
                if b == i {
                    assert(next[a] == dv[a]);
                    if dv[a].0 == d.row_id {
                        assert(parts_have_row(p0, d.row_id));
                    }
                } else {
                    assert(next[a] == pre[a] && next[b] == pre[b]);
                }
            }
        }
        i = i + 1;
        if cur.num_docs() >= max_rows {
            let full = cur;
            cur = Segment::new();
            if merge && segs.len() == 1 {
                let mut a = segs.pop().unwrap();
                assert(segs@.len() == 0);
                proof {
                    assert(p1[0] == a && p1[1] == full);
                    assert forall|r: u64| !(a.has_row(r) && full.has_row(r)) by {
                        if a.has_row(r) {
                            assert(p1[0].has_row(r));
                        }
                    }
                }
                let ghost a0 = a;
                let _ = merge_into(&mut a, &full);
                segs.push(a);
                proof {
                    let p2 = segs@.push(cur);
                    assert(p2[0] == a && p2[1] == cur);
                    assert forall|t: Seq<u8>, r: u64| #[trigger] parts_posting(p2, t, r) == indexed_posting(next, *config, t, r) by {
                        crate::index::lemma_absent_row(cur, t, r);
                        assert(p2 =~= Seq::<Segment>::empty().push(a).push(cur));
                        assert(p1 =~= Seq::<Segment>::empty().push(a0).push(full));
                        lemma_parts_push(Seq::<Segment>::empty().push(a), cur, t, r);
                        lemma_parts_push(Seq::<Segment>::empty(), a, t, r);
                        lemma_parts_push(Seq::<Segment>::empty().push(a0), full, t, r);
                        lemma_parts_push(Seq::<Segment>::empty(), a0, t, r);
                        if a0.has_row(r) {
                            crate::index::lemma_absent_row(full, t, r);
                        } else {
                            crate::index::lemma_absent_row(a0, t, r);
                        }
                    }
                    assert forall|r: u64| #[trigger] parts_have_row(p2, r) == parts_have_row(p1, r) by {
                        if parts_have_row(p1, r) {
                            let j = choose|j: int| 0 <= j < p1.len() && #[trigger] p1[j].has_row(r);
                            assert(p2[0].has_row(r));
                        }
                        if parts_have_row(p2, r) {
                            let j = choose|j: int| 0 <= j < p2.len() && #[trigger] p2[j].has_row(r);
                            assert(j == 0);
                            if a0.has_row(r) {
                                assert(p1[0].has_row(r));
                            } else {
                                assert(p1[1].has_row(r));
                            }
                        }
                    }
                    assert(parts_disjoint(p2));
                    assert(parts_wf(p2));
                    let e0 = Seq::<Segment>::empty();
                    assert(p2 =~= e0.push(a).push(cur));
                    assert(p1 =~= e0.push(a0).push(full));
                    lemma_parts_doc_push(e0.push(a), cur, 0);
                    lemma_parts_doc_push(e0, a, 0);
                    lemma_parts_doc_push(e0.push(a0), full, 0);
                    lemma_parts_doc_push(e0, a0, 0);
                    assert forall|r: u64| #[trigger] parts_doc_len(p2, r) == text_len(next, *config, r) by {
                        lemma_parts_doc_push(e0.push(a), cur, r);
                        lemma_parts_doc_push(e0, a, r);
                        lemma_parts_doc_push(e0.push(a0), full, r);
                        lemma_parts_doc_push(e0, a0, r);
                        crate::index::lemma_doc_len_append(a0.docs@, full.docs@, r);
                        assert(parts_doc_len(p1, r) == text_len(next, *config, r));
                    }
                }
            } else {
                segs.push(full);
                proof {
                    let p2 = segs@.push(cur);
                    assert(p2.drop_last() =~= p1);
                    assert forall|j: int| 0 <= j < p2.len() implies (#[trigger] p2[j]).wf() by {
                        if j < p1.len() {
                            assert(p2[j] == p1[j]);
                        }
                    }
                    assert forall|j1: int, j2: int, r: u64|
                        0 <= j1 < j2 < p2.len() && #[trigger] p2[j1].has_row(r) implies !#[trigger] p2[j2].has_row(r) by {
                        assert(p2[j1] == p1[j1]);
                        if j2 < p1.len() {
                            assert(p2[j2] == p1[j2]);
                        }
                    }
                    assert forall|t: Seq<u8>, r: u64| #[trigger] parts_posting(p2, t, r) == indexed_posting(next, *config, t, r) by {
                        crate::index::lemma_absent_row(cur, t, r);
                        lemma_parts_push(p1, cur, t, r);
                        assert(parts_posting(p1, t, r) == indexed_posting(next, *config, t, r));
                    }
                    assert forall|r: u64| #[trigger] parts_doc_len(p2, r) == text_len(next, *config, r) by {
                        lemma_parts_doc_push(p1, cur, r);
                        assert(parts_doc_len(p1, r) == text_len(next, *config, r));
                    }
                    lemma_parts_doc_push(p1, cur, 0);
                    assert forall|r: u64| #[trigger] parts_have_row(p2, r) == parts_have_row(p1, r) by {
                        if parts_have_row(p1, r) {
                            let j = choose|j: int| 0 <= j < p1.len() && #[trigger] p1[j].has_row(r);
                            assert(p2[j] == p1[j]);
                        }
                        if parts_have_row(p2, r) {
                            let j = choose|j: int| 0 <= j < p2.len() && #[trigger] p2[j].has_row(r);
                            assert(j < p1.len());
                            assert(p2[j] == p1[j]);
                        }
                    }
                    assert forall|j: int| 0 <= j < segs@.len() implies (#[trigger] segs@[j]).docs@.len() <= max_rows || merge by {
                        if j < segs@.len() - 1 {
                            assert(segs@[j] == p1[j]);
                        }
                    }
                }
            }
        }
    }
    assert(dv.take(i as int) =~= dv);
    proof {
        assert forall|r: u64| (exists|k: int| 0 <= k < i && dv[k].0 == r) == (row_text(dv, r) is Some) by {
            lemma_row_text_prefix(dv, i as int, r);
        }
    }
    let ghost p1 = segs@.push(cur);
    if cur.num_docs() > 0 || segs.len() == 0 {
        if merge && segs.len() == 1 {
            let mut a = segs.pop().unwrap();
            proof {
                assert(p1[0] == a && p1[1] == cur);
                assert forall|r: u64| !(a.has_row(r) && cur.has_row(r)) by {
                    if a.has_row(r) {
                        assert(p1[0].has_row(r));
                    }
                }
            }
            let ghost a0 = a;
            let _ = merge_into(&mut a, &cur);
            segs.push(a);
            proof {
                let p2 = segs@;
                assert(p2[0] == a);
                assert forall|t: Seq<u8>, r: u64| #[trigger] parts_posting(p2, t, r) == indexed_posting(dv, *config, t, r) by {
                    assert(p2 =~= Seq::<Segment>::empty().push(a));
                    assert(p1 =~= Seq::<Segment>::empty().push(a0).push(cur));
                    lemma_parts_push(Seq::<Segment>::empty(), a, t, r);
                    lemma_parts_push(Seq::<Segment>::empty().push(a0), cur, t, r);
                    lemma_parts_push(Seq::<Segment>::empty(), a0, t, r);
                    if a0.has_row(r) {
                        crate::index::lemma_absent_row(cur, t, r);
                    } else {
                        crate::index::lemma_absent_row(a0, t, r);
                    }
                }
                let e0 = Seq::<Segment>::empty();
                assert(p2 =~= e0.push(a));
                assert(p1 =~= e0.push(a0).push(cur));
                lemma_parts_doc_push(e0, a, 0);
                lemma_parts_doc_push(e0.push(a0), cur, 0);
                lemma_parts_doc_push(e0, a0, 0);
                assert forall|r: u64| #[trigger] parts_doc_len(p2, r) == text_len(dv, *config, r) by {
                    lemma_parts_doc_push(e0, a, r);
                    lemma_parts_doc_push(e0.push(a0), cur, r);
                    lemma_parts_doc_push(e0, a0, r);
                    crate::index::lemma_doc_len_append(a0.docs@, cur.docs@, r);
                    assert(parts_doc_len(p1, r) == text_len(dv, *config, r));
                }
                assert forall|r: u64| #[trigger] parts_have_row(p2, r) == parts_have_row(p1, r) by {
                    if parts_have_row(p1, r) {
                        let j = choose|j: int| 0 <= j < p1.len() && #[trigger] p1[j].has_row(r);
                        assert(p2[0].has_row(r));
                    }
                    if parts_have_row(p2, r) {
                        let j = choose|j: int| 0 <= j < p2.len() && #[trigger] p2[j].has_row(r);
                        if a0.has_row(r) {
                            assert(p1[0].has_row(r));
                        } else {
                            assert(p1[1].has_row(r));
                        }
                    }
                }
            }
        } else {
            segs.push(cur);
            assert(segs@ == p1);
        }
    } else {
        proof {
            assert(p1.drop_last() =~= segs@);
            assert forall|t: Seq<u8>, r: u64| #[trigger] parts_posting(segs@, t, r) == parts_posting(p1, t, r) by {
                crate::index::lemma_absent_row(cur, t, r);
                lemma_parts_push(segs@, cur, t, r);
            }
            assert forall|r: u64| #[trigger] parts_doc_len(segs@, r) == parts_doc_len(p1, r) by {
                lemma_parts_doc_push(segs@, cur, r);
            }
            lemma_parts_doc_push(segs@, cur, 0);
            assert forall|r: u64| #[trigger] parts_have_row(segs@, r) == parts_have_row(p1, r) by {
                if parts_have_row(segs@, r) {
                    let j = choose|j: int| 0 <= j < segs@.len() && #[trigger] segs@[j].has_row(r);
                    assert(p1[j] == segs@[j]);
                }
                if parts_have_row(p1, r) {
                    let j = choose|j: int| 0 <= j < p1.len() && #[trigger] p1[j].has_row(r);
                    assert(j < segs@.len());
                    assert(p1[j] == segs@[j]);
                }
            }
            assert forall|j: int| 0 <= j < segs@.len() implies (#[trigger] segs@[j]).wf() by {
                assert(p1[j] == segs@[j]);
            }
            assert forall|j1: int, j2: int, r: u64|
                0 <= j1 < j2 < segs@.len() && #[trigger] segs@[j1].has_row(r) implies !#[trigger] segs@[j2].has_row(r) by {
                assert(p1[j1] == segs@[j1]);
                assert(p1[j2] == segs@[j2]);
            }
        }
    }
    Ok(segs)
}

/// Whether segments can be consolidated with a new one: no row is held twice
/// and the token totals add up within range.
pub open spec fn consolidatable(existing: Seq<Segment>, fresh: Segment) -> bool {
    &&& parts_disjoint(existing)
    &&& forall|r: u64| !(parts_have_row(existing, r) && #[trigger] fresh.has_row(r))
    &&& parts_total(existing) + fresh.total_tokens <= u64::MAX
}

proof fn lemma_parts_total_prefix(parts: Seq<Segment>, j: int)
    requires
        0 <= j <= parts.len(),
    ensures
        parts_total(parts.take(j)) <= parts_total(parts),
    decreases parts.len(),
{
    if j < parts.len() {
        lemma_parts_total_prefix(parts.drop_last(), j);
        assert(parts.drop_last().take(j) =~= parts.take(j));
    } else {
        assert(parts.take(j) =~= parts);
    }
}

/// Merges existing segments and a new one into one consolidated segment,
/// which holds each row with the postings and length it had. Fails with
/// `Index` exactly when they cannot be consolidated.
pub fn merge_with_existing(existing: &Vec<Segment>, fresh: &Segment) -> (res: Result<Segment, IndexError>)
    requires
        parts_wf(existing@),
        fresh.wf(),
    ensures
        match res {
            Ok(m) => {
                let all = existing@.push(*fresh);
                &&& consolidatable(existing@, *fresh)
                &&& m.wf()
                &&& forall|t: Seq<u8>, r: u64| #[trigger] m.posting_at(t, r) == parts_posting(all, t, r)
                &&& forall|r: u64| #[trigger] m.has_row(r) == parts_have_row(all, r)
                &&& forall|r: u64| #[trigger] doc_len(m.docs@, r) == parts_doc_len(all, r)
                &&& m.total_tokens == parts_total(all)
            },
            Err(e) => e == IndexError::Index && !consolidatable(existing@, *fresh),
        },
{
    let ghost ex = existing@;
    let mut acc = Segment::new();
    let mut j: usize = 0;
    proof {
        let e0 = ex.take(0);
        assert(e0 =~= Seq::<Segment>::empty());
        assert forall|t: Seq<u8>, r: u64| #[trigger] acc.posting_at(t, r) == parts_posting(e0, t, r) by {
            crate::index::lemma_absent_row(acc, t, r);
        }
    }
    while j < existing.len()
        invariant
            j <= ex.len(),
            ex == existing@,
            parts_wf(ex),
            fresh.wf(),
            acc.wf(),
            parts_disjoint(ex.take(j as int)),
            forall|t: Seq<u8>, r: u64| #[trigger] acc.posting_at(t, r) == parts_posting(ex.take(j as int), t, r),
            forall|r: u64| #[trigger] acc.has_row(r) == parts_have_row(ex.take(j as int), r),
            forall|r: u64| #[trigger] doc_len(acc.docs@, r) == parts_doc_len(ex.take(j as int), r),
            acc.total_tokens == parts_total(ex.take(j as int)),
        decreases ex.len() - j,
    {
        let ghost pre = ex.take(j as int);
        let ghost next = ex.take(j + 1);
        let ghost s = ex[j as int];
        assert(next =~= pre.push(s));
        assert(s.wf());
        let ghost a0 = acc;
        proof {
            lemma_parts_doc_push(pre, s, 0);
        }
        match merge_into(&mut acc, &existing[j]) {
            Err(e) => {
                proof {
                    lemma_parts_total_prefix(ex, j + 1);
                    if !crate::merger::rows_disjoint(a0, s) {
                        let r = choose|r: u64| a0.has_row(r) && s.has_row(r);
                        let i = choose|i: int| 0 <= i < pre.len() && #[trigger] pre[i].has_row(r);
                        assert(ex[i] == pre[i]);
                        assert(!parts_disjoint(ex)) by {
                            assert(ex[i].has_row(r) && ex[j as int].has_row(r));
                        }
                    }
                }
                return Err(e);
            },
            Ok(()) => {},
        }
        proof {
            assert forall|t: Seq<u8>, r: u64| #[trigger] acc.posting_at(t, r) == parts_posting(next, t, r) by {
                lemma_parts_push(pre, s, t, r);
                if a0.has_row(r) {
                    crate::index::lemma_absent_row(s, t, r);
                } else {
                    crate::index::lemma_absent_row(a0, t, r);
                }
            }
            assert forall|r: u64| #[trigger] doc_len(acc.docs@, r) == parts_doc_len(next, r) by {
                lemma_parts_doc_push(pre, s, r);
                crate::index::lemma_doc_len_append(a0.docs@, s.docs@, r);
            }
            assert forall|r: u64| #[trigger] acc.has_row(r) == parts_have_row(next, r) by {
                if parts_have_row(next, r) {
                    let i = choose|i: int| 0 <= i < next.len() && #[trigger] next[i].has_row(r);
                    if i < pre.len() {
                        assert(next[i] == pre[i]);
                        assert(parts_have_row(pre, r));
                    }
                }
                if a0.has_row(r) {
                    let i = choose|i: int| 0 <= i < pre.len() && #[trigger] pre[i].has_row(r);
                    assert(next[i] == pre[i]);
                }
                if s.has_row(r) {
                    assert(next[j as int].has_row(r));
                }
            }
            assert forall|j1: int, j2: int, r: u64|
                0 <= j1 < j2 < next.len() && #[trigger] next[j1].has_row(r) implies !#[trigger] next[j2].has_row(r) by {
                assert(next[j1] == pre[j1]);
                if j2 < pre.len() {
                    assert(next[j2] == pre[j2]);
                } else {
                    assert(parts_have_row(pre, r));
                }
            }
        }
        j = j + 1;
    }
    assert(ex.take(j as int) =~= ex);
    let ghost a0 = acc;
    let ghost all = ex.push(*fresh);
    proof {
        lemma_parts_doc_push(ex, *fresh, 0);
    }
    match merge_into(&mut acc, fresh) {
        Err(e) => {
            return Err(e);
        },
        Ok(()) => {},
    }
    proof {
        assert forall|t: Seq<u8>, r: u64| #[trigger] acc.posting_at(t, r) == parts_posting(all, t, r) by {
            lemma_parts_push(ex, *fresh, t, r);
            if a0.has_row(r) {
                crate::index::lemma_absent_row(*fresh, t, r);
            } else {
                crate::index::lemma_absent_row(a0, t, r);
            }
        }
        assert forall|r: u64| #[trigger] doc_len(acc.docs@, r) == parts_doc_len(all, r) by {
            lemma_parts_doc_push(ex, *fresh, r);
            crate::index::lemma_doc_len_append(a0.docs@, fresh.docs@, r);
        }
        assert forall|r: u64| #[trigger] acc.has_row(r) == parts_have_row(all, r) by {
            if parts_have_row(all, r) {
                let i = choose|i: int| 0 <= i < all.len() && #[trigger] all[i].has_row(r);
                if i < ex.len() {
                    assert(all[i] == ex[i]);
                    assert(parts_have_row(ex, r));
                }
            }
            if a0.has_row(r) {
                let i = choose|i: int| 0 <= i < ex.len() && #[trigger] ex[i].has_row(r);
                assert(all[i] == ex[i]);
            }
            if fresh.has_row(r) {
                assert(all[ex.len() as int] == *fresh);
            }
        }
    }
    Ok(acc)
}

} // verus!
