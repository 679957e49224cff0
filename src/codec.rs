use vstd::prelude::*;
use vstd::bytes::{
    spec_u32_from_le_bytes, spec_u32_to_le_bytes, spec_u64_from_le_bytes, spec_u64_to_le_bytes,
    lemma_auto_spec_u32_to_from_le_bytes, lemma_auto_spec_u64_to_from_le_bytes, u32_from_le_bytes,
    u32_to_le_bytes, u64_from_le_bytes, u64_to_le_bytes,
};
use vstd::slice::slice_subrange;
use crate::error::IndexError;
use crate::posting::{Posting, PostingView, postings_view, strictly_increasing};
use crate::index::{Segment, copy_text};

verus! {

/// Positions, four little-endian bytes each.
pub open spec fn positions_bytes(ps: Seq<u32>) -> Seq<u8>
    decreases ps.len(),
{
    if ps.len() == 0 {
        Seq::empty()
    } else {
        positions_bytes(ps.drop_last()) + spec_u32_to_le_bytes(ps.last())
    }
}

/// One posting: row-id delta from the previous posting, frequency,
/// number of positions, then the positions.
pub open spec fn record_bytes(p: PostingView, prev: u64) -> Seq<u8> {
    spec_u64_to_le_bytes((p.row_id - prev) as u64) + spec_u32_to_le_bytes(p.freq)
        + spec_u32_to_le_bytes(p.positions.len() as u32) + positions_bytes(p.positions)
}

/// The row id that the delta of posting `i` is taken from.
pub open spec fn prev_row(ps: Seq<PostingView>, i: int) -> u64 {
    if i <= 0 {
        0
    } else {
        ps[i - 1].row_id
    }
}

pub open spec fn records_bytes(ps: Seq<PostingView>) -> Seq<u8>
    decreases ps.len(),
{
    if ps.len() == 0 {
        Seq::empty()
    } else {
        records_bytes(ps.drop_last()) + record_bytes(ps.last(), prev_row(ps, ps.len() - 1))
    }
}

/// The encoded form of a posting list: its length, then each record.
pub open spec fn encoding(ps: Seq<PostingView>) -> Seq<u8> {
    spec_u64_to_le_bytes(ps.len() as u64) + records_bytes(ps)
}

/// The posting lists that the layout can hold.
pub open spec fn encodable(ps: Seq<PostingView>) -> bool {
    &&& strictly_increasing(ps)
    &&& ps.len() <= u64::MAX
    &&& forall|i: int| 0 <= i < ps.len() ==> ps[i].positions.len() <= u32::MAX
}

proof fn lemma_positions_len(ps: Seq<u32>)
    ensures
        positions_bytes(ps).len() == 4 * ps.len(),
    decreases ps.len(),
{
    lemma_auto_spec_u32_to_from_le_bytes();
    if ps.len() > 0 {
        lemma_positions_len(ps.drop_last());
    }
}

proof fn lemma_positions_prefix(ps: Seq<u32>, j: int)
    requires
        0 <= j <= ps.len(),
    ensures
        positions_bytes(ps).subrange(0, 4 * j) == positions_bytes(ps.take(j)),
    decreases ps.len(),
{
    lemma_positions_len(ps);
    lemma_positions_len(ps.take(j));
    if j == ps.len() {
        assert(ps.take(j) =~= ps);
        assert(positions_bytes(ps).subrange(0, 4 * j) =~= positions_bytes(ps));
    } else {
        lemma_positions_prefix(ps.drop_last(), j);
        assert(ps.drop_last().take(j) =~= ps.take(j));
        lemma_positions_len(ps.drop_last());
        assert(positions_bytes(ps).subrange(0, 4 * j) =~= positions_bytes(ps.drop_last()).subrange(
            0,
            4 * j,
        ));
    }
}

proof fn lemma_records_prefix(ps: Seq<PostingView>, j: int)
    requires
        0 <= j <= ps.len(),
    ensures
        records_bytes(ps.take(j)).len() <= records_bytes(ps).len(),
        records_bytes(ps).subrange(0, records_bytes(ps.take(j)).len() as int) == records_bytes(
            ps.take(j),
        ),
    decreases ps.len(),
{
    if j == ps.len() {
        assert(ps.take(j) =~= ps);
        assert(records_bytes(ps).subrange(0, records_bytes(ps).len() as int) =~= records_bytes(ps));
    } else {
        lemma_records_prefix(ps.drop_last(), j);
        assert(ps.drop_last().take(j) =~= ps.take(j));
        let a = records_bytes(ps.drop_last());
        let n = records_bytes(ps.take(j)).len() as int;
        assert(records_bytes(ps).subrange(0, n) =~= a.subrange(0, n));
    }
}

proof fn lemma_records_step(ps: Seq<PostingView>, i: int)
    requires
        0 <= i < ps.len(),
    ensures
        records_bytes(ps.take(i + 1)) == records_bytes(ps.take(i)) + record_bytes(
            ps[i],
            prev_row(ps, i),
        ),
{
    let t = ps.take(i + 1);
    assert(t.drop_last() =~= ps.take(i));
    assert(t.last() == ps[i]);
    assert(prev_row(t, i) == prev_row(ps, i));
}

/// Encodes a posting list into its byte layout.
pub fn encode(ps: &Vec<Posting>) -> (r: Vec<u8>)
    requires
        encodable(postings_view(ps@)),
    ensures
        r@ == encoding(postings_view(ps@)),
{
    let ghost v = postings_view(ps@);
    let mut out = u64_to_le_bytes(ps.len() as u64);
    let mut prev: u64 = 0;
    let mut i: usize = 0;
    assert(v.take(0) =~= Seq::<PostingView>::empty());
    assert(out@ =~= spec_u64_to_le_bytes(v.len() as u64) + records_bytes(v.take(0)));
    while i < ps.len()
        invariant
            i <= ps@.len(),
            v == postings_view(ps@),
            encodable(v),
            prev == prev_row(v, i as int),
            out@ == spec_u64_to_le_bytes(v.len() as u64) + records_bytes(v.take(i as int)),
        decreases ps@.len() - i,
    {
        let p = &ps[i];
        assert(v[i as int] == p@);
        if i > 0 {
            assert(v[i - 1].row_id < v[i as int].row_id);
        }
        let ghost base = out@;
        let mut d = u64_to_le_bytes(p.row_id - prev);
        out.append(&mut d);
        let mut f = u32_to_le_bytes(p.freq);
        out.append(&mut f);
        let mut c = u32_to_le_bytes(p.positions.len() as u32);
        out.append(&mut c);
        let ghost head = out@;
        let mut j: usize = 0;
        assert(p.positions@.take(0) =~= Seq::<u32>::empty());
        assert(out@ =~= head + positions_bytes(p.positions@.take(0)));
        while j < p.positions.len()
            invariant
                j <= p.positions@.len(),
                out@ == head + positions_bytes(p.positions@.take(j as int)),
            decreases p.positions@.len() - j,
        {
            let mut b = u32_to_le_bytes(p.positions[j]);
            out.append(&mut b);
            assert(p.positions@.take(j + 1).drop_last() =~= p.positions@.take(j as int));
            j = j + 1;
            assert(out@ =~= head + positions_bytes(p.positions@.take(j as int)));
        }
        assert(p.positions@.take(j as int) =~= p.positions@);
        proof {
            lemma_records_step(v, i as int);
        }
        assert(out@ =~= spec_u64_to_le_bytes(v.len() as u64) + records_bytes(v.take(i + 1)));
        prev = p.row_id;
        i = i + 1;
    }
    assert(v.take(i as int) =~= v);
    out
}

proof fn lemma_window(b: Seq<u8>, a: int, s: Seq<u8>, x: int, y: int)
    requires
        0 <= a,
        a + s.len() <= b.len(),
        b.subrange(a, a + s.len()) == s,
        0 <= x <= y <= s.len(),
    ensures
        b.subrange(a + x, a + y) == s.subrange(x, y),
{
    assert forall|k: int| 0 <= k < y - x implies b.subrange(a + x, a + y)[k] == s.subrange(x, y)[k] by {
        assert(b.subrange(a, a + s.len())[x + k] == b[a + x + k]);
    }
    assert(b.subrange(a + x, a + y) =~= s.subrange(x, y));
}

proof fn lemma_record_parts(p: PostingView, prev: u64)
    requires
        p.positions.len() <= u32::MAX,
    ensures
        ({
            let r = record_bytes(p, prev);
            &&& r.len() == 16 + 4 * p.positions.len()
            &&& r.subrange(0, 8) == spec_u64_to_le_bytes((p.row_id - prev) as u64)
            &&& r.subrange(8, 12) == spec_u32_to_le_bytes(p.freq)
            &&& r.subrange(12, 16) == spec_u32_to_le_bytes(p.positions.len() as u32)
            &&& r.subrange(16, r.len() as int) == positions_bytes(p.positions)
        }),
{
    lemma_auto_spec_u64_to_from_le_bytes();
    lemma_auto_spec_u32_to_from_le_bytes();
    lemma_positions_len(p.positions);
    let r = record_bytes(p, prev);
    assert(r.subrange(0, 8) =~= spec_u64_to_le_bytes((p.row_id - prev) as u64));
    assert(r.subrange(8, 12) =~= spec_u32_to_le_bytes(p.freq));
    assert(r.subrange(12, 16) =~= spec_u32_to_le_bytes(p.positions.len() as u32));
    assert(r.subrange(16, r.len() as int) =~= positions_bytes(p.positions));
}

#[verifier::rlimit(60)]
/// Decodes a posting list. Succeeds exactly on the encodings of posting
/// lists, and then returns the list that was encoded.
pub fn decode(b: &Vec<u8>) -> (r: Result<Vec<Posting>, IndexError>)
    ensures
        match r {
            Ok(v) => encodable(postings_view(v@)) && b@ == encoding(postings_view(v@)),
            Err(e) => e == IndexError::Encoding && !exists|ps: Seq<PostingView>|
                encodable(ps) && b@ == encoding(ps),
        },
{
    proof {
        lemma_auto_spec_u64_to_from_le_bytes();
        lemma_auto_spec_u32_to_from_le_bytes();
    }
    let ghost has = exists|ps: Seq<PostingView>| encodable(ps) && b@ == encoding(ps);
    let ghost t = choose|ps: Seq<PostingView>| encodable(ps) && b@ == encoding(ps);
    if b.len() < 8 {
        return Err(IndexError::Encoding);
    }
    let n = u64_from_le_bytes(slice_subrange(b.as_slice(), 0, 8));
    proof {
        if has {
            assert(b@.subrange(0, 8) =~= spec_u64_to_le_bytes(t.len() as u64));
        }
    }
    let mut acc: Vec<Posting> = Vec::new();
    let mut off: usize = 8;
    let mut prev: u64 = 0;
    let mut i: u64 = 0;
    assert(b@.subrange(8, 8) =~= records_bytes(postings_view(acc@)));
    assert(postings_view(acc@) =~= Seq::<PostingView>::empty());
    assert(t.take(0) =~= Seq::<PostingView>::empty());
    while i < n
        invariant
            8 <= off <= b@.len(),
            i <= n,
            acc@.len() == i,
            spec_u64_from_le_bytes(b@.subrange(0, 8)) == n,
            b@.len() >= 8,
            b@.subrange(8, off as int) == records_bytes(postings_view(acc@)),
            encodable(postings_view(acc@)),
            prev == prev_row(postings_view(acc@), i as int),
            forall|k: int| 0 <= k < i ==> postings_view(acc@)[k].row_id <= prev,
            has ==> encodable(t) && b@ == encoding(t) && n == t.len() && postings_view(acc@)
                == t.take(i as int),
            has == exists|ps: Seq<PostingView>| encodable(ps) && b@ == encoding(ps),
        decreases n - i,
    {
        let ghost av = postings_view(acc@);
        let ghost rec = record_bytes(t[i as int], prev);
        proof {
            lemma_auto_spec_u64_to_from_le_bytes();
            lemma_auto_spec_u32_to_from_le_bytes();
            if has {
                assert(spec_u64_to_le_bytes(t.len() as u64).len() == 8);
                lemma_records_prefix(t, i + 1);
                lemma_records_step(t, i as int);
                lemma_record_parts(t[i as int], prev);
                lemma_positions_len(t[i as int].positions);
                let ri = records_bytes(t.take(i as int));
                let rn = records_bytes(t.take(i + 1));
                assert(rn == ri + rec);
                assert(off == 8 + ri.len());
                assert(b@.subrange(8, b@.len() as int) =~= records_bytes(t));
                lemma_window(b@, 8, records_bytes(t), 0, rn.len() as int);
                assert(b@.subrange(8, 8 + rn.len() as int) =~= rn);
                lemma_window(b@, 8, rn, ri.len() as int, rn.len() as int);
                assert(rn.subrange(ri.len() as int, rn.len() as int) =~= rec);
                assert(b@.subrange(off as int, off + rec.len()) == rec);
            }
        }
        if b.len() - off < 16 {
            return Err(IndexError::Encoding);
        }
        let delta = u64_from_le_bytes(slice_subrange(b.as_slice(), off, off + 8));
        let freq = u32_from_le_bytes(slice_subrange(b.as_slice(), off + 8, off + 12));
        let npos = u32_from_le_bytes(slice_subrange(b.as_slice(), off + 12, off + 16));
        proof {
            if has {
                lemma_window(b@, off as int, rec, 0, 8);
                lemma_window(b@, off as int, rec, 8, 12);
                lemma_window(b@, off as int, rec, 12, 16);
                if i > 0 {
                    assert(t[i - 1].row_id < t[i as int].row_id);
                    assert(av[i - 1] == t[i - 1]);
                }
            }
        }
        if i > 0 && delta == 0 {
            return Err(IndexError::Encoding);
        }
        if delta > u64::MAX - prev {
            return Err(IndexError::Encoding);
        }
        let row_id = prev + delta;
        let mut positions: Vec<u32> = Vec::new();
        let mut poff: usize = off + 16;
        let mut j: u32 = 0;
        assert(b@.subrange(off + 16, off + 16) =~= positions_bytes(positions@));
        while j < npos
            invariant
                off + 16 <= poff <= b@.len(),
                poff == off + 16 + 4 * j,
                positions@.len() == j,
                j <= npos,
                b@.subrange(off + 16, poff as int) == positions_bytes(positions@),
                has ==> off + rec.len() <= b@.len() && b@.subrange(off as int, off + rec.len()) == rec && rec == record_bytes(
                    t[i as int],
                    prev,
                ) && npos == t[i as int].positions.len() && t[i as int].positions.len()
                    <= u32::MAX && positions@ == t[i as int].positions.take(j as int),
                has == exists|ps: Seq<PostingView>| encodable(ps) && b@ == encoding(ps),
                has ==> i < t.len(),
            decreases npos - j,
        {
            let ghost pv = t[i as int].positions;
            proof {
                lemma_auto_spec_u32_to_from_le_bytes();
                if has {
                    lemma_record_parts(t[i as int], prev);
                    lemma_positions_prefix(pv, j + 1);
                    lemma_positions_len(pv);
                    lemma_positions_len(pv.take(j + 1));
                    assert(pv.take(j + 1).drop_last() =~= pv.take(j as int));
                    lemma_window(b@, off as int, rec, 16, rec.len() as int);
                    lemma_window(b@, off + 16, positions_bytes(pv), 4 * j, 4 * j + 4);
                    assert(positions_bytes(pv).subrange(4 * j, 4 * j + 4) =~= positions_bytes(
                        pv.take(j + 1),
                    ).subrange(4 * j, 4 * j + 4));
                    lemma_positions_len(pv.take(j as int));
                    assert(positions_bytes(pv.take(j + 1)).subrange(4 * j, 4 * j + 4)
                        =~= spec_u32_to_le_bytes(pv[j as int]));
                }
            }
            if b.len() - poff < 4 {
                return Err(IndexError::Encoding);
            }
            let x = u32_from_le_bytes(slice_subrange(b.as_slice(), poff, poff + 4));
            let ghost old_pos = positions@;
            positions.push(x);
            assert(positions@.drop_last() =~= old_pos);
            assert(spec_u32_to_le_bytes(x) == b@.subrange(poff as int, poff + 4));
            assert(b@.subrange(off + 16, poff + 4) =~= b@.subrange(off + 16, poff as int)
                + b@.subrange(poff as int, poff + 4));
            proof {
                if has {
                    assert(positions@ =~= pv.take(j + 1));
                }
            }
            poff = poff + 4;
            j = j + 1;
        }
        let p = Posting { row_id, freq, positions };
        let ghost old_acc = acc@;
        acc.push(p);
        let ghost nv = postings_view(acc@);
        proof {
            assert(nv.drop_last() =~= av);
            assert(nv.last() == p@);
            lemma_record_parts(p@, prev);
            assert(b@.subrange(off as int, off + 8) =~= spec_u64_to_le_bytes(delta));
            assert(record_bytes(p@, prev) =~= b@.subrange(off as int, poff as int));
            assert(b@.subrange(8, poff as int) =~= b@.subrange(8, off as int) + b@.subrange(
                off as int,
                poff as int,
            ));
            assert(prev_row(nv, i as int) == prev);
            assert forall|a: int, c: int| 0 <= a < c < nv.len() implies nv[a].row_id
                < nv[c].row_id by {
                if c == i {
                    assert(nv[a] == av[a]);
                } else {
                    assert(nv[a] == av[a] && nv[c] == av[c]);
                }
            }
            assert forall|k: int| 0 <= k < nv.len() implies nv[k].positions.len() <= u32::MAX by {
                if k < i {
                    assert(nv[k] == av[k]);
                }
            }
            assert(encodable(nv));
            if has {
                assert(p@ == t[i as int]) by {
                    assert(p.positions@ =~= t[i as int].positions);
                }
                assert(nv =~= t.take(i + 1));
            }
        }
        off = poff;
        prev = row_id;
        i = i + 1;
    }
    if off != b.len() {
        proof {
            lemma_auto_spec_u64_to_from_le_bytes();
            if has {
                assert(spec_u64_to_le_bytes(t.len() as u64).len() == 8);
                assert(t.take(i as int) =~= t);
                assert(b@.subrange(8, b@.len() as int) =~= records_bytes(t));
            }
        }
        return Err(IndexError::Encoding);
    }
    proof {
        assert(b@ =~= b@.subrange(0, 8) + b@.subrange(8, off as int));
        assert(spec_u64_to_le_bytes(n) =~= b@.subrange(0, 8));
    }
    Ok(acc)
}

proof fn lemma_positions_injective(a: Seq<u32>, b: Seq<u32>)
    requires
        a.len() == b.len(),
        positions_bytes(a) == positions_bytes(b),
    ensures
        a == b,
    decreases a.len(),
{
    lemma_auto_spec_u32_to_from_le_bytes();
    if a.len() > 0 {
        let n = a.len() as int;
        lemma_positions_len(a.drop_last());
        lemma_positions_len(b.drop_last());
        let pa = positions_bytes(a);
        assert(pa.subrange(0, 4 * (n - 1)) =~= positions_bytes(a.drop_last()));
        assert(positions_bytes(b).subrange(0, 4 * (n - 1)) =~= positions_bytes(b.drop_last()));
        assert(pa.subrange(4 * (n - 1), 4 * n) =~= spec_u32_to_le_bytes(a.last()));
        assert(positions_bytes(b).subrange(4 * (n - 1), 4 * n) =~= spec_u32_to_le_bytes(b.last()));
        lemma_positions_injective(a.drop_last(), b.drop_last());
        assert(a =~= a.drop_last().push(a.last()));
        assert(b =~= b.drop_last().push(b.last()));
    }
}

proof fn lemma_records_injective_prefix(a: Seq<PostingView>, b: Seq<PostingView>, i: int)
    requires
        encodable(a),
        encodable(b),
        a.len() == b.len(),
        records_bytes(a) == records_bytes(b),
        0 <= i <= a.len(),
    ensures
        a.take(i) == b.take(i),
    decreases i,
{
    if i > 0 {
        let k = i - 1;
        lemma_records_injective_prefix(a, b, k);
        lemma_records_prefix(a, i);
        lemma_records_prefix(b, i);
        lemma_records_step(a, k);
        lemma_records_step(b, k);
        let prev = prev_row(a, k);
        assert(prev == prev_row(b, k)) by {
            if k > 0 {
                assert(a.take(k)[k - 1] == b.take(k)[k - 1]);
            }
        }
        let ra = record_bytes(a[k], prev);
        let rb = record_bytes(b[k], prev);
        lemma_record_parts(a[k], prev);
        lemma_record_parts(b[k], prev);
        let big = records_bytes(a);
        let li = records_bytes(a.take(k)).len() as int;
        let la = records_bytes(a.take(i));
        let lb = records_bytes(b.take(i));
        lemma_window(big, 0, la, li, la.len() as int);
        lemma_window(big, 0, lb, li, lb.len() as int);
        assert(la.subrange(li, la.len() as int) =~= ra);
        assert(lb.subrange(li, lb.len() as int) =~= rb);
        lemma_window(big, li, ra, 0, 16);
        lemma_window(big, li, rb, 0, 16);
        lemma_auto_spec_u64_to_from_le_bytes();
        lemma_auto_spec_u32_to_from_le_bytes();
        assert(ra.subrange(0, 8) =~= big.subrange(li, li + 16).subrange(0, 8));
        assert(rb.subrange(0, 8) =~= big.subrange(li, li + 16).subrange(0, 8));
        assert(ra.subrange(8, 12) =~= big.subrange(li, li + 16).subrange(8, 12));
        assert(rb.subrange(8, 12) =~= big.subrange(li, li + 16).subrange(8, 12));
        assert(ra.subrange(12, 16) =~= big.subrange(li, li + 16).subrange(12, 16));
        assert(rb.subrange(12, 16) =~= big.subrange(li, li + 16).subrange(12, 16));
        if k > 0 {
            assert(a[k - 1].row_id < a[k].row_id);
            assert(b[k - 1].row_id < b[k].row_id);
            assert(a.take(k)[k - 1] == b.take(k)[k - 1]);
        }
        assert(a[k].row_id == b[k].row_id);
        assert(a[k].freq == b[k].freq);
        assert(a[k].positions.len() == b[k].positions.len());
        assert(ra.len() == rb.len());
        assert(ra == rb);
        assert(ra.subrange(16, ra.len() as int) == rb.subrange(16, rb.len() as int));
        lemma_positions_injective(a[k].positions, b[k].positions);
        assert(a.take(i) =~= a.take(k).push(a[k]));
        assert(b.take(i) =~= b.take(k).push(b[k]));
    }
}

/// The encoding determines the posting list: decoding what `encode`
/// produced gives back exactly the postings that were encoded, with their
/// frequencies and positions.
pub proof fn lemma_round_trip(ps: Seq<PostingView>, decoded: Seq<PostingView>)
    requires
        encodable(ps),
        encodable(decoded),
        encoding(decoded) == encoding(ps),
    ensures
        decoded == ps,
{
    lemma_auto_spec_u64_to_from_le_bytes();
    let e = encoding(ps);
    assert(e.subrange(0, 8) =~= spec_u64_to_le_bytes(ps.len() as u64));
    assert(encoding(decoded).subrange(0, 8) =~= spec_u64_to_le_bytes(decoded.len() as u64));
    assert(e.subrange(8, e.len() as int) =~= records_bytes(ps));
    assert(encoding(decoded).subrange(8, e.len() as int) =~= records_bytes(decoded));
    lemma_records_injective_prefix(ps, decoded, ps.len() as int);
    assert(ps.take(ps.len() as int) =~= ps);
    assert(decoded.take(ps.len() as int) =~= decoded);
}

/// A dictionary entry in stored form: the term and its encoded posting list.
#[derive(Debug)]
pub struct EncodedEntry {
    pub term: Vec<u8>,
    pub postings: Vec<u8>,
}

/// Encodes the posting list of every dictionary entry, in dictionary order.
pub fn encode_segment(seg: &Segment) -> (r: Vec<EncodedEntry>)
    requires
        seg.wf(),
    ensures
        r@.len() == seg.dict().len(),
        forall|i: int|
            0 <= i < r@.len() ==> (#[trigger] r@[i]).term@ == seg.dict()[i].0 && r@[i].postings@
                == encoding(seg.dict()[i].1),
{
    let mut out: Vec<EncodedEntry> = Vec::new();
    let mut i: usize = 0;
    while i < seg.entries.len()
        invariant
            i <= seg.entries@.len(),
            seg.wf(),
            out@.len() == i,
            forall|m: int|
                0 <= m < i ==> (#[trigger] out@[m]).term@ == seg.dict()[m].0 && out@[m].postings@
                    == encoding(seg.dict()[m].1),
        decreases seg.entries@.len() - i,
    {
        let e = &seg.entries[i];
        let ghost ps = seg.dict()[i as int].1;
        assert(seg.dict()[i as int] == e@);
        assert(strictly_increasing(ps));
        assert forall|j: int| 0 <= j < ps.len() implies ps[j].positions.len() <= u32::MAX by {
            assert(seg.dict()[i as int].1[j] == ps[j]);
        }
        let n = e.postings.len();
        assert(ps.len() == n);
        assert(ps.len() <= u64::MAX);
        assert(encodable(ps));
        let entry = EncodedEntry { term: copy_text(&e.term), postings: encode(&e.postings) };
        out.push(entry);
        i = i + 1;
    }
    out
}

/// Every posting list of a well-formed segment can be encoded, and decoding
/// its encoding gives back exactly that list, with row ids, frequencies and
/// positions.
pub proof fn lemma_segment_round_trip(seg: Segment, i: int, decoded: Seq<PostingView>)
    requires
        seg.wf(),
        0 <= i < seg.dict().len(),
        encodable(decoded),
        encoding(decoded) == encoding(seg.dict()[i].1),
    ensures
        encodable(seg.dict()[i].1),
        decoded == seg.dict()[i].1,
{
    let ps = seg.dict()[i].1;
    assert(strictly_increasing(ps));
    assert forall|j: int| 0 <= j < ps.len() implies ps[j].positions.len() <= u32::MAX by {
        assert(seg.dict()[i].1[j] == ps[j]);
    }
    lemma_round_trip(ps, decoded);
}

} // verus!
