use vstd::prelude::*;

verus! {

/// The mathematical content of one posting.
pub struct PostingView {
    pub row_id: u64,
    pub freq: u32,
    pub positions: Seq<u32>,
}

/// One term's occurrence record in one row.
#[derive(Debug)]
pub struct Posting {
    pub row_id: u64,
    pub freq: u32,
    pub positions: Vec<u32>,
}

impl View for Posting {
    type V = PostingView;

    open spec fn view(&self) -> PostingView {
        PostingView { row_id: self.row_id, freq: self.freq, positions: self.positions@ }
    }
}

/// The view of a sequence of postings.
pub open spec fn postings_view(ps: Seq<Posting>) -> Seq<PostingView> {
    ps.map_values(|p: Posting| p@)
}

/// Row ids strictly increase along the list: no duplicates, no inversions.
pub open spec fn strictly_increasing(ps: Seq<PostingView>) -> bool {
    forall|i: int, j: int| 0 <= i < j < ps.len() ==> ps[i].row_id < ps[j].row_id
}

impl Posting {
    pub fn new(row_id: u64, freq: u32, positions: Vec<u32>) -> (r: Posting)
        ensures
            r@ == (PostingView { row_id, freq, positions: positions@ }),
    {
        Posting { row_id, freq, positions }
    }

    /// A deep copy of this posting.
    pub fn copy(&self) -> (r: Posting)
        ensures
            r@ == self@,
    {
        Posting { row_id: self.row_id, freq: self.freq, positions: copy_u32s(&self.positions) }
    }
}

/// A copy of a vector of integers.
pub fn copy_u32s(v: &Vec<u32>) -> (r: Vec<u32>)
    ensures
        r@ == v@,
{
    let mut r: Vec<u32> = Vec::new();
    let mut i: usize = 0;
    while i < v.len()
        invariant
            i <= v@.len(),
            r@ == v@.subrange(0, i as int),
        decreases v@.len() - i,
    {
        r.push(v[i]);
        i = i + 1;
    }
    assert(r@ =~= v@);
    r
}

/// A deep copy of a posting list.
pub fn copy_postings(v: &Vec<Posting>) -> (r: Vec<Posting>)
    ensures
        postings_view(r@) == postings_view(v@),
{
    let mut r: Vec<Posting> = Vec::new();
    let mut i: usize = 0;
    while i < v.len()
        invariant
            i <= v@.len(),
            postings_view(r@) == postings_view(v@).subrange(0, i as int),
        decreases v@.len() - i,
    {
        let p = v[i].copy();
        let ghost old_r = r@;
        r.push(p);
        assert(r@ == old_r.push(p));
        assert(postings_view(r@) =~= postings_view(old_r).push(p@));
        i = i + 1;
        assert(postings_view(r@) =~= postings_view(v@).subrange(0, i as int));
    }
    assert(postings_view(r@) =~= postings_view(v@));
    r
}

/// Whether the row ids of a posting list strictly increase.
pub fn is_strictly_increasing(ps: &Vec<Posting>) -> (r: bool)
    ensures
        r == strictly_increasing(postings_view(ps@)),
{
    let ghost v = postings_view(ps@);
    let mut i: usize = 1;
    if ps.len() == 0 {
        return true;
    }
    while i < ps.len()
        invariant
            1 <= i <= ps@.len(),
            v == postings_view(ps@),
            forall|a: int, b: int| 0 <= a < b < i ==> v[a].row_id < v[b].row_id,
        decreases ps@.len() - i,
    {
        if ps[i - 1].row_id >= ps[i].row_id {
            assert(v[i - 1].row_id >= v[i as int].row_id);
            return false;
        }
        assert forall|a: int, b: int| 0 <= a < b < i + 1 implies v[a].row_id < v[b].row_id by {
            if b == i && a < i - 1 {
                assert(v[a].row_id < v[i - 1].row_id);
            }
        }
        i = i + 1;
    }
    true
}

} // verus!
