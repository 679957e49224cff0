use vstd::prelude::*;
use crate::posting::{Posting, PostingView, postings_view, strictly_increasing};

verus! {

/// A forward cursor over one posting list.
pub struct PostingIterator {
    postings: Vec<Posting>,
    pos: usize,
}

impl PostingIterator {
    pub closed spec fn list(&self) -> Seq<PostingView> {
        postings_view(self.postings@)
    }

    pub closed spec fn position(&self) -> int {
        self.pos as int
    }

    pub open spec fn wf(&self) -> bool {
        &&& 0 <= self.position() <= self.list().len()
        &&& strictly_increasing(self.list())
    }

    /// A cursor at the first posting of a strictly increasing list.
    pub fn new(postings: Vec<Posting>) -> (r: PostingIterator)
        requires
            strictly_increasing(postings_view(postings@)),
        ensures
            r.wf(),
            r.list() == postings_view(postings@),
            r.position() == 0,
    {
        PostingIterator { postings, pos: 0 }
    }

    /// Whether every posting has been passed.
    pub fn is_exhausted(&self) -> (r: bool)
        requires
            self.wf(),
        ensures
            r == (self.position() == self.list().len()),
    {
        self.pos >= self.postings.len()
    }

    /// The posting under the cursor, if any.
    pub fn current(&self) -> (r: Option<&Posting>)
        requires
            self.wf(),
        ensures
            match r {
                Some(p) => self.position() < self.list().len() && p@ == self.list()[self.position()],
                None => self.position() == self.list().len(),
            },
    {
        if self.pos < self.postings.len() {
            Some(&self.postings[self.pos])
        } else {
            None
        }
    }

    /// Moves to the next posting; an exhausted cursor stays exhausted.
    pub fn advance(&mut self)
        requires
            old(self).wf(),
        ensures
            final(self).wf(),
            final(self).list() == old(self).list(),
            final(self).position() == if old(self).position() < old(self).list().len() {
                old(self).position() + 1
            } else {
                old(self).position()
            },
    {
        if self.pos < self.postings.len() {
            self.pos = self.pos + 1;
        }
    }

    /// Moves forward to the first posting whose row id is at least `target`,
    /// or to the end. Never moves backward; finds the place by bisection
    /// rather than by stepping over each posting.
    pub fn seek(&mut self, target: u64)
        requires
            old(self).wf(),
        ensures
            final(self).wf(),
            final(self).list() == old(self).list(),
            old(self).position() <= final(self).position(),
            forall|i: int|
                old(self).position() <= i < final(self).position() ==> (#[trigger] final(self).list()[i]).row_id
                    < target,
            final(self).position() < final(self).list().len() ==> final(self).list()[final(self).position()].row_id
                >= target,
    {
        let ghost v = self.list();
        let mut lo: usize = self.pos;
        let mut hi: usize = self.postings.len();
        while lo < hi
            invariant
                self.wf(),
                v == self.list(),
                old(self).position() <= lo <= hi <= v.len(),
                self.pos == old(self).pos,
                forall|i: int| old(self).position() <= i < lo ==> v[i].row_id < target,
                hi < v.len() ==> v[hi as int].row_id >= target,
            decreases hi - lo,
        {
            let mid = lo + (hi - lo) / 2;
            assert(v[mid as int] == self.postings@[mid as int]@);
            if self.postings[mid].row_id < target {
                assert forall|i: int| old(self).position() <= i < mid + 1 implies v[i].row_id < target by {
                    if i < mid {
                        assert(v[i].row_id < v[mid as int].row_id);
                    }
                }
                lo = mid + 1;
            } else {
                hi = mid;
            }
        }
        self.pos = lo;
    }
}

} // verus!
