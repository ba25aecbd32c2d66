//! Which parts of a buffer may be written at the same time.
use vstd::prelude::*;

verus! {

/// A range of a buffer.
#[derive(Clone, Copy, Debug, PartialEq, Eq, Structural)]
pub struct Span {
    pub start: usize,
    pub end: usize,
}

impl Span {
    /// Two ranges share an element.
    pub open spec fn meets(self, other: Span) -> bool {
        self.start < other.end && other.start < self.end
    }

    /// Element `i` belongs to the range.
    pub open spec fn holds(self, i: int) -> bool {
        self.start <= i < self.end
    }
}

/// Answer to a request for a range.
#[derive(Clone, Copy, Debug, PartialEq, Eq, Structural)]
pub enum Grant {
    Granted,
    OutOfBounds,
    /// The range shares elements with one that is in use.
    Conflict(Span),
}

/// The ranges of a buffer that are in use.
#[derive(Debug)]
pub struct BorrowTable {
    pub len: usize,
    pub live: Vec<Span>,
}

/// Number of the first range in use, from `k` on, that shares elements with `span`.
pub open spec fn first_conflict(live: Seq<Span>, span: Span, k: int) -> Option<int>
    decreases live.len() - k,
{
    if k >= live.len() {
        None
    } else if span.meets(live[k]) {
        Some(k)
    } else {
        first_conflict(live, span, k + 1)
    }
}

/// Number of the first range in use, from `k` on, that equals `span`.
pub open spec fn first_equal(live: Seq<Span>, span: Span, k: int) -> Option<int>
    decreases live.len() - k,
{
    if k >= live.len() {
        None
    } else if live[k] == span {
        Some(k)
    } else {
        first_equal(live, span, k + 1)
    }
}

impl BorrowTable {
    /// All ranges in use lie in the buffer, and no two of them share an element.
    pub open spec fn wf(self) -> bool {
        &&& forall|i: int|
            0 <= i < self.live@.len() ==> (#[trigger] self.live@[i]).start <= self.live@[i].end
                <= self.len
        &&& forall|i: int, j: int|
            0 <= i < self.live@.len() && 0 <= j < self.live@.len() && i != j
                ==> !(#[trigger] self.live@[i]).meets(#[trigger] self.live@[j])
    }

    /// A buffer of which nothing is in use.
    pub fn new(len: usize) -> (r: Self)
        ensures
            r.wf(),
            r.len == len,
            r.live@ == Seq::<Span>::empty(),
    {
        BorrowTable { len, live: Vec::new() }
    }

    /// The answer to a request.
    pub open spec fn answer(self, span: Span) -> Grant {
        if span.end > self.len || span.start > span.end {
            Grant::OutOfBounds
        } else {
            match first_conflict(self.live@, span, 0) {
                Some(k) => Grant::Conflict(self.live@[k]),
                None => Grant::Granted,
            }
        }
    }

    /// Requests a range for writing.
    pub fn request(&mut self, span: Span) -> (r: Grant)
        requires
            old(self).wf(),
        ensures
            final(self).wf(),
            r == old(self).answer(span),
            final(self).len == old(self).len,
            final(self).live@ == if r is Granted {
                old(self).live@.push(span)
            } else {
                old(self).live@
            },
    {
        if span.end > self.len || span.start > span.end {
            return Grant::OutOfBounds;
        }
        let mut k: usize = 0;
        while k < self.live.len()
            invariant
                *self == *old(self),
                self.wf(),
                span.start <= span.end <= self.len,
                k <= self.live@.len(),
                first_conflict(self.live@, span, 0) == first_conflict(self.live@, span, k as int),
                forall|i: int| 0 <= i < k ==> !span.meets(#[trigger] self.live@[i]),
            decreases self.live@.len() - k,
        {
            let other: Span = self.live[k];
            if span.start < other.end && other.start < span.end {
                return Grant::Conflict(other);
            }
            k = k + 1;
        }
        self.live.push(span);
        Grant::Granted
    }

    /// Returns a range. A range that is not in use changes nothing.
    pub fn release(&mut self, span: Span)
        requires
            old(self).wf(),
        ensures
            final(self).wf(),
            final(self).len == old(self).len,
            match first_equal(old(self).live@, span, 0) {
                Some(k) => final(self).live@ == old(self).live@.update(
                    k,
                    old(self).live@.last(),
                ).drop_last(),
                None => final(self).live@ == old(self).live@,
            },
    {
        let mut k: usize = 0;
        while k < self.live.len()
            invariant
                *self == *old(self),
                self.wf(),
                k <= self.live@.len(),
                first_equal(self.live@, span, 0) == first_equal(self.live@, span, k as int),
            decreases self.live@.len() - k,
        {
            if self.live[k] == span {
                let ghost before = self.live@;
                self.live.swap_remove(k);
                assert(self.live@ =~= before.update(k as int, before.last()).drop_last());
                return;
            }
            k = k + 1;
        }
    }
}

/// No element of a buffer belongs to two ranges in use.
pub proof fn no_element_is_shared(t: BorrowTable, i: int, j: int, e: int)
    requires
        t.wf(),
        0 <= i < t.live@.len(),
        0 <= j < t.live@.len(),
        t.live@[i].holds(e),
        t.live@[j].holds(e),
    ensures
        i == j,
{
    if i != j {
        assert(!t.live@[i].meets(t.live@[j]));
    }
}

/// A range in bounds is granted if and only if it shares no element with a range in use.
pub proof fn grants_exactly_the_disjoint(t: BorrowTable, span: Span)
    requires
        t.wf(),
        span.start <= span.end <= t.len,
    ensures
        t.answer(span) is Granted <==> forall|i: int|
            0 <= i < t.live@.len() ==> !span.meets(#[trigger] t.live@[i]),
{
    lemma_first_conflict(t.live@, span, 0);
}

proof fn lemma_first_conflict(live: Seq<Span>, span: Span, k: int)
    requires
        0 <= k,
    ensures
        first_conflict(live, span, k) is None <==> forall|i: int|
            k <= i < live.len() ==> !span.meets(#[trigger] live[i]),
    decreases live.len() - k,
{
    if k < live.len() {
        lemma_first_conflict(live, span, k + 1);
    }
}

/// A range is refused for the first one in use that shares an element with it, and one that leaves
/// the buffer is refused in any case.
pub proof fn refusals_name_the_first_conflict(t: BorrowTable, span: Span, k: int)
    requires
        0 <= k < t.live@.len(),
        span.start <= span.end <= t.len,
        span.meets(t.live@[k]),
        forall|i: int| 0 <= i < k ==> !span.meets(#[trigger] t.live@[i]),
    ensures
        t.answer(span) == Grant::Conflict(t.live@[k]),
{
    lemma_first_meeting(t.live@, span, 0, k);
}

proof fn lemma_first_meeting(live: Seq<Span>, span: Span, j: int, k: int)
    requires
        0 <= j <= k < live.len(),
        span.meets(live[k]),
        forall|i: int| 0 <= i < k ==> !span.meets(#[trigger] live[i]),
    ensures
        first_conflict(live, span, j) == Some(k),
    decreases k - j,
{
    if j < k {
        assert(!span.meets(live[j]));
        lemma_first_meeting(live, span, j + 1, k);
    }
}

/// Ranges meet if they are not empty and some element lies in both, or if one that is empty lies
/// strictly inside the other.
pub proof fn meeting_ranges_share_elements(a: Span, b: Span, e: int)
    requires
        a.start <= a.end,
        b.start <= b.end,
    ensures
        a.holds(e) && b.holds(e) ==> a.meets(b),
        a.start < a.end && b.start < b.end && a.meets(b) ==> exists|i: int|
            a.holds(i) && #[trigger] b.holds(i),
        a.meets(b) == b.meets(a),
        a.holds(e) <==> a.start <= e < a.end,
{
    if a.start < a.end && b.start < b.end && a.meets(b) {
        let i = if a.start < b.start {
            b.start as int
        } else {
            a.start as int
        };
        assert(a.holds(i) && b.holds(i));
    }
}

/// A range that is not in the buffer is out of bounds.
pub proof fn ranges_outside_are_refused(t: BorrowTable, span: Span)
    ensures
        t.answer(span) is OutOfBounds <==> span.end > t.len || span.start > span.end,
{
}

/// A range that comes back is the first equal one in use.
pub proof fn the_first_equal_range_comes_back(live: Seq<Span>, span: Span, j: int, k: int)
    requires
        0 <= j <= k <= live.len(),
        k < live.len() ==> live[k] == span,
        forall|i: int| 0 <= i < k ==> #[trigger] live[i] != span,
    ensures
        first_equal(live, span, j) == if k < live.len() {
            Some(k)
        } else {
            None
        },
    decreases k - j,
{
    if j < k {
        assert(live[j] != span);
        the_first_equal_range_comes_back(live, span, j + 1, k);
    }
}

} // verus!
