//! Point simplification for the Pencil tool (Ramer-Douglas-Peucker), as a
//! small state machine: which stretch of the stroke to examine next, and
//! what to keep once the point farthest from a stretch's chord is known.
//! Measuring distances is the application's part; it asks `next_range`,
//! measures, and answers with `split`.

use vstd::prelude::*;

verus! {

/// The indices below `m` that `keep` marks, in increasing order.
pub open spec fn marked_below(keep: Seq<bool>, m: int) -> Seq<usize>
    decreases m,
{
    if m <= 0 {
        Seq::empty()
    } else if keep[m - 1] {
        marked_below(keep, m - 1).push((m - 1) as usize)
    } else {
        marked_below(keep, m - 1)
    }
}

/// The work still to do: each pending stretch `(start, end)` lies inside
/// the stroke, and stretches never shrink below a point apart.
pub struct Simplifier {
    keep: Vec<bool>,
    pending: Vec<(usize, usize)>,
}

impl View for Simplifier {
    type V = (Seq<bool>, Seq<(usize, usize)>);

    closed spec fn view(&self) -> (Seq<bool>, Seq<(usize, usize)>) {
        (self.keep@, self.pending@)
    }
}

impl Simplifier {
    /// Which points are kept so far.
    pub open spec fn kept(&self) -> Seq<bool> {
        self@.0
    }

    /// The stretches still to examine, the next one last.
    pub open spec fn pending(&self) -> Seq<(usize, usize)> {
        self@.1
    }

    /// The first and the last point are always kept, and every pending
    /// stretch lies inside the stroke.
    pub open spec fn well_formed(&self) -> bool {
        let n = self.kept().len();
        &&& n > 0 ==> self.kept()[0] && self.kept()[n - 1]
        &&& forall|k: int| 0 <= k < self.pending().len() ==> (#[trigger] self.pending()[k]).0 < self.pending()[k].1 < n
    }

    /// Starts on a stroke of `count` points. Strokes of fewer than three
    /// points are kept whole; otherwise only the two ends are kept so far
    /// and the whole stroke is the stretch to examine.
    pub fn new(count: usize) -> (s: Self)
        ensures
            s.well_formed(),
            s.kept().len() == count,
            count < 3 ==> s.pending().len() == 0 && forall|i: int| 0 <= i < count ==> #[trigger] s.kept()[i],
            count >= 3 ==> {
                &&& s.pending() == seq![(0usize, (count - 1) as usize)]
                &&& forall|i: int| 0 <= i < count ==> #[trigger] s.kept()[i] == (i == 0 || i == count - 1)
            },
    {
        let mut keep: Vec<bool> = Vec::new();
        for i in 0..count
            invariant
                keep@.len() == i,
                forall|j: int| 0 <= j < i ==> #[trigger] keep@[j] == (count < 3 || j == 0 || j == count - 1),
        {
            keep.push(count < 3 || i == 0 || i == count - 1);
        }
        let mut pending: Vec<(usize, usize)> = Vec::new();
        if count >= 3 {
            pending.push((0, count - 1));
        }
        Simplifier { keep, pending }
    }

    /// The next stretch with points strictly inside it, dropping the ones
    /// without; `None` once nothing is left to examine.
    pub fn next_range(&mut self) -> (range: Option<(usize, usize)>)
        requires
            old(self).well_formed(),
        ensures
            final(self).well_formed(),
            final(self).kept() == old(self).kept(),
            match range {
                Some((start, end)) => {
                    &&& start + 1 < end < final(self).kept().len()
                    &&& exists|j: int|
                        0 <= j < old(self).pending().len() && #[trigger] old(self).pending()[j] == (start, end)
                            && final(self).pending() == old(self).pending().take(j) && forall|k: int|
                            j < k < old(self).pending().len() ==> #[trigger] old(self).pending()[k].0 + 1 >= old(self).pending()[k].1
                },
                None => {
                    &&& final(self).pending().len() == 0
                    &&& forall|k: int|
                        0 <= k < old(self).pending().len() ==> #[trigger] old(self).pending()[k].0 + 1 >= old(self).pending()[k].1
                },
            },
            final(self).pending().len() <= old(self).pending().len(),
    {
        loop
            invariant
                self.well_formed(),
                self.kept() == old(self).kept(),
                self.pending().len() <= old(self).pending().len(),
                self.pending() == old(self).pending().take(self.pending().len() as int),
                forall|k: int|
                    self.pending().len() <= k < old(self).pending().len() ==> #[trigger] old(self).pending()[k].0 + 1
                        >= old(self).pending()[k].1,
            decreases self.pending().len(),
        {
            let ghost m = self.pending().len() as int;
            match self.pending.pop() {
                None => {
                    return None;
                },
                Some((start, end)) => {
                    assert(old(self).pending()[m - 1] == (start, end));
                    assert(self.pending() =~= old(self).pending().take(m - 1));
                    if start + 1 < end {
                        assert(old(self).pending()[m - 1] == (start, end));
                        return Some((start, end));
                    }
                },
            }
        }
    }

    /// Records what measuring `range` found: `Some(i)` when the point `i`,
    /// the farthest from the chord, lies beyond the tolerance, so it is kept
    /// and the stretches on either side of it are examined next; `None` when
    /// every point of the stretch lies within it.
    pub fn split(&mut self, range: (usize, usize), farthest: Option<usize>)
        requires
            old(self).well_formed(),
            range.1 < old(self).kept().len(),
            farthest matches Some(i) ==> range.0 < i < range.1,
        ensures
            final(self).well_formed(),
            match farthest {
                Some(i) => {
                    &&& final(self).kept() == old(self).kept().update(i as int, true)
                    &&& final(self).pending() == old(self).pending().push((range.0, i)).push((i, range.1))
                },
                None => final(self)@ == old(self)@,
            },
    {
        if let Some(i) = farthest {
            self.keep.set(i, true);
            self.pending.push((range.0, i));
            self.pending.push((i, range.1));
            assert forall|k: int| 0 <= k < self.pending().len() implies (#[trigger] self.pending()[k]).0 < self.pending()[k].1 < self.kept().len() by {
                if k < old(self).pending().len() {
                    assert(self.pending()[k] == old(self).pending()[k]);
                }
            }
        }
    }

    /// The indices of the kept points, in increasing order.
    pub fn kept_indices(&self) -> (indices: Vec<usize>)
        ensures
            indices@ == marked_below(self.kept(), self.kept().len() as int),
    {
        let mut indices: Vec<usize> = Vec::new();
        for i in 0..self.keep.len()
            invariant
                indices@ == marked_below(self.kept(), i as int),
        {
            if self.keep[i] {
                indices.push(i);
            }
        }
        indices
    }
}

/// The marked indices increase, and every one of them is marked.
pub proof fn lemma_marked_below(keep: Seq<bool>, m: int)
    requires
        0 <= m <= keep.len(),
        keep.len() <= usize::MAX,
    ensures
        forall|a: int, b: int| 0 <= a < b < marked_below(keep, m).len() ==> marked_below(keep, m)[a] < marked_below(keep, m)[b],
        forall|a: int| 0 <= a < marked_below(keep, m).len() ==> #[trigger] marked_below(keep, m)[a] < m && keep[marked_below(keep, m)[a] as int],
        forall|i: int| 0 <= i < m && keep[i] ==> marked_below(keep, m).contains(i as usize),
    decreases m,
{
    if m > 0 {
        lemma_marked_below(keep, m - 1);
        let prev = marked_below(keep, m - 1);
        if keep[m - 1] {
            let cur = prev.push((m - 1) as usize);
            assert forall|a: int| 0 <= a < cur.len() implies #[trigger] cur[a] < m && keep[cur[a] as int] by {
                if a < prev.len() {
                    assert(cur[a] == prev[a]);
                }
            }
            assert forall|a: int, b: int| 0 <= a < b < cur.len() implies cur[a] < cur[b] by {
                if b < prev.len() {
                    assert(cur[a] == prev[a] && cur[b] == prev[b]);
                } else {
                    assert(cur[a] == prev[a]);
                }
            }
            assert forall|i: int| 0 <= i < m && keep[i] implies cur.contains(i as usize) by {
                if i < m - 1 {
                    let k = choose|k: int| 0 <= k < prev.len() && prev[k] == i as usize;
                    assert(cur[k] == i as usize);
                } else {
                    assert(cur[prev.len() as int] == i as usize);
                }
            }
        }
    }
}

/// Simplification always keeps the stroke's two ends: whatever the
/// measurements answered, the first and the last point are among the kept
/// indices.
pub proof fn lemma_ends_kept(s: Simplifier)
    requires
        s.well_formed(),
        s.kept().len() > 0,
        s.kept().len() <= usize::MAX,
    ensures
        marked_below(s.kept(), s.kept().len() as int).contains(0usize),
        marked_below(s.kept(), s.kept().len() as int).contains((s.kept().len() - 1) as usize),
{
    lemma_marked_below(s.kept(), s.kept().len() as int);
}

} // verus!
