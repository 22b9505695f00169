//! Detection of group boundaries in key columns.
use vstd::prelude::*;

use crate::chunk::Datum;

verus! {

/// Whether a sequence of row indices is strictly increasing.
pub open spec fn strictly_increasing(s: Seq<usize>) -> bool {
    forall|p: int, q: int| 0 <= p < q < s.len() ==> s[p] < s[q]
}

/// Whether row `i` of `col` starts a new group: its value differs from the
/// row before it, or, for the first row, from the value carried over from the
/// rows before this column (if any row came before).
pub open spec fn changes_at(last: Option<Datum>, col: Seq<Datum>, i: int) -> bool {
    if i == 0 {
        match last {
            Some(v) => v != col[0],
            None => false,
        }
    } else {
        col[i] != col[i - 1]
    }
}

/// The ascending indices of the rows at which a new group starts.
#[derive(Clone, Debug)]
pub struct EqGroups {
    pub indices: Vec<usize>,
}

impl EqGroups {
    pub open spec fn wf(&self) -> bool {
        strictly_increasing(self.indices@)
    }

    /// Boundaries where any of the given lists has one: the union of their
    /// indices, ascending and without repeats.
    pub fn intersect(groups: &Vec<EqGroups>) -> (r: EqGroups)
        requires
            forall|k: int| 0 <= k < groups@.len() ==> #[trigger] groups@[k].wf(),
        ensures
            r.wf(),
            forall|x: usize|
                r.indices@.contains(x) <==> exists|k: int|
                    0 <= k < groups@.len() && #[trigger] groups@[k].indices@.contains(x),
    {
        let mut acc: Vec<usize> = Vec::new();
        let mut k: usize = 0;
        while k < groups.len()
            invariant
                k <= groups@.len(),
                forall|k: int| 0 <= k < groups@.len() ==> #[trigger] groups@[k].wf(),
                strictly_increasing(acc@),
                forall|x: usize|
                    acc@.contains(x) <==> exists|j: int|
                        0 <= j < k && #[trigger] groups@[j].indices@.contains(x),
            decreases groups@.len() - k,
        {
            proof {
                assert(groups@[k as int].wf());
            }
            let next = union_sorted(&acc, &groups[k].indices);
            proof {
                assert forall|x: usize| next@.contains(x) <==> exists|j: int|
                    0 <= j < k + 1 && #[trigger] groups@[j].indices@.contains(x) by {
                    if groups@[k as int].indices@.contains(x) {
                        assert(0 <= k < k + 1);
                    }
                    if exists|j: int| 0 <= j < k + 1 && #[trigger] groups@[j].indices@.contains(x) {
                        let j = choose|j: int| 0 <= j < k + 1 && #[trigger] groups@[j].indices@.contains(x);
                        if j < k {
                            assert(acc@.contains(x));
                        }
                    }
                }
            }
            acc = next;
            k += 1;
        }
        EqGroups { indices: acc }
    }
}

/// The union of two strictly increasing index lists, strictly increasing.
fn union_sorted(a: &Vec<usize>, b: &Vec<usize>) -> (c: Vec<usize>)
    requires
        strictly_increasing(a@),
        strictly_increasing(b@),
    ensures
        strictly_increasing(c@),
        forall|x: usize| c@.contains(x) <==> (a@.contains(x) || b@.contains(x)),
{
    let mut c: Vec<usize> = Vec::new();
    let mut i: usize = 0;
    let mut j: usize = 0;
    while i < a.len() || j < b.len()
        invariant
            strictly_increasing(a@),
            strictly_increasing(b@),
            strictly_increasing(c@),
            i <= a@.len(),
            j <= b@.len(),
            c@.len() > 0 && i < a@.len() ==> c@.last() < a@[i as int],
            c@.len() > 0 && j < b@.len() ==> c@.last() < b@[j as int],
            forall|x: usize|
                c@.contains(x) <==> (a@.subrange(0, i as int).contains(x) || b@.subrange(
                    0,
                    j as int,
                ).contains(x)),
        decreases a@.len() + b@.len() - i - j,
    {
        let ghost old_c = c@;
        let ghost (i0, j0) = (i as int, j as int);
        if j >= b.len() || (i < a.len() && a[i] < b[j]) {
            c.push(a[i]);
            i += 1;
        } else if i >= a.len() || b[j] < a[i] {
            c.push(b[j]);
            j += 1;
        } else {
            c.push(a[i]);
            i += 1;
            j += 1;
        }
        proof {
            assert forall|x: usize| c@.contains(x) <==> (a@.subrange(0, i as int).contains(x)
                || b@.subrange(0, j as int).contains(x)) by {
                if c@.contains(x) {
                    let p = choose|p: int| 0 <= p < c@.len() && c@[p] == x;
                    if p < old_c.len() {
                        assert(old_c.contains(x));
                        if a@.subrange(0, i0).contains(x) {
                            let q = choose|q: int| 0 <= q < i0 && a@.subrange(0, i0)[q] == x;
                            assert(a@.subrange(0, i as int)[q] == x);
                        } else {
                            let q = choose|q: int| 0 <= q < j0 && b@.subrange(0, j0)[q] == x;
                            assert(b@.subrange(0, j as int)[q] == x);
                        }
                    } else if i > i0 {
                        assert(a@.subrange(0, i as int)[i0] == x);
                    } else {
                        assert(b@.subrange(0, j as int)[j0] == x);
                    }
                }
                if a@.subrange(0, i as int).contains(x) {
                    let q = choose|q: int| 0 <= q < i && a@.subrange(0, i as int)[q] == x;
                    if q < i0 {
                        assert(a@.subrange(0, i0)[q] == x);
                        assert(old_c.contains(x));
                        let p = choose|p: int| 0 <= p < old_c.len() && old_c[p] == x;
                        assert(c@[p] == x);
                    } else {
                        assert(c@[old_c.len() as int] == x);
                    }
                }
                if b@.subrange(0, j as int).contains(x) {
                    let q = choose|q: int| 0 <= q < j && b@.subrange(0, j as int)[q] == x;
                    if q < j0 {
                        assert(b@.subrange(0, j0)[q] == x);
                        assert(old_c.contains(x));
                        let p = choose|p: int| 0 <= p < old_c.len() && old_c[p] == x;
                        assert(c@[p] == x);
                    } else {
                        assert(c@[old_c.len() as int] == x);
                    }
                }
            }
        }
    }
    proof {
        assert(a@.subrange(0, i as int) =~= a@);
        assert(b@.subrange(0, j as int) =~= b@);
    }
    c
}

/// Tracks the last key value of one key column seen so far.
#[derive(Clone, Debug)]
pub struct SortedGrouper {
    /// The value of the last row consumed; `None` before any row.
    pub last: Option<Datum>,
}

impl SortedGrouper {
    /// A grouper that has seen no row.
    pub fn new() -> (r: SortedGrouper)
        ensures
            r.last is None,
    {
        SortedGrouper { last: None }
    }

    /// The rows of `column` at which a new group starts.
    pub fn detect_groups(&self, column: &Vec<Datum>) -> (r: EqGroups)
        ensures
            r.wf(),
            forall|x: usize| #[trigger]
                r.indices@.contains(x) <==> (x < column@.len() && changes_at(
                    self.last,
                    column@,
                    x as int,
                )),
    {
        let mut indices: Vec<usize> = Vec::new();
        let mut i: usize = 0;
        while i < column.len()
            invariant
                i <= column@.len(),
                strictly_increasing(indices@),
                indices@.len() > 0 ==> indices@.last() < i,
                forall|x: usize| #[trigger]
                    indices@.contains(x) <==> (x < i && changes_at(self.last, column@, x as int)),
            decreases column@.len() - i,
        {
            let change = if i == 0 {
                match &self.last {
                    Some(v) => *v != column[0],
                    None => false,
                }
            } else {
                column[i] != column[i - 1]
            };
            let ghost old_idx = indices@;
            if change {
                indices.push(i);
            }
            proof {
                assert forall|x: usize| #[trigger]
                    indices@.contains(x) <==> (x < i + 1 && changes_at(self.last, column@, x as int)) by {
                    if change && x == i {
                        assert(indices@[old_idx.len() as int] == x);
                    }
                    if indices@.contains(x) {
                        let p = choose|p: int| 0 <= p < indices@.len() && indices@[p] == x;
                        if p < old_idx.len() {
                            assert(old_idx.contains(x));
                        }
                    }
                    if x < i && changes_at(self.last, column@, x as int) {
                        assert(old_idx.contains(x));
                        let p = choose|p: int| 0 <= p < old_idx.len() && old_idx[p] == x;
                        assert(indices@[p] == x);
                    }
                }
            }
            i += 1;
        }
        EqGroups { indices }
    }

    /// Consumes rows `start..end` of `column`: the last of them becomes the carried value.
    pub fn update(&mut self, column: &Vec<Datum>, start: usize, end: usize)
        requires
            start < end <= column@.len(),
        ensures
            final(self).last == Some(column@[end - 1]),
    {
        self.last = Some(column[end - 1]);
    }

    /// Appends the carried key value to `builder` (NULL if no row was consumed).
    pub fn output(&self, builder: &mut Vec<Datum>)
        ensures
            final(builder)@ == old(builder)@.push(
                match self.last {
                    Some(v) => v,
                    None => None,
                },
            ),
    {
        let v = match self.last {
            Some(v) => v,
            None => None,
        };
        builder.push(v);
    }
}

} // verus!
