//! Columnar chunks of rows, with a visibility mask.
use vstd::prelude::*;

verus! {

/// One value of a column: `None` is SQL NULL.
pub type Datum = Option<i64>;

/// The indices `i` with `vis[i]`, ascending.
pub open spec fn visible_indices(vis: Seq<bool>) -> Seq<int>
    decreases vis.len(),
{
    if vis.len() == 0 {
        Seq::empty()
    } else {
        let prev = visible_indices(vis.drop_last());
        if vis.last() {
            prev.push(vis.len() - 1)
        } else {
            prev
        }
    }
}

/// Every index listed by `visible_indices` is in range, and the list is strictly increasing.
pub proof fn lemma_visible_indices_bounds(vis: Seq<bool>)
    ensures
        visible_indices(vis).len() <= vis.len(),
        forall|k: int|
            0 <= k < visible_indices(vis).len() ==> 0 <= #[trigger] visible_indices(vis)[k]
                < vis.len() && vis[visible_indices(vis)[k]],
    decreases vis.len(),
{
    if vis.len() > 0 {
        lemma_visible_indices_bounds(vis.drop_last());
    }
}

/// With every row visible, the visible indices are `0..n`.
pub proof fn lemma_all_visible(vis: Seq<bool>)
    requires
        forall|i: int| 0 <= i < vis.len() ==> vis[i],
    ensures
        visible_indices(vis) =~= Seq::new(vis.len(), |i: int| i),
    decreases vis.len(),
{
    if vis.len() > 0 {
        lemma_all_visible(vis.drop_last());
    }
}

/// A batch of rows stored column by column. A row is visible when its flag in
/// `visibility` is set; the others have been filtered out.
#[derive(Clone, Debug)]
pub struct DataChunk {
    pub columns: Vec<Vec<Datum>>,
    pub visibility: Vec<bool>,
}

impl DataChunk {
    /// Every column has one value per row slot.
    pub open spec fn wf(&self) -> bool {
        forall|c: int|
            0 <= c < self.columns@.len() ==> #[trigger] self.columns@[c]@.len()
                == self.visibility@.len()
    }

    pub open spec fn width(&self) -> nat {
        self.columns@.len()
    }

    /// The values of row slot `r`, one per column.
    pub open spec fn row(&self, r: int) -> Seq<Datum> {
        Seq::new(self.columns@.len(), |c: int| self.columns@[c]@[r])
    }

    /// Every row slot, visible or not.
    pub open spec fn rows(&self) -> Seq<Seq<Datum>> {
        Seq::new(self.visibility@.len(), |r: int| self.row(r))
    }

    /// The visible rows, in order.
    pub open spec fn visible_rows(&self) -> Seq<Seq<Datum>> {
        visible_indices(self.visibility@).map_values(|r: int| self.row(r))
    }

    pub open spec fn all_visible(&self) -> bool {
        forall|i: int| 0 <= i < self.visibility@.len() ==> #[trigger] self.visibility@[i]
    }

    /// A chunk whose `cardinality` rows are all visible.
    pub fn new(columns: Vec<Vec<Datum>>, cardinality: usize) -> (r: DataChunk)
        requires
            forall|c: int| 0 <= c < columns@.len() ==> #[trigger] columns@[c]@.len() == cardinality,
        ensures
            r.wf(),
            r.all_visible(),
            r.columns@ == columns@,
            r.visibility@.len() == cardinality,
            r.visible_rows() == r.rows(),
    {
        let mut visibility: Vec<bool> = Vec::new();
        let mut i: usize = 0;
        while i < cardinality
            invariant
                i <= cardinality,
                visibility@.len() == i,
                forall|k: int| 0 <= k < i ==> #[trigger] visibility@[k],
            decreases cardinality - i,
        {
            visibility.push(true);
            i += 1;
        }
        let r = DataChunk { columns, visibility };
        proof {
            lemma_all_visible(r.visibility@);
            assert(r.visible_rows() =~= r.rows());
        }
        r
    }

    /// A chunk with an explicit visibility mask.
    pub fn with_visibility(columns: Vec<Vec<Datum>>, visibility: Vec<bool>) -> (r: DataChunk)
        requires
            forall|c: int|
                0 <= c < columns@.len() ==> #[trigger] columns@[c]@.len() == visibility@.len(),
        ensures
            r.wf(),
            r.columns@ == columns@,
            r.visibility@ == visibility@,
    {
        DataChunk { columns, visibility }
    }

    /// The number of visible rows.
    pub fn cardinality(&self) -> (r: usize)
        ensures
            r == visible_indices(self.visibility@).len(),
    {
        let mut n: usize = 0;
        let mut i: usize = 0;
        while i < self.visibility.len()
            invariant
                i <= self.visibility@.len(),
                n == visible_indices(self.visibility@.take(i as int)).len(),
                n <= i,
            decreases self.visibility@.len() - i,
        {
            proof {
                assert(self.visibility@.take(i + 1).drop_last() =~= self.visibility@.take(i as int));
            }
            if self.visibility[i] {
                n += 1;
            }
            i += 1;
        }
        proof {
            assert(self.visibility@.take(i as int) =~= self.visibility@);
        }
        n
    }

    /// The column at `idx`.
    pub fn column_at(&self, idx: usize) -> (r: &Vec<Datum>)
        requires
            idx < self.columns@.len(),
        ensures
            *r == self.columns@[idx as int],
    {
        &self.columns[idx]
    }

    /// A chunk holding only the visible rows, all of them visible.
    pub fn compact(&self) -> (r: DataChunk)
        requires
            self.wf(),
        ensures
            r.wf(),
            r.all_visible(),
            r.width() == self.width(),
            r.rows() == self.visible_rows(),
            r.visible_rows() == r.rows(),
    {
        let vis_idx = Ghost(visible_indices(self.visibility@));
        proof {
            lemma_visible_indices_bounds(self.visibility@);
        }
        let mut columns: Vec<Vec<Datum>> = Vec::new();
        let mut c: usize = 0;
        while c < self.columns.len()
            invariant
                self.wf(),
                c <= self.columns@.len(),
                columns@.len() == c,
                vis_idx@ == visible_indices(self.visibility@),
                forall|k: int|
                    0 <= k < c ==> #[trigger] columns@[k]@ == vis_idx@.map_values(
                        |i: int| self.columns@[k]@[i],
                    ),
            decreases self.columns@.len() - c,
        {
            let col = filter_column(&self.columns[c], &self.visibility);
            columns.push(col);
            c += 1;
        }
        let mut visibility: Vec<bool> = Vec::new();
        let mut i: usize = 0;
        let n = self.cardinality();
        while i < n
            invariant
                i <= n,
                visibility@.len() == i,
                forall|k: int| 0 <= k < i ==> #[trigger] visibility@[k],
            decreases n - i,
        {
            visibility.push(true);
            i += 1;
        }
        let r = DataChunk { columns, visibility };
        proof {
            lemma_all_visible(r.visibility@);
            assert(r.visible_rows() =~= r.rows());
            assert forall|k: int| 0 <= k < r.rows().len() implies r.rows()[k]
                == self.visible_rows()[k] by {
                assert(r.row(k) =~= self.row(vis_idx@[k]));
            }
            assert(r.rows() =~= self.visible_rows());
        }
        r
    }
}

/// The values of `col` at the visible indices of `vis`.
fn filter_column(col: &Vec<Datum>, vis: &Vec<bool>) -> (r: Vec<Datum>)
    requires
        col@.len() == vis@.len(),
    ensures
        r@ == visible_indices(vis@).map_values(|i: int| col@[i]),
{
    let mut out: Vec<Datum> = Vec::new();
    let mut i: usize = 0;
    while i < vis.len()
        invariant
            col@.len() == vis@.len(),
            i <= vis@.len(),
            out@ == visible_indices(vis@.take(i as int)).map_values(|k: int| col@[k]),
        decreases vis@.len() - i,
    {
        proof {
            assert(vis@.take(i + 1).drop_last() =~= vis@.take(i as int));
        }
        if vis[i] {
            out.push(col[i]);
        }
        proof {
            assert(out@ =~= visible_indices(vis@.take(i + 1)).map_values(|k: int| col@[k]));
        }
        i += 1;
    }
    proof {
        assert(vis@.take(i as int) =~= vis@);
    }
    out
}

} // verus!
