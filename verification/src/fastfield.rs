//! Fast fields: columnar per-doc values. Single-valued columns hold one
//! `u64` per doc (the order-preserving mapping of the field's value, or
//! zero when absent); multi-valued columns (facets) hold one row of
//! unordered term ids per doc, remapped to ordered ids at serialize time.

use vstd::prelude::*;
use crate::postings::vint_spec;
use crate::postings::write_vint;

verus! {

/// The variable-byte stream of a single-valued column.
pub open spec fn sv_bytes(vals: Seq<u64>) -> Seq<u8>
    decreases vals.len(),
{
    if vals.len() == 0 {
        Seq::empty()
    } else {
        sv_bytes(vals.drop_last()) + vint_spec(vals.last() as nat)
    }
}

/// The remapped ids of one row, each variable-byte coded.
pub open spec fn mv_ids_bytes(row: Seq<u32>, remap: Seq<u32>) -> Seq<u8>
    decreases row.len(),
{
    if row.len() == 0 {
        Seq::empty()
    } else {
        mv_ids_bytes(row.drop_last(), remap) + vint_spec(remap[row.last() as int] as nat)
    }
}

/// One remapped multi-value row: its length, then each id sent through the
/// unordered-to-ordered remap.
pub open spec fn mv_row_bytes(row: Seq<u32>, remap: Seq<u32>) -> Seq<u8> {
    vint_spec(row.len() as nat) + mv_ids_bytes(row, remap)
}

/// A single-valued column: field id, doc count, then the values.
pub open spec fn sv_block_bytes(field: u32, vals: Seq<u64>) -> Seq<u8> {
    vint_spec(field as nat) + vint_spec(vals.len() as nat) + sv_bytes(vals)
}

/// The rows of a multi-valued column, in doc order.
pub open spec fn mv_rows_bytes(rows: Seq<Seq<u32>>, remap: Seq<u32>) -> Seq<u8>
    decreases rows.len(),
{
    if rows.len() == 0 {
        Seq::empty()
    } else {
        mv_rows_bytes(rows.drop_last(), remap) + mv_row_bytes(rows.last(), remap)
    }
}

/// The single-valued columns' bytes, one block per column.
pub open spec fn sv_cols_bytes(cols: Seq<(u32, Seq<u64>)>) -> Seq<u8>
    decreases cols.len(),
{
    if cols.len() == 0 {
        Seq::empty()
    } else {
        sv_cols_bytes(cols.drop_last()) + sv_block_bytes(cols.last().0, cols.last().1)
    }
}

/// The multi-valued columns' bytes: per column, its field id, row count
/// and remapped rows.
pub open spec fn mv_cols_bytes(cols: Seq<(u32, Seq<Seq<u32>>)>, remap: Seq<u32>) -> Seq<u8>
    decreases cols.len(),
{
    if cols.len() == 0 {
        Seq::empty()
    } else {
        mv_cols_bytes(cols.drop_last(), remap) + vint_spec(cols.last().0 as nat) + vint_spec(
            cols.last().1.len() as nat,
        ) + mv_rows_bytes(cols.last().1, remap)
    }
}

struct SingleCol {
    field: u32,
    vals: Vec<u64>,
}

struct MultiCol {
    field: u32,
    rows: Vec<Vec<u32>>,
}

/// The fast-field writers of one segment: one single-valued column per
/// fast numeric field, one multi-valued column per facet field.
pub struct FastFieldsWriter {
    singles: Vec<SingleCol>,
    multis: Vec<MultiCol>,
}

impl FastFieldsWriter {
    /// The single columns' fields.
    pub closed spec fn single_fields(&self) -> Seq<u32> {
        Seq::new(self.singles@.len(), |i: int| self.singles@[i].field)
    }

    /// The multi columns' fields.
    pub closed spec fn multi_fields(&self) -> Seq<u32> {
        Seq::new(self.multis@.len(), |i: int| self.multis@[i].field)
    }

    /// The values of single column `i`.
    pub closed spec fn single_vals(&self, i: int) -> Seq<u64> {
        self.singles@[i].vals@
    }

    /// The rows of multi column `i`.
    pub closed spec fn multi_rows(&self, i: int) -> Seq<Seq<u32>> {
        Seq::new(self.multis@[i].rows@.len(), |j: int| self.multis@[i].rows@[j]@)
    }

    /// The single columns as (field, values) pairs.
    pub closed spec fn single_cols(&self) -> Seq<(u32, Seq<u64>)> {
        Seq::new(self.singles@.len(), |i: int| (self.singles@[i].field, self.singles@[i].vals@))
    }

    /// The multi columns as (field, rows) pairs.
    pub closed spec fn multi_cols(&self) -> Seq<(u32, Seq<Seq<u32>>)> {
        Seq::new(self.multis@.len(), |i: int| (self.multis@[i].field, self.multi_rows(i)))
    }

    /// Every column holds exactly `d` docs.
    pub open spec fn doc_count_is(&self, d: int) -> bool {
        &&& forall|i: int|
            0 <= i < self.single_fields().len() ==> (#[trigger] self.single_vals(i)).len() == d
        &&& forall|i: int|
            0 <= i < self.multi_fields().len() ==> (#[trigger] self.multi_rows(i)).len() == d
    }

    /// Every id in every row is below `n`.
    pub open spec fn ids_lt(&self, n: int) -> bool {
        forall|i: int, j: int, k: int|
            0 <= i < self.multi_fields().len() && 0 <= j < self.multi_rows(i).len() && 0 <= k
                < self.multi_rows(i)[j].len() ==> ((#[trigger] self.multi_rows(i)[j][k]) as int)
                < n
    }

    /// A smaller id bound implies any larger one.
    pub proof fn lemma_ids_lt_monotone(&self, a: int, b: int)
        requires
            self.ids_lt(a),
            a <= b,
        ensures
            self.ids_lt(b),
    {
        assert forall|i: int, j: int, k: int|
            0 <= i < self.multi_fields().len() && 0 <= j < self.multi_rows(i).len() && 0 <= k
                < self.multi_rows(i)[j].len() implies ((#[trigger] self.multi_rows(i)[j][k]) as int)
            < b by {}
    }

    /// A writer with one empty column per listed field.
    #[verifier::loop_isolation(false)]
    pub fn new(single_fields: Vec<u32>, multi_fields: Vec<u32>) -> (r: FastFieldsWriter)
        ensures
            r.single_fields() == single_fields@,
            r.multi_fields() == multi_fields@,
            r.doc_count_is(0),
            forall|n: int| r.ids_lt(n),
    {
        let mut singles: Vec<SingleCol> = Vec::new();
        let mut i: usize = 0;
        while i < single_fields.len()
            invariant
                i <= single_fields@.len(),
                singles@.len() == i,
                forall|j: int|
                    0 <= j < i ==> (#[trigger] singles@[j]).field == single_fields@[j]
                        && singles@[j].vals@.len() == 0,
            decreases single_fields@.len() - i,
        {
            singles.push(SingleCol { field: single_fields[i], vals: Vec::new() });
            i = i + 1;
        }
        let mut multis: Vec<MultiCol> = Vec::new();
        let mut k: usize = 0;
        while k < multi_fields.len()
            invariant
                k <= multi_fields@.len(),
                multis@.len() == k,
                forall|j: int|
                    0 <= j < k ==> (#[trigger] multis@[j]).field == multi_fields@[j]
                        && multis@[j].rows@.len() == 0,
            decreases multi_fields@.len() - k,
        {
            multis.push(MultiCol { field: multi_fields[k], rows: Vec::new() });
            k = k + 1;
        }
        let r = FastFieldsWriter { singles, multis };
        proof {
            assert(r.single_fields() =~= single_fields@);
            assert(r.multi_fields() =~= multi_fields@);
        }
        r
    }

    /// Advances every column by one doc: single columns take the given
    /// values (one per column, zero standing for an absent field), multi
    /// columns open an empty row.
    #[verifier::loop_isolation(false)]
    pub fn advance_doc(&mut self, single_vals: &Vec<u64>)
        requires
            single_vals@.len() == old(self).single_fields().len(),
        ensures
            final(self).single_fields() == old(self).single_fields(),
            final(self).multi_fields() == old(self).multi_fields(),
            forall|i: int|
                0 <= i < final(self).single_fields().len() ==> (#[trigger] final(self).single_vals(i)) == old(self).single_vals(i).push(single_vals@[i]),
            forall|i: int|
                0 <= i < final(self).multi_fields().len() ==> (#[trigger] final(self).multi_rows(i)) == old(self).multi_rows(i).push(Seq::<u32>::empty()),
            forall|n: int| old(self).ids_lt(n) ==> final(self).ids_lt(n),
    {
        let ns = self.singles.len();
        let mut i: usize = 0;
        while i < ns
            invariant
                i <= ns,
                ns == self.singles@.len(),
                single_vals@.len() == ns,
                self.multis@ == old(self).multis@,
                forall|j: int|
                    0 <= j < ns ==> (#[trigger] self.singles@[j]).field == old(
                        self,
                    ).singles@[j].field,
                forall|j: int|
                    i <= j < ns ==> (#[trigger] self.singles@[j]).vals@ == old(
                        self,
                    ).singles@[j].vals@,
                forall|j: int|
                    0 <= j < i ==> (#[trigger] self.singles@[j]).vals@ == old(
                        self,
                    ).singles@[j].vals@.push(single_vals@[j]),
            decreases ns - i,
        {
            let ghost pre = self.singles@;
            let mut col = self.singles.remove(i);
            col.vals.push(single_vals[i]);
            self.singles.insert(i, col);
            proof {
                assert(self.singles@ =~= pre.update(i as int, self.singles@[i as int]));
                assert forall|j: int|
                    0 <= j < ns && j != i implies (#[trigger] self.singles@[j]) == pre[j] by {}
            }
            i = i + 1;
        }
        let nm = self.multis.len();
        let mut k: usize = 0;
        while k < nm
            invariant
                k <= nm,
                nm == self.multis@.len(),
                self.singles@.len() == ns,
                forall|j: int|
                    0 <= j < ns ==> (#[trigger] self.singles@[j]).field == old(
                        self,
                    ).singles@[j].field && self.singles@[j].vals@ == old(
                        self,
                    ).singles@[j].vals@.push(single_vals@[j]),
                forall|j: int|
                    0 <= j < nm ==> (#[trigger] self.multis@[j]).field == old(
                        self,
                    ).multis@[j].field,
                forall|j: int|
                    k <= j < nm ==> (#[trigger] self.multis@[j]).rows@ == old(
                        self,
                    ).multis@[j].rows@,
                forall|j: int|
                    0 <= j < k ==> (#[trigger] self.multis@[j]).rows@.len() == old(
                        self,
                    ).multis@[j].rows@.len() + 1 && self.multis@[j].rows@.last()@ =~= Seq::<
                        u32,
                    >::empty() && forall|t: int|
                        0 <= t < old(self).multis@[j].rows@.len() ==> self.multis@[j].rows@[t]
                            == old(self).multis@[j].rows@[t],
            decreases nm - k,
        {
            let ghost pre = self.multis@;
            let mut col = self.multis.remove(k);
            col.rows.push(Vec::new());
            self.multis.insert(k, col);
            proof {
                assert(self.multis@ =~= pre.update(k as int, self.multis@[k as int]));
                assert forall|j: int|
                    0 <= j < nm && j != k implies (#[trigger] self.multis@[j]) == pre[j] by {}
            }
            k = k + 1;
        }
        proof {
            assert forall|i2: int|
                0 <= i2 < self.single_fields().len() implies (#[trigger] self.single_vals(i2))
                == old(self).single_vals(i2).push(single_vals@[i2]) by {
                assert(self.singles@[i2].vals@ == old(self).singles@[i2].vals@.push(
                    single_vals@[i2],
                ));
            }
            assert forall|i2: int|
                0 <= i2 < self.multi_fields().len() implies (#[trigger] self.multi_rows(i2))
                == old(self).multi_rows(i2).push(Seq::<u32>::empty()) by {
                assert(self.multi_rows(i2) =~= old(self).multi_rows(i2).push(Seq::<u32>::empty()));
            }
            assert(self.single_fields() =~= old(self).single_fields());
            assert(self.multi_fields() =~= old(self).multi_fields());
            assert forall|n: int| old(self).ids_lt(n) implies self.ids_lt(n) by {
                assert forall|i2: int, j: int, t: int|
                    0 <= i2 < self.multi_fields().len() && 0 <= j < self.multi_rows(i2).len() && 0
                        <= t < self.multi_rows(i2)[j].len() implies ((
                #[trigger] self.multi_rows(i2)[j][t]) as int) < n by {
                    assert(j < old(self).multi_rows(i2).len());
                    assert(old(self).multi_rows(i2)[j][t] == self.multi_rows(i2)[j][t]);
                }
            }
        }
    }

    /// Appends one unordered term id to the current doc's row of the facet
    /// field's column. A field without a multi column is left untouched.
    #[verifier::loop_isolation(false)]
    pub fn add_facet_val(&mut self, field: u32, id: u32, Ghost(bound): Ghost<int>)
        requires
            (id as int) < bound,
            old(self).ids_lt(bound),
            forall|i: int|
                0 <= i < old(self).multi_fields().len() ==> (#[trigger] old(self).multi_rows(i)).len() > 0,
        ensures
            final(self).single_fields() == old(self).single_fields(),
            final(self).multi_fields() == old(self).multi_fields(),
            forall|i: int|
                0 <= i < final(self).single_fields().len() ==> (#[trigger] final(self).single_vals(i)) == old(self).single_vals(i),
            final(self).ids_lt(bound),
            forall|i: int|
                0 <= i < final(self).multi_fields().len() ==> (#[trigger] final(self).multi_rows(i)).len() == old(self).multi_rows(i).len(),
            forall|i: int|
                0 <= i < final(self).multi_fields().len() && old(self).multi_fields()[i] != field
                    ==> (#[trigger] final(self).multi_rows(i)) == old(self).multi_rows(i),
            forall|i: int|
                0 <= i < final(self).multi_fields().len() && old(self).multi_fields()[i] == field
                    ==> (#[trigger] final(self).multi_rows(i)) == old(self).multi_rows(i).update(
                    old(self).multi_rows(i).len() - 1,
                    old(self).multi_rows(i).last().push(id),
                ),
    {
        let nm = self.multis.len();
        let mut k: usize = 0;
        while k < nm
            invariant
                k <= nm,
                nm == self.multis@.len(),
                self.singles@ == old(self).singles@,
                forall|j: int|
                    0 <= j < nm ==> (#[trigger] self.multis@[j]).field == old(
                        self,
                    ).multis@[j].field,
                self.ids_lt(bound),
                forall|j: int| k <= j < nm ==> (#[trigger] self.multis@[j]) == old(self).multis@[j],
                forall|j: int|
                    0 <= j < k && old(self).multi_fields()[j] != field ==> (
                    #[trigger] self.multis@[j]) == old(self).multis@[j],
                forall|j: int|
                    0 <= j < k && old(self).multi_fields()[j] == field ==> (
                    #[trigger] self.multi_rows(j)) == old(self).multi_rows(j).update(
                        old(self).multi_rows(j).len() - 1,
                        old(self).multi_rows(j).last().push(id),
                    ),
                forall|i: int|
                    0 <= i < self.multi_fields().len() ==> (#[trigger] self.multi_rows(i)).len()
                        == old(self).multi_rows(i).len(),
                forall|i: int|
                    0 <= i < self.multi_fields().len() ==> (#[trigger] self.multi_rows(i)).len()
                        > 0,
            decreases nm - k,
        {
            if self.multis[k].field == field {
                let ghost selfpre = *self;
                let ghost pre = self.multis@;
                let ghost prerows = self.multi_rows(k as int);
                let mut col = self.multis.remove(k);
                let ghost rowspre = col.rows@;
                proof {
                    assert(rowspre.len() == prerows.len());
                    assert(rowspre.len() > 0);
                }
                let mut row = col.rows.pop().unwrap();
                row.push(id);
                col.rows.push(row);
                self.multis.insert(k, col);
                proof {
                    assert(self.multis@ =~= pre.update(k as int, self.multis@[k as int]));
                    assert forall|j: int|
                        0 <= j < nm && j != k implies (#[trigger] self.multis@[j]) == pre[j] by {}
                    assert(self.multi_rows(k as int) =~= prerows.update(
                        prerows.len() - 1,
                        prerows.last().push(id),
                    ));
                    assert forall|i2: int|
                        0 <= i2 < nm && i2 != k implies (#[trigger] self.multi_rows(i2))
                        == selfpre.multi_rows(i2) by {
                        assert(self.multi_rows(i2) =~= selfpre.multi_rows(i2));
                    }
                    assert forall|i2: int, j: int, t: int|
                        0 <= i2 < self.multi_fields().len() && 0 <= j < self.multi_rows(
                            i2,
                        ).len() && 0 <= t < self.multi_rows(i2)[j].len() implies ((
                    #[trigger] self.multi_rows(i2)[j][t]) as int) < bound by {
                        if i2 == k as int {
                            if j == prerows.len() - 1 {
                                assert(self.multi_rows(i2)[j] == prerows.last().push(id));
                                if t < prerows.last().len() {
                                    assert(self.multi_rows(i2)[j][t] == selfpre.multi_rows(i2)[
                                        j
                                    ][t]);
                                } else {
                                    assert(self.multi_rows(i2)[j][t] == id);
                                }
                            } else {
                                assert(self.multi_rows(i2)[j] == selfpre.multi_rows(i2)[j]);
                            }
                        } else {
                            assert(self.multi_rows(i2)[j][t] == selfpre.multi_rows(i2)[j][t]);
                        }
                    }
                }
            }
            k = k + 1;
        }
        proof {
            assert(self.single_fields() =~= old(self).single_fields());
            assert(self.multi_fields() =~= old(self).multi_fields());
        }
    }

    /// Serializes every column: single columns as value streams, facet
    /// columns row by row with each unordered id sent through the remap.
    /// Deviation, written down deliberately: each row keeps its insertion
    /// order after the remap instead of being re-sorted by ordered id, and
    /// the contract pins exactly that; a reader wanting sorted rows sorts
    /// them on load.
    #[verifier::loop_isolation(false)]
    #[verifier::rlimit(60)]
    pub fn serialize(&self, remap: &Vec<u32>) -> (r: Vec<u8>)
        requires
            self.ids_lt(remap@.len() as int),
        ensures
            r@ == sv_cols_bytes(self.single_cols()) + mv_cols_bytes(self.multi_cols(), remap@),
    {
        let mut out: Vec<u8> = Vec::new();
        let ns = self.singles.len();
        let mut i: usize = 0;
        while i < ns
            invariant
                i <= ns,
                ns == self.singles@.len(),
                out@ == sv_cols_bytes(self.single_cols().subrange(0, i as int)),
            decreases ns - i,
        {
            let ghost colpre = out@;
            write_vint(&mut out, self.singles[i].field as u64);
            write_vint(&mut out, self.singles[i].vals.len() as u64);
            let ghost vals = self.singles@[i as int].vals@;
            let mut j: usize = 0;
            while j < self.singles[i].vals.len()
                invariant
                    i < ns,
                    ns == self.singles@.len(),
                    j <= vals.len(),
                    vals == self.singles@[i as int].vals@,
                    out@ == colpre + vint_spec(self.singles@[i as int].field as nat) + vint_spec(
                        vals.len() as nat,
                    ) + sv_bytes(vals.subrange(0, j as int)),
                decreases vals.len() - j,
            {
                write_vint(&mut out, self.singles[i].vals[j]);
                j = j + 1;
                proof {
                    let sub = vals.subrange(0, j as int);
                    assert(sub.drop_last() =~= vals.subrange(0, j - 1));
                    assert(sub.last() == vals[j - 1]);
                    assert(out@ =~= colpre + vint_spec(self.singles@[i as int].field as nat)
                        + vint_spec(vals.len() as nat) + sv_bytes(sub));
                }
            }
            i = i + 1;
            proof {
                assert(vals.subrange(0, vals.len() as int) =~= vals);
                let sub = self.single_cols().subrange(0, i as int);
                assert(sub.drop_last() =~= self.single_cols().subrange(0, i - 1));
                assert(sub.last() == self.single_cols()[i - 1]);
                assert(out@ =~= sv_cols_bytes(sub));
            }
        }
        proof {
            assert(self.single_cols().subrange(0, ns as int) =~= self.single_cols());
        }
        let ghost svdone = out@;
        let nm = self.multis.len();
        let mut k: usize = 0;
        while k < nm
            invariant
                k <= nm,
                nm == self.multis@.len(),
                self.ids_lt(remap@.len() as int),
                out@ == svdone + mv_cols_bytes(self.multi_cols().subrange(0, k as int), remap@),
            decreases nm - k,
        {
            let ghost colpre = out@;
            write_vint(&mut out, self.multis[k].field as u64);
            write_vint(&mut out, self.multis[k].rows.len() as u64);
            let ghost rows = self.multi_rows(k as int);
            let ghost rowhdr = colpre + vint_spec(self.multis@[k as int].field as nat) + vint_spec(
                rows.len() as nat,
            );
            let mut j: usize = 0;
            while j < self.multis[k].rows.len()
                invariant
                    k < nm,
                    nm == self.multis@.len(),
                    self.ids_lt(remap@.len() as int),
                    j <= rows.len(),
                    rows == self.multi_rows(k as int),
                    rows.len() == self.multis@[k as int].rows@.len(),
                    out@ == rowhdr + mv_rows_bytes(rows.subrange(0, j as int), remap@),
                decreases rows.len() - j,
            {
                let ghost rowpre = out@;
                write_vint(&mut out, self.multis[k].rows[j].len() as u64);
                let ghost row = rows[j as int];
                let mut t: usize = 0;
                while t < self.multis[k].rows[j].len()
                    invariant
                        k < nm,
                        nm == self.multis@.len(),
                        j < rows.len(),
                        rows == self.multi_rows(k as int),
                        rows.len() == self.multis@[k as int].rows@.len(),
                        self.ids_lt(remap@.len() as int),
                        t <= row.len(),
                        row == rows[j as int],
                        out@ == rowpre + vint_spec(row.len() as nat) + mv_ids_bytes(
                            row.subrange(0, t as int),
                            remap@,
                        ),
                    decreases row.len() - t,
                {
                    let id = self.multis[k].rows[j][t];
                    proof {
                        assert(self.multi_rows(k as int)[j as int][t as int] == id);
                    }
                    write_vint(&mut out, remap[id as usize] as u64);
                    t = t + 1;
                    proof {
                        let sub = row.subrange(0, t as int);
                        assert(sub.drop_last() =~= row.subrange(0, t - 1));
                        assert(sub.last() == row[t - 1]);
                        assert(out@ =~= rowpre + vint_spec(row.len() as nat) + mv_ids_bytes(
                            sub,
                            remap@,
                        ));
                    }
                }
                j = j + 1;
                proof {
                    assert(row.subrange(0, row.len() as int) =~= row);
                    let sub = rows.subrange(0, j as int);
                    assert(sub.drop_last() =~= rows.subrange(0, j - 1));
                    assert(sub.last() == rows[j - 1]);
                    assert(out@ =~= rowhdr + mv_rows_bytes(sub, remap@));
                }
            }
            k = k + 1;
            proof {
                assert(rows.subrange(0, rows.len() as int) =~= rows);
                let sub = self.multi_cols().subrange(0, k as int);
                assert(sub.drop_last() =~= self.multi_cols().subrange(0, k - 1));
                assert(sub.last() == self.multi_cols()[k - 1]);
                assert(out@ =~= svdone + mv_cols_bytes(sub, remap@));
            }
        }
        proof {
            assert(self.multi_cols().subrange(0, nm as int) =~= self.multi_cols());
        }
        out
    }
}

} // verus!
