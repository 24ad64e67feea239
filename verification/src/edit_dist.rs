//! Reusable Levenshtein distance engine. The distance is computed by
//! dynamic programming over a flat scratch matrix that is kept between
//! calls and only ever grows, so that repeated calls amortise allocation.

use vstd::prelude::*;

use crate::text::chars_vec;

verus! {

/// The smaller of three natural numbers.
pub open spec fn min3(a: nat, b: nat, c: nat) -> nat {
    if a <= b && a <= c {
        a
    } else if b <= c {
        b
    } else {
        c
    }
}

/// The Levenshtein distance between two character sequences: the least
/// number of single-character insertions, deletions or substitutions
/// turning `a` into `b`.
pub open spec fn lev(a: Seq<char>, b: Seq<char>) -> nat
    decreases a.len(), b.len(),
{
    if a.len() == 0 {
        b.len()
    } else if b.len() == 0 {
        a.len()
    } else {
        let del = lev(a.drop_last(), b) + 1;
        let ins = lev(a, b.drop_last()) + 1;
        let sub = lev(a.drop_last(), b.drop_last()) + if a.last() == b.last() {
            0nat
        } else {
            1nat
        };
        min3(del, ins, sub)
    }
}

/// The distance never exceeds the combined length of the inputs.
pub proof fn lemma_lev_bound(a: Seq<char>, b: Seq<char>)
    ensures
        lev(a, b) <= a.len() + b.len(),
    decreases a.len(), b.len(),
{
    if a.len() > 0 && b.len() > 0 {
        lemma_lev_bound(a.drop_last(), b);
        lemma_lev_bound(a, b.drop_last());
        lemma_lev_bound(a.drop_last(), b.drop_last());
    }
}

/// A text is at distance zero from itself.
pub proof fn lemma_lev_self(s: Seq<char>)
    ensures
        lev(s, s) == 0,
    decreases s.len(),
{
    if s.len() > 0 {
        lemma_lev_self(s.drop_last());
    }
}

/// The distance to or from the empty text is the other text's length.
proof fn lemma_lev_empty(a: Seq<char>, b: Seq<char>)
    ensures
        lev(a, Seq::<char>::empty()) == a.len(),
        lev(Seq::<char>::empty(), b) == b.len(),
{
}

/// Flat index of a cell in a matrix stored row by row.
pub fn row_col_to_idx(row: usize, col: usize, col_nb: usize) -> (r: usize)
    requires
        row * col_nb + col <= usize::MAX,
    ensures
        r == row * col_nb + col,
{
    row * col_nb + col
}

/// A cell index stays inside a grid of `an + 1` rows and `bn + 1` columns.
proof fn lemma_grid(r: int, c: int, an: int, bn: int)
    requires
        0 <= r <= an,
        0 <= c <= bn,
    ensures
        0 <= r * (bn + 1) + c < (an + 1) * (bn + 1),
{
    assert(0 <= r * (bn + 1) + c < (an + 1) * (bn + 1)) by (nonlinear_arith)
        requires
            0 <= r <= an,
            0 <= c <= bn,
    ;
}

/// Distinct cells of the grid have distinct flat indices.
proof fn lemma_grid_injective(r1: int, c1: int, r2: int, c2: int, cols: int)
    requires
        0 <= c1 < cols,
        0 <= c2 < cols,
        0 <= r1,
        0 <= r2,
        r1 * cols + c1 == r2 * cols + c2,
    ensures
        r1 == r2 && c1 == c2,
{
    assert(r1 == r2 && c1 == c2) by (nonlinear_arith)
        requires
            0 <= c1 < cols,
            0 <= c2 < cols,
            0 <= r1,
            0 <= r2,
            r1 * cols + c1 == r2 * cols + c2,
    ;
}

/// The whole first column of the matrix holds the distances of the
/// prefixes of `a` against the empty prefix of `b`.
spec fn col0_ok(st: Seq<usize>, a: Seq<char>, b: Seq<char>) -> bool {
    forall|r: int|
        0 <= r <= a.len() ==> #[trigger] st[r * (b.len() + 1)] == lev(a.take(r), b.take(0))
}

/// Rows `0 .. rows` of the matrix are completely filled in.
spec fn rows_ok(st: Seq<usize>, a: Seq<char>, b: Seq<char>, rows: int) -> bool {
    forall|r: int, c: int|
        0 <= r < rows && 0 <= c <= b.len() ==> #[trigger] st[r * (b.len() + 1) + c] == lev(
            a.take(r),
            b.take(c),
        )
}

/// In row `row`, the cells of columns `0 .. cols_done` are filled in.
spec fn row_partial_ok(st: Seq<usize>, a: Seq<char>, b: Seq<char>, row: int, cols_done: int) -> bool {
    forall|c: int|
        0 <= c < cols_done ==> #[trigger] st[row * (b.len() + 1) + c] == lev(
            a.take(row),
            b.take(c),
        )
}

/// An edit-distance engine owning a scratch matrix that is reused, and
/// only ever grown, across calls.
#[derive(Debug, Clone)]
pub struct EditDistance {
    storage: Vec<usize>,
}

impl Default for EditDistance {
    /// A fresh engine with an empty scratch buffer.
    fn default() -> (r: Self)
        ensures
            r.scratch_len() == 0,
    {
        EditDistance { storage: Vec::new() }
    }
}

impl EditDistance {
    /// Current size of the scratch buffer, in cells.
    pub closed spec fn scratch_len(&self) -> nat {
        self.storage@.len()
    }

    /// The Levenshtein distance between `a` and `b`, over Unicode scalar
    /// values. The scratch buffer grows to hold exactly the whole matrix
    /// when it is too small, and is never shrunk.
    pub fn distance(&mut self, a: &str, b: &str) -> (r: usize)
        requires
            (a@.len() + 1) * (b@.len() + 1) <= usize::MAX,
        ensures
            r == lev(a@, b@),
            old(self).scratch_len() >= (a@.len() + 1) * (b@.len() + 1)
                ==> final(self).scratch_len() == old(self).scratch_len(),
            old(self).scratch_len() < (a@.len() + 1) * (b@.len() + 1)
                ==> final(self).scratch_len() == (a@.len() + 1) * (b@.len() + 1),
    {
        let ac = chars_vec(a);
        let bc = chars_vec(b);
        let a_count = ac.len();
        let b_count = bc.len();
        proof {
            lemma_grid(a_count as int, b_count as int, a_count as int, b_count as int);
            assert(a_count + 1 <= (a_count + 1) * (b_count + 1) && b_count + 1 <= (a_count + 1) * (
            b_count + 1)) by (nonlinear_arith);
        }
        let nb_cols = b_count + 1;
        let nb_items = (a_count + 1) * nb_cols;
        proof {
            assert(a_count + b_count + 1 <= nb_items) by (nonlinear_arith)
                requires
                    nb_items == (a_count + 1) * (b_count + 1),
            ;
        }

        // grow the scratch matrix if this pair needs more cells
        while self.storage.len() < nb_items
            invariant
                nb_items <= usize::MAX,
                self.storage@.len() >= old(self).scratch_len(),
                self.storage@.len() == old(self).scratch_len() || self.storage@.len() <= nb_items,
            decreases nb_items - self.storage.len(),
        {
            self.storage.push(0);
        }
        let ghost grown = self.storage@.len();
        proof {
            assert(grown == old(self).scratch_len() || grown == nb_items);
        }

        // the top-left cell is the distance of two empty prefixes
        self.storage[0] = 0;
        proof {
            assert(b@.take(0) =~= Seq::<char>::empty());
            assert(a@.take(0) =~= Seq::<char>::empty());
            assert(self.storage@[0] == lev(a@.take(0), b@.take(0)));
        }

        // first column: deleting all characters of each prefix of `a`
        let mut i: usize = 0;
        while i < a_count
            invariant
                i <= a_count,
                a_count == a@.len(),
                b_count == b@.len(),
                nb_cols == b_count + 1,
                nb_items == (a_count + 1) * nb_cols,
                nb_items <= usize::MAX,
                self.storage@.len() >= nb_items,
                self.storage@.len() == grown,
                grown == old(self).scratch_len() || grown == nb_items,
                forall|r: int|
                    0 <= r <= i ==> #[trigger] self.storage@[r * (b@.len() + 1)] == lev(
                        a@.take(r),
                        b@.take(0),
                    ),
            decreases a_count - i,
        {
            let ghost gi = i as int;
            let ghost cols = b@.len() as int + 1;
            proof {
                lemma_grid(gi, 0, a_count as int, b_count as int);
                lemma_grid(gi + 1, 0, a_count as int, b_count as int);
                assert(b@.take(0) =~= Seq::<char>::empty());
                assert(a@.take(gi).len() == gi);
                assert(a@.take(gi + 1).len() == gi + 1);
                lemma_lev_empty(a@.take(gi), b@);
                lemma_lev_empty(a@.take(gi + 1), b@);
                assert(self.storage@[gi * (b@.len() + 1)] == lev(a@.take(gi), b@.take(0)));
                assert(self.storage@[gi * (b@.len() + 1)] == gi);
                assert(gi * cols == gi * (b@.len() + 1));
            }
            let idx = row_col_to_idx(i, 0, nb_cols);
            let idx1 = row_col_to_idx(i + 1, 0, nb_cols);
            let v = self.storage[idx];
            self.storage[idx1] = v + 1;
            proof {
                assert forall|r: int| 0 <= r <= gi + 1 implies #[trigger] self.storage@[r * (b@.len()
                    + 1)] == lev(a@.take(r), b@.take(0)) by {
                    lemma_grid(r, 0, a@.len() as int, b@.len() as int);
                    if r * cols == (gi + 1) * cols {
                        lemma_grid_injective(r, 0, gi + 1, 0, cols);
                        assert(self.storage@[r * cols] == gi + 1);
                    }
                }
            }
            i = i + 1;
        }
        assert(col0_ok(self.storage@, a@, b@));

        // first row: inserting each prefix of `b` into the empty text
        let mut j: usize = 0;
        while j < b_count
            invariant
                j <= b_count,
                a_count == a@.len(),
                b_count == b@.len(),
                nb_cols == b_count + 1,
                nb_items == (a_count + 1) * nb_cols,
                nb_items <= usize::MAX,
                self.storage@.len() >= nb_items,
                self.storage@.len() == grown,
                grown == old(self).scratch_len() || grown == nb_items,
                col0_ok(self.storage@, a@, b@),
                row_partial_ok(self.storage@, a@, b@, 0, j + 1),
            decreases b_count - j,
        {
            let ghost gj = j as int;
            let ghost cols = b@.len() as int + 1;
            proof {
                lemma_grid(0, gj, a_count as int, b_count as int);
                lemma_grid(0, gj + 1, a_count as int, b_count as int);
                assert(a@.take(0) =~= Seq::<char>::empty());
                assert(b@.take(gj).len() == gj);
                assert(b@.take(gj + 1).len() == gj + 1);
                lemma_lev_empty(a@, b@.take(gj));
                lemma_lev_empty(a@, b@.take(gj + 1));
                assert(self.storage@[0 * (b@.len() + 1) + gj] == lev(a@.take(0), b@.take(gj)));
                assert(0 * (b@.len() + 1) + gj == gj);
                assert(self.storage@[gj] == gj);
            }
            let v = self.storage[j];
            self.storage[j + 1] = v + 1;
            proof {
                assert forall|r: int| 0 <= r <= a@.len() implies #[trigger] self.storage@[r * (
                b@.len() + 1)] == lev(a@.take(r), b@.take(0)) by {
                    lemma_grid(r, 0, a@.len() as int, b@.len() as int);
                    if r * cols == gj + 1 {
                        lemma_grid_injective(r, 0, 0, gj + 1, cols);
                        assert(false);
                    }
                }
                assert forall|c: int| 0 <= c < gj + 2 implies #[trigger] self.storage@[0 * (b@.len()
                    + 1) + c] == lev(a@.take(0), b@.take(c)) by {
                    lemma_grid(0, c, a@.len() as int, b@.len() as int);
                    if c == gj + 1 {
                        assert(0 * (b@.len() + 1) + c == gj + 1);
                        assert(self.storage@[0 * (b@.len() + 1) + c] == gj + 1);
                    }
                }
            }
            j = j + 1;
        }
        proof {
            assert(rows_ok(self.storage@, a@, b@, 1)) by {
                assert forall|r: int, c: int| 0 <= r < 1 && 0 <= c <= b@.len() implies #[trigger]
                    self.storage@[r * (b@.len() + 1) + c] == lev(a@.take(r), b@.take(c)) by {
                    assert(row_partial_ok(self.storage@, a@, b@, 0, b@.len() as int + 1));
                    assert(self.storage@[0 * (b@.len() + 1) + c] == lev(a@.take(0), b@.take(c)));
                }
            }
        }

        // fill the matrix row by row
        let mut i: usize = 0;
        while i < a_count
            invariant
                i <= a_count,
                a_count == a@.len(),
                b_count == b@.len(),
                ac@ == a@,
                bc@ == b@,
                nb_cols == b_count + 1,
                nb_items == (a_count + 1) * nb_cols,
                nb_items <= usize::MAX,
                a_count + b_count + 1 <= nb_items,
                self.storage@.len() >= nb_items,
                self.storage@.len() == grown,
                grown == old(self).scratch_len() || grown == nb_items,
                col0_ok(self.storage@, a@, b@),
                rows_ok(self.storage@, a@, b@, i + 1),
            decreases a_count - i,
        {
            proof {
                lemma_grid(i + 1 as int, 0, a_count as int, b_count as int);
                assert(row_partial_ok(self.storage@, a@, b@, i + 1, 1)) by {
                    assert(self.storage@[(i + 1) * (b@.len() + 1)] == lev(
                        a@.take(i + 1),
                        b@.take(0),
                    ));
                }
            }
            let mut j: usize = 0;
            while j < b_count
                invariant
                    i < a_count,
                    j <= b_count,
                    a_count == a@.len(),
                    b_count == b@.len(),
                    ac@ == a@,
                    bc@ == b@,
                    nb_cols == b_count + 1,
                    nb_items == (a_count + 1) * nb_cols,
                    nb_items <= usize::MAX,
                    a_count + b_count + 1 <= nb_items,
                    self.storage@.len() >= nb_items,
                    self.storage@.len() == grown,
                    grown == old(self).scratch_len() || grown == nb_items,
                    col0_ok(self.storage@, a@, b@),
                    rows_ok(self.storage@, a@, b@, i + 1),
                    row_partial_ok(self.storage@, a@, b@, i + 1, j + 1),
                decreases b_count - j,
            {
                let ghost gi = i as int;
                let ghost gj = j as int;
                let ghost cols = b@.len() as int + 1;
                proof {
                    lemma_grid(gi, gj + 1, a_count as int, b_count as int);
                    lemma_grid(gi + 1, gj, a_count as int, b_count as int);
                    lemma_grid(gi, gj, a_count as int, b_count as int);
                    lemma_grid(gi + 1, gj + 1, a_count as int, b_count as int);
                    lemma_lev_bound(a@.take(gi), b@.take(gj + 1));
                    lemma_lev_bound(a@.take(gi + 1), b@.take(gj));
                    lemma_lev_bound(a@.take(gi), b@.take(gj));
                    assert(self.storage@[gi * (b@.len() + 1) + (gj + 1)] == lev(
                        a@.take(gi),
                        b@.take(gj + 1),
                    ));
                    assert(self.storage@[(gi + 1) * (b@.len() + 1) + gj] == lev(
                        a@.take(gi + 1),
                        b@.take(gj),
                    ));
                    assert(self.storage@[gi * (b@.len() + 1) + gj] == lev(a@.take(gi), b@.take(gj)));
                    assert(gi * cols + (gj + 1) == gi * (b@.len() + 1) + (gj + 1));
                    assert((gi + 1) * cols + gj == (gi + 1) * (b@.len() + 1) + gj);
                    assert(gi * cols + gj == gi * (b@.len() + 1) + gj);
                    assert(a@.take(gi).len() == gi && a@.take(gi + 1).len() == gi + 1);
                    assert(b@.take(gj).len() == gj && b@.take(gj + 1).len() == gj + 1);
                }
                let del = self.storage[row_col_to_idx(i, j + 1, nb_cols)] + 1;
                let ins = self.storage[row_col_to_idx(i + 1, j, nb_cols)] + 1;
                let sub_cost: usize = if ac[i] == bc[j] {
                    0
                } else {
                    1
                };
                let sub = self.storage[row_col_to_idx(i, j, nb_cols)] + sub_cost;
                let min_alt = if del <= ins && del <= sub {
                    del
                } else if ins <= sub {
                    ins
                } else {
                    sub
                };
                let target = row_col_to_idx(i + 1, j + 1, nb_cols);
                self.storage[target] = min_alt;
                proof {
                    let ta = a@.take(gi + 1);
                    let tb = b@.take(gj + 1);
                    assert(ta.drop_last() =~= a@.take(gi));
                    assert(tb.drop_last() =~= b@.take(gj));
                    assert(ta.last() == a@[gi]);
                    assert(tb.last() == b@[gj]);
                    assert(min_alt == lev(ta, tb));
                    assert forall|r: int| 0 <= r <= a@.len() implies #[trigger] self.storage@[r * (
                    b@.len() + 1)] == lev(a@.take(r), b@.take(0)) by {
                        lemma_grid(r, 0, a@.len() as int, b@.len() as int);
                        if r * cols == (gi + 1) * cols + (gj + 1) {
                            lemma_grid_injective(r, 0, gi + 1, gj + 1, cols);
                            assert(false);
                        }
                    }
                    assert forall|r: int, c: int| 0 <= r < gi + 1 && 0 <= c <= b@.len() implies
                        #[trigger] self.storage@[r * (b@.len() + 1) + c] == lev(
                        a@.take(r),
                        b@.take(c),
                    ) by {
                        lemma_grid(r, c, a@.len() as int, b@.len() as int);
                        if r * cols + c == (gi + 1) * cols + (gj + 1) {
                            lemma_grid_injective(r, c, gi + 1, gj + 1, cols);
                            assert(false);
                        }
                    }
                    assert forall|c: int| 0 <= c < gj + 2 implies #[trigger] self.storage@[(gi + 1)
                        * (b@.len() + 1) + c] == lev(a@.take(gi + 1), b@.take(c)) by {
                        lemma_grid(gi + 1, c, a@.len() as int, b@.len() as int);
                        if c < gj + 1 {
                            if (gi + 1) * cols + c == (gi + 1) * cols + (gj + 1) {
                                lemma_grid_injective(gi + 1, c, gi + 1, gj + 1, cols);
                                assert(false);
                            }
                        } else {
                            assert((gi + 1) * (b@.len() + 1) + c == (gi + 1) * cols + (gj + 1));
                            assert(self.storage@[(gi + 1) * (b@.len() + 1) + c] == min_alt);
                        }
                    }
                }
                j = j + 1;
            }
            proof {
                assert(rows_ok(self.storage@, a@, b@, i + 2)) by {
                    assert forall|r: int, c: int| 0 <= r < i + 2 && 0 <= c <= b@.len() implies
                        #[trigger] self.storage@[r * (b@.len() + 1) + c] == lev(
                        a@.take(r),
                        b@.take(c),
                    ) by {
                        if r == i + 1 {
                            assert(row_partial_ok(
                                self.storage@,
                                a@,
                                b@,
                                i + 1,
                                b@.len() as int + 1,
                            ));
                            assert(self.storage@[(i + 1) * (b@.len() + 1) + c] == lev(
                                a@.take(i + 1),
                                b@.take(c),
                            ));
                        }
                    }
                }
            }
            i = i + 1;
        }

        proof {
            lemma_grid(a_count as int, b_count as int, a_count as int, b_count as int);
            assert(a@.take(a_count as int) =~= a@);
            assert(b@.take(b_count as int) =~= b@);
            assert(self.storage@[a_count as int * (b@.len() + 1) + b_count as int] == lev(
                a@.take(a_count as int),
                b@.take(b_count as int),
            ));
        }
        let r = self.storage[row_col_to_idx(a_count, b_count, nb_cols)];
        r
    }
}

} // verus!
