//! The sparse 0/1 matrix of an exact-cover problem, stored as dancing links:
//! every item (column header, sentinel or cell) is an index into parallel
//! arrays of neighbour links.
use vstd::prelude::*;
use crate::links::{
    Links, bounded, ins, lemma_ins_rem, lemma_unlink_all_bounded, lemma_unlink_all_frame,
    lemma_relink_unlink, lemma_unlink_all_keeps_linked, linked, relink_col, rem, unlink_all,
    unlink_col,
};

verus! {

/// A sparse 0/1 matrix in dancing-links form.
///
/// Items `0..header` are the column headers, `header` is the sentinel at the
/// root of the list of open primary columns, and every later item is a cell.
/// The cells of one row are stored contiguously, in insertion order.
#[derive(Clone)]
pub struct DLX {
    pub header: usize,
    pub rows: usize,
    pub left: Vec<usize>,
    pub right: Vec<usize>,
    pub up: Vec<usize>,
    pub down: Vec<usize>,
    pub size: Vec<usize>,
    pub column: Vec<usize>,
    pub row: Vec<usize>,
    /// Number of primary columns.
    pub required: Ghost<nat>,
    /// `starts[r]` is the first cell of row `r`; `starts[rows]` is the item count.
    pub starts: Ghost<Seq<int>>,
    /// The cells currently linked into each column, from top to bottom.
    pub lists: Ghost<Seq<Seq<usize>>>,
    /// The primary columns currently linked to the sentinel, from left to right.
    pub open: Ghost<Seq<usize>>,
}

impl DLX {
    /// The link arrays, with sizes read as integers.
    pub open spec fn links(&self) -> Links {
        Links {
            left: self.left@,
            right: self.right@,
            up: self.up@,
            down: self.down@,
            size: self.size@.map_values(|v: usize| v as int),
        }
    }

    /// Number of items.
    pub open spec fn items(&self) -> int {
        self.column@.len() as int
    }

    pub open spec fn is_cell(&self, x: int) -> bool {
        self.header < x < self.items()
    }

    /// First cell of the row of `x`.
    pub open spec fn lo(&self, x: int) -> int {
        self.starts@[self.row@[x] as int]
    }

    /// One past the last cell of the row of `x`.
    pub open spec fn hi(&self, x: int) -> int {
        self.starts@[self.row@[x] + 1]
    }

    /// The cells met when walking right from cell `i` until it comes back.
    pub open spec fn ring_after(&self, i: int) -> Seq<usize> {
        let lo = self.lo(i);
        let w = self.hi(i) - lo;
        let hi = self.hi(i);
        Seq::new(
            (w - 1) as nat,
            |k: int|
                if i + 1 + k < hi {
                    (i + 1 + k) as usize
                } else {
                    (i + 1 + k - w) as usize
                },
        )
    }

    /// Array lengths, bounds of links and ownership of headers.
    pub open spec fn shape(&self) -> bool {
        let n = self.items();
        let h = self.header as int;
        &&& self.left@.len() == n
        &&& self.right@.len() == n
        &&& self.up@.len() == n
        &&& self.down@.len() == n
        &&& self.row@.len() == n
        &&& self.size@.len() == h + 1
        &&& h < n
        &&& n <= usize::MAX
        &&& self.required@ <= h
        &&& forall|x: int| 0 <= x < n ==> #[trigger] self.left@[x] < n
        &&& forall|x: int| 0 <= x < n ==> #[trigger] self.right@[x] < n
        &&& forall|x: int| 0 <= x < n ==> #[trigger] self.up@[x] < n
        &&& forall|x: int| 0 <= x < n ==> #[trigger] self.down@[x] < n
        &&& forall|c: int| 0 <= c <= h ==> #[trigger] self.column@[c] == c
        &&& forall|x: int| h < x < n ==> #[trigger] self.column@[x] < h
    }

    /// Rows are contiguous runs of cells, linked horizontally in a ring in
    /// insertion order, and never hold two cells of one column.
    pub open spec fn row_shape(&self) -> bool {
        let s = self.starts@;
        let n = self.items();
        &&& s.len() == self.rows + 1
        &&& s[0] == self.header + 1
        &&& s[self.rows as int] == n
        &&& forall|i: int, j: int| 0 <= i <= j <= self.rows ==> s[i] <= s[j]
        &&& forall|x: int|
            #![trigger self.row@[x]]
            self.is_cell(x) ==> self.row@[x] < self.rows && self.lo(x) <= x < self.hi(x)
        &&& forall|x: int|
            #![trigger self.right@[x]]
            self.is_cell(x) ==> self.right@[x] == (if x + 1 < self.hi(x) {
                x + 1
            } else {
                self.lo(x)
            })
        &&& forall|x: int|
            #![trigger self.left@[x]]
            self.is_cell(x) ==> self.left@[x] == (if x > self.lo(x) {
                x - 1
            } else {
                self.hi(x) - 1
            })
        &&& forall|x: int, y: int|
            #![trigger self.column@[x], self.column@[y]]
            self.is_cell(x) && self.is_cell(y) && x != y && self.row@[x] == self.row@[y]
                ==> self.column@[x] != self.column@[y]
    }

    /// Column `c` is a doubly-linked ring through its header holding
    /// exactly the cells of `lists[c]`, and its size counts them.
    pub open spec fn col_shape(&self, c: int) -> bool {
        let l = self.lists@[c];
        let len = l.len() as int;
        &&& self.size@[c] == len
        &&& l.no_duplicates()
        &&& forall|k: int|
            0 <= k < len ==> self.is_cell(#[trigger] l[k] as int) && self.column@[l[k] as int] == c
        &&& self.down@[c] == (if len == 0 {
            c
        } else {
            l[0] as int
        })
        &&& self.up@[c] == (if len == 0 {
            c
        } else {
            l[len - 1] as int
        })
        &&& forall|k: int|
            0 <= k < len ==> #[trigger] self.down@[l[k] as int] == (if k + 1 < len {
                l[k + 1] as int
            } else {
                c
            })
        &&& forall|k: int|
            0 <= k < len ==> #[trigger] self.up@[l[k] as int] == (if k > 0 {
                l[k - 1] as int
            } else {
                c
            })
    }

    /// The open primary columns form a doubly-linked ring through the
    /// sentinel; secondary columns are linked to themselves.
    pub open spec fn open_shape(&self) -> bool {
        let o = self.open@;
        let len = o.len() as int;
        let h = self.header as int;
        &&& o.no_duplicates()
        &&& forall|k: int| 0 <= k < len ==> #[trigger] o[k] < self.required@
        &&& self.right@[h] == (if len == 0 {
            h
        } else {
            o[0] as int
        })
        &&& self.left@[h] == (if len == 0 {
            h
        } else {
            o[len - 1] as int
        })
        &&& forall|k: int|
            0 <= k < len ==> #[trigger] self.right@[o[k] as int] == (if k + 1 < len {
                o[k + 1] as int
            } else {
                h
            })
        &&& forall|k: int|
            0 <= k < len ==> #[trigger] self.left@[o[k] as int] == (if k > 0 {
                o[k - 1] as int
            } else {
                h
            })
        &&& forall|c: int|
            self.required@ <= c < h ==> #[trigger] self.left@[c] == c && self.right@[c] == c
    }

    /// The structural invariant, which holds in every state of a search.
    pub open spec fn inv(&self) -> bool {
        &&& self.shape()
        &&& self.row_shape()
        &&& self.lists@.len() == self.header
        &&& forall|c: int| 0 <= c < self.header ==> #[trigger] self.col_shape(c)
        &&& self.open_shape()
    }

    /// No column is covered: every primary column is open, every cell linked.
    pub open spec fn pristine(&self) -> bool {
        &&& self.open@ == Seq::new(self.required@, |i: int| i as usize)
        &&& forall|c: int, a: int, b: int|
            0 <= c < self.header && 0 <= a < b < self.lists@[c].len() ==> #[trigger] self.lists@[c][a]
                < #[trigger] self.lists@[c][b]
        &&& forall|x: int|
            self.is_cell(x) ==> #[trigger] self.lists@[self.column@[x] as int].contains(
                x as usize,
            )
    }

    /// A matrix that has been built and not yet searched.
    pub open spec fn wf(&self) -> bool {
        self.inv() && self.pristine()
    }

    /// The column indices of each inserted row, in insertion order.
    pub open spec fn rows_view(&self) -> Seq<Seq<usize>> {
        Seq::new(
            self.rows as nat,
            |r: int|
                Seq::new(
                    (self.starts@[r + 1] - self.starts@[r]) as nat,
                    |k: int| self.column@[self.starts@[r] + k],
                ),
        )
    }

    /// Number of primary columns.
    pub open spec fn primary(&self) -> nat {
        self.required@
    }

    pub fn init(cols: usize) -> (r: DLX)
        requires
            cols < usize::MAX,
        ensures
            r.wf(),
            r.header == cols,
            r.primary() == cols,
            r.rows == 0,
            r.rows_view() == Seq::<Seq<usize>>::empty(),
            r.size@ == Seq::new((cols + 1) as nat, |i: int| 0usize),
            r.row@ == Seq::new((cols + 1) as nat, |i: int| cols),
            r.up@[cols as int] == cols,
            r.down@[cols as int] == cols,
    {
        DLX::init_aux(cols, 0)
    }

    pub fn init_aux(required_cols: usize, auxiliary_cols: usize) -> (r: DLX)
        requires
            required_cols + auxiliary_cols < usize::MAX,
        ensures
            r.wf(),
            r.header == required_cols + auxiliary_cols,
            r.primary() == required_cols,
            r.rows == 0,
            r.rows_view() == Seq::<Seq<usize>>::empty(),
            r.size@ == Seq::new(
                (required_cols + auxiliary_cols + 1) as nat,
                |i: int| 0usize,
            ),
            r.row@ == Seq::new(
                (required_cols + auxiliary_cols + 1) as nat,
                |i: int| (required_cols + auxiliary_cols) as usize,
            ),
            r.up@[(required_cols + auxiliary_cols) as int] == required_cols + auxiliary_cols,
            r.down@[(required_cols + auxiliary_cols) as int] == required_cols + auxiliary_cols,
    {
        let total_cols = required_cols + auxiliary_cols;
        let header = total_cols;
        let mut left: Vec<usize> = Vec::new();
        let mut right: Vec<usize> = Vec::new();
        let mut up: Vec<usize> = Vec::new();
        let mut down: Vec<usize> = Vec::new();
        let mut size: Vec<usize> = Vec::new();
        let mut column: Vec<usize> = Vec::new();
        let mut row: Vec<usize> = Vec::new();
        let mut c: usize = 0;
        while c < total_cols
            invariant
                c <= total_cols,
                header == total_cols,
                total_cols == required_cols + auxiliary_cols,
                left@.len() == c,
                right@.len() == c,
                up@.len() == c,
                down@.len() == c,
                size@.len() == c,
                column@.len() == c,
                row@.len() == c,
                forall|i: int|
                    0 <= i < c ==> #[trigger] left@[i] == (if i < required_cols {
                        if i == 0 {
                            header as int
                        } else {
                            i - 1
                        }
                    } else {
                        i
                    }),
                forall|i: int|
                    0 <= i < c ==> #[trigger] right@[i] == (if i < required_cols {
                        if i + 1 == required_cols {
                            header as int
                        } else {
                            i + 1
                        }
                    } else {
                        i
                    }),
                forall|i: int| 0 <= i < c ==> #[trigger] up@[i] == i,
                forall|i: int| 0 <= i < c ==> #[trigger] down@[i] == i,
                forall|i: int| 0 <= i < c ==> #[trigger] size@[i] == 0,
                forall|i: int| 0 <= i < c ==> #[trigger] column@[i] == i,
                forall|i: int| 0 <= i < c ==> #[trigger] row@[i] == header,
            decreases total_cols - c,
        {
            let l = if c < required_cols {
                if c == 0 {
                    header
                } else {
                    c - 1
                }
            } else {
                c
            };
            let rt = if c < required_cols {
                if c + 1 == required_cols {
                    header
                } else {
                    c + 1
                }
            } else {
                c
            };
            left.push(l);
            right.push(rt);
            up.push(c);
            down.push(c);
            size.push(0);
            column.push(c);
            row.push(header);
            c = c + 1;
        }
        left.push(if required_cols == 0 { header } else { required_cols - 1 });
        right.push(if required_cols == 0 { header } else { 0 });
        up.push(header);
        down.push(header);
        size.push(0);
        column.push(header);
        row.push(header);
        let ghost open = Seq::new(required_cols as nat, |i: int| i as usize);
        let ghost lists = Seq::new(total_cols as nat, |i: int| Seq::<usize>::empty());
        let ghost starts = seq![header as int + 1];
        let dlx = DLX {
            header,
            rows: 0,
            left,
            right,
            up,
            down,
            size,
            column,
            row,
            required: Ghost(required_cols as nat),
            starts: Ghost(starts),
            lists: Ghost(lists),
            open: Ghost(open),
        };
        assert forall|cc: int| 0 <= cc < dlx.header implies #[trigger] dlx.col_shape(cc) by {
            assert(dlx.lists@[cc].len() == 0);
        }
        assert(dlx.rows_view() =~= Seq::<Seq<usize>>::empty());
        assert(dlx.size@ =~= Seq::new((total_cols + 1) as nat, |i: int| 0usize));
        assert(dlx.row@ =~= Seq::new((total_cols + 1) as nat, |i: int| total_cols));
        dlx
    }
}


impl DLX {
    /// Column indices acceptable as a stored row: each below the column
    /// count, none twice.
    pub open spec fn valid_row(&self, cols: Seq<usize>) -> bool {
        &&& forall|k: int| 0 <= k < cols.len() ==> #[trigger] cols[k] < self.header
        &&& cols.no_duplicates()
    }

    /// Every listed column is below the column count.
    pub open spec fn in_range(&self, cols: Seq<usize>) -> bool {
        forall|k: int| 0 <= k < cols.len() ==> #[trigger] cols[k] < self.header
    }

    /// Appends a row holding a cell in each listed column; a column listed
    /// more than once gets one cell, as the matrix is 0/1. A row naming a
    /// column out of range is refused and the matrix is left as it was.
    pub fn append_row(&mut self, row: &[usize]) -> (r: bool)
        requires
            old(self).wf(),
            old(self).items() + row@.len() < usize::MAX,
            old(self).rows < usize::MAX,
        ensures
            r == old(self).in_range(row@),
            r ==> final(self).wf() && final(self).rows_view() == old(self).rows_view().push(
                distinct_cols(row@),
            ) && final(self).items() == old(self).items() + distinct_cols(row@).len(),
            !r ==> *final(self) == *old(self),
            final(self).header == old(self).header,
            final(self).primary() == old(self).primary(),
            final(self).rows == old(self).rows + (if r { 1int } else { 0 }),
    {
        let mut seen: Vec<bool> = Vec::new();
        let mut c: usize = 0;
        while c < self.header
            invariant
                c <= self.header,
                seen@.len() == c,
                forall|i: int| 0 <= i < c ==> !#[trigger] seen@[i],
            decreases self.header - c,
        {
            seen.push(false);
            c = c + 1;
        }
        let mut cols: Vec<usize> = Vec::new();
        let mut t: usize = 0;
        while t < row.len()
            invariant
                t <= row@.len(),
                seen@.len() == self.header,
                forall|k: int| 0 <= k < t ==> #[trigger] row@[k] < self.header,
                cols@ == distinct_cols(row@.take(t as int)),
                cols@.no_duplicates(),
                cols@.len() <= t,
                forall|k: int| 0 <= k < cols@.len() ==> #[trigger] cols@[k] < self.header,
                forall|v: int|
                    0 <= v < self.header ==> (#[trigger] seen@[v] <==> cols@.contains(v as usize)),
            decreases row@.len() - t,
        {
            let col = row[t];
            if col >= self.header {
                return false;
            }
            proof {
                assert(row@.take(t + 1).drop_last() =~= row@.take(t as int));
                assert(row@.take(t + 1).last() == col);
            }
            if !seen[col] {
                proof {
                    assert forall|a: int, b: int| 0 <= a < b < cols@.len() + 1 implies cols@.push(col)[a]
                        != cols@.push(col)[b] by {
                        if b == cols@.len() {
                            assert(cols@.contains(cols@[a]));
                        }
                    }
                }
                let ghost old_cols = cols@;
                cols.push(col);
                seen.set(col, true);
                proof {
                    assert forall|v: int| 0 <= v < self.header implies (#[trigger] seen@[v]
                        <==> cols@.contains(v as usize)) by {
                        if cols@.contains(v as usize) && v != col {
                            let k = choose|k: int| 0 <= k < cols@.len() && cols@[k] == v as usize;
                            assert(old_cols[k] == v as usize);
                        }
                        if old_cols.contains(v as usize) {
                            let k = choose|k: int| 0 <= k < old_cols.len() && old_cols[k] == v as usize;
                            assert(cols@[k] == v as usize);
                        }
                        if v == col {
                            assert(cols@[old_cols.len() as int] == col);
                        }
                    }
                }
            }
            t = t + 1;
        }
        proof {
            assert(row@.take(row@.len() as int) =~= row@);
        }
        self.insert_row(cols.as_slice());
        true
    }

    /// Appends a row with a cell in each of the distinct in-range columns `row`.
    #[verifier::rlimit(60)]
    fn insert_row(&mut self, row: &[usize])
        requires
            old(self).wf(),
            old(self).valid_row(row@),
            old(self).items() + row@.len() < usize::MAX,
            old(self).rows < usize::MAX,
        ensures
            final(self).wf(),
            final(self).rows_view() == old(self).rows_view().push(row@),
            final(self).items() == old(self).items() + row@.len(),
            final(self).header == old(self).header,
            final(self).primary() == old(self).primary(),
            final(self).rows == old(self).rows + 1,
    {
        let ghost old_view = self.rows_view();
        let n0 = self.column.len();
        let row_id = self.rows;
        self.rows = self.rows + 1;
        self.starts = Ghost(self.starts@.push(n0 as int));
        proof {
            let rv = self.rows_view();
            let ex = old_view.push(row@.take(0));
            assert(rv.len() == ex.len());
            assert forall|r: int| 0 <= r < rv.len() implies rv[r] =~= ex[r] by {}
            assert(rv =~= ex);
            assert(self.row_shape());
            assert(self.shape());
            assert forall|c: int| 0 <= c < self.header implies #[trigger] self.col_shape(c) by {
                assert(old(self).col_shape(c));
            }
            assert(self.open_shape());
            assert(self.pristine());
        }
        let mut row_start: Option<usize> = None;
        let mut t: usize = 0;
        while t < row.len()
            invariant
                t <= row@.len(),
                self.wf(),
                self.valid_row(row@),
                self.header == old(self).header,
                self.required == old(self).required,
                self.rows == row_id + 1,
                self.items() == n0 + t,
                n0 + row@.len() < usize::MAX,
                self.starts@[row_id as int] == n0,
                self.rows_view() == old_view.push(row@.take(t as int)),
                forall|k: int| 0 <= k < t ==> #[trigger] self.column@[n0 + k] == row@[k],
                row_start == (if t == 0 {
                    None
                } else {
                    Some(n0)
                }),
            decreases row@.len() - t,
        {
            let col = row[t];
            let ghost before = *self;
            proof {
                assert(self.col_shape(col as int));
                lemma_distinct_bounded(self.lists@[col as int], self.items());
            }
            let sz = self.size[col];
            self.size.set(col, sz + 1);
            let item_id = self.column.len();
            self.column.push(col);
            self.row.push(row_id);
            let u = self.up[col];
            self.up.push(u);
            self.down.push(col);
            self.up.set(col, item_id);
            self.down.set(u, item_id);
            match row_start {
                Some(rs) => {
                    let l = self.left[rs];
                    self.left.push(l);
                    self.right.push(rs);
                    self.left.set(rs, item_id);
                    self.right.set(l, item_id);
                },
                None => {
                    row_start = Some(item_id);
                    self.left.push(item_id);
                    self.right.push(item_id);
                },
            }
            self.lists = Ghost(self.lists@.update(col as int, self.lists@[col as int].push(item_id)));
            self.starts = Ghost(self.starts@.update(row_id + 1, item_id + 1));
            t = t + 1;
            proof {
                lemma_append_cell(before, *self, row@, t as int - 1, n0 as int, old_view);
            }
        }
        assert(row@.take(row@.len() as int) =~= row@);
    }
}

/// `after` is `before` with cell `row[t]` of the last row appended, where
/// that row starts at item `n0`.
pub open spec fn appended(before: DLX, after: DLX, row: Seq<usize>, t: int, n0: int) -> bool {
    let x = before.items();
    let col = row[t];
    let u = before.up@[col as int];
    &&& before.valid_row(row)
    &&& 0 <= t < row.len()
    &&& x == n0 + t
    &&& x + 1 < usize::MAX
    &&& before.size@[col as int] + 1 < usize::MAX
    &&& before.rows >= 1
    &&& before.starts@[before.rows - 1] == n0
    &&& forall|k: int| 0 <= k < t ==> #[trigger] before.column@[n0 + k] == row[k]
    &&& after.header == before.header
    &&& after.rows == before.rows
    &&& after.required == before.required
    &&& after.open == before.open
    &&& after.column@ == before.column@.push(col)
    &&& after.row@ == before.row@.push((before.rows - 1) as usize)
    &&& after.up@ == before.up@.push(u).update(col as int, x as usize)
    &&& after.down@ == before.down@.push(col).update(u as int, x as usize)
    &&& after.size@ == before.size@.update(col as int, (before.size@[col as int] + 1) as usize)
    &&& after.lists@ == before.lists@.update(col as int, before.lists@[col as int].push(x as usize))
    &&& after.starts@ == before.starts@.update(before.rows as int, x + 1)
    &&& (t == 0 ==> after.left@ == before.left@.push(x as usize) && after.right@
        == before.right@.push(x as usize))
    &&& (t > 0 ==> {
        let l = before.left@[n0];
        &&& after.left@ == before.left@.push(l).update(n0, x as usize)
        &&& after.right@ == before.right@.push(n0 as usize).update(l as int, x as usize)
    })
}

/// Appending a cell keeps the shape and the row layout.
proof fn lemma_append_rows(before: DLX, after: DLX, row: Seq<usize>, t: int, n0: int)
    requires
        appended(before, after, row, t, n0),
        before.shape(),
        before.row_shape(),
    ensures
        after.shape(),
        after.row_shape(),
        forall|k: int| 0 <= k <= t ==> #[trigger] after.column@[n0 + k] == row[k],
{
    let x = before.items();
    let n = after.items();
    assert(n == x + 1);
    assert(after.left@.len() == n);
    assert(after.right@.len() == n);
    assert(after.up@.len() == n);
    assert(after.down@.len() == n);
    assert(after.row@.len() == n);
    assert(after.size@.len() == after.header + 1);
    assert forall|c: int| 0 <= c <= after.header implies #[trigger] after.column@[c] == c by {
        assert(before.column@[c] == c);
    }
    assert(after.shape());
    assert forall|y: int| #![trigger after.row@[y]] after.is_cell(y) implies after.row@[y]
        < after.rows && after.lo(y) <= y < after.hi(y) by {
        if y < x {
            assert(before.row@[y] == after.row@[y]);
        }
    }
    assert forall|y: int| #![trigger after.right@[y]] after.is_cell(y) implies after.right@[y]
        == (if y + 1 < after.hi(y) {
        y + 1
    } else {
        after.lo(y)
    }) by {
        if y < x {
            assert(before.right@[y] == before.right@[y]);
        }
    }
    assert forall|y: int| #![trigger after.left@[y]] after.is_cell(y) implies after.left@[y]
        == (if y > after.lo(y) {
        y - 1
    } else {
        after.hi(y) - 1
    }) by {
        if y < x {
            assert(before.left@[y] == before.left@[y]);
        }
    }
    assert forall|y: int, z: int|
        #![trigger after.column@[y], after.column@[z]]
        after.is_cell(y) && after.is_cell(z) && y != z && after.row@[y] == after.row@[z]
            implies after.column@[y] != after.column@[z] by {
        if y == x && z >= n0 {
            assert(before.column@[n0 + (z - n0)] == row[z - n0]);
        } else if z == x && y >= n0 {
            assert(before.column@[n0 + (y - n0)] == row[y - n0]);
        } else if y < x && z < x {
            assert(before.column@[y] != before.column@[z]);
        }
    }
}

/// Appending a cell keeps the list of its own column well formed.
#[verifier::rlimit(100)]
proof fn lemma_append_col_same(before: DLX, after: DLX, c: int)
    requires
        before.shape(),
        before.lists@.len() == before.header,
        before.col_shape(c),
        0 <= c < before.header,
        before.items() + 1 < usize::MAX,
        before.size@[c] + 1 < usize::MAX,
        after.header == before.header,
        after.column@ == before.column@.push(c as usize),
        after.up@ == before.up@.push(before.up@[c]).update(c, before.items() as usize),
        after.down@ == before.down@.push(c as usize).update(
            before.up@[c] as int,
            before.items() as usize,
        ),
        after.size@ == before.size@.update(c, (before.size@[c] + 1) as usize),
        after.lists@ == before.lists@.update(c, before.lists@[c].push(before.items() as usize)),
    ensures
        after.col_shape(c),
{
    let x = before.items();
    let old_l = before.lists@[c];
    let len = old_l.len() as int;
    let u = before.up@[c] as int;
    let l = after.lists@[c];
    assert(l == old_l.push(x as usize));
    assert(after.down@[x] == c);
    assert(after.up@[x] == u);
    assert(after.up@[c] == x);
    assert(after.down@[u] == x);
    assert forall|k: int| 0 <= k < len implies #[trigger] old_l[k] < x && old_l[k] != c by {}
    assert(l.no_duplicates()) by {
        assert forall|i: int, j: int| 0 <= i < l.len() && 0 <= j < l.len() && i != j implies l[i]
            != l[j] by {
            if i < len && j < len {
                assert(old_l[i] != old_l[j]);
            }
        }
    }
    assert forall|k: int| 0 <= k < l.len() implies after.is_cell(#[trigger] l[k] as int)
        && after.column@[l[k] as int] == c by {
        if k < len {
            assert(before.column@[old_l[k] as int] == c);
        }
    }
    assert forall|k: int| 0 <= k < l.len() implies #[trigger] after.down@[l[k] as int] == (if k + 1
        < l.len() {
        l[k + 1] as int
    } else {
        c
    }) by {
        if k + 1 < len {
            assert(before.down@[old_l[k] as int] == old_l[k + 1]);
            assert(old_l[k] != u);
        } else if k + 1 == len {
            assert(old_l[k] == u);
        }
    }
    assert forall|k: int| 0 <= k < l.len() implies #[trigger] after.up@[l[k] as int] == (if k > 0 {
        l[k - 1] as int
    } else {
        c
    }) by {
        if k < len {
            assert(before.up@[old_l[k] as int] == (if k > 0 {
                old_l[k - 1] as int
            } else {
                c
            }));
        }
    }
    assert(after.size@[c] == l.len());
    assert(after.down@[c] == (if l.len() == 0 {
            c
        } else {
            l[0] as int
        }));
    assert(after.up@[c] == l[l.len() - 1]);
}

/// Appending a cell leaves the lists of the other columns well formed.
#[verifier::rlimit(100)]
proof fn lemma_append_col_other(before: DLX, after: DLX, row: Seq<usize>, t: int, n0: int, c: int)
    requires
        appended(before, after, row, t, n0),
        before.shape(),
        before.lists@.len() == before.header,
        before.col_shape(c),
        before.col_shape(row[t] as int),
        0 <= c < after.header,
        c != row[t],
    ensures
        after.col_shape(c),
{
    let col = row[t] as int;
    let u = before.up@[col];
    assert(u == col || before.column@[u as int] == col);
    let l = after.lists@[c];
    assert forall|k: int| 0 <= k < l.len() implies #[trigger] after.down@[l[k] as int]
        == before.down@[l[k] as int] by {
        assert(before.column@[l[k] as int] == c);
    }
    assert forall|k: int| 0 <= k < l.len() implies #[trigger] after.up@[l[k] as int]
        == before.up@[l[k] as int] by {
        assert(before.column@[l[k] as int] == c);
    }
}

/// Every cell from the first cell of the last row on belongs to that row.
proof fn lemma_last_row(m: DLX, n0: int, y: int)
    requires
        m.shape(),
        m.row_shape(),
        m.rows >= 1,
        m.starts@[m.rows - 1] == n0,
        n0 <= y < m.items(),
        m.is_cell(y),
    ensures
        m.row@[y] == m.rows - 1,
        m.lo(y) == n0,
        m.hi(y) == m.items(),
{
    let r = m.row@[y] as int;
    assert(m.lo(y) <= y < m.hi(y));
    if r < m.rows - 1 {
        assert(m.starts@[r + 1] <= m.starts@[m.rows - 1]);
    }
}

/// Appending one cell at the bottom of its column and the end of the last
/// row keeps the matrix well formed.
#[verifier::rlimit(100)]
proof fn lemma_append_cell(
    before: DLX,
    after: DLX,
    row: Seq<usize>,
    t: int,
    n0: int,
    old_view: Seq<Seq<usize>>,
)
    requires
        appended(before, after, row, t, n0),
        before.wf(),
        before.rows_view() == old_view.push(row.take(t)),
    ensures
        after.wf(),
        after.rows_view() == old_view.push(row.take(t + 1)),
        forall|k: int| 0 <= k <= t ==> #[trigger] after.column@[n0 + k] == row[k],
{
    let x = before.items();
    let col = row[t];
    let row_id = before.rows - 1;
    lemma_append_rows(before, after, row, t, n0);
    assert(before.col_shape(col as int));
    lemma_append_col_same(before, after, col as int);
    assert forall|c: int| 0 <= c < after.header implies #[trigger] after.col_shape(c) by {
        if c != col {
            assert(before.col_shape(c));
            lemma_append_col_other(before, after, row, t, n0, c);
        }
    }
    if t > 0 {
        lemma_last_row(before, n0, n0);
        assert(before.left@[n0] == x - 1);
    }
    assert(after.open@ == before.open@);
    let h = before.header as int;
    assert forall|c: int| 0 <= c <= h implies after.left@[c] == before.left@[c] && after.right@[c]
        == before.right@[c] by {}
    assert(after.open_shape());
    assert forall|c: int, a: int, b: int|
        0 <= c < after.header && 0 <= a < b < after.lists@[c].len() implies #[trigger] after.lists@[c][a]
            < #[trigger] after.lists@[c][b] by {
        assert(before.col_shape(c));
        if c == col && b == before.lists@[c].len() {
            assert(after.lists@[c][a] == before.lists@[c][a]);
        } else {
            assert(after.lists@[c][a] == before.lists@[c][a]);
            assert(after.lists@[c][b] == before.lists@[c][b]);
        }
    }
    assert forall|y: int| after.is_cell(y) implies #[trigger] after.lists@[
        after.column@[y] as int].contains(y as usize) by {
        if y < x {
            assert(before.lists@[before.column@[y] as int].contains(y as usize));
            let k = choose|k: int| 0 <= k < before.lists@[before.column@[y] as int].len()
                && before.lists@[before.column@[y] as int][k] == y as usize;
            assert(after.lists@[after.column@[y] as int][k] == y as usize);
        } else {
            assert(after.lists@[col as int].last() == y as usize);
        }
    }
    let rv = after.rows_view();
    let ex = old_view.push(row.take(t + 1));
    assert(before.rows_view().len() == before.rows);
    assert(old_view.len() == row_id);
    assert(rv.len() == ex.len());
    assert forall|r: int| 0 <= r < rv.len() implies rv[r] =~= ex[r] by {
        if r < row_id {
            assert(before.starts@[r + 1] <= before.starts@[row_id as int]);
            assert(ex[r] == old_view[r]);
            assert(before.rows_view()[r] == old_view[r]);
            let br = before.rows_view()[r];
            assert(after.starts@[r] == before.starts@[r]);
            assert(after.starts@[r + 1] == before.starts@[r + 1]);
            assert forall|k: int| 0 <= k < rv[r].len() implies rv[r][k] == br[k] by {
                assert(before.starts@[r] + k < x);
            }
            assert(rv[r] =~= br);
        } else {
            assert(after.starts@[r] == n0);
            assert(after.starts@[r + 1] == x + 1);
            assert(rv[r].len() == t + 1);
            assert(before.rows_view().len() == before.rows);
            assert(ex[r] == row.take(t + 1));
            assert forall|k: int| 0 <= k < rv[r].len() implies rv[r][k] == ex[r][k] by {
                assert(after.column@[n0 + k] == row[k]);
            }
        }
    }
    assert(rv =~= ex);
}

impl DLX {
    /// `unlink_all` over the cells of the row of `i` other than `i`, in the
    /// order met walking right from `i`.
    pub open spec fn hide_links(&self, l: Links, i: int) -> Links {
        unlink_all(l, self.ring_after(i), self.column@)
    }

    /// Every cell of the row of `i` other than `i` is linked into its column.
    pub open spec fn row_visible(&self, i: int) -> bool {
        forall|k: int|
            0 <= k < self.ring_after(i).len() ==> self.visible(#[trigger] self.ring_after(i)[k] as int)
    }

    /// Unlinks visible cell `j` from its column.
    fn remove_cell(&mut self, j: usize)
        requires
            old(self).inv(),
            old(self).is_cell(j as int),
            old(self).visible(j as int),
        ensures
            final(self).inv(),
            removed(*old(self), *final(self), j as int),
    {
        let ghost before = *self;
        let a = self.up[j];
        let b = self.down[j];
        self.up.set(b, a);
        self.down.set(a, b);
        let cj = self.column[j];
        proof {
            assert(before.col_shape(cj as int));
            let l = before.lists@[cj as int];
            assert(l.contains(j as usize));
        }
        let sz = self.size[cj];
        self.size.set(cj, sz - 1);
        let ghost l = self.lists@[cj as int];
        self.lists = Ghost(self.lists@.update(cj as int, l.remove(l.index_of(j))));
        proof {
            let r = rem(before.links(), j, cj);
            assert(self.links().size =~= r.size);
            assert(self.links().up =~= r.up);
            assert(self.links().down =~= r.down);
            lemma_remove_cell(before, *self, j as int);
        }
    }

    /// Unlinks every other cell of the row of `item` from its column.
    fn hide_row(&mut self, item: usize)
        requires
            old(self).inv(),
            old(self).is_cell(item as int),
            old(self).row_visible(item as int),
        ensures
            final(self).inv(),
            final(self).same_frame(*old(self)),
            final(self).open == old(self).open,
            final(self).links() == old(self).hide_links(old(self).links(), item as int),
            forall|d: int, x: usize|
                0 <= d < final(self).header ==> (#[trigger] final(self).lists@[d].contains(x) <==> (
                old(self).lists@[d].contains(x) && !old(self).ring_after(item as int).contains(x))),
            forall|d: int|
                0 <= d < final(self).header && d != old(self).column@[item as int]
                    ==> final(self).lists@[d].len() <= old(self).lists@[d].len(),
            final(self).lists@[old(self).column@[item as int] as int] == old(self).lists@[old(
                self,
            ).column@[item as int] as int],
    {
        let ghost start = *self;
        let ghost ring = self.ring_after(item as int);
        proof {
            lemma_ring(start, item as int);
        }
        let mut j = self.right[item];
        let ghost mut k: int = 0;
        while j != item
            invariant
                self.inv(),
                self.same_frame(start),
                self.open == start.open,
                0 <= k <= ring.len(),
                j == (if k < ring.len() {
                    ring[k] as int
                } else {
                    item as int
                }),
                self.right@ == start.right@,
                self.left@ == start.left@,
                self.links() == unlink_all(start.links(), ring.take(k), start.column@),
                forall|q: int| k <= q < ring.len() ==> self.visible(#[trigger] ring[q] as int),
                forall|d: int, x: usize|
                    0 <= d < self.header ==> (#[trigger] self.lists@[d].contains(x) <==> (
                    start.lists@[d].contains(x) && !ring.take(k).contains(x))),
                forall|d: int|
                    0 <= d < self.header ==> self.lists@[d].len() <= start.lists@[d].len(),
                self.lists@[start.column@[item as int] as int] == start.lists@[start.column@[
                    item as int] as int],
                start.inv(),
                start.is_cell(item as int),
                ring == start.ring_after(item as int),
            decreases ring.len() - k,
        {
            let ghost before = *self;
            proof {
                lemma_ring(start, item as int);
            }
            self.remove_cell(j);
            proof {
                assert(ring.take(k + 1).drop_last() =~= ring.take(k));
                assert(ring.take(k + 1).last() == j);
                let c = start.column@[j as int] as int;
                assert(self.links() == rem(before.links(), j, c as usize));
                assert forall|q: int| k + 1 <= q < ring.len() implies self.visible(#[trigger] ring[q] as int) by {
                    assert(before.visible(ring[q] as int));
                    assert(ring[q] != j);
                    let d = start.column@[ring[q] as int] as int;
                    let bl = before.lists@[d];
                    if d == c {
                        let p = bl.index_of(j);
                        let idx = bl.index_of(ring[q]);
                        assert(bl[idx] == ring[q]);
                        let nidx = if idx < p { idx } else { idx - 1 };
                        assert(self.lists@[d][nidx] == ring[q]);
                    }
                }
                assert forall|d: int, x: usize|
                    0 <= d < self.header implies (#[trigger] self.lists@[d].contains(x) <==> (
                    start.lists@[d].contains(x) && !ring.take(k + 1).contains(x))) by {
                    let bl = before.lists@[d];
                    let nl = self.lists@[d];
                    if d == c {
                        let p = bl.index_of(j);
                        assert(bl.contains(j));
                        assert(nl == bl.remove(p));
                        assert(bl.no_duplicates()) by { assert(before.col_shape(d)); }
                        if nl.contains(x) {
                            let q = choose|q: int| 0 <= q < nl.len() && nl[q] == x;
                            let qq = if q < p { q } else { q + 1 };
                            assert(bl[qq] == x);
                            assert(x != j);
                        }
                        if bl.contains(x) && x != j {
                            let q = choose|q: int| 0 <= q < bl.len() && bl[q] == x;
                            let qq = if q < p { q } else { q - 1 };
                            assert(nl[qq] == x);
                        }
                    }
                    if ring.take(k + 1).contains(x) && x != j {
                        let tk = ring.take(k + 1);
                        let q = choose|q: int| 0 <= q < tk.len() && tk[q] == x;
                        assert(ring.take(k)[q] == x);
                    }
                    if ring.take(k).contains(x) {
                        let tk = ring.take(k);
                        let q = choose|q: int| 0 <= q < tk.len() && tk[q] == x;
                        assert(ring.take(k + 1)[q] == x);
                    }
                    if x == j {
                        assert(ring.take(k + 1)[k] == x);
                        if d != c {
                            if start.lists@[d].contains(x) {
                                assert(start.col_shape(d));
                                let q = choose|q: int| 0 <= q < start.lists@[d].len() && start.lists@[d][q] == x;
                                assert(start.column@[x as int] == d);
                            }
                        }
                    }
                }
                assert(c != start.column@[item as int]);
            }
            j = self.right[j];
            proof {
                k = k + 1;
            }
        }
        proof {
            assert(ring.take(ring.len() as int) =~= ring);
        }
    }
}

/// A visible cell is consistently linked into its column.
proof fn lemma_visible_linked(m: DLX, x: int)
    requires
        m.inv(),
        m.is_cell(x),
        m.visible(x),
    ensures
        linked(m.links(), x as usize),
{
    let c = m.column@[x] as int;
    assert(m.col_shape(c));
    let l = m.lists@[c];
    let p = l.index_of(x as usize);
    assert(l.contains(x as usize));
    assert(l[p] == x);
}

/// The links of a well-formed matrix point below its item count.
proof fn lemma_inv_bounded(m: DLX)
    requires
        m.inv(),
    ensures
        bounded(m.links(), m.items()),
{
}

/// A column list never holds more than the item count.
proof fn lemma_size_bounded(m: DLX, c: int)
    requires
        m.inv(),
        0 <= c < m.header,
    ensures
        m.size@[c] < m.items(),
{
    assert(m.col_shape(c));
    lemma_distinct_bounded(m.lists@[c], m.items());
    if m.lists@[c].len() == m.items() {
        let l = m.lists@[c];
        let s2 = l.push(m.header);
        assert(s2.no_duplicates()) by {
            assert forall|a: int, b: int| 0 <= a < s2.len() && 0 <= b < s2.len() && a != b implies s2[a] != s2[b] by {
                if a < l.len() && b < l.len() {
                } else if a < l.len() {
                    assert(m.is_cell(l[a] as int));
                } else {
                    assert(m.is_cell(l[b] as int));
                }
            }
        }
        lemma_distinct_bounded(s2, m.items());
    }
}

impl DLX {
    /// Links back every other cell of the row of `item`, walking left, so
    /// that the links are those of `state` before `hide_row(item)`.
    fn unhide_row(&mut self, item: usize, Ghost(state): Ghost<DLX>)
        requires
            state.inv(),
            state.is_cell(item as int),
            state.row_visible(item as int),
            old(self).same_frame(state),
            old(self).links() == state.hide_links(state.links(), item as int),
        ensures
            final(self).links() == state.links(),
            final(self).same_frame(state),
            final(self).lists == old(self).lists,
            final(self).open == old(self).open,
    {
        let ghost ring = state.ring_after(item as int);
        let ghost m = ring.len() as int;
        let ghost col = state.column@;
        proof {
            lemma_ring(state, item as int);
            lemma_inv_bounded(state);
            lemma_unlink_all_bounded(state.links(), ring, col, state.items());
            assert forall|j: int| 0 <= j < col.len() implies #[trigger] col[j] < state.links().size.len() by {}
            assert forall|k: int| 0 <= k < ring.len() implies 0 <= #[trigger] ring[k] < col.len() by {}
            lemma_unlink_all_frame(state.links(), ring, col);
            assert(ring.take(m) =~= ring);
        }
        let mut j = self.left[item];
        let ghost mut k: int = 0;
        while j != item
            invariant
                self.same_frame(state),
                self.lists == old(self).lists,
                self.open == old(self).open,
                state.inv(),
                state.is_cell(item as int),
                state.row_visible(item as int),
                ring == state.ring_after(item as int),
                m == ring.len(),
                col == state.column@,
                0 <= k <= m,
                j == (if k < m {
                    ring[m - 1 - k] as int
                } else {
                    item as int
                }),
                self.links() == unlink_all(state.links(), ring.take(m - k), col),
                self.left@ == state.left@,
                self.size@.len() == state.size@.len(),
                bounded(self.links(), state.items()),
            decreases m - k,
        {
            let ghost before = *self;
            let ghost y = unlink_all(state.links(), ring.take(m - k - 1), col);
            proof {
                lemma_ring(state, item as int);
                lemma_inv_bounded(state);
                let js = ring.take(m - k - 1);
                assert(ring.take(m - k).drop_last() =~= js);
                assert(ring.take(m - k).last() == j);
                assert(js.no_duplicates()) by {
                    assert forall|a: int, b: int| 0 <= a < js.len() && 0 <= b < js.len() && a != b implies js[a] != js[b] by {
                        assert(ring[a] != ring[b]);
                    }
                }
                assert forall|q: int| 0 <= q < js.len() implies linked(state.links(), #[trigger] js[q]) by {
                    assert(js[q] == ring[q]);
                    assert(state.visible(ring[q] as int));
                    lemma_visible_linked(state, ring[q] as int);
                }
                assert(!js.contains(j)) by {
                    if js.contains(j) {
                        let q = choose|q: int| 0 <= q < js.len() && js[q] == j;
                        assert(ring[q] == ring[m - 1 - k]);
                    }
                }
                assert(state.visible(j as int));
                lemma_visible_linked(state, j as int);
                lemma_unlink_all_keeps_linked(state.links(), js, col, j);
                assert forall|q: int| 0 <= q < js.len() implies 0 <= #[trigger] js[q] < col.len() by {
                    assert(js[q] == ring[q]);
                }
                assert forall|q: int| 0 <= q < col.len() implies #[trigger] col[q] < state.links().size.len() by {}
                lemma_unlink_all_frame(state.links(), js, col);
                lemma_ins_rem(y, j, col[j as int]);
                lemma_unlink_all_bounded(state.links(), js, col, state.items());
                lemma_size_bounded(state, col[j as int] as int);
                assert(y.size[col[j as int] as int] <= state.links().size[col[j as int] as int]);
                assert(self.links().size[col[j as int] as int] == y.size[col[j as int] as int] - 1);
                assert(self.size@[col[j as int] as int] == self.links().size[col[j as int] as int]);
            }
            let a = self.up[j];
            let b = self.down[j];
            let cj = self.column[j];
            let sz = self.size[cj];
            self.size.set(cj, sz + 1);
            self.up.set(b, j);
            self.down.set(a, j);
            proof {
                let r = ins(before.links(), j, cj);
                assert(self.links().size =~= r.size);
                assert(self.links().up =~= r.up);
                assert(self.links().down =~= r.down);
                assert(self.links() == y);
                assert(ring.take(m - k - 1) =~= ring.take(m - (k + 1)));
            }
            j = self.left[j];
            proof {
                k = k + 1;
            }
        }
        proof {
            assert(ring.take(0) =~= Seq::<usize>::empty());
        }
    }
}

impl DLX {
    /// Same arrays and ghost model as `o`.
    pub open spec fn same(&self, o: DLX) -> bool {
        &&& self.same_frame(o)
        &&& self.links() == o.links()
        &&& self.size@ == o.size@
        &&& self.lists == o.lists
        &&& self.open == o.open
    }

    /// Column `c` may be covered: it is linked horizontally (open when
    /// primary), and every row through it is wholly linked.
    pub open spec fn coverable(&self, c: int) -> bool {
        &&& 0 <= c < self.header
        &&& (c < self.required@ ==> self.open@.contains(c as usize))
        &&& forall|k: int|
            0 <= k < self.lists@[c].len() ==> self.row_visible(#[trigger] self.lists@[c][k] as int)
    }

    /// The open list with `c` taken out (unchanged for a secondary column).
    pub open spec fn open_without(&self, c: int) -> Seq<usize> {
        if c < self.required@ {
            self.open@.remove(self.open@.index_of(c as usize))
        } else {
            self.open@
        }
    }

    /// A cell of one of the rows through column `c` lies in another column.
    pub open spec fn in_hidden_row(&self, c: int, x: usize) -> bool {
        exists|q: int|
            0 <= q < self.lists@[c].len() && #[trigger] self.ring_after(self.lists@[c][q] as int).contains(x)
    }
}

/// `trace` records the states met while covering column `c` of `before`:
/// first the header unlinked, then one state after hiding each row.
#[verifier::opaque]
pub open spec fn cover_trace(before: DLX, c: int, trace: Seq<DLX>) -> bool {
    let l = before.lists@[c];
    &&& trace.len() == l.len() + 1
    &&& trace[0].links() == unlink_col(before.links(), c as usize)
    &&& trace[0].lists == before.lists
    &&& forall|k: int|
        0 <= k < trace.len() ==> (#[trigger] trace[k]).inv() && trace[k].same_frame(before)
            && trace[k].lists@[c] == l && trace[k].open@ == before.open_without(c)
    &&& forall|k: int|
        0 <= k < l.len() ==> (#[trigger] trace[k]).is_cell(l[k] as int) && trace[k].row_visible(
            l[k] as int,
        ) && trace[k + 1].links() == trace[k].hide_links(trace[k].links(), l[k] as int)
}

/// Every recorded state of a cover is well formed; the last is where it ended.
pub proof fn lemma_trace_last(before: DLX, c: int, trace: Seq<DLX>)
    requires
        cover_trace(before, c, trace),
    ensures
        trace.len() >= 1,
        trace.last().inv(),
        trace.last().same_frame(before),
{
    reveal(cover_trace);
    assert(trace[trace.len() - 1].inv());
}

/// Unlinking an open primary column keeps the open list a ring through
/// the sentinel, with that column taken out.
#[verifier::rlimit(100)]
proof fn lemma_unlink_primary(before: DLX, after: DLX, c: int)
    requires
        before.shape(),
        before.open_shape(),
        0 <= c < before.required@,
        before.open@.contains(c as usize),
        after.header == before.header,
        after.required == before.required,
        after.left@ == before.left@.update(before.right@[c] as int, before.left@[c]),
        after.right@ == before.right@.update(before.left@[c] as int, before.right@[c]),
        after.open@ == before.open_without(c),
    ensures
        after.open_shape(),
{
    let h = before.header as int;
    let a = before.left@[c] as int;
    let b = before.right@[c] as int;
    let o = before.open@;
    let p = o.index_of(c as usize);
    assert(0 <= p < o.len() && o[p] == c);
    let no = after.open@;
    assert(no == o.remove(p));
    assert(a == (if p > 0 { o[p - 1] as int } else { h }));
    assert(b == (if p + 1 < o.len() { o[p + 1] as int } else { h }));
    assert forall|k: int| 0 <= k < no.len() implies no[k] == (if k < p { o[k] } else { o[k + 1] }) by {}
    assert(no.no_duplicates()) by {
        assert forall|x: int, y: int| 0 <= x < no.len() && 0 <= y < no.len() && x != y implies no[x] != no[y] by {
            let xx = if x < p { x } else { x + 1 };
            let yy = if y < p { y } else { y + 1 };
            assert(o[xx] != o[yy]);
        }
    }
    assert forall|k: int| 0 <= k < no.len() implies #[trigger] no[k] < after.required@ by {
        let kk = if k < p { k } else { k + 1 };
        assert(o[kk] == no[k]);
    }
    assert forall|k: int| 0 <= k < no.len() implies #[trigger] after.right@[no[k] as int] == (if k + 1 < no.len() {
        no[k + 1] as int
    } else {
        h
    }) by {
        let kk = if k < p { k } else { k + 1 };
        assert(o[kk] == no[k]);
        assert(before.right@[o[kk] as int] == (if kk + 1 < o.len() { o[kk + 1] as int } else { h }));
    }
    assert forall|k: int| 0 <= k < no.len() implies #[trigger] after.left@[no[k] as int] == (if k > 0 {
        no[k - 1] as int
    } else {
        h
    }) by {
        let kk = if k < p { k } else { k + 1 };
        assert(o[kk] == no[k]);
        assert(before.left@[o[kk] as int] == (if kk > 0 { o[kk - 1] as int } else { h }));
    }
    assert forall|d: int| after.required@ <= d < h implies #[trigger] after.left@[d] == d && after.right@[d] == d by {
        assert(before.left@[d] == d);
    }
    if no.len() > 0 {
        assert(no[0] == (if p == 0 { o[1] } else { o[0] }));
        assert(no[no.len() - 1] == (if p == o.len() - 1 { o[o.len() - 2] } else { o[o.len() - 1] }));
    }
    assert(after.right@[h] == (if no.len() == 0 { h } else { no[0] as int }));
    assert(after.left@[h] == (if no.len() == 0 { h } else { no[no.len() - 1] as int }));
    assert(no.no_duplicates());
    assert(forall|k: int| 0 <= k < no.len() ==> #[trigger] no[k] < after.required@);
    assert(after.right@[h] == (if no.len() == 0 { h } else { no[0] as int }));
    assert(after.left@[h] == (if no.len() == 0 { h } else { no[no.len() - 1] as int }));
    assert(forall|k: int| 0 <= k < no.len() ==> #[trigger] after.right@[no[k] as int] == (if k + 1 < no.len() { no[k + 1] as int } else { h }));
    assert(forall|k: int| 0 <= k < no.len() ==> #[trigger] after.left@[no[k] as int] == (if k > 0 { no[k - 1] as int } else { h }));
    assert(forall|d: int| after.required@ <= d < h ==> #[trigger] after.left@[d] == d && after.right@[d] == d);
    assert(after.open_shape());
}

/// Unlinking an open (or self-linked secondary) column header keeps the
/// structural invariant, with the column taken out of the open list.
#[verifier::rlimit(100)]
proof fn lemma_unlink_open(before: DLX, after: DLX, c: int)
    requires
        before.inv(),
        0 <= c < before.header,
        c < before.required@ ==> before.open@.contains(c as usize),
        after.same_frame(before),
        after.links() == unlink_col(before.links(), c as usize),
        after.size@ == before.size@,
        after.lists == before.lists,
        after.open@ == before.open_without(c),
    ensures
        after.inv(),
{
    let h = before.header as int;
    let a = before.left@[c] as int;
    let b = before.right@[c] as int;
    assert(after.left@ == before.left@.update(b, a as usize));
    assert(after.right@ == before.right@.update(a, b as usize));
    assert(after.up@ == before.up@);
    assert(after.down@ == before.down@);
    if c < before.required@ {
        lemma_unlink_primary(before, after, c);
    } else {
        assert(a == c && b == c);
        assert(after.left@ =~= before.left@);
        assert(after.right@ =~= before.right@);
    }
    assert(after.shape());
    assert(after.row_shape());
    assert forall|d: int| 0 <= d < after.header implies #[trigger] after.col_shape(d) by {
        assert(before.col_shape(d));
    }
}

impl DLX {
    /// Covers the column of `item`: unlinks its header from the open list and
    /// hides every row through it from the other columns. Returns the states
    /// met on the way, which `uncover_column` walks back through.
    #[verifier::rlimit(60)]
    pub(crate) fn cover_column(&mut self, item: usize) -> (trace: Ghost<Seq<DLX>>)
        requires
            old(self).inv(),
            0 <= item < old(self).items(),
            old(self).coverable(old(self).column@[item as int] as int),
        ensures
            ({
                let c = old(self).column@[item as int] as int;
                &&& cover_trace(*old(self), c, trace@)
                &&& trace@.last() == *final(self)
                &&& final(self).inv()
                &&& final(self).same_frame(*old(self))
                &&& final(self).open@ == old(self).open_without(c)
                &&& final(self).lists@[c] == old(self).lists@[c]
                &&& forall|d: int, x: usize|
                    0 <= d < final(self).header ==> (#[trigger] final(self).lists@[d].contains(x) <==> (
                    old(self).lists@[d].contains(x) && !old(self).in_hidden_row(c, x)))
            }),
    {
        reveal(cover_trace);
        let ghost start = *self;
        let column = self.column[item];
        let ghost c = column as int;
        let ghost l = start.lists@[c];
        let a = self.left[column];
        let b = self.right[column];
        self.left.set(b, a);
        self.right.set(a, b);
        self.open = Ghost(start.open_without(c));
        proof {
            assert(self.links().left =~= unlink_col(start.links(), column).left);
            assert(self.links().right =~= unlink_col(start.links(), column).right);
            lemma_unlink_open(start, *self, c);
        }
        let ghost mut trace: Seq<DLX> = seq![*self];
        let mut i = self.down[column];
        let ghost mut k: int = 0;
        proof {
            assert(self.col_shape(c));
        }
        while i != column
            invariant
                start.inv(),
                start.coverable(c),
                c == column,
                l == start.lists@[c],
                0 <= k <= l.len(),
                i == (if k < l.len() {
                    l[k] as int
                } else {
                    c
                }),
                self.inv(),
                self.same_frame(start),
                self.open@ == start.open_without(c),
                self.lists@[c] == l,
                trace.len() == k + 1,
                trace.last() == *self,
                trace[0].links() == unlink_col(start.links(), column),
                trace[0].lists == start.lists,
                forall|q: int|
                    0 <= q < trace.len() ==> (#[trigger] trace[q]).inv() && trace[q].same_frame(start)
                        && trace[q].lists@[c] == l && trace[q].open@ == start.open_without(c),
                forall|q: int|
                    0 <= q < k ==> (#[trigger] trace[q]).is_cell(l[q] as int) && trace[q].row_visible(
                        l[q] as int,
                    ) && trace[q + 1].links() == trace[q].hide_links(trace[q].links(), l[q] as int),
                hidden_upto(start, *self, c, k),
            decreases l.len() - k,
        {
            proof {
                reveal(cover_trace);
            }
            proof {
                assert(self.col_shape(c));
                assert(start.col_shape(c));
                lemma_next_row_visible(start, *self, c, k);
            }
            let ghost before_hide = *self;
            self.hide_row(i);
            proof {
                trace = trace.push(*self);
                lemma_hidden_rows_step(start, before_hide, *self, c, k);
                assert(self.col_shape(c));
            }
            i = self.down[i];
            proof {
                k = k + 1;
            }
        }
        Ghost(trace)
    }

    /// Undoes `cover_column(item)` on `before`, whose recorded states are
    /// `trace`: unhides the rows walking up the column, then relinks its
    /// header. The arrays come back exactly as they were in `before`.
    pub(crate) fn uncover_column(&mut self, item: usize, Ghost(before): Ghost<DLX>, Ghost(trace): Ghost<Seq<DLX>>)
        requires
            before.inv(),
            0 <= item < before.items(),
            before.coverable(before.column@[item as int] as int),
            cover_trace(before, before.column@[item as int] as int, trace),
            old(self).same(trace.last()),
        ensures
            final(self).same(before),
    {
        reveal(cover_trace);
        let ghost c = before.column@[item as int] as int;
        let ghost l = before.lists@[c];
        let ghost n = l.len() as int;
        let column = self.column[item];
        proof {
            assert(trace[n].inv());
            lemma_same_inv(*self, trace[n]);
            assert(self.col_shape(c));
        }
        let mut i = self.up[column];
        let ghost mut k: int = n;
        while i != column
            invariant
                before.inv(),
                0 <= c < before.header,
                c == column,
                l == before.lists@[c],
                n == l.len(),
                cover_trace(before, c, trace),
                0 <= k <= n,
                self.same(trace[k]),
                i == (if k > 0 {
                    l[k - 1] as int
                } else {
                    c
                }),
            decreases k,
        {
            proof {
                reveal(cover_trace);
            }
            proof {
                assert(trace[k - 1].inv());
                assert(trace[k].inv());
            }
            self.unhide_row(i, Ghost(trace[k - 1]));
            self.lists = Ghost(trace[k - 1].lists@);
            self.open = Ghost(trace[k - 1].open@);
            proof {
                lemma_uncover_step(before, trace, *self, c, k - 1);
                k = k - 1;
            }
            i = self.up[i];
        }
        proof {
            assert(trace[0].inv());
            assert(before.open_shape());
            if c < before.required@ {
                let p = before.open@.index_of(c as usize);
                assert(before.open@[p] == c);
            }
            assert(before.left@[before.right@[c] as int] == c);
        }
        let a = self.left[column];
        let b = self.right[column];
        self.left.set(b, column);
        self.right.set(a, column);
        self.lists = Ghost(before.lists@);
        self.open = Ghost(before.open@);
        proof {
            lemma_relink_unlink(before.links(), column);
            assert(self.links().left =~= relink_col(unlink_col(before.links(), column), column).left);
            assert(self.links().right =~= relink_col(unlink_col(before.links(), column), column).right);
            lemma_size_view(*self);
            lemma_size_view(before);
            assert(self.size@ =~= before.size@);
        }
    }
}

/// Cells of `m` visible except those in the rows of the first `k` cells of column `c` of `start`.
pub open spec fn hidden_upto(start: DLX, m: DLX, c: int, k: int) -> bool {
    forall|d: int, x: usize|
        0 <= d < m.header ==> (#[trigger] m.lists@[d].contains(x) <==> (start.lists@[d].contains(x)
            && !(exists|q: int|
            0 <= q < k && #[trigger] start.ring_after(start.lists@[c][q] as int).contains(x))))
}

/// While covering column `c`, the next row through it is still wholly linked.
proof fn lemma_next_row_visible(start: DLX, m: DLX, c: int, k: int)
    requires
        start.inv(),
        start.coverable(c),
        m.inv(),
        m.same_frame(start),
        0 <= k < start.lists@[c].len(),
        hidden_upto(start, m, c, k),
    ensures
        m.row_visible(start.lists@[c][k] as int),
{
    let l = start.lists@[c];
    assert(start.col_shape(c));
    let x = l[k] as int;
    assert(start.row_visible(x));
    lemma_ring(start, x);
    assert forall|p: int| 0 <= p < m.ring_after(x).len() implies m.visible(
        #[trigger] m.ring_after(x)[p] as int) by {
        let y = start.ring_after(x)[p];
        assert(start.visible(y as int));
        let d = start.column@[y as int] as int;
        if exists|q: int| 0 <= q < k && #[trigger] start.ring_after(l[q] as int).contains(y) {
            let q = choose|q: int| 0 <= q < k && #[trigger] start.ring_after(l[q] as int).contains(y);
            lemma_ring(start, l[q] as int);
            assert(start.row@[y as int] == start.row@[l[q] as int]);
            assert(start.row@[y as int] == start.row@[x]);
            assert(start.column@[l[q] as int] == c);
            assert(start.column@[x] == c);
            assert(l[q] != l[k]);
        }
        assert(m.lists@[d].contains(y));
    }
}

/// Hiding the row of the `k`-th cell of column `c` extends `hidden_upto` by one.
proof fn lemma_hidden_rows_step(start: DLX, m: DLX, m2: DLX, c: int, k: int)
    requires
        hidden_upto(start, m, c, k),
        0 <= k < start.lists@[c].len(),
        m2.header == m.header,
        forall|d: int, x: usize|
            0 <= d < m2.header ==> (#[trigger] m2.lists@[d].contains(x) <==> (m.lists@[d].contains(x)
                && !m.ring_after(start.lists@[c][k] as int).contains(x))),
        m.same_frame(start),
    ensures
        hidden_upto(start, m2, c, k + 1),
{
    let l = start.lists@[c];
    assert(m.ring_after(l[k] as int) == start.ring_after(l[k] as int));
    assert forall|d: int, x: usize| 0 <= d < m2.header implies (#[trigger] m2.lists@[d].contains(x) <==> (
        start.lists@[d].contains(x) && !(exists|q: int|
            0 <= q < k + 1 && #[trigger] start.ring_after(l[q] as int).contains(x)))) by {
        if start.ring_after(l[k] as int).contains(x) {
            assert(exists|q: int| 0 <= q < k + 1 && #[trigger] start.ring_after(l[q] as int).contains(x));
        }
        if exists|q: int| 0 <= q < k && #[trigger] start.ring_after(l[q] as int).contains(x) {
            let q = choose|q: int| 0 <= q < k && #[trigger] start.ring_after(l[q] as int).contains(x);
            assert(exists|q: int| 0 <= q < k + 1 && #[trigger] start.ring_after(l[q] as int).contains(x));
        }
        if exists|q: int| 0 <= q < k + 1 && #[trigger] start.ring_after(l[q] as int).contains(x) {
            let q = choose|q: int| 0 <= q < k + 1 && #[trigger] start.ring_after(l[q] as int).contains(x);
            if q < k {
                assert(exists|q: int| 0 <= q < k && #[trigger] start.ring_after(l[q] as int).contains(x));
            }
        }
    }
}

/// The integer sizes of `links` are the sizes of the matrix.
pub(crate) proof fn lemma_size_view(m: DLX)
    ensures
        m.links().size.len() == m.size@.len(),
        forall|q: int| 0 <= q < m.size@.len() ==> m.links().size[q] == #[trigger] m.size@[q],
{
}

/// After unhiding the `k`-th row while uncovering column `c`, the matrix
/// is the `k`-th recorded state, and walking up reaches the row above.
proof fn lemma_uncover_step(before: DLX, trace: Seq<DLX>, m: DLX, c: int, k: int)
    requires
        cover_trace(before, c, trace),
        0 <= c < before.header,
        0 <= k < trace.len() - 1,
        m.links() == trace[k].links(),
        m.same_frame(trace[k]),
        m.lists == trace[k].lists,
        m.open == trace[k].open,
    ensures
        m.same(trace[k]),
        m.up@[before.lists@[c][k] as int] == (if k > 0 {
            before.lists@[c][k - 1] as int
        } else {
            c
        }),
        m.inv(),
{
    reveal(cover_trace);
    let t = trace[k];
    assert(t.inv());
    lemma_size_view(m);
    lemma_size_view(t);
    assert(m.size@ =~= t.size@);
    assert(t.col_shape(c));
    lemma_same_inv(m, t);
}

/// Equal arrays and ghost model carry the structural invariant.
pub(crate) proof fn lemma_same_inv(a: DLX, b: DLX)
    requires
        a.same(b),
        b.inv(),
    ensures
        a.inv(),
{
    assert(a.left@ == b.left@);
    assert(a.right@ == b.right@);
    assert(a.up@ == b.up@);
    assert(a.down@ == b.down@);
    assert(a.size@ == b.size@);
    assert(a.column@ == b.column@);
    assert(a.row@ == b.row@);
    assert(a.lists@ == b.lists@);
    assert(a.open@ == b.open@);
    assert(a.starts@ == b.starts@);
    assert(a.shape());
    assert(a.row_shape());
    assert(a.open_shape());
    assert forall|c: int| 0 <= c < a.header implies #[trigger] a.col_shape(c) by {
        assert(b.col_shape(c));
    }
}

/// The indices of the non-zero entries of `bits`, in increasing order.
pub open spec fn support(bits: Seq<u8>) -> Seq<usize>
    decreases bits.len(),
{
    if bits.len() == 0 {
        Seq::empty()
    } else if bits.last() > 0 {
        support(bits.drop_last()).push((bits.len() - 1) as usize)
    } else {
        support(bits.drop_last())
    }
}

/// The support of a dense row is increasing and in range.
proof fn lemma_support(bits: Seq<u8>)
    requires
        bits.len() < usize::MAX,
    ensures
        support(bits).len() <= bits.len(),
        forall|k: int| 0 <= k < support(bits).len() ==> #[trigger] support(bits)[k] < bits.len(),
        forall|a: int, b: int|
            0 <= a < b < support(bits).len() ==> support(bits)[a] < support(bits)[b],
    decreases bits.len(),
{
    if bits.len() > 0 {
        lemma_support(bits.drop_last());
    }
}

/// The index of item `x` after `k` steps down.
pub open spec fn walk_down(m: DLX, x: int, k: nat) -> int
    decreases k,
{
    if k == 0 {
        x
    } else {
        m.down@[walk_down(m, x, (k - 1) as nat)] as int
    }
}

/// In every state of a search, walking down from a column header returns
/// to it after exactly one more step than the column's recorded size.
pub proof fn lemma_size_is_walk_length(m: DLX, c: int)
    requires
        m.inv(),
        0 <= c < m.header,
    ensures
        walk_down(m, c, (m.size@[c] + 1) as nat) == c,
        forall|k: nat| 1 <= k <= m.size@[c] ==> walk_down(m, c, k) != c,
{
    assert(m.col_shape(c));
    let l = m.lists@[c];
    assert forall|k: nat| 1 <= k <= l.len() implies walk_down(m, c, k) == l[k - 1] as int by {
        lemma_walk_list(m, c, k);
    }
    let len = l.len();
    assert(walk_down(m, c, len + 1) == m.down@[walk_down(m, c, len)] as int);
    if len > 0 {
        lemma_walk_list(m, c, len);
        assert(m.down@[l[len - 1] as int] == c);
    } else {
        assert(walk_down(m, c, 0) == c);
    }
    assert forall|k: nat| 1 <= k <= m.size@[c] implies walk_down(m, c, k) != c by {
        lemma_walk_list(m, c, k);
        assert(m.is_cell(l[k - 1] as int));
    }
}

/// Walking down `k` steps from a header reaches the `k`-th cell of its list.
proof fn lemma_walk_list(m: DLX, c: int, k: nat)
    requires
        m.inv(),
        0 <= c < m.header,
        m.col_shape(c),
        1 <= k <= m.lists@[c].len(),
    ensures
        walk_down(m, c, k) == m.lists@[c][k - 1] as int,
    decreases k,
{
    let l = m.lists@[c];
    assert(walk_down(m, c, k) == m.down@[walk_down(m, c, (k - 1) as nat)] as int);
    if k > 1 {
        lemma_walk_list(m, c, (k - 1) as nat);
        assert(m.down@[l[k - 2] as int] == l[k - 1] as int);
    } else {
        assert(walk_down(m, c, 0) == c);
    }
}

impl DLX {
    /// The inserted rows, each as its column indices in insertion order.
    pub fn export(&self) -> (r: Vec<Vec<usize>>)
        requires
            self.inv(),
        ensures
            r@.len() == self.rows,
            forall|i: int| 0 <= i < self.rows ==> (#[trigger] r@[i])@ == self.rows_view()[i],
    {
        let mut out: Vec<Vec<usize>> = Vec::new();
        let n = self.column.len();
        let mut item = self.header + 1;
        let mut r: usize = 0;
        while r < self.rows
            invariant
                self.inv(),
                n == self.items(),
                r <= self.rows,
                item == self.starts@[r as int],
                out@.len() == r,
                forall|i: int| 0 <= i < r ==> (#[trigger] out@[i])@ == self.rows_view()[i],
            decreases self.rows - r,
        {
            let mut cur: Vec<usize> = Vec::new();
            let ghost st = item as int;
            while item < n && self.row[item] == r
                invariant
                    self.inv(),
                    n == self.items(),
                    r < self.rows,
                    st == self.starts@[r as int],
                    st <= item <= self.starts@[r + 1],
                    cur@ == Seq::new((item - st) as nat, |k: int| self.column@[st + k]),
                decreases n - item,
            {
                proof {
                    assert(self.starts@[r + 1] <= self.starts@[self.rows as int]);
                    if item == self.starts@[r + 1] {
                        let y = item as int;
                        assert(self.is_cell(y));
                        assert(self.lo(y) <= y < self.hi(y));
                        let ry = self.row@[y] as int;
                        if ry <= r {
                            assert(self.starts@[ry + 1] <= self.starts@[r + 1]);
                        }
                    }
                }
                cur.push(self.column[item]);
                item = item + 1;
                proof {
                    assert(cur@ =~= Seq::new((item - st) as nat, |k: int| self.column@[st + k]));
                }
            }
            proof {
                assert(self.starts@[r + 1] <= self.starts@[self.rows as int]);
                if item < self.starts@[r + 1] {
                    let y = item as int;
                    assert(self.is_cell(y));
                    crate::matrix::lemma_row_of_start_range(*self, r as int, y);
                }
                assert(cur@ =~= self.rows_view()[r as int]);
            }
            out.push(cur);
            r = r + 1;
        }
        out
    }

    /// Appends a row given densely, one entry per column (non-zero where the
    /// row has a cell). A row of the wrong length is refused.
    pub fn append_dense_row(&mut self, row: &[u8]) -> (r: bool)
        requires
            old(self).wf(),
            old(self).items() + row@.len() < usize::MAX,
            old(self).rows < usize::MAX,
        ensures
            r == (row@.len() == old(self).header),
            r ==> final(self).wf() && final(self).rows_view() == old(self).rows_view().push(
                support(row@),
            ) && final(self).items() == old(self).items() + support(row@).len(),
            !r ==> *final(self) == *old(self),
            final(self).header == old(self).header,
            final(self).primary() == old(self).primary(),
            final(self).rows == old(self).rows + (if r { 1int } else { 0 }),
    {
        if row.len() != self.header {
            return false;
        }
        let mut scratch: Vec<usize> = Vec::new();
        let mut i: usize = 0;
        while i < self.header
            invariant
                i <= self.header,
                row@.len() == self.header,
                scratch@ == support(row@.take(i as int)),
            decreases self.header - i,
        {
            proof {
                assert(row@.take(i + 1).drop_last() =~= row@.take(i as int));
            }
            if row[i] > 0 {
                scratch.push(i);
            }
            i = i + 1;
        }
        proof {
            assert(row@.take(row@.len() as int) =~= row@);
            lemma_support(row@);
            assert(scratch@.no_duplicates()) by {
                assert forall|a: int, b: int| 0 <= a < scratch@.len() && 0 <= b < scratch@.len() && a != b implies scratch@[a] != scratch@[b] by {
                    if a < b {
                        assert(scratch@[a] < scratch@[b]);
                    } else {
                        assert(scratch@[b] < scratch@[a]);
                    }
                }
            }
        }
        self.insert_row(scratch.as_slice());
        true
    }
}

/// A cell in the range of row `r` belongs to it.
pub(crate) proof fn lemma_row_of_start_range(m: DLX, r: int, y: int)
    requires
        m.shape(),
        m.row_shape(),
        0 <= r < m.rows,
        m.starts@[r] <= y < m.starts@[r + 1],
    ensures
        m.row@[y] == r,
{
    assert(m.starts@[0] <= m.starts@[r]);
    assert(m.starts@[r + 1] <= m.starts@[m.rows as int]);
    assert(m.is_cell(y));
    assert(m.lo(y) <= y < m.hi(y));
    let ry = m.row@[y] as int;
    if ry < r {
        assert(m.starts@[ry + 1] <= m.starts@[r]);
    } else if ry > r {
        assert(m.starts@[r + 1] <= m.starts@[ry]);
    }
}

impl DLX {
    /// Each open column, from left to right, with its size and the cells
    /// linked below it from top to bottom.
    pub fn open_columns(&self) -> (r: Vec<(usize, usize, Vec<usize>)>)
        requires
            self.inv(),
        ensures
            r@.len() == self.open@.len(),
            forall|k: int|
                0 <= k < r@.len() ==> (#[trigger] r@[k]).0 == self.open@[k] && r@[k].1
                    == self.size@[self.open@[k] as int] && r@[k].2@ == self.lists@[self.open@[
                    k] as int],
    {
        let h = self.header;
        let ghost o = self.open@;
        let mut out: Vec<(usize, usize, Vec<usize>)> = Vec::new();
        let mut col = h;
        let ghost mut k: int = 0;
        loop
            invariant_except_break
                col == (if k == 0 {
                    h as int
                } else {
                    o[k - 1] as int
                }),
            invariant
                self.inv(),
                h == self.header,
                o == self.open@,
                0 <= k <= o.len(),
                out@.len() == k,
                forall|q: int|
                    0 <= q < k ==> (#[trigger] out@[q]).0 == o[q] && out@[q].1 == self.size@[o[
                        q] as int] && out@[q].2@ == self.lists@[o[q] as int],
            ensures
                out@.len() == o.len(),
                forall|q: int|
                    0 <= q < o.len() ==> (#[trigger] out@[q]).0 == o[q] && out@[q].1 == self.size@[o[
                        q] as int] && out@[q].2@ == self.lists@[o[q] as int],
            decreases o.len() - k,
        {
            proof {
                assert(self.open_shape());
            }
            col = self.right[col];
            if col == h {
                proof {
                    if k < o.len() {
                        assert(o[k] < self.required@);
                    }
                }
                break;
            }
            proof {
                assert(k < o.len());
                assert(o[k] < self.required@);
                assert(self.col_shape(col as int));
            }
            let ghost l = self.lists@[col as int];
            let mut cells: Vec<usize> = Vec::new();
            let mut item = self.down[col];
            let ghost mut i: int = 0;
            while item != col
                invariant
                    self.inv(),
                    0 <= col < self.header,
                    l == self.lists@[col as int],
                    self.col_shape(col as int),
                    0 <= i <= l.len(),
                    item == (if i < l.len() {
                        l[i] as int
                    } else {
                        col as int
                    }),
                    cells@ == l.take(i),
                decreases l.len() - i,
            {
                proof {
                    assert(self.is_cell(l[i] as int));
                }
                cells.push(item);
                item = self.down[item];
                proof {
                    i = i + 1;
                    assert(cells@ =~= l.take(i));
                }
            }
            proof {
                assert(l.take(l.len() as int) =~= l);
            }
            let sz = self.size[col];
            out.push((col, sz, cells));
            proof {
                k = k + 1;
            }
        }
        out
    }
}

/// Cells between the bounds of the row of `i` belong to that row.
pub(crate) proof fn lemma_same_row(m: DLX, i: int, y: int)
    requires
        m.shape(),
        m.row_shape(),
        m.is_cell(i),
        m.lo(i) <= y < m.hi(i),
    ensures
        m.is_cell(y),
        m.row@[y] == m.row@[i],
        m.lo(y) == m.lo(i),
        m.hi(y) == m.hi(i),
{
    assert(m.lo(i) <= i < m.hi(i));
    assert(m.starts@[0] <= m.lo(i));
    assert(m.hi(i) <= m.starts@[m.rows as int]);
    assert(m.lo(y) <= y < m.hi(y));
    let ry = m.row@[y] as int;
    let ri = m.row@[i] as int;
    if ry < ri {
        assert(m.starts@[ry + 1] <= m.starts@[ri]);
    } else if ry > ri {
        assert(m.starts@[ri + 1] <= m.starts@[ry]);
    }
}

/// Walking right from a cell meets the rest of its row in `ring_after`
/// order and comes back; walking left meets them in reverse.
pub(crate) proof fn lemma_ring(m: DLX, i: int)
    requires
        m.shape(),
        m.row_shape(),
        m.is_cell(i),
    ensures
        ({
            let ring = m.ring_after(i);
            let len = ring.len() as int;
            &&& len == m.hi(i) - m.lo(i) - 1
            &&& m.right@[i] == (if len > 0 {
                ring[0] as int
            } else {
                i
            })
            &&& m.left@[i] == (if len > 0 {
                ring[len - 1] as int
            } else {
                i
            })
            &&& forall|k: int|
                0 <= k < len ==> m.is_cell(#[trigger] ring[k] as int) && m.row@[ring[k] as int]
                    == m.row@[i] && ring[k] != i
            &&& forall|k: int|
                0 <= k < len ==> #[trigger] m.right@[ring[k] as int] == (if k + 1 < len {
                    ring[k + 1] as int
                } else {
                    i
                })
            &&& forall|k: int|
                0 <= k < len ==> #[trigger] m.left@[ring[k] as int] == (if k > 0 {
                    ring[k - 1] as int
                } else {
                    i
                })
            &&& ring.no_duplicates()
            &&& forall|y: int|
                m.is_cell(y) && #[trigger] m.row@[y] == m.row@[i] && y != i ==> ring.contains(
                    y as usize,
                )
        }),
{
    let ring = m.ring_after(i);
    let len = ring.len() as int;
    let lo = m.lo(i);
    let hi = m.hi(i);
    let w = hi - lo;
    assert(lo <= i < hi);
    assert forall|k: int| 0 <= k < len implies m.is_cell(#[trigger] ring[k] as int) && m.row@[
        ring[k] as int] == m.row@[i] && ring[k] != i by {
        lemma_same_row(m, i, ring[k] as int);
    }
    assert forall|k: int| 0 <= k < len implies #[trigger] m.right@[ring[k] as int] == (if k + 1
        < len {
        ring[k + 1] as int
    } else {
        i
    }) by {
        lemma_same_row(m, i, ring[k] as int);
    }
    assert forall|k: int| 0 <= k < len implies #[trigger] m.left@[ring[k] as int] == (if k > 0 {
        ring[k - 1] as int
    } else {
        i
    }) by {
        lemma_same_row(m, i, ring[k] as int);
    }
    if len > 0 {
        lemma_same_row(m, i, ring[0] as int);
        lemma_same_row(m, i, ring[len - 1] as int);
    }
    assert forall|a: int, b: int| 0 <= a < len && 0 <= b < len && a != b implies ring[a]
        != ring[b] by {}
    assert forall|y: int| m.is_cell(y) && #[trigger] m.row@[y] == m.row@[i] && y != i implies ring.contains(
        y as usize,
    ) by {
        assert(m.lo(y) <= y < m.hi(y));
        let k = if y > i {
            y - i - 1
        } else {
            y - i - 1 + w
        };
        assert(ring[k] == y);
    }
}

/// `after` is `before` with visible cell `j` unlinked from its column.
pub open spec fn removed(before: DLX, after: DLX, j: int) -> bool {
    let c = before.column@[j] as int;
    let l = before.lists@[c];
    let p = l.index_of(j as usize);
    &&& after.links() == rem(before.links(), j as usize, c as usize)
    &&& after.lists@ == before.lists@.update(c, l.remove(p))
    &&& after.same_frame(before)
    &&& after.open == before.open
}

impl DLX {
    /// Everything but the links and the column lists is the same.
    pub open spec fn same_frame(&self, o: DLX) -> bool {
        &&& self.header == o.header
        &&& self.rows == o.rows
        &&& self.column@ == o.column@
        &&& self.row@ == o.row@
        &&& self.required == o.required
        &&& self.starts == o.starts
    }

    /// Cell `x` is linked into its column.
    pub open spec fn visible(&self, x: int) -> bool {
        self.lists@[self.column@[x] as int].contains(x as usize)
    }
}

/// Unlinking a visible cell keeps the structural invariant, with the cell
/// taken out of its column's list.
#[verifier::rlimit(100)]
proof fn lemma_remove_cell(before: DLX, after: DLX, j: int)
    requires
        before.inv(),
        before.is_cell(j),
        before.visible(j),
        after.left@.len() == before.left@.len(),
        after.up@.len() == before.up@.len(),
        after.down@.len() == before.down@.len(),
        after.size@.len() == before.size@.len(),
        after.right@.len() == before.right@.len(),
        removed(before, after, j),
    ensures
        after.inv(),
{
    let c = before.column@[j] as int;
    let l = before.lists@[c];
    let p = l.index_of(j as usize);
    let len = l.len() as int;
    assert(before.col_shape(c));
    assert(l.contains(j as usize));
    assert(0 <= p < len && l[p] == j);
    let a = before.up@[j] as int;
    let b = before.down@[j] as int;
    assert(a == (if p > 0 { l[p - 1] as int } else { c }));
    assert(b == (if p + 1 < len { l[p + 1] as int } else { c }));
    assert(after.left@ == before.left@);
    assert(after.right@ == before.right@);
    assert(after.up@ == before.up@.update(b, a as usize));
    assert(after.down@ == before.down@.update(a, b as usize));
    assert(after.size@.map_values(|v: usize| v as int) == before.size@.map_values(|v: usize| v as int).update(c, before.size@[c] - 1));
    assert forall|x: int| 0 <= x < after.size@.len() implies after.size@[x] == (if x == c { before.size@[c] - 1 } else { before.size@[x] as int }) by {
        assert(after.size@.map_values(|v: usize| v as int)[x] == after.size@[x]);
    }
    assert(after.shape());
    assert(after.row_shape());
    assert(after.open_shape());
    assert forall|d: int| 0 <= d < after.header implies #[trigger] after.col_shape(d) by {
        assert(before.col_shape(d));
        if d == c {
            let nl = after.lists@[d];
            assert(nl == l.remove(p));
            assert(nl.len() == len - 1);
            assert forall|k: int| 0 <= k < nl.len() implies nl[k] == (if k < p { l[k] } else { l[k + 1] }) by {}
            assert(nl.no_duplicates()) by {
                assert forall|x: int, y: int| 0 <= x < nl.len() && 0 <= y < nl.len() && x != y implies nl[x] != nl[y] by {
                    let xx = if x < p { x } else { x + 1 };
                    let yy = if y < p { y } else { y + 1 };
                    assert(l[xx] != l[yy]);
                }
            }
            assert forall|k: int| 0 <= k < nl.len() implies after.is_cell(#[trigger] nl[k] as int)
                && after.column@[nl[k] as int] == d by {
                let kk = if k < p { k } else { k + 1 };
                assert(l[kk] == nl[k]);
            }
            assert forall|k: int| 0 <= k < nl.len() implies #[trigger] after.down@[nl[k] as int] == (if k + 1 < nl.len() {
                nl[k + 1] as int
            } else {
                d
            }) by {
                let kk = if k < p { k } else { k + 1 };
                assert(l[kk] == nl[k]);
                assert(before.down@[l[kk] as int] == (if kk + 1 < len { l[kk + 1] as int } else { c }));
            }
            assert forall|k: int| 0 <= k < nl.len() implies #[trigger] after.up@[nl[k] as int] == (if k > 0 {
                nl[k - 1] as int
            } else {
                d
            }) by {
                let kk = if k < p { k } else { k + 1 };
                assert(l[kk] == nl[k]);
                assert(before.up@[l[kk] as int] == (if kk > 0 { l[kk - 1] as int } else { c }));
            }
        } else {
            let dl = before.lists@[d];
            assert(a == c || before.column@[a] == c);
            assert(b == c || before.column@[b] == c);
            assert forall|k: int| 0 <= k < dl.len() implies #[trigger] after.down@[dl[k] as int]
                == before.down@[dl[k] as int] by {
                assert(before.column@[dl[k] as int] == d);
            }
            assert forall|k: int| 0 <= k < dl.len() implies #[trigger] after.up@[dl[k] as int]
                == before.up@[dl[k] as int] by {
                assert(before.column@[dl[k] as int] == d);
            }
        }
    }
}

/// The entries of `s` in order, each kept at its first occurrence only.
pub open spec fn distinct_cols(s: Seq<usize>) -> Seq<usize>
    decreases s.len(),
{
    if s.len() == 0 {
        Seq::empty()
    } else {
        let p = distinct_cols(s.drop_last());
        if p.contains(s.last()) {
            p
        } else {
            p.push(s.last())
        }
    }
}

/// A sequence of distinct values below `n` has at most `n` elements.
pub proof fn lemma_distinct_bounded(s: Seq<usize>, n: int)
    requires
        s.no_duplicates(),
        forall|k: int| 0 <= k < s.len() ==> #[trigger] s[k] < n,
        0 <= n,
    ensures
        s.len() <= n,
{
    let m = s.map_values(|v: usize| v as int);
    assert(m.no_duplicates()) by {
        assert forall|i: int, j: int| 0 <= i < m.len() && 0 <= j < m.len() && i != j implies m[i]
            != m[j] by {
            assert(s[i] != s[j]);
        }
    }
    m.unique_seq_to_set();
    vstd::set_lib::lemma_int_range(0, n);
    assert(m.to_set().subset_of(vstd::set_lib::set_int_range(0, n))) by {
        assert forall|v: int| m.to_set().contains(v) implies vstd::set_lib::set_int_range(
            0,
            n,
        ).contains(v) by {
            let k = choose|k: int| 0 <= k < m.len() && m[k] == v;
            assert(s[k] < n);
        }
    }
    vstd::set_lib::lemma_len_subset(m.to_set(), vstd::set_lib::set_int_range(0, n));
}

} // verus!
