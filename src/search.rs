//! Knuth's Algorithm X over a dancing-links matrix, driven by an explicit
//! stack of frames so that solutions can be pulled one at a time.
use vstd::prelude::*;
use crate::matrix::{
    DLX, lemma_row_of_start_range, cover_trace, lemma_distinct_bounded, lemma_ring, lemma_same_inv, lemma_trace_last,
};

verus! {

/// One cover made on the way down: the state it started from, the item
/// whose column was covered, and the states it went through.
pub ghost struct CoverStep {
    pub before: DLX,
    pub item: usize,
    pub trace: Seq<DLX>,
}

/// Every column outside `cov` is linked, and the rows through it are
/// wholly linked and avoid `cov`.
#[verifier::opaque]
pub open spec fn closed(m: DLX, cov: Set<int>) -> bool {
    &&& forall|c: int| #[trigger] cov.contains(c) ==> 0 <= c < m.header
    &&& forall|c: int|
        0 <= c < m.required@ ==> (#[trigger] m.open@.contains(c as usize) <==> !cov.contains(c))
    &&& forall|d: int, k: int|
        0 <= d < m.header && !cov.contains(d) && 0 <= k < m.lists@[d].len() ==> {
            let x = #[trigger] m.lists@[d][k] as int;
            &&& m.row_visible(x)
            &&& forall|q: int|
                0 <= q < m.ring_after(x).len() ==> !cov.contains(
                    m.column@[#[trigger] m.ring_after(x)[q] as int] as int,
                )
        }
    &&& forall|y: int| #![trigger m.visible(y)] m.is_cell(y) && row_clear(m, y, cov) ==> m.visible(y)
}

/// No cell of the row of `y` lies in a column of `cov`.
pub open spec fn row_clear(m: DLX, y: int, cov: Set<int>) -> bool {
    forall|z: int|
        m.is_cell(z) && #[trigger] m.row@[z] == m.row@[y] ==> !cov.contains(m.column@[z] as int)
}

/// Covering an uncovered column keeps the closure, with that column added.
proof fn lemma_cover_closed(m: DLX, m2: DLX, cov: Set<int>, c: int)
    requires
        m.inv(),
        closed(m, cov),
        !cov.contains(c),
        0 <= c < m.header,
        m2.inv(),
        m2.same_frame(m),
        m2.open@ == m.open_without(c),
        m2.lists@[c] == m.lists@[c],
        forall|d: int, x: usize|
            0 <= d < m2.header ==> (#[trigger] m2.lists@[d].contains(x) <==> (m.lists@[d].contains(x)
                && !m.in_hidden_row(c, x))),
    ensures
        closed(m2, cov.insert(c)),
{
    reveal(closed);
    let cov2 = cov.insert(c);
    let l = m.lists@[c];
    assert forall|c2: int| 0 <= c2 < m2.required@ implies (#[trigger] m2.open@.contains(c2 as usize)
        <==> !cov2.contains(c2)) by {
        assert(m.open@.contains(c2 as usize) <==> !cov.contains(c2));
        if c < m.required@ {
            let o = m.open@;
            assert(o.contains(c as usize));
            let p = o.index_of(c as usize);
            assert(o.no_duplicates());
            let no = o.remove(p);
            if no.contains(c2 as usize) {
                let i = choose|i: int| 0 <= i < no.len() && no[i] == c2 as usize;
                let ii = if i < p { i } else { i + 1 };
                assert(o[ii] == c2);
                assert(ii != p);
            }
            if o.contains(c2 as usize) && c2 != c {
                let i = choose|i: int| 0 <= i < o.len() && o[i] == c2 as usize;
                let ni = if i < p { i } else { i - 1 };
                assert(no[ni] == c2);
            }
        } else {
            assert(forall|k: int| 0 <= k < m.open@.len() ==> #[trigger] m.open@[k] < m.required@);
        }
    }
    assert forall|d: int, k: int|
        0 <= d < m2.header && !cov2.contains(d) && 0 <= k < m2.lists@[d].len() implies {
            let x = #[trigger] m2.lists@[d][k] as int;
            &&& m2.row_visible(x)
            &&& forall|q: int|
                0 <= q < m2.ring_after(x).len() ==> !cov2.contains(
                    m2.column@[#[trigger] m2.ring_after(x)[q] as int] as int,
                )
        } by {
        let xu = m2.lists@[d][k];
        let x = xu as int;
        assert(m2.lists@[d].contains(xu));
        assert(m.lists@[d].contains(xu) && !m.in_hidden_row(c, xu));
        let k0 = choose|k0: int| 0 <= k0 < m.lists@[d].len() && m.lists@[d][k0] == xu;
        assert(m.col_shape(d));
        assert(m.is_cell(x) && m.column@[x] == d);
        assert(m.row_visible(x));
        lemma_ring(m, x);
        let rx = m.ring_after(x);
        assert forall|q: int| 0 <= q < rx.len() implies m2.visible(#[trigger] rx[q] as int)
            && !cov2.contains(m2.column@[rx[q] as int] as int) by {
            let y = rx[q];
            assert(m.visible(y as int));
            assert(!cov.contains(m.column@[y as int] as int));
            let cy = m.column@[y as int] as int;
            assert(m.is_cell(y as int) && m.row@[y as int] == m.row@[x] && y != xu);
            if m.in_hidden_row(c, y) {
                let q2 = choose|q2: int|
                    0 <= q2 < l.len() && #[trigger] m.ring_after(l[q2] as int).contains(y);
                let z = l[q2] as int;
                assert(m.col_shape(c));
                assert(m.is_cell(z) && m.column@[z] == c);
                lemma_ring(m, z);
                let i2 = m.ring_after(z).index_of(y);
                assert(m.row@[y as int] == m.row@[z]);
                assert(x != z);
                assert(m.ring_after(z).contains(xu));
                assert(m.in_hidden_row(c, xu));
            }
            if cy == c {
                assert(m.col_shape(c));
                let q2 = l.index_of(y);
                assert(l.contains(y));
                let z = l[q2] as int;
                assert(z == y);
                lemma_ring(m, z);
                assert(m.ring_after(z).contains(xu));
                assert(m.in_hidden_row(c, xu));
            }
            assert(m2.lists@[cy].contains(y));
        }
    }
    assert forall|y: int| #![trigger m2.visible(y)] m2.is_cell(y) && row_clear(m2, y, cov2) implies m2.visible(y) by {
        assert(row_clear(m, y, cov)) by {
            assert forall|z: int| m.is_cell(z) && #[trigger] m.row@[z] == m.row@[y] implies !cov.contains(m.column@[z] as int) by {
                assert(m2.row@[z] == m2.row@[y]);
            }
        }
        assert(m.row@[y] == m.row@[y]);
        assert(m.visible(y));
        let cy = m.column@[y] as int;
        assert(!cov2.contains(cy));
        if m.in_hidden_row(c, y as usize) {
            let q2 = choose|q2: int|
                0 <= q2 < l.len() && #[trigger] m.ring_after(l[q2] as int).contains(y as usize);
            let z = l[q2] as int;
            assert(m.col_shape(c));
            assert(m.is_cell(z) && m.column@[z] == c);
            lemma_ring(m, z);
            let i2 = m.ring_after(z).index_of(y as usize);
            assert(m.row@[y] == m.row@[z]);
            assert(m2.row@[z] == m2.row@[y]);
            assert(!cov2.contains(m2.column@[z] as int));
        }
        assert(m2.lists@[cy].contains(y as usize));
    }
}

/// The columns of the cells of the row of `x` other than `x`.
pub open spec fn ring_cols(m: DLX, x: int) -> Set<int> {
    Set::new(
        |c: int|
            exists|q: int|
                0 <= q < m.ring_after(x).len() && m.column@[#[trigger] m.ring_after(x)[q] as int] == c,
    )
}

/// `steps` covered, in order, the columns of the cells `items`, starting
/// from `base`.
#[verifier::opaque]
pub open spec fn chain_ok(base: DLX, items: Seq<usize>, steps: Seq<CoverStep>) -> bool {
    &&& steps.len() == items.len()
    &&& forall|q: int|
        0 <= q < steps.len() ==> {
            let st = #[trigger] steps[q];
            &&& st.item == items[q]
            &&& st.before.inv()
            &&& 0 <= st.item < st.before.items()
            &&& st.before.coverable(st.before.column@[st.item as int] as int)
            &&& cover_trace(st.before, st.before.column@[st.item as int] as int, st.trace)
            &&& st.before.same_frame(base)
        }
    &&& steps.len() > 0 ==> steps[0].before.same(base)
    &&& forall|q: int| 0 < q < steps.len() ==> #[trigger] steps[q].before.same(steps[q - 1].trace.last())
}

/// The state reached at the end of a chain.
pub open spec fn chain_end(base: DLX, steps: Seq<CoverStep>) -> DLX {
    if steps.len() == 0 {
        base
    } else {
        steps.last().trace.last()
    }
}

/// The columns of the first `k` cells of `ring_after(row)`, with `cov`.
pub open spec fn cols_upto(m: DLX, cov: Set<int>, row: int, k: int) -> Set<int> {
    cov.union(
        Set::new(
            |c: int|
                exists|q: int|
                    0 <= q < k && m.column@[#[trigger] m.ring_after(row)[q] as int] == c,
        ),
    )
}

/// One more cell of the ring adds its column to `cols_upto`.
proof fn lemma_cols_step(m: DLX, cov: Set<int>, row: int, k: int)
    requires
        0 <= k < m.ring_after(row).len(),
    ensures
        cols_upto(m, cov, row, k + 1) == cols_upto(m, cov, row, k).insert(
            m.column@[m.ring_after(row)[k] as int] as int,
        ),
{
    let ring = m.ring_after(row);
    let a = cols_upto(m, cov, row, k + 1);
    let b = cols_upto(m, cov, row, k).insert(m.column@[ring[k] as int] as int);
    assert forall|c: int| a.contains(c) implies b.contains(c) by {
        if !cov.contains(c) {
            let q = choose|q: int| 0 <= q < k + 1 && m.column@[#[trigger] ring[q] as int] == c;
            if q < k {
                assert(exists|q: int| 0 <= q < k && m.column@[#[trigger] ring[q] as int] == c);
            }
        }
    }
    assert forall|c: int| b.contains(c) implies a.contains(c) by {
        if c == m.column@[ring[k] as int] {
            assert(exists|q: int| 0 <= q < k + 1 && m.column@[#[trigger] ring[q] as int] == c);
        } else if !cov.contains(c) {
            let q = choose|q: int| 0 <= q < k && m.column@[#[trigger] ring[q] as int] == c;
            assert(exists|q: int| 0 <= q < k + 1 && m.column@[#[trigger] ring[q] as int] == c);
        }
    }
    assert(a =~= b);
}

/// The next column to cover while selecting `row` is uncovered and coverable.
proof fn lemma_select_pre(start: DLX, m: DLX, cov: Set<int>, row: int, k: int)
    requires
        start.inv(),
        start.is_cell(row),
        0 <= k < start.ring_after(row).len(),
        m.inv(),
        m.same_frame(start),
        closed(m, cols_upto(start, cov, row, k)),
        forall|q: int|
            0 <= q < start.ring_after(row).len() ==> !cov.contains(
                start.column@[#[trigger] start.ring_after(row)[q] as int] as int,
            ),
    ensures
        ({
            let r = start.ring_after(row)[k] as int;
            let cr = start.column@[r] as int;
            &&& 0 <= r < m.items()
            &&& !cols_upto(start, cov, row, k).contains(cr)
            &&& m.coverable(cr)
        }),
{
    reveal(closed);
    let ring = start.ring_after(row);
    lemma_ring(start, row);
    let cr = start.column@[ring[k] as int] as int;
    assert(!cov.contains(cr));
    assert forall|q: int| 0 <= q < k implies start.column@[#[trigger] ring[q] as int] != cr by {
        assert(ring[q] != ring[k]);
        assert(start.row@[ring[q] as int] == start.row@[ring[k] as int]);
    }
    let cv = cols_upto(start, cov, row, k);
    assert(!cv.contains(cr));
    assert(0 <= cr < m.header);
    assert forall|kk: int| 0 <= kk < m.lists@[cr].len() implies m.row_visible(
        #[trigger] m.lists@[cr][kk] as int) by {
        let x = m.lists@[cr][kk] as int;
        assert(m.row_visible(x));
    }
}

/// Appending one more recorded cover to a chain.
proof fn lemma_chain_push(base: DLX, items: Seq<usize>, steps: Seq<CoverStep>, st: CoverStep)
    requires
        chain_ok(base, items, steps),
        st.before.inv(),
        0 <= st.item < st.before.items(),
        st.before.coverable(st.before.column@[st.item as int] as int),
        cover_trace(st.before, st.before.column@[st.item as int] as int, st.trace),
        st.before.same_frame(base),
        st.before.same(chain_end(base, steps)),
    ensures
        chain_ok(base, items.push(st.item), steps.push(st)),
        chain_end(base, steps.push(st)) == st.trace.last(),
{
    reveal(chain_ok);
    let ns = steps.push(st);
    let ni = items.push(st.item);
    assert forall|q: int| 0 <= q < ns.len() implies {
        let s2 = #[trigger] ns[q];
        &&& s2.item == ni[q]
        &&& s2.before.inv()
        &&& 0 <= s2.item < s2.before.items()
        &&& s2.before.coverable(s2.before.column@[s2.item as int] as int)
        &&& cover_trace(s2.before, s2.before.column@[s2.item as int] as int, s2.trace)
        &&& s2.before.same_frame(base)
    } by {
        if q < steps.len() {
            assert(ns[q] == steps[q]);
        }
    }
    assert forall|q: int| 0 < q < ns.len() implies #[trigger] ns[q].before.same(
        ns[q - 1].trace.last()) by {
        assert(ns[q - 1] == steps[q - 1]);
        if q < steps.len() {
            assert(ns[q] == steps[q]);
        }
    }
}

impl DLX {
    /// Covers the column of every other cell of the row of `row`, walking
    /// right; those columns must all be uncovered.
    pub(crate) fn select_cover(&mut self, row: usize, Ghost(cov): Ghost<Set<int>>) -> (steps: Ghost<
        Seq<CoverStep>,
    >)
        requires
            old(self).inv(),
            closed(*old(self), cov),
            old(self).is_cell(row as int),
            forall|q: int|
                0 <= q < old(self).ring_after(row as int).len() ==> !cov.contains(
                    old(self).column@[#[trigger] old(self).ring_after(row as int)[q] as int] as int,
                ),
        ensures
            final(self).inv(),
            final(self).same_frame(*old(self)),
            closed(*final(self), cov.union(ring_cols(*old(self), row as int))),
            chain_ok(*old(self), old(self).ring_after(row as int), steps@),
            final(self).same(chain_end(*old(self), steps@)),
            final(self).open@.len() <= old(self).open@.len(),
    {
        reveal(chain_ok);
        let ghost start = *self;
        let ghost ring = start.ring_after(row as int);
        proof {
            lemma_ring(start, row as int);
        }
        let ghost mut steps: Seq<CoverStep> = Seq::empty();
        let ghost mut cv = cov;
        let mut r = self.right[row];
        let ghost mut k: int = 0;
        while r != row
            invariant
                start.inv(),
                start.is_cell(row as int),
                ring == start.ring_after(row as int),
                0 <= k <= ring.len(),
                r == (if k < ring.len() {
                    ring[k] as int
                } else {
                    row as int
                }),
                self.inv(),
                self.same_frame(start),
                closed(*self, cv),
                cv == cols_upto(start, cov, row as int, k),
                forall|q: int| 0 <= q < ring.len() ==> !cov.contains(
                    start.column@[#[trigger] ring[q] as int] as int),
                chain_ok(start, ring.take(k), steps),
                self.same(chain_end(start, steps)),
                self.open@.len() <= start.open@.len(),
            decreases ring.len() - k,
        {
            proof {
                reveal(chain_ok);
            }
            let ghost before = *self;
            proof {
                lemma_select_pre(start, *self, cov, row as int, k);
            }
            let tr = self.cover_column(r);
            proof {
                let cr = start.column@[r as int] as int;
                lemma_cover_closed(before, *self, cv, cr);
                let st = CoverStep { before: before, item: r, trace: tr@ };
                lemma_chain_push(start, ring.take(k), steps, st);
                assert(ring.take(k + 1) =~= ring.take(k).push(r));
                steps = steps.push(st);
                lemma_cols_step(start, cov, row as int, k);
                cv = cv.insert(cr);
                lemma_ring(*self, row as int);
                assert(self.ring_after(row as int) == ring);
            }
            r = self.right[r];
            proof {
                k = k + 1;
            }
        }
        proof {
            assert(ring.take(ring.len() as int) =~= ring);
            assert(cv =~= cov.union(ring_cols(start, row as int)));
            assert(ring.take(ring.len() as int) == ring);
        }
        Ghost(steps)
    }

    /// Undoes `select_cover(row)` from `base`, whose covers were `steps`:
    /// uncovers the same columns walking left.
    pub(crate) fn deselect_uncover(
        &mut self,
        row: usize,
        Ghost(base): Ghost<DLX>,
        Ghost(steps): Ghost<Seq<CoverStep>>,
    )
        requires
            base.inv(),
            base.is_cell(row as int),
            chain_ok(base, base.ring_after(row as int), steps),
            old(self).same(chain_end(base, steps)),
        ensures
            final(self).same(base),
    {
        reveal(chain_ok);
        reveal(cover_trace);
        let ghost ring = base.ring_after(row as int);
        proof {
            lemma_ring(base, row as int);
            if steps.len() > 0 {
                let st = steps.last();
                assert(st == steps[steps.len() - 1]);
                assert(st.trace[st.trace.len() - 1].inv());
                lemma_same_inv(*self, st.trace.last());
            } else {
                lemma_same_inv(*self, base);
            }
            lemma_ring(*self, row as int);
            assert(self.ring_after(row as int) == ring);
        }
        let mut r = self.left[row];
        let ghost mut k: int = ring.len() as int;
        while r != row
            invariant
                base.inv(),
                base.is_cell(row as int),
                ring == base.ring_after(row as int),
                chain_ok(base, ring, steps),
                0 <= k <= ring.len(),
                r == (if k > 0 {
                    ring[k - 1] as int
                } else {
                    row as int
                }),
                self.same(if k == 0 {
                    base
                } else {
                    steps[k - 1].trace.last()
                }),
            decreases k,
        {
            proof {
                reveal(chain_ok);
            }
            let ghost st = steps[k - 1];
            proof {
                assert(st.item == ring[k - 1]);
            }
            self.uncover_column(r, Ghost(st.before), Ghost(st.trace));
            proof {
                if k - 1 > 0 {
                    assert(chain_ok(base, ring, steps));
                    assert(steps.len() == ring.len());
                    let q = k - 1;
                    assert(0 < q < steps.len());
                    assert(steps[q].before.same(steps[q - 1].trace.last()));
                    let t = steps[k - 2].trace;
                    lemma_trace_last(steps[k - 2].before, steps[k - 2].before.column@[steps[k - 2].item as int] as int, t);
                    lemma_same_inv(*self, t.last());
                } else {
                    lemma_same_inv(*self, base);
                }
                lemma_ring(*self, row as int);
                assert(self.ring_after(row as int) == ring);
                k = k - 1;
            }
            r = self.left[r];
        }
    }
}

/// The facts a well-formed frame records.
proof fn lemma_frame_facts(f: StackFrame, o: DLX)
    requires
        f.ok(o),
    ensures
        ({
            let b = f.base@;
            let c = f.current_col as int;
            let x = f.current_row as int;
            &&& b.inv()
            &&& b.same_frame(o)
            &&& closed(b, f.cov@)
            &&& 0 <= c < b.required@
            &&& b.open@.contains(c as usize)
            &&& b.lists@[c].contains(x as usize)
            &&& b.is_cell(x)
            &&& b.column@[x] == c
            &&& cover_trace(b, c, f.col_trace@)
            &&& f.mid().inv()
            &&& f.mid().same_frame(b)
            &&& f.mid().lists@[c] == b.lists@[c]
            &&& closed(f.mid(), f.cov@.insert(c))
            &&& chain_ok(f.mid(), b.ring_after(x), f.sel@)
            &&& f.end().inv()
            &&& f.end().same_frame(b)
            &&& closed(f.end(), f.cov_after())
            &&& f.end().open@.len() < b.open@.len()
            &&& f.min_col_size == b.size@[c]
        }),
{
    reveal(StackFrame::ok);
}

/// One level of the search: the column chosen there, the size that made
/// it a choice, and the row of that column being tried.
pub struct StackFrame {
    pub min_col_size: usize,
    pub current_col: usize,
    pub current_row: usize,
    /// The matrix before `current_col` was covered.
    pub base: Ghost<DLX>,
    /// Columns covered before this level.
    pub cov: Ghost<Set<int>>,
    /// The states met covering `current_col`.
    pub col_trace: Ghost<Seq<DLX>>,
    /// The covers made selecting `current_row`.
    pub sel: Ghost<Seq<CoverStep>>,
}

impl StackFrame {
    /// The matrix once `current_col` is covered.
    pub open spec fn mid(&self) -> DLX {
        self.col_trace@.last()
    }

    /// The matrix once `current_row` is selected too.
    pub open spec fn end(&self) -> DLX {
        chain_end(self.mid(), self.sel@)
    }

    /// The columns of the row being tried.
    pub open spec fn row_cols(&self) -> Set<int> {
        ring_cols(self.base@, self.current_row as int).insert(self.current_col as int)
    }

    /// Columns covered once this level has made its choice.
    pub open spec fn cov_after(&self) -> Set<int> {
        self.cov@.union(self.row_cols())
    }

    #[verifier::opaque]
    pub open spec fn ok(&self, origin: DLX) -> bool {
        let b = self.base@;
        let c = self.current_col as int;
        let x = self.current_row as int;
        &&& b.inv()
        &&& b.same_frame(origin)
        &&& closed(b, self.cov@)
        &&& 0 <= c < b.required@
        &&& b.open@.contains(c as usize)
        &&& b.lists@[c].contains(x as usize)
        &&& b.is_cell(x)
        &&& b.column@[x] == c
        &&& cover_trace(b, c, self.col_trace@)
        &&& self.mid().inv()
        &&& self.mid().same_frame(b)
        &&& self.mid().lists@[c] == b.lists@[c]
        &&& closed(self.mid(), self.cov@.insert(c))
        &&& chain_ok(self.mid(), b.ring_after(x), self.sel@)
        &&& self.end().inv()
        &&& self.end().same_frame(b)
        &&& closed(self.end(), self.cov_after())
        &&& self.end().open@.len() < b.open@.len()
        &&& self.min_col_size == b.size@[c]
    }
}

/// A lazy enumeration of the exact covers of a matrix.
pub struct DLXIterator {
    pub core: DLX,
    pub selected_rows: Vec<usize>,
    pub stack: Vec<StackFrame>,
    /// The search arrived on a complete cover that has not been handed out.
    pub pending: bool,
    /// The covers handed out by `next`, in order.
    pub handed: Ghost<Seq<Seq<usize>>>,
    /// The matrix the search started from.
    pub origin: Ghost<DLX>,
}

/// The matrix at the top of stack `f`, or `o` when it is empty.
pub open spec fn top_end(o: DLX, f: Seq<StackFrame>) -> DLX {
    if f.len() == 0 {
        o
    } else {
        f.last().end()
    }
}

/// Columns covered at the top of stack `f`.
pub open spec fn top_cov(f: Seq<StackFrame>) -> Set<int> {
    if f.len() == 0 {
        Set::empty()
    } else {
        f.last().cov_after()
    }
}

/// Each frame of `f` starts where the one below it ended.
pub open spec fn frames_ok(o: DLX, f: Seq<StackFrame>) -> bool {
    &&& forall|k: int| 0 <= k < f.len() ==> (#[trigger] f[k]).ok(o)
    &&& f.len() > 0 ==> f[0].base@.same(o) && f[0].cov@ == Set::<int>::empty()
    &&& forall|k: int|
        0 < k < f.len() ==> (#[trigger] f[k]).base@.same(f[k - 1].end()) && f[k].cov@ == f[k
            - 1].cov_after()
    &&& forall|k: int| 0 <= k < f.len() ==> (#[trigger] f[k]).base@.open@.len() + k <= o.required@
}

/// `sel` lists the ids of the rows tried by the frames of `f`.
pub open spec fn sel_ok(o: DLX, f: Seq<StackFrame>, sel: Seq<usize>) -> bool {
    &&& sel.len() == f.len()
    &&& forall|k: int| 0 <= k < f.len() ==> #[trigger] sel[k] == o.row@[f[k].current_row as int]
}

/// A frame that may go on top of stack `f`.
pub open spec fn fits_on(o: DLX, f: Seq<StackFrame>, frame: StackFrame) -> bool {
    &&& frame.ok(o)
    &&& frame.base@.same(top_end(o, f))
    &&& frame.cov@ == top_cov(f)
    &&& frame.base@.open@.len() + f.len() <= o.required@
}

/// Pushing a fitting frame keeps the stack well formed.
proof fn lemma_frames_push(o: DLX, f: Seq<StackFrame>, frame: StackFrame)
    requires
        frames_ok(o, f),
        fits_on(o, f, frame),
    ensures
        frames_ok(o, f.push(frame)),
{
    let g = f.push(frame);
    let n = f.len() as int;
    assert(g[n] == frame);
    assert forall|k: int| 0 <= k < g.len() implies (#[trigger] g[k]).ok(o) by {
        if k < n {
            assert(g[k] == f[k]);
        }
    }
    assert forall|k: int| 0 < k < g.len() implies (#[trigger] g[k]).base@.same(g[k - 1].end())
        && g[k].cov@ == g[k - 1].cov_after() by {
        if k < n {
            assert(g[k] == f[k]);
            assert(g[k - 1] == f[k - 1]);
        } else {
            assert(g[k - 1] == f.last());
        }
    }
    assert forall|k: int| 0 <= k < g.len() implies (#[trigger] g[k]).base@.open@.len() + k
        <= o.required@ by {
        if k < n {
            assert(g[k] == f[k]);
        }
    }
    if n > 0 {
        assert(g[0] == f[0]);
    }
}

/// Popping keeps the rest of the stack well formed, and the top fits on it.
proof fn lemma_frames_pop(o: DLX, f: Seq<StackFrame>)
    requires
        frames_ok(o, f),
        f.len() > 0,
    ensures
        frames_ok(o, f.drop_last()),
        fits_on(o, f.drop_last(), f.last()),
{
    let g = f.drop_last();
    let n = g.len() as int;
    assert(f[n] == f.last());
    assert forall|k: int| 0 <= k < g.len() implies (#[trigger] g[k]).ok(o) by {
        assert(g[k] == f[k]);
    }
    assert forall|k: int| 0 < k < g.len() implies (#[trigger] g[k]).base@.same(g[k - 1].end())
        && g[k].cov@ == g[k - 1].cov_after() by {
        assert(g[k] == f[k]);
        assert(g[k - 1] == f[k - 1]);
    }
    assert forall|k: int| 0 <= k < g.len() implies (#[trigger] g[k]).base@.open@.len() + k
        <= o.required@ by {
        assert(g[k] == f[k]);
    }
    if n > 0 {
        assert(g[0] == f[0]);
        assert(f[n].base@.same(f[n - 1].end()));
        assert(g.last() == f[n - 1]);
    }
}

/// Recording the row of a pushed frame keeps the row ids in step.
proof fn lemma_sel_push(o: DLX, f: Seq<StackFrame>, sel: Seq<usize>, frame: StackFrame)
    requires
        sel_ok(o, f, sel),
    ensures
        sel_ok(o, f.push(frame), sel.push(o.row@[frame.current_row as int])),
{
    let g = f.push(frame);
    let t = sel.push(o.row@[frame.current_row as int]);
    assert forall|k: int| 0 <= k < g.len() implies #[trigger] t[k] == o.row@[g[k].current_row as int] by {
        if k < f.len() {
            assert(g[k] == f[k]);
        }
    }
}

/// Dropping the last row id keeps the row ids in step with a popped stack.
proof fn lemma_sel_pop(o: DLX, f: Seq<StackFrame>, sel: Seq<usize>)
    requires
        sel_ok(o, f, sel),
        f.len() > 0,
    ensures
        sel_ok(o, f.drop_last(), sel.drop_last()),
{
    let g = f.drop_last();
    let t = sel.drop_last();
    assert forall|k: int| 0 <= k < g.len() implies #[trigger] t[k] == o.row@[g[k].current_row as int] by {
        assert(g[k] == f[k]);
    }
}

impl DLXIterator {
    /// The search invariant.
    pub open spec fn inv(&self) -> bool {
        let o = self.origin@;
        &&& o.wf()
        &&& frames_ok(o, self.stack@)
        &&& sel_ok(o, self.stack@, self.selected_rows@)
        &&& self.core.same(top_end(o, self.stack@))
        &&& self.core.inv()
        &&& closed(self.core, top_cov(self.stack@))
    }

    /// The search invariant, with a pending cover complete.
    pub open spec fn ready(&self) -> bool {
        &&& self.inv()
        &&& self.pending ==> self.core.open@.len() == 0
    }
}

/// One more than the largest position a frame can have.
pub open spec fn slot_cap(o: DLX) -> int {
    (o.required@ + 1) * (o.items() + 1)
}

/// How far a frame has moved along its level: the column's place in the
/// open list, then the row's place in the column.
pub open spec fn frame_pos(f: StackFrame, o: DLX) -> int {
    f.base@.open@.index_of(f.current_col) * (o.items() + 1) + f.base@.lists@[
        f.current_col as int].index_of(f.current_row)
}

/// One digit per level: the room left to the frame there, or a digit above
/// every such room for a level not yet entered.
pub open spec fn digits(o: DLX, f: Seq<StackFrame>) -> Seq<int> {
    Seq::new(
        o.required@,
        |k: int|
            if k < f.len() {
                slot_cap(o) - frame_pos(f[k], o)
            } else {
                slot_cap(o) + 1
            },
    )
}

/// The number written by digits `s` in base `b`, most significant first.
pub open spec fn num(s: Seq<int>, b: int) -> int
    decreases s.len(),
{
    if s.len() == 0 {
        0
    } else {
        num(s.drop_last(), b) * b + s.last()
    }
}

/// What the search has left to do; it drops with every step that leaves
/// frames on the stack.
pub open spec fn measure(o: DLX, f: Seq<StackFrame>) -> int {
    if f.len() == 0 {
        0
    } else {
        num(digits(o, f), slot_cap(o) + 2) + 1
    }
}

/// A number written with digits below `b` is not negative.
proof fn lemma_num_bounds(s: Seq<int>, b: int)
    requires
        b > 0,
        forall|k: int| 0 <= k < s.len() ==> 0 <= #[trigger] s[k] < b,
    ensures
        0 <= num(s, b),
    decreases s.len(),
{
    if s.len() > 0 {
        let t = s.drop_last();
        assert forall|k: int| 0 <= k < t.len() implies 0 <= #[trigger] t[k] < b by {
            assert(t[k] == s[k]);
        }
        lemma_num_bounds(t, b);
        assert(num(t, b) * b >= 0) by (nonlinear_arith)
            requires
                num(t, b) >= 0,
                b > 0,
        ;
    }
}

/// Digit strings of equal length compare as numbers the way they compare
/// from the left.
proof fn lemma_num_lex(a: Seq<int>, c: Seq<int>, b: int, j: int)
    requires
        b > 0,
        a.len() == c.len(),
        0 <= j < a.len(),
        forall|k: int| 0 <= k < a.len() ==> 0 <= #[trigger] a[k] < b,
        forall|k: int| 0 <= k < c.len() ==> 0 <= #[trigger] c[k] < b,
        forall|k: int| 0 <= k < j ==> #[trigger] a[k] == c[k],
        a[j] < c[j],
    ensures
        num(a, b) < num(c, b),
    decreases a.len(),
{
    let n = a.len() - 1;
    let ta = a.drop_last();
    let tc = c.drop_last();
    assert forall|k: int| 0 <= k < ta.len() implies 0 <= #[trigger] ta[k] < b by {
        assert(ta[k] == a[k]);
    }
    assert forall|k: int| 0 <= k < tc.len() implies 0 <= #[trigger] tc[k] < b by {
        assert(tc[k] == c[k]);
    }
    if j == n {
        assert(ta =~= tc) by {
            assert forall|k: int| 0 <= k < ta.len() implies ta[k] == tc[k] by {
                assert(a[k] == c[k]);
            }
        }
    } else {
        assert forall|k: int| 0 <= k < j implies #[trigger] ta[k] == tc[k] by {
            assert(a[k] == c[k]);
        }
        lemma_num_lex(ta, tc, b, j);
        let x = num(ta, b);
        let y = num(tc, b);
        assert(0 <= a.last() < b);
        assert(0 <= c.last());
        assert(x * b + a.last() < y * b + c.last()) by (nonlinear_arith)
            requires
                x < y,
                0 <= a.last() < b,
                0 <= c.last(),
                b > 0,
        ;
    }
}

/// In a sequence without repeats, an entry is found at its own index.
proof fn lemma_index_of_unique(l: Seq<usize>, m: int)
    requires
        l.no_duplicates(),
        0 <= m < l.len(),
    ensures
        l.index_of(l[m]) == m,
{
    assert(l.contains(l[m]));
    let i = l.index_of(l[m]);
    assert(l[i] == l[m]);
}

/// A frame's position is below `slot_cap`.
proof fn lemma_pos_bounds(f: StackFrame, o: DLX)
    requires
        f.ok(o),
    ensures
        0 <= frame_pos(f, o) < slot_cap(o),
        f.base@.open@.len() >= 1,
{
    lemma_frame_facts(f, o);
    let b = f.base@;
    let c = f.current_col as int;
    let oo = b.open@;
    let l = b.lists@[c];
    assert(b.open_shape());
    assert(b.col_shape(c));
    lemma_distinct_bounded(oo, b.required@ as int);
    assert forall|k: int| 0 <= k < l.len() implies #[trigger] l[k] < b.items() by {}
    lemma_distinct_bounded(l, b.items());
    let i = oo.index_of(f.current_col);
    let r = l.index_of(f.current_row);
    assert(0 <= i < oo.len());
    assert(0 <= r < l.len());
    let n = o.items();
    assert(b.items() == n);
    let req = o.required@ as int;
    assert(b.required@ == req);
    assert(0 <= i * (n + 1) + r < (req + 1) * (n + 1)) by (nonlinear_arith)
        requires
            0 <= i < req,
            0 <= r < n,
            n >= 0,
    ;
}

/// A stack that agrees with `s1` below level `j` and has moved further at
/// level `j` (or entered it first) has a smaller measure.
proof fn lemma_measure_drop(o: DLX, s1: Seq<StackFrame>, s2: Seq<StackFrame>, j: int)
    requires
        frames_ok(o, s1),
        frames_ok(o, s2),
        s1.len() > 0,
        0 <= j < s2.len(),
        j <= s1.len(),
        forall|k: int| 0 <= k < j ==> #[trigger] s2[k] == s1[k],
        j < s1.len() ==> frame_pos(s2[j], o) > frame_pos(s1[j], o),
    ensures
        measure(o, s2) < measure(o, s1),
{
    let b = slot_cap(o) + 2;
    let d1 = digits(o, s1);
    let d2 = digits(o, s2);
    let last1 = s1.len() - 1;
    let last2 = s2.len() - 1;
    assert(s1[last1].ok(o));
    assert(s2[last2].ok(o));
    lemma_pos_bounds(s1[last1], o);
    lemma_pos_bounds(s2[last2], o);
    assert(s1[last1].base@.open@.len() + last1 <= o.required@);
    assert(s2[last2].base@.open@.len() + last2 <= o.required@);
    assert forall|k: int| 0 <= k < d1.len() implies 0 <= #[trigger] d1[k] < b by {
        if k < s1.len() {
            assert(s1[k].ok(o));
            lemma_pos_bounds(s1[k], o);
        }
    }
    assert forall|k: int| 0 <= k < d2.len() implies 0 <= #[trigger] d2[k] < b by {
        if k < s2.len() {
            assert(s2[k].ok(o));
            lemma_pos_bounds(s2[k], o);
        }
    }
    assert forall|k: int| 0 <= k < j implies #[trigger] d2[k] == d1[k] by {
        assert(s2[k] == s1[k]);
    }
    assert(s2[j].ok(o));
    lemma_pos_bounds(s2[j], o);
    lemma_num_lex(d2, d1, b, j);
}

/// `b` tries the row after the one `a` tries, in the same column.
pub open spec fn next_row_of(a: StackFrame, b: StackFrame) -> bool {
    let l = a.base@.lists@[a.current_col as int];
    &&& b.base == a.base
    &&& b.cov == a.cov
    &&& b.current_col == a.current_col
    &&& b.min_col_size == a.min_col_size
    &&& l.index_of(b.current_row) == l.index_of(a.current_row) + 1
}

/// `f` is the level entered below `prev`: on the lowest open column of
/// least size, and that column's first row.
pub open spec fn deeper_of(prev: StackFrame, f: StackFrame) -> bool {
    let b = f.base@;
    let c = f.current_col as int;
    &&& b.same(prev.end())
    &&& exists|j: int|
        0 <= j < b.open@.len() && b.open@[j] == c && b.size@[c] == min_upto(b, b.open@.len() as int)
            && forall|i: int| 0 <= i < j ==> #[trigger] b.size@[b.open@[i] as int] != b.size@[c]
    &&& b.lists@[c].len() > 0
    &&& f.current_row == b.lists@[c][0]
}

/// The row `f` tries is the last of its column.
pub open spec fn last_row(f: StackFrame) -> bool {
    let l = f.base@.lists@[f.current_col as int];
    l.index_of(f.current_row) == l.len() - 1
}

/// No level can be entered below `m`: no primary column is left, or one
/// has no row.
pub open spec fn stuck(m: DLX) -> bool {
    m.open@.len() == 0 || min_upto(m, m.open@.len() as int) == 0
}

/// The stacks before and after one move of the search: one level deeper
/// (unless `backtracked`), the next row at some level with the levels above
/// it dropped, or nothing left.
pub open spec fn moved(s0: Seq<StackFrame>, s1: Seq<StackFrame>, backtracked: bool) -> bool {
    let top_stuck = !backtracked ==> stuck(s0.last().end());
    ||| (s1.len() == 0 && top_stuck && forall|i: int| 0 <= i < s0.len() ==> last_row(#[trigger] s0[i]))
    ||| (!backtracked && s0.len() > 0 && s1 == s0.push(s1.last()) && deeper_of(s0.last(), s1.last()))
    ||| exists|j: int|
        0 <= j < s0.len() && s1 == s0.take(j).push(s1.last()) && next_row_of(
            #[trigger] s0[j],
            s1.last(),
        ) && top_stuck && forall|i: int| j < i < s0.len() ==> last_row(#[trigger] s0[i])
}

/// The smallest size among the first `k` open columns (`usize::MAX` if none).
pub open spec fn min_upto(m: DLX, k: int) -> usize
    decreases k,
{
    if k <= 0 {
        usize::MAX
    } else {
        let prev = min_upto(m, k - 1);
        let s = m.size@[m.open@[k - 1] as int];
        if s < prev {
            s
        } else {
            prev
        }
    }
}

/// `min_upto` is a lower bound of the sizes it ranges over, and one of them
/// when there is any.
proof fn lemma_min_upto(m: DLX, k: int)
    requires
        0 <= k <= m.open@.len(),
    ensures
        forall|i: int| 0 <= i < k ==> min_upto(m, k) <= #[trigger] m.size@[m.open@[i] as int],
        k > 0 ==> exists|i: int| 0 <= i < k && min_upto(m, k) == #[trigger] m.size@[m.open@[i] as int],
    decreases k,
{
    if k > 0 {
        lemma_min_upto(m, k - 1);
        let s = m.size@[m.open@[k - 1] as int];
        if k > 1 {
            let i = choose|i: int| 0 <= i < k - 1 && min_upto(m, k - 1) == #[trigger] m.size@[m.open@[i] as int];
            if s < min_upto(m, k - 1) {
                assert(min_upto(m, k) == m.size@[m.open@[k - 1] as int]);
            } else {
                assert(min_upto(m, k) == m.size@[m.open@[i] as int]);
            }
        } else {
            assert(min_upto(m, 0) == usize::MAX);
            assert(min_upto(m, 1) == m.size@[m.open@[0] as int]);
        }
    }
}

/// `min_upto` reads only the open list and the sizes.
proof fn lemma_min_upto_same(a: DLX, b: DLX, k: int)
    requires
        a.open@ == b.open@,
        a.size@ == b.size@,
    ensures
        min_upto(a, k) == min_upto(b, k),
    decreases k,
{
    if k > 0 {
        lemma_min_upto_same(a, b, k - 1);
    }
}

/// Index in the open list from which a walk right from `column` continues.
pub open spec fn walk_start(m: DLX, column: int) -> int {
    if column == m.header {
        0
    } else {
        m.open@.index_of(column as usize) + 1
    }
}

impl DLXIterator {
    /// The smallest size of an open column, or `usize::MAX` when none is open.
    fn get_min_col_size(&self) -> (r: Option<usize>)
        requires
            self.core.inv(),
        ensures
            r == Some(min_upto(self.core, self.core.open@.len() as int)),
    {
        let h = self.core.header;
        let mut c = h;
        let mut it = usize::MAX;
        let ghost o = self.core.open@;
        let ghost mut k: int = 0;
        loop
            invariant_except_break
                c == (if k == 0 {
                    h as int
                } else {
                    o[k - 1] as int
                }),
            invariant
                self.core.inv(),
                h == self.core.header,
                o == self.core.open@,
                0 <= k <= o.len(),
                it == min_upto(self.core, k),
            ensures
                it == min_upto(self.core, o.len() as int),
            decreases o.len() - k,
        {
            c = self.core.right[c];
            if c == h {
                proof {
                    if k < o.len() {
                        assert(o[k] < self.core.required@);
                    }
                }
                break;
            }
            proof {
                assert(k < o.len());
            }
            let s = self.core.size[c];
            it = if s < it {
                s
            } else {
                it
            };
            proof {
                k = k + 1;
            }
        }
        Some(it)
    }

    /// The cell below `row` in its column, if any.
    fn down(&self, row: usize) -> (r: Option<usize>)
        requires
            self.core.inv(),
            ({
                let c = self.core.column@[row as int] as int;
                0 <= c < self.core.header && (row == c || self.core.lists@[c].contains(row))
            }),
        ensures
            ({
                let c = self.core.column@[row as int] as int;
                let l = self.core.lists@[c];
                let i = if row == c {
                    0
                } else {
                    l.index_of(row) + 1
                };
                r == if i < l.len() {
                    Some(l[i])
                } else {
                    None::<usize>
                }
            }),
    {
        let ghost c = self.core.column@[row as int] as int;
        proof {
            assert(self.core.col_shape(c));
            if row != c {
                let l = self.core.lists@[c];
                assert(l[l.index_of(row)] == row);
            }
        }
        let n = self.core.down[row];
        if self.core.column[n] == n {
            None
        } else {
            Some(n)
        }
    }

    /// The first open column after `column` (or from the start, when
    /// `column` is the sentinel) whose size is `column_size`.
    fn next_column(&self, column: usize, column_size: usize) -> (r: Option<usize>)
        requires
            self.core.inv(),
            column == self.core.header || self.core.open@.contains(column),
        ensures
            ({
                let m = self.core;
                let o = m.open@;
                let st = walk_start(m, column as int);
                &&& 0 <= st <= o.len()
                &&& match r {
                    Some(cc) => exists|j: int|
                        st <= j < o.len() && o[j] == cc && m.size@[cc as int] == column_size && forall|
                            i: int,
                        |
                            st <= i < j ==> #[trigger] m.size@[o[i] as int] != column_size,
                    None => forall|i: int|
                        st <= i < o.len() ==> #[trigger] m.size@[o[i] as int] != column_size,
                }
            }),
    {
        let ghost m = self.core;
        let ghost o = m.open@;
        let ghost st = walk_start(m, column as int);
        let h = self.core.header;
        proof {
            if column != h {
                let p = o.index_of(column);
                assert(o[p] == column);
            }
        }
        let mut c = column;
        let ghost mut k: int = st;
        loop
            invariant
                self.core == m,
                m.inv(),
                o == m.open@,
                h == m.header,
                st == walk_start(m, column as int),
                0 <= st <= k <= o.len(),
                c == (if k == 0 {
                    h as int
                } else {
                    o[k - 1] as int
                }),
                forall|i: int| st <= i < k ==> #[trigger] m.size@[o[i] as int] != column_size,
            decreases o.len() - k,
        {
            c = self.core.right[c];
            if c == h {
                return None;
            }
            proof {
                assert(k < o.len());
            }
            if self.core.size[c] == column_size {
                proof {
                    assert(o[k] == c);
                }
                return Some(c);
            }
            proof {
                k = k + 1;
            }
        }
    }
}

/// An uncovered column of a closed matrix may be covered.
proof fn lemma_closed_coverable(m: DLX, cov: Set<int>, c: int)
    requires
        m.inv(),
        closed(m, cov),
        0 <= c < m.header,
        !cov.contains(c),
    ensures
        m.coverable(c),
{
    reveal(closed);
    assert forall|k: int| 0 <= k < m.lists@[c].len() implies m.row_visible(
        #[trigger] m.lists@[c][k] as int) by {
        let x = m.lists@[c][k] as int;
        assert(m.row_visible(x));
    }
}

/// In a closed matrix the open primary columns are those not covered.
proof fn lemma_closed_open(m: DLX, cov: Set<int>, c: int)
    requires
        closed(m, cov),
        0 <= c < m.required@,
    ensures
        m.open@.contains(c as usize) <==> !cov.contains(c),
{
    reveal(closed);
}

/// The other cells of the row of a cell of an uncovered column lie in
/// columns outside `cov` and outside that column.
proof fn lemma_row_free(m: DLX, cov: Set<int>, c: int, xu: usize)
    requires
        m.inv(),
        closed(m, cov),
        0 <= c < m.header,
        !cov.contains(c),
        m.lists@[c].contains(xu),
    ensures
        ({
            let x = xu as int;
            &&& m.is_cell(x)
            &&& m.column@[x] == c
            &&& forall|q: int|
                0 <= q < m.ring_after(x).len() ==> !cov.insert(c).contains(
                    m.column@[#[trigger] m.ring_after(x)[q] as int] as int,
                )
        }),
{
    reveal(closed);
    let x = xu as int;
    assert(m.col_shape(c));
    let k = m.lists@[c].index_of(xu);
    assert(m.lists@[c][k] == xu);
    lemma_ring(m, x);
    assert forall|q: int| 0 <= q < m.ring_after(x).len() implies !cov.insert(c).contains(
        m.column@[#[trigger] m.ring_after(x)[q] as int] as int) by {
        let y = m.ring_after(x)[q] as int;
        assert(m.row@[y] == m.row@[x] && y != x);
        assert(m.column@[y] != m.column@[x]);
    }
}

/// The end of a chain of covers is a well-formed state of the same matrix.
proof fn lemma_chain_end(base: DLX, items: Seq<usize>, steps: Seq<CoverStep>)
    requires
        base.inv(),
        chain_ok(base, items, steps),
    ensures
        chain_end(base, steps).inv(),
        chain_end(base, steps).same_frame(base),
{
    reveal(chain_ok);
    reveal(cover_trace);
    if steps.len() > 0 {
        let st = steps[steps.len() - 1];
        assert(st.trace[st.trace.len() - 1].inv());
    }
}

/// Equal states are closed over the same columns.
proof fn lemma_same_closed(a: DLX, b: DLX, cov: Set<int>)
    requires
        a.same(b),
        closed(b, cov),
    ensures
        closed(a, cov),
{
    reveal(closed);
    assert(a.open@ == b.open@);
    assert(a.lists@ == b.lists@);
    assert forall|x: int| #[trigger] a.ring_after(x) == b.ring_after(x) by {}
    assert forall|x: int| #[trigger] a.row_visible(x) == b.row_visible(x) by {
        assert(a.ring_after(x) == b.ring_after(x));
    }
    assert forall|d: int, k: int|
        0 <= d < a.header && !cov.contains(d) && 0 <= k < a.lists@[d].len() implies {
            let x = #[trigger] a.lists@[d][k] as int;
            &&& a.row_visible(x)
            &&& forall|q: int|
                0 <= q < a.ring_after(x).len() ==> !cov.contains(
                    a.column@[#[trigger] a.ring_after(x)[q] as int] as int,
                )
        } by {
        let x = a.lists@[d][k] as int;
        assert(b.lists@[d][k] as int == x);
        assert(a.ring_after(x) == b.ring_after(x));
        assert(a.row_visible(x) == b.row_visible(x));
    }
    assert forall|c: int|
        0 <= c < a.required@ implies (#[trigger] a.open@.contains(c as usize) <==> !cov.contains(c)) by {
        assert(b.open@.contains(c as usize) <==> !cov.contains(c));
    }
    assert forall|y: int| #![trigger a.visible(y)] a.is_cell(y) && row_clear(a, y, cov) implies a.visible(y) by {
        assert(row_clear(b, y, cov)) by {
            assert forall|z: int| b.is_cell(z) && #[trigger] b.row@[z] == b.row@[y] implies !cov.contains(b.column@[z] as int) by {
                assert(a.row@[z] == a.row@[y]);
            }
        }
        assert(b.visible(y));
    }
}

impl DLXIterator {
    /// Chooses row `row`: records its id, then covers the other columns it
    /// touches, walking right.
    fn select_row(&mut self, row: usize, Ghost(cov): Ghost<Set<int>>) -> (steps: Ghost<
        Seq<CoverStep>,
    >)
        requires
            old(self).core.inv(),
            closed(old(self).core, cov),
            old(self).core.is_cell(row as int),
            forall|q: int|
                0 <= q < old(self).core.ring_after(row as int).len() ==> !cov.contains(
                    old(self).core.column@[#[trigger] old(self).core.ring_after(
                        row as int,
                    )[q] as int] as int,
                ),
        ensures
            final(self).core.inv(),
            final(self).core.same_frame(old(self).core),
            closed(final(self).core, cov.union(ring_cols(old(self).core, row as int))),
            chain_ok(old(self).core, old(self).core.ring_after(row as int), steps@),
            final(self).core.same(chain_end(old(self).core, steps@)),
            final(self).core.open@.len() <= old(self).core.open@.len(),
            final(self).selected_rows@ == old(self).selected_rows@.push(
                old(self).core.row@[row as int],
            ),
            final(self).stack == old(self).stack,
            final(self).origin == old(self).origin,
    {
        let r = self.core.row[row];
        self.selected_rows.push(r);
        self.core.select_cover(row, Ghost(cov))
    }

    /// Undoes `select_row(row)` made from `base` with covers `steps`.
    fn deselect_row(&mut self, row: usize, Ghost(base): Ghost<DLX>, Ghost(steps): Ghost<Seq<CoverStep>>)
        requires
            base.inv(),
            base.is_cell(row as int),
            chain_ok(base, base.ring_after(row as int), steps),
            old(self).core.same(chain_end(base, steps)),
            old(self).selected_rows@.len() > 0,
        ensures
            final(self).core.same(base),
            final(self).selected_rows@ == old(self).selected_rows@.drop_last(),
            final(self).stack == old(self).stack,
            final(self).origin == old(self).origin,
    {
        self.core.deselect_uncover(row, Ghost(base), Ghost(steps));
        self.selected_rows.pop();
    }

    /// Covers open column `cc` and selects its cell `x`, returning the new
    /// frame for that choice.
    fn descend(&mut self, cc: usize, x: usize, min: usize, Ghost(cov): Ghost<Set<int>>) -> (f: StackFrame)
        requires
            old(self).core.inv(),
            old(self).core.same_frame(old(self).origin@),
            closed(old(self).core, cov),
            old(self).core.open@.contains(cc),
            old(self).core.lists@[cc as int].contains(x),
            old(self).core.size@[cc as int] == min,
        ensures
            f.ok(final(self).origin@),
            f.base@ == old(self).core,
            f.cov@ == cov,
            f.current_col == cc,
            f.current_row == x,
            final(self).core.same(f.end()),
            final(self).core.inv(),
            final(self).selected_rows@ == old(self).selected_rows@.push(
                final(self).origin@.row@[x as int],
            ),
            final(self).stack == old(self).stack,
            final(self).origin == old(self).origin,
    {
        reveal(closed);
        reveal(cover_trace);
        reveal(StackFrame::ok);
        let ghost base = self.core;
        let ghost c = cc as int;
        proof {
            assert(base.open@[base.open@.index_of(cc)] == cc);
            assert(cc < base.required@);
            assert(base.open@.contains(c as usize) <==> !cov.contains(c));
            lemma_closed_coverable(base, cov, c);
            assert(base.column@[c] == c);
        }
        let tr = self.core.cover_column(cc);
        let ghost mid = self.core;
        proof {
            lemma_cover_closed(base, mid, cov, c);
            lemma_row_free(base, cov, c, x);
            assert(mid.ring_after(x as int) == base.ring_after(x as int));
        }
        let sel = self.select_row(x, Ghost(cov.insert(c)));
        let f = StackFrame {
            min_col_size: min,
            current_col: cc,
            current_row: x,
            base: Ghost(base),
            cov: Ghost(cov),
            col_trace: tr,
            sel: sel,
        };
        proof {
            lemma_chain_end(mid, base.ring_after(x as int), sel@);
            assert(f.mid() == mid);
            assert(cov.insert(c).union(ring_cols(mid, x as int)) =~= f.cov_after());
            assert(f.end().same(self.core));
            lemma_same_closed(f.end(), self.core, f.cov_after());
            let o = base.open@;
            let p = o.index_of(cc);
            assert(o.remove(p).len() == o.len() - 1);
        }
        f
    }
}

/// A chain recorded from one state serves for any state equal to it.
proof fn lemma_chain_rebase(a: DLX, b: DLX, items: Seq<usize>, steps: Seq<CoverStep>)
    requires
        a.same(b),
        chain_ok(a, items, steps),
    ensures
        chain_ok(b, items, steps),
        chain_end(a, steps).same(chain_end(b, steps)),
{
    reveal(chain_ok);
    assert forall|q: int| 0 <= q < steps.len() implies (#[trigger] steps[q]).before.same_frame(b) by {
        assert(steps[q].before.same_frame(a));
    }
    if steps.len() > 0 {
        assert(steps[0].before.same(a));
    }
}

#[verifier::rlimit(100)]
/// Selecting the next row of a frame's column gives a well-formed frame.
proof fn lemma_advance_ok(frame: StackFrame, f: StackFrame, m0: DLX, m1: DLX, origin: DLX)
    requires
        frame.ok(origin),
        m0.same(frame.mid()),
        m0.inv(),
        frame.mid().lists@[frame.current_col as int].contains(f.current_row),
        f.base == frame.base,
        f.cov == frame.cov,
        f.current_col == frame.current_col,
        f.min_col_size == frame.min_col_size,
        f.col_trace == frame.col_trace,
        m1.inv(),
        m1.same_frame(m0),
        closed(m1, frame.cov@.insert(frame.current_col as int).union(ring_cols(m0, f.current_row as int))),
        chain_ok(m0, m0.ring_after(f.current_row as int), f.sel@),
        m1.same(chain_end(m0, f.sel@)),
        m1.open@.len() <= m0.open@.len(),
    ensures
        f.ok(origin),
        m1.same(f.end()),
{
    reveal(cover_trace);
    reveal(StackFrame::ok);
    let b = frame.base@;
    let mid = frame.mid();
    let x2 = f.current_row as int;
    let c = frame.current_col as int;
    assert(m0.ring_after(x2) == mid.ring_after(x2));
    assert(mid.ring_after(x2) == b.ring_after(x2));
    assert(mid.same(m0));
    lemma_chain_rebase(m0, mid, m0.ring_after(x2), f.sel@);
    lemma_chain_end(mid, b.ring_after(x2), f.sel@);
    assert(f.mid() == mid);
    assert(b.col_shape(c));
    assert(mid.lists@[c] == b.lists@[c]);
    let k = b.lists@[c].index_of(f.current_row);
    assert(b.lists@[c][k] == f.current_row);
    assert(ring_cols(m0, x2) =~= ring_cols(b, x2));
    assert(frame.cov@.insert(c).union(ring_cols(m0, x2)) =~= f.cov_after());
    assert(f.end().same(m1));
    lemma_same_closed(f.end(), m1, f.cov_after());
    let t = frame.col_trace@;
    assert(t[t.len() - 1].open@ == b.open_without(c));
    let p = b.open@.index_of(c as usize);
    assert(b.open@.remove(p).len() == b.open@.len() - 1);
    assert(mid.open@.len() == b.open@.len() - 1);
    assert(f.end().open@.len() < b.open@.len());
    assert(closed(f.end(), f.cov_after()));
    assert(chain_ok(f.mid(), b.ring_after(x2), f.sel@));
    assert(f.end().inv());
    assert(f.end().same_frame(b));
}

impl DLXIterator {
    /// Tries cell `x2` of the frame's column in place of its current row.
    fn advance_row(&mut self, frame: StackFrame, x2: usize) -> (f: StackFrame)
        requires
            frame.ok(old(self).origin@),
            old(self).core.same(frame.mid()),
            frame.mid().lists@[frame.current_col as int].contains(x2),
        ensures
            f.ok(final(self).origin@),
            f.base == frame.base,
            f.cov == frame.cov,
            f.current_col == frame.current_col,
            f.current_row == x2,
            final(self).core.same(f.end()),
            final(self).core.inv(),
            final(self).selected_rows@ == old(self).selected_rows@.push(
                final(self).origin@.row@[x2 as int],
            ),
            final(self).stack == old(self).stack,
            final(self).origin == old(self).origin,
    {
        reveal(closed);
        let ghost b = frame.base@;
        let ghost c = frame.current_col as int;
        let ghost mid = frame.mid();
        proof {
            lemma_frame_facts(frame, self.origin@);
            assert(b.open@[b.open@.index_of(c as usize)] == c);
            assert(b.open@.contains(c as usize) <==> !frame.cov@.contains(c));
            lemma_row_free(b, frame.cov@, c, x2);
            lemma_same_inv(self.core, mid);
            assert(self.core.same(mid));
            lemma_same_closed(self.core, mid, frame.cov@.insert(c));
            assert(self.core.ring_after(x2 as int) == b.ring_after(x2 as int));
        }
        let sel = self.select_row(x2, Ghost(frame.cov@.insert(c)));
        let f = StackFrame {
            min_col_size: frame.min_col_size,
            current_col: frame.current_col,
            current_row: x2,
            base: frame.base,
            cov: frame.cov,
            col_trace: frame.col_trace,
            sel: sel,
        };
        proof {
            lemma_advance_ok(frame, f, old(self).core, self.core, self.origin@);
        }
        f
    }
}

impl DLXIterator {
    /// Picks the first open column after `from` of size `min` that has a
    /// row, covers it and selects that row, returning the new frame.
    fn descend_from(&mut self, from: usize, min: usize, Ghost(cov): Ghost<Set<int>>) -> (r: Option<
        StackFrame,
    >)
        requires
            old(self).core.inv(),
            old(self).core.same_frame(old(self).origin@),
            closed(old(self).core, cov),
            from == old(self).core.header || old(self).core.open@.contains(from),
        ensures
            final(self).stack == old(self).stack,
            final(self).origin == old(self).origin,
            match r {
                Some(f) => {
                    &&& f.ok(final(self).origin@)
                    &&& f.base@ == old(self).core
                    &&& f.cov@ == cov
                    &&& final(self).core.same(f.end())
                    &&& final(self).core.inv()
                    &&& final(self).selected_rows@ == old(self).selected_rows@.push(
                        final(self).origin@.row@[f.current_row as int],
                    )
                    &&& f.min_col_size == min
                    &&& exists|j: int|
                        walk_start(old(self).core, from as int) <= j < old(self).core.open@.len()
                            && old(self).core.open@[j] == f.current_col && forall|i: int|
                            walk_start(old(self).core, from as int) <= i < j
                                ==> #[trigger] old(self).core.size@[old(self).core.open@[i] as int]
                                != min
                    &&& old(self).core.lists@[f.current_col as int].len() > 0
                    &&& f.current_row == old(self).core.lists@[f.current_col as int][0]
                },
                None => *final(self) == *old(self) && ((forall|j: int|
                    walk_start(old(self).core, from as int) <= j < old(self).core.open@.len()
                        ==> #[trigger] old(self).core.size@[old(self).core.open@[j] as int] != min)
                    || exists|j: int|
                    walk_start(old(self).core, from as int) <= j < old(self).core.open@.len()
                        && old(self).core.size@[old(self).core.open@[j] as int] == min
                        && old(self).core.lists@[old(self).core.open@[j] as int].len() == 0),
            },
    {
        let co = self.next_column(from, min);
        if let Some(cc) = co {
            proof {
                let oo = self.core.open@;
                let j = choose|j: int| 0 <= j < oo.len() && oo[j] == cc;
                assert(oo[j] < self.core.required@);
                assert(self.core.column@[cc as int] == cc);
            }
            let ro = self.down(cc);
            if let Some(x) = ro {
                let f = self.descend(cc, x, min, Ghost(cov));
                proof {
                    reveal(StackFrame::ok);
                }
                return Some(f);
            }
            proof {
                let oo = self.core.open@;
                let st = walk_start(self.core, from as int);
                let jc = choose|j: int| st <= j < oo.len() && oo[j] == cc && self.core.size@[cc as int] == min;
                assert(self.core.lists@[oo[jc] as int].len() == 0);
            }
        }
        None
    }

    /// The search with `frame` just taken off the top of the stack.
    pub open spec fn popped(&self, frame: StackFrame) -> bool {
        let o = self.origin@;
        let f = self.stack@;
        &&& o.wf()
        &&& frames_ok(o, f)
        &&& fits_on(o, f, frame)
        &&& self.selected_rows@.len() == f.len() + 1
        &&& sel_ok(o, f, self.selected_rows@.drop_last())
        &&& self.selected_rows@.last() == o.row@[frame.current_row as int]
        &&& self.core.same(frame.end())
        &&& self.core.inv()
        &&& closed(self.core, frame.cov_after())
    }

    /// Tries to go one level below `frame`: pushes it back with a new frame
    /// above it, or hands it back untouched.
    fn go_deeper(&mut self, frame: StackFrame) -> (r: Option<StackFrame>)
        requires
            old(self).popped(frame),
        ensures
            final(self).origin == old(self).origin,
            match r {
                None => final(self).inv() && final(self).stack@ == old(self).stack@.push(frame).push(
                    final(self).stack@.last(),
                ) && deeper_of(frame, final(self).stack@.last()),
                Some(f) => f == frame && *final(self) == *old(self) && stuck(frame.end()),
            },
    {
        let ghost o = self.origin@;
        let ghost rest = self.stack@;
        let ghost sel0 = self.selected_rows@;
        proof {
            lemma_frame_facts(frame, o);
        }
        let mo = self.get_min_col_size();
        if let Some(min) = mo {
            let h = self.core.header;
            let d = self.descend_from(h, min, Ghost(frame.cov_after()));
            if let Some(f2) = d {
                self.stack.push(frame);
                proof {
                    lemma_frames_push(o, rest, frame);
                    lemma_frame_facts(f2, o);
                    assert(fits_on(o, rest.push(frame), f2));
                    lemma_frames_push(o, rest.push(frame), f2);
                    lemma_sel_push(o, rest, sel0.drop_last(), frame);
                    assert(sel0.drop_last().push(sel0.last()) =~= sel0);
                    lemma_sel_push(o, rest.push(frame), sel0, f2);
                    assert(self.core.same(f2.end()));
                    lemma_same_closed(self.core, f2.end(), f2.cov_after());
                }
                self.stack.push(f2);
                return None;
            }
            proof {
                let m = self.core;
                let oo = m.open@;
                lemma_min_upto(m, oo.len() as int);
                if oo.len() > 0 {
                    let i0 = choose|i: int| 0 <= i < oo.len() && min == #[trigger] m.size@[oo[i] as int];
                    assert(walk_start(m, h as int) == 0);
                    assert(m.size@[oo[i0] as int] == min);
                    let j = choose|j: int| 0 <= j < oo.len() && m.size@[oo[j] as int] == min
                        && m.lists@[oo[j] as int].len() == 0;
                    assert(oo[j] < m.required@);
                    assert(m.col_shape(oo[j] as int));
                }
                assert(m.same(frame.end()));
                lemma_min_upto_same(m, frame.end(), oo.len() as int);
            }
        }
        Some(frame)
    }

    /// Moves `frame` on to the next row of its column and pushes it back;
    /// when the column has no further row, uncovers the column, leaves the
    /// frame off and returns false.
    fn advance(&mut self, frame: StackFrame) -> (pushed: bool)
        requires
            old(self).popped(frame),
        ensures
            final(self).origin == old(self).origin,
            final(self).inv(),
            pushed ==> final(self).stack@.len() == old(self).stack@.len() + 1
                && final(self).stack@.drop_last() == old(self).stack@ && next_row_of(
                frame,
                final(self).stack@.last(),
            ) && frame_pos(
                final(self).stack@.last(),
                final(self).origin@,
            ) > frame_pos(frame, final(self).origin@),
            !pushed ==> final(self).stack@ == old(self).stack@ && last_row(frame),
    {
        let ghost o = self.origin@;
        let ghost rest = self.stack@;
        let ghost sel0 = self.selected_rows@;
        proof {
            lemma_frame_facts(frame, o);
            assert(frame.mid().ring_after(frame.current_row as int) == frame.base@.ring_after(
                frame.current_row as int,
            ));
        }
        self.deselect_row(frame.current_row, Ghost(frame.mid()), Ghost(frame.sel@));
        proof {
            lemma_same_inv(self.core, frame.mid());
        }
        let nr = self.down(frame.current_row);
        if let Some(x2) = nr {
            let f2 = self.advance_row(frame, x2);
            self.stack.push(f2);
            proof {
                let b = frame.base@;
                let c = frame.current_col as int;
                let l = b.lists@[c];
                assert(b.col_shape(c));
                let i = l.index_of(frame.current_row);
                assert(l.contains(frame.current_row));
                assert(x2 == l[i + 1]);
                lemma_index_of_unique(l, i + 1);
                assert(self.stack@.drop_last() =~= rest);
                lemma_frame_facts(f2, o);
                lemma_frames_push(o, rest, f2);
                lemma_sel_push(o, rest, sel0.drop_last(), f2);
                lemma_same_closed(self.core, f2.end(), f2.cov_after());
            }
            return true;
        }
        proof {
            let b = frame.base@;
            let c = frame.current_col as int;
            assert(b.open@[b.open@.index_of(c as usize)] == c);
            lemma_closed_open(b, frame.cov@, c);
            lemma_closed_coverable(b, frame.cov@, c);
            assert(b.column@[c] == c);
        }
        self.core.uncover_column(frame.current_col, Ghost(frame.base@), Ghost(frame.col_trace@));
        proof {
            lemma_same_inv(self.core, frame.base@);
            lemma_same_closed(self.core, frame.base@, frame.cov@);
        }
        false
    }

    /// One move of the search. Unless `backtracked`, first tries to go one
    /// level deeper; otherwise, or when that fails, moves the top frame to
    /// the next row of its column, popping frames whose column has no
    /// further row.
    fn step(&mut self, backtracked: bool)
        requires
            old(self).inv(),
        ensures
            final(self).inv(),
            final(self).origin == old(self).origin,
            old(self).stack@.len() == 0 ==> *final(self) == *old(self),
            old(self).stack@.len() > 0 ==> !final(self).pending,
            old(self).stack@.len() > 0 ==> moved(old(self).stack@, final(self).stack@, backtracked),
            final(self).stack@.len() == 0 || measure(final(self).origin@, final(self).stack@) < measure(
                old(self).origin@,
                old(self).stack@,
            ),
    {
        if self.stack.len() == 0 {
            return;
        }
        self.search_move(backtracked);
        self.pending = false;
    }

    /// The moves of `step`, on a search that is not over.
    fn search_move(&mut self, retreat: bool)
        requires
            old(self).inv(),
            old(self).stack@.len() > 0,
        ensures
            final(self).inv(),
            moved(old(self).stack@, final(self).stack@, retreat),
            final(self).origin == old(self).origin,
            final(self).stack@.len() == 0 || measure(final(self).origin@, final(self).stack@) < measure(
                old(self).origin@,
                old(self).stack@,
            ),
    {
        let ghost s0 = self.stack@;
        let ghost given = retreat;
        let mut backtracked = retreat;
        loop
            invariant
                self.inv(),
                self.origin == old(self).origin,
                s0 == old(self).stack@,
                frames_ok(self.origin@, s0),
                self.stack@.len() <= s0.len(),
                self.stack@ == s0.take(self.stack@.len() as int),
                given == retreat,
                given ==> backtracked,
                !backtracked ==> self.stack@ == s0,
                s0.len() > 0,
                !given && backtracked ==> stuck(s0.last().end()),
                forall|i: int| self.stack@.len() <= i < s0.len() ==> last_row(#[trigger] s0[i]),
            decreases self.stack@.len(),
        {
            let ghost o = self.origin@;
            let ghost full = self.stack@;
            let ghost full_sel = self.selected_rows@;
            let top = self.stack.pop();
            match top {
                None => {
                    proof {
                        assert(moved(s0, self.stack@, given));
                    }
                    return;
                },
                Some(frame) => {
                    let ghost rest = self.stack@;
                    proof {
                        assert(rest =~= full.drop_last());
                    }
                    proof {
                        assert(frame == full.last());
                        lemma_frames_pop(o, full);
                        lemma_sel_pop(o, full, full_sel);
                    }
                    let mut frame = frame;
                    if !backtracked {
                        match self.go_deeper(frame) {
                            None => {
                                proof {
                                    assert(full == s0);
                                    assert(rest.push(frame) =~= s0);
                                    let s2 = self.stack@;
                                    assert forall|k: int| 0 <= k < s0.len() implies #[trigger] s2[k] == s0[k] by {}
                                    lemma_measure_drop(o, s0, s2, s0.len() as int);
                                    assert(s2 == s0.push(s2.last()));
                                    assert(!given);
                                    assert(frame == s0.last());
                                    assert(deeper_of(s0.last(), s2.last()));
                                    assert(moved(s0, s2, given));
                                }
                                return;
                            },
                            Some(f) => {
                                frame = f;
                                proof {
                                    assert(full == s0);
                                    assert(frame == s0.last());
                                }
                            },
                        }
                    }
                    proof {
                        assert(!given ==> stuck(s0.last().end()));
                    }
                    if self.advance(frame) {
                        proof {
                            let s2 = self.stack@;
                            let j = rest.len() as int;
                            assert(full == s0.take(j + 1));
                            assert(frame == s0[j]);
                            assert forall|k: int| 0 <= k < j implies #[trigger] s2[k] == s0[k] by {
                                assert(s2[k] == rest[k]);
                                assert(rest[k] == full[k]);
                            }
                            lemma_measure_drop(o, s0, s2, j);
                            assert(rest =~= s0.take(j));
                            assert(s2 == s0.take(j).push(s2.last()));
                            assert(next_row_of(s0[j], s2.last()));
                            assert(moved(s0, s2, given));
                        }
                        return;
                    }
                    proof {
                        assert(rest =~= s0.take(rest.len() as int));
                        assert(frame == s0[rest.len() as int]);
                    }
                    backtracked = true;
                }
            }
        }
    }
}

/// A non-empty stack has a positive measure.
proof fn lemma_measure_pos(o: DLX, f: Seq<StackFrame>)
    requires
        frames_ok(o, f),
        f.len() > 0,
    ensures
        measure(o, f) > 0,
{
    let d = digits(o, f);
    let b = slot_cap(o) + 2;
    let last = f.len() - 1;
    assert(f[last].ok(o));
    lemma_pos_bounds(f[last], o);
    assert(f[last].base@.open@.len() + last <= o.required@);
    assert forall|k: int| 0 <= k < d.len() implies 0 <= #[trigger] d[k] < b by {
        if k < f.len() {
            assert(f[k].ok(o));
            lemma_pos_bounds(f[k], o);
        }
    }
    lemma_num_bounds(d, b);
}

/// Columns covered below a level include those chosen at every lower level.
proof fn lemma_cov_mono(o: DLX, f: Seq<StackFrame>, k1: int, k2: int)
    requires
        frames_ok(o, f),
        0 <= k1 < k2 < f.len(),
    ensures
        f[k1].cov_after().subset_of(f[k2].cov@),
    decreases k2 - k1,
{
    assert(f[k2].cov@ == f[k2 - 1].cov_after());
    if k1 < k2 - 1 {
        lemma_cov_mono(o, f, k1, k2 - 1);
    }
}

/// A column covered at level `k` is a column of the row chosen at some
/// level up to `k`.
proof fn lemma_cov_union(o: DLX, f: Seq<StackFrame>, k: int, c: int)
    requires
        frames_ok(o, f),
        0 <= k < f.len(),
        f[k].cov_after().contains(c),
    ensures
        exists|j: int| 0 <= j <= k && (#[trigger] f[j]).row_cols().contains(c),
    decreases k,
{
    if f[k].row_cols().contains(c) {
    } else if k == 0 {
        assert(f[0].cov@ == Set::<int>::empty());
    } else {
        assert(f[k].cov@ == f[k - 1].cov_after());
        lemma_cov_union(o, f, k - 1, c);
        let j = choose|j: int| 0 <= j <= k - 1 && (#[trigger] f[j]).row_cols().contains(c);
    }
}

/// The row chosen at a level touches no column covered below it.
proof fn lemma_row_disjoint(f: StackFrame, o: DLX, c: int)
    requires
        f.ok(o),
        f.row_cols().contains(c),
    ensures
        !f.cov@.contains(c),
{
    lemma_frame_facts(f, o);
    let b = f.base@;
    let cc = f.current_col as int;
    lemma_closed_open(b, f.cov@, cc);
    lemma_row_free(b, f.cov@, cc, f.current_row);
    if c != cc {
        let q = choose|q: int|
            0 <= q < b.ring_after(f.current_row as int).len() && b.column@[#[trigger] b.ring_after(
                f.current_row as int,
            )[q] as int] == c;
        assert(!f.cov@.insert(cc).contains(c));
    }
}

/// The row chosen at a level, as inserted, holds exactly the columns of
/// `row_cols`.
proof fn lemma_row_view(f: StackFrame, o: DLX, c: int)
    requires
        f.ok(o),
        o.wf(),
        0 <= c < o.header,
    ensures
        o.row@[f.current_row as int] < o.rows,
        o.rows_view()[o.row@[f.current_row as int] as int].contains(c as usize) <==> f.row_cols().contains(c),
{
    lemma_frame_facts(f, o);
    let b = f.base@;
    let x = f.current_row as int;
    let r = o.row@[x] as int;
    assert(b.row_shape());
    assert(o.row_shape());
    assert(b.is_cell(x));
    assert(o.is_cell(x));
    assert(o.lo(x) <= x < o.hi(x));
    assert(r < o.rows);
    let rv = o.rows_view()[r];
    let st = o.starts@[r];
    assert(rv == Seq::new((o.starts@[r + 1] - st) as nat, |i: int| o.column@[st + i]));
    lemma_ring(o, x);
    assert(o.ring_after(x) == b.ring_after(x));
    if rv.contains(c as usize) {
        let i = choose|i: int| 0 <= i < rv.len() && rv[i] == c as usize;
        let y = st + i;
        crate::matrix::lemma_same_row(o, x, y);
        if y == x {
            assert(o.column@[x] == c);
            assert(b.column@[x] == f.current_col);
            assert(c == f.current_col);
            assert(f.row_cols().contains(c));
        } else {
            assert(o.ring_after(x).contains(y as usize));
            let q = o.ring_after(x).index_of(y as usize);
            assert(o.ring_after(x)[q] == y);
            assert(o.column@[y] == c);
            assert(b.column@ == o.column@);
            assert(b.column@[b.ring_after(x)[q] as int] == c);
            assert(ring_cols(b, x).contains(c));
        }
    }
    if f.row_cols().contains(c) {
        if c == f.current_col {
            assert(rv[x - st] == c);
        } else {
            let q = choose|q: int|
                0 <= q < b.ring_after(x).len() && b.column@[#[trigger] b.ring_after(x)[q] as int] == c;
            let y = b.ring_after(x)[q] as int;
            assert(o.row@[y] == o.row@[x]);
            assert(o.lo(y) <= y < o.hi(y));
            assert(rv[y - st] == c);
        }
    }
}

/// When no primary column is left open, the rows chosen form an exact cover.
proof fn lemma_solution(it: DLXIterator)
    requires
        it.inv(),
        it.core.open@.len() == 0,
    ensures
        is_exact_cover(it.origin@.rows_view(), it.origin@.primary(), it.selected_rows@),
        it.selected_rows@.no_duplicates(),
{
    if it.stack@.len() == 0 {
        let o = it.origin@;
        if o.required@ > 0 {
            lemma_closed_open(it.core, top_cov(it.stack@), 0);
            assert(it.core.open@.contains(0usize));
        }
        return;
    }
    let o = it.origin@;
    let f = it.stack@;
    let sel = it.selected_rows@;
    let rows = o.rows_view();
    let n = f.len() - 1;
    assert(top_cov(f) == f[n].cov_after());
    assert(f[n].ok(o));
    lemma_frame_facts(f[n], o);
    assert(it.core.same_frame(o));
    assert forall|k: int| 0 <= k < sel.len() implies #[trigger] sel[k] < rows.len() by {
        assert(f[k].ok(o));
        lemma_frame_facts(f[k], o);
        let x = f[k].current_row as int;
        assert(o.row_shape());
        assert(o.is_cell(x));
        assert(sel[k] == o.row@[x]);
    }
    assert forall|c: int| 0 <= c < o.primary() implies #[trigger] covered_by(rows, sel, c) by {
        lemma_closed_open(it.core, top_cov(f), c);
        assert(it.core.required@ == o.required@);
        assert(!it.core.open@.contains(c as usize));
        assert(f[n].cov_after().contains(c));
        lemma_cov_union(o, f, n, c);
        let j = choose|j: int| 0 <= j <= n && (#[trigger] f[j]).row_cols().contains(c);
        assert(f[j].ok(o));
        lemma_row_view(f[j], o, c);
        assert(sel[j] == o.row@[f[j].current_row as int]);
        assert(rows[sel[j] as int].contains(c as usize));
    }
    assert forall|c: int, k1: int, k2: int|
        #![trigger rows[sel[k1] as int].contains(c as usize), rows[sel[k2] as int].contains(c as usize)]
        0 <= c < o.primary() && 0 <= k1 < sel.len() && 0 <= k2 < sel.len() && k1 != k2 && rows[sel[
            k1] as int].contains(c as usize) implies !rows[sel[k2] as int].contains(c as usize) by {
        assert(f[k1].ok(o));
        assert(f[k2].ok(o));
        lemma_row_view(f[k1], o, c);
        lemma_row_view(f[k2], o, c);
        if rows[sel[k2] as int].contains(c as usize) {
            let lo = if k1 < k2 { k1 } else { k2 };
            let hi = if k1 < k2 { k2 } else { k1 };
            lemma_cov_mono(o, f, lo, hi);
            assert(f[lo].row_cols().contains(c));
            assert(f[lo].cov_after().contains(c));
            assert(f[hi].cov@.contains(c));
            lemma_row_disjoint(f[hi], o, c);
        }
    }
    assert forall|k1: int, k2: int| 0 <= k1 < sel.len() && 0 <= k2 < sel.len() && k1 != k2 implies sel[k1]
        != sel[k2] by {
        assert(f[k1].ok(o));
        lemma_frame_facts(f[k1], o);
        let c = f[k1].current_col as int;
        assert(f[k1].base@.required@ == o.required@);
        lemma_row_view(f[k1], o, c);
        assert(f[k1].row_cols().contains(c));
        assert(rows[sel[k1] as int].contains(c as usize));
        if sel[k1] == sel[k2] {
            assert(rows[sel[k2] as int].contains(c as usize));
        }
    }
}

/// A matrix that has not been searched is closed over no covered column.
proof fn lemma_pristine_closed(m: DLX)
    requires
        m.wf(),
    ensures
        closed(m, Set::<int>::empty()),
{
    reveal(closed);
    assert forall|c: int| 0 <= c < m.required@ implies (#[trigger] m.open@.contains(c as usize)
        <==> !Set::<int>::empty().contains(c)) by {
        assert(m.open@[c] == c as usize);
    }
    assert forall|d: int, k: int|
        0 <= d < m.header && 0 <= k < m.lists@[d].len() implies m.row_visible(
            #[trigger] m.lists@[d][k] as int,
        ) by {
        let x = m.lists@[d][k] as int;
        assert(m.col_shape(d));
        lemma_ring(m, x);
        assert forall|q: int| 0 <= q < m.ring_after(x).len() implies m.visible(
            #[trigger] m.ring_after(x)[q] as int,
        ) by {
            let y = m.ring_after(x)[q] as int;
            assert(m.is_cell(y));
            assert(m.lists@[m.column@[y] as int].contains(y as usize));
        }
    }
    assert forall|y: int| #![trigger m.visible(y)] m.is_cell(y) && row_clear(m, y, Set::<int>::empty()) implies m.visible(y) by {
        assert(m.lists@[m.column@[y] as int].contains(y as usize));
    }
}

/// A copy of `v`.
fn copy_vec(v: &Vec<usize>) -> (r: Vec<usize>)
    ensures
        r@ == v@,
{
    let mut r: Vec<usize> = Vec::new();
    let mut i: usize = 0;
    while i < v.len()
        invariant
            i <= v@.len(),
            r@ == v@.take(i as int),
        decreases v@.len() - i,
    {
        r.push(v[i]);
        i = i + 1;
        proof {
            assert(r@ =~= v@.take(i as int));
        }
    }
    proof {
        assert(v@.take(v@.len() as int) =~= v@);
    }
    r
}

/// Whether `a` and `b` hold the same values.
fn same_vec(a: &Vec<usize>, b: &Vec<usize>) -> (r: bool)
    ensures
        r == (a@ == b@),
{
    if a.len() != b.len() {
        return false;
    }
    let mut i: usize = 0;
    while i < a.len()
        invariant
            a@.len() == b@.len(),
            i <= a@.len(),
            forall|k: int| 0 <= k < i ==> a@[k] == b@[k],
        decreases a@.len() - i,
    {
        if a[i] != b[i] {
            return false;
        }
        i = i + 1;
    }
    proof {
        assert(a@ =~= b@);
    }
    true
}

impl DLX {
    /// A copy of the matrix.
    fn duplicate(&self) -> (r: DLX)
        ensures
            r.same(*self),
            r.size@ == self.size@,
    {
        DLX {
            header: self.header,
            rows: self.rows,
            left: copy_vec(&self.left),
            right: copy_vec(&self.right),
            up: copy_vec(&self.up),
            down: copy_vec(&self.down),
            size: copy_vec(&self.size),
            column: copy_vec(&self.column),
            row: copy_vec(&self.row),
            required: self.required,
            starts: self.starts,
            lists: self.lists,
            open: self.open,
        }
    }

    /// Starts the search for exact covers of the matrix.
    pub fn into_iter(self) -> (r: DLXIterator)
        requires
            self.wf(),
        ensures
            r.ready(),
            DLXIterator::is_start(r, self),
            r.handed@ == Seq::<Seq<usize>>::empty(),
            r.tracks(),
            !r.pending ==> forall|sel: Seq<usize>|
                is_strict_cover(r.origin@.rows_view(), r.origin@.primary(), sel) ==> ahead(
                    r.origin@,
                    r.stack@,
                    sel,
                ) && r.core.open@.len() > 0,
    {
        DLXIterator::init(self)
    }

    /// The first exact cover found, as row ids in the order chosen.
    pub fn search(self) -> (r: Option<Vec<usize>>)
        requires
            self.wf(),
        ensures
            r matches Some(sol) ==> is_exact_cover(self.rows_view(), self.primary(), sol@),
            self.primary() == 0 ==> (r matches Some(sol) && sol@.len() == 0),
            (exists|sel: Seq<usize>| is_strict_cover(self.rows_view(), self.primary(), sel)) ==> r is Some,
    {
        let mut it = self.into_iter();
        let ghost it0 = it;
        let r = it.next();
        proof {
            if exists|sel: Seq<usize>| is_strict_cover(self.rows_view(), self.primary(), sel) {
                let sel = choose|sel: Seq<usize>| is_strict_cover(self.rows_view(), self.primary(), sel);
                if !it0.pending {
                    assert(ahead(it0.origin@, it0.stack@, sel) && it0.core.open@.len() > 0);
                }
            }
        }
        r
    }
}

/// Some row picked by `sel` holds column `c`.
pub open spec fn covered_by(rows: Seq<Seq<usize>>, sel: Seq<usize>, c: int) -> bool {
    exists|k: int| 0 <= k < sel.len() && #[trigger] rows[sel[k] as int].contains(c as usize)
}

/// `sel` picks rows of `rows` that cover each of the first `primary`
/// columns exactly once.
pub open spec fn is_exact_cover(rows: Seq<Seq<usize>>, primary: nat, sel: Seq<usize>) -> bool {
    &&& forall|k: int| 0 <= k < sel.len() ==> #[trigger] sel[k] < rows.len()
    &&& forall|c: int| 0 <= c < primary ==> #[trigger] covered_by(rows, sel, c)
    &&& forall|c: int, k1: int, k2: int|
        #![trigger rows[sel[k1] as int].contains(c as usize), rows[sel[k2] as int].contains(c as usize)]
        0 <= c < primary && 0 <= k1 < sel.len() && 0 <= k2 < sel.len() && k1 != k2 && rows[sel[
            k1] as int].contains(c as usize) ==> !rows[sel[k2] as int].contains(c as usize)
}

impl DLXIterator {
    /// The state in which a search of `core` begins: at most one frame, on the
    /// lowest primary column of least size and its first row, and a pending
    /// cover when that already covers every primary column.
    pub open spec fn is_start(r: DLXIterator, core: DLX) -> bool {
        &&& (r.pending <==> r.core.open@.len() == 0)
        &&& (r.stack@.len() <= 1)
        &&& (r.stack@.len() == 0 <==> (core.primary() == 0 || min_upto(core, core.primary() as int)
                == 0))
        &&& (r.stack@.len() == 1 ==> ({
                let c = r.stack@[0].current_col as int;
                &&& 0 <= c < core.primary()
                &&& core.size@[c] == min_upto(core, core.primary() as int)
                &&& forall|i: int| 0 <= i < c ==> #[trigger] core.size@[i] != core.size@[c]
                &&& r.stack@[0].current_row == core.lists@[c][0]
                &&& forall|y: int|
                    core.is_cell(y) && core.column@[y] == c ==> r.stack@[0].current_row <= y
                &&& r.selected_rows@ == seq![core.row@[core.lists@[c][0] as int]]
            }))
        &&& r.origin@ == core
    }
}

impl DLXIterator {
    pub fn init(core: DLX) -> (r: DLXIterator)
        requires
            core.wf(),
        ensures
            r.ready(),
            DLXIterator::is_start(r, core),
            r.handed@ == Seq::<Seq<usize>>::empty(),
            r.tracks(),
            !r.pending ==> forall|sel: Seq<usize>|
                is_strict_cover(r.origin@.rows_view(), r.origin@.primary(), sel) ==> ahead(
                    r.origin@,
                    r.stack@,
                    sel,
                ) && r.core.open@.len() > 0,
    {
        let ghost o = core;
        let mut x = DLXIterator {
            core,
            selected_rows: Vec::new(),
            stack: Vec::new(),
            pending: false,
            handed: Ghost(Seq::empty()),
            origin: Ghost(o),
        };
        proof {
            lemma_pristine_closed(o);
            assert(x.core.same(o));
        }
        let mo = x.get_min_col_size();
        proof {
            assert(o.open@.len() == o.required@);
            lemma_min_upto(o, o.required@ as int);
            assert forall|i: int| 0 <= i < o.required@ implies #[trigger] o.open@[i] == i by {}
        }
        if let Some(min) = mo {
            let h = x.core.header;
            let co = x.next_column(h, min);
            if let Some(cc) = co {
                proof {
                    assert(walk_start(o, h as int) == 0);
                    let j = choose|j: int| 0 <= j < o.open@.len() && o.open@[j] == cc && o.size@[cc as int] == min
                        && forall|i: int| 0 <= i < j ==> #[trigger] o.size@[o.open@[i] as int] != min;
                    assert(o.open@[j] == j);
                    assert(cc < o.required@);
                    assert(o.column@[cc as int] == cc);
                    assert forall|i: int| 0 <= i < cc implies #[trigger] o.size@[i] != min by {
                        assert(o.open@[i] == i);
                    }
                }
                let ro = x.down(cc);
                if let Some(row) = ro {
                    proof {
                        assert(x.core.same_frame(o));
                    }
                    let f = x.descend(cc, row, min, Ghost(Set::<int>::empty()));
                    x.stack.push(f);
                    proof {
                        lemma_frame_facts(f, o);
                        assert(x.stack@ == Seq::<StackFrame>::empty().push(f));
                        lemma_frames_push(o, Seq::<StackFrame>::empty(), f);
                        lemma_sel_push(o, Seq::<StackFrame>::empty(), Seq::<usize>::empty(), f);
                        assert(Seq::<usize>::empty().push(o.row@[f.current_row as int]) =~= x.selected_rows@);
                        lemma_same_closed(x.core, f.end(), f.cov_after());
                        if min == 0 {
                            assert(o.col_shape(cc as int));
                        }
                        assert forall|y: int| o.is_cell(y) && o.column@[y] == cc implies row <= y by {
                            let l = o.lists@[cc as int];
                            assert(l.contains(y as usize));
                            let k = choose|k: int| 0 <= k < l.len() && l[k] == y as usize;
                            if k > 0 {
                                assert(l[0] < l[k]);
                            }
                        }
                    }
                } else {
                    proof {
                        assert(o.col_shape(cc as int));
                    }
                }
            } else {
                proof {
                    if o.required@ > 0 {
                        let i = choose|i: int| 0 <= i < o.required@ && min == #[trigger] o.size@[o.open@[i] as int];
                        assert(o.size@[o.open@[i] as int] != min);
                    }
                }
            }
        }
        let h = x.core.header;
        proof {
            assert(x.core.open_shape());
        }
        x.pending = x.core.right[h] == h;
        proof {
            if !x.pending {
                assert forall|sel: Seq<usize>| is_strict_cover(x.origin@.rows_view(), x.origin@.primary(), sel) implies ahead(
                    x.origin@,
                    x.stack@,
                    sel,
                ) && x.core.open@.len() > 0 by {
                    lemma_start_ahead(x, sel);
                }
            }
        }
        x.handed = Ghost(Seq::empty());
        proof {
            assert forall|sel: Seq<usize>| #[trigger] is_good_cover(x.origin@, sel) implies x.was_handed(sel)
                || x.alive(sel) by {
                if x.stack@.len() == 0 && x.pending {
                    assert(o.required@ == 0 || min_upto(o, o.required@ as int) == 0);
                    if o.required@ > 0 {
                        assert(!x.core.open@.contains(0usize)) by {
                            assert(x.core.same(o));
                        }
                        assert(o.open@[0] == 0usize);
                        assert(x.core.same(o));
                        assert(x.core.open@.len() == 0);
                    }
                    if sel.len() > 0 {
                        assert(has_primary(o, sel[0] as int));
                    }
                    assert(sel.to_set() =~= Set::<usize>::empty());
                    assert(x.selected_rows@.len() == 0);
                    assert(x.selected_rows@.to_set() =~= Set::<usize>::empty());
                } else {
                    lemma_start_ahead(x, sel);
                }
            }
        }
        x
    }

    /// The rows chosen so far, while the search is not over.
    pub fn current(&self) -> (r: Option<&[usize]>)
        ensures
            r matches Some(s) ==> s@ == self.selected_rows@,
            r is Some <==> self.stack@.len() > 0,
    {
        if self.stack.len() > 0 {
            Some(self.selected_rows.as_slice())
        } else {
            None
        }
    }

    /// Steps until the rows chosen cover every primary column, or the
    /// search is over.
    fn get_next(&mut self) -> (found: bool)
        requires
            old(self).inv(),
            !old(self).pending,
        ensures
            final(self).inv(),
            !final(self).pending,
            final(self).origin == old(self).origin,
            found ==> final(self).stack@.len() > 0 && final(self).core.open@.len() == 0,
            !found ==> final(self).stack@.len() == 0,
            old(self).stack@.len() > 0 ==> final(self).stack@.len() == 0 || measure(
                final(self).origin@,
                final(self).stack@,
            ) < measure(old(self).origin@, old(self).stack@),
            forall|sel: Seq<usize>|
                is_strict_cover(old(self).origin@.rows_view(), old(self).origin@.primary(), sel)
                    && ahead(old(self).origin@, old(self).stack@, sel) && old(self).core.open@.len()
                    > 0 ==> found,
            forall|sel: Seq<usize>|
                is_good_cover(old(self).origin@, sel) && old(self).alive(sel) ==> ahead(
                    final(self).origin@,
                    final(self).stack@,
                    sel,
                ),
            final(self).handed == old(self).handed,
    {
        proof {
            assert forall|sel: Seq<usize>|
                is_good_cover(old(self).origin@, sel) && old(self).alive(sel) implies ahead(
                    self.origin@,
                    self.stack@,
                    sel,
                ) && (self.core.open@.len() > 0 || !on_path(
                    self.origin@,
                    self.stack@,
                    sel,
                    self.stack@.len() as int,
                )) by {
                if self.core.open@.len() == 0 && on_path(self.origin@, self.stack@, sel, self.stack@.len() as int) {
                    lemma_solution_path(*self, sel);
                }
            }
        }
        while self.stack.len() > 0
            invariant
                self.inv(),
                !self.pending,
                self.origin == old(self).origin,
                self.stack@ == old(self).stack@ || measure(self.origin@, self.stack@) < measure(
                    old(self).origin@,
                    old(self).stack@,
                ),
                forall|sel: Seq<usize>|
                    is_strict_cover(old(self).origin@.rows_view(), old(self).origin@.primary(), sel)
                        && ahead(old(self).origin@, old(self).stack@, sel) && old(self).core.open@.len()
                        > 0 ==> ahead(self.origin@, self.stack@, sel) && self.core.open@.len() > 0,
                forall|sel: Seq<usize>|
                    is_good_cover(old(self).origin@, sel) && old(self).alive(sel) ==> ahead(
                        self.origin@,
                        self.stack@,
                        sel,
                    ) && (self.core.open@.len() > 0 || !on_path(
                        self.origin@,
                        self.stack@,
                        sel,
                        self.stack@.len() as int,
                    )),
                self.handed == old(self).handed,
            decreases measure(self.origin@, self.stack@),
        {
            let ghost before = self.stack@;
            let ghost prev = *self;
            proof {
                lemma_measure_pos(self.origin@, before);
            }
            let ghost kept = self.handed@;
            self.step(false);
            self.handed = Ghost(kept);
            proof {
                if self.stack@.len() == 0 {
                    assert(measure(self.origin@, self.stack@) == 0);
                } else {
                    lemma_measure_pos(self.origin@, self.stack@);
                }
                assert(measure(self.origin@, self.stack@) < measure(self.origin@, before));
            }
            proof {
                assert(self.core.open_shape());
                assert forall|sel: Seq<usize>|
                    is_strict_cover(old(self).origin@.rows_view(), old(self).origin@.primary(), sel)
                        && ahead(old(self).origin@, old(self).stack@, sel) && old(self).core.open@.len()
                        > 0 implies ahead(self.origin@, self.stack@, sel) by {
                    lemma_ahead_step(prev, *self, sel);
                }
                assert forall|sel: Seq<usize>|
                    is_good_cover(old(self).origin@, sel) && old(self).alive(sel) implies ahead(
                        self.origin@,
                        self.stack@,
                        sel,
                    ) by {
                    if prev.core.open@.len() > 0 {
                        lemma_ahead_step(prev, *self, sel);
                    } else {
                        lemma_ahead_off_path(prev, *self, sel);
                    }
                }
            }
            let h = self.core.header;
            if self.core.right[h] == h {
                if self.stack.len() > 0 {
                    proof {
                        assert(self.core.open_shape());
                    }
                    return true;
                }
            }
            proof {
                assert(self.core.open_shape());
                assert(self.stack@.len() == 0 || self.core.open@.len() > 0);
            }
        }
        false
    }

    /// The next exact cover, as row ids in the order chosen: the cover the
    /// search is waiting on, if any, else the next one it reaches.
    pub fn next(&mut self) -> (r: Option<Vec<usize>>)
        requires
            old(self).ready(),
        ensures
            final(self).ready(),
            !final(self).pending,
            final(self).origin == old(self).origin,
            r matches Some(sol) ==> sol@ == final(self).selected_rows@ && is_exact_cover(
                final(self).origin@.rows_view(),
                final(self).origin@.primary(),
                sol@,
            ) && sol@.no_duplicates(),
            r is Some ==> final(self).core.open@.len() == 0,
            r is None ==> final(self).stack@.len() == 0,
            old(self).pending ==> r is Some && final(self).core == old(self).core && final(self).stack
                == old(self).stack && final(self).selected_rows == old(self).selected_rows,
            !old(self).pending && old(self).stack@.len() == 0 ==> r is None && *final(self) == *old(
                self,
            ),
            forall|sel: Seq<usize>|
                is_strict_cover(old(self).origin@.rows_view(), old(self).origin@.primary(), sel)
                    && ahead(old(self).origin@, old(self).stack@, sel) && old(self).core.open@.len()
                    > 0 ==> r is Some,
            !old(self).pending && old(self).stack@.len() > 0 ==> final(self).stack@.len() == 0
                || measure(final(self).origin@, final(self).stack@) < measure(
                old(self).origin@,
                old(self).stack@,
            ),
    {
        if self.pending {
            self.pending = false;
            proof {
                lemma_solution(*self);
            }
            return Some(copy_vec(&self.selected_rows));
        }
        if self.stack.len() == 0 {
            return None;
        }
        if self.get_next() {
            proof {
                lemma_solution(*self);
            }
            Some(copy_vec(&self.selected_rows))
        } else {
            None
        }
    }

    /// Makes one forward step and returns the rows then chosen.
    pub fn next_forward(&mut self) -> (r: Option<&[usize]>)
        requires
            old(self).ready(),
        ensures
            final(self).ready(),
            old(self).stack@.len() == 0 ==> r is None && *final(self) == *old(self),
            old(self).stack@.len() > 0 ==> moved(old(self).stack@, final(self).stack@, false),
            final(self).origin == old(self).origin,
            r matches Some(s) ==> s@ == final(self).selected_rows@,
            r is Some <==> final(self).stack@.len() > 0,
            final(self).stack@.len() == 0 || measure(final(self).origin@, final(self).stack@)
                < measure(old(self).origin@, old(self).stack@),
    {
        self.step(false);
        self.current()
    }

    /// Abandons the current row, steps, and returns the rows then chosen.
    pub fn next_backtrack(&mut self) -> (r: Option<&[usize]>)
        requires
            old(self).ready(),
        ensures
            final(self).ready(),
            old(self).stack@.len() == 0 ==> r is None && *final(self) == *old(self),
            old(self).stack@.len() > 0 ==> moved(old(self).stack@, final(self).stack@, true),
            final(self).origin == old(self).origin,
            r matches Some(s) ==> s@ == final(self).selected_rows@,
            r is Some <==> final(self).stack@.len() > 0,
            final(self).stack@.len() == 0 || measure(final(self).origin@, final(self).stack@)
                < measure(old(self).origin@, old(self).stack@),
    {
        self.step(true);
        self.current()
    }

    /// Covers then uncovers open column `column` on a copy of the matrix,
    /// and tells whether every array came back as it was.
    pub fn cuci(&self, column: usize) -> (r: bool)
        requires
            self.inv(),
            self.core.open@.contains(column),
        ensures
            r,
    {
        let mut cc = self.core.duplicate();
        let ghost before = cc;
        let ghost c = column as int;
        proof {
            lemma_same_inv(cc, self.core);
            let oo = self.core.open@;
            let j = choose|j: int| 0 <= j < oo.len() && oo[j] == column;
            assert(self.core.open_shape());
            assert(oo[j] < self.core.required@);
            lemma_closed_open(self.core, top_cov(self.stack@), c);
            lemma_same_closed(cc, self.core, top_cov(self.stack@));
            lemma_closed_coverable(cc, top_cov(self.stack@), c);
            assert(cc.column@[c] == c);
        }
        let tr = cc.cover_column(column);
        cc.uncover_column(column, Ghost(before), tr);
        proof {
            crate::matrix::lemma_size_view(cc);
            crate::matrix::lemma_size_view(self.core);
        }
        same_vec(&cc.left, &self.core.left) && same_vec(&cc.right, &self.core.right) && same_vec(
            &cc.up,
            &self.core.up,
        ) && same_vec(&cc.down, &self.core.down) && same_vec(&cc.size, &self.core.size)
    }

    /// Runs `cuci` on every open column.
    pub fn check(&self) -> (r: bool)
        requires
            self.inv(),
        ensures
            r,
    {
        let h = self.core.header;
        let ghost o = self.core.open@;
        let mut open: Vec<usize> = Vec::new();
        let mut i = h;
        let ghost mut k: int = 0;
        loop
            invariant_except_break
                i == (if k == 0 {
                    h as int
                } else {
                    o[k - 1] as int
                }),
            invariant
                self.inv(),
                h == self.core.header,
                o == self.core.open@,
                0 <= k <= o.len(),
                open@ == o.take(k),
            ensures
                open@ == o,
            decreases o.len() - k,
        {
            proof {
                assert(self.core.open_shape());
            }
            i = self.core.right[i];
            if i == h {
                proof {
                    if k < o.len() {
                        assert(o[k] < self.core.required@);
                    }
                    assert(o.take(k) =~= o);
                }
                break;
            }
            open.push(i);
            proof {
                k = k + 1;
                assert(open@ =~= o.take(k));
            }
        }
        let mut q: usize = 0;
        while q < open.len()
            invariant
                self.inv(),
                open@ == self.core.open@,
                q <= open@.len(),
            decreases open@.len() - q,
        {
            proof {
                assert(self.core.open@.contains(open@[q as int]));
            }
            if !self.cuci(open[q]) {
                return false;
            }
            q = q + 1;
        }
        true
    }
}

/// `sel` picks rows that cover each of the first `primary` columns exactly
/// once and no column twice.
pub open spec fn is_strict_cover(rows: Seq<Seq<usize>>, primary: nat, sel: Seq<usize>) -> bool {
    &&& is_exact_cover(rows, primary, sel)
    &&& forall|c: int, k1: int, k2: int|
        #![trigger rows[sel[k1] as int].contains(c as usize), rows[sel[k2] as int].contains(c as usize)]
        0 <= c && 0 <= k1 < sel.len() && 0 <= k2 < sel.len() && k1 != k2 && rows[sel[k1] as int].contains(
            c as usize,
        ) ==> !rows[sel[k2] as int].contains(c as usize)
}

/// The rows tried by the first `k` levels all belong to `sel`.
pub open spec fn on_path(o: DLX, f: Seq<StackFrame>, sel: Seq<usize>, k: int) -> bool {
    forall|i: int| 0 <= i < k ==> sel.contains(o.row@[(#[trigger] f[i]).current_row as int])
}

/// A row of `sel` comes later in the column of level `fr` than the row tried.
pub open spec fn has_later(o: DLX, fr: StackFrame, sel: Seq<usize>) -> bool {
    let l = fr.base@.lists@[fr.current_col as int];
    exists|q: int|
        l.index_of(fr.current_row) < q < l.len() && sel.contains(o.row@[#[trigger] l[q] as int])
}

/// The search has not yet passed cover `sel`: the stack is on its path, or
/// some level on its path has one of its rows still to try.
pub open spec fn ahead(o: DLX, f: Seq<StackFrame>, sel: Seq<usize>) -> bool {
    &&& f.len() > 0
    &&& (on_path(o, f, sel, f.len() as int) || exists|k: int|
        0 <= k < f.len() && on_path(o, f, sel, k) && #[trigger] has_later(o, f[k], sel))
}

/// A row as inserted holds column `c` exactly when one of its cells lies in `c`.
proof fn lemma_row_cells(o: DLX, r: int, c: int)
    requires
        o.inv(),
        0 <= r < o.rows,
        0 <= c < o.header,
    ensures
        o.rows_view()[r].contains(c as usize) <==> exists|z: int|
            o.is_cell(z) && o.row@[z] == r && #[trigger] o.column@[z] == c,
{
    let rv = o.rows_view()[r];
    let st = o.starts@[r];
    assert(o.starts@[0] <= st);
    assert(o.starts@[r + 1] <= o.starts@[o.rows as int]);
    if rv.contains(c as usize) {
        let i = choose|i: int| 0 <= i < rv.len() && rv[i] == c as usize;
        lemma_row_of_start_range(o, r, st + i);
        assert(rv[i] == o.column@[st + i]);
        assert(o.column@[st + i] == c);
    }
    if exists|z: int| o.is_cell(z) && o.row@[z] == r && #[trigger] o.column@[z] == c {
        let z = choose|z: int| o.is_cell(z) && o.row@[z] == r && #[trigger] o.column@[z] == c;
        assert(o.lo(z) <= z < o.hi(z));
        assert(rv[z - st] == o.column@[z]);
    }
}

/// On the path of a strict cover, the cells of its other rows are linked.
proof fn lemma_path_visible(it: DLXIterator, sel: Seq<usize>, z: int)
    requires
        it.inv(),
        it.stack@.len() > 0,
        is_strict_cover(it.origin@.rows_view(), it.origin@.primary(), sel),
        on_path(it.origin@, it.stack@, sel, it.stack@.len() as int),
        it.origin@.is_cell(z),
        sel.contains(it.origin@.row@[z]),
        forall|j: int|
            0 <= j < it.stack@.len() ==> it.origin@.row@[(#[trigger] it.stack@[j]).current_row as int]
                != it.origin@.row@[z],
    ensures
        it.core.visible(z),
{
    let o = it.origin@;
    let f = it.stack@;
    let n = f.len() - 1;
    let cov = top_cov(f);
    let rows = o.rows_view();
    assert(f[n].ok(o));
    lemma_frame_facts(f[n], o);
    assert(it.core.same_frame(o));
    assert(row_clear(it.core, z, cov)) by {
        assert forall|w: int| it.core.is_cell(w) && #[trigger] it.core.row@[w] == it.core.row@[z] implies !cov.contains(
            it.core.column@[w] as int) by {
            let cw = o.column@[w] as int;
            if cov.contains(cw) {
                lemma_cov_union(o, f, n, cw);
                let j = choose|j: int| 0 <= j <= n && (#[trigger] f[j]).row_cols().contains(cw);
                assert(f[j].ok(o));
                assert(o.col_shape(0) || true);
                assert(o.column@[w] < o.header);
                lemma_row_view(f[j], o, cw);
                let rj = o.row@[f[j].current_row as int] as int;
                let rz = o.row@[z] as int;
                assert(o.row@[z] < o.rows);
                lemma_row_cells(o, rz, cw);
                assert(rows[rz].contains(cw as usize));
                assert(rows[rj].contains(cw as usize));
                assert(sel.contains(rj as usize));
                let k1 = choose|k: int| 0 <= k < sel.len() && sel[k] == rj as usize;
                let k2 = choose|k: int| 0 <= k < sel.len() && sel[k] == rz as usize;
                assert(rj != rz);
                assert(rows[sel[k1] as int].contains(cw as usize));
                assert(rows[sel[k2] as int].contains(cw as usize));
            }
        }
    }
    reveal(closed);
    assert(it.core.visible(z));
}

/// On the path of a strict cover, every open primary column has a row, so
/// the search can go one level deeper; and the row of the cover through an
/// open column is linked there.
proof fn lemma_path_not_stuck(it: DLXIterator, sel: Seq<usize>, c: int)
    requires
        it.inv(),
        it.stack@.len() > 0,
        is_strict_cover(it.origin@.rows_view(), it.origin@.primary(), sel),
        on_path(it.origin@, it.stack@, sel, it.stack@.len() as int),
        0 <= c < it.core.required@,
        it.core.open@.contains(c as usize),
    ensures
        exists|z: int|
            #![trigger it.core.lists@[c].contains(z as usize)]
            it.origin@.is_cell(z) && it.origin@.column@[z] == c && sel.contains(it.origin@.row@[z])
                && it.core.lists@[c].contains(z as usize),
{
    let o = it.origin@;
    let f = it.stack@;
    let n = f.len() - 1;
    let cov = top_cov(f);
    let rows = o.rows_view();
    assert(f[n].ok(o));
    lemma_frame_facts(f[n], o);
    assert(it.core.same_frame(o));
    lemma_closed_open(it.core, cov, c);
    assert(covered_by(rows, sel, c));
    let k = choose|k: int| 0 <= k < sel.len() && #[trigger] rows[sel[k] as int].contains(c as usize);
    let rz = sel[k] as int;
    assert(rz < rows.len());
    lemma_row_cells(o, rz, c);
    let z = choose|z: int| o.is_cell(z) && o.row@[z] == rz && #[trigger] o.column@[z] == c;
    assert(sel.contains(o.row@[z]));
    assert forall|j: int| 0 <= j < f.len() implies o.row@[(#[trigger] f[j]).current_row as int] != o.row@[z] by {
        if o.row@[f[j].current_row as int] == o.row@[z] {
            assert(f[j].ok(o));
            lemma_row_view(f[j], o, c);
            assert(f[j].row_cols().contains(c));
            if j < n {
                lemma_cov_mono(o, f, j, n);
            }
            assert(cov.contains(c));
        }
    }
    lemma_path_visible(it, sel, z);
}

/// One move of the search that does not start from a complete cover keeps
/// any strict cover it has not passed still ahead of it.
#[verifier::rlimit(100)]
proof fn lemma_ahead_on_path(it0: DLXIterator, it1: DLXIterator, sel: Seq<usize>)
    requires
        it0.inv(),
        it1.inv(),
        it1.origin == it0.origin,
        is_strict_cover(it0.origin@.rows_view(), it0.origin@.primary(), sel),
        ahead(it0.origin@, it0.stack@, sel),
        it0.core.open@.len() > 0,
        moved(it0.stack@, it1.stack@, false),
        on_path(it0.origin@, it0.stack@, sel, it0.stack@.len() as int),
    ensures
        ahead(it0.origin@, it1.stack@, sel),
{
    let o = it0.origin@;
    let s0 = it0.stack@;
    let s1 = it1.stack@;
    let n = s0.len() as int;
    let m = it0.core;
    let e = s0.last().end();
    assert(m.same(e));
    assert(s0[n - 1].ok(o));
    lemma_frame_facts(s0[n - 1], o);
    // not stuck
    let oo = m.open@;
    lemma_min_upto(m, oo.len() as int);
    let i0 = choose|i: int| 0 <= i < oo.len() && min_upto(m, oo.len() as int) == #[trigger] m.size@[oo[i] as int];
    assert(m.open_shape());
    let c0 = oo[i0] as int;
    assert(c0 < m.required@);
    assert(oo.contains(c0 as usize));
    lemma_path_not_stuck(it0, sel, c0);
    assert(m.col_shape(c0));
    let z0 = choose|z: int|
        #![trigger m.lists@[c0].contains(z as usize)]
        o.is_cell(z) && o.column@[z] == c0 && sel.contains(o.row@[z]) && m.lists@[c0].contains(z as usize);
    assert(m.lists@[c0].len() > 0);
    lemma_min_upto_same(m, e, oo.len() as int);
    assert(!stuck(e));
    assert(s1 == s0.push(s1.last()) && deeper_of(s0.last(), s1.last()));
    let f2 = s1.last();
    let b2 = f2.base@;
    let c2 = f2.current_col as int;
    assert(b2.same(e));
    assert(b2.open@ == m.open@ && b2.lists@ == m.lists@);
    let j2 = choose|j: int|
        0 <= j < b2.open@.len() && b2.open@[j] == c2 && b2.size@[c2] == min_upto(b2, b2.open@.len() as int)
            && forall|i: int| 0 <= i < j ==> #[trigger] b2.size@[b2.open@[i] as int] != b2.size@[c2];
    assert(c2 < m.required@);
    assert(oo.contains(c2 as usize));
    lemma_path_not_stuck(it0, sel, c2);
    let z2 = choose|z: int|
        #![trigger m.lists@[c2].contains(z as usize)]
        o.is_cell(z) && o.column@[z] == c2 && sel.contains(o.row@[z]) && m.lists@[c2].contains(z as usize);
    let l2 = b2.lists@[c2];
    assert(m.col_shape(c2));
    assert(l2 == m.lists@[c2]);
    let q = l2.index_of(z2 as usize);
    assert(l2[q] == z2);
    lemma_index_of_unique(l2, 0);
    assert forall|i: int| 0 <= i < n implies #[trigger] s1[i] == s0[i] by {}
    if q == 0 {
        assert(on_path(o, s1, sel, s1.len() as int)) by {
            assert forall|i: int| 0 <= i < s1.len() implies sel.contains(o.row@[(#[trigger] s1[i]).current_row as int]) by {
                if i < n {
                    assert(s1[i] == s0[i]);
                }
            }
        }
    } else {
        assert(has_later(o, s1[n], sel)) by {
            assert(s1[n] == f2);
            assert(l2.index_of(f2.current_row) == 0);
        }
        assert(on_path(o, s1, sel, n)) by {
            assert forall|i: int| 0 <= i < n implies sel.contains(o.row@[(#[trigger] s1[i]).current_row as int]) by {
                assert(s1[i] == s0[i]);
            }
        }
    }
}

#[verifier::rlimit(100)]
proof fn lemma_ahead_off_path(it0: DLXIterator, it1: DLXIterator, sel: Seq<usize>)
    requires
        it0.inv(),
        it1.inv(),
        it1.origin == it0.origin,
        is_strict_cover(it0.origin@.rows_view(), it0.origin@.primary(), sel),
        ahead(it0.origin@, it0.stack@, sel),
        moved(it0.stack@, it1.stack@, false),
        !on_path(it0.origin@, it0.stack@, sel, it0.stack@.len() as int),
    ensures
        ahead(it0.origin@, it1.stack@, sel),
{
    let o = it0.origin@;
    let s0 = it0.stack@;
    let s1 = it1.stack@;
    let n = s0.len() as int;
    let m = it0.core;
    let e = s0.last().end();
    assert(m.same(e));
    assert(s0[n - 1].ok(o));
    lemma_frame_facts(s0[n - 1], o);
    let k = choose|k: int| 0 <= k < n && on_path(o, s0, sel, k) && #[trigger] has_later(o, s0[k], sel);
    let fk = s0[k];
    assert(fk.ok(o));
    lemma_frame_facts(fk, o);
    let lk = fk.base@.lists@[fk.current_col as int];
    let q = choose|q: int| lk.index_of(fk.current_row) < q < lk.len() && sel.contains(o.row@[#[trigger] lk[q] as int]);
    assert(!last_row(fk));
    if s1.len() == 0 {
        assert(last_row(s0[k]));
    } else if s1 == s0.push(s1.last()) && deeper_of(s0.last(), s1.last()) {
        assert(s1[k] == s0[k]);
        assert(on_path(o, s1, sel, k)) by {
            assert forall|i: int| 0 <= i < k implies sel.contains(o.row@[(#[trigger] s1[i]).current_row as int]) by {
                assert(s1[i] == s0[i]);
            }
        }
    } else {
        let j = choose|j: int|
            0 <= j < s0.len() && s1 == s0.take(j).push(s1.last()) && next_row_of(#[trigger] s0[j], s1.last())
                && (!false ==> stuck(s0.last().end())) && forall|i: int| j < i < s0.len() ==> last_row(#[trigger] s0[i]);
        if k > j {
            assert(last_row(s0[k]));
        }
        assert(on_path(o, s1, sel, k)) by {
            assert forall|i: int| 0 <= i < k implies sel.contains(o.row@[(#[trigger] s1[i]).current_row as int]) by {
                assert(s1[i] == s0[i]);
            }
        }
        if k < j {
            assert(s1[k] == s0[k]);
        } else {
            let f2 = s1.last();
            assert(s1[k] == f2);
            assert(f2.ok(o));
            lemma_frame_facts(f2, o);
            assert(f2.base == fk.base);
            assert(lk.contains(f2.current_row));
            let i2 = lk.index_of(f2.current_row);
            assert(lk[i2] == f2.current_row);
            assert(i2 == lk.index_of(fk.current_row) + 1);
            if q == i2 {
                assert(on_path(o, s1, sel, s1.len() as int)) by {
                    assert forall|i: int| 0 <= i < s1.len() implies sel.contains(o.row@[(#[trigger] s1[i]).current_row as int]) by {
                        if i < k {
                            assert(s1[i] == s0[i]);
                        }
                    }
                }
            } else {
                assert(has_later(o, s1[k], sel));
            }
        }
    }
}

proof fn lemma_ahead_step(it0: DLXIterator, it1: DLXIterator, sel: Seq<usize>)
    requires
        it0.inv(),
        it1.inv(),
        it1.origin == it0.origin,
        is_strict_cover(it0.origin@.rows_view(), it0.origin@.primary(), sel),
        ahead(it0.origin@, it0.stack@, sel),
        it0.core.open@.len() > 0,
        moved(it0.stack@, it1.stack@, false),
    ensures
        ahead(it0.origin@, it1.stack@, sel),
{
    if on_path(it0.origin@, it0.stack@, sel, it0.stack@.len() as int) {
        lemma_ahead_on_path(it0, it1, sel);
    } else {
        lemma_ahead_off_path(it0, it1, sel);
    }
}

/// A cell of a row of `sel` lies in column `c` and is linked there.
pub open spec fn cover_cell_linked(m: DLX, sel: Seq<usize>, c: int) -> bool {
    exists|z: int|
        #![trigger m.lists@[c].contains(z as usize)]
        m.is_cell(z) && m.column@[z] == c && sel.contains(m.row@[z]) && m.lists@[c].contains(z as usize)
}

/// A search that has just begun, on no complete cover, has not passed any
/// strict cover.
proof fn lemma_start_ahead(it: DLXIterator, sel: Seq<usize>)
    requires
        it.ready(),
        DLXIterator::is_start(it, it.origin@),
        is_strict_cover(it.origin@.rows_view(), it.origin@.primary(), sel),
        !it.pending || it.stack@.len() > 0,
    ensures
        ahead(it.origin@, it.stack@, sel),
        !it.pending ==> it.core.open@.len() > 0,
{
    let o = it.origin@;
    let rows = o.rows_view();
    let req = o.required@ as int;
    if req == 0 {
        assert(it.stack@.len() == 0);
        assert(it.core.same(o));
        assert(o.open@.len() == 0);
    }
    assert(o.open@.len() == req);
    assert forall|c: int| 0 <= c < req implies #[trigger] cover_cell_linked(o, sel, c) by {
        assert(covered_by(rows, sel, c));
        let k = choose|k: int| 0 <= k < sel.len() && #[trigger] rows[sel[k] as int].contains(c as usize);
        let rz = sel[k] as int;
        lemma_row_cells(o, rz, c);
        let z = choose|z: int| o.is_cell(z) && o.row@[z] == rz && #[trigger] o.column@[z] == c;
        assert(sel.contains(o.row@[z]));
        assert(o.lists@[o.column@[z] as int].contains(z as usize));
    }
    lemma_min_upto(o, req);
    let i0 = choose|i: int| 0 <= i < req && min_upto(o, req) == #[trigger] o.size@[o.open@[i] as int];
    assert(o.open@[i0] == i0);
    assert(o.col_shape(i0));
    assert(cover_cell_linked(o, sel, i0));
    let z0 = choose|z: int|
        #![trigger o.lists@[i0].contains(z as usize)]
        o.is_cell(z) && o.column@[z] == i0 && sel.contains(o.row@[z]) && o.lists@[i0].contains(z as usize);
    assert(o.lists@[i0].len() > 0);
    assert(it.stack@.len() == 1);
    let f = it.stack@[0];
    let c = f.current_col as int;
    assert(f.base@.same(o));
    assert(cover_cell_linked(o, sel, c));
    let z = choose|z: int|
        #![trigger o.lists@[c].contains(z as usize)]
        o.is_cell(z) && o.column@[z] == c && sel.contains(o.row@[z]) && o.lists@[c].contains(z as usize);
    let l = o.lists@[c];
    assert(o.col_shape(c));
    let q = l.index_of(z as usize);
    assert(l[q] == z);
    lemma_index_of_unique(l, 0);
    assert(f.base@.lists@[c] == l);
    if q == 0 {
        assert(on_path(o, it.stack@, sel, 1)) by {
            assert forall|i: int| 0 <= i < 1 implies sel.contains(o.row@[(#[trigger] it.stack@[i]).current_row as int]) by {
                assert(it.stack@[i] == f);
            }
        }
    } else {
        assert(has_later(o, it.stack@[0], sel));
        assert(on_path(o, it.stack@, sel, 0));
    }
}

/// A strict cover each of whose rows holds a primary column: the covers the
/// search enumerates.
pub open spec fn is_good_cover(o: DLX, sel: Seq<usize>) -> bool {
    &&& is_strict_cover(o.rows_view(), o.primary(), sel)
    &&& forall|k: int| 0 <= k < sel.len() ==> #[trigger] has_primary(o, sel[k] as int)
}

/// Row `r`, as inserted, holds a primary column.
pub open spec fn has_primary(o: DLX, r: int) -> bool {
    exists|c: int| 0 <= c < o.primary() && #[trigger] o.rows_view()[r].contains(c as usize)
}

impl DLXIterator {
    /// Cover `sel` was handed out, as a set of rows.
    pub open spec fn was_handed(&self, sel: Seq<usize>) -> bool {
        exists|k: int| 0 <= k < self.handed@.len() && #[trigger] self.handed@[k].to_set() == sel.to_set()
    }

    /// Cover `sel` is still to come: the search is waiting on it, or has
    /// not passed it (other than the complete cover it stands on, already
    /// handed out).
    pub open spec fn alive(&self, sel: Seq<usize>) -> bool {
        ||| (self.pending && self.selected_rows@.to_set() == sel.to_set())
        ||| (ahead(self.origin@, self.stack@, sel) && !(self.core.open@.len() == 0 && !self.pending
            && self.selected_rows@.to_set() == sel.to_set()))
    }

    /// Every cover the search enumerates is handed out or still to come.
    pub open spec fn tracks(&self) -> bool {
        forall|sel: Seq<usize>| #[trigger] is_good_cover(self.origin@, sel) ==> self.was_handed(sel) || self.alive(sel)
    }
}

/// Handing out the pending cover keeps every enumerated cover handed out or
/// still to come.
proof fn lemma_handed_push(a: DLXIterator, b: DLXIterator)
    requires
        a.pending,
        !b.pending,
        b.core == a.core,
        b.stack == a.stack,
        b.selected_rows == a.selected_rows,
        b.origin == a.origin,
        b.handed@ == a.handed@.push(a.selected_rows@),
    ensures
        a.tracks() ==> b.tracks(),
{
    if a.tracks() {
        assert forall|sel: Seq<usize>| #[trigger] is_good_cover(b.origin@, sel) implies b.was_handed(sel) || b.alive(sel) by {
            if a.was_handed(sel) {
                let k = choose|k: int| 0 <= k < a.handed@.len() && #[trigger] a.handed@[k].to_set() == sel.to_set();
                assert(b.handed@[k] == a.handed@[k]);
            } else if a.selected_rows@.to_set() == sel.to_set() {
                let k = a.handed@.len() as int;
                assert(b.handed@[k] == a.selected_rows@);
            } else {
                assert(a.alive(sel));
                assert(ahead(b.origin@, b.stack@, sel));
            }
        }
    }
}

/// On a complete cover, a good cover whose rows include every row tried is
/// the selection itself, as a set of rows.
proof fn lemma_solution_path(it: DLXIterator, sel: Seq<usize>)
    requires
        it.inv(),
        it.core.open@.len() == 0,
        it.stack@.len() > 0,
        is_good_cover(it.origin@, sel),
        on_path(it.origin@, it.stack@, sel, it.stack@.len() as int),
    ensures
        it.selected_rows@.to_set() == sel.to_set(),
{
    let o = it.origin@;
    let f = it.stack@;
    let n = f.len() - 1;
    let rows = o.rows_view();
    let sr = it.selected_rows@;
    assert(f[n].ok(o));
    lemma_frame_facts(f[n], o);
    assert(it.core.same_frame(o));
    assert forall|r: usize| sr.to_set().contains(r) implies sel.to_set().contains(r) by {
        let j = choose|j: int| 0 <= j < sr.len() && sr[j] == r;
        assert(sel.contains(o.row@[f[j].current_row as int]));
    }
    assert forall|r: usize| sel.to_set().contains(r) implies sr.to_set().contains(r) by {
        let k = choose|k: int| 0 <= k < sel.len() && sel[k] == r;
        assert(has_primary(o, sel[k] as int));
        let c = choose|c: int| 0 <= c < o.primary() && #[trigger] rows[sel[k] as int].contains(c as usize);
        lemma_closed_open(it.core, top_cov(f), c);
        assert(!it.core.open@.contains(c as usize));
        lemma_cov_union(o, f, n, c);
        let j = choose|j: int| 0 <= j <= n && (#[trigger] f[j]).row_cols().contains(c);
        assert(f[j].ok(o));
        lemma_row_view(f[j], o, c);
        let rj = o.row@[f[j].current_row as int];
        assert(rows[rj as int].contains(c as usize));
        assert(sel.contains(rj));
        let k2 = choose|k2: int| 0 <= k2 < sel.len() && sel[k2] == rj;
        if rj != r {
            assert(rows[sel[k2] as int].contains(c as usize));
            assert(k != k2);
        }
        assert(sr[j] == rj);
    }
    assert(sr.to_set() =~= sel.to_set());
}

} // verus!
