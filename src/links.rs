//! The link arrays of a dancing-links matrix as mathematical sequences, the
//! elementary unlink and relink operations on them, and the facts that make
//! every unlink undoable.
use vstd::prelude::*;

verus! {

/// The mutable part of the matrix, as mathematical sequences.
pub struct Links {
    pub left: Seq<usize>,
    pub right: Seq<usize>,
    pub up: Seq<usize>,
    pub down: Seq<usize>,
    pub size: Seq<int>,
}

/// Item `j` is consistently linked into its vertical list.
pub open spec fn linked(l: Links, j: usize) -> bool {
    &&& 0 <= j < l.up.len()
    &&& 0 <= j < l.down.len()
    &&& 0 <= l.up[j as int] < l.down.len()
    &&& 0 <= l.down[j as int] < l.up.len()
    &&& l.up[l.down[j as int] as int] == j
    &&& l.down[l.up[j as int] as int] == j
}

/// Unlinks cell `j` from its vertical list (`col` is its column).
pub open spec fn rem(l: Links, j: usize, col: usize) -> Links {
    let a = l.up[j as int];
    let b = l.down[j as int];
    Links {
        up: l.up.update(b as int, a),
        down: l.down.update(a as int, b),
        size: l.size.update(col as int, l.size[col as int] - 1),
        ..l
    }
}

/// Links cell `j` back between its remembered neighbours.
pub open spec fn ins(l: Links, j: usize, col: usize) -> Links {
    let a = l.up[j as int];
    let b = l.down[j as int];
    Links {
        up: l.up.update(b as int, j),
        down: l.down.update(a as int, j),
        size: l.size.update(col as int, l.size[col as int] + 1),
        ..l
    }
}

/// Unlinks column header `c` from the horizontal list of open columns.
pub open spec fn unlink_col(l: Links, c: usize) -> Links {
    let a = l.left[c as int];
    let b = l.right[c as int];
    Links { left: l.left.update(b as int, a), right: l.right.update(a as int, b), ..l }
}

/// Links column header `c` back between its remembered neighbours.
pub open spec fn relink_col(l: Links, c: usize) -> Links {
    let a = l.left[c as int];
    let b = l.right[c as int];
    Links { left: l.left.update(b as int, c), right: l.right.update(a as int, c), ..l }
}

/// Unlinks the cells `js` in order (`col` maps each cell to its column).
pub open spec fn unlink_all(l: Links, js: Seq<usize>, col: Seq<usize>) -> Links
    decreases js.len(),
{
    if js.len() == 0 {
        l
    } else {
        let j = js.last();
        rem(unlink_all(l, js.drop_last(), col), j, col[j as int])
    }
}

/// Relinking a cell right after unlinking it restores every link.
pub proof fn lemma_ins_rem(l: Links, j: usize, c: usize)
    requires
        linked(l, j),
        0 <= c < l.size.len(),
    ensures
        ins(rem(l, j, c), j, c) == l,
{
    let r = rem(l, j, c);
    let a = l.up[j as int];
    let b = l.down[j as int];
    assert(r.up[j as int] == a);
    assert(r.down[j as int] == b);
    let back = ins(r, j, c);
    assert(back.up =~= l.up);
    assert(back.down =~= l.down);
    assert(back.size =~= l.size);
}

/// Unlinking one cell leaves every other linked item linked.
pub proof fn lemma_rem_keeps_linked(l: Links, j: usize, c: usize, x: usize)
    requires
        linked(l, j),
        linked(l, x),
        x != j,
    ensures
        linked(rem(l, j, c), x),
{
}

/// Unlinking distinct linked cells leaves every other linked item linked.
pub proof fn lemma_unlink_all_keeps_linked(l: Links, js: Seq<usize>, col: Seq<usize>, x: usize)
    requires
        js.no_duplicates(),
        forall|k: int| 0 <= k < js.len() ==> linked(l, #[trigger] js[k]),
        linked(l, x),
        !js.contains(x),
    ensures
        linked(unlink_all(l, js, col), x),
    decreases js.len(),
{
    if js.len() > 0 {
        let init = js.drop_last();
        let j = js.last();
        assert(init.no_duplicates());
        assert forall|k: int| 0 <= k < init.len() implies linked(l, #[trigger] init[k]) by {
            assert(init[k] == js[k]);
        }
        lemma_unlink_all_keeps_linked(l, init, col, x);
        assert(!init.contains(j)) by {
            if init.contains(j) {
                let k = choose|k: int| 0 <= k < init.len() && init[k] == j;
                assert(js[k] == js[js.len() - 1]);
            }
        }
        assert(linked(l, js[js.len() - 1]));
        lemma_unlink_all_keeps_linked(l, init, col, j);
        assert(js.contains(j));
        lemma_rem_keeps_linked(unlink_all(l, init, col), j, col[j as int], x);
    }
}

/// Unlinking cells leaves the horizontal links and the array lengths alone,
/// and never raises a size.
pub proof fn lemma_unlink_all_frame(l: Links, js: Seq<usize>, col: Seq<usize>)
    requires
        forall|k: int| 0 <= k < js.len() ==> 0 <= #[trigger] js[k] < col.len(),
        forall|j: int| 0 <= j < col.len() ==> #[trigger] col[j] < l.size.len(),
    ensures
        unlink_all(l, js, col).left == l.left,
        unlink_all(l, js, col).right == l.right,
        unlink_all(l, js, col).size.len() == l.size.len(),
        forall|c: int| 0 <= c < l.size.len() ==> #[trigger] unlink_all(l, js, col).size[c] <= l.size[c],
    decreases js.len(),
{
    if js.len() > 0 {
        let init = js.drop_last();
        assert forall|k: int| 0 <= k < init.len() implies 0 <= #[trigger] init[k] < col.len() by {
            assert(init[k] == js[k]);
        }
        lemma_unlink_all_frame(l, init, col);
        assert(col[js.last() as int] < l.size.len());
    }
}

/// Every vertical link points below `n`.
pub open spec fn bounded(l: Links, n: int) -> bool {
    &&& l.up.len() == n
    &&& l.down.len() == n
    &&& forall|x: int| 0 <= x < n ==> #[trigger] l.up[x] < n
    &&& forall|x: int| 0 <= x < n ==> #[trigger] l.down[x] < n
}

/// Unlinking cells below `n` keeps every vertical link below `n`.
pub proof fn lemma_unlink_all_bounded(l: Links, js: Seq<usize>, col: Seq<usize>, n: int)
    requires
        bounded(l, n),
        forall|k: int| 0 <= k < js.len() ==> #[trigger] js[k] < n,
    ensures
        bounded(unlink_all(l, js, col), n),
    decreases js.len(),
{
    if js.len() > 0 {
        let init = js.drop_last();
        assert forall|k: int| 0 <= k < init.len() implies #[trigger] init[k] < n by {
            assert(init[k] == js[k]);
        }
        lemma_unlink_all_bounded(l, init, col, n);
        assert(js[js.len() - 1] < n);
    }
}

/// Relinking a column header right after unlinking it restores every link.
pub proof fn lemma_relink_unlink(l: Links, c: usize)
    requires
        0 <= c < l.left.len(),
        l.left.len() == l.right.len(),
        0 <= l.left[c as int] < l.left.len(),
        0 <= l.right[c as int] < l.left.len(),
        l.left[l.right[c as int] as int] == c,
        l.right[l.left[c as int] as int] == c,
    ensures
        relink_col(unlink_col(l, c), c) == l,
{
    let u = unlink_col(l, c);
    assert(u.left[c as int] == l.left[c as int]);
    assert(u.right[c as int] == l.right[c as int]);
    let back = relink_col(u, c);
    assert(back.left =~= l.left);
    assert(back.right =~= l.right);
}

} // verus!
