use rl2025::matrix::DLX;
use rl2025::search::DLXIterator;

fn build(required: usize, auxiliary: usize, rows: &[&[usize]]) -> DLX {
    let mut m = DLX::init_aux(required, auxiliary);
    for r in rows {
        assert!(m.append_row(r));
    }
    m
}

fn all_solutions(m: DLX) -> Vec<Vec<usize>> {
    let mut it = m.into_iter();
    let mut out = vec![];
    while let Some(s) = it.next() {
        out.push(s);
    }
    out
}

fn all_sorted(sols: &[Vec<usize>]) -> Vec<Vec<usize>> {
    let mut out: Vec<Vec<usize>> = vec![];
    for s in sols {
        let mut t = s.clone();
        t.sort();
        out.push(t);
    }
    out.sort();
    out
}

fn is_exact_cover(rows: &[&[usize]], primary: usize, sol: &[usize]) -> bool {
    for c in 0..primary {
        let n = sol.iter().filter(|&&r| rows[r].contains(&c)).count();
        if n != 1 {
            return false;
        }
    }
    true
}

fn walk_len(m: &DLX, c: usize) -> usize {
    let mut n = 0;
    let mut i = m.down[c];
    while i != c {
        n += 1;
        i = m.down[i];
    }
    n
}

const EXAMPLE: [&[usize]; 4] = [&[0, 1], &[2], &[0], &[1, 2]];

#[test]
fn example_yields_both_covers_and_stops() {
    let sols = all_solutions(build(3, 0, &EXAMPLE));
    assert!(!sols.is_empty());
    for s in &sols {
        assert!(is_exact_cover(&EXAMPLE, 3, s));
    }
    assert_eq!(all_sorted(&sols), vec![vec![0, 1], vec![2, 3]]);
}

#[test]
fn auxiliary_column_row_may_stand_in() {
    let rows: [&[usize]; 5] = [&[0, 1], &[2], &[0], &[1, 2], &[0, 1, 3]];
    let m = build(3, 1, &rows);
    let mut it = m.into_iter();
    let mut sols = vec![];
    while let Some(s) = it.next() {
        assert!(is_exact_cover(&rows, 3, &s));
        sols.push(s);
    }
    assert_eq!(all_sorted(&sols), vec![vec![0, 1], vec![1, 4], vec![2, 3]]);
    assert_eq!(it.current(), None);
}

#[test]
fn four_columns_two_disjoint_covers() {
    let rows: [&[usize]; 4] = [&[0, 1], &[2, 3], &[0, 2], &[1, 3]];
    let sols = all_solutions(build(4, 0, &rows));
    for s in &sols {
        assert!(is_exact_cover(&rows, 4, s));
    }
    assert_eq!(all_sorted(&sols), vec![vec![0, 1], vec![2, 3]]);
}

#[test]
fn no_cover_means_no_solution() {
    let rows: [&[usize]; 2] = [&[0, 1], &[1, 2]];
    assert_eq!(all_solutions(build(3, 0, &rows)), Vec::<Vec<usize>>::new());
}

#[test]
fn no_primary_column_gives_the_empty_cover_once() {
    let mut it = DLX::init(0).into_iter();
    assert_eq!(it.next(), Some(vec![]));
    assert_eq!(it.next(), None);
    assert_eq!(it.next(), None);
    let mut m = DLX::init_aux(0, 2);
    assert!(m.append_row(&[0, 1]));
    assert_eq!(all_solutions(m), vec![Vec::<usize>::new()]);
    assert_eq!(DLX::init(0).search(), Some(vec![]));
}

#[test]
fn cover_complete_after_start_is_reported() {
    let rows: [&[usize]; 1] = [&[0]];
    assert_eq!(all_solutions(build(1, 0, &rows)), vec![vec![0]]);
    assert_eq!(build(1, 0, &rows).search(), Some(vec![0]));
}

#[test]
fn five_row_example_each_cover_once() {
    let rows: [&[usize]; 5] = [&[0, 1], &[2, 3], &[0, 2], &[1, 3], &[0, 1, 2]];
    let sols = all_solutions(build(4, 0, &rows));
    assert_eq!(all_sorted(&sols), vec![vec![0, 1], vec![2, 3]]);
}

#[test]
fn search_returns_first_cover() {
    let s = build(3, 0, &EXAMPLE).search().unwrap();
    assert!(is_exact_cover(&EXAMPLE, 3, &s));
    let rows: [&[usize]; 1] = [&[0]];
    assert_eq!(build(2, 0, &rows).search(), None);
}

#[test]
fn single_row_cover() {
    let rows: [&[usize]; 1] = [&[0, 1, 2]];
    assert_eq!(all_solutions(build(3, 0, &rows)), vec![vec![0]]);
}

#[test]
fn append_row_checks_columns() {
    let mut m = DLX::init_aux(2, 1);
    assert!(!m.append_row(&[0, 3]));
    assert!(!m.append_row(&[1, 1, 9]));
    assert_eq!(m.rows, 0);
    assert_eq!(m.column.len(), 4);
    assert!(m.append_row(&[2, 0]));
    assert!(m.append_row(&[]));
    assert!(m.append_row(&[1, 1, 0, 1]));
    assert_eq!(m.rows, 3);
    assert_eq!(m.export(), vec![vec![2, 0], vec![], vec![1, 0]]);
    assert_eq!(m.size, vec![2, 1, 1, 0]);
    assert_eq!(m.column.len(), 8);
}

#[test]
fn repeated_column_counts_once() {
    let rows: [&[usize]; 2] = [&[0, 0, 1], &[1]];
    let mut m = DLX::init(2);
    for r in rows {
        assert!(m.append_row(r));
    }
    assert_eq!(m.export(), vec![vec![0, 1], vec![1]]);
    assert_eq!(all_solutions(m), vec![vec![0]]);
}

#[test]
fn open_columns_lists_links() {
    let m = build(3, 0, &EXAMPLE);
    let cols = m.open_columns();
    assert_eq!(cols.len(), 3);
    assert_eq!(cols[0], (0, 2, vec![4, 7]));
    assert_eq!(cols[1], (1, 2, vec![5, 8]));
    assert_eq!(cols[2], (2, 2, vec![6, 9]));
    let mut it = m.into_iter();
    it.next_forward();
    let open = it.core.open_columns();
    assert!(open.iter().all(|(c, _, _)| *c != 0));
}

#[test]
fn dense_rows() {
    let mut m = DLX::init(3);
    assert!(!m.append_dense_row(&[1, 0]));
    assert!(m.append_dense_row(&[1, 0, 1]));
    assert!(m.append_dense_row(&[0, 2, 0]));
    assert_eq!(m.export(), vec![vec![0, 2], vec![1]]);
    assert_eq!(all_sorted(&all_solutions(m)), vec![vec![0, 1]]);
}

#[test]
fn fresh_matrix_links() {
    let m = DLX::init_aux(2, 1);
    assert_eq!(m.header, 3);
    assert_eq!(m.right, vec![1, 3, 2, 0]);
    assert_eq!(m.left, vec![3, 0, 2, 1]);
    assert_eq!(m.up, vec![0, 1, 2, 3]);
    assert_eq!(m.down, vec![0, 1, 2, 3]);
    assert_eq!(m.size, vec![0, 0, 0, 0]);
    assert_eq!(m.row, vec![3, 3, 3, 3]);
    assert_eq!(m.export(), Vec::<Vec<usize>>::new());
}

#[test]
fn cover_then_uncover_restores_every_column() {
    let m = build(3, 0, &EXAMPLE);
    let mut it = DLXIterator::init(m);
    assert!(it.check());
    loop {
        assert!(it.check());
        let h = it.core.header;
        let mut c = it.core.right[h];
        while c != h {
            assert!(it.cuci(c));
            c = it.core.right[c];
        }
        if it.next_forward().is_none() {
            break;
        }
    }
}

#[test]
fn sizes_match_column_walks_during_search() {
    let rows: [&[usize]; 5] = [&[0, 1], &[2], &[0], &[1, 2], &[0, 1, 3]];
    let mut it = build(3, 1, &rows).into_iter();
    let mut steps = 0;
    loop {
        for c in 0..it.core.header {
            assert_eq!(it.core.size[c], walk_len(&it.core, c));
        }
        steps += 1;
        if it.next_forward().is_none() || steps > 1000 {
            break;
        }
    }
    assert!(steps < 1000);
}

#[test]
fn search_restores_the_matrix_when_done() {
    let m = build(3, 0, &EXAMPLE);
    let (l, r, u, d, s) = (m.left.clone(), m.right.clone(), m.up.clone(), m.down.clone(), m.size.clone());
    let mut it = m.into_iter();
    while it.next().is_some() {}
    assert_eq!(it.core.left, l);
    assert_eq!(it.core.right, r);
    assert_eq!(it.core.up, u);
    assert_eq!(it.core.down, d);
    assert_eq!(it.core.size, s);
}

#[test]
fn backtracking_skips_the_current_row() {
    let mut it = build(3, 0, &EXAMPLE).into_iter();
    assert_eq!(it.current(), Some(&[0usize][..]));
    let after = it.next_backtrack().unwrap().to_vec();
    assert_eq!(after, vec![2]);
    assert_eq!(it.current(), Some(&[2usize][..]));
}

#[test]
fn shared_secondary_column_blocks_the_pair() {
    // Rows {A, D} and {B, D} cover the primary columns A and B only by using
    // the secondary column D twice, which the search never does.
    let rows: [&[usize]; 2] = [&[0, 2], &[1, 2]];
    assert_eq!(all_solutions(build(2, 1, &rows)), Vec::<Vec<usize>>::new());
    assert_eq!(build(2, 1, &rows).search(), None);
}

#[test]
fn search_finds_a_cover_deep_in_the_tree() {
    let rows: [&[usize]; 6] = [&[0], &[0, 1], &[1, 2], &[2, 3], &[3], &[1]];
    let s = build(4, 0, &rows).search().unwrap();
    assert!(is_exact_cover(&rows, 4, &s));
    let sols = all_solutions(build(4, 0, &rows));
    assert_eq!(all_sorted(&sols), vec![vec![0, 2, 4], vec![0, 3, 5], vec![1, 3]]);
}
