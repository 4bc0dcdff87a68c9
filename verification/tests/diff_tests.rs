use docx_edit::diff::{diff_lcs, DiffOp};

fn lines(v: &[&str]) -> Vec<Vec<char>> {
    v.iter().map(|s| s.chars().collect()).collect()
}

fn kept(ops: &[DiffOp]) -> Vec<usize> {
    ops.iter()
        .filter_map(|op| match op {
            DiffOp::Keep(j) => Some(*j),
            DiffOp::Delete => None,
        })
        .collect()
}

#[test]
fn equal_sides_keep_every_line() {
    let a = lines(&["one", "two", "two", "three"]);
    let ops = diff_lcs(&a, &a);
    assert_eq!(kept(&ops), vec![0, 1, 2, 3]);
}

#[test]
fn kept_lines_are_distinct() {
    let old = lines(&["alpha", "beta", "gamma", "delta"]);
    let new = lines(&["alpha", "betta", "delta", "epsilon"]);
    let ops = diff_lcs(&old, &new);
    assert_eq!(ops.len(), 4);
    let mut k = kept(&ops);
    let n = k.len();
    k.sort();
    k.dedup();
    assert_eq!(k.len(), n);
    assert!(k.iter().all(|j| *j < new.len()));
    assert!(matches!(ops[0], DiffOp::Keep(0)));
    assert!(matches!(ops[1], DiffOp::Keep(1)));
    assert!(matches!(ops[3], DiffOp::Keep(2)));
}
