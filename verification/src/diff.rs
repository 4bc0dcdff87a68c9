//! Line diff between the rendered buffer and the edited one.
//!
//! A longest common subsequence keeps the lines both sides share; a line
//! of the old side that it drops is then paired with a nearby unmatched
//! new line when the two are close enough in position and text, so that
//! editing a line in place keeps its paragraph.

use vstd::prelude::*;

verus! {

/// What becomes of one old line.
#[derive(PartialEq, Eq, Structural, Clone, Copy, Debug)]
pub enum DiffOp {
    /// The line stays, as the new line with this index.
    Keep(usize),
    /// The line is gone.
    Delete,
}

/// The lines as character sequences.
pub open spec fn lines_view(v: Seq<Vec<char>>) -> Seq<Seq<char>> {
    v.map_values(|l: Vec<char>| l@)
}

/// Length of a longest common subsequence of `a[..i]` and `b[..j]`.
pub open spec fn lcs(a: Seq<Seq<char>>, b: Seq<Seq<char>>, i: nat, j: nat) -> nat
    decreases i + j,
{
    if i == 0 || j == 0 {
        0
    } else if a[i - 1] == b[j - 1] {
        lcs(a, b, (i - 1) as nat, (j - 1) as nat) + 1
    } else {
        let x = lcs(a, b, (i - 1) as nat, j);
        let y = lcs(a, b, i, (j - 1) as nat);
        if x >= y { x } else { y }
    }
}

/// A longest common subsequence is no longer than either side.
pub proof fn lemma_lcs_bound(a: Seq<Seq<char>>, b: Seq<Seq<char>>, i: nat, j: nat)
    ensures
        lcs(a, b, i, j) <= i,
        lcs(a, b, i, j) <= j,
    decreases i + j,
{
    if i > 0 && j > 0 {
        lemma_lcs_bound(a, b, (i - 1) as nat, (j - 1) as nat);
        lemma_lcs_bound(a, b, (i - 1) as nat, j);
        lemma_lcs_bound(a, b, i, (j - 1) as nat);
    }
}

/// The fate of the lines `a[..i]`, read back from the table of `lcs`
/// starting at `(i, j)`: equal last lines are kept, otherwise the old line
/// is dropped when that loses nothing, else the new line is skipped.
pub open spec fn backtrack(a: Seq<Seq<char>>, b: Seq<Seq<char>>, i: nat, j: nat) -> Seq<DiffOp>
    decreases i + j,
{
    if i == 0 {
        Seq::empty()
    } else if j == 0 {
        backtrack(a, b, (i - 1) as nat, 0).push(DiffOp::Delete)
    } else if a[i - 1] == b[j - 1] {
        backtrack(a, b, (i - 1) as nat, (j - 1) as nat).push(DiffOp::Keep((j - 1) as usize))
    } else if lcs(a, b, (i - 1) as nat, j) >= lcs(a, b, i, (j - 1) as nat) {
        backtrack(a, b, (i - 1) as nat, j).push(DiffOp::Delete)
    } else {
        backtrack(a, b, i, (j - 1) as nat)
    }
}

/// The two lines hold the same characters.
pub fn lines_eq(a: &Vec<char>, b: &Vec<char>) -> (r: bool)
    ensures
        r == (a@ == b@),
{
    if a.len() != b.len() {
        return false;
    }
    let mut i: usize = 0;
    while i < a.len()
        invariant
            a@.len() == b@.len(),
            i <= a@.len(),
            forall|k: int| 0 <= k < i ==> a@[k] == b@[k],
        decreases a@.len() - i,
    {
        if a[i] != b[i] {
            assert(a@[i as int] != b@[i as int]);
            return false;
        }
        i += 1;
    }
    assert(a@ =~= b@);
    true
}

/// The table of `lcs` for all prefixes: row `i` holds `lcs(a, b, i, j)`
/// for `j` in `0..=b.len()`.
fn lcs_table(a: &Vec<Vec<char>>, b: &Vec<Vec<char>>) -> (dp: Vec<Vec<u32>>)
    requires
        a@.len() < u32::MAX || b@.len() < u32::MAX,
    ensures
        dp@.len() == a@.len() + 1,
        forall|i: int| 0 <= i <= a@.len() ==> (#[trigger] dp@[i])@.len() == b@.len() + 1,
        forall|i: int, j: int|
            0 <= i <= a@.len() && 0 <= j <= b@.len() ==> #[trigger] dp@[i]@[j] == lcs(
                lines_view(a@),
                lines_view(b@),
                i as nat,
                j as nat,
            ),
{
    let ghost av = lines_view(a@);
    let ghost bv = lines_view(b@);
    let m = a.len();
    let n = b.len();
    let mut dp: Vec<Vec<u32>> = Vec::new();
    let mut row0: Vec<u32> = Vec::new();
    row0.push(0);
    let mut j: usize = 0;
    while j < n
        invariant
            n == b@.len(),
            j <= n,
            row0@.len() == j + 1,
            forall|k: int| 0 <= k <= j ==> row0@[k] == 0,
        decreases n - j,
    {
        row0.push(0);
        j += 1;
    }
    dp.push(row0);
    let mut i: usize = 0;
    while i < m
        invariant
            av == lines_view(a@),
            bv == lines_view(b@),
            m == a@.len(),
            n == b@.len(),
            m < u32::MAX || n < u32::MAX,
            i <= m,
            dp@.len() == i + 1,
            forall|r: int| 0 <= r <= i ==> (#[trigger] dp@[r])@.len() == n + 1,
            forall|r: int, c: int|
                0 <= r <= i && 0 <= c <= n ==> #[trigger] dp@[r]@[c] == lcs(av, bv, r as nat, c as nat),
        decreases m - i,
    {
        let mut cur: Vec<u32> = Vec::new();
        cur.push(0);
        let mut j: usize = 0;
        while j < n
            invariant
                av == lines_view(a@),
                bv == lines_view(b@),
                m == a@.len(),
                n == b@.len(),
                m < u32::MAX || n < u32::MAX,
                i < m,
                dp@.len() == i + 1,
                forall|r: int| 0 <= r <= i ==> (#[trigger] dp@[r])@.len() == n + 1,
                forall|r: int, c: int|
                    0 <= r <= i && 0 <= c <= n ==> #[trigger] dp@[r]@[c] == lcs(av, bv, r as nat, c as nat),
                j <= n,
                cur@.len() == j + 1,
                forall|c: int| 0 <= c <= j ==> cur@[c] == lcs(av, bv, (i + 1) as nat, c as nat),
            decreases n - j,
        {
            let prev = &dp[i];
            assert(av[i as int] == a@[i as int]@);
            assert(bv[j as int] == b@[j as int]@);
            let v: u32 = if lines_eq(&a[i], &b[j]) {
                proof { lemma_lcs_bound(av, bv, i as nat, j as nat); }
                prev[j] + 1
            } else {
                let x = prev[j + 1];
                let y = cur[j];
                if x >= y { x } else { y }
            };
            cur.push(v);
            j += 1;
        }
        dp.push(cur);
        i += 1;
    }
    dp
}

/// The ops of the longest common subsequence: for every old line whether
/// it is kept (and as which new line) or dropped.
pub fn lcs_ops(a: &Vec<Vec<char>>, b: &Vec<Vec<char>>) -> (ops: Vec<DiffOp>)
    requires
        a@.len() < u32::MAX || b@.len() < u32::MAX,
    ensures
        ops@ == backtrack(lines_view(a@), lines_view(b@), a@.len() as nat, b@.len() as nat),
{
    let ghost av = lines_view(a@);
    let ghost bv = lines_view(b@);
    let dp = lcs_table(a, b);
    let mut tmp: Vec<DiffOp> = Vec::new();
    let mut i = a.len();
    let mut j = b.len();
    while i > 0
        invariant
            av == lines_view(a@),
            bv == lines_view(b@),
            dp@.len() == a@.len() + 1,
            forall|r: int| 0 <= r <= a@.len() ==> (#[trigger] dp@[r])@.len() == b@.len() + 1,
            forall|r: int, c: int|
                0 <= r <= a@.len() && 0 <= c <= b@.len() ==> #[trigger] dp@[r]@[c] == lcs(
                    av,
                    bv,
                    r as nat,
                    c as nat,
                ),
            i <= a@.len(),
            j <= b@.len(),
            backtrack(av, bv, a@.len() as nat, b@.len() as nat) == backtrack(av, bv, i as nat, j as nat)
                + tmp@.reverse(),
        decreases i + j,
    {
        let ghost t0 = tmp@;
        if j == 0 {
            tmp.push(DiffOp::Delete);
            i -= 1;
        } else {
            assert(av[i - 1] == a@[i - 1]@);
            assert(bv[j - 1] == b@[j - 1]@);
            if lines_eq(&a[i - 1], &b[j - 1]) {
                tmp.push(DiffOp::Keep(j - 1));
                i -= 1;
                j -= 1;
            } else if dp[i - 1][j] >= dp[i][j - 1] {
                tmp.push(DiffOp::Delete);
                i -= 1;
            } else {
                j -= 1;
            }
        }
        proof {
            if tmp@.len() > t0.len() {
                assert(tmp@.reverse() =~= seq![tmp@.last()] + t0.reverse());
            }
        }
    }
    let mut ops: Vec<DiffOp> = Vec::new();
    let mut k = tmp.len();
    while k > 0
        invariant
            k <= tmp@.len(),
            ops@ == tmp@.subrange(k as int, tmp@.len() as int).reverse(),
        decreases k,
    {
        k -= 1;
        ops.push(tmp[k]);
        assert(tmp@.subrange(k as int, tmp@.len() as int).reverse() =~= tmp@.subrange(
            (k + 1) as int,
            tmp@.len() as int,
        ).reverse().push(tmp@[k as int]));
    }
    assert(tmp@.subrange(0, tmp@.len() as int) == tmp@);
    assert(backtrack(av, bv, 0, j as nat) =~= Seq::<DiffOp>::empty());
    assert(ops@ =~= backtrack(av, bv, a@.len() as nat, b@.len() as nat));
    ops
}

// ---------------------------------------------------------------------
// Pairing dropped old lines with unmatched new lines
// ---------------------------------------------------------------------

/// Number of kept lines among `ops[..i]`.
pub open spec fn keeps_before(ops: Seq<DiffOp>, i: nat) -> nat
    decreases i,
{
    if i == 0 {
        0
    } else {
        keeps_before(ops, (i - 1) as nat) + (if ops[i - 1] is Keep { 1nat } else { 0nat })
    }
}

/// For each of the `n` new lines, whether no op keeps it.
pub open spec fn unmatched(ops: Seq<DiffOp>, n: nat) -> Seq<bool> {
    Seq::new(n, |j: int| forall|k: int| 0 <= k < ops.len() ==> ops[k] != DiffOp::Keep(j as usize))
}

/// The last available index at or below `t`.
pub open spec fn lower(av: Seq<bool>, t: nat) -> Option<nat>
    decreases t,
{
    if t < av.len() && av[t as int] {
        Some(t)
    } else if t == 0 {
        None
    } else {
        lower(av, (t - 1) as nat)
    }
}

/// The first available index at or above `t`.
pub open spec fn upper(av: Seq<bool>, t: nat) -> Option<nat>
    decreases av.len() - t,
{
    if t >= av.len() {
        None
    } else if av[t as int] {
        Some(t)
    } else {
        upper(av, t + 1)
    }
}

/// Index of the first `c` in `s`.
pub open spec fn first_index(s: Seq<char>, c: char) -> Option<nat>
    decreases s.len(),
{
    if s.len() == 0 {
        None
    } else if s[0] == c {
        Some(0)
    } else {
        match first_index(s.drop_first(), c) {
            Some(i) => Some(i + 1),
            None => None,
        }
    }
}

/// Number of characters of `b` that find a partner among the characters
/// of `rem`, each character of `rem` serving once (the size of the
/// intersection of the two as multisets).
pub open spec fn matched_chars(rem: Seq<char>, b: Seq<char>) -> nat
    decreases b.len(),
{
    if b.len() == 0 {
        0
    } else {
        match first_index(rem, b[0]) {
            Some(i) => 1 + matched_chars(rem.remove(i as int), b.drop_first()),
            None => matched_chars(rem, b.drop_first()),
        }
    }
}

/// Similarity of two lines as a fraction `(numerator, denominator)`: the
/// characters they share over the length of the longer one; 1 for two
/// empty lines and 0 when exactly one is empty.
pub open spec fn sim_frac(a: Seq<char>, b: Seq<char>) -> (nat, nat) {
    if a.len() == 0 || b.len() == 0 {
        if a.len() == 0 && b.len() == 0 { (1, 1) } else { (0, 1) }
    } else {
        (matched_chars(a, b), if a.len() >= b.len() { a.len() } else { b.len() })
    }
}

/// Numerator of the pairing score `dist + 10 * (1 - sim)` over the
/// similarity's denominator.
pub open spec fn score_num(dist: nat, sim: (nat, nat)) -> int {
    dist * sim.1 + 10 * (sim.1 - sim.0)
}

/// The first score is strictly below the second (compared exactly).
pub open spec fn score_less(d1: nat, s1: (nat, nat), d2: nat, s2: (nat, nat)) -> bool {
    score_num(d1, s1) * s2.1 < score_num(d2, s2) * s1.1
}

/// The score is at most 3: close enough to pair.
pub open spec fn score_close(d: nat, s: (nat, nat)) -> bool {
    score_num(d, s) <= 3 * s.1
}

/// Distance between two line indices.
pub open spec fn dist(a: nat, b: nat) -> nat {
    if a >= b { (a - b) as nat } else { (b - a) as nat }
}

/// The better of the nearest available new lines below and above the
/// target: the lower one, unless the upper one scores strictly better.
pub open spec fn best_of(
    old_text: Seq<char>,
    new: Seq<Seq<char>>,
    t: nat,
    lo: Option<nat>,
    up: Option<nat>,
) -> Option<nat> {
    match lo {
        None => up,
        Some(l) => match up {
            None => Some(l),
            Some(u) => if score_less(
                dist(u, t),
                sim_frac(old_text, new[u as int]),
                dist(l, t),
                sim_frac(old_text, new[l as int]),
            ) {
                Some(u)
            } else {
                Some(l)
            },
        },
    }
}

/// Pairing from op `i` on: a dropped old line is paired with the best of
/// the nearest available new lines around the number of lines kept before
/// it, when that line's score is at most 3; the paired new line is then
/// no longer available.
pub open spec fn pair_from(
    ops0: Seq<DiffOp>,
    old: Seq<Seq<char>>,
    new: Seq<Seq<char>>,
    i: nat,
    ops: Seq<DiffOp>,
    av: Seq<bool>,
) -> Seq<DiffOp>
    decreases ops0.len() - i,
{
    if i >= ops0.len() {
        ops
    } else if ops0[i as int] != DiffOp::Delete {
        pair_from(ops0, old, new, i + 1, ops, av)
    } else {
        let t = keeps_before(ops0, i);
        let old_text = if i < old.len() { old[i as int] } else { Seq::empty() };
        match best_of(old_text, new, t, lower(av, t), upper(av, t)) {
            Some(j) => if score_close(dist(j, t), sim_frac(old_text, new[j as int])) {
                pair_from(ops0, old, new, i + 1, ops.update(i as int, DiffOp::Keep(j as usize)), av.update(j as int, false))
            } else {
                pair_from(ops0, old, new, i + 1, ops, av)
            },
            None => pair_from(ops0, old, new, i + 1, ops, av),
        }
    }
}

/// The ops after pairing.
pub open spec fn paired(ops: Seq<DiffOp>, old: Seq<Seq<char>>, new: Seq<Seq<char>>) -> Seq<DiffOp> {
    pair_from(ops, old, new, 0, ops, unmatched(ops, new.len()))
}

/// The diff of two sides: the longest common subsequence, then the
/// pairing of dropped lines with nearby similar new lines.
pub open spec fn diff_ops(old: Seq<Seq<char>>, new: Seq<Seq<char>>) -> Seq<DiffOp> {
    paired(backtrack(old, new, old.len(), new.len()), old, new)
}

/// `a * d < c * b` is decided by the integer parts of `a / b` and `c / d`,
/// and when they agree by the remainders.
proof fn lemma_fraction_order(a: int, b: int, c: int, d: int)
    requires
        a >= 0,
        b > 0,
        c >= 0,
        d > 0,
    ensures
        (a * d < c * b) == (if a / b != c / d { a / b < c / d } else { (a % b) * d < (c % d) * b }),
{
    let qa = a / b;
    let ra = a % b;
    let qc = c / d;
    let rc = c % d;
    vstd::arithmetic::div_mod::lemma_fundamental_div_mod(a, b);
    vstd::arithmetic::div_mod::lemma_fundamental_div_mod(c, d);
    assert(0 <= ra < b && 0 <= rc < d);
    assert(a * d == qa * b * d + ra * d) by (nonlinear_arith)
        requires
            a == b * qa + ra,
    ;
    assert(c * b == qc * d * b + rc * b) by (nonlinear_arith)
        requires
            c == d * qc + rc,
    ;
    if qa < qc {
        assert(a * d < c * b) by (nonlinear_arith)
            requires
                a * d == qa * b * d + ra * d,
                c * b == qc * d * b + rc * b,
                qa + 1 <= qc,
                0 <= ra < b,
                0 <= rc,
                b > 0,
                d > 0,
        {
            assert(ra * d < b * d);
            assert((qa + 1) * b * d <= qc * b * d);
        }
    } else if qa > qc {
        assert(c * b < a * d) by (nonlinear_arith)
            requires
                a * d == qa * b * d + ra * d,
                c * b == qc * d * b + rc * b,
                qc + 1 <= qa,
                0 <= rc < d,
                0 <= ra,
                b > 0,
                d > 0,
        {
            assert(rc * b < d * b);
            assert((qc + 1) * d * b <= qa * b * d);
        }
    } else {
        assert(qa * b * d == qc * d * b) by (nonlinear_arith)
            requires
                qa == qc,
        ;
    }
}

/// Exact comparison of two pairing scores.
fn score_less_exec(d1: usize, c1: usize, m1: usize, d2: usize, c2: usize, m2: usize) -> (r: bool)
    requires
        c1 <= m1,
        1 <= m1,
        c2 <= m2,
        1 <= m2,
    ensures
        r == score_less(d1 as nat, (c1 as nat, m1 as nat), d2 as nat, (c2 as nat, m2 as nat)),
{
    let ghost sa = score_num(d1 as nat, (c1 as nat, m1 as nat));
    let ghost sb = score_num(d2 as nat, (c2 as nat, m2 as nat));
    if (d1 as u128) + 10 < (d2 as u128) {
        assert(sa * m2 < sb * m1) by (nonlinear_arith)
            requires
                sa == d1 * m1 + 10 * (m1 - c1),
                sb == d2 * m2 + 10 * (m2 - c2),
                d1 + 10 < d2,
                c1 <= m1,
                c2 <= m2,
                m1 >= 1,
                m2 >= 1,
        {
            assert(sa <= (d1 + 10) * m1);
            assert(sb >= d2 * m2);
            assert(sa * m2 <= (d1 + 10) * m1 * m2);
            assert((d1 + 10) * m1 * m2 < d2 * m1 * m2);
            assert(d2 * m2 * m1 <= sb * m1);
        }
        return true;
    }
    if (d2 as u128) + 10 <= (d1 as u128) {
        assert(sb * m1 <= sa * m2) by (nonlinear_arith)
            requires
                sa == d1 * m1 + 10 * (m1 - c1),
                sb == d2 * m2 + 10 * (m2 - c2),
                d2 + 10 <= d1,
                c1 <= m1,
                c2 <= m2,
                m1 >= 1,
                m2 >= 1,
        {
            assert(sb <= (d2 + 10) * m2);
            assert(sa >= d1 * m1);
            assert(sb * m1 <= (d2 + 10) * m2 * m1);
            assert((d2 + 10) * m2 * m1 <= d1 * m1 * m2);
            assert(d1 * m1 * m2 <= sa * m2);
        }
        return false;
    }
    let base = if d1 <= d2 { d1 } else { d2 };
    let e1 = d1 - base;
    let e2 = d2 - base;
    assert(e1 <= 10 && e2 <= 10);
    assert(m1 <= 0xffff_ffff_ffff_ffffint && m2 <= 0xffff_ffff_ffff_ffffint);
    assert((e1 as u128) * (m1 as u128) <= 10 * 0xffff_ffff_ffff_ffffu128) by (nonlinear_arith)
        requires
            e1 <= 10,
            m1 <= 0xffff_ffff_ffff_ffffu128,
    ;
    assert((e2 as u128) * (m2 as u128) <= 10 * 0xffff_ffff_ffff_ffffu128) by (nonlinear_arith)
        requires
            e2 <= 10,
            m2 <= 0xffff_ffff_ffff_ffffu128,
    ;
    let a: u128 = (e1 as u128) * (m1 as u128) + 10 * ((m1 - c1) as u128);
    let c: u128 = (e2 as u128) * (m2 as u128) + 10 * ((m2 - c2) as u128);
    assert(sa == a + base * m1) by (nonlinear_arith)
        requires
            sa == d1 * m1 + 10 * (m1 - c1),
            a == e1 * m1 + 10 * (m1 - c1),
            d1 == e1 + base,
    ;
    assert(sb == c + base * m2) by (nonlinear_arith)
        requires
            sb == d2 * m2 + 10 * (m2 - c2),
            c == e2 * m2 + 10 * (m2 - c2),
            d2 == e2 + base,
    ;
    assert((sa * m2 < sb * m1) == (a * m2 < c * m1)) by (nonlinear_arith)
        requires
            sa == a + base * m1,
            sb == c + base * m2,
    ;
    proof { lemma_fraction_order(a as int, m1 as int, c as int, m2 as int); }
    let qa = a / (m1 as u128);
    let ra = a % (m1 as u128);
    let qc = c / (m2 as u128);
    let rc = c % (m2 as u128);
    if qa != qc {
        qa < qc
    } else {
        assert(ra * m2 < m1 * m2) by (nonlinear_arith)
            requires
                ra < m1,
                m2 >= 1,
        ;
        assert(m1 * m2 <= 0xffff_ffff_ffff_ffffu128 * 0xffff_ffff_ffff_ffffu128) by (nonlinear_arith)
            requires
                m1 <= 0xffff_ffff_ffff_ffffu128,
                m2 <= 0xffff_ffff_ffff_ffffu128,
        ;
        assert(rc * m1 < m2 * m1) by (nonlinear_arith)
            requires
                rc < m2,
                m1 >= 1,
        ;
        ra * (m2 as u128) < rc * (m1 as u128)
    }
}

/// Whether a score is at most 3.
fn score_close_exec(d: usize, c: usize, m: usize) -> (r: bool)
    requires
        c <= m,
        1 <= m,
    ensures
        r == score_close(d as nat, (c as nat, m as nat)),
{
    if d > 3 {
        assert(score_num(d as nat, (c as nat, m as nat)) > 3 * m) by (nonlinear_arith)
            requires
                d > 3,
                c <= m,
                m >= 1,
                score_num(d as nat, (c as nat, m as nat)) == d * m + 10 * (m - c),
        ;
        return false;
    }
    assert(m <= 0xffff_ffff_ffff_ffffint);
    assert((d as u128) * (m as u128) <= 3 * 0xffff_ffff_ffff_ffffu128) by (nonlinear_arith)
        requires
            d <= 3,
            m <= 0xffff_ffff_ffff_ffffu128,
    ;
    let num: u128 = (d as u128) * (m as u128) + 10 * ((m - c) as u128);
    num <= 3 * (m as u128)
}

/// Index of the first `c` in `v`.
fn first_index_exec(v: &Vec<char>, c: char) -> (r: Option<usize>)
    ensures
        match r {
            Some(i) => first_index(v@, c) == Some(i as nat) && i < v@.len(),
            None => first_index(v@, c) is None,
        },
{
    let mut i: usize = 0;
    assert(v@.skip(0) == v@);
    while i < v.len()
        invariant
            i <= v@.len(),
            first_index(v@, c) == (match first_index(v@.skip(i as int), c) {
                Some(k) => Some(k + i as nat),
                None => None,
            }),
        decreases v@.len() - i,
    {
        assert(v@.skip(i as int)[0] == v@[i as int]);
        if v[i] == c {
            return Some(i);
        }
        assert(v@.skip(i as int).drop_first() == v@.skip(i + 1));
        i += 1;
    }
    assert(v@.skip(i as int).len() == 0);
    None
}

/// `matched_chars` is at most the length of `b`.
proof fn lemma_matched_bound(rem: Seq<char>, b: Seq<char>)
    ensures
        matched_chars(rem, b) <= b.len(),
    decreases b.len(),
{
    if b.len() > 0 {
        match first_index(rem, b[0]) {
            Some(i) => lemma_matched_bound(rem.remove(i as int), b.drop_first()),
            None => lemma_matched_bound(rem, b.drop_first()),
        }
    }
}

/// The similarity of two lines as a fraction.
pub fn similarity(a: &Vec<char>, b: &Vec<char>) -> (r: (usize, usize))
    ensures
        (r.0 as nat, r.1 as nat) == sim_frac(a@, b@),
        r.0 <= r.1,
        1 <= r.1,
{
    if a.len() == 0 || b.len() == 0 {
        return if a.len() == 0 && b.len() == 0 { (1, 1) } else { (0, 1) };
    }
    let mut rem: Vec<char> = Vec::new();
    let mut k: usize = 0;
    while k < a.len()
        invariant
            k <= a@.len(),
            rem@ == a@.take(k as int),
        decreases a@.len() - k,
    {
        rem.push(a[k]);
        k += 1;
        assert(rem@ =~= a@.take(k as int));
    }
    assert(a@.take(k as int) == a@);
    let mut common: usize = 0;
    let mut i: usize = 0;
    assert(b@.skip(0) == b@);
    while i < b.len()
        invariant
            i <= b@.len(),
            common <= i,
            matched_chars(a@, b@) == common + matched_chars(rem@, b@.skip(i as int)),
        decreases b@.len() - i,
    {
        let c = b[i];
        assert(b@.skip(i as int)[0] == c);
        assert(b@.skip(i as int).drop_first() == b@.skip(i + 1));
        match first_index_exec(&rem, c) {
            Some(idx) => {
                rem.remove(idx);
                common += 1;
            },
            None => {},
        }
        i += 1;
    }
    proof { lemma_matched_bound(a@, b@); }
    let m = if a.len() >= b.len() { a.len() } else { b.len() };
    (common, m)
}

/// For a target at or beyond the end, the search below starts at the last
/// index.
proof fn lemma_lower_clamp(av: Seq<bool>, t: nat)
    requires
        av.len() > 0,
        t >= av.len(),
    ensures
        lower(av, t) == lower(av, (av.len() - 1) as nat),
    decreases t,
{
    if t > av.len() {
        lemma_lower_clamp(av, (t - 1) as nat);
    }
}

/// The last available index at or below `t`.
fn lower_exec(av: &Vec<bool>, t: usize) -> (r: Option<usize>)
    ensures
        match r {
            Some(j) => lower(av@, t as nat) == Some(j as nat) && j < av@.len(),
            None => lower(av@, t as nat) is None,
        },
{
    let n = av.len();
    if n == 0 {
        assert(lower(av@, t as nat) is None) by {
            lemma_lower_empty(av@, t as nat);
        }
        return None;
    }
    let mut k = if t < n { t } else { n - 1 };
    if t >= n {
        proof { lemma_lower_clamp(av@, t as nat); }
    }
    loop
        invariant
            n == av@.len(),
            k < n,
            lower(av@, t as nat) == lower(av@, k as nat),
        decreases k,
    {
        if av[k] {
            return Some(k);
        }
        if k == 0 {
            return None;
        }
        k -= 1;
    }
}

/// Nothing is available below any index of an empty list.
proof fn lemma_lower_empty(av: Seq<bool>, t: nat)
    requires
        av.len() == 0,
    ensures
        lower(av, t) is None,
    decreases t,
{
    if t > 0 {
        lemma_lower_empty(av, (t - 1) as nat);
    }
}

/// The first available index at or above `t`.
fn upper_exec(av: &Vec<bool>, t: usize) -> (r: Option<usize>)
    ensures
        match r {
            Some(j) => upper(av@, t as nat) == Some(j as nat) && j < av@.len(),
            None => upper(av@, t as nat) is None,
        },
{
    let mut k = t;
    while k < av.len()
        invariant
            t <= k,
            upper(av@, t as nat) == upper(av@, k as nat),
        decreases av@.len() - k,
    {
        if av[k] {
            return Some(k);
        }
        k += 1;
    }
    None
}

/// The better of the two candidates, by exact score.
fn best_of_exec(old_text: &Vec<char>, new: &Vec<Vec<char>>, t: usize, lo: Option<usize>, up: Option<usize>) -> (r: Option<usize>)
    requires
        lo is Some ==> lo->0 < new@.len(),
        up is Some ==> up->0 < new@.len(),
    ensures
        r is Some <==> best_of(
            old_text@,
            lines_view(new@),
            t as nat,
            match lo { Some(l) => Some(l as nat), None => None },
            match up { Some(u) => Some(u as nat), None => None },
        ) is Some,
        r is Some ==> Some(r->0 as nat) == best_of(
            old_text@,
            lines_view(new@),
            t as nat,
            match lo { Some(l) => Some(l as nat), None => None },
            match up { Some(u) => Some(u as nat), None => None },
        ),
        r is Some ==> r->0 < new@.len(),
{
    match lo {
        None => up,
        Some(l) => match up {
            None => Some(l),
            Some(u) => {
                assert(lines_view(new@)[u as int] == new@[u as int]@);
                assert(lines_view(new@)[l as int] == new@[l as int]@);
                let su = similarity(old_text, &new[u]);
                let sl = similarity(old_text, &new[l]);
                let du = if u >= t { u - t } else { t - u };
                let dl = if l >= t { l - t } else { t - l };
                if score_less_exec(du, su.0, su.1, dl, sl.0, sl.1) {
                    Some(u)
                } else {
                    Some(l)
                }
            },
        },
    }
}

/// Pairs dropped old lines with nearby unmatched new lines of similar
/// text, so that a line edited in place keeps its paragraph.
pub fn pair_delete_insert(ops: &mut Vec<DiffOp>, old_lines: &Vec<Vec<char>>, new_lines: &Vec<Vec<char>>)
    ensures
        final(ops)@ == paired(old(ops)@, lines_view(old_lines@), lines_view(new_lines@)),
{
    let ghost ops0 = ops@;
    let ghost ov = lines_view(old_lines@);
    let ghost nv = lines_view(new_lines@);
    let n = new_lines.len();
    let mut av: Vec<bool> = Vec::new();
    let mut j: usize = 0;
    while j < n
        invariant
            n == new_lines@.len(),
            j <= n,
            av@.len() == j,
            forall|x: int| 0 <= x < j ==> av@[x],
        decreases n - j,
    {
        av.push(true);
        j += 1;
    }
    let mut k: usize = 0;
    while k < ops.len()
        invariant
            ops@ == ops0,
            n == new_lines@.len(),
            av@.len() == n,
            k <= ops0.len(),
            forall|x: int| 0 <= x < n ==> av@[x] == (forall|q: int| 0 <= q < k ==> ops0[q] != DiffOp::Keep(x as usize)),
        decreases ops0.len() - k,
    {
        match ops[k] {
            DiffOp::Keep(x) => {
                if x < n {
                    av.set(x, false);
                }
            },
            DiffOp::Delete => {},
        }
        k += 1;
    }
    assert(av@ =~= unmatched(ops0, n as nat));
    let mut cnt: usize = 0;
    let mut i: usize = 0;
    while i < ops.len()
        invariant
            ops0.len() == ops@.len(),
            ov == lines_view(old_lines@),
            nv == lines_view(new_lines@),
            n == new_lines@.len(),
            av@.len() == n,
            i <= ops0.len(),
            cnt == keeps_before(ops0, i as nat),
            cnt <= i,
            forall|x: int| i <= x < ops0.len() ==> ops@[x] == ops0[x],
            pair_from(ops0, ov, nv, i as nat, ops@, av@) == paired(ops0, ov, nv),
        decreases ops0.len() - i,
    {
        let op = ops[i];
        if op == DiffOp::Delete {
            let empty: Vec<char> = Vec::new();
            let old_text: &Vec<char> = if i < old_lines.len() { &old_lines[i] } else { &empty };
            assert(old_text@ == (if i < ov.len() { ov[i as int] } else { Seq::<char>::empty() }));
            let lo = lower_exec(&av, cnt);
            let up = upper_exec(&av, cnt);
            match best_of_exec(old_text, new_lines, cnt, lo, up) {
                Some(b) => {
                    assert(nv[b as int] == new_lines@[b as int]@);
                    let s = similarity(old_text, &new_lines[b]);
                    let d = if b >= cnt { b - cnt } else { cnt - b };
                    if score_close_exec(d, s.0, s.1) {
                        ops.set(i, DiffOp::Keep(b));
                        av.set(b, false);
                    }
                },
                None => {},
            }
        } else {
            cnt += 1;
        }
        i += 1;
    }
}

/// The diff of the old and the new lines: for every old line, whether it
/// stays (as which new line) or goes.
pub fn diff_lcs(old_lines: &Vec<Vec<char>>, new_lines: &Vec<Vec<char>>) -> (ops: Vec<DiffOp>)
    requires
        old_lines@.len() < u32::MAX || new_lines@.len() < u32::MAX,
    ensures
        ops@ == diff_ops(lines_view(old_lines@), lines_view(new_lines@)),
        ops@.len() == old_lines@.len(),
        forall|k: int| 0 <= k < ops@.len() ==> (#[trigger] ops@[k] matches DiffOp::Keep(j) ==> j < new_lines@.len()),
        keeps_distinct(ops@),
        lines_view(old_lines@) == lines_view(new_lines@) ==> ops@ == Seq::new(
            old_lines@.len(),
            |k: int| DiffOp::Keep(k as usize),
        ),
{
    let old_len = old_lines.len();
    let new_len = new_lines.len();
    proof {
        assert(lines_view(old_lines@).len() == old_len && lines_view(new_lines@).len() == new_len);
        lemma_diff_ops_laws(lines_view(old_lines@), lines_view(new_lines@));
    }
    let mut ops = lcs_ops(old_lines, new_lines);
    proof {
        lemma_backtrack_shape(lines_view(old_lines@), lines_view(new_lines@), old_lines@.len() as nat, new_lines@.len() as nat);
        lemma_pair_shape(ops@, lines_view(old_lines@), lines_view(new_lines@), 0, ops@, unmatched(ops@, new_lines@.len() as nat));
    }
    pair_delete_insert(&mut ops, old_lines, new_lines);
    ops
}

/// The ops read back from the table cover `a[..i]` and keep only lines of
/// `b[..j]`.
pub proof fn lemma_backtrack_shape(a: Seq<Seq<char>>, b: Seq<Seq<char>>, i: nat, j: nat)
    ensures
        backtrack(a, b, i, j).len() == i,
        forall|k: int| 0 <= k < i ==> (#[trigger] backtrack(a, b, i, j)[k] matches DiffOp::Keep(x) ==> x < j),
    decreases i + j,
{
    if i == 0 {
    } else if j == 0 {
        lemma_backtrack_shape(a, b, (i - 1) as nat, 0);
        let t = backtrack(a, b, (i - 1) as nat, 0);
        assert forall|k: int| 0 <= k < i implies (#[trigger] backtrack(a, b, i, j)[k] matches DiffOp::Keep(x) ==> x < j) by {
            if k < i - 1 {
                assert(backtrack(a, b, i, j)[k] == t[k]);
            }
        }
    } else if a[i - 1] == b[j - 1] {
        lemma_backtrack_shape(a, b, (i - 1) as nat, (j - 1) as nat);
        let t = backtrack(a, b, (i - 1) as nat, (j - 1) as nat);
        assert forall|k: int| 0 <= k < i implies (#[trigger] backtrack(a, b, i, j)[k] matches DiffOp::Keep(x) ==> x < j) by {
            if k < i - 1 {
                assert(backtrack(a, b, i, j)[k] == t[k]);
            }
        }
    } else if lcs(a, b, (i - 1) as nat, j) >= lcs(a, b, i, (j - 1) as nat) {
        lemma_backtrack_shape(a, b, (i - 1) as nat, j);
        let t = backtrack(a, b, (i - 1) as nat, j);
        assert forall|k: int| 0 <= k < i implies (#[trigger] backtrack(a, b, i, j)[k] matches DiffOp::Keep(x) ==> x < j) by {
            if k < i - 1 {
                assert(backtrack(a, b, i, j)[k] == t[k]);
            }
        }
    } else {
        lemma_backtrack_shape(a, b, i, (j - 1) as nat);
    }
}

/// Pairing keeps the number of ops and only keeps existing new lines.
pub proof fn lemma_pair_shape(
    ops0: Seq<DiffOp>,
    old: Seq<Seq<char>>,
    new: Seq<Seq<char>>,
    i: nat,
    ops: Seq<DiffOp>,
    av: Seq<bool>,
)
    requires
        ops.len() == ops0.len(),
        av.len() == new.len(),
        forall|k: int| 0 <= k < ops.len() ==> (#[trigger] ops[k] matches DiffOp::Keep(x) ==> x < new.len()),
    ensures
        pair_from(ops0, old, new, i, ops, av).len() == ops0.len(),
        forall|k: int| 0 <= k < ops0.len() ==> (#[trigger] pair_from(ops0, old, new, i, ops, av)[k] matches DiffOp::Keep(x) ==> x < new.len()),
    decreases ops0.len() - i,
{
    if i < ops0.len() {
        if ops0[i as int] != DiffOp::Delete {
            lemma_pair_shape(ops0, old, new, i + 1, ops, av);
        } else {
            let t = keeps_before(ops0, i);
            let old_text = if i < old.len() { old[i as int] } else { Seq::empty() };
            match best_of(old_text, new, t, lower(av, t), upper(av, t)) {
                Some(j) => {
                    lemma_best_in_range(old_text, new, t, av);
                    if score_close(dist(j, t), sim_frac(old_text, new[j as int])) {
                        let ops2 = ops.update(i as int, DiffOp::Keep(j as usize));
                        assert forall|k: int| 0 <= k < ops2.len() implies (#[trigger] ops2[k] matches DiffOp::Keep(x) ==> x < new.len()) by {
                            if k != i {
                                assert(ops2[k] == ops[k]);
                            }
                        }
                        lemma_pair_shape(ops0, old, new, i + 1, ops2, av.update(j as int, false));
                    } else {
                        lemma_pair_shape(ops0, old, new, i + 1, ops, av);
                    }
                },
                None => lemma_pair_shape(ops0, old, new, i + 1, ops, av),
            }
        }
    }
}

/// The candidates found around a target are indices of new lines.
proof fn lemma_best_in_range(old_text: Seq<char>, new: Seq<Seq<char>>, t: nat, av: Seq<bool>)
    requires
        av.len() == new.len(),
    ensures
        best_of(old_text, new, t, lower(av, t), upper(av, t)) matches Some(j) ==> j < new.len() && av[j as int],
{
    lemma_lower_in_range(av, t);
    lemma_upper_in_range(av, t);
}

/// The index found below a target is in range.
proof fn lemma_lower_in_range(av: Seq<bool>, t: nat)
    ensures
        lower(av, t) matches Some(j) ==> j < av.len() && av[j as int],
    decreases t,
{
    if !(t < av.len() && av[t as int]) && t > 0 {
        lemma_lower_in_range(av, (t - 1) as nat);
    }
}

/// The index found above a target is in range.
proof fn lemma_upper_in_range(av: Seq<bool>, t: nat)
    ensures
        upper(av, t) matches Some(j) ==> j < av.len() && av[j as int],
    decreases av.len() - t,
{
    if t < av.len() && !av[t as int] {
        lemma_upper_in_range(av, t + 1);
    }
}


/// No two ops keep the same new line.
pub open spec fn keeps_distinct(ops: Seq<DiffOp>) -> bool {
    forall|k1: int, k2: int|
        0 <= k1 < ops.len() && 0 <= k2 < ops.len() && k1 != k2 && (#[trigger] ops[k1]) is Keep && (
        #[trigger] ops[k2]) is Keep ==> ops[k1]->0 != ops[k2]->0
}

/// The ops read back from the table keep new lines in increasing order.
proof fn lemma_backtrack_increasing(a: Seq<Seq<char>>, b: Seq<Seq<char>>, i: nat, j: nat)
    requires
        j <= usize::MAX,
    ensures
        forall|k1: int, k2: int|
            0 <= k1 < k2 < backtrack(a, b, i, j).len() && (#[trigger] backtrack(a, b, i, j)[k1]) is Keep && (
            #[trigger] backtrack(a, b, i, j)[k2]) is Keep ==> backtrack(a, b, i, j)[k1]->0 < backtrack(a, b, i, j)[k2]->0,
    decreases i + j,
{
    let r = backtrack(a, b, i, j);
    if i == 0 {
    } else if j == 0 {
        lemma_backtrack_increasing(a, b, (i - 1) as nat, 0);
        let t = backtrack(a, b, (i - 1) as nat, 0);
        assert forall|k1: int, k2: int| 0 <= k1 < k2 < r.len() && (#[trigger] r[k1]) is Keep && (#[trigger] r[k2]) is Keep implies r[k1]->0 < r[k2]->0 by {
            assert(r[k1] == t[k1]);
            if k2 < t.len() {
                assert(r[k2] == t[k2]);
            }
        }
    } else if a[i - 1] == b[j - 1] {
        lemma_backtrack_increasing(a, b, (i - 1) as nat, (j - 1) as nat);
        lemma_backtrack_shape(a, b, (i - 1) as nat, (j - 1) as nat);
        let t = backtrack(a, b, (i - 1) as nat, (j - 1) as nat);
        assert forall|k1: int, k2: int| 0 <= k1 < k2 < r.len() && (#[trigger] r[k1]) is Keep && (#[trigger] r[k2]) is Keep implies r[k1]->0 < r[k2]->0 by {
            assert(r[k1] == t[k1]);
            if k2 < t.len() {
                assert(r[k2] == t[k2]);
            } else {
                assert(t[k1] matches DiffOp::Keep(x) ==> x < j - 1);
                assert(r[k2] == DiffOp::Keep((j - 1) as usize));
                assert(((j - 1) as usize) as int == j - 1);
            }
        }
    } else if lcs(a, b, (i - 1) as nat, j) >= lcs(a, b, i, (j - 1) as nat) {
        lemma_backtrack_increasing(a, b, (i - 1) as nat, j);
        let t = backtrack(a, b, (i - 1) as nat, j);
        assert forall|k1: int, k2: int| 0 <= k1 < k2 < r.len() && (#[trigger] r[k1]) is Keep && (#[trigger] r[k2]) is Keep implies r[k1]->0 < r[k2]->0 by {
            assert(r[k1] == t[k1]);
            if k2 < t.len() {
                assert(r[k2] == t[k2]);
            }
        }
    } else {
        lemma_backtrack_increasing(a, b, i, (j - 1) as nat);
    }
}

/// Pairing keeps the kept new lines distinct: every kept line is no longer
/// available, and a dropped line is only paired with an available one.
proof fn lemma_pair_distinct(
    ops0: Seq<DiffOp>,
    old: Seq<Seq<char>>,
    new: Seq<Seq<char>>,
    i: nat,
    ops: Seq<DiffOp>,
    av: Seq<bool>,
)
    requires
        ops.len() == ops0.len(),
        av.len() == new.len(),
        new.len() <= usize::MAX,
        keeps_distinct(ops),
        forall|k: int| 0 <= k < ops.len() && (#[trigger] ops[k]) is Keep ==> ops[k]->0 < new.len() && !av[ops[k]->0 as int],
        forall|k: int| i <= k < ops.len() ==> (#[trigger] ops[k]) == ops0[k],
    ensures
        keeps_distinct(pair_from(ops0, old, new, i, ops, av)),
    decreases ops0.len() - i,
{
    if i < ops0.len() {
        if ops0[i as int] != DiffOp::Delete {
            lemma_pair_distinct(ops0, old, new, i + 1, ops, av);
        } else {
            let t = keeps_before(ops0, i);
            let old_text = if i < old.len() { old[i as int] } else { Seq::empty() };
            match best_of(old_text, new, t, lower(av, t), upper(av, t)) {
                Some(j) => {
                    lemma_best_in_range(old_text, new, t, av);
                    if score_close(dist(j, t), sim_frac(old_text, new[j as int])) {
                        let ops2 = ops.update(i as int, DiffOp::Keep(j as usize));
                        let av2 = av.update(j as int, false);
                        assert(ops[i as int] == DiffOp::Delete);
                        assert forall|k1: int, k2: int|
                            0 <= k1 < ops2.len() && 0 <= k2 < ops2.len() && k1 != k2 && (#[trigger] ops2[k1]) is Keep && (
                            #[trigger] ops2[k2]) is Keep implies ops2[k1]->0 != ops2[k2]->0 by {
                            if k1 == i {
                                assert(ops2[k2] == ops[k2]);
                                assert(!av[ops[k2]->0 as int]);
                            } else if k2 == i {
                                assert(ops2[k1] == ops[k1]);
                                assert(!av[ops[k1]->0 as int]);
                            } else {
                                assert(ops2[k1] == ops[k1] && ops2[k2] == ops[k2]);
                            }
                        }
                        assert forall|k: int| 0 <= k < ops2.len() && (#[trigger] ops2[k]) is Keep implies ops2[k]->0 < new.len()
                            && !av2[ops2[k]->0 as int] by {
                            if k != i {
                                assert(ops2[k] == ops[k]);
                            }
                        }
                        lemma_pair_distinct(ops0, old, new, i + 1, ops2, av2);
                    } else {
                        lemma_pair_distinct(ops0, old, new, i + 1, ops, av);
                    }
                },
                None => lemma_pair_distinct(ops0, old, new, i + 1, ops, av),
            }
        }
    }
}

/// The ops of two equal sides keep every line as itself.
proof fn lemma_backtrack_same(a: Seq<Seq<char>>, i: nat)
    requires
        i <= a.len(),
    ensures
        backtrack(a, a, i, i) == Seq::new(i, |k: int| DiffOp::Keep(k as usize)),
    decreases i,
{
    if i > 0 {
        lemma_backtrack_same(a, (i - 1) as nat);
        assert(backtrack(a, a, i, i) =~= Seq::new(i, |k: int| DiffOp::Keep(k as usize)));
    }
}

/// Pairing changes nothing when no line is dropped from op `i` on.
proof fn lemma_pair_none_dropped(
    ops0: Seq<DiffOp>,
    old: Seq<Seq<char>>,
    new: Seq<Seq<char>>,
    i: nat,
    ops: Seq<DiffOp>,
    av: Seq<bool>,
)
    requires
        forall|k: int| i <= k < ops0.len() ==> (#[trigger] ops0[k]) is Keep,
    ensures
        pair_from(ops0, old, new, i, ops, av) == ops,
    decreases ops0.len() - i,
{
    if i < ops0.len() {
        assert(ops0[i as int] is Keep);
        lemma_pair_none_dropped(ops0, old, new, i + 1, ops, av);
    }
}

/// The diff keeps no new line twice, and keeps every line of two equal
/// sides as itself.
pub proof fn lemma_diff_ops_laws(old: Seq<Seq<char>>, new: Seq<Seq<char>>)
    requires
        old.len() <= usize::MAX,
        new.len() <= usize::MAX,
    ensures
        keeps_distinct(diff_ops(old, new)),
        old == new ==> diff_ops(old, new) == Seq::new(old.len(), |k: int| DiffOp::Keep(k as usize)),
{
    let ops0 = backtrack(old, new, old.len(), new.len());
    let av = unmatched(ops0, new.len());
    lemma_backtrack_shape(old, new, old.len(), new.len());
    lemma_backtrack_increasing(old, new, old.len(), new.len());
    assert forall|k: int| 0 <= k < ops0.len() && (#[trigger] ops0[k]) is Keep implies ops0[k]->0 < new.len()
        && !av[ops0[k]->0 as int] by {
        assert(ops0[k] matches DiffOp::Keep(x) ==> x < new.len());
        assert(ops0[k] == DiffOp::Keep(ops0[k]->0));
    }
    assert forall|k1: int, k2: int|
        0 <= k1 < ops0.len() && 0 <= k2 < ops0.len() && k1 != k2 && (#[trigger] ops0[k1]) is Keep && (#[trigger] ops0[k2]) is Keep
        implies ops0[k1]->0 != ops0[k2]->0 by {
        if k1 < k2 {
            assert(ops0[k1]->0 < ops0[k2]->0);
        } else {
            assert(ops0[k2]->0 < ops0[k1]->0);
        }
    }
    lemma_pair_distinct(ops0, old, new, 0, ops0, av);
    if old == new {
        lemma_backtrack_same(old, old.len());
        lemma_pair_none_dropped(ops0, old, new, 0, ops0, av);
    }
}
} // verus!
