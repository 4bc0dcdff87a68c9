//! Edits of table cells. A table row is shown on as many lines as its
//! fullest cell has paragraphs, the cells side by side between `│`; the
//! text of a cell on a line is the piece between the separators. The
//! lines of a cell are matched with its paragraphs from the top, lines
//! that overflow the cell are matched from the bottom, and when a cell
//! lost lines its empty paragraphs are removed, the last first.

use vstd::prelude::*;
use crate::diff::lines_view;
use crate::edit::paragraph_plain_text;
use crate::model::{ParaV, Paragraph};
use crate::render::{col_of, is_cell, paras_view, row_of, strs_view};
use crate::save::{cell_text, find_para, first_cell_pid, split_chars, split_on};
use crate::text::{string_of, trim, trim_str, same_text};

verus! {

/// An edit: paragraph identifier, new text, old text.
pub type EditV = (Seq<char>, Seq<char>, Seq<char>);

/// The views of edits.
pub open spec fn edits_view(v: Seq<(String, String, String)>) -> Seq<EditV> {
    v.map_values(|e: (String, String, String)| (e.0@, e.1@, e.2@))
}

/// The edits and deletions planned so far.
pub struct Plan {
    pub edits: Seq<EditV>,
    pub deletes: Seq<Seq<char>>,
}

/// The text of cell piece `seg` of a buffer line, trimmed; `None` when the
/// line has fewer pieces.
pub open spec fn seg_text(line: Seq<char>, seg: nat) -> Option<Seq<char>> {
    let s = split_on(line, '│');
    if seg < s.len() { Some(trim(s[seg as int])) } else { None }
}

/// The text of cell piece `seg` of a buffer line.
pub fn seg_text_exec(line: &Vec<char>, seg: usize) -> (r: Option<String>)
    ensures
        crate::model::opt_str(r) == seg_text(line@, seg as nat),
{
    let parts = split_chars(line, '│');
    if seg < parts.len() {
        assert(lines_view(parts@)[seg as int] == parts@[seg as int]@);
        let s = string_of(parts[seg].as_slice());
        Some(trim_str(s.as_str()))
    } else {
        None
    }
}

/// Number of occurrences of `x` in `s`.
pub open spec fn count_of(s: Seq<Seq<char>>, x: Seq<char>) -> nat
    decreases s.len(),
{
    if s.len() == 0 {
        0
    } else {
        count_of(s.drop_last(), x) + (if s.last() == x { 1nat } else { 0nat })
    }
}

/// The two sequences hold the same texts the same number of times.
pub open spec fn same_counts(a: Seq<Seq<char>>, b: Seq<Seq<char>>) -> bool {
    forall|x: Seq<char>| #[trigger] count_of(a, x) == count_of(b, x)
}

/// An element that does not occur is counted 0 times.
proof fn lemma_count_absent(s: Seq<Seq<char>>, x: Seq<char>)
    requires
        forall|i: int| 0 <= i < s.len() ==> s[i] != x,
    ensures
        count_of(s, x) == 0,
    decreases s.len(),
{
    if s.len() > 0 {
        lemma_count_absent(s.drop_last(), x);
    }
}

/// Occurrences of `x` in `s`.
fn count_exec(s: &Vec<String>, x: &str) -> (n: usize)
    ensures
        n == count_of(strs_view(s@), x@),
{
    let ghost v = strs_view(s@);
    let mut n: usize = 0;
    let mut k: usize = 0;
    while k < s.len()
        invariant
            v == strs_view(s@),
            k <= s@.len(),
            n <= k,
            n == count_of(v.take(k as int), x@),
        decreases s@.len() - k,
    {
        assert(v.take(k + 1).drop_last() == v.take(k as int));
        assert(v.take(k + 1).last() == s@[k as int]@);
        if same_text(s[k].as_str(), x) {
            n += 1;
        }
        k += 1;
    }
    assert(v.take(k as int) == v);
    n
}

/// Whether the two sequences hold the same texts the same number of
/// times.
fn same_counts_exec(a: &Vec<String>, b: &Vec<String>) -> (r: bool)
    ensures
        r == same_counts(strs_view(a@), strs_view(b@)),
{
    let ghost av = strs_view(a@);
    let ghost bv = strs_view(b@);
    let mut k: usize = 0;
    while k < a.len()
        invariant
            av == strs_view(a@),
            bv == strs_view(b@),
            k <= a@.len(),
            forall|i: int| 0 <= i < k ==> count_of(av, #[trigger] av[i]) == count_of(bv, av[i]),
        decreases a@.len() - k,
    {
        let ca = count_exec(a, a[k].as_str());
        let cb = count_exec(b, a[k].as_str());
        if ca != cb {
            assert(count_of(av, av[k as int]) != count_of(bv, av[k as int]));
            return false;
        }
        k += 1;
    }
    let mut q: usize = 0;
    while q < b.len()
        invariant
            av == strs_view(a@),
            bv == strs_view(b@),
            q <= b@.len(),
            forall|i: int| 0 <= i < a@.len() ==> count_of(av, #[trigger] av[i]) == count_of(bv, av[i]),
            forall|i: int| 0 <= i < q ==> count_of(av, #[trigger] bv[i]) == count_of(bv, bv[i]),
        decreases b@.len() - q,
    {
        let ca = count_exec(a, b[q].as_str());
        let cb = count_exec(b, b[q].as_str());
        if ca != cb {
            assert(count_of(av, bv[q as int]) != count_of(bv, bv[q as int]));
            return false;
        }
        q += 1;
    }
    assert forall|x: Seq<char>| #[trigger] count_of(av, x) == count_of(bv, x) by {
        if exists|i: int| 0 <= i < av.len() && av[i] == x {
            let i = choose|i: int| 0 <= i < av.len() && av[i] == x;
            assert(count_of(av, av[i]) == count_of(bv, av[i]));
        } else if exists|i: int| 0 <= i < bv.len() && bv[i] == x {
            let i = choose|i: int| 0 <= i < bv.len() && bv[i] == x;
            assert(count_of(av, bv[i]) == count_of(bv, bv[i]));
        } else {
            lemma_count_absent(av, x);
            lemma_count_absent(bv, x);
        }
    }
    true
}

// ---------------------------------------------------------------------
// One cell
// ---------------------------------------------------------------------

/// What the matching of one cell sees: the paragraphs, the old and the new
/// lines, the old lines of the table, the new lines of the row, where the
/// row starts among the old lines of the table, which piece of a line
/// holds the cell (its column plus one) and the cell's paragraphs.
pub struct CellCtx {
    pub ps: Seq<ParaV>,
    pub old: Seq<Seq<char>>,
    pub new: Seq<Seq<char>>,
    pub otl: Seq<usize>,
    pub nrl: Seq<usize>,
    pub cursor: nat,
    pub seg: nat,
    pub pids: Seq<Seq<char>>,
}

/// The lines of the row are lines of the new buffer.
pub open spec fn ctx_ok(c: CellCtx) -> bool {
    forall|k: int| 0 <= k < c.nrl.len() ==> (#[trigger] c.nrl[k]) < c.new.len()
}

/// The old line at `old_slot` of the table reads as the new line at
/// `new_slot` of the row.
pub open spec fn lines_same(c: CellCtx, old_slot: nat, new_slot: nat) -> bool {
    old_slot < c.otl.len() && c.otl[old_slot as int] < c.old.len() && c.old[c.otl[old_slot as int] as int]
        == c.new[c.nrl[new_slot as int] as int]
}

/// The cell's text on the row's new line `slot`.
pub open spec fn new_seg(c: CellCtx, slot: nat) -> Option<Seq<char>> {
    seg_text(c.new[c.nrl[slot as int] as int], c.seg)
}

/// Some line below the cell's paragraphs holds the text `t` in the cell.
pub open spec fn tail_has(c: CellCtx, t: Seq<char>) -> bool {
    exists|x: nat| c.pids.len() <= x < c.nrl.len() && #[trigger] new_seg(c, x) == Some(t)
}

/// Matching line `slot` of the cell with its paragraph `slot`: a changed
/// text becomes an edit, unless the line is unchanged, the cell has no
/// text there, or the cell was emptied while its old text moved to a line
/// below.
pub open spec fn head_step(c: CellCtx, slot: nat, pl: Plan) -> Plan {
    let nc = c.pids.len();
    let m = c.nrl.len();
    if slot >= m || lines_same(c, c.cursor + slot, slot) {
        pl
    } else {
        let old_text = cell_text(c.ps, c.pids[slot as int]);
        match new_seg(c, slot) {
            None => pl,
            Some(nt) => if nt == old_text || (nt.len() == 0 && old_text.len() > 0 && m > nc
                && tail_has(c, old_text)) {
                pl
            } else {
                Plan { edits: pl.edits.push((c.pids[slot as int], nt, old_text)), ..pl }
            },
        }
    }
}

/// Matching from the top, lines `slot..` of the cell.
pub open spec fn head_from(c: CellCtx, slot: nat, pl: Plan) -> Plan
    decreases c.pids.len() - slot,
{
    if slot >= c.pids.len() {
        pl
    } else {
        head_from(c, slot + 1, head_step(c, slot, pl))
    }
}

/// The edits without those of paragraph `pid`.
pub open spec fn drop_edits_for(edits: Seq<EditV>, pid: Seq<char>) -> Seq<EditV>
    decreases edits.len(),
{
    if edits.len() == 0 {
        Seq::empty()
    } else {
        let r = drop_edits_for(edits.drop_last(), pid);
        if edits.last().0 == pid { r } else { r.push(edits.last()) }
    }
}

/// Matching from the bottom: the `k`-th last line of the row with the
/// `k`-th last paragraph of the cell; a non-empty changed text replaces
/// any edit of that paragraph.
pub open spec fn tail_step(c: CellCtx, k: nat, pl: Plan) -> Plan {
    let nc = c.pids.len();
    let m = c.nrl.len();
    let bs = (m - k) as nat;
    let pi = (nc - k) as nat;
    if lines_same(c, c.cursor + pi, bs) {
        pl
    } else {
        match new_seg(c, bs) {
            None => pl,
            Some(nt) => {
                let ot = cell_text(c.ps, c.pids[pi as int]);
                if nt.len() == 0 || nt == ot {
                    pl
                } else {
                    Plan {
                        edits: drop_edits_for(pl.edits, c.pids[pi as int]).push((c.pids[pi as int], nt, ot)),
                        ..pl
                    }
                }
            },
        }
    }
}

/// The number of lines matched from the bottom: the overflow of the row
/// beyond the cell's paragraphs, at most the number of paragraphs.
pub open spec fn tail_count(c: CellCtx) -> nat {
    let over = (c.nrl.len() - c.pids.len()) as nat;
    if over <= c.pids.len() { over } else { c.pids.len() }
}

/// Matching from the bottom, steps `k..`.
pub open spec fn tail_from(c: CellCtx, k: nat, pl: Plan) -> Plan
    decreases tail_count(c) + 1 - k,
{
    if k == 0 || k > tail_count(c) {
        pl
    } else {
        tail_from(c, k + 1, tail_step(c, k, pl))
    }
}

/// `dels` with `pid` added unless it is there.
pub open spec fn add_unique(dels: Seq<Seq<char>>, pid: Seq<char>) -> Seq<Seq<char>> {
    if dels.contains(pid) { dels } else { dels.push(pid) }
}

/// Removing `need` empty paragraphs of the cell, looking from paragraph
/// `k - 1` upwards.
pub open spec fn del_from(c: CellCtx, k: nat, need: nat, dels: Seq<Seq<char>>) -> Seq<Seq<char>>
    decreases k,
{
    if k == 0 || need == 0 {
        dels
    } else {
        let pid = c.pids[k - 1];
        if cell_text(c.ps, pid).len() == 0 {
            del_from(c, (k - 1) as nat, (need - 1) as nat, add_unique(dels, pid))
        } else {
            del_from(c, (k - 1) as nat, need, dels)
        }
    }
}

/// The texts of the cell's paragraphs.
pub open spec fn col_old_texts(c: CellCtx) -> Seq<Seq<char>> {
    Seq::new(c.pids.len(), |q: int| cell_text(c.ps, c.pids[q]))
}

/// The cell's texts on the row's new lines (empty where a line has no such
/// piece).
pub open spec fn col_new_texts(c: CellCtx) -> Seq<Seq<char>> {
    Seq::new(
        c.nrl.len(),
        |k: int|
            match new_seg(c, k as nat) {
                Some(t) => t,
                None => Seq::empty(),
            },
    )
}

/// The cell was left alone: it has at least as many lines as paragraphs,
/// and its first lines hold the texts of its paragraphs, in any order.
pub open spec fn cell_unchanged(c: CellCtx) -> bool {
    c.nrl.len() >= c.pids.len() && same_counts(col_old_texts(c), col_new_texts(c).take(c.pids.len() as int))
}

/// Edits and deletions for one cell.
pub open spec fn cell_step(c: CellCtx, pl: Plan) -> Plan {
    let nc = c.pids.len();
    let m = c.nrl.len();
    if cell_unchanged(c) {
        pl
    } else {
        let p1 = head_from(c, 0, pl);
        let p2 = if m > nc { tail_from(c, 1, p1) } else { p1 };
        if m < nc {
            Plan { deletes: del_from(c, nc, (nc - m) as nat, p2.deletes), ..p2 }
        } else {
            p2
        }
    }
}

/// The text of the first paragraph with identifier `pid`.
pub fn cell_text_exec(ps: &Vec<Paragraph>, pid: &str) -> (t: String)
    ensures
        t@ == cell_text(paras_view(ps@), pid@),
{
    match crate::save::find_para_exec(ps, pid) {
        Some(i) => {
            assert(paras_view(ps@)[i as int] == ps@[i as int]@);
            paragraph_plain_text(&ps[i])
        },
        None => String::new(),
    }
}

/// Whether `v` holds `s`.
pub fn contains_str(v: &Vec<String>, s: &str) -> (r: bool)
    ensures
        r == strs_view(v@).contains(s@),
{
    let mut k: usize = 0;
    while k < v.len()
        invariant
            k <= v@.len(),
            forall|i: int| 0 <= i < k ==> strs_view(v@)[i] != s@,
        decreases v@.len() - k,
    {
        if same_text(v[k].as_str(), s) {
            assert(strs_view(v@)[k as int] == s@);
            return true;
        }
        k += 1;
    }
    false
}

/// The plan held by the two vectors.
pub open spec fn plan_of(edits: Seq<(String, String, String)>, deletes: Seq<String>) -> Plan {
    Plan { edits: edits_view(edits), deletes: strs_view(deletes) }
}

/// The context of a cell, from the values in memory.
pub open spec fn ctx_of(
    ps: Seq<Paragraph>,
    old: Seq<Vec<char>>,
    new: Seq<Vec<char>>,
    otl: Seq<usize>,
    nrl: Seq<usize>,
    cursor: usize,
    seg: usize,
    pids: Seq<String>,
) -> CellCtx {
    CellCtx {
        ps: paras_view(ps),
        old: lines_view(old),
        new: lines_view(new),
        otl,
        nrl,
        cursor: cursor as nat,
        seg: seg as nat,
        pids: strs_view(pids),
    }
}

/// Whether the old line at `old_slot` of the table reads as the new line
/// at `new_slot` of the row.
fn lines_same_exec(
    old_lines: &Vec<Vec<char>>,
    new_lines: &Vec<Vec<char>>,
    otl: &Vec<usize>,
    nrl: &Vec<usize>,
    cursor: usize,
    slot_in_cell: usize,
    new_slot: usize,
) -> (r: bool)
    requires
        new_slot < nrl@.len(),
        nrl@[new_slot as int] < new_lines@.len(),
        cursor <= otl@.len(),
    ensures
        r == (cursor + slot_in_cell < otl@.len() && otl@[cursor + slot_in_cell] < old_lines@.len()
            && lines_view(old_lines@)[otl@[cursor + slot_in_cell] as int] == lines_view(new_lines@)[nrl@[new_slot as int] as int]),
{
    if slot_in_cell >= otl.len() - cursor {
        return false;
    }
    let o = otl[cursor + slot_in_cell];
    if o >= old_lines.len() {
        return false;
    }
    assert(lines_view(old_lines@)[o as int] == old_lines@[o as int]@);
    assert(lines_view(new_lines@)[nrl@[new_slot as int] as int] == new_lines@[nrl@[new_slot as int] as int]@);
    crate::diff::lines_eq(&old_lines[o], &new_lines[nrl[new_slot]])
}

/// Whether a line below the cell's paragraphs holds `t` in the cell.
fn tail_has_exec(new_lines: &Vec<Vec<char>>, nrl: &Vec<usize>, seg: usize, nc: usize, t: &str, ghost_c: Ghost<CellCtx>) -> (r: bool)
    requires
        ghost_c@.new == lines_view(new_lines@),
        ghost_c@.nrl == nrl@,
        ghost_c@.seg == seg,
        ghost_c@.pids.len() == nc,
        ctx_ok(ghost_c@),
    ensures
        r == tail_has(ghost_c@, t@),
{
    let ghost c = ghost_c@;
    let mut x = nc;
    while x < nrl.len()
        invariant
            c == ghost_c@,
            c.new == lines_view(new_lines@),
            c.nrl == nrl@,
            c.seg == seg,
            c.pids.len() == nc,
            ctx_ok(c),
            nc <= x,
            forall|y: nat| nc <= y < x ==> #[trigger] new_seg(c, y) != Some(t@),
        decreases nrl@.len() - x,
    {
        assert(c.nrl[x as int] < c.new.len());
        assert(c.new[nrl@[x as int] as int] == new_lines@[nrl@[x as int] as int]@);
        match seg_text_exec(&new_lines[nrl[x]], seg) {
            Some(s) => {
                if same_text(s.as_str(), t) {
                    assert(new_seg(c, x as nat) == Some(t@));
                    return true;
                }
            },
            None => {},
        }
        x += 1;
    }
    false
}

/// Removes the edits of paragraph `pid`.
fn drop_edits_for_exec(edits: &mut Vec<(String, String, String)>, pid: &str)
    ensures
        edits_view(final(edits)@) == drop_edits_for(edits_view(old(edits)@), pid@),
{
    let ghost ev = edits_view(edits@);
    let mut kept: Vec<(String, String, String)> = Vec::new();
    let mut k: usize = 0;
    while k < edits.len()
        invariant
            ev == edits_view(edits@),
            k <= edits@.len(),
            edits_view(kept@) == drop_edits_for(ev.take(k as int), pid@),
        decreases edits@.len() - k,
    {
        assert(ev.take(k + 1).drop_last() == ev.take(k as int));
        assert(ev.take(k + 1).last() == ev[k as int]);
        let e = &edits[k];
        if !same_text(e.0.as_str(), pid) {
            let ghost k0 = edits_view(kept@);
            kept.push((e.0.clone(), e.1.clone(), e.2.clone()));
            assert(edits_view(kept@) =~= k0.push(ev[k as int]));
        }
        k += 1;
    }
    assert(ev.take(k as int) == ev);
    *edits = kept;
}

/// Records the edits and deletions that the new lines `nrl` of a table
/// row ask for in one of its cells (see `cell_step`).
pub fn cell_edits(
    ps: &Vec<Paragraph>,
    old_lines: &Vec<Vec<char>>,
    new_lines: &Vec<Vec<char>>,
    otl: &Vec<usize>,
    nrl: &Vec<usize>,
    cursor: usize,
    seg: usize,
    pids: &Vec<String>,
    edits: &mut Vec<(String, String, String)>,
    deletes: &mut Vec<String>,
)
    requires
        cursor <= otl@.len(),
        ctx_ok(ctx_of(ps@, old_lines@, new_lines@, otl@, nrl@, cursor, seg, pids@)),
    ensures
        plan_of(final(edits)@, final(deletes)@) == cell_step(
            ctx_of(ps@, old_lines@, new_lines@, otl@, nrl@, cursor, seg, pids@),
            plan_of(old(edits)@, old(deletes)@),
        ),
{
    let ghost c = ctx_of(ps@, old_lines@, new_lines@, otl@, nrl@, cursor, seg, pids@);
    let ghost pl0 = plan_of(edits@, deletes@);
    let nc = pids.len();
    let m = nrl.len();
    if m >= nc {
        let mut olds: Vec<String> = Vec::new();
        let mut news: Vec<String> = Vec::new();
        let mut q: usize = 0;
        while q < nc
            invariant
                c == ctx_of(ps@, old_lines@, new_lines@, otl@, nrl@, cursor, seg, pids@),
                ctx_ok(c),
                nc == pids@.len(),
                m == nrl@.len(),
                m >= nc,
                q <= nc,
                strs_view(olds@) == col_old_texts(c).take(q as int),
                strs_view(news@) == col_new_texts(c).take(q as int),
            decreases nc - q,
        {
            assert(c.pids[q as int] == pids@[q as int]@);
            let ghost o0 = strs_view(olds@);
            let ghost n0 = strs_view(news@);
            let ot = cell_text_exec(ps, pids[q].as_str());
            assert(ot@ == col_old_texts(c)[q as int]);
            olds.push(ot);
            assert(c.nrl[q as int] < c.new.len());
            assert(c.new[nrl@[q as int] as int] == new_lines@[nrl@[q as int] as int]@);
            let t = match seg_text_exec(&new_lines[nrl[q]], seg) {
                Some(t) => t,
                None => String::new(),
            };
            assert(t@ == col_new_texts(c)[q as int]);
            news.push(t);
            assert(strs_view(olds@) =~= o0.push(col_old_texts(c)[q as int]));
            assert(strs_view(news@) =~= n0.push(col_new_texts(c)[q as int]));
            assert(col_old_texts(c).take(q + 1) =~= col_old_texts(c).take(q as int).push(col_old_texts(c)[q as int]));
            assert(col_new_texts(c).take(q + 1) =~= col_new_texts(c).take(q as int).push(col_new_texts(c)[q as int]));
            q += 1;
        }
        assert(col_old_texts(c).take(nc as int) =~= col_old_texts(c));
        if same_counts_exec(&olds, &news) {
            return;
        }
    }
    assert(!cell_unchanged(c));
    let mut slot: usize = 0;
    while slot < nc
        invariant
            c == ctx_of(ps@, old_lines@, new_lines@, otl@, nrl@, cursor, seg, pids@),
            ctx_ok(c),
            cursor <= otl@.len(),
            nc == pids@.len(),
            m == nrl@.len(),
            slot <= nc,
            head_from(c, slot as nat, plan_of(edits@, deletes@)) == head_from(c, 0, pl0),
        decreases nc - slot,
    {
        let ghost before = plan_of(edits@, deletes@);
        if slot < m {
            assert(c.nrl[slot as int] < c.new.len());
            if !lines_same_exec(old_lines, new_lines, otl, nrl, cursor, slot, slot) {
                assert(c.pids[slot as int] == pids@[slot as int]@);
                let old_text = cell_text_exec(ps, pids[slot].as_str());
                assert(c.new[nrl@[slot as int] as int] == new_lines@[nrl@[slot as int] as int]@);
                match seg_text_exec(&new_lines[nrl[slot]], seg) {
                    Some(nt) => {
                        let wipe = nt.as_str().is_empty() && !old_text.as_str().is_empty() && m > nc
                            && tail_has_exec(new_lines, nrl, seg, nc, old_text.as_str(), Ghost(c));
                        if !same_text(nt.as_str(), old_text.as_str()) && !wipe {
                            let ghost e0 = edits_view(edits@);
                            let ghost ntv = nt@;
                            let ghost otv = old_text@;
                            edits.push((pids[slot].clone(), nt, old_text));
                            assert(edits_view(edits@) =~= e0.push((c.pids[slot as int], ntv, otv)));
                        }
                    },
                    None => {},
                }
            }
        }
        assert(plan_of(edits@, deletes@) == head_step(c, slot as nat, before));
        slot += 1;
    }
    let ghost p1 = plan_of(edits@, deletes@);
    if m > nc {
        let over = m - nc;
        let limit = if over <= nc { over } else { nc };
        assert(limit == tail_count(c));
        let mut k: usize = 1;
        while k <= limit
            invariant
                c == ctx_of(ps@, old_lines@, new_lines@, otl@, nrl@, cursor, seg, pids@),
                ctx_ok(c),
                cursor <= otl@.len(),
                nc == pids@.len(),
                m == nrl@.len(),
                m > nc,
                limit == tail_count(c),
                limit <= nc,
                limit <= m - nc,
                1 <= k <= limit + 1,
                tail_from(c, k as nat, plan_of(edits@, deletes@)) == tail_from(c, 1, p1),
            decreases limit + 1 - k,
        {
            let ghost before = plan_of(edits@, deletes@);
            let bs = m - k;
            let pi = nc - k;
            assert(c.nrl[bs as int] < c.new.len());
            if !lines_same_exec(old_lines, new_lines, otl, nrl, cursor, pi, bs) {
                assert(c.new[nrl@[bs as int] as int] == new_lines@[nrl@[bs as int] as int]@);
                match seg_text_exec(&new_lines[nrl[bs]], seg) {
                    Some(nt) => {
                        if !nt.as_str().is_empty() {
                            assert(c.pids[pi as int] == pids@[pi as int]@);
                            let ot = cell_text_exec(ps, pids[pi].as_str());
                            if !same_text(nt.as_str(), ot.as_str()) {
                                drop_edits_for_exec(edits, pids[pi].as_str());
                                let ghost e0 = edits_view(edits@);
                                let ghost ntv = nt@;
                                let ghost otv = ot@;
                                edits.push((pids[pi].clone(), nt, ot));
                                assert(edits_view(edits@) =~= e0.push((c.pids[pi as int], ntv, otv)));
                            }
                        }
                    },
                    None => {},
                }
            }
            assert(plan_of(edits@, deletes@) == tail_step(c, k as nat, before));
            k += 1;
        }
    }
    let ghost p2 = plan_of(edits@, deletes@);
    if m < nc {
        let mut k = nc;
        let mut need = nc - m;
        while k > 0 && need > 0
            invariant
                c == ctx_of(ps@, old_lines@, new_lines@, otl@, nrl@, cursor, seg, pids@),
                nc == pids@.len(),
                k <= nc,
                edits_view(edits@) == p2.edits,
                del_from(c, k as nat, need as nat, strs_view(deletes@)) == del_from(c, nc as nat, (nc - m) as nat, p2.deletes),
            decreases k,
        {
            assert(c.pids[k - 1] == pids@[k - 1]@);
            let t = cell_text_exec(ps, pids[k - 1].as_str());
            if t.as_str().is_empty() {
                if !contains_str(deletes, pids[k - 1].as_str()) {
                    let ghost d0 = strs_view(deletes@);
                    deletes.push(pids[k - 1].clone());
                    assert(strs_view(deletes@) =~= d0.push(c.pids[k - 1]));
                }
                need -= 1;
            }
            k -= 1;
        }
    }
}

// ---------------------------------------------------------------------
// Sorted sets of numbers
// ---------------------------------------------------------------------

/// The numbers as naturals.
pub open spec fn nats(v: Seq<usize>) -> Seq<nat> {
    v.map_values(|x: usize| x as nat)
}

/// `x` put into the increasing sequence `s` unless it is there.
pub open spec fn ins_sorted(s: Seq<nat>, x: nat) -> Seq<nat>
    decreases s.len(),
{
    if s.len() == 0 {
        seq![x]
    } else if s.last() < x {
        s.push(x)
    } else if s.last() == x {
        s
    } else {
        ins_sorted(s.drop_last(), x).push(s.last())
    }
}

/// Puts `x` into the increasing vector `v` unless it is there.
fn insert_sorted(v: &mut Vec<usize>, x: usize)
    ensures
        nats(final(v)@) == ins_sorted(nats(old(v)@), x as nat),
{
    let ghost s0 = nats(v@);
    let mut k = v.len();
    assert(s0.take(k as int) == s0);
    assert(s0.skip(k as int) =~= Seq::<nat>::empty());
    while k > 0 && v[k - 1] > x
        invariant
            nats(v@) == s0,
            k <= s0.len(),
            ins_sorted(s0, x as nat) == ins_sorted(s0.take(k as int), x as nat) + s0.skip(k as int),
        decreases k,
    {
        assert(s0.take(k as int).drop_last() == s0.take(k - 1));
        assert(s0.take(k as int).last() == s0[k - 1]);
        assert(s0[k - 1] == v@[k - 1] as nat);
        assert(ins_sorted(s0.take(k - 1), x as nat).push(s0[k - 1]) + s0.skip(k as int)
            =~= ins_sorted(s0.take(k - 1), x as nat) + s0.skip(k - 1));
        k -= 1;
    }
    if k > 0 {
        assert(s0.take(k as int).last() == s0[k - 1]);
        assert(s0[k - 1] == v@[k - 1] as nat);
        if v[k - 1] == x {
            assert(ins_sorted(s0.take(k as int), x as nat) == s0.take(k as int));
            assert(s0.take(k as int) + s0.skip(k as int) =~= s0);
            return;
        }
    }
    assert(ins_sorted(s0.take(k as int), x as nat) == s0.take(k as int).push(x as nat));
    v.insert(k, x);
    assert(nats(v@) =~= s0.take(k as int).push(x as nat) + s0.skip(k as int));
}

// ---------------------------------------------------------------------
// Tables, rows and cells of the document
// ---------------------------------------------------------------------

/// Number of tables that start among `ps[..i]`: a table starts at a cell
/// paragraph that does not follow a cell paragraph.
pub open spec fn starts_before(ps: Seq<ParaV>, i: nat) -> nat
    decreases i,
{
    if i == 0 {
        0
    } else {
        starts_before(ps, (i - 1) as nat) + (if is_cell(ps[i - 1]) && (i == 1 || !is_cell(ps[i - 2])) {
            1nat
        } else {
            0nat
        })
    }
}

/// The table of paragraph `i`, counted from 1 in document order; 0 for a
/// paragraph outside tables.
pub open spec fn table_no(ps: Seq<ParaV>, i: nat) -> nat {
    if is_cell(ps[i as int]) { starts_before(ps, i + 1) } else { 0 }
}

/// The rows of table `t` among `ps[..i]`, increasing, each once.
pub open spec fn rows_upto(ps: Seq<ParaV>, t: nat, i: nat) -> Seq<nat>
    decreases i,
{
    if i == 0 {
        Seq::empty()
    } else {
        let r = rows_upto(ps, t, (i - 1) as nat);
        if table_no(ps, (i - 1) as nat) == t { ins_sorted(r, row_of(ps[i - 1]) as nat) } else { r }
    }
}

/// The columns of row `row` of table `t` among `ps[..i]`, increasing,
/// each once.
pub open spec fn cols_upto(ps: Seq<ParaV>, t: nat, row: nat, i: nat) -> Seq<nat>
    decreases i,
{
    if i == 0 {
        Seq::empty()
    } else {
        let r = cols_upto(ps, t, row, (i - 1) as nat);
        if table_no(ps, (i - 1) as nat) == t && row_of(ps[i - 1]) as nat == row {
            ins_sorted(r, col_of(ps[i - 1]) as nat)
        } else {
            r
        }
    }
}

/// The identifiers of the paragraphs of cell `(row, col)` of table `t`
/// among `ps[..i]`, in document order.
pub open spec fn cell_pids_upto(ps: Seq<ParaV>, t: nat, row: nat, col: nat, i: nat) -> Seq<Seq<char>>
    decreases i,
{
    if i == 0 {
        Seq::empty()
    } else {
        let r = cell_pids_upto(ps, t, row, col, (i - 1) as nat);
        if table_no(ps, (i - 1) as nat) == t && row_of(ps[i - 1]) as nat == row && col_of(ps[i - 1]) as nat
            == col {
            r.push(ps[i - 1].id)
        } else {
            r
        }
    }
}

/// The most paragraphs a cell of the given columns of a row has.
pub open spec fn max_paras(ps: Seq<ParaV>, t: nat, row: nat, cols: Seq<nat>) -> nat
    decreases cols.len(),
{
    if cols.len() == 0 {
        0
    } else {
        let rest = max_paras(ps, t, row, cols.drop_last());
        let here = cell_pids_upto(ps, t, row, cols.last(), ps.len()).len();
        if here > rest { here } else { rest }
    }
}

/// Where the matching of a table stands: the plan, and the next old and
/// new lines of the table.
pub struct RowPos {
    pub plan: Plan,
    pub old_cursor: nat,
    pub new_cursor: nat,
}

/// What the matching of a table sees besides its rows.
pub struct TableCtx {
    pub ps: Seq<ParaV>,
    pub old: Seq<Seq<char>>,
    pub new: Seq<Seq<char>>,
    pub t: nat,
    pub otl: Seq<usize>,
    pub ntl: Seq<usize>,
}

/// The cells `cols[k..]` of a row.
pub open spec fn cols_from(tc: TableCtx, row: nat, cols: Seq<nat>, k: nat, nrl: Seq<usize>, cursor: nat, pl: Plan) -> Plan
    decreases cols.len() - k,
{
    if k >= cols.len() {
        pl
    } else {
        let c = CellCtx {
            ps: tc.ps,
            old: tc.old,
            new: tc.new,
            otl: tc.otl,
            nrl,
            cursor,
            seg: cols[k as int] + 1,
            pids: cell_pids_upto(tc.ps, tc.t, row, cols[k as int], tc.ps.len()),
        };
        cols_from(tc, row, cols, k + 1, nrl, cursor, cell_step(c, pl))
    }
}

/// One row of a table: its old lines are the next ones of the table, as
/// many as its fullest cell has paragraphs; its new lines likewise, except
/// that the last row takes all new lines that are left.
pub open spec fn row_step_plan(tc: TableCtx, row: nat, last: bool, pos: RowPos) -> RowPos {
    let cols = cols_upto(tc.ps, tc.t, row, tc.ps.len());
    let mp = max_paras(tc.ps, tc.t, row, cols);
    let old_end: nat = if pos.old_cursor + mp <= tc.otl.len() { pos.old_cursor + mp } else { tc.otl.len() };
    let new_end: nat = if last {
        tc.ntl.len()
    } else if pos.new_cursor + mp <= tc.ntl.len() {
        pos.new_cursor + mp
    } else {
        tc.ntl.len()
    };
    let nrl = tc.ntl.subrange(pos.new_cursor as int, new_end as int);
    RowPos {
        plan: cols_from(tc, row, cols, 0, nrl, pos.old_cursor, pos.plan),
        old_cursor: old_end,
        new_cursor: new_end,
    }
}

/// The rows `rows[k..]` of a table.
pub open spec fn rows_from(tc: TableCtx, rows: Seq<nat>, k: nat, pos: RowPos) -> RowPos
    decreases rows.len() - k,
{
    if k >= rows.len() {
        pos
    } else {
        rows_from(tc, rows, k + 1, row_step_plan(tc, rows[k as int], k + 1 == rows.len(), pos))
    }
}

/// The edits and deletions a table asks for.
pub open spec fn table_plan(tc: TableCtx, pl: Plan) -> Plan {
    rows_from(tc, rows_upto(tc.ps, tc.t, tc.ps.len()), 0, RowPos { plan: pl, old_cursor: 0, new_cursor: 0 }).plan
}

// ---------------------------------------------------------------------
// Tables of the old and of the new buffer
// ---------------------------------------------------------------------

/// The table of the last cell paragraph with identifier `pid` among
/// `ps[..i]`.
pub open spec fn table_of_pid(ps: Seq<ParaV>, pid: Seq<char>, i: nat) -> Option<nat>
    decreases i,
{
    if i == 0 {
        None
    } else if is_cell(ps[i - 1]) && ps[i - 1].id == pid {
        Some(table_no(ps, (i - 1) as nat))
    } else {
        table_of_pid(ps, pid, (i - 1) as nat)
    }
}

/// The old buffer lines (0-based) that show table cells, increasing.
pub open spec fn cell_lines(cm: Seq<(nat, u32, nat, nat, Seq<char>)>) -> Seq<nat>
    decreases cm.len(),
{
    if cm.len() == 0 {
        Seq::empty()
    } else if cm.last().0 >= 1 {
        ins_sorted(cell_lines(cm.drop_last()), (cm.last().0 - 1) as nat)
    } else {
        cell_lines(cm.drop_last())
    }
}

/// The table shown on old line `l`: that of the paragraph of its first
/// cell.
pub open spec fn table_of_line(ps: Seq<ParaV>, cm: Seq<(nat, u32, nat, nat, Seq<char>)>, l: nat) -> Option<nat> {
    match first_cell_pid(cm, l + 1) {
        Some(pid) => table_of_pid(ps, pid, ps.len()),
        None => None,
    }
}

/// The lines of `lines` that show table `t`.
pub open spec fn lines_of_table(ps: Seq<ParaV>, cm: Seq<(nat, u32, nat, nat, Seq<char>)>, lines: Seq<nat>, t: nat) -> Seq<nat>
    decreases lines.len(),
{
    if lines.len() == 0 {
        Seq::empty()
    } else {
        let r = lines_of_table(ps, cm, lines.drop_last(), t);
        if table_of_line(ps, cm, lines.last()) == Some(t) { r.push(lines.last()) } else { r }
    }
}

/// The tables shown on `lines`, increasing, each once.
pub open spec fn tables_shown(ps: Seq<ParaV>, cm: Seq<(nat, u32, nat, nat, Seq<char>)>, lines: Seq<nat>) -> Seq<nat>
    decreases lines.len(),
{
    if lines.len() == 0 {
        Seq::empty()
    } else {
        let r = tables_shown(ps, cm, lines.drop_last());
        match table_of_line(ps, cm, lines.last()) {
            Some(t) => ins_sorted(r, t),
            None => r,
        }
    }
}

/// A new line that belongs to a drawn table: a cell line or a border.
pub open spec fn is_table_line(l: Seq<char>) -> bool {
    l.len() > 0 && (l[0] == '│' || l[0] == '┌' || l[0] == '└' || l[0] == '├')
}

/// The groups of cell lines of the new buffer from line `i` on: cell lines
/// (starting with `│`) gather, borders keep a group open, any other line
/// closes it. `cur` is the open group.
pub open spec fn groups_from(new: Seq<Seq<char>>, i: nat, cur: Seq<usize>) -> Seq<Seq<usize>>
    decreases new.len() - i,
{
    if i >= new.len() {
        if cur.len() > 0 { seq![cur] } else { Seq::empty() }
    } else if is_table_line(new[i as int]) {
        groups_from(new, i + 1, if new[i as int][0] == '│' { cur.push(i as usize) } else { cur })
    } else if cur.len() > 0 {
        seq![cur] + groups_from(new, i + 1, Seq::empty())
    } else {
        groups_from(new, i + 1, Seq::empty())
    }
}

/// The tables `tids[k..]`, the `k`-th of them matched with the `k`-th group
/// of new table lines.
pub open spec fn tables_from(
    ps: Seq<ParaV>,
    cm: Seq<(nat, u32, nat, nat, Seq<char>)>,
    old: Seq<Seq<char>>,
    new: Seq<Seq<char>>,
    tids: Seq<nat>,
    groups: Seq<Seq<usize>>,
    k: nat,
    pl: Plan,
) -> Plan
    decreases tids.len() - k,
{
    if k >= tids.len() {
        pl
    } else if k >= groups.len() {
        tables_from(ps, cm, old, new, tids, groups, k + 1, pl)
    } else {
        let t = tids[k as int];
        let tc = TableCtx {
            ps,
            old,
            new,
            t,
            otl: lines_of_table(ps, cm, cell_lines(cm), t).map_values(|l: nat| l as usize),
            ntl: groups[k as int],
        };
        tables_from(ps, cm, old, new, tids, groups, k + 1, table_plan(tc, pl))
    }
}

/// The edits and deletions that the tables of the buffer ask for.
pub open spec fn tables_plan(
    ps: Seq<ParaV>,
    cm: Seq<(nat, u32, nat, nat, Seq<char>)>,
    old: Seq<Seq<char>>,
    new: Seq<Seq<char>>,
    pl: Plan,
) -> Plan {
    tables_from(ps, cm, old, new, tables_shown(ps, cm, cell_lines(cm)), groups_from(new, 0, Seq::empty()), 0, pl)
}

// ---------------------------------------------------------------------
// Tables, in memory
// ---------------------------------------------------------------------

/// The elements stay below a bound when one below it is added.
proof fn lemma_ins_sorted_below(s: Seq<nat>, x: nat, b: nat)
    requires
        forall|i: int| 0 <= i < s.len() ==> s[i] < b,
        x < b,
    ensures
        forall|i: int| 0 <= i < ins_sorted(s, x).len() ==> #[trigger] ins_sorted(s, x)[i] < b,
    decreases s.len(),
{
    if s.len() > 0 && s.last() > x {
        lemma_ins_sorted_below(s.drop_last(), x, b);
        let r = ins_sorted(s.drop_last(), x);
        assert forall|i: int| 0 <= i < r.push(s.last()).len() implies #[trigger] r.push(s.last())[i] < b by {
            if i < r.len() {
                assert(r.push(s.last())[i] == r[i]);
            }
        }
    }
}

/// The table of every paragraph.
fn table_numbers(ps: &Vec<Paragraph>) -> (v: Vec<usize>)
    ensures
        v@.len() == ps@.len(),
        forall|i: int| 0 <= i < ps@.len() ==> (#[trigger] v@[i]) as nat == table_no(paras_view(ps@), i as nat),
{
    let ghost pv = paras_view(ps@);
    let mut v: Vec<usize> = Vec::new();
    let mut count: usize = 0;
    let mut last_cell = false;
    let mut i: usize = 0;
    while i < ps.len()
        invariant
            pv == paras_view(ps@),
            i <= ps@.len(),
            v@.len() == i,
            count == starts_before(pv, i as nat),
            count <= i,
            last_cell == (i > 0 && is_cell(pv[i - 1])),
            forall|k: int| 0 <= k < i ==> (#[trigger] v@[k]) as nat == table_no(pv, k as nat),
        decreases ps@.len() - i,
    {
        assert(pv[i as int] == ps@[i as int]@);
        let cell = match ps[i].context {
            crate::model::ParaContext::TableCell { .. } => true,
            _ => false,
        };
        if cell && !last_cell {
            count += 1;
        }
        v.push(if cell { count } else { 0 });
        last_cell = cell;
        i += 1;
    }
    v
}

/// The identifiers of the paragraphs of cell `(row, col)` of table `t`.
fn cell_pids_exec(ps: &Vec<Paragraph>, tids: &Vec<usize>, t: usize, row: usize, col: usize) -> (r: Vec<String>)
    requires
        tids@.len() == ps@.len(),
        forall|i: int| 0 <= i < ps@.len() ==> (#[trigger] tids@[i]) as nat == table_no(paras_view(ps@), i as nat),
    ensures
        strs_view(r@) == cell_pids_upto(paras_view(ps@), t as nat, row as nat, col as nat, ps@.len()),
{
    let ghost pv = paras_view(ps@);
    let mut r: Vec<String> = Vec::new();
    let mut i: usize = 0;
    while i < ps.len()
        invariant
            pv == paras_view(ps@),
            tids@.len() == ps@.len(),
            forall|k: int| 0 <= k < ps@.len() ==> (#[trigger] tids@[k]) as nat == table_no(pv, k as nat),
            i <= ps@.len(),
            strs_view(r@) == cell_pids_upto(pv, t as nat, row as nat, col as nat, i as nat),
        decreases ps@.len() - i,
    {
        assert(pv[i as int] == ps@[i as int]@);
        let _ = tids[i];
        let info = crate::render::cell_info(&ps[i]);
        if tids[i] == t && info.2 as usize == row && info.1 as usize == col {
            let ghost r0 = strs_view(r@);
            r.push(ps[i].id.clone());
            assert(strs_view(r@) =~= r0.push(pv[i as int].id));
        }
        i += 1;
    }
    r
}

/// The rows of table `t`, increasing.
fn rows_exec(ps: &Vec<Paragraph>, tids: &Vec<usize>, t: usize) -> (r: Vec<usize>)
    requires
        tids@.len() == ps@.len(),
        forall|i: int| 0 <= i < ps@.len() ==> (#[trigger] tids@[i]) as nat == table_no(paras_view(ps@), i as nat),
    ensures
        nats(r@) == rows_upto(paras_view(ps@), t as nat, ps@.len()),
{
    let ghost pv = paras_view(ps@);
    let mut r: Vec<usize> = Vec::new();
    let mut i: usize = 0;
    assert(nats(r@) =~= rows_upto(pv, t as nat, 0));
    while i < ps.len()
        invariant
            pv == paras_view(ps@),
            tids@.len() == ps@.len(),
            forall|k: int| 0 <= k < ps@.len() ==> (#[trigger] tids@[k]) as nat == table_no(pv, k as nat),
            i <= ps@.len(),
            nats(r@) == rows_upto(pv, t as nat, i as nat),
        decreases ps@.len() - i,
    {
        assert(pv[i as int] == ps@[i as int]@);
        let _ = tids[i];
        if tids[i] == t {
            let info = crate::render::cell_info(&ps[i]);
            insert_sorted(&mut r, info.2 as usize);
        }
        i += 1;
    }
    r
}

/// The columns of row `row` of table `t`, increasing.
fn cols_exec(ps: &Vec<Paragraph>, tids: &Vec<usize>, t: usize, row: usize) -> (r: Vec<usize>)
    requires
        tids@.len() == ps@.len(),
        forall|i: int| 0 <= i < ps@.len() ==> (#[trigger] tids@[i]) as nat == table_no(paras_view(ps@), i as nat),
        forall|i: int| 0 <= i < ps@.len() ==> crate::render::col_of(#[trigger] paras_view(ps@)[i]) < usize::MAX,
    ensures
        nats(r@) == cols_upto(paras_view(ps@), t as nat, row as nat, ps@.len()),
        forall|k: int| 0 <= k < r@.len() ==> #[trigger] r@[k] < usize::MAX,
{
    let ghost pv = paras_view(ps@);
    let mut r: Vec<usize> = Vec::new();
    let mut i: usize = 0;
    assert(nats(r@) =~= cols_upto(pv, t as nat, row as nat, 0));
    while i < ps.len()
        invariant
            pv == paras_view(ps@),
            tids@.len() == ps@.len(),
            forall|k: int| 0 <= k < ps@.len() ==> (#[trigger] tids@[k]) as nat == table_no(pv, k as nat),
            forall|k: int| 0 <= k < ps@.len() ==> crate::render::col_of(#[trigger] pv[k]) < usize::MAX,
            i <= ps@.len(),
            nats(r@) == cols_upto(pv, t as nat, row as nat, i as nat),
            forall|k: int| 0 <= k < r@.len() ==> #[trigger] r@[k] < usize::MAX,
        decreases ps@.len() - i,
    {
        assert(pv[i as int] == ps@[i as int]@);
        let _ = tids[i];
        let info = crate::render::cell_info(&ps[i]);
        if tids[i] == t && info.2 as usize == row {
            proof {
                assert forall|k: int| 0 <= k < nats(r@).len() implies nats(r@)[k] < usize::MAX by {
                    assert(nats(r@)[k] == r@[k] as nat);
                }
                lemma_ins_sorted_below(nats(r@), info.1 as nat, usize::MAX as nat);
            }
            insert_sorted(&mut r, info.1 as usize);
            proof {
                assert forall|k: int| 0 <= k < r@.len() implies #[trigger] r@[k] < usize::MAX by {
                    assert(nats(r@)[k] == r@[k] as nat);
                }
            }
        }
        i += 1;
    }
    r
}

/// The most paragraphs a cell of the row has.
fn max_paras_exec(ps: &Vec<Paragraph>, tids: &Vec<usize>, t: usize, row: usize, cols: &Vec<usize>) -> (mp: usize)
    requires
        tids@.len() == ps@.len(),
        forall|i: int| 0 <= i < ps@.len() ==> (#[trigger] tids@[i]) as nat == table_no(paras_view(ps@), i as nat),
    ensures
        mp == max_paras(paras_view(ps@), t as nat, row as nat, nats(cols@)),
{
    let ghost pv = paras_view(ps@);
    let ghost cv = nats(cols@);
    let mut mp: usize = 0;
    let mut k: usize = 0;
    while k < cols.len()
        invariant
            pv == paras_view(ps@),
            cv == nats(cols@),
            tids@.len() == ps@.len(),
            forall|i: int| 0 <= i < ps@.len() ==> (#[trigger] tids@[i]) as nat == table_no(pv, i as nat),
            k <= cols@.len(),
            mp == max_paras(pv, t as nat, row as nat, cv.take(k as int)),
        decreases cols@.len() - k,
    {
        assert(cv.take(k + 1).drop_last() == cv.take(k as int));
        assert(cv.take(k + 1).last() == cols@[k as int] as nat);
        let pids = cell_pids_exec(ps, tids, t, row, cols[k]);
        if pids.len() > mp {
            mp = pids.len();
        }
        k += 1;
    }
    assert(cv.take(k as int) == cv);
    mp
}

/// The table context of a table in memory.
pub open spec fn tctx_of(
    ps: Seq<Paragraph>,
    old: Seq<Vec<char>>,
    new: Seq<Vec<char>>,
    t: usize,
    otl: Seq<usize>,
    ntl: Seq<usize>,
) -> TableCtx {
    TableCtx { ps: paras_view(ps), old: lines_view(old), new: lines_view(new), t: t as nat, otl, ntl }
}

/// What a table edit needs of its inputs: the table numbers are those of
/// the paragraphs, columns leave room for the piece index, and the new
/// table lines are lines of the new buffer.
pub open spec fn table_inputs_ok(ps: Seq<Paragraph>, tids: Seq<usize>, new: Seq<Vec<char>>, ntl: Seq<usize>) -> bool {
    &&& tids.len() == ps.len()
    &&& forall|i: int| 0 <= i < ps.len() ==> (#[trigger] tids[i]) as nat == table_no(paras_view(ps), i as nat)
    &&& forall|i: int| 0 <= i < ps.len() ==> crate::render::col_of(#[trigger] paras_view(ps)[i]) < usize::MAX
    &&& forall|k: int| 0 <= k < ntl.len() ==> (#[trigger] ntl[k]) < new.len()
}

/// Edits and deletions of one row of a table; returns the next old and
/// new line of the table.
fn row_edits(
    ps: &Vec<Paragraph>,
    tids: &Vec<usize>,
    old_lines: &Vec<Vec<char>>,
    new_lines: &Vec<Vec<char>>,
    otl: &Vec<usize>,
    ntl: &Vec<usize>,
    t: usize,
    row: usize,
    last: bool,
    old_cursor: usize,
    new_cursor: usize,
    edits: &mut Vec<(String, String, String)>,
    deletes: &mut Vec<String>,
) -> (r: (usize, usize))
    requires
        table_inputs_ok(ps@, tids@, new_lines@, ntl@),
        old_cursor <= otl@.len(),
        new_cursor <= ntl@.len(),
    ensures
        ({
            let pos = row_step_plan(
                tctx_of(ps@, old_lines@, new_lines@, t, otl@, ntl@),
                row as nat,
                last,
                RowPos { plan: plan_of(old(edits)@, old(deletes)@), old_cursor: old_cursor as nat, new_cursor: new_cursor as nat },
            );
            plan_of(final(edits)@, final(deletes)@) == pos.plan && r.0 == pos.old_cursor && r.1 == pos.new_cursor
        }),
        r.0 <= otl@.len(),
        r.1 <= ntl@.len(),
{
    let ghost tc = tctx_of(ps@, old_lines@, new_lines@, t, otl@, ntl@);
    let ghost pl0 = plan_of(edits@, deletes@);
    let cols = cols_exec(ps, tids, t, row);
    let mp = max_paras_exec(ps, tids, t, row, &cols);
    let old_end = if mp <= otl.len() - old_cursor { old_cursor + mp } else { otl.len() };
    let new_end = if last {
        ntl.len()
    } else if mp <= ntl.len() - new_cursor {
        new_cursor + mp
    } else {
        ntl.len()
    };
    let mut nrl: Vec<usize> = Vec::new();
    let mut q = new_cursor;
    while q < new_end
        invariant
            new_cursor <= q <= new_end <= ntl@.len(),
            nrl@ == ntl@.subrange(new_cursor as int, q as int),
        decreases new_end - q,
    {
        nrl.push(ntl[q]);
        q += 1;
        assert(nrl@ =~= ntl@.subrange(new_cursor as int, q as int));
    }
    let ghost cv = nats(cols@);
    let mut k: usize = 0;
    while k < cols.len()
        invariant
            tc == tctx_of(ps@, old_lines@, new_lines@, t, otl@, ntl@),
            cv == nats(cols@),
            cv == cols_upto(tc.ps, t as nat, row as nat, ps@.len()),
            table_inputs_ok(ps@, tids@, new_lines@, ntl@),
            forall|x: int| 0 <= x < cols@.len() ==> #[trigger] cols@[x] < usize::MAX,
            nrl@ == ntl@.subrange(new_cursor as int, new_end as int),
            new_cursor <= new_end <= ntl@.len(),
            old_cursor <= otl@.len(),
            k <= cols@.len(),
            cols_from(tc, row as nat, cv, k as nat, nrl@, old_cursor as nat, plan_of(edits@, deletes@))
                == cols_from(tc, row as nat, cv, 0, nrl@, old_cursor as nat, pl0),
        decreases cols@.len() - k,
    {
        let col = cols[k];
        assert(cv[k as int] == col as nat);
        let pids = cell_pids_exec(ps, tids, t, row, col);
        proof {
            let c = ctx_of(ps@, old_lines@, new_lines@, otl@, nrl@, old_cursor, (col + 1) as usize, pids@);
            assert forall|x: int| 0 <= x < c.nrl.len() implies (#[trigger] c.nrl[x]) < c.new.len() by {
                assert(c.nrl[x] == ntl@[new_cursor + x]);
            }
        }
        cell_edits(ps, old_lines, new_lines, otl, &nrl, old_cursor, col + 1, &pids, edits, deletes);
        k += 1;
    }
    (old_end, new_end)
}

/// Edits and deletions of one table.
fn table_edits(
    ps: &Vec<Paragraph>,
    tids: &Vec<usize>,
    old_lines: &Vec<Vec<char>>,
    new_lines: &Vec<Vec<char>>,
    otl: &Vec<usize>,
    ntl: &Vec<usize>,
    t: usize,
    edits: &mut Vec<(String, String, String)>,
    deletes: &mut Vec<String>,
)
    requires
        table_inputs_ok(ps@, tids@, new_lines@, ntl@),
    ensures
        plan_of(final(edits)@, final(deletes)@) == table_plan(
            tctx_of(ps@, old_lines@, new_lines@, t, otl@, ntl@),
            plan_of(old(edits)@, old(deletes)@),
        ),
{
    let ghost tc = tctx_of(ps@, old_lines@, new_lines@, t, otl@, ntl@);
    let ghost pl0 = plan_of(edits@, deletes@);
    let rows = rows_exec(ps, tids, t);
    let ghost rv = nats(rows@);
    let mut oc: usize = 0;
    let mut nc: usize = 0;
    let mut k: usize = 0;
    while k < rows.len()
        invariant
            tc == tctx_of(ps@, old_lines@, new_lines@, t, otl@, ntl@),
            rv == nats(rows@),
            rv == rows_upto(tc.ps, t as nat, ps@.len()),
            table_inputs_ok(ps@, tids@, new_lines@, ntl@),
            oc <= otl@.len(),
            nc <= ntl@.len(),
            k <= rows@.len(),
            rows_from(tc, rv, k as nat, RowPos { plan: plan_of(edits@, deletes@), old_cursor: oc as nat, new_cursor: nc as nat })
                == rows_from(tc, rv, 0, RowPos { plan: pl0, old_cursor: 0, new_cursor: 0 }),
        decreases rows@.len() - k,
    {
        assert(rv[k as int] == rows@[k as int] as nat);
        let r = row_edits(ps, tids, old_lines, new_lines, otl, ntl, t, rows[k], k + 1 == rows.len(), oc, nc, edits, deletes);
        oc = r.0;
        nc = r.1;
        k += 1;
    }
}

/// The table of the last cell paragraph with identifier `pid`.
fn table_of_pid_exec(ps: &Vec<Paragraph>, tids: &Vec<usize>, pid: &str) -> (r: Option<usize>)
    requires
        tids@.len() == ps@.len(),
        forall|i: int| 0 <= i < ps@.len() ==> (#[trigger] tids@[i]) as nat == table_no(paras_view(ps@), i as nat),
    ensures
        match r {
            Some(t) => table_of_pid(paras_view(ps@), pid@, ps@.len()) == Some(t as nat),
            None => table_of_pid(paras_view(ps@), pid@, ps@.len()) is None,
        },
{
    let ghost pv = paras_view(ps@);
    let mut i = ps.len();
    while i > 0
        invariant
            pv == paras_view(ps@),
            tids@.len() == ps@.len(),
            forall|k: int| 0 <= k < ps@.len() ==> (#[trigger] tids@[k]) as nat == table_no(pv, k as nat),
            i <= ps@.len(),
            table_of_pid(pv, pid@, ps@.len()) == table_of_pid(pv, pid@, i as nat),
        decreases i,
    {
        assert(pv[i - 1] == ps@[i - 1]@);
        let info = crate::render::cell_info(&ps[i - 1]);
        if info.0 && same_text(ps[i - 1].id.as_str(), pid) {
            let _ = tids[i - 1];
            return Some(tids[i - 1]);
        }
        i -= 1;
    }
    None
}

/// The old buffer lines that show table cells, increasing.
fn cell_lines_exec(cm: &Vec<(usize, u32, usize, usize, String)>) -> (r: Vec<usize>)
    ensures
        nats(r@) == cell_lines(crate::render::cmap_view(cm@)),
{
    let ghost v = crate::render::cmap_view(cm@);
    let mut r: Vec<usize> = Vec::new();
    let mut k: usize = 0;
    assert(nats(r@) =~= cell_lines(v.take(0)));
    while k < cm.len()
        invariant
            v == crate::render::cmap_view(cm@),
            k <= cm@.len(),
            nats(r@) == cell_lines(v.take(k as int)),
        decreases cm@.len() - k,
    {
        assert(v.take(k + 1).drop_last() == v.take(k as int));
        assert(v.take(k + 1).last() == v[k as int]);
        let l = cm[k].0;
        if l >= 1 {
            insert_sorted(&mut r, l - 1);
        }
        k += 1;
    }
    assert(v.take(k as int) == v);
    r
}

/// The table shown on old line `l`.
fn table_of_line_exec(ps: &Vec<Paragraph>, tids: &Vec<usize>, cm: &Vec<(usize, u32, usize, usize, String)>, l: usize) -> (r: Option<usize>)
    requires
        tids@.len() == ps@.len(),
        forall|i: int| 0 <= i < ps@.len() ==> (#[trigger] tids@[i]) as nat == table_no(paras_view(ps@), i as nat),
    ensures
        match r {
            Some(t) => table_of_line(paras_view(ps@), crate::render::cmap_view(cm@), l as nat) == Some(t as nat),
            None => table_of_line(paras_view(ps@), crate::render::cmap_view(cm@), l as nat) is None,
        },
{
    match crate::save::first_cell_pid_exec(cm, l) {
        Some(pid) => table_of_pid_exec(ps, tids, pid.as_str()),
        None => None,
    }
}

/// The lines of `lines` that show table `t`.
fn lines_of_table_exec(
    ps: &Vec<Paragraph>,
    tids: &Vec<usize>,
    cm: &Vec<(usize, u32, usize, usize, String)>,
    lines: &Vec<usize>,
    t: usize,
) -> (r: Vec<usize>)
    requires
        tids@.len() == ps@.len(),
        forall|i: int| 0 <= i < ps@.len() ==> (#[trigger] tids@[i]) as nat == table_no(paras_view(ps@), i as nat),
    ensures
        r@ == lines_of_table(paras_view(ps@), crate::render::cmap_view(cm@), nats(lines@), t as nat).map_values(|l: nat| l as usize),
{
    let ghost pv = paras_view(ps@);
    let ghost cv = crate::render::cmap_view(cm@);
    let ghost lv = nats(lines@);
    let mut r: Vec<usize> = Vec::new();
    let mut k: usize = 0;
    while k < lines.len()
        invariant
            pv == paras_view(ps@),
            cv == crate::render::cmap_view(cm@),
            lv == nats(lines@),
            tids@.len() == ps@.len(),
            forall|i: int| 0 <= i < ps@.len() ==> (#[trigger] tids@[i]) as nat == table_no(pv, i as nat),
            k <= lines@.len(),
            nats(r@) == lines_of_table(pv, cv, lv.take(k as int), t as nat),
        decreases lines@.len() - k,
    {
        assert(lv.take(k + 1).drop_last() == lv.take(k as int));
        assert(lv.take(k + 1).last() == lines@[k as int] as nat);
        match table_of_line_exec(ps, tids, cm, lines[k]) {
            Some(x) => {
                if x == t {
                    let ghost r0 = nats(r@);
                    r.push(lines[k]);
                    assert(nats(r@) =~= r0.push(lines@[k as int] as nat));
                }
            },
            None => {},
        }
        k += 1;
    }
    assert(lv.take(k as int) == lv);
    assert(r@ =~= nats(r@).map_values(|l: nat| l as usize));
    r
}

/// The tables shown on `lines`, increasing.
fn tables_shown_exec(
    ps: &Vec<Paragraph>,
    tids: &Vec<usize>,
    cm: &Vec<(usize, u32, usize, usize, String)>,
    lines: &Vec<usize>,
) -> (r: Vec<usize>)
    requires
        tids@.len() == ps@.len(),
        forall|i: int| 0 <= i < ps@.len() ==> (#[trigger] tids@[i]) as nat == table_no(paras_view(ps@), i as nat),
    ensures
        nats(r@) == tables_shown(paras_view(ps@), crate::render::cmap_view(cm@), nats(lines@)),
{
    let ghost pv = paras_view(ps@);
    let ghost cv = crate::render::cmap_view(cm@);
    let ghost lv = nats(lines@);
    let mut r: Vec<usize> = Vec::new();
    let mut k: usize = 0;
    assert(nats(r@) =~= tables_shown(pv, cv, lv.take(0)));
    while k < lines.len()
        invariant
            pv == paras_view(ps@),
            cv == crate::render::cmap_view(cm@),
            lv == nats(lines@),
            tids@.len() == ps@.len(),
            forall|i: int| 0 <= i < ps@.len() ==> (#[trigger] tids@[i]) as nat == table_no(pv, i as nat),
            k <= lines@.len(),
            nats(r@) == tables_shown(pv, cv, lv.take(k as int)),
        decreases lines@.len() - k,
    {
        assert(lv.take(k + 1).drop_last() == lv.take(k as int));
        assert(lv.take(k + 1).last() == lines@[k as int] as nat);
        match table_of_line_exec(ps, tids, cm, lines[k]) {
            Some(x) => insert_sorted(&mut r, x),
            None => {},
        }
        k += 1;
    }
    assert(lv.take(k as int) == lv);
    r
}

/// The views of groups of line indices.
pub open spec fn groups_view(g: Seq<Vec<usize>>) -> Seq<Seq<usize>> {
    g.map_values(|v: Vec<usize>| v@)
}

/// The groups of cell lines of the new buffer.
fn groups_exec(new_lines: &Vec<Vec<char>>) -> (g: Vec<Vec<usize>>)
    ensures
        groups_view(g@) == groups_from(lines_view(new_lines@), 0, Seq::empty()),
        forall|k: int, x: int| 0 <= k < g@.len() && 0 <= x < g@[k]@.len() ==> #[trigger] g@[k]@[x] < new_lines@.len(),
{
    let ghost nv = lines_view(new_lines@);
    let mut g: Vec<Vec<usize>> = Vec::new();
    let mut cur: Vec<usize> = Vec::new();
    let mut i: usize = 0;
    while i < new_lines.len()
        invariant
            nv == lines_view(new_lines@),
            i <= new_lines@.len(),
            groups_from(nv, 0, Seq::empty()) == groups_view(g@) + groups_from(nv, i as nat, cur@),
            forall|k: int, x: int| 0 <= k < g@.len() && 0 <= x < g@[k]@.len() ==> #[trigger] g@[k]@[x] < new_lines@.len(),
            forall|x: int| 0 <= x < cur@.len() ==> #[trigger] cur@[x] < i,
        decreases new_lines@.len() - i,
    {
        let line = &new_lines[i];
        assert(nv[i as int] == line@);
        let table_line = line.len() > 0 && (line[0] == '│' || line[0] == '┌' || line[0] == '└' || line[0] == '├');
        if table_line {
            if line[0] == '│' {
                cur.push(i);
            }
        } else if cur.len() > 0 {
            let ghost g0 = groups_view(g@);
            let ghost c0 = cur@;
            g.push(cur);
            cur = Vec::new();
            assert(groups_view(g@) =~= g0.push(c0));
            assert(g0 + (seq![c0] + groups_from(nv, (i + 1) as nat, Seq::empty())) =~= g0.push(c0)
                + groups_from(nv, (i + 1) as nat, cur@));
        } else {
            assert(cur@ =~= Seq::<usize>::empty());
        }
        i += 1;
    }
    if cur.len() > 0 {
        let ghost g0 = groups_view(g@);
        let ghost c0 = cur@;
        g.push(cur);
        assert(groups_view(g@) =~= g0.push(c0));
    } else {
        assert(groups_view(g@) + Seq::<Seq<usize>>::empty() =~= groups_view(g@));
    }
    g
}

/// Records the edits and deletions that the table lines of the new buffer
/// ask for: the `k`-th table shown in the old buffer is matched with the
/// `k`-th group of cell lines of the new one, row by row and cell by cell.
pub fn tables_edits(
    ps: &Vec<Paragraph>,
    cm: &Vec<(usize, u32, usize, usize, String)>,
    old_lines: &Vec<Vec<char>>,
    new_lines: &Vec<Vec<char>>,
    edits: &mut Vec<(String, String, String)>,
    deletes: &mut Vec<String>,
)
    requires
        forall|i: int| 0 <= i < ps@.len() ==> crate::render::col_of(#[trigger] paras_view(ps@)[i]) < usize::MAX,
    ensures
        plan_of(final(edits)@, final(deletes)@) == tables_plan(
            paras_view(ps@),
            crate::render::cmap_view(cm@),
            lines_view(old_lines@),
            lines_view(new_lines@),
            plan_of(old(edits)@, old(deletes)@),
        ),
{
    let ghost pv = paras_view(ps@);
    let ghost cv = crate::render::cmap_view(cm@);
    let ghost ov = lines_view(old_lines@);
    let ghost nv = lines_view(new_lines@);
    let ghost pl0 = plan_of(edits@, deletes@);
    let tids = table_numbers(ps);
    let lines = cell_lines_exec(cm);
    let shown = tables_shown_exec(ps, &tids, cm, &lines);
    let groups = groups_exec(new_lines);
    let ghost sv = nats(shown@);
    let ghost gv = groups_view(groups@);
    let mut k: usize = 0;
    while k < shown.len()
        invariant
            pv == paras_view(ps@),
            cv == crate::render::cmap_view(cm@),
            ov == lines_view(old_lines@),
            nv == lines_view(new_lines@),
            sv == nats(shown@),
            sv == tables_shown(pv, cv, cell_lines(cv)),
            nats(lines@) == cell_lines(cv),
            gv == groups_view(groups@),
            gv == groups_from(nv, 0, Seq::empty()),
            forall|q: int, x: int| 0 <= q < groups@.len() && 0 <= x < groups@[q]@.len() ==> #[trigger] groups@[q]@[x] < new_lines@.len(),
            tids@.len() == ps@.len(),
            forall|i: int| 0 <= i < ps@.len() ==> (#[trigger] tids@[i]) as nat == table_no(pv, i as nat),
            forall|i: int| 0 <= i < ps@.len() ==> crate::render::col_of(#[trigger] pv[i]) < usize::MAX,
            k <= shown@.len(),
            tables_from(pv, cv, ov, nv, sv, gv, k as nat, plan_of(edits@, deletes@))
                == tables_from(pv, cv, ov, nv, sv, gv, 0, pl0),
        decreases shown@.len() - k,
    {
        if k < groups.len() {
            let t = shown[k];
            assert(sv[k as int] == t as nat);
            let otl = lines_of_table_exec(ps, &tids, cm, &lines, t);
            assert(gv[k as int] == groups@[k as int]@);
            proof {
                assert forall|x: int| 0 <= x < groups@[k as int]@.len() implies (#[trigger] groups@[k as int]@[x]) < new_lines@.len() by {
                }
            }
            table_edits(ps, &tids, old_lines, new_lines, &otl, &groups[k], t, edits, deletes);
        }
        k += 1;
    }
}

} // verus!
