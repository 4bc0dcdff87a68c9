//! Checks of the machine limits that the drawing and saving of a
//! document assume, for callers that hold a document of unknown origin.

use vstd::prelude::*;
use crate::edit::{prefix_estimate, prefix_len_estimate};
use crate::model::{Document, ParaContext, Run};
use crate::render::{col_of, ilvl_of, levels_in_range, lemma_runs_len_prefix, piece, render_limits, runs_len};
use crate::save::{para_range_ok, ranges_ok, save_limits};

verus! {

/// Whether the byte ranges of the document lie in its original XML (see
/// [`ranges_ok`]).
pub fn ranges_ok_exec(doc: &Document) -> (b: bool)
    ensures
        b == ranges_ok(doc@),
{
    let ghost d = doc@;
    let n = doc.original_xml.len();
    if doc.body_inner_range.0 > n || doc.body_inner_range.1 > n {
        return false;
    }
    let mut i: usize = 0;
    while i < doc.paragraphs.len()
        invariant
            d == doc@,
            n == d.original_xml.len(),
            i <= d.paragraphs.len(),
            forall|k: int| 0 <= k < i ==> para_range_ok(#[trigger] d.paragraphs[k], n as nat),
        decreases d.paragraphs.len() - i,
    {
        let p = &doc.paragraphs[i];
        assert(d.paragraphs[i as int] == p@);
        let (s, e) = p.byte_range;
        if s > n || (!p.dirty && !(s <= e && e <= n)) {
            return false;
        }
        i += 1;
    }
    let mut j: usize = 0;
    while j < doc.deleted_ranges.len()
        invariant
            d == doc@,
            n == d.original_xml.len(),
            j <= d.deleted_ranges.len(),
            forall|k: int| 0 <= k < j ==> (#[trigger] d.deleted_ranges[k]).0 <= n,
        decreases d.deleted_ranges.len() - j,
    {
        assert(d.deleted_ranges[j as int].0 == doc.deleted_ranges@[j as int].0);
        if doc.deleted_ranges[j].0 > n {
            return false;
        }
        j += 1;
    }
    true
}

/// Whether the characters the runs show fit a `usize`.
fn runs_fit(runs: &Vec<Run>) -> (b: bool)
    ensures
        b == (runs_len(runs@.map_values(|r: Run| r@)) <= usize::MAX),
{
    let ghost rv = runs@.map_values(|r: Run| r@);
    let mut total: usize = 0;
    let mut i: usize = 0;
    while i < runs.len()
        invariant
            rv == runs@.map_values(|r: Run| r@),
            i <= runs@.len(),
            total == runs_len(rv.take(i as int)),
        decreases runs@.len() - i,
    {
        let r = &runs[i];
        let len: usize = if r.is_drawing {
            proof {
                reveal_strlit("[IMAGE]");
            }
            7
        } else {
            r.text.as_str().unicode_len()
        };
        assert(rv.take(i + 1).drop_last() == rv.take(i as int));
        assert(rv.take(i + 1).last() == r@);
        assert(piece(r@).len() == len);
        if total > usize::MAX - len {
            proof {
                lemma_runs_len_prefix(rv, i + 1);
            }
            return false;
        }
        total = total + len;
        i += 1;
    }
    assert(rv.take(i as int) == rv);
    true
}

/// Whether the document meets the machine limits of drawing it (see
/// [`render_limits`]).
pub fn render_limits_exec(doc: &Document) -> (b: bool)
    ensures
        b == render_limits(doc@.paragraphs),
{
    let ghost ps = doc@.paragraphs;
    let n = doc.paragraphs.len();
    if n >= 0xFFFF_FFFF || n > (usize::MAX - 3) / 3 {
        return false;
    }
    let mut i: usize = 0;
    while i < n
        invariant
            ps == doc@.paragraphs,
            n == ps.len(),
            i <= n,
            forall|k: int| 0 <= k < i ==> ilvl_of(#[trigger] ps[k]) <= i32::MAX,
            forall|k: int| 0 <= k < i ==> runs_len(#[trigger] ps[k].runs) <= usize::MAX,
            forall|k: int| 0 <= k < i ==> col_of(#[trigger] ps[k]) < usize::MAX,
        decreases n - i,
    {
        let p = &doc.paragraphs[i];
        assert(ps[i as int] == p@);
        let l: u32 = match p.num_ilvl {
            Some(l) => l,
            None => 0,
        };
        if l > 0x7FFF_FFFF {
            assert(ilvl_of(ps[i as int]) > i32::MAX);
            assert(!levels_in_range(ps));
            return false;
        }
        if !runs_fit(&p.runs) {
            assert(runs_len(ps[i as int].runs) > usize::MAX);
            return false;
        }
        let c: u32 = match p.context {
            ParaContext::TableCell { col_idx, .. } => col_idx,
            _ => 0,
        };
        if c as usize == usize::MAX {
            assert(col_of(ps[i as int]) >= usize::MAX);
            return false;
        }
        i += 1;
    }
    true
}

/// Whether the document meets what saving a buffer into it assumes (see
/// [`save_limits`]).
pub fn save_limits_exec(doc: &Document) -> (b: bool)
    ensures
        b == save_limits(doc@),
{
    if !render_limits_exec(doc) || !ranges_ok_exec(doc) {
        return false;
    }
    let ghost ps = doc@.paragraphs;
    let mut i: usize = 0;
    while i < doc.paragraphs.len()
        invariant
            ps == doc@.paragraphs,
            i <= ps.len(),
            forall|k: int| 0 <= k < i ==> prefix_len_estimate(#[trigger] ps[k]) <= usize::MAX,
        decreases ps.len() - i,
    {
        assert(ps[i as int] == doc.paragraphs@[i as int]@);
        if prefix_estimate(&doc.paragraphs[i]) > usize::MAX as u64 {
            return false;
        }
        i += 1;
    }
    true
}

} // verus!
