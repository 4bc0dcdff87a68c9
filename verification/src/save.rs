//! Writing an edited buffer back into the document.
//!
//! The new buffer is compared line by line with the rendering of the
//! document: lines that changed update their paragraph, lines that were
//! removed delete it, new lines become new paragraphs that take their
//! properties from a neighbour. Table lines are matched per cell. The XML
//! is then rebuilt with the least change: unchanged paragraphs and
//! everything between paragraphs are copied byte for byte, only changed
//! paragraphs are emitted anew.

use vstd::prelude::*;
use vstd::string::StringSliceAdditionalSpecFns;
use vstd::utf8::encode_utf8;
use crate::error::AppError;
use crate::cells::{add_unique, tables_edits, tables_plan, EditV, Plan};
use crate::diff::{diff_lcs, diff_ops, lines_view, DiffOp};
use crate::edit::{
    apply_text_to_paragraph, has_drawing, inherited_paragraph_xml, plain_text, prefix_len_estimate, strip_list_marker,
    text_applied,
};
use crate::model::{DocV, Document, InsertPosition, ParaV, Paragraph};
use crate::numbering::NumberingMap;
use crate::render::{cmap_view, is_cell, is_list, pmap_view, render_limits, rendered, RenderedV};
use crate::text::{chars_of, dec, same_text, string_of, trim};
use crate::xml_emit::{emit_paragraph, paragraph_xml};

verus! {

// ---------------------------------------------------------------------
// Rebuilding the XML
// ---------------------------------------------------------------------

/// What a stretch of the original body holds: a paragraph still in the
/// document, or one that was deleted (by its index in the lists).
#[derive(PartialEq, Eq, Structural, Clone, Copy)]
pub enum EventKind {
    Paragraph(usize),
    Deleted(usize),
}

/// A stretch of the original body: start, end, what it holds.
pub type Event = (usize, usize, EventKind);

/// The stretches of the body: paragraphs first, deleted ones after, each
/// in list order.
pub open spec fn doc_events(d: DocV) -> Seq<Event> {
    Seq::new(
        d.paragraphs.len(),
        |i: int| (d.paragraphs[i].byte_range.0, d.paragraphs[i].byte_range.1, EventKind::Paragraph(i as usize)),
    ) + Seq::new(
        d.deleted_ranges.len(),
        |i: int| (d.deleted_ranges[i].0, d.deleted_ranges[i].1, EventKind::Deleted(i as usize)),
    )
}

/// `e` put into the sorted `s` after every event that starts no later.
pub open spec fn insert_by_start(s: Seq<Event>, e: Event) -> Seq<Event>
    decreases s.len(),
{
    if s.len() == 0 {
        seq![e]
    } else if s.last().0 <= e.0 {
        s.push(e)
    } else {
        insert_by_start(s.drop_last(), e).push(s.last())
    }
}

/// The events ordered by start, events with the same start keeping their
/// order (a stable sort).
pub open spec fn sort_by_start(s: Seq<Event>) -> Seq<Event>
    decreases s.len(),
{
    if s.len() == 0 {
        Seq::empty()
    } else {
        insert_by_start(sort_by_start(s.drop_last()), s.last())
    }
}

/// The UTF-8 bytes of the paragraphs to insert next to paragraph `pid` on
/// side `pos`, in the order in which they were added.
pub open spec fn inserts_for(
    ins: Seq<(Seq<char>, InsertPosition, Seq<char>)>,
    pid: Seq<char>,
    pos: InsertPosition,
) -> Seq<u8>
    decreases ins.len(),
{
    if ins.len() == 0 {
        Seq::empty()
    } else {
        inserts_for(ins.drop_last(), pid, pos) + (if ins.last().0 == pid && ins.last().1 == pos {
            encode_utf8(ins.last().2)
        } else {
            Seq::empty()
        })
    }
}

/// The bytes written for one stretch: the insertions before its paragraph,
/// the paragraph (its original bytes, or new XML when it changed; nothing
/// when it was deleted), the insertions after it.
pub open spec fn event_bytes(d: DocV, ev: Event) -> Seq<u8> {
    let xml = d.original_xml;
    match ev.2 {
        EventKind::Paragraph(i) => {
            let p = d.paragraphs[i as int];
            inserts_for(d.pending_inserts, p.id, InsertPosition::Before) + (if p.dirty {
                encode_utf8(paragraph_xml(p))
            } else {
                xml.subrange(p.byte_range.0 as int, p.byte_range.1 as int)
            }) + inserts_for(d.pending_inserts, p.id, InsertPosition::After)
        },
        EventKind::Deleted(i) => {
            let pid = d.deleted_ranges[i as int].2;
            inserts_for(d.pending_inserts, pid, InsertPosition::Before) + inserts_for(
                d.pending_inserts,
                pid,
                InsertPosition::After,
            )
        },
    }
}

/// The bytes written for the events `k..`, the original bytes between
/// stretches copied, starting at byte `cursor`; and where the cursor ends.
pub open spec fn emit_from(d: DocV, evs: Seq<Event>, k: nat, cursor: nat) -> (Seq<u8>, nat)
    decreases evs.len() - k,
{
    if k >= evs.len() {
        (Seq::empty(), cursor)
    } else {
        let ev = evs[k as int];
        let gap = if ev.0 > cursor {
            d.original_xml.subrange(cursor as int, ev.0 as int)
        } else {
            Seq::empty()
        };
        let (rest, end) = emit_from(d, evs, k + 1, ev.1 as nat);
        (gap + event_bytes(d, ev) + rest, end)
    }
}

/// The rebuilt main document part: the bytes before the body content, the
/// body with its stretches written as `emit_from` says and the rest of the
/// body copied, then the bytes after the body content.
pub open spec fn rebuild_bytes(d: DocV) -> Seq<u8> {
    let xml = d.original_xml;
    let b0 = d.body_inner_range.0;
    let b1 = d.body_inner_range.1;
    let (mid, cur) = emit_from(d, sort_by_start(doc_events(d)), 0, b0 as nat);
    xml.subrange(0, b0 as int) + mid + (if cur < b1 {
        xml.subrange(cur as int, b1 as int)
    } else {
        Seq::empty()
    }) + xml.subrange(b1 as int, xml.len() as int)
}

/// The range of a paragraph lies in XML of `n` bytes as far as a rebuild
/// copies it: its start, and all of it when it is unchanged.
pub open spec fn para_range_ok(p: ParaV, n: nat) -> bool {
    p.byte_range.0 <= n && (!p.dirty ==> p.byte_range.0 <= p.byte_range.1 <= n)
}

/// The byte ranges that a rebuild copies lie in the original XML: the body
/// bounds, the start of every stretch, and the whole range of every
/// unchanged paragraph.
pub open spec fn ranges_ok(d: DocV) -> bool {
    let n = d.original_xml.len();
    &&& d.body_inner_range.0 <= n
    &&& d.body_inner_range.1 <= n
    &&& forall|i: int| 0 <= i < d.paragraphs.len() ==> para_range_ok(#[trigger] d.paragraphs[i], n)
    &&& forall|i: int| 0 <= i < d.deleted_ranges.len() ==> (#[trigger] d.deleted_ranges[i]).0 <= n
}

/// Appends `src[lo..hi]`.
pub(crate) fn push_range(out: &mut Vec<u8>, src: &Vec<u8>, lo: usize, hi: usize)
    requires
        lo <= hi <= src@.len(),
    ensures
        final(out)@ == old(out)@ + src@.subrange(lo as int, hi as int),
{
    let mut k = lo;
    while k < hi
        invariant
            lo <= k <= hi <= src@.len(),
            out@ == old(out)@ + src@.subrange(lo as int, k as int),
        decreases hi - k,
    {
        out.push(src[k]);
        k += 1;
        assert(src@.subrange(lo as int, k as int) == src@.subrange(lo as int, k - 1).push(src@[k - 1]));
    }
}

/// Appends the UTF-8 bytes of `s`.
pub(crate) fn push_utf8(out: &mut Vec<u8>, s: &str)
    ensures
        final(out)@ == old(out)@ + encode_utf8(s@),
{
    let b = s.as_bytes();
    let mut k: usize = 0;
    while k < b.len()
        invariant
            b@ == encode_utf8(s@),
            k <= b@.len(),
            out@ == old(out)@ + b@.take(k as int),
        decreases b@.len() - k,
    {
        out.push(b[k]);
        k += 1;
        assert(b@.take(k as int) == b@.take(k - 1).push(b@[k - 1]));
    }
    assert(b@.take(b@.len() as int) == b@);
}

/// The events of the document, in list order.
fn collect_events(doc: &Document) -> (v: Vec<Event>)
    ensures
        v@ == doc_events(doc@),
{
    let mut v: Vec<Event> = Vec::new();
    let mut i: usize = 0;
    while i < doc.paragraphs.len()
        invariant
            i <= doc.paragraphs@.len(),
            v@ == doc_events(doc@).take(i as int),
        decreases doc.paragraphs@.len() - i,
    {
        let r = doc.paragraphs[i].byte_range;
        assert(doc@.paragraphs[i as int] == doc.paragraphs@[i as int]@);
        v.push((r.0, r.1, EventKind::Paragraph(i)));
        i += 1;
        assert(v@ =~= doc_events(doc@).take(i as int));
    }
    let np = doc.paragraphs.len();
    let mut k: usize = 0;
    while k < doc.deleted_ranges.len()
        invariant
            np == doc.paragraphs@.len(),
            k <= doc.deleted_ranges@.len(),
            v@ == doc_events(doc@).take(np + k),
        decreases doc.deleted_ranges@.len() - k,
    {
        let d = &doc.deleted_ranges[k];
        assert(doc@.deleted_ranges[k as int] == (d.0, d.1, d.2@));
        v.push((d.0, d.1, EventKind::Deleted(k)));
        k += 1;
        assert(v@ =~= doc_events(doc@).take(np + k));
    }
    assert(doc_events(doc@).take(np + k) =~= doc_events(doc@));
    v
}

/// Puts `e` into the sorted `s` after every event that starts no later.
fn insert_event(s: &mut Vec<Event>, e: Event)
    ensures
        final(s)@ == insert_by_start(old(s)@, e),
{
    let ghost s0 = s@;
    let mut k = s.len();
    assert(s0.take(k as int) == s0);
    assert(s0.skip(k as int) =~= Seq::<Event>::empty());
    while k > 0 && s[k - 1].0 > e.0
        invariant
            s@ == s0,
            k <= s0.len(),
            insert_by_start(s0, e) == insert_by_start(s0.take(k as int), e) + s0.skip(k as int),
        decreases k,
    {
        assert(s0.take(k as int).drop_last() == s0.take(k - 1));
        assert(s0.take(k as int).last() == s0[k - 1]);
        assert(insert_by_start(s0.take(k - 1), e).push(s0[k - 1]) + s0.skip(k as int)
            =~= insert_by_start(s0.take(k - 1), e) + s0.skip(k - 1));
        k -= 1;
    }
    if k > 0 {
        assert(s0.take(k as int).last() == s0[k - 1]);
    }
    assert(insert_by_start(s0.take(k as int), e) == s0.take(k as int).push(e));
    s.insert(k, e);
    assert(s@ =~= s0.take(k as int).push(e) + s0.skip(k as int));
}

/// The events ordered by start, events with the same start keeping their
/// order.
fn sort_events(v: &Vec<Event>) -> (r: Vec<Event>)
    ensures
        r@ == sort_by_start(v@),
{
    let mut r: Vec<Event> = Vec::new();
    let mut i: usize = 0;
    while i < v.len()
        invariant
            i <= v@.len(),
            r@ == sort_by_start(v@.take(i as int)),
        decreases v@.len() - i,
    {
        assert(v@.take(i + 1).drop_last() == v@.take(i as int));
        assert(v@.take(i + 1).last() == v@[i as int]);
        insert_event(&mut r, v[i]);
        i += 1;
    }
    assert(v@.take(i as int) == v@);
    r
}

/// Appends the paragraphs to insert next to `pid` on side `pos`.
fn push_inserts(out: &mut Vec<u8>, doc: &Document, pid: &str, pos: InsertPosition)
    ensures
        final(out)@ == old(out)@ + inserts_for(doc@.pending_inserts, pid@, pos),
{
    let ghost ins = doc@.pending_inserts;
    let mut k: usize = 0;
    while k < doc.pending_inserts.len()
        invariant
            ins == doc@.pending_inserts,
            k <= ins.len(),
            out@ == old(out)@ + inserts_for(ins.take(k as int), pid@, pos),
        decreases ins.len() - k,
    {
        assert(ins.take(k + 1).drop_last() == ins.take(k as int));
        assert(ins.take(k + 1).last() == ins[k as int]);
        let e = &doc.pending_inserts[k];
        assert(ins[k as int] == (e.0@, e.1, e.2@));
        if crate::text::same_text(e.0.as_str(), pid) && e.1 == pos {
            push_utf8(out, e.2.as_str());
        }
        assert(out@ =~= old(out)@ + inserts_for(ins.take(k + 1), pid@, pos));
        k += 1;
    }
    assert(ins.take(k as int) == ins);
}

/// Rebuilds the main document part: paragraphs that did not change and
/// everything between paragraphs are copied from the original bytes,
/// changed paragraphs are emitted anew, deleted ones are left out, and the
/// pending new paragraphs are written before or after their anchor (also
/// when the anchor was deleted).
#[verifier::spinoff_prover]
pub fn rebuild_document_xml(doc: &Document) -> (r: Result<Vec<u8>, AppError>)
    requires
        ranges_ok(doc@),
    ensures
        r is Ok,
        r->Ok_0@ == rebuild_bytes(doc@),
{
    let xml = &doc.original_xml;
    let b0 = doc.body_inner_range.0;
    let b1 = doc.body_inner_range.1;
    let mut out: Vec<u8> = Vec::new();
    push_range(&mut out, xml, 0, b0);
    let events = collect_events(doc);
    let sorted = sort_events(&events);
    let ghost evs = sorted@;
    let ghost head = out@;
    let mut cursor: usize = b0;
    let mut k: usize = 0;
    assert(head =~= xml@.subrange(0, b0 as int));
    while k < sorted.len()
        invariant
            ranges_ok(doc@),
            xml == &doc.original_xml,
            evs == sorted@,
            evs == sort_by_start(doc_events(doc@)),
            k <= evs.len(),
            emit_from(doc@, evs, 0, b0 as nat) == ({
                let (rest, end) = emit_from(doc@, evs, k as nat, cursor as nat);
                (out@.subrange(head.len() as int, out@.len() as int) + rest, end)
            }),
            head.len() <= out@.len(),
            out@.subrange(0, head.len() as int) == head,
        decreases evs.len() - k,
    {
        let ev = sorted[k];
        let ghost before = out@;
        proof { lemma_sorted_event_ok(*doc, k as int); }
        if ev.0 > cursor {
            push_range(&mut out, xml, cursor, ev.0);
        }
        match ev.2 {
            EventKind::Paragraph(i) => {
                let p = &doc.paragraphs[i];
                assert(doc@.paragraphs[i as int] == p@);
                push_inserts(&mut out, doc, p.id.as_str(), InsertPosition::Before);
                if p.dirty {
                    let s = emit_paragraph(p);
                    push_utf8(&mut out, s.as_str());
                } else {
                    push_range(&mut out, xml, p.byte_range.0, p.byte_range.1);
                }
                push_inserts(&mut out, doc, p.id.as_str(), InsertPosition::After);
            },
            EventKind::Deleted(i) => {
                let pid = doc.deleted_ranges[i].2.as_str();
                assert(doc@.deleted_ranges[i as int].2 == pid@);
                push_inserts(&mut out, doc, pid, InsertPosition::Before);
                push_inserts(&mut out, doc, pid, InsertPosition::After);
            },
        }
        proof {
            let gap = if ev.0 > cursor {
                xml@.subrange(cursor as int, ev.0 as int)
            } else {
                Seq::empty()
            };
            assert(out@ =~= before + gap + event_bytes(doc@, ev));
            assert(out@.subrange(0, head.len() as int) =~= head);
            assert(out@.subrange(head.len() as int, out@.len() as int) =~= before.subrange(
                head.len() as int,
                before.len() as int,
            ) + (gap + event_bytes(doc@, ev)));
        }
        proof {
            let (rest1, end1) = emit_from(doc@, evs, (k + 1) as nat, ev.1 as nat);
            let gap = if ev.0 > cursor {
                xml@.subrange(cursor as int, ev.0 as int)
            } else {
                Seq::empty()
            };
            let m0 = before.subrange(head.len() as int, before.len() as int);
            assert(m0 + (gap + event_bytes(doc@, ev) + rest1) =~= (m0 + (gap + event_bytes(doc@, ev))) + rest1);
        }
        cursor = ev.1;
        k += 1;
    }
    let ghost mid = out@.subrange(head.len() as int, out@.len() as int);
    if cursor < b1 {
        push_range(&mut out, xml, cursor, b1);
    }
    push_range(&mut out, xml, b1, xml.len());
    assert(out@ =~= rebuild_bytes(doc@));
    Ok(out)
}

/// Each event of the sorted list is a paragraph or deleted stretch of the
/// document, with its range as `ranges_ok` bounds it.
proof fn lemma_sorted_event_ok(doc: Document, k: int)
    requires
        ranges_ok(doc@),
        0 <= k < sort_by_start(doc_events(doc@)).len(),
    ensures
        event_ok(doc@, sort_by_start(doc_events(doc@))[k]),
{
    let d = doc@;
    let s = doc_events(d);
    assert(d.paragraphs.len() == doc.paragraphs.len());
    assert(d.deleted_ranges.len() == doc.deleted_ranges.len());
    assert forall|j: int| 0 <= j < s.len() implies event_ok(d, #[trigger] s[j]) by {
        if j < d.paragraphs.len() {
            assert(s[j] == (d.paragraphs[j].byte_range.0, d.paragraphs[j].byte_range.1, EventKind::Paragraph(j as usize)));
        } else {
            let i = j - d.paragraphs.len();
            assert(s[j] == (d.deleted_ranges[i].0, d.deleted_ranges[i].1, EventKind::Deleted(i as usize)));
        }
    }
    lemma_sort_keeps(d, s);
    assert(event_ok(d, sort_by_start(s)[k]));
}

/// An event that stands for a paragraph or a deleted stretch of `d`.
pub open spec fn event_ok(d: DocV, ev: Event) -> bool {
    &&& ev.0 <= d.original_xml.len()
    &&& match ev.2 {
        EventKind::Paragraph(i) => i < d.paragraphs.len() && ev.0 == d.paragraphs[i as int].byte_range.0
            && ev.1 == d.paragraphs[i as int].byte_range.1,
        EventKind::Deleted(i) => i < d.deleted_ranges.len(),
    }
}

/// Sorting keeps a property that every event has.
proof fn lemma_sort_keeps(d: DocV, s: Seq<Event>)
    requires
        forall|j: int| 0 <= j < s.len() ==> event_ok(d, #[trigger] s[j]),
    ensures
        forall|j: int| 0 <= j < sort_by_start(s).len() ==> event_ok(d, #[trigger] sort_by_start(s)[j]),
    decreases s.len(),
{
    if s.len() > 0 {
        lemma_sort_keeps(d, s.drop_last());
        lemma_insert_keeps(d, sort_by_start(s.drop_last()), s.last());
    }
}

/// Inserting an event keeps a property that every event has.
proof fn lemma_insert_keeps(d: DocV, s: Seq<Event>, e: Event)
    requires
        forall|j: int| 0 <= j < s.len() ==> event_ok(d, #[trigger] s[j]),
        event_ok(d, e),
    ensures
        forall|j: int| 0 <= j < insert_by_start(s, e).len() ==> event_ok(d, #[trigger] insert_by_start(s, e)[j]),
    decreases s.len(),
{
    if s.len() > 0 && s.last().0 > e.0 {
        lemma_insert_keeps(d, s.drop_last(), e);
        let t = insert_by_start(s.drop_last(), e);
        assert forall|j: int| 0 <= j < t.push(s.last()).len() implies event_ok(d, #[trigger] t.push(s.last())[j]) by {
            if j < t.len() {
                assert(t.push(s.last())[j] == t[j]);
            }
        }
    }
}

/// The paragraphs lie within the body, in list order, without overlap.
pub open spec fn paragraphs_in_order(d: DocV) -> bool {
    let ps = d.paragraphs;
    &&& d.body_inner_range.0 <= d.body_inner_range.1 <= d.original_xml.len()
    &&& forall|i: int|
        0 <= i < ps.len() ==> d.body_inner_range.0 <= (#[trigger] ps[i]).byte_range.0
            <= ps[i].byte_range.1 <= d.body_inner_range.1
    &&& forall|i: int, j: int|
        0 <= i < j < ps.len() ==> (#[trigger] ps[i]).byte_range.1 <= (#[trigger] ps[j]).byte_range.0
}

/// Nothing in the document changed: no paragraph is marked changed,
/// none was deleted, none is waiting to be inserted.
pub open spec fn nothing_changed(d: DocV) -> bool {
    &&& forall|i: int| 0 <= i < d.paragraphs.len() ==> !(#[trigger] d.paragraphs[i]).dirty
    &&& d.deleted_ranges.len() == 0
    &&& d.pending_inserts.len() == 0
}

/// Events already in order of start stay as they are.
proof fn lemma_sort_sorted(s: Seq<Event>)
    requires
        forall|i: int, j: int| 0 <= i < j < s.len() ==> (#[trigger] s[i]).0 <= (#[trigger] s[j]).0,
    ensures
        sort_by_start(s) == s,
    decreases s.len(),
{
    if s.len() > 0 {
        let t = s.drop_last();
        assert forall|i: int, j: int| 0 <= i < j < t.len() implies (#[trigger] t[i]).0 <= (#[trigger] t[j]).0 by {
            assert(t[i] == s[i] && t[j] == s[j]);
        }
        lemma_sort_sorted(t);
        if t.len() > 0 {
            assert(t.last() == s[s.len() - 2]);
            assert(t.last().0 <= s.last().0);
        }
        assert(t.push(s.last()) =~= s);
    }
}

/// With nothing changed, the stretches from `k` on write the original
/// bytes from `cursor` to the end of the last paragraph.
proof fn lemma_emit_unchanged(doc: Document, k: nat, cursor: nat)
    requires
        nothing_changed(doc@),
        paragraphs_in_order(doc@),
        k < doc@.paragraphs.len(),
        cursor <= doc@.paragraphs[k as int].byte_range.0,
    ensures
        emit_from(doc@, doc_events(doc@), k, cursor) == (
            doc@.original_xml.subrange(cursor as int, doc@.paragraphs.last().byte_range.1 as int),
            doc@.paragraphs.last().byte_range.1 as nat,
        ),
    decreases doc@.paragraphs.len() - k,
{
    let d = doc@;
    let ps = d.paragraphs;
    let xml = d.original_xml;
    let evs = doc_events(d);
    assert(ps.len() == doc.paragraphs.len());
    assert(evs.len() == ps.len());
    let p = ps[k as int];
    assert(evs[k as int] == (p.byte_range.0, p.byte_range.1, EventKind::Paragraph(k as usize)));
    assert(inserts_for(d.pending_inserts, p.id, InsertPosition::Before) =~= Seq::<u8>::empty());
    assert(inserts_for(d.pending_inserts, p.id, InsertPosition::After) =~= Seq::<u8>::empty());
    assert(!p.dirty);
    assert(event_bytes(d, evs[k as int]) =~= xml.subrange(p.byte_range.0 as int, p.byte_range.1 as int));
    let gap = if p.byte_range.0 > cursor {
        xml.subrange(cursor as int, p.byte_range.0 as int)
    } else {
        Seq::empty()
    };
    assert(gap + xml.subrange(p.byte_range.0 as int, p.byte_range.1 as int) =~= xml.subrange(
        cursor as int,
        p.byte_range.1 as int,
    ));
    if k + 1 < ps.len() {
        assert(p.byte_range.1 <= ps[k + 1 as int].byte_range.0);
        lemma_emit_unchanged(doc, k + 1, p.byte_range.1 as nat);
        assert(ps.last().byte_range.1 >= ps[k + 1 as int].byte_range.1);
        assert(xml.subrange(cursor as int, p.byte_range.1 as int) + xml.subrange(
            p.byte_range.1 as int,
            ps.last().byte_range.1 as int,
        ) =~= xml.subrange(cursor as int, ps.last().byte_range.1 as int));
    } else {
        assert(emit_from(d, evs, k + 1, p.byte_range.1 as nat) == (Seq::<u8>::empty(), p.byte_range.1 as nat));
        assert(xml.subrange(cursor as int, p.byte_range.1 as int) + Seq::<u8>::empty() =~= xml.subrange(
            cursor as int,
            p.byte_range.1 as int,
        ));
    }
}

/// A rebuild keeps the bytes before the body's content and those after it
/// as they were.
pub proof fn lemma_rebuild_keeps_shell(d: DocV)
    requires
        d.body_inner_range.0 <= d.original_xml.len(),
        d.body_inner_range.1 <= d.original_xml.len(),
    ensures
        rebuild_bytes(d).take(d.body_inner_range.0 as int) == d.original_xml.take(d.body_inner_range.0 as int),
        rebuild_bytes(d).skip(rebuild_bytes(d).len() - (d.original_xml.len() - d.body_inner_range.1)) == d.original_xml.skip(
            d.body_inner_range.1 as int,
        ),
{
    let xml = d.original_xml;
    let b0 = d.body_inner_range.0;
    let b1 = d.body_inner_range.1;
    let (mid, cur) = emit_from(d, sort_by_start(doc_events(d)), 0, b0 as nat);
    let gap = if cur < b1 {
        xml.subrange(cur as int, b1 as int)
    } else {
        Seq::empty()
    };
    let r = rebuild_bytes(d);
    assert(r == xml.subrange(0, b0 as int) + mid + gap + xml.subrange(b1 as int, xml.len() as int));
    assert(r.take(b0 as int) =~= xml.take(b0 as int));
    assert(r.skip(r.len() - (xml.len() - b1)) =~= xml.skip(b1 as int));
}

/// A document in which nothing changed is written back byte for byte:
/// when no paragraph is marked changed, none was deleted, none is waiting
/// to be inserted, and the paragraphs lie in order within the body, the
/// rebuilt XML is the original XML.
pub proof fn lemma_rebuild_unchanged(doc: Document)
    requires
        nothing_changed(doc@),
        paragraphs_in_order(doc@),
    ensures
        rebuild_bytes(doc@) == doc@.original_xml,
{
    let d = doc@;
    let ps = d.paragraphs;
    let xml = d.original_xml;
    let evs = doc_events(d);
    let b0 = d.body_inner_range.0;
    let b1 = d.body_inner_range.1;
    assert(ps.len() == doc.paragraphs.len());
    assert(evs.len() == ps.len());
    assert forall|i: int, j: int| 0 <= i < j < evs.len() implies (#[trigger] evs[i]).0 <= (#[trigger] evs[j]).0 by {
        assert(evs[i].0 == ps[i].byte_range.0);
        assert(evs[j].0 == ps[j].byte_range.0);
        assert(ps[i].byte_range.0 <= ps[i].byte_range.1);
    }
    lemma_sort_sorted(evs);
    if ps.len() == 0 {
        assert(xml.subrange(0, b0 as int) + Seq::<u8>::empty() + (if b0 < b1 {
            xml.subrange(b0 as int, b1 as int)
        } else {
            Seq::empty()
        }) + xml.subrange(b1 as int, xml.len() as int) =~= xml);
    } else {
        lemma_emit_unchanged(doc, 0, b0 as nat);
        let e = ps.last().byte_range.1;
        assert(ps[ps.len() - 1] == ps.last());
        assert(e <= b1);
        assert(xml.subrange(0, b0 as int) + xml.subrange(b0 as int, e as int) + (if e < b1 {
            xml.subrange(e as int, b1 as int)
        } else {
            Seq::empty()
        }) + xml.subrange(b1 as int, xml.len() as int) =~= xml);
    }
}

/// What a rebuild writes for paragraph `k` itself: its new XML when it
/// changed, its original bytes otherwise.
pub open spec fn para_bytes(d: DocV, k: int) -> Seq<u8> {
    let p = d.paragraphs[k];
    if p.dirty {
        encode_utf8(paragraph_xml(p))
    } else {
        d.original_xml.subrange(p.byte_range.0 as int, p.byte_range.1 as int)
    }
}

/// At most paragraph `k0` changed, and nothing was deleted or waits to be
/// inserted.
pub open spec fn only_changed(d: DocV, k0: int) -> bool {
    &&& forall|i: int| 0 <= i < d.paragraphs.len() && i != k0 ==> !(#[trigger] d.paragraphs[i]).dirty
    &&& d.deleted_ranges.len() == 0
    &&& d.pending_inserts.len() == 0
}

/// Only paragraph `k0` may have changed or have paragraphs waiting to be
/// inserted next to it, and nothing was deleted.
pub open spec fn only_touched(d: DocV, k0: int) -> bool {
    &&& forall|i: int|
        0 <= i < d.paragraphs.len() && i != k0 ==> !(#[trigger] d.paragraphs[i]).dirty && inserts_for(
            d.pending_inserts,
            d.paragraphs[i].id,
            InsertPosition::Before,
        ).len() == 0 && inserts_for(d.pending_inserts, d.paragraphs[i].id, InsertPosition::After).len() == 0
    &&& d.deleted_ranges.len() == 0
}

/// What a rebuild writes for paragraph `k`: the paragraphs waiting before
/// it, the paragraph, the paragraphs waiting after it.
pub open spec fn touched_bytes(d: DocV, k: int) -> Seq<u8> {
    inserts_for(d.pending_inserts, d.paragraphs[k].id, InsertPosition::Before) + para_bytes(d, k) + inserts_for(
        d.pending_inserts,
        d.paragraphs[k].id,
        InsertPosition::After,
    )
}

/// With only paragraph `k0` touched, the stretches from `k` on write the
/// original bytes from `cursor` to the end of the last paragraph, with
/// paragraph `k0` (when it is among them) replaced by what is written for
/// it.
#[verifier::spinoff_prover]
#[verifier::rlimit(40)]
proof fn lemma_emit_one(d: DocV, k0: int, k: nat, cursor: nat)
    requires
        only_touched(d, k0),
        paragraphs_in_order(d),
        d.paragraphs.len() <= usize::MAX,
        0 <= k0 < d.paragraphs.len(),
        k < d.paragraphs.len(),
        cursor <= d.paragraphs[k as int].byte_range.0,
    ensures
        emit_from(d, doc_events(d), k, cursor) == (
            if k <= k0 {
                d.original_xml.subrange(cursor as int, d.paragraphs[k0].byte_range.0 as int) + touched_bytes(d, k0)
                    + d.original_xml.subrange(d.paragraphs[k0].byte_range.1 as int, d.paragraphs.last().byte_range.1 as int)
            } else {
                d.original_xml.subrange(cursor as int, d.paragraphs.last().byte_range.1 as int)
            },
            d.paragraphs.last().byte_range.1 as nat,
        ),
    decreases d.paragraphs.len() - k,
{
    let ps = d.paragraphs;
    let xml = d.original_xml;
    let evs = doc_events(d);
    let p = ps[k as int];
    let last = ps.last().byte_range.1;
    assert(evs.len() == ps.len());
    assert(evs[k as int] == (p.byte_range.0, p.byte_range.1, EventKind::Paragraph(k as usize)));
    if k as int == k0 {
        assert(event_bytes(d, evs[k as int]) =~= touched_bytes(d, k0));
    } else {
        assert(inserts_for(d.pending_inserts, p.id, InsertPosition::Before) =~= Seq::<u8>::empty());
        assert(inserts_for(d.pending_inserts, p.id, InsertPosition::After) =~= Seq::<u8>::empty());
        assert(event_bytes(d, evs[k as int]) =~= xml.subrange(p.byte_range.0 as int, p.byte_range.1 as int));
    }
    let gap = if p.byte_range.0 > cursor {
        xml.subrange(cursor as int, p.byte_range.0 as int)
    } else {
        Seq::empty()
    };
    assert(gap =~= xml.subrange(cursor as int, p.byte_range.0 as int));
    assert(ps[ps.len() - 1] == ps.last());
    assert(p.byte_range.1 <= last) by {
        if k + 1 < ps.len() {
            assert(p.byte_range.1 <= ps[ps.len() - 1].byte_range.0);
        }
    }
    if k + 1 < ps.len() {
        assert(p.byte_range.1 <= ps[k + 1 as int].byte_range.0);
        lemma_emit_one(d, k0, k + 1, p.byte_range.1 as nat);
        if k as int == k0 {
            assert(gap + touched_bytes(d, k0) + xml.subrange(p.byte_range.1 as int, last as int) =~= xml.subrange(
                cursor as int,
                p.byte_range.0 as int,
            ) + touched_bytes(d, k0) + xml.subrange(p.byte_range.1 as int, last as int));
        } else if (k as int) < k0 {
            let q = ps[k0];
            assert(p.byte_range.1 <= q.byte_range.0);
            assert(gap + xml.subrange(p.byte_range.0 as int, p.byte_range.1 as int) + (xml.subrange(
                p.byte_range.1 as int,
                q.byte_range.0 as int,
            ) + touched_bytes(d, k0) + xml.subrange(q.byte_range.1 as int, last as int)) =~= xml.subrange(
                cursor as int,
                q.byte_range.0 as int,
            ) + touched_bytes(d, k0) + xml.subrange(q.byte_range.1 as int, last as int));
        } else {
            assert(gap + xml.subrange(p.byte_range.0 as int, p.byte_range.1 as int) + xml.subrange(
                p.byte_range.1 as int,
                last as int,
            ) =~= xml.subrange(cursor as int, last as int));
        }
    } else {
        assert(emit_from(d, evs, k + 1, p.byte_range.1 as nat) == (Seq::<u8>::empty(), p.byte_range.1 as nat));
        assert(p == ps.last());
        if k as int == k0 {
            assert(gap + touched_bytes(d, k0) + Seq::<u8>::empty() =~= xml.subrange(cursor as int, p.byte_range.0 as int)
                + touched_bytes(d, k0) + xml.subrange(p.byte_range.1 as int, last as int));
        } else {
            assert(gap + xml.subrange(p.byte_range.0 as int, p.byte_range.1 as int) + Seq::<u8>::empty()
                =~= xml.subrange(cursor as int, last as int));
        }
    }
}

/// Only a touched paragraph is rewritten: when at most paragraph `k`
/// changed or has paragraphs waiting to be inserted before or after it,
/// nothing was deleted, and the paragraphs lie in order within the body,
/// the rebuilt XML is the original XML with the bytes of paragraph `k`
/// replaced by the paragraphs waiting before it, the paragraph (its new
/// XML, or its original bytes when it did not change), and the paragraphs
/// waiting after it, each group in the order it was added.
pub proof fn lemma_rebuild_touched(d: DocV, k: int)
    requires
        0 <= k < d.paragraphs.len() <= usize::MAX,
        only_touched(d, k),
        paragraphs_in_order(d),
    ensures
        rebuild_bytes(d) == d.original_xml.take(d.paragraphs[k].byte_range.0 as int) + touched_bytes(d, k)
            + d.original_xml.skip(d.paragraphs[k].byte_range.1 as int),
{
    let ps = d.paragraphs;
    let xml = d.original_xml;
    let evs = doc_events(d);
    let b0 = d.body_inner_range.0;
    let b1 = d.body_inner_range.1;
    assert(evs.len() == ps.len());
    assert forall|i: int, j: int| 0 <= i < j < evs.len() implies (#[trigger] evs[i]).0 <= (#[trigger] evs[j]).0 by {
        assert(evs[i].0 == ps[i].byte_range.0);
        assert(evs[j].0 == ps[j].byte_range.0);
        assert(ps[i].byte_range.0 <= ps[i].byte_range.1);
    }
    lemma_sort_sorted(evs);
    lemma_emit_one(d, k, 0, b0 as nat);
    let e = ps.last().byte_range.1;
    let q = ps[k];
    assert(ps[ps.len() - 1] == ps.last());
    assert(e <= b1);
    assert(q.byte_range.1 <= e) by {
        if k + 1 < ps.len() {
            assert(q.byte_range.1 <= ps[ps.len() - 1].byte_range.0);
        }
    }
    assert(xml.subrange(0, b0 as int) + (xml.subrange(b0 as int, q.byte_range.0 as int) + touched_bytes(d, k)
        + xml.subrange(q.byte_range.1 as int, e as int)) + (if e < b1 {
        xml.subrange(e as int, b1 as int)
    } else {
        Seq::empty()
    }) + xml.subrange(b1 as int, xml.len() as int) =~= xml.take(q.byte_range.0 as int) + touched_bytes(d, k)
        + xml.skip(q.byte_range.1 as int));
}

/// Only a changed paragraph is rewritten: when at most paragraph `k`
/// changed (nothing deleted or waiting to be inserted) and the paragraphs
/// lie in order within the body, the rebuilt XML is the original XML with
/// the bytes of paragraph `k` replaced by its new XML (or kept, when it did
/// not change either).
pub proof fn lemma_rebuild_one_changed(d: DocV, k: int)
    requires
        0 <= k < d.paragraphs.len() <= usize::MAX,
        only_changed(d, k),
        paragraphs_in_order(d),
    ensures
        rebuild_bytes(d) == d.original_xml.take(d.paragraphs[k].byte_range.0 as int) + para_bytes(d, k)
            + d.original_xml.skip(d.paragraphs[k].byte_range.1 as int),
{
    assert forall|id: Seq<char>, pos: InsertPosition| inserts_for(d.pending_inserts, id, pos) =~= Seq::<u8>::empty() by {}
    lemma_rebuild_touched(d, k);
    assert(touched_bytes(d, k) =~= para_bytes(d, k));
}

/// Paragraphs `k..` written as a rebuild writes them, with the original
/// bytes between consecutive paragraphs kept.
pub open spec fn spliced_from(d: DocV, k: nat) -> Seq<u8>
    decreases d.paragraphs.len() - k,
{
    if k >= d.paragraphs.len() {
        Seq::empty()
    } else if k + 1 == d.paragraphs.len() {
        para_bytes(d, k as int)
    } else {
        para_bytes(d, k as int) + d.original_xml.subrange(
            d.paragraphs[k as int].byte_range.1 as int,
            d.paragraphs[k + 1int].byte_range.0 as int,
        ) + spliced_from(d, k + 1)
    }
}

/// Without deletions or pending insertions, the stretches from `k` on
/// write the original bytes from `cursor` to paragraph `k`, then the
/// paragraphs as [`spliced_from`] says.
proof fn lemma_emit_spliced(d: DocV, k: nat, cursor: nat)
    requires
        d.deleted_ranges.len() == 0,
        d.pending_inserts.len() == 0,
        paragraphs_in_order(d),
        d.paragraphs.len() <= usize::MAX,
        k < d.paragraphs.len(),
        cursor <= d.paragraphs[k as int].byte_range.0,
    ensures
        emit_from(d, doc_events(d), k, cursor) == (
            d.original_xml.subrange(cursor as int, d.paragraphs[k as int].byte_range.0 as int) + spliced_from(d, k),
            d.paragraphs.last().byte_range.1 as nat,
        ),
    decreases d.paragraphs.len() - k,
{
    let ps = d.paragraphs;
    let xml = d.original_xml;
    let evs = doc_events(d);
    let p = ps[k as int];
    assert(evs.len() == ps.len());
    assert(evs[k as int] == (p.byte_range.0, p.byte_range.1, EventKind::Paragraph(k as usize)));
    assert(inserts_for(d.pending_inserts, p.id, InsertPosition::Before) =~= Seq::<u8>::empty());
    assert(inserts_for(d.pending_inserts, p.id, InsertPosition::After) =~= Seq::<u8>::empty());
    assert(event_bytes(d, evs[k as int]) =~= para_bytes(d, k as int));
    let gap = if p.byte_range.0 > cursor {
        xml.subrange(cursor as int, p.byte_range.0 as int)
    } else {
        Seq::empty()
    };
    assert(gap =~= xml.subrange(cursor as int, p.byte_range.0 as int));
    if k + 1 < ps.len() {
        let q = ps[k + 1 as int];
        assert(p.byte_range.1 <= q.byte_range.0);
        lemma_emit_spliced(d, k + 1, p.byte_range.1 as nat);
        assert(gap + para_bytes(d, k as int) + (xml.subrange(p.byte_range.1 as int, q.byte_range.0 as int)
            + spliced_from(d, k + 1)) =~= xml.subrange(cursor as int, p.byte_range.0 as int) + spliced_from(d, k));
    } else {
        assert(emit_from(d, evs, k + 1, p.byte_range.1 as nat) == (Seq::<u8>::empty(), p.byte_range.1 as nat));
        assert(ps[ps.len() - 1] == ps.last());
        assert(gap + para_bytes(d, k as int) + Seq::<u8>::empty() =~= xml.subrange(cursor as int, p.byte_range.0 as int)
            + spliced_from(d, k));
    }
}

/// A rebuild copies everything but the paragraphs byte for byte: without
/// deletions or pending insertions, and with the paragraphs in order
/// within the body, the rebuilt XML is the original bytes before the first
/// paragraph, each paragraph as its original bytes or (when it changed)
/// its new XML with the original bytes between paragraphs kept, and the
/// original bytes after the last paragraph.
pub proof fn lemma_rebuild_splices(d: DocV)
    requires
        0 < d.paragraphs.len() <= usize::MAX,
        d.deleted_ranges.len() == 0,
        d.pending_inserts.len() == 0,
        paragraphs_in_order(d),
    ensures
        rebuild_bytes(d) == d.original_xml.take(d.paragraphs[0].byte_range.0 as int) + spliced_from(d, 0)
            + d.original_xml.skip(d.paragraphs.last().byte_range.1 as int),
{
    let ps = d.paragraphs;
    let xml = d.original_xml;
    let evs = doc_events(d);
    let b0 = d.body_inner_range.0;
    let b1 = d.body_inner_range.1;
    assert(evs.len() == ps.len());
    assert forall|i: int, j: int| 0 <= i < j < evs.len() implies (#[trigger] evs[i]).0 <= (#[trigger] evs[j]).0 by {
        assert(evs[i].0 == ps[i].byte_range.0);
        assert(evs[j].0 == ps[j].byte_range.0);
        assert(ps[i].byte_range.0 <= ps[i].byte_range.1);
    }
    lemma_sort_sorted(evs);
    lemma_emit_spliced(d, 0, b0 as nat);
    let e = ps.last().byte_range.1;
    assert(ps[ps.len() - 1] == ps.last());
    assert(e <= b1);
    assert(xml.subrange(0, b0 as int) + (xml.subrange(b0 as int, ps[0].byte_range.0 as int) + spliced_from(d, 0))
        + (if e < b1 {
        xml.subrange(e as int, b1 as int)
    } else {
        Seq::empty()
    }) + xml.subrange(b1 as int, xml.len() as int) =~= xml.take(ps[0].byte_range.0 as int) + spliced_from(d, 0)
        + xml.skip(e as int));
}

// ---------------------------------------------------------------------
// Lines of the buffer
// ---------------------------------------------------------------------

/// `s` without trailing line feeds.
pub open spec fn trim_nl(s: Seq<char>) -> Seq<char>
    decreases s.len(),
{
    if s.len() > 0 && s.last() == '\n' {
        trim_nl(s.drop_last())
    } else {
        s
    }
}

/// The pieces of `s` between occurrences of `sep`, `cur` being the piece
/// read so far (as `str::split` gives them: one more piece than there are
/// separators).
pub open spec fn split_from(s: Seq<char>, sep: char, cur: Seq<char>) -> Seq<Seq<char>>
    decreases s.len(),
{
    if s.len() == 0 {
        seq![cur]
    } else if s[0] == sep {
        seq![cur] + split_from(s.drop_first(), sep, Seq::empty())
    } else {
        split_from(s.drop_first(), sep, cur.push(s[0]))
    }
}

/// The pieces of `s` between occurrences of `sep`.
pub open spec fn split_on(s: Seq<char>, sep: char) -> Seq<Seq<char>> {
    split_from(s, sep, Seq::empty())
}

/// There is at most one more piece than characters.
proof fn lemma_split_len(s: Seq<char>, sep: char, cur: Seq<char>)
    ensures
        1 <= split_from(s, sep, cur).len() <= s.len() + 1,
    decreases s.len(),
{
    if s.len() > 0 {
        if s[0] == sep {
            lemma_split_len(s.drop_first(), sep, Seq::empty());
        } else {
            lemma_split_len(s.drop_first(), sep, cur.push(s[0]));
        }
    }
}

/// The pieces of `v` between occurrences of `sep`.
pub fn split_chars(v: &Vec<char>, sep: char) -> (r: Vec<Vec<char>>)
    ensures
        lines_view(r@) == split_on(v@, sep),
        1 <= r@.len() <= v@.len() + 1,
{
    let mut out: Vec<Vec<char>> = Vec::new();
    let mut cur: Vec<char> = Vec::new();
    let mut i: usize = 0;
    assert(v@.skip(0) == v@);
    proof { lemma_split_len(v@, sep, Seq::empty()); }
    while i < v.len()
        invariant
            i <= v@.len(),
            split_on(v@, sep) == lines_view(out@) + split_from(v@.skip(i as int), sep, cur@),
        decreases v@.len() - i,
    {
        let c = v[i];
        let ghost rest = v@.skip(i as int);
        assert(rest[0] == c);
        assert(rest.drop_first() == v@.skip(i + 1));
        if c == sep {
            let ghost o0 = lines_view(out@);
            let ghost cv = cur@;
            out.push(cur);
            cur = Vec::new();
            assert(lines_view(out@) =~= o0.push(cv));
            assert(o0 + (seq![cv] + split_from(v@.skip(i + 1), sep, Seq::empty())) =~= o0.push(cv)
                + split_from(v@.skip(i + 1), sep, cur@));
        } else {
            cur.push(c);
        }
        i += 1;
    }
    let ghost o0 = lines_view(out@);
    let ghost cv = cur@;
    out.push(cur);
    assert(lines_view(out@) =~= o0.push(cv));
    assert(v@.skip(i as int).len() == 0);
    assert(split_on(v@, sep) =~= lines_view(out@));
    out
}

/// The lines of a buffer text, trailing line feeds left out.
pub fn buffer_lines(s: &str) -> (r: Vec<Vec<char>>)
    ensures
        lines_view(r@) == split_on(trim_nl(s@), '\n'),
        1 <= r@.len() <= s@.len() + 1,
{
    let mut v = chars_of(s);
    while v.len() > 0 && v[v.len() - 1] == '\n'
        invariant
            trim_nl(s@) == trim_nl(v@),
            v@.len() <= s@.len(),
        decreases v@.len(),
    {
        v.pop();
    }
    split_chars(&v, '\n')
}

// ---------------------------------------------------------------------
// What the rendering tells about lines
// ---------------------------------------------------------------------

/// The paragraph shown on buffer line `line` (1-based): the last report
/// for that line.
pub open spec fn pid_at(pm: Seq<(nat, Seq<char>)>, line: nat) -> Option<Seq<char>>
    decreases pm.len(),
{
    if pm.len() == 0 {
        None
    } else if pm.last().0 == line {
        Some(pm.last().1)
    } else {
        pid_at(pm.drop_last(), line)
    }
}

/// The paragraph of the first cell reported on buffer line `line`.
pub open spec fn first_cell_pid(cm: Seq<(nat, u32, nat, nat, Seq<char>)>, line: nat) -> Option<Seq<char>>
    decreases cm.len(),
{
    if cm.len() == 0 {
        None
    } else if cm[0].0 == line {
        Some(cm[0].4)
    } else {
        first_cell_pid(cm.drop_first(), line)
    }
}

/// The paragraph shown on the buffer line with 0-based index `idx`.
fn pid_of_line(pm: &Vec<(usize, String)>, idx: usize) -> (r: Option<String>)
    ensures
        crate::model::opt_str(r) == pid_at(pmap_view(pm@), idx as nat + 1),
{
    let ghost v = pmap_view(pm@);
    let mut k = pm.len();
    assert(v.take(k as int) == v);
    while k > 0
        invariant
            v == pmap_view(pm@),
            k <= pm@.len(),
            pid_at(v, idx as nat + 1) == pid_at(v.take(k as int), idx as nat + 1),
        decreases k,
    {
        assert(v.take(k as int).drop_last() == v.take(k - 1));
        assert(v.take(k as int).last() == v[k - 1]);
        let e = &pm[k - 1];
        if e.0 >= 1 && e.0 - 1 == idx {
            return Some(e.1.clone());
        }
        k -= 1;
    }
    None
}

/// The paragraph of the first cell on the buffer line with 0-based index
/// `idx`.
pub(crate) fn first_cell_pid_exec(cm: &Vec<(usize, u32, usize, usize, String)>, idx: usize) -> (r: Option<String>)
    ensures
        crate::model::opt_str(r) == first_cell_pid(cmap_view(cm@), idx as nat + 1),
{
    let ghost v = cmap_view(cm@);
    let mut k: usize = 0;
    assert(v.skip(0) == v);
    while k < cm.len()
        invariant
            v == cmap_view(cm@),
            k <= cm@.len(),
            first_cell_pid(v, idx as nat + 1) == first_cell_pid(v.skip(k as int), idx as nat + 1),
        decreases cm@.len() - k,
    {
        assert(v.skip(k as int)[0] == v[k as int]);
        assert(v.skip(k as int).drop_first() == v.skip(k + 1));
        let e = &cm[k];
        if e.0 >= 1 && e.0 - 1 == idx {
            return Some(e.4.clone());
        }
        k += 1;
    }
    None
}

// ---------------------------------------------------------------------
// Paragraphs by identifier
// ---------------------------------------------------------------------

/// Index of the first paragraph with identifier `pid`.
pub open spec fn find_para(ps: Seq<ParaV>, pid: Seq<char>) -> Option<nat>
    decreases ps.len(),
{
    if ps.len() == 0 {
        None
    } else if ps[0].id == pid {
        Some(0)
    } else {
        match find_para(ps.drop_first(), pid) {
            Some(i) => Some(i + 1),
            None => None,
        }
    }
}

/// The index found is that of a paragraph with the identifier.
pub proof fn lemma_find_para(ps: Seq<ParaV>, pid: Seq<char>)
    ensures
        find_para(ps, pid) matches Some(i) ==> i < ps.len() && ps[i as int].id == pid,
        find_para(ps, pid) is None ==> forall|k: int| 0 <= k < ps.len() ==> (#[trigger] ps[k]).id != pid,
    decreases ps.len(),
{
    if ps.len() > 0 && ps[0].id != pid {
        lemma_find_para(ps.drop_first(), pid);
        if find_para(ps, pid) is None {
            assert forall|k: int| 0 <= k < ps.len() implies (#[trigger] ps[k]).id != pid by {
                if k > 0 {
                    assert(ps[k] == ps.drop_first()[k - 1]);
                }
            }
        }
    }
}

/// The text (without drawings) of the first paragraph with identifier
/// `pid`; empty when there is none.
pub open spec fn cell_text(ps: Seq<ParaV>, pid: Seq<char>) -> Seq<char> {
    match find_para(ps, pid) {
        Some(i) => plain_text(ps[i as int].runs),
        None => Seq::empty(),
    }
}

/// Index of the first paragraph with identifier `pid`.
pub(crate) fn find_para_exec(ps: &Vec<Paragraph>, pid: &str) -> (r: Option<usize>)
    ensures
        match r {
            Some(i) => find_para(crate::render::paras_view(ps@), pid@) == Some(i as nat) && i < ps@.len(),
            None => find_para(crate::render::paras_view(ps@), pid@) is None,
        },
{
    let ghost v = crate::render::paras_view(ps@);
    let mut k: usize = 0;
    assert(v.skip(0) == v);
    while k < ps.len()
        invariant
            v == crate::render::paras_view(ps@),
            k <= ps@.len(),
            find_para(v, pid@) == (match find_para(v.skip(k as int), pid@) {
                Some(i) => Some(i + k as nat),
                None => None,
            }),
        decreases ps@.len() - k,
    {
        assert(v.skip(k as int)[0] == ps@[k as int]@);
        assert(v.skip(k as int).drop_first() == v.skip(k + 1));
        if same_text(ps[k].id.as_str(), pid) {
            return Some(k);
        }
        k += 1;
    }
    assert(v.skip(k as int).len() == 0);
    None
}

// ---------------------------------------------------------------------
// Saving a buffer: what happens
// ---------------------------------------------------------------------

/// Where the walk over the ops stands: the plan, the old lines (0-based)
/// of table borders that were deleted, and the old lines whose paragraphs
/// are deleted.
pub struct OpsState {
    pub plan: Plan,
    pub marker_dels: Seq<nat>,
    pub deleted_old: Seq<nat>,
}

/// The first paragraph with identifier `pid` is in a table cell.
pub open spec fn para_in_table(ps: Seq<ParaV>, pid: Seq<char>) -> bool {
    match find_para(ps, pid) {
        Some(i) => is_cell(ps[i as int]),
        None => false,
    }
}

/// Old line `k` (0-based) shows no paragraph: it is a table border.
pub open spec fn is_marker(r: RenderedV, k: nat) -> bool {
    pid_at(r.para_map, k + 1) is None
}

/// The effect of the op of old line `k`: a deleted line deletes its
/// paragraph (a deleted border is remembered), a kept line whose text
/// changed edits its paragraph; table cells were handled before, borders
/// are never edited.
pub open spec fn ops_step(
    ps: Seq<ParaV>,
    r: RenderedV,
    old: Seq<Seq<char>>,
    new: Seq<Seq<char>>,
    op: DiffOp,
    k: nat,
    st: OpsState,
) -> OpsState {
    match op {
        DiffOp::Delete => {
            if is_marker(r, k) {
                OpsState { marker_dels: st.marker_dels.push(k), ..st }
            } else {
                let pid = pid_at(r.para_map, k + 1)->0;
                if para_in_table(ps, pid) {
                    st
                } else {
                    OpsState {
                        plan: Plan { deletes: st.plan.deletes.push(pid), ..st.plan },
                        deleted_old: st.deleted_old.push(k),
                        ..st
                    }
                }
            }
        },
        DiffOp::Keep(n) => {
            if old[k as int] == new[n as int] || is_marker(r, k) {
                st
            } else {
                let pid = pid_at(r.para_map, k + 1)->0;
                if para_in_table(ps, pid) {
                    st
                } else {
                    OpsState {
                        plan: Plan { edits: st.plan.edits.push((pid, new[n as int], old[k as int])), ..st.plan },
                        ..st
                    }
                }
            }
        },
    }
}

/// The walk over the ops `k..`.
pub open spec fn ops_from(
    ps: Seq<ParaV>,
    r: RenderedV,
    old: Seq<Seq<char>>,
    new: Seq<Seq<char>>,
    ops: Seq<DiffOp>,
    k: nat,
    st: OpsState,
) -> OpsState
    decreases ops.len() - k,
{
    if k >= ops.len() {
        st
    } else {
        ops_from(ps, r, old, new, ops, k + 1, ops_step(ps, r, old, new, ops[k as int], k, st))
    }
}

/// A deleted border is allowed when a neighbouring line is deleted too
/// (a deleted paragraph or another border): a whole table row went.
pub open spec fn marker_allowed(r: RenderedV, n_old: nat, deleted_old: Seq<nat>, idx: nat) -> bool {
    (idx > 0 && (deleted_old.contains((idx - 1) as nat) || is_marker(r, (idx - 1) as nat))) || (idx + 1
        < n_old && (deleted_old.contains(idx + 1) || is_marker(r, idx + 1)))
}

/// The first deleted border, among `mds[k..]`, that is not allowed.
pub open spec fn bad_marker(r: RenderedV, n_old: nat, deleted_old: Seq<nat>, mds: Seq<nat>, k: nat) -> Option<nat>
    decreases mds.len() - k,
{
    if k >= mds.len() {
        None
    } else if !marker_allowed(r, n_old, deleted_old, mds[k as int]) {
        Some(mds[k as int])
    } else {
        bad_marker(r, n_old, deleted_old, mds, k + 1)
    }
}

/// The message for a border line (0-based `idx`) deleted alone.
pub open spec fn marker_message(idx: nat) -> Seq<char> {
    "Line "@ + dec(idx + 1) + " is a structural marker (table border) — cannot be deleted alone"@
}

/// The last op among `ops[..k]` that keeps new line `n`.
pub open spec fn keeper(ops: Seq<DiffOp>, n: nat, k: nat) -> Option<nat>
    decreases k,
{
    if k == 0 {
        None
    } else if ops[k - 1] == DiffOp::Keep(n as usize) {
        Some((k - 1) as nat)
    } else {
        keeper(ops, n, (k - 1) as nat)
    }
}

/// New line `n` is kept by some op.
pub open spec fn is_kept(ops: Seq<DiffOp>, n: nat) -> bool {
    keeper(ops, n, ops.len()) is Some
}

/// The nearest kept new line before `i`.
pub open spec fn kept_before(ops: Seq<DiffOp>, i: nat) -> Option<nat>
    decreases i,
{
    if i == 0 {
        None
    } else if is_kept(ops, (i - 1) as nat) {
        Some((i - 1) as nat)
    } else {
        kept_before(ops, (i - 1) as nat)
    }
}

/// The nearest kept new line after `i`, below `len`.
pub open spec fn kept_after(ops: Seq<DiffOp>, i: nat, len: nat) -> Option<nat>
    decreases len - i,
{
    if i + 1 >= len {
        None
    } else if is_kept(ops, i + 1) {
        Some(i + 1)
    } else {
        kept_after(ops, i + 1, len)
    }
}

/// The paragraph shown by the old line that keeps new line `j`.
pub open spec fn kept_pid(r: RenderedV, ops: Seq<DiffOp>, j: nat) -> Option<Seq<char>> {
    pid_at(r.para_map, keeper(ops, j, ops.len())->0 + 1)
}

/// The kept new line `j` shows a list item.
pub open spec fn kept_is_list(ps: Seq<ParaV>, r: RenderedV, ops: Seq<DiffOp>, j: nat) -> bool {
    match kept_pid(r, ops, j) {
        Some(pid) => match find_para(ps, pid) {
            Some(i) => is_list(ps[i as int]),
            None => false,
        },
        None => false,
    }
}

/// A new paragraph to insert: anchor identifier, side, typed text.
pub type InsertV = (Seq<char>, InsertPosition, Seq<char>);

/// The insertion a new line `i` that no op keeps asks for: after the
/// nearest kept line before it, or before the nearest kept line after it
/// when there is none before or the one before is a list item and the one
/// after is not; before the first paragraph when no line is kept at all;
/// none when the anchor line shows no paragraph or the document is empty.
pub open spec fn insert_for(ps: Seq<ParaV>, r: RenderedV, ops: Seq<DiffOp>, new: Seq<Seq<char>>, i: nat) -> Option<InsertV> {
    let before = kept_before(ops, i);
    let after = kept_after(ops, i, new.len());
    let choice: Option<(nat, InsertPosition)> = match before {
        Some(b) => match after {
            Some(a) => if kept_is_list(ps, r, ops, b) && !kept_is_list(ps, r, ops, a) {
                Some((a, InsertPosition::Before))
            } else {
                Some((b, InsertPosition::After))
            },
            None => Some((b, InsertPosition::After)),
        },
        None => match after {
            Some(a) => Some((a, InsertPosition::Before)),
            None => None,
        },
    };
    match choice {
        Some((an, pos)) => match kept_pid(r, ops, an) {
            Some(pid) => Some((pid, pos, new[i as int])),
            None => None,
        },
        None => if ps.len() > 0 { Some((ps[0].id, InsertPosition::Before, new[i as int])) } else { None },
    }
}

/// The nearest kept line before `i` is kept and lies before `i`; when there
/// is none, no line before `i` is kept.
proof fn lemma_kept_before(ops: Seq<DiffOp>, i: nat)
    ensures
        kept_before(ops, i) matches Some(b) ==> b < i && is_kept(ops, b),
        kept_before(ops, i) is None ==> forall|a: nat| a < i ==> !#[trigger] is_kept(ops, a),
    decreases i,
{
    if i > 0 && !is_kept(ops, (i - 1) as nat) {
        lemma_kept_before(ops, (i - 1) as nat);
    }
}

/// The nearest kept line after `i` is kept and lies after `i`, below
/// `len`; when there is none, no line after `i` below `len` is kept.
proof fn lemma_kept_after(ops: Seq<DiffOp>, i: nat, len: nat)
    ensures
        kept_after(ops, i, len) matches Some(a) ==> i < a < len && is_kept(ops, a),
        kept_after(ops, i, len) is None ==> forall|a: nat| i < a < len ==> !#[trigger] is_kept(ops, a),
    decreases len - i,
{
    if i + 1 < len && !is_kept(ops, i + 1) {
        lemma_kept_after(ops, i + 1, len);
    }
}

/// A new line that no op keeps is inserted where it keeps its place in
/// the buffer: after the paragraph shown on a kept line above it, or
/// before the paragraph shown on a kept line below it; when no line at
/// all is kept, before the first paragraph. The new paragraph carries the
/// line's text.
pub proof fn lemma_insert_keeps_buffer_order(ps: Seq<ParaV>, r: RenderedV, ops: Seq<DiffOp>, new: Seq<Seq<char>>, i: nat)
    requires
        i < new.len(),
        !is_kept(ops, i),
    ensures
        insert_for(ps, r, ops, new, i) matches Some(x) ==> {
            &&& x.2 == new[i as int]
            &&& x.1 == InsertPosition::After ==> exists|a: nat|
                a < i && #[trigger] is_kept(ops, a) && kept_pid(r, ops, a) == Some(x.0)
            &&& x.1 == InsertPosition::Before ==> (exists|a: nat|
                i < a < new.len() && #[trigger] is_kept(ops, a) && kept_pid(r, ops, a) == Some(x.0)) || (ps.len() > 0
                && x.0 == ps[0].id && forall|a: nat| a < new.len() ==> !#[trigger] is_kept(ops, a))
        },
{
    lemma_kept_before(ops, i);
    lemma_kept_after(ops, i, new.len());
    if let Some(x) = insert_for(ps, r, ops, new, i) {
        match kept_before(ops, i) {
            Some(b) => match kept_after(ops, i, new.len()) {
                Some(a) => {
                    assert(is_kept(ops, a) && is_kept(ops, b));
                },
                None => {
                    assert(is_kept(ops, b));
                },
            },
            None => match kept_after(ops, i, new.len()) {
                Some(a) => {
                    assert(is_kept(ops, a));
                },
                None => {
                    assert forall|a: nat| a < new.len() implies !#[trigger] is_kept(ops, a) by {
                        if a > i {
                        } else if a < i {
                        }
                    }
                },
            },
        }
    }
}

/// Every insertion a save asks for is the insertion of a new line from `i`
/// on that no op keeps, in the order of the lines.
pub proof fn lemma_inserts_from_lines(ps: Seq<ParaV>, r: RenderedV, ops: Seq<DiffOp>, new: Seq<Seq<char>>, i: nat)
    ensures
        forall|k: int|
            0 <= k < inserts_from(ps, r, ops, new, i).len() ==> exists|j: nat|
                i <= j < new.len() && !is_kept(ops, j) && #[trigger] insert_for(ps, r, ops, new, j) == Some(
                    #[trigger] inserts_from(ps, r, ops, new, i)[k],
                ),
    decreases new.len() - i,
{
    if i < new.len() {
        lemma_inserts_from_lines(ps, r, ops, new, i + 1);
        let rest = inserts_from(ps, r, ops, new, i + 1);
        let all = inserts_from(ps, r, ops, new, i);
        if !is_kept(ops, i) {
            if let Some(x) = insert_for(ps, r, ops, new, i) {
                assert forall|k: int| 0 <= k < all.len() implies exists|j: nat|
                    i <= j < new.len() && !is_kept(ops, j) && #[trigger] insert_for(ps, r, ops, new, j) == Some(
                        #[trigger] all[k],
                    ) by {
                    if k == 0 {
                        assert(insert_for(ps, r, ops, new, i) == Some(all[0]));
                    } else {
                        assert(all[k] == rest[k - 1]);
                    }
                }
            }
        }
    }
}

/// The insertions of the new lines `i..` that no op keeps.
pub open spec fn inserts_from(ps: Seq<ParaV>, r: RenderedV, ops: Seq<DiffOp>, new: Seq<Seq<char>>, i: nat) -> Seq<InsertV>
    decreases new.len() - i,
{
    if i >= new.len() {
        Seq::empty()
    } else {
        let rest = inserts_from(ps, r, ops, new, i + 1);
        if is_kept(ops, i) {
            rest
        } else {
            match insert_for(ps, r, ops, new, i) {
                Some(x) => seq![x] + rest,
                None => rest,
            }
        }
    }
}

/// The paragraphs after the edits, in order: each edit rewrites the
/// first paragraph with its identifier.
pub open spec fn apply_edits(ps: Seq<ParaV>, edits: Seq<EditV>) -> Seq<ParaV>
    decreases edits.len(),
{
    if edits.len() == 0 {
        ps
    } else {
        let ps1 = apply_edits(ps, edits.drop_last());
        let e = edits.last();
        match find_para(ps1, e.0) {
            Some(i) => ps1.update(i as int, text_applied(ps1[i as int], e.1, e.2)),
            None => ps1,
        }
    }
}

/// The edited list items that became empty (no drawing, only white
/// space): they are deleted too.
pub open spec fn auto_deletes(ps: Seq<ParaV>, edits: Seq<EditV>) -> Seq<Seq<char>>
    decreases edits.len(),
{
    if edits.len() == 0 {
        Seq::empty()
    } else {
        let rest = auto_deletes(ps, edits.drop_last());
        let pid = edits.last().0;
        match find_para(ps, pid) {
            Some(i) => {
                let p = ps[i as int];
                if is_list(p) && !has_drawing(p.runs) && trim(plain_text(p.runs)).len() == 0 {
                    rest.push(pid)
                } else {
                    rest
                }
            },
            None => rest,
        }
    }
}

/// `extra` added to `dels`, each unless it is there.
pub open spec fn merge_deletes(dels: Seq<Seq<char>>, extra: Seq<Seq<char>>) -> Seq<Seq<char>>
    decreases extra.len(),
{
    if extra.len() == 0 {
        dels
    } else {
        add_unique(merge_deletes(dels, extra.drop_last()), extra.last())
    }
}

/// The paragraphs to insert, with their XML: an insertion is dropped when
/// its anchor is missing or in a table, or when the anchor is a list item
/// and the typed line holds nothing but a list marker.
pub open spec fn pending_of(ps: Seq<ParaV>, ins: Seq<InsertV>) -> Seq<(Seq<char>, InsertPosition, Seq<char>)>
    decreases ins.len(),
{
    if ins.len() == 0 {
        Seq::empty()
    } else {
        let rest = pending_of(ps, ins.drop_last());
        let (pid, pos, text) = ins.last();
        match find_para(ps, pid) {
            Some(i) => {
                let a = ps[i as int];
                if is_cell(a) || (is_list(a) && trim(strip_list_marker(text)).len() == 0) {
                    rest
                } else {
                    rest.push((pid, pos, inherited_paragraph_xml(a, text)))
                }
            },
            None => rest,
        }
    }
}

/// The paragraphs that stay.
pub open spec fn kept_paras(ps: Seq<ParaV>, dels: Seq<Seq<char>>) -> Seq<ParaV>
    decreases ps.len(),
{
    if ps.len() == 0 {
        Seq::empty()
    } else {
        let r = kept_paras(ps.drop_last(), dels);
        if dels.contains(ps.last().id) { r } else { r.push(ps.last()) }
    }
}

/// The ranges and identifiers of the paragraphs that go.
pub open spec fn deleted_of(ps: Seq<ParaV>, dels: Seq<Seq<char>>) -> Seq<(usize, usize, Seq<char>)>
    decreases ps.len(),
{
    if ps.len() == 0 {
        Seq::empty()
    } else {
        let r = deleted_of(ps.drop_last(), dels);
        let p = ps.last();
        if dels.contains(p.id) { r.push((p.byte_range.0, p.byte_range.1, p.id)) } else { r }
    }
}

/// The document to rebuild: edited paragraphs, without the deleted ones
/// (whose ranges replace the earlier deletions, when there are any), and
/// the new paragraphs added to those pending.
pub open spec fn final_doc(d: DocV, ps: Seq<ParaV>, dels: Seq<Seq<char>>, pend: Seq<(Seq<char>, InsertPosition, Seq<char>)>) -> DocV {
    DocV {
        paragraphs: if dels.len() == 0 { ps } else { kept_paras(ps, dels) },
        deleted_ranges: if dels.len() == 0 { d.deleted_ranges } else { deleted_of(ps, dels) },
        pending_inserts: d.pending_inserts + pend,
        ..d
    }
}

/// The old lines of the buffer: the rendering, without trailing line
/// feeds, split at line feeds.
pub open spec fn old_buffer_lines(d: DocV, nm: Map<(u32, u32), (Seq<char>, Seq<char>)>) -> Seq<Seq<char>> {
    split_on(trim_nl(rendered(d.paragraphs, nm).text), '\n')
}

/// What saving the buffer `new_text` over document `d` gives: the
/// original bytes when the buffer reads as the rendering; an error when a
/// table border was deleted alone; otherwise the rebuilt XML of the
/// document with the edits, deletions and insertions the buffer asks for.
pub open spec fn save_result(
    d: DocV,
    new_text: Seq<char>,
    nm: Map<(u32, u32), (Seq<char>, Seq<char>)>,
) -> Result<Seq<u8>, Seq<char>> {
    let r = rendered(d.paragraphs, nm);
    let old = old_buffer_lines(d, nm);
    let new = split_on(trim_nl(new_text), '\n');
    if old == new {
        Ok(d.original_xml)
    } else {
        let ops = diff_ops(old, new);
        let p0 = tables_plan(d.paragraphs, r.cell_map, old, new, Plan { edits: Seq::empty(), deletes: Seq::empty() });
        let st = ops_from(d.paragraphs, r, old, new, ops, 0, OpsState { plan: p0, marker_dels: Seq::empty(), deleted_old: Seq::empty() });
        match bad_marker(r, old.len(), st.deleted_old, st.marker_dels, 0) {
            Some(idx) => Err(marker_message(idx)),
            None => {
                let ins = inserts_from(d.paragraphs, r, ops, new, 0);
                let ps1 = apply_edits(d.paragraphs, st.plan.edits);
                let dels = merge_deletes(st.plan.deletes, auto_deletes(ps1, st.plan.edits));
                Ok(rebuild_bytes(final_doc(d, ps1, dels, pending_of(ps1, ins))))
            },
        }
    }
}

/// What a save needs of the document: what rendering needs, the byte
/// ranges within the XML, and estimated line prefixes that fit a `usize`.
pub open spec fn save_limits(d: DocV) -> bool {
    &&& render_limits(d.paragraphs)
    &&& ranges_ok(d)
    &&& forall|i: int| 0 <= i < d.paragraphs.len() ==> prefix_len_estimate(#[trigger] d.paragraphs[i]) <= usize::MAX
}

// ---------------------------------------------------------------------
// Saving a buffer, in memory
// ---------------------------------------------------------------------

/// Whether the first paragraph with identifier `pid` is in a table cell.
fn para_in_table_exec(ps: &Vec<Paragraph>, pid: &str) -> (b: bool)
    ensures
        b == para_in_table(crate::render::paras_view(ps@), pid@),
{
    match find_para_exec(ps, pid) {
        Some(i) => {
            assert(crate::render::paras_view(ps@)[i as int] == ps@[i as int]@);
            crate::render::cell_info(&ps[i]).0
        },
        None => false,
    }
}

/// The walk over the ops (see `ops_step`).
fn ops_walk(
    ps: &Vec<Paragraph>,
    r: &crate::render::Rendered,
    old_lines: &Vec<Vec<char>>,
    new_lines: &Vec<Vec<char>>,
    ops: &Vec<DiffOp>,
    edits: &mut Vec<(String, String, String)>,
    deletes: &mut Vec<String>,
    marker_dels: &mut Vec<usize>,
    deleted_old: &mut Vec<usize>,
)
    requires
        ops@.len() == old_lines@.len(),
        forall|k: int| 0 <= k < ops@.len() ==> (#[trigger] ops@[k] matches DiffOp::Keep(j) ==> j < new_lines@.len()),
    ensures
        ({
            let st = ops_from(
                crate::render::paras_view(ps@),
                r@,
                lines_view(old_lines@),
                lines_view(new_lines@),
                ops@,
                0,
                OpsState {
                    plan: crate::cells::plan_of(old(edits)@, old(deletes)@),
                    marker_dels: crate::cells::nats(old(marker_dels)@),
                    deleted_old: crate::cells::nats(old(deleted_old)@),
                },
            );
            &&& crate::cells::plan_of(final(edits)@, final(deletes)@) == st.plan
            &&& crate::cells::nats(final(marker_dels)@) == st.marker_dels
            &&& crate::cells::nats(final(deleted_old)@) == st.deleted_old
        }),
        forall|k: int| 0 <= k < final(marker_dels)@.len() ==> #[trigger] final(marker_dels)@[k] < old_lines@.len()
            || exists|q: int| 0 <= q < old(marker_dels)@.len() && old(marker_dels)@[q] == final(marker_dels)@[k],
{
    let ghost pv = crate::render::paras_view(ps@);
    let ghost ov = lines_view(old_lines@);
    let ghost nv = lines_view(new_lines@);
    let ghost st0 = OpsState {
        plan: crate::cells::plan_of(edits@, deletes@),
        marker_dels: crate::cells::nats(marker_dels@),
        deleted_old: crate::cells::nats(deleted_old@),
    };
    let ghost md0 = marker_dels@;
    let mut k: usize = 0;
    while k < ops.len()
        invariant
            pv == crate::render::paras_view(ps@),
            ov == lines_view(old_lines@),
            nv == lines_view(new_lines@),
            ops@.len() == old_lines@.len(),
            forall|q: int| 0 <= q < ops@.len() ==> (#[trigger] ops@[q] matches DiffOp::Keep(j) ==> j < new_lines@.len()),
            k <= ops@.len(),
            ops_from(pv, r@, ov, nv, ops@, k as nat, OpsState {
                plan: crate::cells::plan_of(edits@, deletes@),
                marker_dels: crate::cells::nats(marker_dels@),
                deleted_old: crate::cells::nats(deleted_old@),
            }) == ops_from(pv, r@, ov, nv, ops@, 0, st0),
            forall|q: int| 0 <= q < marker_dels@.len() ==> #[trigger] marker_dels@[q] < old_lines@.len()
                || exists|x: int| 0 <= x < md0.len() && md0[x] == marker_dels@[q],
        decreases ops@.len() - k,
    {
        let ghost before = OpsState {
            plan: crate::cells::plan_of(edits@, deletes@),
            marker_dels: crate::cells::nats(marker_dels@),
            deleted_old: crate::cells::nats(deleted_old@),
        };
        let pid = pid_of_line(&r.para_map, k);
        match ops[k] {
            DiffOp::Delete => {
                match pid {
                    None => {
                        let ghost m0 = marker_dels@;
                        marker_dels.push(k);
                        assert(crate::cells::nats(marker_dels@) =~= crate::cells::nats(m0).push(k as nat));
                        assert forall|q: int| 0 <= q < marker_dels@.len() implies #[trigger] marker_dels@[q] < old_lines@.len()
                            || exists|x: int| 0 <= x < md0.len() && md0[x] == marker_dels@[q] by {
                            if q < m0.len() {
                                assert(marker_dels@[q] == m0[q]);
                            }
                        }
                    },
                    Some(id) => {
                        if !para_in_table_exec(ps, id.as_str()) {
                            let ghost d0 = crate::render::strs_view(deletes@);
                            let ghost o0 = deleted_old@;
                            let ghost idv = id@;
                            deletes.push(id);
                            deleted_old.push(k);
                            assert(crate::render::strs_view(deletes@) =~= d0.push(idv));
                            assert(crate::cells::nats(deleted_old@) =~= crate::cells::nats(o0).push(k as nat));
                        }
                    },
                }
            },
            DiffOp::Keep(n) => {
                assert(ov[k as int] == old_lines@[k as int]@);
                assert(nv[n as int] == new_lines@[n as int]@);
                if !crate::diff::lines_eq(&old_lines[k], &new_lines[n]) {
                    match pid {
                        None => {},
                        Some(id) => {
                            if !para_in_table_exec(ps, id.as_str()) {
                                let ghost e0 = crate::cells::edits_view(edits@);
                                let ghost idv = id@;
                                let nl = string_of(new_lines[n].as_slice());
                                let ol = string_of(old_lines[k].as_slice());
                                edits.push((id, nl, ol));
                                assert(crate::cells::edits_view(edits@) =~= e0.push((idv, nv[n as int], ov[k as int])));
                            }
                        },
                    }
                }
            },
        }
        assert(OpsState {
            plan: crate::cells::plan_of(edits@, deletes@),
            marker_dels: crate::cells::nats(marker_dels@),
            deleted_old: crate::cells::nats(deleted_old@),
        } == ops_step(pv, r@, ov, nv, ops@[k as int], k as nat, before));
        k += 1;
    }
}

/// Whether `v` holds `x`.
fn contains_usize(v: &Vec<usize>, x: usize) -> (b: bool)
    ensures
        b == crate::cells::nats(v@).contains(x as nat),
{
    let mut k: usize = 0;
    while k < v.len()
        invariant
            k <= v@.len(),
            forall|q: int| 0 <= q < k ==> crate::cells::nats(v@)[q] != x as nat,
        decreases v@.len() - k,
    {
        if v[k] == x {
            assert(crate::cells::nats(v@)[k as int] == x as nat);
            return true;
        }
        k += 1;
    }
    false
}

/// The first deleted border that is not allowed.
fn bad_marker_exec(r: &crate::render::Rendered, n_old: usize, deleted_old: &Vec<usize>, mds: &Vec<usize>) -> (res: Option<usize>)
    requires
        forall|q: int| 0 <= q < mds@.len() ==> #[trigger] mds@[q] < n_old,
    ensures
        match res {
            Some(i) => bad_marker(r@, n_old as nat, crate::cells::nats(deleted_old@), crate::cells::nats(mds@), 0) == Some(i as nat),
            None => bad_marker(r@, n_old as nat, crate::cells::nats(deleted_old@), crate::cells::nats(mds@), 0) is None,
        },
        res matches Some(i) ==> i < n_old,
{
    let ghost dv = crate::cells::nats(deleted_old@);
    let ghost mv = crate::cells::nats(mds@);
    let mut k: usize = 0;
    while k < mds.len()
        invariant
            dv == crate::cells::nats(deleted_old@),
            mv == crate::cells::nats(mds@),
            forall|q: int| 0 <= q < mds@.len() ==> #[trigger] mds@[q] < n_old,
            k <= mds@.len(),
            bad_marker(r@, n_old as nat, dv, mv, 0) == bad_marker(r@, n_old as nat, dv, mv, k as nat),
        decreases mds@.len() - k,
    {
        let idx = mds[k];
        assert(mv[k as int] == idx as nat);
        let prev = idx > 0 && (contains_usize(deleted_old, idx - 1) || pid_of_line(&r.para_map, idx - 1).is_none());
        let next = idx + 1 < n_old && (contains_usize(deleted_old, idx + 1) || pid_of_line(&r.para_map, idx + 1).is_none());
        if !prev && !next {
            return Some(idx);
        }
        k += 1;
    }
    None
}

/// The message for a border line deleted alone.
fn marker_message_exec(idx: usize) -> (s: String)
    requires
        idx < usize::MAX,
    ensures
        s@ == marker_message(idx as nat),
{
    let mut s = String::new();
    crate::text::push_str(&mut s, "Line ");
    crate::text::push_dec(&mut s, (idx + 1) as u64);
    crate::text::push_str(&mut s, " is a structural marker (table border) — cannot be deleted alone");
    assert(s@ =~= marker_message(idx as nat));
    s
}

/// For every new line, the last op that keeps it.
fn keepers(ops: &Vec<DiffOp>, n: usize) -> (v: Vec<Option<usize>>)
    ensures
        v@.len() == n,
        forall|j: int| 0 <= j < n ==> match #[trigger] v@[j] {
            Some(k) => keeper(ops@, j as nat, ops@.len()) == Some(k as nat) && k < ops@.len(),
            None => keeper(ops@, j as nat, ops@.len()) is None,
        },
{
    let mut v: Vec<Option<usize>> = Vec::new();
    let mut j: usize = 0;
    while j < n
        invariant
            j <= n,
            v@.len() == j,
            forall|x: int| 0 <= x < j ==> v@[x] is None,
        decreases n - j,
    {
        v.push(None);
        j += 1;
    }
    let mut k: usize = 0;
    while k < ops.len()
        invariant
            v@.len() == n,
            k <= ops@.len(),
            forall|x: int| 0 <= x < n ==> match #[trigger] v@[x] {
                Some(q) => keeper(ops@, x as nat, k as nat) == Some(q as nat) && q < k,
                None => keeper(ops@, x as nat, k as nat) is None,
            },
        decreases ops@.len() - k,
    {
        match ops[k] {
            DiffOp::Keep(x) => {
                if x < n {
                    v.set(x, Some(k));
                }
            },
            DiffOp::Delete => {},
        }
        k += 1;
    }
    v
}

/// The paragraph shown by the old line that keeps new line `j`.
fn kept_pid_exec(r: &crate::render::Rendered, owners: &Vec<Option<usize>>, j: usize, ghost_ops: Ghost<Seq<DiffOp>>) -> (p: Option<String>)
    requires
        j < owners@.len(),
        match owners@[j as int] {
            Some(k) => keeper(ghost_ops@, j as nat, ghost_ops@.len()) == Some(k as nat),
            None => keeper(ghost_ops@, j as nat, ghost_ops@.len()) is None,
        },
        keeper(ghost_ops@, j as nat, ghost_ops@.len()) is Some,
    ensures
        crate::model::opt_str(p) == kept_pid(r@, ghost_ops@, j as nat),
{
    match owners[j] {
        Some(k) => pid_of_line(&r.para_map, k),
        None => None,
    }
}

/// Whether the kept new line `j` shows a list item.
fn kept_is_list_exec(ps: &Vec<Paragraph>, r: &crate::render::Rendered, owners: &Vec<Option<usize>>, j: usize, ghost_ops: Ghost<Seq<DiffOp>>) -> (b: bool)
    requires
        j < owners@.len(),
        match owners@[j as int] {
            Some(k) => keeper(ghost_ops@, j as nat, ghost_ops@.len()) == Some(k as nat),
            None => keeper(ghost_ops@, j as nat, ghost_ops@.len()) is None,
        },
        keeper(ghost_ops@, j as nat, ghost_ops@.len()) is Some,
    ensures
        b == kept_is_list(crate::render::paras_view(ps@), r@, ghost_ops@, j as nat),
{
    match kept_pid_exec(r, owners, j, ghost_ops) {
        Some(pid) => match find_para_exec(ps, pid.as_str()) {
            Some(i) => {
                assert(crate::render::paras_view(ps@)[i as int] == ps@[i as int]@);
                crate::render::is_list_exec(&ps[i])
            },
            None => false,
        },
        None => false,
    }
}

/// The views of insertions.
pub open spec fn inserts_view(v: Seq<(String, InsertPosition, String)>) -> Seq<InsertV> {
    v.map_values(|e: (String, InsertPosition, String)| (e.0@, e.1, e.2@))
}

/// Which new lines are kept, as `keepers` gives it.
pub open spec fn owners_ok(owners: Seq<Option<usize>>, ops: Seq<DiffOp>) -> bool {
    forall|j: int| 0 <= j < owners.len() ==> match #[trigger] owners[j] {
        Some(k) => keeper(ops, j as nat, ops.len()) == Some(k as nat) && k < ops.len(),
        None => keeper(ops, j as nat, ops.len()) is None,
    }
}

/// The nearest kept new line before `i`.
fn kept_before_exec(owners: &Vec<Option<usize>>, i: usize, ghost_ops: Ghost<Seq<DiffOp>>) -> (r: Option<usize>)
    requires
        i < owners@.len(),
        owners_ok(owners@, ghost_ops@),
    ensures
        match r {
            Some(x) => kept_before(ghost_ops@, i as nat) == Some(x as nat) && x < i
                && keeper(ghost_ops@, x as nat, ghost_ops@.len()) is Some,
            None => kept_before(ghost_ops@, i as nat) is None,
        },
{
    let mut b = i;
    while b > 0
        invariant
            owners_ok(owners@, ghost_ops@),
            b <= i < owners@.len(),
            kept_before(ghost_ops@, i as nat) == kept_before(ghost_ops@, b as nat),
        decreases b,
    {
        let _ = owners[b - 1];
        if owners[b - 1].is_some() {
            return Some(b - 1);
        }
        b -= 1;
    }
    None
}

/// The nearest kept new line after `i`.
fn kept_after_exec(owners: &Vec<Option<usize>>, i: usize, ghost_ops: Ghost<Seq<DiffOp>>) -> (r: Option<usize>)
    requires
        i < owners@.len(),
        owners_ok(owners@, ghost_ops@),
    ensures
        match r {
            Some(x) => kept_after(ghost_ops@, i as nat, owners@.len()) == Some(x as nat) && x < owners@.len()
                && keeper(ghost_ops@, x as nat, ghost_ops@.len()) is Some,
            None => kept_after(ghost_ops@, i as nat, owners@.len()) is None,
        },
{
    let n = owners.len();
    let mut a = i;
    while a + 1 < n
        invariant
            n == owners@.len(),
            owners_ok(owners@, ghost_ops@),
            i <= a < n,
            kept_after(ghost_ops@, i as nat, n as nat) == kept_after(ghost_ops@, a as nat, n as nat),
        decreases n - a,
    {
        let _ = owners[a + 1];
        if owners[a + 1].is_some() {
            return Some(a + 1);
        }
        a += 1;
    }
    None
}

/// The insertions that the new lines no op keeps ask for.
fn collect_inserts(ps: &Vec<Paragraph>, r: &crate::render::Rendered, ops: &Vec<DiffOp>, new_lines: &Vec<Vec<char>>) -> (v: Vec<(String, InsertPosition, String)>)
    ensures
        inserts_view(v@) == inserts_from(crate::render::paras_view(ps@), r@, ops@, lines_view(new_lines@), 0),
{
    let ghost pv = crate::render::paras_view(ps@);
    let ghost nv = lines_view(new_lines@);
    let n = new_lines.len();
    let owners = keepers(ops, n);
    let mut v: Vec<(String, InsertPosition, String)> = Vec::new();
    let mut i: usize = 0;
    while i < n
        invariant
            pv == crate::render::paras_view(ps@),
            nv == lines_view(new_lines@),
            n == new_lines@.len(),
            owners@.len() == n,
            forall|j: int| 0 <= j < n ==> match #[trigger] owners@[j] {
                Some(k) => keeper(ops@, j as nat, ops@.len()) == Some(k as nat) && k < ops@.len(),
                None => keeper(ops@, j as nat, ops@.len()) is None,
            },
            i <= n,
            inserts_from(pv, r@, ops@, nv, 0) == inserts_view(v@) + inserts_from(pv, r@, ops@, nv, i as nat),
        decreases n - i,
    {
        let ghost v0 = inserts_view(v@);
        let ghost rest = inserts_from(pv, r@, ops@, nv, (i + 1) as nat);
        let _ = owners[i];
        if owners[i].is_none() {
            let before = kept_before_exec(&owners, i, Ghost(ops@));
            let after = kept_after_exec(&owners, i, Ghost(ops@));
            let choice: Option<(usize, InsertPosition)> = match before {
                Some(bb) => match after {
                    Some(aa) => {
                        if kept_is_list_exec(ps, r, &owners, bb, Ghost(ops@)) && !kept_is_list_exec(ps, r, &owners, aa, Ghost(ops@)) {
                            Some((aa, InsertPosition::Before))
                        } else {
                            Some((bb, InsertPosition::After))
                        }
                    },
                    None => Some((bb, InsertPosition::After)),
                },
                None => match after {
                    Some(aa) => Some((aa, InsertPosition::Before)),
                    None => None,
                },
            };
            assert(nv[i as int] == new_lines@[i as int]@);
            let item: Option<(String, InsertPosition, String)> = match choice {
                Some((an, pos)) => match kept_pid_exec(r, &owners, an, Ghost(ops@)) {
                    Some(pid) => Some((pid, pos, string_of(new_lines[i].as_slice()))),
                    None => None,
                },
                None => {
                    if ps.len() > 0 {
                        assert(pv[0] == ps@[0]@);
                        Some((ps[0].id.clone(), InsertPosition::Before, string_of(new_lines[i].as_slice())))
                    } else {
                        None
                    }
                },
            };
            match item {
                Some(x) => {
                    let ghost xv = (x.0@, x.1, x.2@);
                    assert(insert_for(pv, r@, ops@, nv, i as nat) == Some(xv));
                    v.push(x);
                    assert(inserts_view(v@) =~= v0.push(xv));
                    assert(v0 + (seq![xv] + rest) =~= v0.push(xv) + rest);
                },
                None => {
                    assert(insert_for(pv, r@, ops@, nv, i as nat) is None);
                },
            }
        }
        i += 1;
    }
    assert(inserts_view(v@) + inserts_from(pv, r@, ops@, nv, n as nat) =~= inserts_view(v@));
    v
}

/// Every paragraph's estimated line prefix fits a `usize`.
pub open spec fn prefixes_fit(ps: Seq<ParaV>) -> bool {
    forall|i: int| 0 <= i < ps.len() ==> prefix_len_estimate(#[trigger] ps[i]) <= usize::MAX
}

/// Applies the edits, in order, each to the first paragraph with its
/// identifier.
fn apply_edits_exec(paras: &mut Vec<Paragraph>, edits: &Vec<(String, String, String)>)
    requires
        prefixes_fit(crate::render::paras_view(old(paras)@)),
    ensures
        crate::render::paras_view(final(paras)@) == apply_edits(
            crate::render::paras_view(old(paras)@),
            crate::cells::edits_view(edits@),
        ),
{
    let ghost p0 = crate::render::paras_view(paras@);
    let ghost ev = crate::cells::edits_view(edits@);
    let mut k: usize = 0;
    while k < edits.len()
        invariant
            ev == crate::cells::edits_view(edits@),
            k <= edits@.len(),
            crate::render::paras_view(paras@) == apply_edits(p0, ev.take(k as int)),
            prefixes_fit(crate::render::paras_view(paras@)),
        decreases edits@.len() - k,
    {
        assert(ev.take(k + 1).drop_last() == ev.take(k as int));
        assert(ev.take(k + 1).last() == ev[k as int]);
        let e = &edits[k];
        let ghost pv = crate::render::paras_view(paras@);
        match find_para_exec(paras, e.0.as_str()) {
            Some(i) => {
                assert(pv[i as int] == paras@[i as int]@);
                let mut p = paras.remove(i);
                apply_text_to_paragraph(&mut p, e.1.as_str(), e.2.as_str());
                let ghost pn = p@;
                paras.insert(i, p);
                assert(crate::render::paras_view(paras@) =~= pv.update(i as int, pn));
                assert forall|q: int| 0 <= q < paras@.len() implies prefix_len_estimate(#[trigger] crate::render::paras_view(paras@)[q]) <= usize::MAX by {
                    if q != i {
                        assert(crate::render::paras_view(paras@)[q] == pv[q]);
                    }
                }
            },
            None => {},
        }
        k += 1;
    }
    assert(ev.take(k as int) == ev);
}

/// The edited list items that became empty.
fn auto_deletes_exec(paras: &Vec<Paragraph>, edits: &Vec<(String, String, String)>) -> (v: Vec<String>)
    ensures
        crate::render::strs_view(v@) == auto_deletes(
            crate::render::paras_view(paras@),
            crate::cells::edits_view(edits@),
        ),
{
    let ghost pv = crate::render::paras_view(paras@);
    let ghost ev = crate::cells::edits_view(edits@);
    let mut v: Vec<String> = Vec::new();
    let mut k: usize = 0;
    while k < edits.len()
        invariant
            pv == crate::render::paras_view(paras@),
            ev == crate::cells::edits_view(edits@),
            k <= edits@.len(),
            crate::render::strs_view(v@) == auto_deletes(pv, ev.take(k as int)),
        decreases edits@.len() - k,
    {
        assert(ev.take(k + 1).drop_last() == ev.take(k as int));
        assert(ev.take(k + 1).last() == ev[k as int]);
        let e = &edits[k];
        match find_para_exec(paras, e.0.as_str()) {
            Some(i) => {
                let p = &paras[i];
                assert(pv[i as int] == p@);
                if crate::render::is_list_exec(p) && !crate::edit::paragraph_has_drawing(p) {
                    let t = crate::edit::paragraph_plain_text(p);
                    let tt = crate::text::trim_str(t.as_str());
                    if tt.as_str().is_empty() {
                        let ghost v0 = crate::render::strs_view(v@);
                        v.push(e.0.clone());
                        assert(crate::render::strs_view(v@) =~= v0.push(ev[k as int].0));
                    }
                }
            },
            None => {},
        }
        k += 1;
    }
    assert(ev.take(k as int) == ev);
    v
}

/// Adds the identifiers of `extra` to `dels`, each unless it is there.
fn merge_deletes_exec(dels: &mut Vec<String>, extra: &Vec<String>)
    ensures
        crate::render::strs_view(final(dels)@) == merge_deletes(
            crate::render::strs_view(old(dels)@),
            crate::render::strs_view(extra@),
        ),
{
    let ghost d0 = crate::render::strs_view(dels@);
    let ghost xv = crate::render::strs_view(extra@);
    let mut k: usize = 0;
    while k < extra.len()
        invariant
            xv == crate::render::strs_view(extra@),
            k <= extra@.len(),
            crate::render::strs_view(dels@) == merge_deletes(d0, xv.take(k as int)),
        decreases extra@.len() - k,
    {
        assert(xv.take(k + 1).drop_last() == xv.take(k as int));
        assert(xv.take(k + 1).last() == xv[k as int]);
        if !crate::cells::contains_str(dels, extra[k].as_str()) {
            let ghost v0 = crate::render::strs_view(dels@);
            dels.push(extra[k].clone());
            assert(crate::render::strs_view(dels@) =~= v0.push(xv[k as int]));
        }
        k += 1;
    }
    assert(xv.take(k as int) == xv);
}

/// The views of pending insertions.
pub open spec fn pend_view(v: Seq<(String, InsertPosition, String)>) -> Seq<(Seq<char>, InsertPosition, Seq<char>)> {
    v.map_values(|e: (String, InsertPosition, String)| (e.0@, e.1, e.2@))
}

/// Appends the paragraphs to insert, with their XML.
fn pending_exec(paras: &Vec<Paragraph>, ins: &Vec<(String, InsertPosition, String)>, pend: &mut Vec<(String, InsertPosition, String)>)
    ensures
        pend_view(final(pend)@) == pend_view(old(pend)@) + pending_of(
            crate::render::paras_view(paras@),
            inserts_view(ins@),
        ),
{
    let ghost pv = crate::render::paras_view(paras@);
    let ghost iv = inserts_view(ins@);
    let ghost e0 = pend_view(pend@);
    let mut k: usize = 0;
    while k < ins.len()
        invariant
            pv == crate::render::paras_view(paras@),
            iv == inserts_view(ins@),
            k <= ins@.len(),
            pend_view(pend@) == e0 + pending_of(pv, iv.take(k as int)),
        decreases ins@.len() - k,
    {
        assert(iv.take(k + 1).drop_last() == iv.take(k as int));
        assert(iv.take(k + 1).last() == iv[k as int]);
        let e = &ins[k];
        match find_para_exec(paras, e.0.as_str()) {
            Some(i) => {
                let a = &paras[i];
                assert(pv[i as int] == a@);
                let cell = crate::render::cell_info(a).0;
                let skip = cell || (crate::render::is_list_exec(a) && {
                    let st = crate::edit::strip_list_prefix(e.2.as_str());
                    crate::text::trim_str(st.as_str()).as_str().is_empty()
                });
                if !skip {
                    let xml = crate::edit::build_inherited_paragraph(a, e.2.as_str());
                    let ghost v0 = pend_view(pend@);
                    let ghost item = (e.0@, e.1, xml@);
                    pend.push((e.0.clone(), e.1, xml));
                    assert(pend_view(pend@) =~= v0.push(item));
                }
            },
            None => {},
        }
        assert(pend_view(pend@) =~= e0 + pending_of(pv, iv.take(k + 1)));
        k += 1;
    }
    assert(iv.take(k as int) == iv);
}

/// Edits keep every paragraph's range as it was and only ever mark
/// paragraphs changed.
proof fn lemma_edits_keep_ranges(ps: Seq<ParaV>, edits: Seq<EditV>, n: nat)
    requires
        forall|i: int| 0 <= i < ps.len() ==> para_range_ok(#[trigger] ps[i], n),
    ensures
        apply_edits(ps, edits).len() == ps.len(),
        forall|i: int| 0 <= i < ps.len() ==> para_range_ok(#[trigger] apply_edits(ps, edits)[i], n),
    decreases edits.len(),
{
    if edits.len() > 0 {
        lemma_edits_keep_ranges(ps, edits.drop_last(), n);
        let ps1 = apply_edits(ps, edits.drop_last());
        let e = edits.last();
        lemma_find_para(ps1, e.0);
        match find_para(ps1, e.0) {
            Some(i) => {
                let q = text_applied(ps1[i as int], e.1, e.2);
                assert(q.byte_range == ps1[i as int].byte_range);
                assert(!q.dirty ==> !ps1[i as int].dirty);
                assert forall|k: int| 0 <= k < ps.len() implies para_range_ok(#[trigger] apply_edits(ps, edits)[k], n) by {
                    if k != i {
                        assert(apply_edits(ps, edits)[k] == ps1[k]);
                    }
                }
            },
            None => {},
        }
    }
}

/// The paragraphs that stay keep their ranges.
proof fn lemma_kept_ranges(ps: Seq<ParaV>, dels: Seq<Seq<char>>, n: nat)
    requires
        forall|i: int| 0 <= i < ps.len() ==> para_range_ok(#[trigger] ps[i], n),
    ensures
        forall|i: int| 0 <= i < kept_paras(ps, dels).len() ==> para_range_ok(#[trigger] kept_paras(ps, dels)[i], n),
        forall|i: int| 0 <= i < deleted_of(ps, dels).len() ==> (#[trigger] deleted_of(ps, dels)[i]).0 <= n,
    decreases ps.len(),
{
    if ps.len() > 0 {
        lemma_kept_ranges(ps.drop_last(), dels, n);
        let r = kept_paras(ps.drop_last(), dels);
        let q = deleted_of(ps.drop_last(), dels);
        assert(para_range_ok(ps.last(), n));
        assert forall|i: int| 0 <= i < kept_paras(ps, dels).len() implies para_range_ok(#[trigger] kept_paras(ps, dels)[i], n) by {
            if i < r.len() {
                assert(kept_paras(ps, dels)[i] == r[i]);
            }
        }
        assert forall|i: int| 0 <= i < deleted_of(ps, dels).len() implies (#[trigger] deleted_of(ps, dels)[i]).0 <= n by {
            if i < q.len() {
                assert(deleted_of(ps, dels)[i] == q[i]);
            }
        }
    }
}

/// The document to rebuild after a save keeps its byte ranges within the
/// XML.
proof fn lemma_final_ranges(d: DocV, edits: Seq<EditV>, dels: Seq<Seq<char>>, pend: Seq<(Seq<char>, InsertPosition, Seq<char>)>)
    requires
        ranges_ok(d),
    ensures
        ranges_ok(final_doc(d, apply_edits(d.paragraphs, edits), dels, pend)),
{
    let n = d.original_xml.len();
    lemma_edits_keep_ranges(d.paragraphs, edits, n);
    lemma_kept_ranges(apply_edits(d.paragraphs, edits), dels, n);
}

/// A copy of a paragraph list.
fn clone_paragraphs(v: &Vec<Paragraph>) -> (r: Vec<Paragraph>)
    ensures
        crate::render::paras_view(r@) == crate::render::paras_view(v@),
{
    let mut r: Vec<Paragraph> = Vec::new();
    let mut k: usize = 0;
    while k < v.len()
        invariant
            k <= v@.len(),
            crate::render::paras_view(r@) == crate::render::paras_view(v@).take(k as int),
        decreases v@.len() - k,
    {
        let ghost r0 = crate::render::paras_view(r@);
        r.push(crate::model::clone_paragraph(&v[k]));
        assert(crate::render::paras_view(r@) =~= r0.push(v@[k as int]@));
        assert(crate::render::paras_view(v@).take(k + 1) =~= crate::render::paras_view(v@).take(k as int).push(v@[k as int]@));
        k += 1;
    }
    assert(crate::render::paras_view(v@).take(k as int) == crate::render::paras_view(v@));
    r
}

/// A copy of some bytes.
fn copy_bytes(v: &Vec<u8>) -> (r: Vec<u8>)
    ensures
        r@ == v@,
{
    let mut r: Vec<u8> = Vec::new();
    push_range(&mut r, v, 0, v.len());
    assert(v@.subrange(0, v@.len() as int) == v@);
    r
}

/// A copy of a document.
pub fn clone_doc(doc: &Document) -> (r: Document)
    ensures
        r@ == doc@,
{
    let mut dels: Vec<(usize, usize, String)> = Vec::new();
    let mut k: usize = 0;
    while k < doc.deleted_ranges.len()
        invariant
            k <= doc.deleted_ranges@.len(),
            dels@.len() == k,
            forall|q: int| 0 <= q < k ==> (#[trigger] dels@[q]).0 == doc.deleted_ranges@[q].0 && dels@[q].1 == doc.deleted_ranges@[q].1
                && dels@[q].2@ == doc.deleted_ranges@[q].2@,
        decreases doc.deleted_ranges@.len() - k,
    {
        let e = &doc.deleted_ranges[k];
        dels.push((e.0, e.1, e.2.clone()));
        k += 1;
    }
    let mut pend: Vec<(String, InsertPosition, String)> = Vec::new();
    let mut q: usize = 0;
    while q < doc.pending_inserts.len()
        invariant
            q <= doc.pending_inserts@.len(),
            pend@.len() == q,
            forall|x: int| 0 <= x < q ==> (#[trigger] pend@[x]).0@ == doc.pending_inserts@[x].0@ && pend@[x].1 == doc.pending_inserts@[x].1
                && pend@[x].2@ == doc.pending_inserts@[x].2@,
        decreases doc.pending_inserts@.len() - q,
    {
        let e = &doc.pending_inserts[q];
        pend.push((e.0.clone(), e.1, e.2.clone()));
        q += 1;
    }
    let r = Document {
        paragraphs: clone_paragraphs(&doc.paragraphs),
        body_inner_range: doc.body_inner_range,
        original_xml: copy_bytes(&doc.original_xml),
        deleted_ranges: dels,
        pending_inserts: pend,
    };
    assert(r@.paragraphs =~= doc@.paragraphs);
    assert(r@.deleted_ranges =~= doc@.deleted_ranges);
    assert(r@.pending_inserts =~= doc@.pending_inserts);
    r
}

/// Removes the paragraphs whose identifiers are in `dels` and records
/// their ranges as the deleted ones.
fn apply_deletes(d: &mut Document, dels: &Vec<String>)
    ensures
        final(d)@ == (DocV {
            paragraphs: kept_paras(old(d)@.paragraphs, crate::render::strs_view(dels@)),
            deleted_ranges: deleted_of(old(d)@.paragraphs, crate::render::strs_view(dels@)),
            ..old(d)@
        }),
{
    let ghost pv = old(d)@.paragraphs;
    let ghost dv = crate::render::strs_view(dels@);
    let mut kept: Vec<Paragraph> = Vec::new();
    let mut ranges: Vec<(usize, usize, String)> = Vec::new();
    let mut k: usize = 0;
    while k < d.paragraphs.len()
        invariant
            pv == d@.paragraphs,
            dv == crate::render::strs_view(dels@),
            k <= d.paragraphs@.len(),
            crate::render::paras_view(kept@) == kept_paras(pv.take(k as int), dv),
            ranges@.map_values(|e: (usize, usize, String)| (e.0, e.1, e.2@)) == deleted_of(pv.take(k as int), dv),
        decreases d.paragraphs@.len() - k,
    {
        assert(pv.take(k + 1).drop_last() == pv.take(k as int));
        assert(pv.take(k + 1).last() == d.paragraphs@[k as int]@);
        let p = &d.paragraphs[k];
        if crate::cells::contains_str(dels, p.id.as_str()) {
            let ghost r0 = ranges@.map_values(|e: (usize, usize, String)| (e.0, e.1, e.2@));
            ranges.push((p.byte_range.0, p.byte_range.1, p.id.clone()));
            assert(ranges@.map_values(|e: (usize, usize, String)| (e.0, e.1, e.2@)) =~= r0.push((p@.byte_range.0, p@.byte_range.1, p@.id)));
        } else {
            let ghost k0 = crate::render::paras_view(kept@);
            kept.push(crate::model::clone_paragraph(p));
            assert(crate::render::paras_view(kept@) =~= k0.push(p@));
        }
        k += 1;
    }
    assert(pv.take(k as int) == pv);
    d.paragraphs = kept;
    d.deleted_ranges = ranges;
    assert(d@.paragraphs =~= kept_paras(pv, dv));
    assert(d@.deleted_ranges =~= deleted_of(pv, dv));
}

/// Whether the two line lists are the same.
fn lines_all_eq(a: &Vec<Vec<char>>, b: &Vec<Vec<char>>) -> (r: bool)
    ensures
        r == (lines_view(a@) == lines_view(b@)),
{
    if a.len() != b.len() {
        assert(lines_view(a@).len() != lines_view(b@).len());
        return false;
    }
    let mut k: usize = 0;
    while k < a.len()
        invariant
            a@.len() == b@.len(),
            k <= a@.len(),
            forall|q: int| 0 <= q < k ==> lines_view(a@)[q] == lines_view(b@)[q],
        decreases a@.len() - k,
    {
        if !crate::diff::lines_eq(&a[k], &b[k]) {
            assert(lines_view(a@)[k as int] != lines_view(b@)[k as int]);
            return false;
        }
        k += 1;
    }
    assert(lines_view(a@) =~= lines_view(b@));
    true
}

/// Writes the edited buffer `new_text` back into the document and returns
/// the new main document part: unchanged when the buffer reads as the
/// rendering of the document; otherwise with changed lines edited into
/// their paragraphs (table cells matched cell by cell), removed lines
/// deleting their paragraphs, and new lines inserted as paragraphs that
/// take their properties from a neighbour. Deleting a table border alone
/// is refused with an error naming the line.
pub fn apply_buffer_to_document(doc: &Document, new_text: &str, numbering: &NumberingMap) -> (r: Result<Vec<u8>, AppError>)
    requires
        save_limits(doc@),
        new_text@.len() + 1 < u32::MAX,
    ensures
        match save_result(doc@, new_text@, numbering@) {
            Ok(b) => r is Ok && r->Ok_0@ == b,
            Err(m) => r is Err && r->Err_0.0@ == m,
        },
{
    let mut d = clone_doc(doc);
    let ghost d0 = d@;
    let rendered = crate::render::render(&d, numbering);
    let old_lines = buffer_lines(rendered.text.as_str());
    let new_lines = buffer_lines(new_text);
    if lines_all_eq(&old_lines, &new_lines) {
        return Ok(copy_bytes(&d.original_xml));
    }
    let ops = diff_lcs(&old_lines, &new_lines);
    let mut edits: Vec<(String, String, String)> = Vec::new();
    let mut deletes: Vec<String> = Vec::new();
    proof {
        assert forall|i: int| 0 <= i < d.paragraphs@.len() implies crate::render::col_of(#[trigger] crate::render::paras_view(d.paragraphs@)[i]) < usize::MAX by {
            assert(crate::render::paras_view(d.paragraphs@)[i] == d0.paragraphs[i]);
        }
    }
    assert(crate::cells::edits_view(edits@) =~= Seq::<EditV>::empty());
    assert(crate::render::strs_view(deletes@) =~= Seq::<Seq<char>>::empty());
    assert(crate::cells::plan_of(edits@, deletes@) == (Plan { edits: Seq::empty(), deletes: Seq::empty() }));
    tables_edits(&d.paragraphs, &rendered.cell_map, &old_lines, &new_lines, &mut edits, &mut deletes);
    let mut marker_dels: Vec<usize> = Vec::new();
    let mut deleted_old: Vec<usize> = Vec::new();
    assert(crate::cells::nats(marker_dels@) =~= Seq::<nat>::empty());
    assert(crate::cells::nats(deleted_old@) =~= Seq::<nat>::empty());
    ops_walk(&d.paragraphs, &rendered, &old_lines, &new_lines, &ops, &mut edits, &mut deletes, &mut marker_dels, &mut deleted_old);
    match bad_marker_exec(&rendered, old_lines.len(), &deleted_old, &marker_dels) {
        Some(idx) => {
            return Err(AppError(marker_message_exec(idx)));
        },
        None => {},
    }
    let ins = collect_inserts(&d.paragraphs, &rendered, &ops, &new_lines);
    let ghost ev = crate::cells::edits_view(edits@);
    proof {
        assert forall|i: int| 0 <= i < d.paragraphs@.len() implies prefix_len_estimate(#[trigger] crate::render::paras_view(d.paragraphs@)[i]) <= usize::MAX by {
            assert(crate::render::paras_view(d.paragraphs@)[i] == d0.paragraphs[i]);
        }
    }
    apply_edits_exec(&mut d.paragraphs, &edits);
    let auto = auto_deletes_exec(&d.paragraphs, &edits);
    merge_deletes_exec(&mut deletes, &auto);
    let ghost pend0 = pend_view(d.pending_inserts@);
    pending_exec(&d.paragraphs, &ins, &mut d.pending_inserts);
    let ghost ps1 = d@.paragraphs;
    let ghost dv = crate::render::strs_view(deletes@);
    let ghost pend = pending_of(ps1, inserts_view(ins@));
    if deletes.len() > 0 {
        apply_deletes(&mut d, &deletes);
    }
    proof {
        assert(d@.pending_inserts =~= d0.pending_inserts + pend);
        assert(d@ == final_doc(d0, ps1, dv, pend));
        lemma_final_ranges(d0, ev, dv, pend);
    }
    rebuild_document_xml(&d)
}

/// Saving a buffer that reads as the rendering (up to trailing line
/// feeds) gives back the original XML byte for byte; in particular saving
/// the rendering itself does.
pub proof fn lemma_save_unchanged(d: DocV, new_text: Seq<char>, nm: Map<(u32, u32), (Seq<char>, Seq<char>)>)
    requires
        split_on(trim_nl(new_text), '\n') == old_buffer_lines(d, nm),
    ensures
        save_result(d, new_text, nm) == Ok::<Seq<u8>, Seq<char>>(d.original_xml),
        save_result(d, rendered(d.paragraphs, nm).text, nm) == Ok::<Seq<u8>, Seq<char>>(d.original_xml),
{
}


/// A line feed added at the end of the buffer changes nothing that a save
/// gives: the same bytes, or the same error.
pub proof fn lemma_save_trailing_newline(
    d: DocV,
    new_text: Seq<char>,
    nm: Map<(u32, u32), (Seq<char>, Seq<char>)>,
)
    ensures
        save_result(d, new_text.push('\n'), nm) == save_result(d, new_text, nm),
{
    assert(new_text.push('\n').drop_last() =~= new_text);
    assert(trim_nl(new_text.push('\n')) == trim_nl(new_text));
}

/// A successful save keeps the bytes before the body's content and those
/// after it as they were.
pub proof fn lemma_save_keeps_shell(d: DocV, new_text: Seq<char>, nm: Map<(u32, u32), (Seq<char>, Seq<char>)>)
    requires
        d.body_inner_range.0 <= d.original_xml.len(),
        d.body_inner_range.1 <= d.original_xml.len(),
    ensures
        save_result(d, new_text, nm) matches Ok(out) ==> {
            &&& out.take(d.body_inner_range.0 as int) == d.original_xml.take(d.body_inner_range.0 as int)
            &&& out.skip(out.len() - (d.original_xml.len() - d.body_inner_range.1)) == d.original_xml.skip(
                d.body_inner_range.1 as int,
            )
        },
{
    let r = rendered(d.paragraphs, nm);
    let old = old_buffer_lines(d, nm);
    let new = split_on(trim_nl(new_text), '\n');
    if old == new {
        let xml = d.original_xml;
        assert(xml.skip(xml.len() - (xml.len() - d.body_inner_range.1)) =~= xml.skip(d.body_inner_range.1 as int));
    } else {
        let ops = diff_ops(old, new);
        let p0 = tables_plan(d.paragraphs, r.cell_map, old, new, Plan { edits: Seq::empty(), deletes: Seq::empty() });
        let st = ops_from(d.paragraphs, r, old, new, ops, 0, OpsState { plan: p0, marker_dels: Seq::empty(), deleted_old: Seq::empty() });
        let ins = inserts_from(d.paragraphs, r, ops, new, 0);
        let ps1 = apply_edits(d.paragraphs, st.plan.edits);
        let dels = merge_deletes(st.plan.deletes, auto_deletes(ps1, st.plan.edits));
        lemma_rebuild_keeps_shell(final_doc(d, ps1, dels, pending_of(ps1, ins)));
    }
}
} // verus!
