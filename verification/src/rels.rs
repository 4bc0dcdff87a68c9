//! The relationship part of the main document (`word/_rels/document.xml.rels`):
//! reading its entries, looking up targets, and naming the media of
//! drawings.

use vstd::prelude::*;
use crate::model::{Document, DocV, ParaV, Paragraph, RunV, opt_str, clone_run};
use crate::package::rfind;
use vstd::string::StringExecFns;
use crate::text::{chars_of, has_prefix, push_char, push_str, same_text, starts_with, string_of_range};
use crate::xml_events::{local_name, local_of, read_all_events, xml_events, PosEvent, XmlAttr, XmlEvent, XmlTag};

verus! {

/// Value of the last readable attribute named `key`.
pub open spec fn last_attr(attrs: Seq<Option<XmlAttr>>, key: Seq<char>) -> Option<Seq<char>>
    decreases attrs.len(),
{
    if attrs.len() == 0 {
        None
    } else if attrs.last() is Some && attrs.last()->0.key@ == key {
        Some(attrs.last()->0.value@)
    } else {
        last_attr(attrs.drop_last(), key)
    }
}

/// Value of the last readable attribute of `tag` named `key`.
fn last_attr_exec(tag: &XmlTag, key: &str) -> (r: Option<String>)
    ensures
        opt_str(r) == last_attr(tag.attrs@, key@),
{
    let mut found: Option<String> = None;
    let mut i: usize = 0;
    while i < tag.attrs.len()
        invariant
            i <= tag.attrs@.len(),
            opt_str(found) == last_attr(tag.attrs@.take(i as int), key@),
        decreases tag.attrs@.len() - i,
    {
        assert(tag.attrs@.take(i + 1).drop_last() == tag.attrs@.take(i as int));
        if let Some(a) = &tag.attrs[i] {
            if same_text(a.key.as_str(), key) {
                found = Some(a.value.clone());
            }
        }
        i += 1;
    }
    assert(tag.attrs@.take(tag.attrs@.len() as int) == tag.attrs@);
    found
}

/// The relationship a tag declares: a `Relationship` element (any
/// prefix) with both an `Id` and a `Target`, the last of each counting.
pub open spec fn rel_of_tag(t: XmlTag) -> Option<(Seq<char>, Seq<char>)> {
    if local_of(t.name@) == "Relationship"@ {
        match (last_attr(t.attrs@, "Id"@), last_attr(t.attrs@, "Target"@)) {
            (Some(i), Some(x)) => Some((i, x)),
            _ => None,
        }
    } else {
        None
    }
}

/// The relationships declared by a stream of events, in order.
pub open spec fn rels_of(evs: Seq<PosEvent>) -> Seq<(Seq<char>, Seq<char>)>
    decreases evs.len(),
{
    if evs.len() == 0 {
        Seq::empty()
    } else {
        let found = match evs.last().event {
            XmlEvent::Start(t) => rel_of_tag(t),
            XmlEvent::Empty(t) => rel_of_tag(t),
            _ => None,
        };
        match found {
            Some(p) => rels_of(evs.drop_last()).push(p),
            None => rels_of(evs.drop_last()),
        }
    }
}

/// The identifiers and targets of a list of relationships.
pub open spec fn rels_view(v: Seq<(String, String)>) -> Seq<(Seq<char>, Seq<char>)> {
    v.map_values(|p: (String, String)| (p.0@, p.1@))
}

/// The relationship a tag declares, if any.
fn rel_of_tag_exec(t: &XmlTag) -> (r: Option<(String, String)>)
    ensures
        match r {
            Some(p) => rel_of_tag(*t) == Some((p.0@, p.1@)),
            None => rel_of_tag(*t) is None,
        },
{
    let local = local_name(t.name.as_str());
    if !same_text(local.as_str(), "Relationship") {
        return None;
    }
    match (last_attr_exec(t, "Id"), last_attr_exec(t, "Target")) {
        (Some(i), Some(x)) => Some((i, x)),
        _ => None,
    }
}

/// The relationships (identifier, target) declared in a stream of events.
pub fn rels_from_events(evs: &Vec<PosEvent>) -> (r: Vec<(String, String)>)
    ensures
        rels_view(r@) == rels_of(evs@),
{
    let mut out: Vec<(String, String)> = Vec::new();
    let mut i: usize = 0;
    while i < evs.len()
        invariant
            i <= evs@.len(),
            rels_view(out@) == rels_of(evs@.take(i as int)),
        decreases evs@.len() - i,
    {
        let ghost before = rels_view(out@);
        assert(evs@.take(i + 1).drop_last() == evs@.take(i as int));
        assert(evs@.take(i + 1).last() == evs@[i as int]);
        let found = match &evs[i].event {
            XmlEvent::Start(t) => rel_of_tag_exec(t),
            XmlEvent::Empty(t) => rel_of_tag_exec(t),
            _ => None,
        };
        match found {
            Some(p) => {
                out.push(p);
                assert(rels_view(out@) =~= before.push((out@.last().0@, out@.last().1@)));
            },
            None => {},
        }
        i += 1;
    }
    assert(evs@.take(evs@.len() as int) == evs@);
    out
}

/// Reads the relationship part with `quick_xml`: the relationships it
/// declares, in order, as read from the events that `quick_xml` reads from
/// the bytes, up to the end of input or the first error.
pub fn parse_rels(xml: &[u8]) -> (r: Vec<(String, String)>)
    ensures
        rels_view(r@) == rels_of(xml_events(xml@)),
{
    let evs = read_all_events(xml);
    rels_from_events(&evs)
}

/// The target of relationship `id`; of several entries with that
/// identifier the last one counts.
pub open spec fn rel_target(rels: Seq<(Seq<char>, Seq<char>)>, id: Seq<char>) -> Option<Seq<char>>
    decreases rels.len(),
{
    if rels.len() == 0 {
        None
    } else if rels.last().0 == id {
        Some(rels.last().1)
    } else {
        rel_target(rels.drop_last(), id)
    }
}

/// The target of relationship `id`.
pub fn rel_target_exec(rels: &Vec<(String, String)>, id: &str) -> (r: Option<String>)
    ensures
        opt_str(r) == rel_target(rels_view(rels@), id@),
{
    let ghost rv = rels_view(rels@);
    let mut i: usize = rels.len();
    assert(rv.take(rv.len() as int) == rv);
    while i > 0
        invariant
            rv == rels_view(rels@),
            i <= rels@.len(),
            rel_target(rv, id@) == rel_target(rv.take(i as int), id@),
        decreases i,
    {
        let ghost t = rv.take(i as int);
        assert(t.last() == rv[i - 1]);
        assert(t.drop_last() == rv.take(i - 1));
        if same_text(rels[i - 1].0.as_str(), id) {
            return Some(rels[i - 1].1.clone());
        }
        i -= 1;
    }
    None
}

/// `w` is a suffix of `t`.
pub open spec fn has_suffix(t: Seq<char>, w: Seq<char>) -> bool {
    w.len() <= t.len() && t.skip(t.len() - w.len()) == w
}

/// Whether `w` is a suffix of `t`.
pub fn ends_with(t: &str, w: &str) -> (b: bool)
    ensures
        b == has_suffix(t@, w@),
{
    let vt = chars_of(t);
    let vw = chars_of(w);
    if vw.len() > vt.len() {
        return false;
    }
    let off = vt.len() - vw.len();
    let tail = string_of_range(vt.as_slice(), off, vt.len());
    assert(tail@ == t@.skip(off as int));
    same_text(tail.as_str(), w)
}

/// No later entry has the identifier of entry `i`: it is the entry that
/// counts for its identifier.
pub open spec fn is_final_entry(rels: Seq<(Seq<char>, Seq<char>)>, i: int) -> bool {
    forall|j: int| i < j < rels.len() ==> rels[j].0 != (#[trigger] rels[i]).0
}

/// A target names the part `want`: it is `want` or ends with it.
pub open spec fn names_part(t: Seq<char>, want: Seq<char>) -> bool {
    t == want || has_suffix(t, want)
}

/// Index of the first entry at or after `i` that counts for its
/// identifier and whose target names `want`.
pub open spec fn first_rel_for(rels: Seq<(Seq<char>, Seq<char>)>, want: Seq<char>, i: nat) -> Option<nat>
    decreases rels.len() - i,
{
    if i >= rels.len() {
        None
    } else if is_final_entry(rels, i as int) && names_part(rels[i as int].1, want) {
        Some(i)
    } else {
        first_rel_for(rels, want, i + 1)
    }
}

/// The identifier of a relationship whose target names the part `want`
/// (see [`first_rel_for`]).
pub open spec fn rel_for(rels: Seq<(Seq<char>, Seq<char>)>, want: Seq<char>) -> Option<Seq<char>> {
    match first_rel_for(rels, want, 0) {
        Some(i) => Some(rels[i as int].0),
        None => None,
    }
}

/// Whether entry `i` counts for its identifier.
pub(crate) fn is_final_entry_pub(rels: &Vec<(String, String)>, i: usize) -> (b: bool)
    requires
        i < rels@.len(),
    ensures
        b == is_final_entry(rels_view(rels@), i as int),
{
    let ghost rv = rels_view(rels@);
    let n = rels.len();
    let mut j: usize = i + 1;
    while j < rels.len()
        invariant
            rv == rels_view(rels@),
            i < j <= rels@.len(),
            forall|k: int| i < k < j ==> rv[k].0 != (#[trigger] rv[i as int]).0,
        decreases rels@.len() - j,
    {
        if same_text(rels[j].0.as_str(), rels[i].0.as_str()) {
            assert(rv[j as int].0 == rv[i as int].0);
            return false;
        }
        j += 1;
    }
    true
}

/// The identifier of a relationship that points at the part `want`: the
/// first entry, in the order of the part, that counts for its identifier
/// and whose target is `want` or ends with it.
pub fn rel_for_exec(rels: &Vec<(String, String)>, want: &str) -> (r: Option<String>)
    ensures
        opt_str(r) == rel_for(rels_view(rels@), want@),
{
    let ghost rv = rels_view(rels@);
    let mut i: usize = 0;
    while i < rels.len()
        invariant
            rv == rels_view(rels@),
            i <= rels@.len(),
            first_rel_for(rv, want@, 0) == first_rel_for(rv, want@, i as nat),
        decreases rels@.len() - i,
    {
        let t = rels[i].1.as_str();
        if is_final_entry_pub(rels, i) && (same_text(t, want) || ends_with(t, want)) {
            return Some(rels[i].0.clone());
        }
        i += 1;
    }
    None
}

/// The last segment of a path: what follows its last `/`.
pub open spec fn last_segment(t: Seq<char>) -> Seq<char> {
    match rfind(t, "/"@) {
        Some(i) => t.skip(i + 1int),
        None => t,
    }
}

/// The last segment of a path.
pub fn last_segment_exec(t: &str) -> (r: String)
    ensures
        r@ == last_segment(t@),
{
    let v = chars_of(t);
    let slash = chars_of("/");
    match crate::package::rfind_exec(&v, &slash) {
        Some(i) => {
            proof {
                reveal_strlit("/");
                crate::package::lemma_last_found(v@, slash@, (v@.len() + 1) as nat);
            }
            let n = v.len();
            assert(i + 1 <= n);
            string_of_range(v.as_slice(), i + 1, n)
        },
        None => string_of_range(v.as_slice(), 0, v.len()),
    }
}

/// A drawing run with the name of its media: the last segment of the
/// target of its relationship, where the relationship is known.
pub open spec fn run_media_resolved(r: RunV, rels: Seq<(Seq<char>, Seq<char>)>) -> RunV {
    if r.is_drawing && r.rel_id is Some && rel_target(rels, r.rel_id->0) is Some {
        RunV { media_name: Some(last_segment(rel_target(rels, r.rel_id->0)->0)), ..r }
    } else {
        r
    }
}

/// The paragraph with the media of its drawings named.
pub open spec fn para_media_resolved(p: ParaV, rels: Seq<(Seq<char>, Seq<char>)>) -> ParaV {
    ParaV { runs: p.runs.map_values(|r: RunV| run_media_resolved(r, rels)), ..p }
}

/// The document with the media of every drawing named.
pub open spec fn media_resolved(d: DocV, rels: Seq<(Seq<char>, Seq<char>)>) -> DocV {
    DocV { paragraphs: d.paragraphs.map_values(|p: ParaV| para_media_resolved(p, rels)), ..d }
}

/// Names the media of the drawings of one paragraph.
fn resolve_paragraph(p: &mut Paragraph, rels: &Vec<(String, String)>)
    ensures
        final(p)@ == para_media_resolved(old(p)@, rels_view(rels@)),
{
    let ghost p0 = p@;
    let ghost rv = rels_view(rels@);
    let mut runs: Vec<crate::model::Run> = Vec::new();
    let mut i: usize = 0;
    while i < p.runs.len()
        invariant
            p@ == p0,
            rv == rels_view(rels@),
            i <= p.runs@.len(),
            runs@.len() == i,
            forall|k: int| 0 <= k < i ==> (#[trigger] runs@[k])@ == run_media_resolved(p0.runs[k], rv),
        decreases p.runs@.len() - i,
    {
        let mut r = clone_run(&p.runs[i]);
        if r.is_drawing {
            let target = match &r.rel_id {
                Some(id) => rel_target_exec(rels, id.as_str()),
                None => None,
            };
            if let Some(t) = target {
                r.media_name = Some(last_segment_exec(t.as_str()));
            }
        }
        runs.push(r);
        i += 1;
    }
    p.runs = runs;
    assert(p@.runs =~= p0.runs.map_values(|r: RunV| run_media_resolved(r, rv)));
}

/// Names the media of every drawing of the document after the targets of
/// their relationships in `rels`, so that drawings show their file name.
pub fn resolve_media_names(doc: &mut Document, rels: &Vec<(String, String)>)
    ensures
        final(doc)@ == media_resolved(old(doc)@, rels_view(rels@)),
{
    let ghost d0 = doc@;
    let ghost rv = rels_view(rels@);
    let mut i: usize = 0;
    while i < doc.paragraphs.len()
        invariant
            rv == rels_view(rels@),
            i <= doc.paragraphs@.len(),
            doc.paragraphs@.len() == d0.paragraphs.len(),
            doc@ == (DocV { paragraphs: doc@.paragraphs, ..d0 }),
            forall|k: int| 0 <= k < i ==> (#[trigger] doc@.paragraphs[k]) == para_media_resolved(d0.paragraphs[k], rv),
            forall|k: int| i <= k < doc@.paragraphs.len() ==> (#[trigger] doc@.paragraphs[k]) == d0.paragraphs[k],
        decreases doc.paragraphs@.len() - i,
    {
        let mut q = crate::model::clone_paragraph(&doc.paragraphs[i]);
        assert(doc@.paragraphs[i as int] == doc.paragraphs@[i as int]@);
        assert(q@ == d0.paragraphs[i as int]);
        resolve_paragraph(&mut q, rels);
        let ghost before = doc@.paragraphs;
        doc.paragraphs.set(i, q);
        assert(doc@.paragraphs =~= before.update(i as int, para_media_resolved(d0.paragraphs[i as int], rv)));
        i += 1;
    }
    assert(doc@.paragraphs =~= d0.paragraphs.map_values(|p: ParaV| para_media_resolved(p, rv)));
}

/// `t` without its leading `/` characters.
pub open spec fn strip_slashes(t: Seq<char>) -> Seq<char>
    decreases t.len(),
{
    if t.len() > 0 && t[0] == '/' {
        strip_slashes(t.drop_first())
    } else {
        t
    }
}

/// The package entry a relationship target names: an absolute target
/// without its leading slashes, a relative one inside `word/`.
pub open spec fn target_entry(t: Seq<char>) -> Seq<char> {
    if has_prefix(t, "/"@) {
        strip_slashes(t)
    } else {
        "word/"@ + t
    }
}

/// Index of the first character of `v[from..]` that is not `/`.
fn skip_slashes(v: &Vec<char>, from: usize) -> (i: usize)
    requires
        from <= v@.len(),
    ensures
        from <= i <= v@.len(),
        strip_slashes(v@.skip(from as int)) == v@.skip(i as int),
    decreases v@.len() - from,
{
    if from < v.len() && v[from] == '/' {
        assert(v@.skip(from as int).drop_first() == v@.skip(from + 1));
        skip_slashes(v, from + 1)
    } else {
        from
    }
}

/// The package entry a relationship target names (see [`target_entry`]).
pub fn target_entry_exec(t: &str) -> (r: String)
    ensures
        r@ == target_entry(t@),
{
    if starts_with(t, "/") {
        let v = chars_of(t);
        let i = skip_slashes(&v, 0);
        assert(v@.skip(0) == v@);
        string_of_range(v.as_slice(), i, v.len())
    } else {
        let mut s = String::from_str("word/");
        push_str(&mut s, t);
        s
    }
}

/// The entries of the media that the drawings of `runs` refer to, in
/// order: one for each drawing whose relationship has a target.
pub open spec fn media_entries(runs: Seq<RunV>, rels: Seq<(Seq<char>, Seq<char>)>) -> Seq<Seq<char>>
    decreases runs.len(),
{
    if runs.len() == 0 {
        Seq::empty()
    } else {
        let r = runs.last();
        let rest = media_entries(runs.drop_last(), rels);
        if r.is_drawing && r.rel_id is Some && rel_target(rels, r.rel_id->0) is Some {
            rest.push(target_entry(rel_target(rels, r.rel_id->0)->0))
        } else {
            rest
        }
    }
}

/// The entries of the media of a paragraph's drawings (see
/// [`media_entries`]).
pub fn paragraph_media(p: &Paragraph, rels: &Vec<(String, String)>) -> (r: Vec<String>)
    ensures
        crate::package::names_view(r@) == media_entries(p@.runs, rels_view(rels@)),
{
    let ghost rv = rels_view(rels@);
    let mut out: Vec<String> = Vec::new();
    let mut i: usize = 0;
    while i < p.runs.len()
        invariant
            rv == rels_view(rels@),
            i <= p.runs@.len(),
            crate::package::names_view(out@) == media_entries(p@.runs.take(i as int), rv),
        decreases p.runs@.len() - i,
    {
        assert(p@.runs.take(i + 1).drop_last() == p@.runs.take(i as int));
        assert(p@.runs.take(i + 1).last() == p.runs@[i as int]@);
        let r = &p.runs[i];
        if r.is_drawing {
            if let Some(id) = &r.rel_id {
                if let Some(t) = rel_target_exec(rels, id.as_str()) {
                    let ghost o = crate::package::names_view(out@);
                    out.push(target_entry_exec(t.as_str()));
                    assert(crate::package::names_view(out@) =~= o.push(out@.last()@));
                }
            }
        }
        i += 1;
    }
    assert(p@.runs.take(p@.runs.len() as int) == p@.runs);
    out
}

/// The name of the temporary file that an extracted medium of paragraph
/// `para_id` is written to.
pub open spec fn extract_name(para_id: Seq<char>, entry: Seq<char>) -> Seq<char> {
    "docx_"@ + para_id + "_"@ + last_segment(entry)
}

/// The name of the temporary file for a medium of a paragraph.
pub fn extract_file_name(para_id: &str, entry: &str) -> (r: String)
    ensures
        r@ == extract_name(para_id@, entry@),
{
    let mut s = String::from_str("docx_");
    push_str(&mut s, para_id);
    push_str(&mut s, "_");
    let b = last_segment_exec(entry);
    push_str(&mut s, b.as_str());
    s
}

/// The name of the temporary file an entry is extracted to: the entry's
/// path with its `/` and `\` turned into `_`, after `docx_`.
pub open spec fn entry_file_name(entry: Seq<char>) -> Seq<char> {
    "docx_"@ + entry.map_values(|c: char| if c == '/' || c == '\\' { '_' } else { c })
}

/// The name of the temporary file an entry is extracted to.
pub fn entry_file_name_exec(entry: &str) -> (r: String)
    ensures
        r@ == entry_file_name(entry@),
{
    let v = chars_of(entry);
    let mut s = String::from_str("docx_");
    let mut i: usize = 0;
    proof {
        reveal_strlit("docx_");
    }
    while i < v.len()
        invariant
            v@ == entry@,
            i <= v@.len(),
            s@ == "docx_"@ + v@.take(i as int).map_values(|c: char| if c == '/' || c == '\\' { '_' } else { c }),
        decreases v@.len() - i,
    {
        let c = v[i];
        push_char(&mut s, if c == '/' || c == '\\' { '_' } else { c });
        i += 1;
        assert(v@.take(i as int).map_values(|c: char| if c == '/' || c == '\\' { '_' } else { c }) =~= v@.take(i - 1).map_values(
            |c: char| if c == '/' || c == '\\' { '_' } else { c },
        ).push(if c == '/' || c == '\\' { '_' } else { c }));
    }
    assert(v@.take(v@.len() as int) == v@);
    s
}

} // verus!
