//! Adding many files to a package in one pass: for each source path the
//! batch decides whether the file is taken, names its entry, declares its
//! media type, and keeps the report line for it. Reading the files is left
//! to the caller, between the steps.

use vstd::prelude::*;
use vstd::string::StringExecFns;
use crate::package::{
    add_default_type, ascii_lower, classify_upload_ext, is_free_entry, names_view, path_extension,
    path_extension_exec, path_stem, path_stem_exec, to_ascii_lowercase, unique_entry_name,
    upload_dir, with_default_type,
};
use crate::text::push_str;

verus! {

/// The state of a batch of uploads.
pub struct UploadBatch {
    /// Entry names of the package, the new ones included.
    pub taken: Vec<String>,
    /// The content types part, with the types declared so far.
    pub types: String,
    /// Whether a type was declared.
    pub types_changed: bool,
    /// The new entries and their bytes, in order.
    pub entries: Vec<(String, Vec<u8>)>,
    /// One line for each source: `OK`, `SKIP` or `ERR` and what it concerns.
    pub report: Vec<String>,
}

/// The lower-case extension of a source path (empty when it has none).
pub open spec fn source_ext(src: Seq<char>) -> Seq<char> {
    ascii_lower(
        match path_extension(src) {
            Some(e) => e,
            None => Seq::empty(),
        },
    )
}

/// The stem of a source path, `upload` when it has none.
pub open spec fn source_stem(src: Seq<char>) -> Seq<char> {
    match path_stem(src) {
        Some(s) => s,
        None => "upload"@,
    }
}

/// The lower-case extension of a source path.
pub fn source_ext_exec(src: &str) -> (r: String)
    ensures
        r@ == source_ext(src@),
{
    let e = match path_extension_exec(src) {
        Some(e) => e,
        None => String::new(),
    };
    to_ascii_lowercase(e.as_str())
}

impl UploadBatch {
    /// A batch over a package with entries `taken` and content types `types`.
    pub fn new(taken: Vec<String>, types: String) -> (b: UploadBatch)
        ensures
            b.taken@ == taken@,
            b.types@ == types@,
            !b.types_changed,
            b.entries@.len() == 0,
            b.report@.len() == 0,
    {
        UploadBatch { taken, types, types_changed: false, entries: Vec::new(), report: Vec::new() }
    }

    /// The folder for the file at `src`; an unsupported file is reported
    /// as skipped (`SKIP<TAB>src`) and gets none.
    pub fn plan(&mut self, src: &str) -> (r: Option<&'static str>)
        ensures
            match upload_dir(source_ext(src@)) {
                Some(d) => r is Some && r->0@ == d && final(self).report@ == old(self).report@,
                None => r is None && names_view(final(self).report@) == names_view(old(self).report@).push(
                    "SKIP\t"@ + src@,
                ),
            },
            final(self).taken@ == old(self).taken@,
            final(self).types@ == old(self).types@,
            final(self).types_changed == old(self).types_changed,
            final(self).entries@ == old(self).entries@,
    {
        let ext = source_ext_exec(src);
        proof {
            lemma_lower_idempotent(source_ext(src@));
        }
        assert(ascii_lower(ext@) == ext@);
        match classify_upload_ext(ext.as_str()) {
            Some(d) => {
                assert(upload_dir(ext@) == Some(d@));
                Some(d)
            },
            None => {
                let mut line = String::from_str("SKIP\t");
                push_str(&mut line, src);
                let ghost r0 = names_view(self.report@);
                self.report.push(line);
                assert(names_view(self.report@) =~= r0.push("SKIP\t"@ + src@));
                None
            },
        }
    }

    /// Reports that the file at `src` could not be read (`ERR<TAB>src<TAB>why`).
    pub fn failed(&mut self, src: &str, why: &str)
        ensures
            names_view(final(self).report@) == names_view(old(self).report@).push("ERR\t"@ + src@ + "\t"@ + why@),
            final(self).taken@ == old(self).taken@,
            final(self).types@ == old(self).types@,
            final(self).types_changed == old(self).types_changed,
            final(self).entries@ == old(self).entries@,
    {
        let mut line = String::from_str("ERR\t");
        push_str(&mut line, src);
        push_str(&mut line, "\t");
        push_str(&mut line, why);
        let ghost r0 = names_view(self.report@);
        self.report.push(line);
        assert(names_view(self.report@) =~= r0.push("ERR\t"@ + src@ + "\t"@ + why@));
    }

    /// Adds the file at `src`, with contents `bytes`, to folder `dir`: its
    /// entry is the first free name for its stem and extension, it is taken
    /// from then on, its media type is declared where it is not yet, and
    /// the report says `OK<TAB>entry`.
    pub fn add(&mut self, src: &str, dir: &str, bytes: Vec<u8>) -> (entry: String)
        requires
            old(self).taken@.len() + 1 < u32::MAX,
        ensures
            is_free_entry(names_view(old(self).taken@).to_set(), dir@, source_stem(src@), source_ext(src@), entry@),
            names_view(final(self).taken@) == names_view(old(self).taken@).push(entry@),
            match with_default_type(old(self).types@, source_ext(src@)) {
                Some(t) => final(self).types@ == t && final(self).types_changed,
                None => final(self).types@ == old(self).types@ && final(self).types_changed == old(self).types_changed,
            },
            final(self).entries@ == old(self).entries@.push((entry, bytes)),
            names_view(final(self).report@) == names_view(old(self).report@).push("OK\t"@ + entry@),
            names_view(old(self).taken@).no_duplicates() ==> names_view(final(self).taken@).no_duplicates(),
    {
        let ext = source_ext_exec(src);
        let stem = match path_stem_exec(src) {
            Some(s) => s,
            None => String::from_str("upload"),
        };
        let entry = unique_entry_name(&self.taken, dir, stem.as_str(), ext.as_str());
        let ghost t0 = names_view(self.taken@);
        self.taken.push(entry.clone());
        assert(names_view(self.taken@) =~= t0.push(entry@));
        assert(!t0.contains(entry@)) by {
            if t0.contains(entry@) {
                assert(t0.to_set().contains(entry@));
            }
        }
        match add_default_type(self.types.as_str(), ext.as_str()) {
            Some(t) => {
                self.types = t;
                self.types_changed = true;
            },
            None => {},
        }
        let mut line = String::from_str("OK\t");
        push_str(&mut line, entry.as_str());
        let ghost r0 = names_view(self.report@);
        self.report.push(line);
        assert(names_view(self.report@) =~= r0.push("OK\t"@ + entry@));
        self.entries.push((entry.clone(), bytes));
        entry
    }
}

/// Lower-casing twice is lower-casing once.
proof fn lemma_lower_idempotent(s: Seq<char>)
    ensures
        ascii_lower(ascii_lower(s)) == ascii_lower(s),
{
    assert(ascii_lower(ascii_lower(s)) =~= ascii_lower(s));
}

} // verus!
