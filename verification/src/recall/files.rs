//! Which files are indexed, and what an indexing run reports.

use vstd::prelude::*;

use crate::digest::texts;
use crate::shadow::documents::{DocumentModel, ShadowDocument};
use crate::text::{ascii_lowercase, chars_of, opt_text, text_eq};

verus! {

/// The most bytes of a file that is indexed.
pub const MAX_FILE_BYTES: u64 = 2 * 1024 * 1024;

/// The extensions of the files that are indexed.
pub open spec fn supported_extensions() -> Seq<Seq<char>> {
    seq![
        "md"@,
        "markdown"@,
        "txt"@,
        "html"@,
        "htm"@,
        "rst"@,
        "org"@,
        "tex"@,
        "rs"@,
        "swift"@,
        "py"@,
        "js"@,
        "ts"@,
        "tsx"@,
        "jsx"@,
        "java"@,
        "c"@,
        "h"@,
        "cpp"@,
        "cs"@,
        "go"@,
        "rb"@,
        "php"@,
        "toml"@,
        "yaml"@,
        "yml"@,
        "json"@,
        "xml"@,
        "css"@,
        "sql"@,
        "sh"@,
        "ps1"@,
    ]
}

/// Whether files with an extension are indexed; a file without one is not.
pub open spec fn is_supported(extension: Option<Seq<char>>) -> bool {
    match extension {
        Some(e) => supported_extensions().contains(ascii_lowercase(e)),
        None => false,
    }
}

fn to_ascii_lower(s: &str) -> (r: String)
    ensures
        r@ == ascii_lowercase(s@),
{
    let chars: Vec<char> = chars_of(s);
    let mut out: String = String::new();
    let mut i: usize = 0;
    while i < chars.len()
        invariant
            chars@ == s@,
            i <= chars@.len(),
            out@ =~= ascii_lowercase(s@).take(i as int),
        decreases chars@.len() - i,
    {
        let c: char = chars[i];
        if 'A' <= c && c <= 'Z' {
            let code: u8 = c as u8;
            assert(code == c as u32);
            out.push((code + 32) as char);
        } else {
            out.push(c);
        }
        i += 1;
    }
    out
}

/// Whether files with an extension are indexed.
pub fn supported(extension: Option<&str>) -> (r: bool)
    ensures
        r == is_supported(
            match extension {
                Some(e) => Some(e@),
                None => None,
            },
        ),
{
    let lower: String = match extension {
        Some(e) => to_ascii_lower(e),
        None => {
            return false;
        },
    };
    let names: [&str; 32] = [
        "md",
        "markdown",
        "txt",
        "html",
        "htm",
        "rst",
        "org",
        "tex",
        "rs",
        "swift",
        "py",
        "js",
        "ts",
        "tsx",
        "jsx",
        "java",
        "c",
        "h",
        "cpp",
        "cs",
        "go",
        "rb",
        "php",
        "toml",
        "yaml",
        "yml",
        "json",
        "xml",
        "css",
        "sql",
        "sh",
        "ps1",
    ];
    assert(texts(names@) =~= supported_extensions());
    let mut i: usize = 0;
    while i < 32
        invariant
            i <= 32,
            extension is Some,
            lower@ == ascii_lowercase(extension->0@),
            names@.len() == 32,
            texts(names@) == supported_extensions(),
            forall|k: int| 0 <= k < i ==> #[trigger] supported_extensions()[k] != lower@,
        decreases 32 - i,
    {
        assert(supported_extensions()[i as int] == names@[i as int]@);
        if text_eq(names[i], lower.as_str()) {
            assert(supported_extensions().contains(lower@));
            return true;
        }
        i += 1;
    }
    assert(!supported_extensions().contains(lower@));
    false
}

/// Whether a file is to be read, by its extension and its size; a file whose
/// size is not known is not.
pub fn may_index(extension: Option<&str>, size: Option<u64>) -> (r: bool)
    ensures
        r == (is_supported(
            match extension {
                Some(e) => Some(e@),
                None => None,
            },
        ) && size is Some && size->0 <= MAX_FILE_BYTES),
{
    match size {
        Some(n) => n <= MAX_FILE_BYTES && supported(extension),
        None => false,
    }
}

/// The document of a file that was read: the path names it, the stem of its
/// name is the title.
pub open spec fn document_of_file(
    path: Seq<char>,
    stem: Option<Seq<char>>,
    parent: Option<Seq<char>>,
    body: Seq<char>,
) -> DocumentModel {
    DocumentModel {
        doc_id: path,
        title: match stem {
            Some(s) => s,
            None => "Untitled"@,
        },
        body,
        domain: "note"@,
        origin_vault_key: parent,
    }
}

pub fn file_document(
    path: String,
    stem: Option<String>,
    parent: Option<String>,
    body: String,
) -> (r: ShadowDocument)
    ensures
        r@ == document_of_file(path@, opt_text(stem), opt_text(parent), body@),
{
    let title: String = match stem {
        Some(s) => s,
        None => "Untitled".to_owned(),
    };
    ShadowDocument {
        doc_id: path,
        title,
        body,
        domain: "note".to_owned(),
        origin_vault_key: parent,
    }
}

/// What became of a file.
#[derive(Clone, Copy, Debug, PartialEq, Eq, Structural)]
pub enum FileOutcome {
    /// It was not to be read.
    Skipped,
    /// It could not be read as text.
    Unreadable,
    /// The index refused its document.
    Refused,
    /// Its document is in the index.
    Indexed,
}

/// How many files an indexing run took, passed over and failed on.
#[derive(Clone, Copy, Debug, PartialEq, Eq, Structural)]
pub struct IndexReport {
    pub indexed: usize,
    pub skipped: usize,
    pub failed: usize,
}

impl Default for IndexReport {
    fn default() -> (r: Self)
        ensures
            r == (IndexReport { indexed: 0, skipped: 0, failed: 0 }),
    {
        IndexReport { indexed: 0, skipped: 0, failed: 0 }
    }
}

/// The number of outcomes of which something holds.
pub open spec fn tally(outcomes: Seq<FileOutcome>, f: spec_fn(FileOutcome) -> bool) -> nat
    decreases outcomes.len(),
{
    if outcomes.len() == 0 {
        0
    } else {
        tally(outcomes.drop_last(), f) + if f(outcomes.last()) {
            1nat
        } else {
            0
        }
    }
}

pub open spec fn is_indexed(o: FileOutcome) -> bool {
    o == FileOutcome::Indexed
}

pub open spec fn is_skipped(o: FileOutcome) -> bool {
    o == FileOutcome::Skipped
}

pub open spec fn is_failed(o: FileOutcome) -> bool {
    o == FileOutcome::Unreadable || o == FileOutcome::Refused
}

/// The report of an indexing run: each file counts once.
pub fn report(outcomes: &Vec<FileOutcome>) -> (r: IndexReport)
    ensures
        r.indexed == tally(outcomes@, |o: FileOutcome| is_indexed(o)),
        r.skipped == tally(outcomes@, |o: FileOutcome| is_skipped(o)),
        r.failed == tally(outcomes@, |o: FileOutcome| is_failed(o)),
        r.indexed + r.skipped + r.failed == outcomes@.len(),
{
    let ghost yes = |o: FileOutcome| is_indexed(o);
    let ghost no = |o: FileOutcome| is_skipped(o);
    let ghost bad = |o: FileOutcome| is_failed(o);
    let len: usize = outcomes.len();
    let mut r: IndexReport = IndexReport::default();
    let mut i: usize = 0;
    assert(outcomes@.take(0) =~= Seq::empty());
    while i < len
        invariant
            i <= len == outcomes@.len(),
            yes == (|o: FileOutcome| is_indexed(o)),
            no == (|o: FileOutcome| is_skipped(o)),
            bad == (|o: FileOutcome| is_failed(o)),
            r.indexed == tally(outcomes@.take(i as int), yes),
            r.skipped == tally(outcomes@.take(i as int), no),
            r.failed == tally(outcomes@.take(i as int), bad),
            r.indexed + r.skipped + r.failed == i,
        decreases len - i,
    {
        assert(outcomes@.take(i + 1).drop_last() =~= outcomes@.take(i as int));
        assert(outcomes@.take(i + 1).last() == outcomes@[i as int]);
        match outcomes[i] {
            FileOutcome::Indexed => {
                r.indexed += 1;
            },
            FileOutcome::Skipped => {
                r.skipped += 1;
            },
            FileOutcome::Unreadable => {
                r.failed += 1;
            },
            FileOutcome::Refused => {
                r.failed += 1;
            },
        }
        i += 1;
    }
    assert(outcomes@.take(len as int) =~= outcomes@);
    r
}

/// Notes, web pages, sources and data are indexed by their extension, whatever the
/// case of its letters, and nothing else.
pub proof fn law_texts_and_sources_are_indexed(e: Seq<char>)
    ensures
        is_supported(Some(e)) <==> ({
            let l = ascii_lowercase(e);
            ||| l == "md"@
            ||| l == "markdown"@
            ||| l == "txt"@
            ||| l == "html"@
            ||| l == "htm"@
            ||| l == "rst"@
            ||| l == "org"@
            ||| l == "tex"@
            ||| l == "rs"@
            ||| l == "swift"@
            ||| l == "py"@
            ||| l == "js"@
            ||| l == "ts"@
            ||| l == "tsx"@
            ||| l == "jsx"@
            ||| l == "java"@
            ||| l == "c"@
            ||| l == "h"@
            ||| l == "cpp"@
            ||| l == "cs"@
            ||| l == "go"@
            ||| l == "rb"@
            ||| l == "php"@
            ||| l == "toml"@
            ||| l == "yaml"@
            ||| l == "yml"@
            ||| l == "json"@
            ||| l == "xml"@
            ||| l == "css"@
            ||| l == "sql"@
            ||| l == "sh"@
            ||| l == "ps1"@
        }),
        !is_supported(None),
{
    let all = supported_extensions();
    let l = ascii_lowercase(e);
    assert(all.len() == 32);
    assert(all[0] == "md"@);
    assert(all[1] == "markdown"@);
    assert(all[2] == "txt"@);
    assert(all[3] == "html"@);
    assert(all[4] == "htm"@);
    assert(all[5] == "rst"@);
    assert(all[6] == "org"@);
    assert(all[7] == "tex"@);
    assert(all[8] == "rs"@);
    assert(all[9] == "swift"@);
    assert(all[10] == "py"@);
    assert(all[11] == "js"@);
    assert(all[12] == "ts"@);
    assert(all[13] == "tsx"@);
    assert(all[14] == "jsx"@);
    assert(all[15] == "java"@);
    assert(all[16] == "c"@);
    assert(all[17] == "h"@);
    assert(all[18] == "cpp"@);
    assert(all[19] == "cs"@);
    assert(all[20] == "go"@);
    assert(all[21] == "rb"@);
    assert(all[22] == "php"@);
    assert(all[23] == "toml"@);
    assert(all[24] == "yaml"@);
    assert(all[25] == "yml"@);
    assert(all[26] == "json"@);
    assert(all[27] == "xml"@);
    assert(all[28] == "css"@);
    assert(all[29] == "sql"@);
    assert(all[30] == "sh"@);
    assert(all[31] == "ps1"@);
    if all.contains(l) {
        let i = choose|i: int| 0 <= i < all.len() && all[i] == l;
        assert(all[i] == l);
    }
}

/// A file becomes a note under its path, with the stem of its name as title and its
/// text as body.
pub proof fn law_file_becomes_a_note(
    path: Seq<char>,
    stem: Option<Seq<char>>,
    parent: Option<Seq<char>>,
    body: Seq<char>,
)
    ensures
        document_of_file(path, stem, parent, body).doc_id == path,
        document_of_file(path, stem, parent, body).body == body,
        document_of_file(path, stem, parent, body).domain == "note"@,
        document_of_file(path, stem, parent, body).origin_vault_key == parent,
        stem matches Some(t) ==> document_of_file(path, stem, parent, body).title == t,
        stem is None ==> document_of_file(path, stem, parent, body).title == "Untitled"@,
{
}

/// One more file counts once, by what became of it.
pub proof fn law_file_counts_once(
    outcomes: Seq<FileOutcome>,
    o: FileOutcome,
    f: spec_fn(FileOutcome) -> bool,
)
    ensures
        tally(Seq::empty(), f) == 0,
        tally(outcomes.push(o), f) == tally(outcomes, f) + if f(o) {
            1nat
        } else {
            0
        },
        is_indexed(FileOutcome::Indexed) && is_skipped(FileOutcome::Skipped) && is_failed(
            FileOutcome::Unreadable,
        ) && is_failed(FileOutcome::Refused),
        !(is_indexed(o) && is_skipped(o)) && !(is_indexed(o) && is_failed(o)) && !(is_skipped(o)
            && is_failed(o)),
{
    assert(outcomes.push(o).drop_last() =~= outcomes);
}

} // verus!
