//! Which of the entries met on a walk through the scan directories are design
//! files, and whether a known file has changed since it was indexed.

use crate::paths::{extension, extension_of, file_name, file_name_of};
use crate::text::{is_spelled, lemma_spelled, lower_chars, lower_text};
use vstd::prelude::*;

verus! {

/// A design file found on disk.
#[derive(Clone, Debug)]
pub struct DiscoveredFile {
    pub path: String,
    pub filename: String,
    /// `"pdf"` or `"ai"`.
    pub file_type: String,
    pub file_size: Option<u64>,
    /// Modification time in seconds since the Unix epoch.
    pub modified_at: Option<i64>,
    /// SHA-1 of the bytes in hexadecimal, where it has been computed.
    pub content_sha1: Option<String>,
}

/// What a [`DiscoveredFile`] says, with its texts as character sequences.
pub struct DiscoveredView {
    pub path: Seq<char>,
    pub filename: Seq<char>,
    pub file_type: Seq<char>,
    pub file_size: Option<u64>,
    pub modified_at: Option<i64>,
    pub content_sha1: Option<Seq<char>>,
}

/// The text in an optional string.
pub open spec fn text_view(s: Option<String>) -> Option<Seq<char>> {
    match s {
        Some(t) => Some(t@),
        None => None,
    }
}

impl View for DiscoveredFile {
    type V = DiscoveredView;

    open spec fn view(&self) -> DiscoveredView {
        DiscoveredView {
            path: self.path@,
            filename: self.filename@,
            file_type: self.file_type@,
            file_size: self.file_size,
            modified_at: self.modified_at,
            content_sha1: text_view(self.content_sha1),
        }
    }
}

/// An entry met on a directory walk.
#[derive(Clone, Debug)]
pub struct ScanEntry {
    pub path: String,
    pub is_file: bool,
    pub file_size: Option<u64>,
    pub modified_at: Option<i64>,
}

/// The type of a design file by its extension, in either case of letters.
pub open spec fn file_type_of(path: Seq<char>) -> Option<Seq<char>> {
    match extension_of(path) {
        None => None,
        Some(ext) => if lower_text(ext) == "pdf"@ {
            Some("pdf"@)
        } else if lower_text(ext) == "ai"@ {
            Some("ai"@)
        } else {
            None
        },
    }
}

/// `"pdf"`, `"ai"`, or `None` by the file's extension.
pub fn classify_file(path: &str) -> (r: Option<String>)
    ensures
        text_view(r) == file_type_of(path@),
{
    proof {
        reveal_strlit("pdf");
        reveal_strlit("ai");
    }
    let ext = match extension(path) {
        Some(e) => e,
        None => return None,
    };
    let low = lower_chars(&ext);
    if low.len() == 3 && low[0] == 'p' && low[1] == 'd' && low[2] == 'f' {
        assert(low@ =~= "pdf"@);
        Some("pdf".to_owned())
    } else if low.len() == 2 && low[0] == 'a' && low[1] == 'i' {
        assert(low@ =~= "ai"@);
        assert("ai"@ != "pdf"@);
        Some("ai".to_owned())
    } else {
        assert(low@ != "pdf"@ && low@ != "ai"@);
        None
    }
}

/// The design file that an entry stands for, if it is one.
pub open spec fn discovered(e: ScanEntry) -> Option<DiscoveredView> {
    match file_type_of(e.path@) {
        Some(t) if e.is_file => Some(
            DiscoveredView {
                path: e.path@,
                filename: match file_name_of(e.path@) {
                    Some(n) => n,
                    None => Seq::empty(),
                },
                file_type: t,
                file_size: e.file_size,
                modified_at: e.modified_at,
                content_sha1: None,
            },
        ),
        _ => None,
    }
}

/// The design file that an entry stands for, if it is one.
pub fn discover(entry: &ScanEntry) -> (r: Option<DiscoveredFile>)
    ensures
        match r {
            Some(f) => discovered(*entry) == Some(f@),
            None => discovered(*entry) is None,
        },
{
    if !entry.is_file {
        return None;
    }
    let file_type = match classify_file(entry.path.as_str()) {
        Some(t) => t,
        None => return None,
    };
    let filename = match file_name(entry.path.as_str()) {
        Some(n) => n,
        None => String::new(),
    };
    Some(
        DiscoveredFile {
            path: entry.path.clone(),
            filename,
            file_type,
            file_size: entry.file_size,
            modified_at: entry.modified_at,
            content_sha1: None,
        },
    )
}

/// The design files among `entries`, in the order met.
pub open spec fn discovered_all(entries: Seq<ScanEntry>) -> Seq<DiscoveredView>
    decreases entries.len(),
{
    if entries.len() == 0 {
        Seq::empty()
    } else {
        let before = discovered_all(entries.drop_last());
        match discovered(entries.last()) {
            Some(f) => before.push(f),
            None => before,
        }
    }
}

/// The contents of a list of design files.
pub open spec fn file_views(files: Seq<DiscoveredFile>) -> Seq<DiscoveredView> {
    files.map_values(|f: DiscoveredFile| f@)
}

/// All PDF and AI files among the entries met on a walk.
pub fn scan_directories(entries: &Vec<ScanEntry>) -> (r: Vec<DiscoveredFile>)
    ensures
        file_views(r@) == discovered_all(entries@),
{
    let mut files: Vec<DiscoveredFile> = Vec::new();
    let mut i: usize = 0;
    assert(file_views(files@) =~= discovered_all(entries@.take(0)));
    while i < entries.len()
        invariant
            i <= entries@.len(),
            file_views(files@) == discovered_all(entries@.take(i as int)),
        decreases entries@.len() - i,
    {
        assert(entries@.take(i + 1).drop_last() =~= entries@.take(i as int));
        if let Some(f) = discover(&entries[i]) {
            let ghost before = file_views(files@);
            files.push(f);
            assert(file_views(files@) =~= before.push(f@));
        }
        i = i + 1;
    }
    assert(entries@.take(i as int) =~= entries@);
    files
}

/// Whether a file has changed since the time at which it was last handled. A
/// file never handled has; one whose time cannot be read has not.
pub open spec fn changed_since(mtime: Option<i64>, last: Option<i64>) -> bool {
    match last {
        None => true,
        Some(at) => match mtime {
            Some(m) => m > at,
            None => false,
        },
    }
}

/// Whether a file should be indexed again, from its modification time on disk
/// (`None` where it cannot be read) and the time of its last index.
pub fn needs_reindex(current_mtime: Option<i64>, last_indexed_at: Option<i64>) -> (r: bool)
    ensures
        r == changed_since(current_mtime, last_indexed_at),
{
    match last_indexed_at {
        None => true,
        Some(indexed_ts) => match current_mtime {
            Some(mtime) => mtime > indexed_ts,
            None => false,
        },
    }
}

// ── Laws of the scan ────────────────────────────────────────────────────────

/// Whether a path ends in one of the two extensions of design files, in letters of
/// either case.
pub open spec fn is_design_path(path: Seq<char>) -> bool {
    &&& extension_of(path) is Some
    &&& is_spelled(extension_of(path)->Some_0, seq!['p', 'd', 'f']) || is_spelled(
        extension_of(path)->Some_0,
        seq!['a', 'i'],
    )
}

proof fn lemma_types(path: Seq<char>)
    ensures
        file_type_of(path) is Some <==> is_design_path(path),
        file_type_of(path) == Some(seq!['p', 'd', 'f']) <==> extension_of(path) is Some && is_spelled(
            extension_of(path)->Some_0,
            seq!['p', 'd', 'f'],
        ),
        file_type_of(path) == Some(seq!['a', 'i']) <==> extension_of(path) is Some && is_spelled(
            extension_of(path)->Some_0,
            seq!['a', 'i'],
        ),
{
    reveal_strlit("pdf");
    reveal_strlit("ai");
    assert("pdf"@ =~= seq!['p', 'd', 'f']);
    assert("ai"@ =~= seq!['a', 'i']);
    if extension_of(path) is Some {
        lemma_spelled(extension_of(path)->Some_0, "pdf"@);
        lemma_spelled(extension_of(path)->Some_0, "ai"@);
    }
    assert("pdf"@.len() == 3 && "ai"@.len() == 2);
}

/// A file is of the type that its extension spells, in letters of either case: PDF, AI,
/// or none.
pub proof fn extensions_tell_types(path: &str, ext: Option<Vec<char>>, r: Option<String>)
    requires
        call_ensures(extension, (path,), ext),
        call_ensures(classify_file, (path,), r),
    ensures
        r is Some && r->Some_0@ == seq!['p', 'd', 'f'] <==> ext is Some && is_spelled(
            ext->Some_0@,
            seq!['p', 'd', 'f'],
        ),
        r is Some && r->Some_0@ == seq!['a', 'i'] <==> ext is Some && is_spelled(
            ext->Some_0@,
            seq!['a', 'i'],
        ),
        r is Some ==> r->Some_0@ == seq!['p', 'd', 'f'] || r->Some_0@ == seq!['a', 'i'],
{
    lemma_types(path@);
    reveal_strlit("pdf");
    reveal_strlit("ai");
    assert("pdf"@ =~= seq!['p', 'd', 'f']);
    assert("ai"@ =~= seq!['a', 'i']);
}

/// Whether a design file is what was met as an entry.
pub open spec fn stands_for(f: DiscoveredFile, e: ScanEntry) -> bool {
    &&& f.path@ == e.path@
    &&& f.file_size == e.file_size
    &&& f.modified_at == e.modified_at
    &&& f.content_sha1 is None
    &&& file_name_of(e.path@) is Some ==> f.filename@ == file_name_of(e.path@)->Some_0
    &&& is_spelled(extension_of(e.path@)->Some_0, f.file_type@)
}

proof fn lemma_found(entries: Seq<ScanEntry>) -> (at: Seq<int>)
    ensures
        at.len() == discovered_all(entries).len(),
        forall|i: int|
            0 <= i < at.len() ==> 0 <= #[trigger] at[i] < entries.len() && discovered(entries[at[i]])
                == Some(discovered_all(entries)[i]),
        forall|i: int, j: int| 0 <= i < j < at.len() ==> #[trigger] at[i] < #[trigger] at[j],
        forall|k: int|
            0 <= k < entries.len() && discovered(#[trigger] entries[k]) is Some ==> at.contains(k),
    decreases entries.len(),
{
    if entries.len() == 0 {
        Seq::empty()
    } else {
        let init = entries.drop_last();
        let before = lemma_found(init);
        let n = init.len() as int;
        let at = if discovered(entries.last()) is Some {
            before.push(n)
        } else {
            before
        };
        assert forall|i: int| 0 <= i < at.len() implies 0 <= #[trigger] at[i] < entries.len()
            && discovered(entries[at[i]]) == Some(discovered_all(entries)[i]) by {
            if i < before.len() {
                assert(at[i] == before[i]);
                assert(init[before[i]] == entries[before[i]]);
            }
        }
        assert forall|k: int|
            0 <= k < entries.len() && discovered(#[trigger] entries[k]) is Some implies at.contains(
            k,
        ) by {
            if k < n {
                assert(init[k] == entries[k]);
                assert(before.contains(k));
                let i = choose|i: int| 0 <= i < before.len() && before[i] == k;
                assert(at[i] == k);
            } else {
                assert(at[before.len() as int] == k);
            }
        }
        at
    }
}

/// A scan finds the files that end in one of the two extensions, each once and in the
/// order in which they were met: with `at` the places of these entries, what is found
/// says what was met there.
pub proof fn scans_find_the_design_files(entries: &Vec<ScanEntry>, r: Vec<DiscoveredFile>) -> (at: Seq<
    int,
>)
    requires
        call_ensures(scan_directories, (entries,), r),
    ensures
        at.len() == r@.len(),
        forall|i: int, j: int| 0 <= i < j < at.len() ==> #[trigger] at[i] < #[trigger] at[j],
        forall|i: int|
            0 <= i < at.len() ==> 0 <= #[trigger] at[i] < entries@.len() && entries@[at[i]].is_file
                && is_design_path(entries@[at[i]].path@) && stands_for(r@[i], entries@[at[i]]),
        forall|k: int|
            0 <= k < entries@.len() && (#[trigger] entries@[k]).is_file && is_design_path(
                entries@[k].path@,
            ) ==> at.contains(k),
{
    let at = lemma_found(entries@);
    assert(file_views(r@).len() == r@.len());
    assert forall|i: int| 0 <= i < at.len() implies 0 <= #[trigger] at[i] < entries@.len()
        && entries@[at[i]].is_file && is_design_path(entries@[at[i]].path@) && stands_for(
        r@[i],
        entries@[at[i]],
    ) by {
        let e = entries@[at[i]];
        lemma_types(e.path@);
        assert(file_views(r@)[i] == r@[i]@);
        assert(discovered(e) == Some(r@[i]@));
        reveal_strlit("pdf");
        reveal_strlit("ai");
        assert("pdf"@ =~= seq!['p', 'd', 'f']);
        assert("ai"@ =~= seq!['a', 'i']);
    }
    assert forall|k: int|
        0 <= k < entries@.len() && (#[trigger] entries@[k]).is_file && is_design_path(
            entries@[k].path@,
        ) implies at.contains(k) by {
        lemma_types(entries@[k].path@);
        assert(discovered(entries@[k]) is Some);
    }
    at
}

/// An entry stands for a design file where it is a file with one of the two extensions,
/// and then for one of its own path, size and time.
pub proof fn entries_stand_for_design_files(entry: &ScanEntry, r: Option<DiscoveredFile>)
    requires
        call_ensures(discover, (entry,), r),
    ensures
        r is Some <==> entry.is_file && is_design_path(entry.path@),
        r is Some ==> stands_for(r->Some_0, *entry),
{
    lemma_types(entry.path@);
    reveal_strlit("pdf");
    reveal_strlit("ai");
    assert("pdf"@ =~= seq!['p', 'd', 'f']);
    assert("ai"@ =~= seq!['a', 'i']);
}

} // verus!
