//! Detection of imposition layouts, which are kept out of the visual index.
//!
//! The sole criterion: the file's XMP metadata has an `egExtFL:files` element
//! that lists a `.pdf` file by a path that is not relative. Files that link only
//! to other assets (PSD, TIFF, EPS and so on), or to PDF files by relative paths
//! such as `file:./mark.pdf`, are kept.

use crate::text::{ascii, ascii_bytes};
use vstd::prelude::*;
use vstd::slice::slice_subrange;

verus! {

/// Whether `needle` stands in `haystack` at position `at`.
pub open spec fn occurs_at(haystack: Seq<u8>, needle: Seq<u8>, at: int) -> bool {
    0 <= at && at + needle.len() <= haystack.len() && haystack.subrange(at, at + needle.len())
        == needle
}

/// The first position at or after `from` at which `needle` stands.
pub open spec fn first_from(haystack: Seq<u8>, needle: Seq<u8>, from: nat) -> Option<nat>
    decreases haystack.len() - from,
{
    if from + needle.len() > haystack.len() || needle.len() == 0 {
        None
    } else if occurs_at(haystack, needle, from as int) {
        Some(from)
    } else {
        first_from(haystack, needle, from + 1)
    }
}

/// The first position of `needle` in `haystack`; an empty needle has none.
pub open spec fn position_of(haystack: Seq<u8>, needle: Seq<u8>) -> Option<nat> {
    first_from(haystack, needle, 0)
}

/// [`first_from`] finds a position exactly where there is one, and it is the least.
pub proof fn first_from_is_first(haystack: Seq<u8>, needle: Seq<u8>, from: nat)
    requires
        needle.len() > 0,
    ensures
        match first_from(haystack, needle, from) {
            Some(p) => p >= from && occurs_at(haystack, needle, p as int) && forall|q: int|
                from <= q < p ==> !#[trigger] occurs_at(haystack, needle, q),
            None => forall|q: int| from <= q ==> !#[trigger] occurs_at(haystack, needle, q),
        },
    decreases haystack.len() - from,
{
    if from + needle.len() <= haystack.len() && !occurs_at(haystack, needle, from as int) {
        first_from_is_first(haystack, needle, from + 1);
    }
}

/// The position of `needle` in `haystack`.
pub fn find_bytes(haystack: &[u8], needle: &[u8]) -> (r: Option<usize>)
    ensures
        match r {
            Some(p) => position_of(haystack@, needle@) == Some(p as nat) && p + needle@.len()
                <= haystack@.len(),
            None => position_of(haystack@, needle@) is None,
        },
{
    if needle.len() == 0 || needle.len() > haystack.len() {
        return None;
    }
    let last: usize = haystack.len() - needle.len();
    let mut i: usize = 0;
    while i <= last
        invariant
            needle@.len() > 0,
            last == haystack.len() - needle@.len(),
            i <= last + 1,
            first_from(haystack@, needle@, i as nat) == position_of(haystack@, needle@),
        decreases last + 1 - i,
    {
        let mut j: usize = 0;
        while j < needle.len() && haystack[i + j] == needle[j]
            invariant
                j <= needle@.len(),
                i + needle@.len() <= haystack.len(),
                haystack@.subrange(i as int, i + j) =~= needle@.take(j as int),
            decreases needle@.len() - j,
        {
            j = j + 1;
        }
        if j == needle.len() {
            assert(needle@.take(j as int) =~= needle@);
            assert(occurs_at(haystack@, needle@, i as int));
            return Some(i);
        }
        assert(haystack@.subrange(i as int, i + needle@.len())[j as int] != needle@[j as int]);
        i = i + 1;
    }
    None
}

/// Whether `haystack` contains `needle`.
pub fn contains_bytes(haystack: &[u8], needle: &[u8]) -> (r: bool)
    ensures
        r == (position_of(haystack@, needle@) is Some),
{
    find_bytes(haystack, needle).is_some()
}

/// The first XMP packet of a file: from `<?xpacket begin=` up to the next
/// `<?xpacket end=`.
pub open spec fn xmp_packet(data: Seq<u8>) -> Option<Seq<u8>> {
    match position_of(data, ascii("<?xpacket begin="@)) {
        None => None,
        Some(start) => match position_of(data.skip(start as int), ascii("<?xpacket end="@)) {
            None => None,
            Some(end) => Some(data.subrange(start as int, (start + end) as int)),
        },
    }
}

/// The XMP packet in the raw bytes of a file.
pub fn extract_xmp_packet(data: &[u8]) -> (r: Option<&[u8]>)
    ensures
        match r {
            Some(p) => xmp_packet(data@) == Some(p@),
            None => xmp_packet(data@) is None,
        },
{
    proof {
        reveal_strlit("<?xpacket begin=");
        reveal_strlit("<?xpacket end=");
    }
    let start: usize = match find_bytes(data, ascii_bytes("<?xpacket begin=")) {
        Some(p) => p,
        None => return None,
    };
    let rest = slice_subrange(data, start, data.len());
    assert(rest@ =~= data@.skip(start as int));
    match find_bytes(rest, ascii_bytes("<?xpacket end=")) {
        Some(end) => Some(slice_subrange(data, start, start + end)),
        None => None,
    }
}

/// What stands between the first `<tag...>` and the next `</tag>`.
pub open spec fn tag_content(data: Seq<u8>, tag: Seq<u8>) -> Option<Seq<u8>> {
    match position_of(data, ascii("<"@) + tag) {
        None => None,
        Some(open) => match position_of(data.skip(open as int), ascii(">"@)) {
            None => None,
            Some(gt) => {
                let start = (open + gt + 1) as int;
                match position_of(data.skip(start), ascii("</"@) + tag + ascii(">"@)) {
                    None => None,
                    Some(close) => Some(data.subrange(start, start + close)),
                }
            },
        },
    }
}

/// The content between `<tag...>` and `</tag>`. The opening tag may have
/// attributes.
pub fn extract_tag_content<'a>(data: &'a [u8], tag_name: &[u8]) -> (r: Option<&'a [u8]>)
    ensures
        match r {
            Some(c) => tag_content(data@, tag_name@) == Some(c@),
            None => tag_content(data@, tag_name@) is None,
        },
{
    proof {
        reveal_strlit("<");
        reveal_strlit(">");
        reveal_strlit("</");
    }
    let mut open_pattern: Vec<u8> = Vec::new();
    open_pattern.extend_from_slice(ascii_bytes("<"));
    open_pattern.extend_from_slice(tag_name);
    assert(open_pattern@ =~= ascii("<"@) + tag_name@);
    let open_pos: usize = match find_bytes(data, open_pattern.as_slice()) {
        Some(p) => p,
        None => return None,
    };
    let from_open = slice_subrange(data, open_pos, data.len());
    assert(from_open@ =~= data@.skip(open_pos as int));
    let gt_pos: usize = match find_bytes(from_open, ascii_bytes(">")) {
        Some(p) => p,
        None => return None,
    };
    let content_start: usize = open_pos + gt_pos + 1;
    let mut close_pattern: Vec<u8> = Vec::new();
    close_pattern.extend_from_slice(ascii_bytes("</"));
    close_pattern.extend_from_slice(tag_name);
    close_pattern.extend_from_slice(ascii_bytes(">"));
    assert(close_pattern@ =~= ascii("</"@) + tag_name@ + ascii(">"@));
    let from_content = slice_subrange(data, content_start, data.len());
    assert(from_content@ =~= data@.skip(content_start as int));
    match find_bytes(from_content, close_pattern.as_slice()) {
        Some(close_pos) => Some(slice_subrange(data, content_start, content_start + close_pos)),
        None => None,
    }
}

/// Whether an opening tag of a list item stands at position `at`: `<rdf:li`, followed
/// by the end of the tag or by the white space before its attributes.
pub open spec fn li_opens_at(data: Seq<u8>, at: int) -> bool {
    occurs_at(data, ascii("<rdf:li"@), at) && at + 7 < data.len() && (data[at + 7] == 0x3e
        || data[at + 7] == 0x20 || data[at + 7] == 0x09 || data[at + 7] == 0x0a || data[at + 7]
        == 0x0d)
}

/// The first position at or after `from` at which a list item opens.
pub open spec fn li_open(data: Seq<u8>, from: nat) -> Option<nat>
    decreases data.len() - from,
{
    if from >= data.len() {
        None
    } else if li_opens_at(data, from as int) {
        Some(from)
    } else {
        li_open(data, from + 1)
    }
}

/// Where the content of the next list item begins: behind its opening tag.
pub open spec fn li_start(data: Seq<u8>, cursor: nat) -> Option<nat> {
    match li_open(data, cursor) {
        None => None,
        Some(p) => match position_of(data.skip(p as int), ascii(">"@)) {
            None => None,
            Some(gt) => Some(p + gt + 1),
        },
    }
}

#[via_fn]
proof fn li_items_end(data: Seq<u8>, cursor: nat) {
    next_item_is_the_first(data, cursor);
}

/// The contents of the list items from `cursor` on.
pub open spec fn li_items(data: Seq<u8>, cursor: nat) -> Seq<Seq<u8>>
    decreases
        if cursor < data.len() {
            data.len() - cursor
        } else {
            0
        },
    via li_items_end
{
    if cursor >= data.len() {
        Seq::empty()
    } else {
        match li_start(data, cursor) {
            None => Seq::empty(),
            Some(start) => match position_of(data.skip(start as int), ascii("</rdf:li>"@)) {
                None => Seq::empty(),
                Some(close) => seq![data.subrange(start as int, (start + close) as int)] + li_items(
                    data,
                    start + close + 9,
                ),
            },
        }
    }
}

/// The slices of a vector, as byte sequences.
pub open spec fn contents(v: Seq<&[u8]>) -> Seq<Seq<u8>> {
    v.map_values(|s: &[u8]| s@)
}

fn find_li_start(data: &[u8], cursor: usize) -> (r: Option<usize>)
    requires
        cursor <= data@.len(),
    ensures
        match r {
            Some(s) => li_start(data@, cursor as nat) == Some(s as nat) && cursor < s <= data@.len(),
            None => li_start(data@, cursor as nat) is None,
        },
{
    proof {
        reveal_strlit("<rdf:li");
        reveal_strlit(">");
    }
    let tag = ascii_bytes("<rdf:li");
    let mut i: usize = cursor;
    while i < data.len()
        invariant
            cursor <= i <= data@.len(),
            tag@ == ascii("<rdf:li"@),
            tag@.len() == 7,
            ascii(">"@).len() == 1,
            vstd::utf8::is_ascii_chars(">"@),
            li_open(data@, i as nat) == li_open(data@, cursor as nat),
        decreases data@.len() - i,
    {
        if data.len() - i > 7 {
            let here = slice_subrange(data, i, i + 7);
            assert(here@ =~= data@.subrange(i as int, i + 7));
            let c: u8 = data[i + 7];
            let ends: bool = c == 0x3e || c == 0x20 || c == 0x09 || c == 0x0a || c == 0x0d;
            if ends && same_bytes(here, tag) {
                assert(li_opens_at(data@, i as int));
                let from_tag = slice_subrange(data, i, data.len());
                assert(from_tag@ =~= data@.skip(i as int));
                return match find_bytes(from_tag, ascii_bytes(">")) {
                    Some(gt) => Some(i + gt + 1),
                    None => None,
                };
            }
            assert(!li_opens_at(data@, i as int));
        }
        i = i + 1;
    }
    None
}

fn same_bytes(a: &[u8], b: &[u8]) -> (r: bool)
    ensures
        r == (a@ == b@),
{
    if a.len() != b.len() {
        return false;
    }
    let mut i: usize = 0;
    while i < a.len()
        invariant
            i <= a@.len(),
            a@.len() == b@.len(),
            a@.take(i as int) =~= b@.take(i as int),
        decreases a@.len() - i,
    {
        if a[i] != b[i] {
            assert(a@[i as int] != b@[i as int]);
            return false;
        }
        i = i + 1;
    }
    assert(a@.take(i as int) =~= a@);
    assert(b@.take(i as int) =~= b@);
    true
}

/// The content of every `<rdf:li>...</rdf:li>` element, with or without attributes, in
/// the order of the document.
pub fn extract_all_rdf_li<'a>(data: &'a [u8]) -> (r: Vec<&'a [u8]>)
    ensures
        contents(r@) == li_items(data@, 0),
{
    proof {
        reveal_strlit("</rdf:li>");
    }
    let mut results: Vec<&'a [u8]> = Vec::new();
    let mut cursor: usize = 0;
    assert(contents(results@) + li_items(data@, 0) =~= li_items(data@, 0));
    while cursor < data.len()
        invariant
            cursor <= data@.len(),
            contents(results@) + li_items(data@, cursor as nat) == li_items(data@, 0),
            ascii("</rdf:li>"@).len() == 9,
            vstd::utf8::is_ascii_chars("</rdf:li>"@),
        decreases data@.len() - cursor,
    {
        let start: usize = match find_li_start(data, cursor) {
            Some(s) => s,
            None => {
                assert(contents(results@) + Seq::<Seq<u8>>::empty() =~= contents(results@));
                return results;
            },
        };
        let rest = slice_subrange(data, start, data.len());
        assert(rest@ =~= data@.skip(start as int));
        let close: usize = match find_bytes(rest, ascii_bytes("</rdf:li>")) {
            Some(c) => c,
            None => {
                assert(contents(results@) + Seq::<Seq<u8>>::empty() =~= contents(results@));
                return results;
            },
        };
        let item = slice_subrange(data, start, start + close);
        let ghost before = contents(results@);
        results.push(item);
        assert(contents(results@) =~= before.push(item@));
        assert(before.push(item@) + li_items(data@, (start + close + 9) as nat) =~= before + (seq![
            item@,
        ] + li_items(data@, (start + close + 9) as nat)));
        cursor = start + close + 9;
    }
    assert(contents(results@) + Seq::<Seq<u8>>::empty() =~= contents(results@));
    results
}

/// The next list item opens at the first place at which one can, whether it has
/// attributes or not.
pub proof fn next_item_is_the_first(data: Seq<u8>, from: nat)
    ensures
        match li_open(data, from) {
            Some(p) => p >= from && li_opens_at(data, p as int) && forall|q: int|
                from <= q < p ==> !#[trigger] li_opens_at(data, q),
            None => forall|q: int| from <= q ==> !#[trigger] li_opens_at(data, q),
        },
    decreases data.len() - from,
{
    if from < data.len() && !li_opens_at(data, from as int) {
        next_item_is_the_first(data, from + 1);
    }
}

/// Whether `b` is ASCII white space: space, tab, line feed, form feed or
/// carriage return.
pub open spec fn is_ascii_space(b: u8) -> bool {
    b == 0x20 || b == 0x09 || b == 0x0a || b == 0x0c || b == 0x0d
}

/// `data` without its leading ASCII white space.
pub open spec fn without_leading_space(data: Seq<u8>) -> Seq<u8>
    decreases data.len(),
{
    if data.len() > 0 && is_ascii_space(data[0]) {
        without_leading_space(data.skip(1))
    } else {
        data
    }
}

/// `data` without its leading ASCII white space.
pub fn trim_ascii_start(data: &[u8]) -> (r: &[u8])
    ensures
        r@ == without_leading_space(data@),
{
    let mut i: usize = 0;
    assert(data@.skip(0) =~= data@);
    while i < data.len() && (data[i] == 0x20 || data[i] == 0x09 || data[i] == 0x0a || data[i]
        == 0x0c || data[i] == 0x0d)
        invariant
            i <= data@.len(),
            without_leading_space(data@.skip(i as int)) == without_leading_space(data@),
        decreases data@.len() - i,
    {
        assert(data@.skip(i as int).skip(1) =~= data@.skip(i + 1));
        i = i + 1;
    }
    let r = slice_subrange(data, i, data.len());
    assert(r@ =~= data@.skip(i as int));
    r
}

/// The lower-case form of an ASCII letter; other bytes stay.
pub open spec fn lower(b: u8) -> u8 {
    if 0x41 <= b <= 0x5a {
        (b + 0x20) as u8
    } else {
        b
    }
}

/// Every ASCII letter in lower case.
pub open spec fn lowered(data: Seq<u8>) -> Seq<u8> {
    data.map_values(|b: u8| lower(b))
}

fn lowercase(data: &[u8]) -> (r: Vec<u8>)
    ensures
        r@ == lowered(data@),
{
    let mut out: Vec<u8> = Vec::new();
    let mut i: usize = 0;
    while i < data.len()
        invariant
            i <= data@.len(),
            out@ =~= lowered(data@.take(i as int)),
        decreases data@.len() - i,
    {
        let b: u8 = data[i];
        out.push(
            if 0x41 <= b && b <= 0x5a {
                b + 0x20
            } else {
                b
            },
        );
        i = i + 1;
    }
    assert(data@.take(i as int) =~= data@);
    out
}

/// Whether `data` begins with `prefix`.
pub open spec fn begins_with(data: Seq<u8>, prefix: Seq<u8>) -> bool {
    occurs_at(data, prefix, 0)
}

fn starts_with(data: &[u8], prefix: &[u8]) -> (r: bool)
    ensures
        r == begins_with(data@, prefix@),
{
    if prefix.len() > data.len() {
        return false;
    }
    let mut j: usize = 0;
    while j < prefix.len()
        invariant
            j <= prefix@.len() <= data@.len(),
            data@.subrange(0, j as int) =~= prefix@.take(j as int),
        decreases prefix@.len() - j,
    {
        if data[j] != prefix[j] {
            assert(data@.subrange(0, prefix@.len() as int)[j as int] != prefix@[j as int]);
            return false;
        }
        j = j + 1;
    }
    assert(prefix@.take(j as int) =~= prefix@);
    true
}

/// Whether a link in lower case is a relative path: `file:./` or `file:../`,
/// plain or behind an opening `<stref:instanceid>` tag.
pub open spec fn is_relative_link(link: Seq<u8>) -> bool {
    ||| begins_with(link, ascii("file:./"@))
    ||| begins_with(link, ascii("file:../"@))
    ||| begins_with(link, ascii("<stref:instanceid>file:./"@))
    ||| begins_with(link, ascii("<stref:instanceid>file:../"@))
}

/// Whether a list item names a PDF file by a path that is not relative. Case
/// and leading white space do not matter.
pub open spec fn is_external_pdf(item: Seq<u8>) -> bool {
    &&& position_of(lowered(item), ascii(".pdf"@)) is Some
    &&& !is_relative_link(without_leading_space(lowered(item)))
}

/// Whether a list item names a PDF file by a path that is not relative.
pub fn links_external_pdf(item: &[u8]) -> (r: bool)
    ensures
        r == is_external_pdf(item@),
{
    proof {
        reveal_strlit(".pdf");
        reveal_strlit("file:./");
        reveal_strlit("file:../");
        reveal_strlit("<stref:instanceid>file:./");
        reveal_strlit("<stref:instanceid>file:../");
    }
    let lower = lowercase(item);
    if !contains_bytes(lower.as_slice(), ascii_bytes(".pdf")) {
        return false;
    }
    let link = trim_ascii_start(lower.as_slice());
    !(starts_with(link, ascii_bytes("file:./")) || starts_with(link, ascii_bytes("file:../"))
        || starts_with(link, ascii_bytes("<stref:instanceid>file:./"))
        || starts_with(link, ascii_bytes("<stref:instanceid>file:../")))
}

/// Whether some list item names a PDF file by a path that is not relative.
pub open spec fn has_external_pdf(items: Seq<Seq<u8>>) -> bool {
    exists|i: int| 0 <= i < items.len() && is_external_pdf(#[trigger] items[i])
}

/// Whether the bytes of a file mark it as an imposition layout.
pub open spec fn is_imposition(data: Seq<u8>) -> bool {
    match xmp_packet(data) {
        None => false,
        Some(xmp) => match tag_content(xmp, ascii("egExtFL:files"@)) {
            None => false,
            Some(files) => has_external_pdf(li_items(files, 0)),
        },
    }
}

/// Whether the file is to be kept out of the index, from its bytes; `None` where
/// it could not be read. The answer is the reason to be recorded.
pub fn pre_check_bytes(data: Option<&[u8]>) -> (r: Option<String>)
    ensures
        r is Some <==> (data is Some && is_imposition(data->Some_0@)),
        r is Some ==> r->Some_0@
            == "XMP egExtFL:files contains external PDF file reference (non-relative)"@,
{
    let bytes = match data {
        Some(b) => b,
        None => return None,
    };
    let xmp = match extract_xmp_packet(bytes) {
        Some(x) => x,
        None => return None,
    };
    proof {
        reveal_strlit("egExtFL:files");
    }
    let files = match extract_tag_content(xmp, ascii_bytes("egExtFL:files")) {
        Some(f) => f,
        None => return None,
    };
    let items = extract_all_rdf_li(files);
    let mut i: usize = 0;
    while i < items.len()
        invariant
            i <= items@.len(),
            contents(items@) == li_items(files@, 0),
            forall|j: int| 0 <= j < i ==> !is_external_pdf(#[trigger] contents(items@)[j]),
            data is Some,
            xmp_packet(data->Some_0@) == Some(xmp@),
            tag_content(xmp@, ascii("egExtFL:files"@)) == Some(files@),
        decreases items@.len() - i,
    {
        assert(contents(items@)[i as int] == items@[i as int]@);
        if links_external_pdf(items[i]) {
            return Some(
                "XMP egExtFL:files contains external PDF file reference (non-relative)".to_owned(),
            );
        }
        i = i + 1;
    }
    None
}

/// A file whose linked PDF files all have relative paths is kept, whatever else
/// it links to.
pub proof fn relative_links_are_kept(
    data: Seq<u8>,
    xmp: Seq<u8>,
    files: Seq<u8>,
    items: Seq<Seq<u8>>,
)
    requires
        xmp_packet(data) == Some(xmp),
        tag_content(xmp, ascii("egExtFL:files"@)) == Some(files),
        items == li_items(files, 0),
        forall|i: int|
            0 <= i < items.len() ==> {
                let link = lowered(#[trigger] items[i]);
                position_of(link, ascii(".pdf"@)) is None || is_relative_link(
                    without_leading_space(link),
                )
            },
    ensures
        !is_imposition(data),
{
}

/// One linked PDF file without a relative path is enough to exclude a file,
/// whatever else it links to.
pub proof fn one_external_pdf_excludes(
    data: Seq<u8>,
    xmp: Seq<u8>,
    files: Seq<u8>,
    items: Seq<Seq<u8>>,
    i: int,
)
    requires
        xmp_packet(data) == Some(xmp),
        tag_content(xmp, ascii("egExtFL:files"@)) == Some(files),
        items == li_items(files, 0),
        0 <= i < items.len(),
        is_external_pdf(items[i]),
    ensures
        is_imposition(data),
{
}

// ── Laws of the calls ───────────────────────────────────────────────────────

/// Whether the bytes of `needle` stand in `data`, one after the other, from `at` on.
pub open spec fn reads(data: Seq<u8>, at: int, needle: Seq<u8>) -> bool {
    &&& 0 <= at && at + needle.len() <= data.len()
    &&& forall|j: int| 0 <= j < needle.len() ==> #[trigger] data[at + j] == needle[j]
}

/// Whether `p` is the first place at or behind `from` at which `needle` stands.
pub open spec fn reads_first(data: Seq<u8>, from: int, needle: Seq<u8>, p: int) -> bool {
    &&& from <= p
    &&& reads(data, p, needle)
    &&& forall|q: int| from <= q < p ==> !#[trigger] reads(data, q, needle)
}

proof fn lemma_reads(data: Seq<u8>, at: int, needle: Seq<u8>)
    ensures
        reads(data, at, needle) <==> occurs_at(data, needle, at),
{
    if reads(data, at, needle) {
        let part = data.subrange(at, at + needle.len());
        assert forall|j: int| 0 <= j < needle.len() implies part[j] == needle[j] by {
            assert(data[at + j] == needle[j]);
        }
        assert(part =~= needle);
    }
    if occurs_at(data, needle, at) {
        assert forall|j: int| 0 <= j < needle.len() implies #[trigger] data[at + j] == needle[j] by {
            assert(data.subrange(at, at + needle.len())[j] == data[at + j]);
        }
    }
}

/// What [`position_of`] finds behind `from`, as places in the whole.
proof fn lemma_position(data: Seq<u8>, from: int, needle: Seq<u8>)
    requires
        0 <= from <= data.len(),
        needle.len() > 0,
    ensures
        match position_of(data.skip(from), needle) {
            Some(p) => reads_first(data, from, needle, from + p),
            None => forall|q: int| from <= q ==> !#[trigger] reads(data, q, needle),
        },
{
    let rest = data.skip(from);
    first_from_is_first(rest, needle, 0);
    assert forall|q: int| from <= q implies (#[trigger] reads(data, q, needle) <==> occurs_at(
        rest,
        needle,
        q - from,
    )) by {
        lemma_reads(rest, q - from, needle);
        if reads(data, q, needle) {
            assert forall|j: int| 0 <= j < needle.len() implies #[trigger] rest[(q - from) + j]
                == needle[j] by {
                assert(data[q + j] == needle[j]);
            }
        }
        if reads(rest, q - from, needle) {
            assert forall|j: int| 0 <= j < needle.len() implies #[trigger] data[q + j]
                == needle[j] by {
                assert(rest[(q - from) + j] == needle[j]);
            }
        }
    }
}

/// Searching for some bytes gives the first place at which they stand, and none exactly
/// where they stand nowhere.
pub proof fn bytes_are_found_where_they_stand(haystack: &[u8], needle: &[u8], r: Option<usize>)
    requires
        call_ensures(find_bytes, (haystack, needle), r),
        needle@.len() > 0,
    ensures
        r is Some ==> reads_first(haystack@, 0, needle@, r->Some_0 as int),
        r is None ==> forall|q: int| 0 <= q ==> !#[trigger] reads(haystack@, q, needle@),
{
    lemma_position(haystack@, 0, needle@);
    assert(haystack@.skip(0) =~= haystack@);
}

/// The metadata of a file is what stands from the first mark of its beginning to the
/// next mark of its end.
pub proof fn metadata_stands_between_its_marks(data: &[u8], r: Option<&[u8]>) -> (cut: (int, int))
    requires
        call_ensures(extract_xmp_packet, (data,), r),
    ensures
        r is Some ==> {
            &&& reads_first(data@, 0, ascii("<?xpacket begin="@), cut.0)
            &&& reads_first(data@, cut.0, ascii("<?xpacket end="@), cut.1)
            &&& r->Some_0@ == data@.subrange(cut.0, cut.1)
        },
        r is None ==> forall|a: int, b: int|
            reads_first(data@, 0, ascii("<?xpacket begin="@), a) && a <= b ==> !#[trigger] reads(
                data@,
                b,
                ascii("<?xpacket end="@),
            ) || !#[trigger] reads(data@, a, ascii("<?xpacket begin="@)),
{
    reveal_strlit("<?xpacket begin=");
    reveal_strlit("<?xpacket end=");
    let begin = ascii("<?xpacket begin="@);
    let end = ascii("<?xpacket end="@);
    lemma_position(data@, 0, begin);
    assert(data@.skip(0) =~= data@);
    match position_of(data@, begin) {
        None => (0, 0),
        Some(a) => {
            lemma_position(data@, a as int, end);
            assert forall|x: int, b: int|
                reads_first(data@, 0, begin, x) && x <= b implies r is Some || !#[trigger] reads(
                data@,
                b,
                end,
            ) || !#[trigger] reads(data@, x, begin) by {
                if x < a {
                    assert(!reads(data@, x, begin));
                } else if a < x {
                    assert(!reads(data@, a as int, begin));
                }
            }
            match position_of(data@.skip(a as int), end) {
                None => (0, 0),
                Some(e) => (a as int, (a + e) as int),
            }
        },
    }
}

/// The content of a tag stands from behind the first `>` of its first opening to its
/// next closing.
pub proof fn content_stands_between_its_tags(data: &[u8], tag: &[u8], r: Option<&[u8]>) -> (cut: (
    int,
    int,
    int,
))
    requires
        call_ensures(extract_tag_content, (data, tag), r),
        r is Some,
    ensures
        reads_first(data@, 0, seq![0x3cu8] + tag@, cut.0),
        reads_first(data@, cut.0, seq![0x3eu8], cut.1 - 1),
        reads_first(data@, cut.1, seq![0x3cu8, 0x2f] + tag@ + seq![0x3eu8], cut.2),
        r->Some_0@ == data@.subrange(cut.1, cut.2),
{
    reveal_strlit("<");
    reveal_strlit(">");
    reveal_strlit("</");
    assert(ascii("<"@) =~= seq![0x3cu8]);
    assert(ascii(">"@) =~= seq![0x3eu8]);
    assert(ascii("</"@) =~= seq![0x3cu8, 0x2f]);
    let open = seq![0x3cu8] + tag@;
    let close = seq![0x3cu8, 0x2f] + tag@ + seq![0x3eu8];
    lemma_position(data@, 0, open);
    assert(data@.skip(0) =~= data@);
    let o = position_of(data@, open)->Some_0 as int;
    lemma_position(data@, o, seq![0x3eu8]);
    let gt = position_of(data@.skip(o), seq![0x3eu8])->Some_0 as int;
    let start = o + gt + 1;
    lemma_position(data@, start, close);
    let c = position_of(data@.skip(start), close)->Some_0 as int;
    (o, start, start + c)
}

/// Whether a list item opens at a place: `<rdf:li`, and then the end of the tag or the
/// white space before an attribute.
pub open spec fn item_opens(data: Seq<u8>, at: int) -> bool {
    reads(data, at, ascii("<rdf:li"@)) && at + 7 < data.len() && (data[at + 7] == 0x3e || data[at
        + 7] == 0x20 || data[at + 7] == 0x09 || data[at + 7] == 0x0a || data[at + 7] == 0x0d)
}

/// Whether a list item is one from `open` to `close`, with its content from `start` on,
/// and no item opens between `from` and `open`.
pub open spec fn is_item(data: Seq<u8>, from: int, open: int, start: int, close: int) -> bool {
    &&& from <= open
    &&& item_opens(data, open)
    &&& forall|q: int| from <= q < open ==> !#[trigger] item_opens(data, q)
    &&& reads_first(data, open, seq![0x3eu8], start - 1)
    &&& reads_first(data, start, ascii("</rdf:li>"@), close)
}

/// Whether the items are the contents of the list items from `from` on, one after the
/// other, and behind them no further one is complete.
pub open spec fn are_items(data: Seq<u8>, from: int, items: Seq<Seq<u8>>, at: Seq<(int, int, int)>) -> bool {
    &&& at.len() == items.len()
    &&& forall|i: int|
        0 <= i < items.len() ==> {
            let (open, start, close) = #[trigger] at[i];
            &&& is_item(data, behind(from, at, i), open, start, close)
            &&& items[i] == data.subrange(start, close)
        }
    &&& no_item_from(data, behind(from, at, items.len() as int))
}

/// Where the search for item `i` begins: behind the item before it.
pub open spec fn behind(from: int, at: Seq<(int, int, int)>, i: int) -> int {
    if i <= 0 {
        from
    } else {
        at[i - 1].2 + 9
    }
}

/// Whether no list item is complete behind `from`.
pub open spec fn no_item_from(data: Seq<u8>, from: int) -> bool {
    forall|open: int, start: int, close: int| !#[trigger] is_item(data, from, open, start, close)
}

proof fn lemma_item_opens(data: Seq<u8>, at: int)
    ensures
        item_opens(data, at) <==> li_opens_at(data, at),
{
    lemma_reads(data, at, ascii("<rdf:li"@));
}

proof fn lemma_first_item(data: Seq<u8>, from: int)
    requires
        0 <= from <= data.len(),
    ensures
        match li_start(data, from as nat) {
            None => no_item_from(data, from),
            Some(start) => from < start <= data.len() && match position_of(
                data.skip(start as int),
                ascii("</rdf:li>"@),
            ) {
                None => no_item_from(data, from),
                Some(close) => exists|o: int| #[trigger]
                    is_item(data, from, o, start as int, start as int + close as int),
            },
        },
{
    reveal_strlit("<rdf:li");
    reveal_strlit(">");
    reveal_strlit("</rdf:li>");
    assert(ascii(">"@) =~= seq![0x3eu8]);
    next_item_is_the_first(data, from as nat);
    assert forall|q: int| #[trigger] item_opens(data, q) <==> li_opens_at(data, q) by {
        lemma_item_opens(data, q);
    }
    match li_open(data, from as nat) {
        None => {
            assert forall|o: int, s: int, c: int| !#[trigger] is_item(data, from, o, s, c) by {
                if is_item(data, from, o, s, c) {
                    assert(item_opens(data, o));
                    assert(li_opens_at(data, o));
                }
            }
        },
        Some(p) => {
            let p = p as int;
            assert(li_opens_at(data, p));
            assert(item_opens(data, p));
            lemma_position(data, p, seq![0x3eu8]);
            assert forall|o: int, s: int, c: int| #[trigger]
                is_item(data, from, o, s, c) implies o == p by {
                if o < p {
                    assert(!li_opens_at(data, o));
                    assert(item_opens(data, o));
                } else if p < o {
                    assert(!item_opens(data, p));
                }
            }
            match position_of(data.skip(p), seq![0x3eu8]) {
                None => {
                    assert forall|o: int, s: int, c: int| !#[trigger]
                        is_item(data, from, o, s, c) by {
                        if is_item(data, from, o, s, c) {
                            assert(reads(data, s - 1, seq![0x3eu8]));
                        }
                    }
                },
                Some(gt) => {
                    let start = p + gt + 1;
                    assert(reads(data, start - 1, seq![0x3eu8]));
                    assert(start <= data.len());
                    lemma_position(data, start, ascii("</rdf:li>"@));
                    assert forall|o: int, s: int, c: int| #[trigger]
                        is_item(data, from, o, s, c) implies s == start by {
                        if s < start {
                            assert(!reads(data, s - 1, seq![0x3eu8]));
                        } else if start < s {
                            assert(!reads(data, start - 1, seq![0x3eu8]));
                        }
                    }
                    match position_of(data.skip(start), ascii("</rdf:li>"@)) {
                        None => {
                            assert forall|o: int, s: int, c: int| !#[trigger]
                                is_item(data, from, o, s, c) by {
                                if is_item(data, from, o, s, c) {
                                    assert(reads(data, c, ascii("</rdf:li>"@)));
                                }
                            }
                        },
                        Some(close) => {
                            assert forall|q: int| from <= q < p implies !#[trigger] item_opens(
                                data,
                                q,
                            ) by {
                                assert(!li_opens_at(data, q));
                            }
                            assert(is_item(data, from, p, start, start + close));
                        },
                    }
                },
            }
        },
    }
}

proof fn lemma_items(data: Seq<u8>, from: int) -> (at: Seq<(int, int, int)>)
    requires
        0 <= from <= data.len(),
    ensures
        are_items(data, from, li_items(data, from as nat), at),
    decreases data.len() - from,
{
    reveal_strlit("</rdf:li>");
    let items = li_items(data, from as nat);
    lemma_first_item(data, from);
    if from >= data.len() {
        assert forall|o: int, s: int, c: int| !#[trigger] is_item(data, from, o, s, c) by {
            if is_item(data, from, o, s, c) {
                assert(item_opens(data, o));
            }
        }
        assert(items =~= Seq::empty());
        Seq::empty()
    } else {
        match li_start(data, from as nat) {
            None => {
                assert(items =~= Seq::empty());
                Seq::empty()
            },
            Some(start) => match position_of(data.skip(start as int), ascii("</rdf:li>"@)) {
                None => {
                    assert(items =~= Seq::empty());
                    Seq::empty()
                },
                Some(close) => {
                    let end = start as int + close as int;
                    let o = choose|o: int| #[trigger] is_item(data, from, o, start as int, end);
                    assert(reads(data, end, ascii("</rdf:li>"@)));
                    let rest = lemma_items(data, end + 9);
                    let tail = li_items(data, (end + 9) as nat);
                    assert(items =~= seq![data.subrange(start as int, end)] + tail);
                    lemma_prepend(data, from, (o, start as int, end), tail, rest);
                    seq![(o, start as int, end)] + rest
                },
            },
        }
    }
}

proof fn lemma_prepend(
    data: Seq<u8>,
    from: int,
    first: (int, int, int),
    tail: Seq<Seq<u8>>,
    rest: Seq<(int, int, int)>,
)
    requires
        is_item(data, from, first.0, first.1, first.2),
        are_items(data, first.2 + 9, tail, rest),
    ensures
        are_items(data, from, seq![data.subrange(first.1, first.2)] + tail, seq![first] + rest),
{
    let items = seq![data.subrange(first.1, first.2)] + tail;
    let at = seq![first] + rest;
    assert forall|i: int| 0 <= i < items.len() implies {
        let (open, start, close) = #[trigger] at[i];
        &&& is_item(data, behind(from, at, i), open, start, close)
        &&& items[i] == data.subrange(start, close)
    } by {
        if i > 0 {
            assert(at[i] == rest[i - 1]);
            assert(items[i] == tail[i - 1]);
            assert(behind(from, at, i) == behind(first.2 + 9, rest, i - 1)) by {
                if i > 1 {
                    assert(at[i - 1] == rest[i - 2]);
                }
            }
        }
    }
    assert(behind(from, at, items.len() as int) == behind(first.2 + 9, rest, tail.len() as int)) by {
        if tail.len() > 0 {
            assert(at[items.len() - 1] == rest[tail.len() - 1]);
        }
    }
}

/// Every list item is taken, with or without attributes, in the order of the document,
/// each from behind its opening tag to its closing tag; and nothing else. `at` gives
/// where each opens, where its content begins, and where it ends.
pub proof fn every_list_item_is_taken(data: &[u8], r: Vec<&[u8]>) -> (at: Seq<(int, int, int)>)
    requires
        call_ensures(extract_all_rdf_li, (data,), r),
    ensures
        are_items(data@, 0, contents(r@), at),
{
    lemma_items(data@, 0)
}

/// Whether a byte is a letter, given in lower case, in either case.
pub open spec fn is_letter(b: u8, low: u8) -> bool {
    b == low || 0x61 <= low <= 0x7a && b + 0x20 == low
}

/// Whether a text in lower case stands in `data` from `at` on, in either case.
pub open spec fn reads_any_case(data: Seq<u8>, at: int, low: Seq<u8>) -> bool {
    &&& 0 <= at && at + low.len() <= data.len()
    &&& forall|j: int| 0 <= j < low.len() ==> is_letter(#[trigger] data[at + j], low[j])
}

/// Whether a link is a relative path: behind any leading white space, and an opening
/// `<stref:instanceid>` or not, it begins with `file:./` or `file:../`.
pub open spec fn is_relative(item: Seq<u8>) -> bool {
    exists|s: int|
        0 <= s <= item.len() && (forall|i: int| 0 <= i < s ==> is_ascii_space(#[trigger] item[i]))
            && (s == item.len() || !is_ascii_space(item[s])) && (#[trigger] reads_any_case(
            item,
            s,
            ascii("file:./"@),
        ) || reads_any_case(item, s, ascii("file:../"@)) || reads_any_case(
            item,
            s,
            ascii("<stref:instanceid>file:./"@),
        ) || reads_any_case(item, s, ascii("<stref:instanceid>file:../"@)))
}

proof fn lemma_any_case(data: Seq<u8>, at: int, low: Seq<u8>)
    requires
        forall|j: int| 0 <= j < low.len() ==> !(0x41 <= #[trigger] low[j] <= 0x5a),
    ensures
        reads_any_case(data, at, low) <==> occurs_at(lowered(data), low, at),
{
    lemma_reads(lowered(data), at, low);
    if reads_any_case(data, at, low) {
        assert forall|j: int| 0 <= j < low.len() implies #[trigger] lowered(data)[at + j] == low[j] by {
            assert(is_letter(data[at + j], low[j]));
            assert(lowered(data)[at + j] == lower(data[at + j]));
        }
    }
    if reads(lowered(data), at, low) {
        assert forall|j: int| 0 <= j < low.len() implies is_letter(#[trigger] data[at + j], low[j]) by {
            assert(lowered(data)[at + j] == low[j]);
        }
    }
}

proof fn lemma_leading_space(data: Seq<u8>) -> (s: int)
    ensures
        0 <= s <= data.len(),
        without_leading_space(data) == data.skip(s),
        forall|i: int| 0 <= i < s ==> is_ascii_space(#[trigger] data[i]),
        s == data.len() || !is_ascii_space(data[s]),
    decreases data.len(),
{
    if data.len() > 0 && is_ascii_space(data[0]) {
        let t = lemma_leading_space(data.skip(1));
        assert(data.skip(1).skip(t) =~= data.skip(t + 1));
        assert forall|i: int| 0 <= i < t + 1 implies is_ascii_space(#[trigger] data[i]) by {
            if i > 0 {
                assert(data.skip(1)[i - 1] == data[i]);
            }
        }
        t + 1
    } else {
        assert(data.skip(0) =~= data);
        0
    }
}

/// A list item names an external PDF file exactly where `.pdf` stands in it, in either
/// case, and it is not a relative path.
pub proof fn external_pdfs_are_told(item: &[u8], r: bool)
    requires
        call_ensures(links_external_pdf, (item,), r),
    ensures
        r <==> (exists|p: int| #[trigger] reads_any_case(item@, p, ascii(".pdf"@))) && !is_relative(
            item@,
        ),
{
    lemma_external(item@);
}

proof fn lemma_external(item: Seq<u8>)
    ensures
        is_external_pdf(item) <==> (exists|p: int| #[trigger]
            reads_any_case(item, p, ascii(".pdf"@))) && !is_relative(item),
{
    reveal_strlit(".pdf");
    reveal_strlit("file:./");
    reveal_strlit("file:../");
    reveal_strlit("<stref:instanceid>file:./");
    reveal_strlit("<stref:instanceid>file:../");
    let low = lowered(item);
    let pdf = ascii(".pdf"@);
    first_from_is_first(low, pdf, 0);
    assert forall|p: int| #[trigger] reads_any_case(item, p, pdf) <==> occurs_at(low, pdf, p) by {
        lemma_any_case(item, p, pdf);
    }
    if position_of(low, pdf) is Some {
        let p = position_of(low, pdf)->Some_0 as int;
        assert(occurs_at(low, pdf, p));
        assert(reads_any_case(item, p, pdf));
    }
    let s = lemma_leading_space(low);
    assert forall|i: int| 0 <= i < item.len() implies (is_ascii_space(#[trigger] item[i])
        <==> is_ascii_space(low[i])) by {}
    let rest = low.skip(s);
    lemma_link(item, s, ascii("file:./"@));
    lemma_link(item, s, ascii("file:../"@));
    lemma_link(item, s, ascii("<stref:instanceid>file:./"@));
    lemma_link(item, s, ascii("<stref:instanceid>file:../"@));
    assert(is_relative_link(rest) ==> is_relative(item)) by {
        assert forall|i: int| 0 <= i < s implies is_ascii_space(#[trigger] item[i]) by {
            assert(is_ascii_space(low[i]));
        }
        assert(reads_any_case(item, s, ascii("file:./"@)) || true);
    }
    if is_relative(item) {
        let t = choose|t: int|
            0 <= t <= item.len() && (forall|i: int|
                0 <= i < t ==> is_ascii_space(#[trigger] item[i])) && (t == item.len()
                || !is_ascii_space(item[t])) && (#[trigger] reads_any_case(
                item,
                t,
                ascii("file:./"@),
            ) || reads_any_case(item, t, ascii("file:../"@)) || reads_any_case(
                item,
                t,
                ascii("<stref:instanceid>file:./"@),
            ) || reads_any_case(item, t, ascii("<stref:instanceid>file:../"@)));
        if t < s {
            assert(is_ascii_space(low[t]));
            assert(is_ascii_space(item[t]));
        } else if s < t {
            assert(is_ascii_space(item[s]));
        }
        assert(t == s);
    }
}

proof fn lemma_link(item: Seq<u8>, s: int, low: Seq<u8>)
    requires
        0 <= s <= item.len(),
        forall|j: int| 0 <= j < low.len() ==> !(0x41 <= #[trigger] low[j] <= 0x5a),
    ensures
        begins_with(lowered(item).skip(s), low) <==> reads_any_case(item, s, low),
{
    lemma_any_case(item, s, low);
    let l = lowered(item);
    if s + low.len() <= l.len() {
        assert(l.skip(s).subrange(0, low.len() as int) =~= l.subrange(s, s + low.len()));
    }
}

/// A file is kept out of the index exactly where its metadata lists, in the element for
/// linked files, one that names an external PDF file.
pub proof fn layouts_with_external_pdfs_are_kept_out(
    data: &[u8],
    xmp: &[u8],
    tag: &[u8],
    files: &[u8],
    items: Vec<&[u8]>,
    r: Option<String>,
)
    requires
        call_ensures(extract_xmp_packet, (data,), Some(xmp)),
        tag@ == ascii("egExtFL:files"@),
        call_ensures(extract_tag_content, (xmp, tag), Some(files)),
        call_ensures(extract_all_rdf_li, (files,), items),
        call_ensures(pre_check_bytes, (Some(data),), r),
    ensures
        r is Some <==> exists|i: int|
            0 <= i < items@.len() && !is_relative((#[trigger] items@[i])@) && exists|p: int| #[trigger]
                reads_any_case(items@[i]@, p, ascii(".pdf"@)),
{
    let list = contents(items@);
    assert forall|i: int| 0 <= i < items@.len() implies (is_external_pdf(#[trigger] list[i]) <==> (
    exists|p: int| #[trigger] reads_any_case(items@[i]@, p, ascii(".pdf"@))) && !is_relative(
        items@[i]@,
    )) by {
        lemma_external(items@[i]@);
    }
    if has_external_pdf(list) {
        let i = choose|i: int| 0 <= i < list.len() && is_external_pdf(#[trigger] list[i]);
        assert(list[i] == items@[i]@);
    }
    if exists|i: int|
        0 <= i < items@.len() && !is_relative((#[trigger] items@[i])@) && exists|p: int| #[trigger]
            reads_any_case(items@[i]@, p, ascii(".pdf"@)) {
        let i = choose|i: int|
            0 <= i < items@.len() && !is_relative((#[trigger] items@[i])@) && exists|p: int|
                #[trigger] reads_any_case(items@[i]@, p, ascii(".pdf"@));
        assert(is_external_pdf(list[i]));
    }
}

/// A file that could not be read, or has no metadata or no element for linked files, is
/// not kept out.
pub proof fn files_without_links_are_kept(data: &[u8], xmp: Option<&[u8]>, r: Option<String>, none: Option<String>)
    requires
        call_ensures(extract_xmp_packet, (data,), xmp),
        call_ensures(pre_check_bytes, (Some(data),), r),
        call_ensures(pre_check_bytes, (None,), none),
    ensures
        xmp is None ==> r is None,
        none is None,
{
}

/// Bytes are contained where they are found.
pub proof fn contained_bytes_are_found(haystack: &[u8], needle: &[u8], at: Option<usize>, r: bool)
    requires
        call_ensures(find_bytes, (haystack, needle), at),
        call_ensures(contains_bytes, (haystack, needle), r),
    ensures
        r <==> at is Some,
{
}

/// Trimming takes off what stands before the first byte that is no white space.
pub proof fn leading_space_is_taken_off(data: &[u8], r: &[u8])
    requires
        call_ensures(trim_ascii_start, (data,), r),
    ensures
        r@.len() <= data@.len(),
        r@ == data@.skip(data@.len() - r@.len()),
        forall|i: int|
            0 <= i < data@.len() - r@.len() ==> is_ascii_space(#[trigger] data@[i]),
        r@.len() > 0 ==> !is_ascii_space(r@[0]),
{
    let s = lemma_leading_space(data@);
}

} // verus!
