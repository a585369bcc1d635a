//! What the handlers of requests decide.

use crate::error::AppError;
use crate::indexer::worker_pool::IndexProgress;
use crate::search::ranker::SearchResult;
use crate::search::SearchResponse;
use crate::text::{
    chars_of, find_char, first_index, has_prefix, is_spelled, last_index, lemma_spelled,
    lower_chars, lower_text, parse_usize, rfind_char, same, strip_prefix, text_of, trim, trimmed, unsigned_of, views,
};
use base64::engine::general_purpose::STANDARD;
use base64::Engine;
use vstd::prelude::*;
use vstd::slice::slice_subrange;

verus! {

/// The most bytes that an uploaded image may have.
pub const MAX_UPLOAD_BYTES: usize = 67_108_864;

/// What a search may ask for.
#[derive(Clone, Copy, PartialEq, Eq, Structural, Debug)]
pub struct SearchQuery {
    pub top_k: Option<usize>,
}

/// An image pasted from the clipboard.
#[derive(Clone, Debug)]
pub struct ClipboardRequest {
    /// The image in Base64, bare or as a data URI.
    pub image_base64: String,
    pub top_k: Option<usize>,
}

/// The settings that the client may see.
#[derive(Clone, Debug)]
pub struct ConfigResponse {
    pub scan_dirs: Vec<String>,
    /// Whether the client may change them.
    pub is_local: bool,
}

/// Settings that the client wants.
#[derive(Clone, Debug)]
pub struct UpdateConfig {
    pub scan_dirs: Vec<String>,
}

// ── Uploads ─────────────────────────────────────────────────────────────────

/// The fields of an upload that have been read.
#[derive(Debug)]
pub struct UploadForm {
    pub image: Option<Vec<u8>>,
    pub top_k: Option<usize>,
}

/// Whether a field may be an image, by its content type: one that says nothing may.
pub fn check_content_type(content_type: &str) -> (r: Result<(), AppError>)
    ensures
        r is Ok <==> has_prefix(content_type@, "image/"@) || content_type@.len() == 0,
        r is Err ==> r->Err_0 is UnsupportedMediaType && r->Err_0->mime@ == content_type@,
{
    if strip_prefix(content_type, "image/").is_none() && !content_type.is_empty() {
        return Err(AppError::UnsupportedMediaType { mime: content_type.to_owned() });
    }
    Ok(())
}

/// Whether an image is small enough to be searched for.
pub fn check_size(len: usize) -> (r: Result<(), AppError>)
    ensures
        r is Ok <==> len <= MAX_UPLOAD_BYTES,
        r is Err ==> r->Err_0 is PayloadTooLarge && r->Err_0->max_bytes == MAX_UPLOAD_BYTES,
{
    if len > MAX_UPLOAD_BYTES {
        return Err(AppError::PayloadTooLarge { max_bytes: MAX_UPLOAD_BYTES });
    }
    Ok(())
}

impl UploadForm {
    /// Nothing has been read.
    pub fn new() -> (r: UploadForm)
        ensures
            r.image is None,
            r.top_k is None,
    {
        UploadForm { image: None, top_k: None }
    }

    /// Takes in the image. A later one takes the place of an earlier one.
    pub fn on_image(&mut self, bytes: Vec<u8>) -> (r: Result<(), AppError>)
        ensures
            final(self).top_k == old(self).top_k,
            r is Ok <==> bytes@.len() <= MAX_UPLOAD_BYTES,
            r is Ok ==> final(self).image == Some(bytes),
            r is Err ==> final(self).image == old(self).image && r->Err_0 is PayloadTooLarge
                && r->Err_0->max_bytes == MAX_UPLOAD_BYTES,
    {
        match check_size(bytes.len()) {
            Err(e) => Err(e),
            Ok(_) => {
                self.image = Some(bytes);
                Ok(())
            },
        }
    }

    /// Takes in how many results are wanted. What is not a number counts as nothing
    /// said.
    pub fn on_top_k(&mut self, text: &str)
        ensures
            final(self).image == old(self).image,
            match unsigned_of(text@) {
                Some(v) => final(self).top_k == if v <= usize::MAX {
                    Some(v as usize)
                } else {
                    None::<usize>
                },
                None => final(self).top_k is None,
            },
    {
        self.top_k = parse_usize(text);
    }

    /// The image, and how many results are wanted, once all fields have been read.
    pub fn finish(self) -> (r: Result<(Vec<u8>, Option<usize>), AppError>)
        ensures
            match self.image {
                Some(bytes) => r == Ok::<(Vec<u8>, Option<usize>), AppError>((bytes, self.top_k)),
                None => r is Err && r->Err_0 is InvalidRequest && r->Err_0->InvalidRequest_0@
                    == "Missing 'image' field in multipart"@,
            },
    {
        match self.image {
            Some(bytes) => Ok((bytes, self.top_k)),
            None => Err(
                AppError::InvalidRequest("Missing 'image' field in multipart".to_owned()),
            ),
        }
    }
}

// ── Clipboard ───────────────────────────────────────────────────────────────

/// What the `base64` crate decodes from a text in the standard alphabet, or why it
/// cannot.
pub uninterp spec fn base64_decoded(text: Seq<char>) -> Result<Seq<u8>, Seq<char>>;

/// `base64::Engine::decode` of the `STANDARD` engine: the outcome depends on the
/// text alone.
#[verifier::external_body]
fn base64_decode(text: &str) -> (r: Result<Vec<u8>, String>)
    ensures
        match r {
            Ok(bytes) => base64_decoded(text@) == Ok::<Seq<u8>, Seq<char>>(bytes@),
            Err(e) => base64_decoded(text@) == Err::<Seq<u8>, Seq<char>>(e@),
        },
{
    STANDARD.decode(text).map_err(|e| e.to_string())
}

/// The Base64 in a text: what follows the first comma, if there is one, without
/// white space at either end.
pub open spec fn base64_part(text: Seq<char>) -> Seq<char> {
    trimmed(
        match first_index(text, ',') {
            Some(i) => text.skip(i as int + 1),
            None => text,
        },
    )
}

/// The Base64 in a text, bare or as a data URI.
pub fn strip_data_uri(text: &str) -> (r: String)
    ensures
        r@ == base64_part(text@),
{
    let v = chars_of(text);
    match find_char(&v, ',') {
        Some(i) => {
            let rest = slice_subrange(v.as_slice(), i + 1, v.len());
            assert(rest@ =~= text@.skip(i + 1));
            let t = text_of(rest);
            trim(t.as_str())
        },
        None => trim(text),
    }
}

/// The image in a pasted text, from what decoding its Base64 gave.
pub fn accept_decoded(decoded: Result<Vec<u8>, String>) -> (r: Result<Vec<u8>, AppError>)
    ensures
        match decoded {
            Err(e) => r is Err && r->Err_0 is InvalidRequest && r->Err_0->InvalidRequest_0@
                == "Invalid base64: "@ + e@,
            Ok(bytes) => if bytes@.len() > MAX_UPLOAD_BYTES {
                r is Err && r->Err_0 is PayloadTooLarge && r->Err_0->max_bytes == MAX_UPLOAD_BYTES
            } else {
                r == Ok::<Vec<u8>, AppError>(bytes)
            },
        },
{
    match decoded {
        Err(e) => {
            let mut msg = "Invalid base64: ".to_owned();
            msg.append(e.as_str());
            Err(AppError::InvalidRequest(msg))
        },
        Ok(bytes) => match check_size(bytes.len()) {
            Err(e) => Err(e),
            Ok(_) => Ok(bytes),
        },
    }
}

/// The image in a pasted text.
pub fn decode_clipboard(text: &str) -> (r: Result<Vec<u8>, AppError>)
    ensures
        match base64_decoded(base64_part(text@)) {
            Err(e) => r is Err && r->Err_0 is InvalidRequest && r->Err_0->InvalidRequest_0@
                == "Invalid base64: "@ + e,
            Ok(bytes) => if bytes.len() > MAX_UPLOAD_BYTES {
                r is Err && r->Err_0 is PayloadTooLarge && r->Err_0->max_bytes == MAX_UPLOAD_BYTES
            } else {
                r is Ok && r->Ok_0@ == bytes
            },
        },
{
    let raw = strip_data_uri(text);
    accept_decoded(base64_decode(raw.as_str()))
}

// ── Progress ────────────────────────────────────────────────────────────────

/// How far indexing has come.
#[derive(Clone, Copy, PartialEq, Eq, Structural, Debug)]
pub enum Progress {
    Nothing,
    /// So many files of so many.
    Part { done: u64, total: u64 },
    Everything,
}

/// How far indexing has come: what was indexed before counts where no batch has
/// begun.
pub open spec fn progress_of(p: IndexProgress, stored_files: i64) -> Progress {
    if p.finished {
        Progress::Everything
    } else if p.total == 0 {
        if stored_files > 0 {
            Progress::Everything
        } else {
            Progress::Nothing
        }
    } else if p.done_count() >= p.total {
        Progress::Everything
    } else {
        Progress::Part { done: p.done_count() as u64, total: p.total }
    }
}

/// How far indexing has come.
pub fn index_progress(p: &IndexProgress, stored_files: i64) -> (r: Progress)
    requires
        p.done_count() <= u64::MAX,
    ensures
        r == progress_of(*p, stored_files),
{
    if p.finished {
        return Progress::Everything;
    }
    if p.total == 0 {
        if stored_files > 0 {
            return Progress::Everything;
        }
        return Progress::Nothing;
    }
    let done: u64 = p.done();
    if done >= p.total {
        Progress::Everything
    } else {
        Progress::Part { done, total: p.total }
    }
}

/// The state of the index in one word.
pub fn status_word(progress: Progress) -> (r: &'static str)
    ensures
        r@ == if progress == Progress::Everything {
            "ready"@
        } else {
            "indexing"@
        },
{
    match progress {
        Progress::Everything => "ready",
        Progress::Nothing => "indexing",
        Progress::Part { .. } => "indexing",
    }
}

/// A batch that has ended is shown as complete.
pub proof fn finished_is_ready(p: IndexProgress, stored_files: i64)
    requires
        p.finished,
    ensures
        progress_of(p, stored_files) == Progress::Everything,
{
}

/// The counters before a new batch.
pub fn reset_progress(p: &mut IndexProgress)
    ensures
        *final(p) == (IndexProgress {
            processed: 0,
            failed: 0,
            excluded: 0,
            total: 0,
            finished: false,
        }),
{
    *p = IndexProgress::new(0);
}

// ── Local requests ──────────────────────────────────────────────────────────

/// The address of a client.
#[derive(Clone, Copy, Debug)]
pub enum PeerIp {
    V4([u8; 4]),
    V6([u16; 8]),
}

/// Whether an address is one of this machine: `127.0.0.0/8`, `::1`, or an IPv4
/// address of this machine written as IPv6.
pub open spec fn is_loopback(ip: PeerIp) -> bool {
    match ip {
        PeerIp::V4(o) => o[0] == 127,
        PeerIp::V6(s) => s[0] == 0 && s[1] == 0 && s[2] == 0 && s[3] == 0 && s[4] == 0 && (s[5] == 0
            && s[6] == 0 && s[7] == 1 || s[5] == 0xffff && s[6] / 256 == 127),
    }
}

fn loopback(ip: &PeerIp) -> (r: bool)
    ensures
        r == is_loopback(*ip),
{
    match ip {
        PeerIp::V4(o) => o[0] == 127,
        PeerIp::V6(s) => s[0] == 0 && s[1] == 0 && s[2] == 0 && s[3] == 0 && s[4] == 0 && (s[5] == 0
            && s[6] == 0 && s[7] == 1 || s[5] == 0xffff && s[6] / 256 == 127),
    }
}

/// The host in a `Host` header: without its port, and without the brackets around
/// an IPv6 address.
pub open spec fn hostname_of(host: Seq<char>) -> Seq<char> {
    if host.len() > 0 && host[0] == '[' && first_index(host.skip(1), ']') is Some {
        host.skip(1).take(first_index(host.skip(1), ']')->Some_0 as int)
    } else {
        match last_index(host, ':') {
            Some(i) => host.take(i as int),
            None => host,
        }
    }
}

/// The host in a `Host` header: `localhost:7788` gives `localhost`, and
/// `[::1]:7788` gives `::1`.
pub fn extract_hostname(host: &str) -> (r: String)
    ensures
        r@ == hostname_of(host@),
{
    let v = chars_of(host);
    if v.len() > 0 && v[0] == '[' {
        let mut rest: Vec<char> = Vec::new();
        let mut i: usize = 1;
        while i < v.len()
            invariant
                1 <= i <= v@.len(),
                rest@ =~= v@.subrange(1, i as int),
            decreases v@.len() - i,
        {
            rest.push(v[i]);
            i = i + 1;
        }
        assert(rest@ =~= host@.skip(1));
        if let Some(end) = find_char(&rest, ']') {
            let inner = slice_subrange(rest.as_slice(), 0, end);
            assert(inner@ =~= host@.skip(1).take(end as int));
            return text_of(inner);
        }
    }
    match rfind_char(&v, ':') {
        Some(i) => {
            let head = slice_subrange(v.as_slice(), 0, i);
            assert(head@ =~= host@.take(i as int));
            text_of(head)
        },
        None => host.to_owned(),
    }
}

/// Whether a host is this machine by name.
pub open spec fn is_local_name(name: Seq<char>) -> bool {
    lower_text(name) == "localhost"@ || lower_text(name) == "127.0.0.1"@ || lower_text(name)
        == "::1"@
}

/// Whether a request comes from this machine: by its address, or by the host that
/// it was made to.
pub fn is_local_request(ip: &PeerIp, host_header: Option<&str>) -> (r: bool)
    ensures
        r == (is_loopback(*ip) || host_header is Some && is_local_name(
            hostname_of(host_header->Some_0@),
        )),
{
    if loopback(ip) {
        return true;
    }
    match host_header {
        None => false,
        Some(host) => {
            let name = extract_hostname(host);
            let v = chars_of(name.as_str());
            let low = lower_chars(&v);
            let text = text_of(low.as_slice());
            same(text.as_str(), "localhost") || same(text.as_str(), "127.0.0.1") || same(
                text.as_str(),
                "::1",
            )
        },
    }
}

/// Only requests from this machine may change the settings.
pub fn check_local(ip: &PeerIp, host_header: Option<&str>) -> (r: Result<(), AppError>)
    ensures
        r is Ok <==> is_loopback(*ip) || host_header is Some && is_local_name(
            hostname_of(host_header->Some_0@),
        ),
        r is Err ==> r->Err_0 is InvalidRequest && r->Err_0->InvalidRequest_0@
            == "Only local connections can change configuration"@,
{
    if is_local_request(ip, host_header) {
        Ok(())
    } else {
        Err(
            AppError::InvalidRequest(
                "Only local connections can change configuration".to_owned(),
            ),
        )
    }
}

// ── Settings ────────────────────────────────────────────────────────────────

/// A table of the `toml` crate.
#[verifier::external_type_specification]
#[verifier::external_body]
#[verifier::reject_recursive_types(K)]
#[verifier::reject_recursive_types(V)]
pub struct TomlMap<K, V>(toml::map::Map<K, V>);

/// A value of the `toml` crate.
#[verifier::external_type_specification]
#[verifier::external_body]
pub struct TomlValue(toml::Value);

/// What a value of the `toml` crate holds, written out.
pub uninterp spec fn value_text(value: toml::Value) -> Seq<char>;

/// What a document of the `toml` crate holds: under each key at its top, the value
/// written out.
pub uninterp spec fn entries(document: toml::Table) -> Map<Seq<char>, Seq<char>>;

/// What the `toml` crate reads from a text: the entries of the document, or why it
/// cannot.
pub uninterp spec fn toml_entries(text: Seq<char>) -> Result<Map<Seq<char>, Seq<char>>, Seq<char>>;

/// Whether a value that is written out in this way is a table.
pub uninterp spec fn toml_is_table(value: Seq<char>) -> bool;

/// A table, written out, in which a key has been set to a list of strings.
pub uninterp spec fn toml_set(table: Seq<char>, key: Seq<char>, strings: Seq<Seq<char>>) -> Seq<
    char,
>;

/// What the `toml` crate writes for a document with these entries, or why it cannot.
pub uninterp spec fn toml_text(entries: Map<Seq<char>, Seq<char>>) -> Result<Seq<char>, Seq<char>>;

/// `toml::from_str` into a `toml::Table`: what the document holds, or why there is none,
/// depends on the text alone.
#[verifier::external_body]
fn parse_document(text: &str) -> (r: Result<toml::Table, String>)
    ensures
        match r {
            Ok(t) => toml_entries(text@) == Ok::<Map<Seq<char>, Seq<char>>, Seq<char>>(entries(t)),
            Err(e) => toml_entries(text@) == Err::<Map<Seq<char>, Seq<char>>, Seq<char>>(e@),
        },
{
    toml::from_str(text).map_err(|e: toml::de::Error| e.to_string())
}

/// Whether a key stands at the top of a document, and if so whether it is a table.
pub open spec fn kind_of(entries: Map<Seq<char>, Seq<char>>, key: Seq<char>) -> Option<bool> {
    if entries.contains_key(key) {
        Some(toml_is_table(entries[key]))
    } else {
        None
    }
}

/// `toml::Table::get`: the value under a key, where there is one.
#[verifier::external_body]
fn get_entry<'a>(document: &'a toml::Table, key: &str) -> (r: Option<&'a toml::Value>)
    ensures
        match r {
            Some(v) => entries(*document).contains_key(key@) && entries(*document)[key@]
                == value_text(*v),
            None => !entries(*document).contains_key(key@),
        },
{
    document.get(key)
}

/// `toml::Value::is_table`: whether a value is a table, which what it holds shows.
#[verifier::external_body]
fn is_table(value: &toml::Value) -> (r: bool)
    ensures
        r == toml_is_table(value_text(*value)),
{
    value.is_table()
}

/// `toml::Table::insert` into one of the tables of a document, of a list of strings: no
/// other entry of the document changes, and what becomes of this one depends on what it
/// was, the key and the strings alone. It stays a table.
#[verifier::external_body]
fn insert_strings(document: &mut toml::Table, table: &str, key: &str, strings: &Vec<String>)
    requires
        kind_of(entries(*old(document)), table@) == Some(true),
    ensures
        entries(*final(document)) == entries(*old(document)).insert(
            table@,
            toml_set(entries(*old(document))[table@], key@, views(strings@)),
        ),
        kind_of(entries(*final(document)), table@) == Some(true),
{
    let list = toml::Value::Array(strings.iter().cloned().map(toml::Value::String).collect());
    let inner = document.get_mut(table).and_then(|t| t.as_table_mut()).expect("a table");
    inner.insert(key.to_string(), list);
}

/// `toml::to_string_pretty` of a document: the text, or why there is none, depends on
/// what the document holds alone.
#[verifier::external_body]
fn write_document(document: &toml::Table) -> (r: Result<String, String>)
    ensures
        match r {
            Ok(t) => toml_text(entries(*document)) == Ok::<Seq<char>, Seq<char>>(t@),
            Err(e) => toml_text(entries(*document)) == Err::<Seq<char>, Seq<char>>(e@),
        },
{
    toml::to_string_pretty(document).map_err(|e| e.to_string())
}

/// Whether the directories to scan can be set in a document, by what stands under
/// `paths` at its top.
pub fn check_paths_table(kind: Option<bool>) -> (r: Result<(), AppError>)
    ensures
        match kind {
            Some(true) => r is Ok,
            Some(false) => r is Err && r->Err_0 is Other && r->Err_0->Other_0@
                == "'paths' in config is not a table"@,
            None => r is Err && r->Err_0 is Other && r->Err_0->Other_0@
                == "'paths' section not found in config"@,
        },
{
    match kind {
        Some(true) => Ok(()),
        Some(false) => Err(AppError::Other("'paths' in config is not a table".to_owned())),
        None => Err(AppError::Other("'paths' section not found in config".to_owned())),
    }
}

/// The entries of the settings with other directories to scan: all but `paths` stay.
pub open spec fn with_dirs(entries: Map<Seq<char>, Seq<char>>, dirs: Seq<Seq<char>>) -> Map<
    Seq<char>,
    Seq<char>,
> {
    entries.insert("paths"@, toml_set(entries["paths"@], "scan_dirs"@, dirs))
}

fn other_error(what: &str, why: &String) -> (r: AppError)
    ensures
        r is Other,
        r->Other_0@ == what@ + why@,
{
    let mut msg = what.to_owned();
    msg.append(why.as_str());
    AppError::Other(msg)
}

/// The settings file with other directories to scan, from what it holds now.
pub fn with_scan_dirs(content: &str, scan_dirs: &Vec<String>) -> (r: Result<String, AppError>)
    ensures
        match toml_entries(content@) {
            Err(e) => r is Err && r->Err_0 is Other && r->Err_0->Other_0@
                == "Failed to parse config: "@ + e,
            Ok(held) => match kind_of(held, "paths"@) {
                None => r is Err && r->Err_0 is Other && r->Err_0->Other_0@
                    == "'paths' section not found in config"@,
                Some(false) => r is Err && r->Err_0 is Other && r->Err_0->Other_0@
                    == "'paths' in config is not a table"@,
                Some(true) => match toml_text(with_dirs(held, views(scan_dirs@))) {
                    Ok(t) => r is Ok && r->Ok_0@ == t,
                    Err(e) => r is Err && r->Err_0 is Other && r->Err_0->Other_0@
                        == "Failed to serialize config: "@ + e,
                },
            },
        },
{
    let mut document = match parse_document(content) {
        Ok(d) => d,
        Err(e) => return Err(other_error("Failed to parse config: ", &e)),
    };
    let kind: Option<bool> = match get_entry(&document, "paths") {
        Some(v) => Some(is_table(v)),
        None => None,
    };
    match check_paths_table(kind) {
        Err(e) => return Err(e),
        Ok(_) => {},
    }
    insert_strings(&mut document, "paths", "scan_dirs", scan_dirs);
    match write_document(&document) {
        Ok(t) => Ok(t),
        Err(e) => Err(other_error("Failed to serialize config: ", &e)),
    }
}

// ── Answers ─────────────────────────────────────────────────────────────────

/// The answer to a search.
#[derive(Debug)]
pub struct SearchResponseBody {
    pub results: Vec<SearchResult>,
    pub total: usize,
    pub search_time_ms: u64,
}

impl From<SearchResponse> for SearchResponseBody {
    fn from(r: SearchResponse) -> (body: Self) {
        let total: usize = r.results.len();
        SearchResponseBody { results: r.results, total, search_time_ms: r.search_time_ms }
    }
}

impl vstd::std_specs::convert::FromSpecImpl<SearchResponse> for SearchResponseBody {
    open spec fn obeys_from_spec() -> bool {
        true
    }

    open spec fn from_spec(r: SearchResponse) -> SearchResponseBody {
        SearchResponseBody {
            results: r.results,
            total: r.results.len(),
            search_time_ms: r.search_time_ms,
        }
    }
}

// ── Laws of the handlers ────────────────────────────────────────────────────

/// What is decoded of a pasted text is what stands behind its first comma, or all of it
/// where there is none, without the white space at either end: `r.0` is the place of the
/// comma or minus one, and the part goes from `r.1` up to `r.2`.
pub proof fn base64_stands_behind_the_comma(text: &str, part: String) -> (r: (int, int, int))
    requires
        call_ensures(strip_data_uri, (text,), part),
    ensures
        -1 <= r.0 < r.1 <= r.2 <= text@.len(),
        part@ == text@.subrange(r.1, r.2),
        r.0 >= 0 ==> text@[r.0] == ',' && forall|i: int|
            0 <= i < r.0 ==> #[trigger] text@[i] != ',',
        r.0 == -1 ==> forall|i: int| 0 <= i < text@.len() ==> #[trigger] text@[i] != ',',
        forall|i: int|
            r.0 < i < r.1 || r.2 <= i < text@.len() ==> crate::text::is_white(#[trigger] text@[i]),
        r.1 < r.2 ==> !crate::text::is_white(text@[r.1]) && !crate::text::is_white(text@[r.2 - 1]),
{
    let s = text@;
    crate::text::lemma_first_index(s, ',');
    let comma = match first_index(s, ',') {
        Some(i) => i as int,
        None => -1,
    };
    let rest = s.skip(comma + 1);
    assert(comma == -1 ==> rest =~= s);
    let cut = crate::text::lemma_trimmed(rest);
    let from = comma + 1 + cut.0;
    let end = comma + 1 + cut.1;
    assert(s.subrange(from, end) =~= rest.subrange(cut.0, cut.1));
    assert forall|i: int| comma < i < from || end <= i < s.len() implies crate::text::is_white(
        #[trigger] s[i],
    ) by {
        assert(rest[i - comma - 1] == s[i]);
    }
    (comma, from, end)
}

/// Indexing is complete once a batch has ended or all of its files are done; where no
/// batch has begun, it is where files were indexed before.
pub proof fn progress_is_what_is_done(p: &IndexProgress, stored_files: i64, r: Progress)
    requires
        p.processed + p.failed + p.excluded <= u64::MAX,
        call_ensures(index_progress, (p, stored_files), r),
    ensures
        r is Everything <==> p.finished || p.total == 0 && stored_files > 0 || p.total > 0
            && p.processed + p.failed + p.excluded >= p.total,
        r is Nothing <==> !p.finished && p.total == 0 && stored_files <= 0,
        r is Part ==> r->done == p.processed + p.failed + p.excluded && r->total == p.total && r->done
            < r->total,
{
}

/// By its address a request is local where that is an IPv4 address that begins with 127,
/// such an address written as IPv6, or `::1`.
pub proof fn local_addresses(ip: &PeerIp, r: bool)
    requires
        call_ensures(is_local_request, (ip, None::<&str>), r),
    ensures
        match *ip {
            PeerIp::V4(o) => r == (o@[0] == 127),
            PeerIp::V6(s) => {
                &&& (exists|i: int| 0 <= i < 5 && #[trigger] s@[i] != 0) ==> !r
                &&& (forall|i: int| 0 <= i < 7 ==> #[trigger] s@[i] == 0) ==> r == (s@[7] == 1)
                &&& s@[5] == 0 && s@[6] != 0 ==> !r
                &&& s@[5] != 0 && s@[5] != 0xffff ==> !r
                &&& s@[5] == 0xffff && (forall|i: int| 0 <= i < 5 ==> #[trigger] s@[i] == 0) ==> r
                    == (0x7f00 <= s@[6] < 0x8000)
            },
        },
{
}

/// The host of a header stands between brackets where it begins with one that is closed,
/// and before the last colon otherwise; without a colon it is all of the header.
pub proof fn hosts_stand_before_their_port(host: &str, r: String) -> (end: int)
    requires
        call_ensures(extract_hostname, (host,), r),
    ensures
        0 <= end <= host@.len(),
        host@.len() > 0 && host@[0] == '[' && host@.contains(']') ==> 1 <= end < host@.len()
            && host@[end] == ']' && r@ == host@.subrange(1, end) && forall|i: int|
            0 <= i < end ==> #[trigger] host@[i] != ']',
        !(host@.len() > 0 && host@[0] == '[' && host@.contains(']')) ==> r@ == host@.subrange(0, end)
            && (end < host@.len() ==> host@[end] == ':') && forall|i: int|
            end < i < host@.len() ==> #[trigger] host@[i] != ':',
        !(host@.len() > 0 && host@[0] == '[' && host@.contains(']')) && host@.contains(':') ==> end
            < host@.len(),
{
    let s = host@;
    let rest = s.skip(1);
    crate::text::lemma_first_index(rest, ']');
    crate::text::lemma_last_index(s, ':');
    if s.len() > 0 && s[0] == '[' && s.contains(']') {
        let k = choose|k: int| 0 <= k < s.len() && s[k] == ']';
        assert(rest[k - 1] == s[k]);
        let p = first_index(rest, ']')->Some_0 as int;
        assert(rest[p] == s[p + 1]);
        assert(rest.take(p) =~= s.subrange(1, p + 1));
        assert forall|i: int| 0 <= i < p + 1 implies #[trigger] s[i] != ']' by {
            if i > 0 {
                assert(rest[i - 1] == s[i]);
            }
        }
        p + 1
    } else {
        if s.len() > 0 && s[0] == '[' && first_index(rest, ']') is Some {
            let p = first_index(rest, ']')->Some_0 as int;
            assert(s[p + 1] == rest[p]);
            assert(s.contains(s[p + 1]));
        }
        match last_index(s, ':') {
            Some(i) => {
                assert(s.take(i as int) =~= s.subrange(0, i as int));
                i as int
            },
            None => {
                assert(s.subrange(0, s.len() as int) =~= s);
                s.len() as int
            },
        }
    }
}

/// A request from elsewhere is local where the host that it was made to is `localhost`,
/// `127.0.0.1` or `::1`, in letters of either case; only local requests may change the
/// settings.
pub proof fn local_hosts(
    ip: &PeerIp,
    host: &str,
    name: String,
    by_address: bool,
    r: bool,
    checked: Result<(), AppError>,
)
    requires
        call_ensures(extract_hostname, (host,), name),
        call_ensures(is_local_request, (ip, None::<&str>), by_address),
        call_ensures(is_local_request, (ip, Some(host)), r),
        call_ensures(check_local, (ip, Some(host)), checked),
    ensures
        r <==> by_address || is_spelled(
            name@,
            seq!['l', 'o', 'c', 'a', 'l', 'h', 'o', 's', 't'],
        ) || is_spelled(name@, seq!['1', '2', '7', '.', '0', '.', '0', '.', '1']) || is_spelled(
            name@,
            seq![':', ':', '1'],
        ),
        checked is Ok <==> r,
{
    reveal_strlit("localhost");
    reveal_strlit("127.0.0.1");
    reveal_strlit("::1");
    assert("localhost"@ =~= seq!['l', 'o', 'c', 'a', 'l', 'h', 'o', 's', 't']);
    assert("127.0.0.1"@ =~= seq!['1', '2', '7', '.', '0', '.', '0', '.', '1']);
    assert("::1"@ =~= seq![':', ':', '1']);
    lemma_spelled(name@, "localhost"@);
    lemma_spelled(name@, "127.0.0.1"@);
    lemma_spelled(name@, "::1"@);
}

/// Setting the directories to scan leaves everything else in the settings: what is
/// written has the same entries, of which only `paths` differs, and there only
/// `scan_dirs` is set.
pub proof fn other_settings_stay(
    content: &str,
    scan_dirs: &Vec<String>,
    held: Map<Seq<char>, Seq<char>>,
    r: Result<String, AppError>,
) -> (written: Map<Seq<char>, Seq<char>>)
    requires
        call_ensures(with_scan_dirs, (content, scan_dirs), r),
        toml_entries(content@) == Ok::<Map<Seq<char>, Seq<char>>, Seq<char>>(held),
    ensures
        r is Ok ==> toml_text(written) == Ok::<Seq<char>, Seq<char>>(r->Ok_0@),
        r is Ok ==> held.contains_key("paths"@) && toml_is_table(held["paths"@]),
        held.contains_key("paths"@) && toml_is_table(held["paths"@]) && toml_text(written) is Ok
            ==> r is Ok,
        held.contains_key("paths"@) ==> written.dom() == held.dom(),
        forall|k: Seq<char>|
            held.contains_key(k) && k != "paths"@ ==> #[trigger] written[k] == held[k],
        written["paths"@] == toml_set(
            held["paths"@],
            "scan_dirs"@,
            scan_dirs@.map_values(|d: String| d@),
        ),
{
    let written = with_dirs(held, views(scan_dirs@));
    assert(views(scan_dirs@) =~= scan_dirs@.map_values(|d: String| d@));
    if held.contains_key("paths"@) {
        assert(written.dom() =~= held.dom());
    }
    written
}

/// A field may be an image where its content type begins with `image/` or says nothing.
pub proof fn images_may_be_uploaded(content_type: &str, r: Result<(), AppError>)
    requires
        call_ensures(check_content_type, (content_type,), r),
    ensures
        r is Ok <==> content_type@.len() == 0 || content_type@.len() >= 6 && content_type@[0] == 'i'
            && content_type@[1] == 'm' && content_type@[2] == 'a' && content_type@[3] == 'g'
            && content_type@[4] == 'e' && content_type@[5] == '/',
        r is Err ==> r->Err_0 is UnsupportedMediaType && r->Err_0->mime@ == content_type@,
{
    reveal_strlit("image/");
    let c = content_type@;
    assert("image/"@.len() == 6);
    if c.len() >= 6 && c[0] == 'i' && c[1] == 'm' && c[2] == 'a' && c[3] == 'g' && c[4] == 'e' && c[5]
        == '/' {
        assert(c.take(6) =~= "image/"@);
    }
    if has_prefix(c, "image/"@) {
        let p = c.take(6);
        assert(p[0] == c[0] && p[1] == c[1] && p[2] == c[2] && p[3] == c[3] && p[4] == c[4] && p[5]
            == c[5]);
    }
}

/// An image may have up to 64 mebibytes, uploaded or pasted.
pub proof fn large_images_are_refused(
    len: usize,
    checked: Result<(), AppError>,
    form: &mut UploadForm,
    bytes: Vec<u8>,
    uploaded: Result<(), AppError>,
    pasted: Result<Vec<u8>, AppError>,
)
    requires
        call_ensures(check_size, (len,), checked),
        call_ensures(UploadForm::on_image, (form, bytes), uploaded),
        call_ensures(accept_decoded, (Ok(bytes),), pasted),
    ensures
        checked is Ok <==> len <= 64 * 1024 * 1024,
        uploaded is Ok <==> bytes@.len() <= 64 * 1024 * 1024,
        pasted is Ok <==> bytes@.len() <= 64 * 1024 * 1024,
        uploaded is Ok ==> final(form).image == Some(bytes),
        uploaded is Err ==> final(form).image == old(form).image,
        pasted is Ok ==> pasted->Ok_0 == bytes,
{
}

/// A pasted text is decoded from the part of it that is Base64.
pub proof fn pasted_texts_are_decoded(text: &str, part: String, r: Result<Vec<u8>, AppError>)
    requires
        call_ensures(strip_data_uri, (text,), part),
        call_ensures(decode_clipboard, (text,), r),
    ensures
        base64_decoded(part@) is Err ==> r is Err && r->Err_0 is InvalidRequest,
        base64_decoded(part@) is Ok && base64_decoded(part@)->Ok_0.len() > 64 * 1024 * 1024 ==> r
            is Err && r->Err_0 is PayloadTooLarge,
        base64_decoded(part@) is Ok && base64_decoded(part@)->Ok_0.len() <= 64 * 1024 * 1024 ==> r
            is Ok && r->Ok_0@ == base64_decoded(part@)->Ok_0,
{
}

/// The number of results that are wanted is what the field says, and nothing where that
/// is no number; the image stays.
pub proof fn wanted_results_are_read(
    form: &mut UploadForm,
    text: &str,
    number: Option<usize>,
)
    requires
        call_ensures(UploadForm::on_top_k, (form, text), ()),
        call_ensures(parse_usize, (text,), number),
    ensures
        final(form).top_k == number,
        final(form).image == old(form).image,
{
}

} // verus!
