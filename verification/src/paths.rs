//! Paths as text. Both separators and the drives of the Windows file system count, and
//! `/` is the separator that is written.

use crate::text::{chars_of, text_of};
use vstd::prelude::*;
use vstd::slice::slice_subrange;

verus! {

/// Whether `c` separates the parts of a path.
pub open spec fn is_separator(c: char) -> bool {
    c == '/' || c == '\\'
}

/// The length of the drive that a path begins with, such as `C:`.
pub open spec fn drive_len(p: Seq<char>) -> int {
    if p.len() >= 2 && p[1] == ':' && ('a' <= p[0] <= 'z' || 'A' <= p[0] <= 'Z') {
        2
    } else {
        0
    }
}

/// The drive that a path begins with, or nothing.
pub open spec fn drive_of(p: Seq<char>) -> Seq<char> {
    p.take(drive_len(p))
}

/// A path without its drive.
pub open spec fn body_of(p: Seq<char>) -> Seq<char> {
    p.skip(drive_len(p))
}

/// The part of `p` behind its last separator.
pub open spec fn last_segment(p: Seq<char>) -> Seq<char>
    decreases p.len(),
{
    if p.len() == 0 || is_separator(p.last()) {
        Seq::empty()
    } else {
        last_segment(p.drop_last()).push(p.last())
    }
}

/// The final name of a path without a drive: separators and `.` parts at its end do
/// not count, and a path that ends in `..` has none.
pub open spec fn name_of_body(p: Seq<char>) -> Option<Seq<char>>
    decreases p.len(),
{
    if p.len() == 0 {
        None
    } else if is_separator(p.last()) {
        name_of_body(p.drop_last())
    } else if last_segment(p) == seq!['.'] {
        name_of_body(p.take(p.len() - 1))
    } else if last_segment(p) == seq!['.', '.'] {
        None
    } else {
        Some(last_segment(p))
    }
}

/// The final name of a path.
pub open spec fn file_name_of(p: Seq<char>) -> Option<Seq<char>> {
    name_of_body(body_of(p))
}

/// What stands behind the last dot of a name, unless that dot begins the name.
pub open spec fn extension_of_name(name: Seq<char>) -> Option<Seq<char>>
    decreases name.len(),
{
    if name.len() <= 1 {
        None
    } else if name.last() == '.' {
        Some(Seq::empty())
    } else {
        match extension_of_name(name.drop_last()) {
            Some(e) => Some(e.push(name.last())),
            None => None,
        }
    }
}

/// The extension of the final name of a path.
pub open spec fn extension_of(p: Seq<char>) -> Option<Seq<char>> {
    match file_name_of(p) {
        Some(name) => extension_of_name(name),
        None => None,
    }
}

fn separator(c: char) -> (r: bool)
    ensures
        r == is_separator(c),
{
    c == '/' || c == '\\'
}

fn drive(p: &Vec<char>) -> (r: usize)
    ensures
        r == drive_len(p@),
        r <= p@.len(),
{
    if p.len() >= 2 && p[1] == ':' && ('a' <= p[0] && p[0] <= 'z' || 'A' <= p[0] && p[0] <= 'Z') {
        2
    } else {
        0
    }
}

/// The characters of a path without its drive.
fn body(path: &str) -> (r: Vec<char>)
    ensures
        r@ == body_of(path@),
{
    let p = chars_of(path);
    let mut i: usize = drive(&p);
    let mut out: Vec<char> = Vec::new();
    while i < p.len()
        invariant
            drive_len(p@) <= i <= p@.len(),
            0 <= drive_len(p@),
            out@ =~= p@.subrange(drive_len(p@), i as int),
        decreases p@.len() - i,
    {
        out.push(p[i]);
        i = i + 1;
    }
    assert(out@ =~= body_of(path@));
    out
}

proof fn lemma_last_segment(p: Seq<char>, a: int)
    requires
        0 <= a <= p.len(),
        a == 0 || is_separator(p[a - 1]),
        forall|i: int| a <= i < p.len() ==> !is_separator(#[trigger] p[i]),
    ensures
        last_segment(p) =~= p.skip(a),
    decreases p.len(),
{
    if a < p.len() {
        assert(!is_separator(p[p.len() - 1]));
        lemma_last_segment(p.drop_last(), a);
    }
}

/// The final name of a path.
pub fn file_name(path: &str) -> (r: Option<String>)
    ensures
        match r {
            Some(n) => file_name_of(path@) == Some(n@),
            None => file_name_of(path@) is None,
        },
{
    let p = body(path);
    let mut end: usize = p.len();
    assert(p@.take(end as int) =~= p@);
    while end > 0
        invariant
            end <= p@.len(),
            name_of_body(p@.take(end as int)) == file_name_of(path@),
        decreases end,
    {
        let ghost t = p@.take(end as int);
        assert(t.drop_last() =~= p@.take(end - 1));
        if separator(p[end - 1]) {
            end = end - 1;
        } else {
            let mut a: usize = end;
            while a > 0 && !separator(p[a - 1])
                invariant
                    a <= end <= p@.len(),
                    t == p@.take(end as int),
                    forall|i: int| a <= i < end ==> !is_separator(#[trigger] t[i]),
                decreases a,
            {
                a = a - 1;
            }
            proof {
                lemma_last_segment(t, a as int);
                assert(t.skip(a as int).len() == end - a);
            }
            let seg = slice_subrange(p.as_slice(), a, end);
            assert(seg@ =~= last_segment(t));
            if end - a == 1 && p[a] == '.' {
                assert(last_segment(t) =~= seq!['.']);
                end = end - 1;
            } else if end - a == 2 && p[a] == '.' && p[a + 1] == '.' {
                assert(last_segment(t) =~= seq!['.', '.']);
                return None;
            } else {
                assert(last_segment(t) != seq!['.']) by {
                    if last_segment(t) == seq!['.'] {
                        assert(seg@[0] == '.');
                    }
                }
                assert(last_segment(t) != seq!['.', '.']) by {
                    if last_segment(t) == seq!['.', '.'] {
                        assert(seg@[0] == '.' && seg@[1] == '.');
                    }
                }
                return Some(text_of(seg));
            }
        }
    }
    None
}

proof fn lemma_extension(name: Seq<char>, dot: int)
    requires
        0 < dot < name.len(),
        name[dot] == '.',
        forall|i: int| dot < i < name.len() ==> #[trigger] name[i] != '.',
    ensures
        extension_of_name(name) == Some(name.skip(dot + 1)),
    decreases name.len(),
{
    if dot == name.len() - 1 {
        assert(name.skip(dot + 1) =~= Seq::empty());
    } else {
        assert(name.last() != '.');
        lemma_extension(name.drop_last(), dot);
        assert(name.drop_last().skip(dot + 1).push(name.last()) =~= name.skip(dot + 1));
    }
}

proof fn lemma_no_extension(name: Seq<char>)
    requires
        forall|i: int| 0 < i < name.len() ==> #[trigger] name[i] != '.',
    ensures
        extension_of_name(name) is None,
    decreases name.len(),
{
    if name.len() > 1 {
        assert(name[name.len() - 1] != '.');
        lemma_no_extension(name.drop_last());
    }
}

/// The extension of the final name of a path, as its characters.
pub fn extension(path: &str) -> (r: Option<Vec<char>>)
    ensures
        match r {
            Some(e) => extension_of(path@) == Some(e@),
            None => extension_of(path@) is None,
        },
{
    let name_text = match file_name(path) {
        Some(n) => n,
        None => return None,
    };
    let name = chars_of(name_text.as_str());
    let mut i: usize = name.len();
    while i > 1
        invariant
            i <= name@.len(),
            name@ == name_text@,
            file_name_of(path@) == Some(name@),
            forall|k: int| i <= k < name@.len() ==> #[trigger] name@[k] != '.',
        decreases i,
    {
        if name[i - 1] == '.' {
            proof {
                lemma_extension(name@, i - 1);
            }
            let mut out: Vec<char> = Vec::new();
            let mut k: usize = i;
            while k < name.len()
                invariant
                    i <= k <= name@.len(),
                    out@ =~= name@.subrange(i as int, k as int),
                decreases name@.len() - k,
            {
                out.push(name[k]);
                k = k + 1;
            }
            assert(out@ =~= name@.skip(i as int));
            return Some(out);
        }
        i = i - 1;
    }
    proof {
        lemma_no_extension(name@);
    }
    None
}

/// What stands before the last dot of a name, or all of it where it has no
/// extension.
pub open spec fn stem_of_name(name: Seq<char>) -> Seq<char> {
    match extension_of_name(name) {
        Some(e) => name.take(name.len() - e.len() - 1),
        None => name,
    }
}

/// The final name of a path without its extension.
pub open spec fn stem_of(p: Seq<char>) -> Option<Seq<char>> {
    match file_name_of(p) {
        Some(name) => Some(stem_of_name(name)),
        None => None,
    }
}

/// The final name of a path without its extension.
pub fn file_stem(path: &str) -> (r: Option<String>)
    ensures
        match r {
            Some(s) => stem_of(path@) == Some(s@),
            None => stem_of(path@) is None,
        },
{
    let name_text = match file_name(path) {
        Some(n) => n,
        None => return None,
    };
    match extension(path) {
        None => Some(name_text),
        Some(e) => {
            let name = chars_of(name_text.as_str());
            proof {
                lemma_extension_is_shorter(name@);
            }
            let n: usize = name.len() - e.len() - 1;
            let head = slice_subrange(name.as_slice(), 0, n);
            assert(head@ =~= name@.take(n as int));
            Some(text_of(head))
        },
    }
}

proof fn lemma_extension_is_shorter(name: Seq<char>)
    ensures
        extension_of_name(name) is Some ==> extension_of_name(name)->Some_0.len() < name.len(),
    decreases name.len(),
{
    if name.len() > 1 && name.last() != '.' {
        lemma_extension_is_shorter(name.drop_last());
    }
}

/// `p` without the separators and `.` parts at its end; a root keeps its first
/// separator, and a `.` at the very beginning stays.
pub open spec fn without_trailing(p: Seq<char>) -> Seq<char>
    decreases p.len(),
{
    if p.len() > 1 && (is_separator(p.last()) || last_segment(p) == seq!['.']) {
        without_trailing(p.drop_last())
    } else {
        p
    }
}

/// The directory of a path without a drive.
pub open spec fn parent_of_body(p: Seq<char>) -> Option<Seq<char>> {
    let q = without_trailing(p);
    if q.len() == 0 || is_separator(q.last()) {
        None
    } else {
        Some(without_trailing(q.take(q.len() - last_segment(q).len())))
    }
}

/// The directory of a path: what stands before its last part. A path without
/// parts has none.
pub open spec fn parent_of(p: Seq<char>) -> Option<Seq<char>> {
    match parent_of_body(body_of(p)) {
        Some(d) => Some(drive_of(p) + d),
        None => None,
    }
}

fn segment_start(p: &Vec<char>, end: usize) -> (r: usize)
    requires
        end <= p@.len(),
    ensures
        r <= end,
        last_segment(p@.take(end as int)) == p@.subrange(r as int, end as int),
{
    let ghost t = p@.take(end as int);
    let mut a: usize = end;
    while a > 0 && !separator(p[a - 1])
        invariant
            a <= end <= p@.len(),
            t == p@.take(end as int),
            forall|i: int| a <= i < end ==> !is_separator(#[trigger] t[i]),
        decreases a,
    {
        a = a - 1;
    }
    proof {
        lemma_last_segment(t, a as int);
        assert(t.skip(a as int) =~= p@.subrange(a as int, end as int));
    }
    a
}

fn trailing_end(p: &Vec<char>, end: usize) -> (r: usize)
    requires
        end <= p@.len(),
    ensures
        r <= end,
        p@.take(r as int) == without_trailing(p@.take(end as int)),
{
    let mut e: usize = end;
    loop
        invariant
            e <= end <= p@.len(),
            without_trailing(p@.take(e as int)) == without_trailing(p@.take(end as int)),
        decreases e,
    {
        let ghost t = p@.take(e as int);
        if e <= 1 {
            return e;
        }
        assert(t.drop_last() =~= p@.take(e - 1));
        let a: usize = segment_start(p, e);
        let dot: bool = e - a == 1 && p[a] == '.';
        proof {
            assert(last_segment(t).len() == e - a);
            if dot {
                assert(last_segment(t) =~= seq!['.']);
            } else if last_segment(t) == seq!['.'] {
                assert(last_segment(t)[0] == p@[a as int]);
            }
        }
        if !separator(p[e - 1]) && !dot {
            return e;
        }
        e = e - 1;
    }
}

/// The directory of a path.
pub fn parent(path: &str) -> (r: Option<String>)
    ensures
        match r {
            Some(d) => parent_of(path@) == Some(d@),
            None => parent_of(path@) is None,
        },
{
    let all = chars_of(path);
    let p = body(path);
    assert(p@.take(p@.len() as int) =~= p@);
    let end: usize = trailing_end(&p, p.len());
    let ghost q = p@.take(end as int);
    if end == 0 || separator(p[end - 1]) {
        return None;
    }
    let a: usize = segment_start(&p, end);
    assert(q.take(a as int) =~= p@.take(a as int));
    let e: usize = trailing_end(&p, a);
    let d: usize = drive(&all);
    assert(p@.len() + d == all@.len());
    assert(all.len() == all@.len());
    let front: usize = d + e;
    let head = slice_subrange(all.as_slice(), 0, front);
    assert(head@ =~= drive_of(path@) + p@.take(e as int));
    Some(text_of(head))
}

/// `rel` below the directory `base`. A `rel` with a drive replaces `base`, and one that
/// begins at the root replaces all of it but its drive.
pub open spec fn joined(base: Seq<char>, rel: Seq<char>) -> Seq<char> {
    if drive_len(rel) > 0 {
        rel
    } else if rel.len() > 0 && is_separator(rel[0]) {
        drive_of(base) + rel
    } else if body_of(base).len() == 0 || is_separator(base.last()) {
        base + rel
    } else {
        base.push('/') + rel
    }
}

/// `rel` below the directory `base`.
pub fn join(base: &str, rel: &str) -> (r: String)
    ensures
        r@ == joined(base@, rel@),
{
    let b = chars_of(base);
    let q = chars_of(rel);
    if drive(&q) > 0 {
        return rel.to_owned();
    }
    let front: usize = drive(&b);
    if q.len() > 0 && separator(q[0]) {
        let head = slice_subrange(b.as_slice(), 0, front);
        assert(head@ =~= drive_of(base@));
        let mut out = text_of(head);
        out.append(rel);
        return out;
    }
    let mut out = base.to_owned();
    if b.len() > front && !separator(b[b.len() - 1]) {
        out.push('/');
    }
    out.append(rel);
    out
}

// ── Laws of paths ───────────────────────────────────────────────────────────

/// The last part of a path is its name: what stands behind the last separator, or behind
/// the drive where there is none, unless it is `.` or `..`.
pub proof fn names_stand_behind_the_last_separator(path: &str, start: int, r: Option<String>)
    requires
        call_ensures(file_name, (path,), r),
        0 <= start < path@.len(),
        forall|i: int|
            start <= i < path@.len() ==> #[trigger] path@[i] != '/' && path@[i] != '\\',
        start > 0 && (path@[start - 1] == '/' || path@[start - 1] == '\\') || start == 0 && (
        path@.len() < 2 || path@[1] != ':'),
        path@.skip(start) != seq!['.'],
    ensures
        path@.skip(start) == seq!['.', '.'] ==> r is None,
        path@.skip(start) != seq!['.', '.'] ==> r is Some && r->Some_0@ == path@.skip(start),
{
    let p = path@;
    let d = drive_len(p);
    let b = body_of(p);
    assert(start >= d);
    assert forall|i: int| start - d <= i < b.len() implies !is_separator(#[trigger] b[i]) by {
        assert(b[i] == p[i + d]);
    }
    if start > d {
        assert(b[start - d - 1] == p[start - 1]);
    }
    lemma_last_segment(b, start - d);
    assert(b.skip(start - d) =~= p.skip(start));
    assert(b.last() == p.last());
}

/// A separator at the end of a path does not change its name.
pub proof fn separators_at_the_end_do_not_count(
    path: &str,
    longer: &str,
    r: Option<String>,
    s: Option<String>,
)
    requires
        call_ensures(file_name, (path,), r),
        call_ensures(file_name, (longer,), s),
        longer@ == path@.push('/') || longer@ == path@.push('\\'),
    ensures
        r is Some == s is Some,
        r is Some ==> r->Some_0@ == s->Some_0@,
{
    let p = path@;
    let q = longer@;
    assert(drive_len(p) == drive_len(q));
    assert(body_of(q).drop_last() =~= body_of(p));
    assert(body_of(q).last() == q.last());
}

proof fn lemma_dots(name: Seq<char>)
    ensures
        match extension_of_name(name) {
            Some(e) => 0 < name.len() - e.len() - 1 && name == name.take(name.len() - e.len() - 1).push(
                '.',
            ) + e && !e.contains('.'),
            None => forall|i: int| 0 < i < name.len() ==> #[trigger] name[i] != '.',
        },
    decreases name.len(),
{
    if name.len() <= 1 {
    } else if name.last() == '.' {
        assert(name =~= name.take(name.len() - 1).push('.') + Seq::<char>::empty());
    } else {
        let init = name.drop_last();
        lemma_dots(init);
        match extension_of_name(init) {
            Some(e) => {
                let long = e.push(name.last());
                let k = init.len() - e.len() - 1;
                assert(name.take(k) =~= init.take(k));
                assert(name =~= init.push(name.last()));
                assert(init.take(k).push('.') + long =~= (init.take(k).push('.') + e).push(
                    name.last(),
                ));
                if long.contains('.') {
                    let i = choose|i: int| 0 <= i < long.len() && long[i] == '.';
                    assert(long[i] == if i < e.len() {
                        e[i]
                    } else {
                        name.last()
                    });
                    assert(e.contains('.'));
                }
            },
            None => {
                assert forall|i: int| 0 < i < name.len() implies #[trigger] name[i] != '.' by {
                    if i < init.len() {
                        assert(init[i] == name[i]);
                    }
                }
            },
        }
    }
}

/// A name is its stem, a dot and its extension, which has no dot; a name whose only dot
/// is its first character, or that has none, is all stem.
pub proof fn names_are_stems_and_extensions(
    path: &str,
    name: Option<String>,
    stem: Option<String>,
    ext: Option<Vec<char>>,
)
    requires
        call_ensures(file_name, (path,), name),
        call_ensures(file_stem, (path,), stem),
        call_ensures(extension, (path,), ext),
    ensures
        name is Some <==> stem is Some,
        ext is Some ==> name is Some,
        ext is Some ==> name->Some_0@ == stem->Some_0@.push('.') + ext->Some_0@
            && stem->Some_0@.len() > 0 && !ext->Some_0@.contains('.'),
        name is Some && ext is None ==> stem->Some_0@ == name->Some_0@ && forall|i: int|
            0 < i < name->Some_0@.len() ==> #[trigger] name->Some_0@[i] != '.',
{
    if name is Some {
        lemma_dots(name->Some_0@);
    }
}

/// A path that begins with neither a drive nor a separator is put below the base, with a
/// separator between them unless the base ends with one or is empty; any other replaces
/// the base, of which only a drive may stay.
pub proof fn paths_are_joined_by_a_separator(base: &str, rel: &str, r: String)
    requires
        call_ensures(join, (base, rel), r),
    ensures
        rel@.len() >= 2 && rel@[1] == ':' && ('a' <= rel@[0] <= 'z' || 'A' <= rel@[0] <= 'Z') ==> r@
            == rel@,
        rel@.len() > 0 && (rel@[0] == '/' || rel@[0] == '\\') && (base@.len() < 2 || base@[1] != ':')
            ==> r@ == rel@,
        (rel@.len() < 2 || rel@[1] != ':') && (rel@.len() == 0 || rel@[0] != '/' && rel@[0] != '\\')
            ==> {
            &&& base@.len() == 0 ==> r@ == rel@
            &&& base@.len() > 0 && (base@.last() == '/' || base@.last() == '\\') ==> r@ == base@ + rel@
            &&& base@.len() > 0 && base@.last() != '/' && base@.last() != '\\' && (base@.len() != 2
                || base@[1] != ':') ==> r@ == base@ + seq!['/'] + rel@
        },
{
    assert(drive_of(base@).len() == 0 ==> drive_of(base@) + rel@ =~= rel@);
    assert(base@.len() == 0 ==> base@ + rel@ =~= rel@);
    assert(base@.push('/') + rel@ =~= base@ + seq!['/'] + rel@);
}

/// The directory of a file below a base is the base, where the base does not itself end
/// in a separator or in a part that is only a dot.
pub proof fn directories_hold_their_files(base: &str, name: &str, path: &str, r: Option<String>)
    requires
        call_ensures(parent, (path,), r),
        path@ == base@ + seq!['/'] + name@,
        name@.len() > 0,
        forall|i: int| 0 <= i < name@.len() ==> #[trigger] name@[i] != '/' && name@[i] != '\\',
        name@ != seq!['.'],
        base@.len() > 2,
        base@.last() != '/',
        base@.last() != '\\',
        base@.last() != '.',
    ensures
        r is Some,
        r->Some_0@ == base@,
{
    let p = path@;
    let d = drive_len(p);
    let b = body_of(p);
    let n = base@.len() as int;
    assert(drive_len(base@) == d);
    assert(b =~= body_of(base@) + seq!['/'] + name@);
    let at = n - d + 1;
    assert(b[at - 1] == '/');
    assert forall|i: int| at <= i < b.len() implies !is_separator(#[trigger] b[i]) by {
        assert(b[i] == name@[i - at]);
    }
    lemma_last_segment(b, at);
    assert(b.skip(at) =~= name@);
    assert(b.last() == name@.last());
    assert(without_trailing(b) == b);
    let dir = b.take(b.len() - name@.len());
    assert(dir =~= body_of(base@).push('/'));
    assert(dir.drop_last() =~= body_of(base@));
    let inner = body_of(base@);
    assert(inner.last() == base@.last());
    assert(last_segment(inner) != seq!['.']) by {
        if last_segment(inner) == seq!['.'] {
            assert(last_segment(inner).last() == inner.last());
        }
    }
    assert(without_trailing(inner) == inner);
    assert(without_trailing(dir) == inner);
    assert(drive_of(p) + inner =~= base@);
}

} // verus!
