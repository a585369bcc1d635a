//! Text as a sequence of characters: conversion, trimming, splitting, and
//! decimal numbers.

use vstd::prelude::*;
use vstd::utf8::is_ascii_chars;

verus! {

/// `String::push` appends one character to the end of the string.
pub assume_specification[ String::push ](s: &mut String, c: char)
    ensures
        final(s)@ == old(s)@.push(c),
;

/// The texts of a list of strings.
pub open spec fn views(s: Seq<String>) -> Seq<Seq<char>> {
    s.map_values(|x: String| x@)
}

/// The characters of `s`, in order.
pub fn chars_of(s: &str) -> (r: Vec<char>)
    ensures
        r@ == s@,
{
    let mut out: Vec<char> = Vec::new();
    for c in it: s.chars()
        invariant
            out@ =~= it.seq().take(it.index() as int),
            it.seq() == s@,
    {
        out.push(c);
    }
    out
}

/// The string made of the characters of `v`.
pub fn text_of(v: &[char]) -> (r: String)
    ensures
        r@ == v@,
{
    let mut out = String::new();
    let mut i: usize = 0;
    while i < v.len()
        invariant
            i <= v@.len(),
            out@ =~= v@.take(i as int),
        decreases v@.len() - i,
    {
        out.push(v[i]);
        i = i + 1;
    }
    out
}

/// Whether the two strings hold the same characters.
pub fn same(a: &str, b: &str) -> (r: bool)
    ensures
        r == (a@ == b@),
{
    let x = chars_of(a);
    let y = chars_of(b);
    if x.len() != y.len() {
        return false;
    }
    let mut i: usize = 0;
    while i < x.len()
        invariant
            i <= x@.len(),
            x@.len() == y@.len(),
            x@.take(i as int) =~= y@.take(i as int),
            x@ == a@,
            y@ == b@,
        decreases x@.len() - i,
    {
        if x[i] != y[i] {
            assert(a@[i as int] != b@[i as int]);
            return false;
        }
        i = i + 1;
    }
    assert(x@.take(i as int) =~= x@);
    assert(y@.take(i as int) =~= y@);
    true
}

/// The bytes of a text that is all ASCII.
pub open spec fn ascii(s: Seq<char>) -> Seq<u8> {
    Seq::new(s.len(), |i: int| s[i] as u8)
}

/// The bytes of an ASCII text.
pub fn ascii_bytes(s: &str) -> (r: &[u8])
    requires
        is_ascii_chars(s@),
    ensures
        r@ == ascii(s@),
{
    broadcast use vstd::string::is_ascii_spec_bytes;

    let r = s.as_bytes();
    assert(vstd::string::is_ascii(s));
    assert(r@ =~= ascii(s@));
    r
}

/// The characters that have Unicode's `White_Space` property.
pub open spec fn is_white(c: char) -> bool {
    ||| '\u{9}' <= c <= '\u{d}'
    ||| c == '\u{20}'
    ||| c == '\u{85}'
    ||| c == '\u{a0}'
    ||| c == '\u{1680}'
    ||| '\u{2000}' <= c <= '\u{200a}'
    ||| c == '\u{2028}'
    ||| c == '\u{2029}'
    ||| c == '\u{202f}'
    ||| c == '\u{205f}'
    ||| c == '\u{3000}'
}

/// Whether `c` is white space.
pub fn white(c: char) -> (r: bool)
    ensures
        r == is_white(c),
{
    ('\u{9}' <= c && c <= '\u{d}') || c == '\u{20}' || c == '\u{85}' || c == '\u{a0}'
        || c == '\u{1680}' || ('\u{2000}' <= c && c <= '\u{200a}') || c == '\u{2028}'
        || c == '\u{2029}' || c == '\u{202f}' || c == '\u{205f}' || c == '\u{3000}'
}

/// `s` without its leading white space.
pub open spec fn trim_front(s: Seq<char>) -> Seq<char>
    decreases s.len(),
{
    if s.len() > 0 && is_white(s[0]) {
        trim_front(s.skip(1))
    } else {
        s
    }
}

/// `s` without its trailing white space.
pub open spec fn trim_back(s: Seq<char>) -> Seq<char>
    decreases s.len(),
{
    if s.len() > 0 && is_white(s.last()) {
        trim_back(s.drop_last())
    } else {
        s
    }
}

/// `s` without the white space at either end.
pub open spec fn trimmed(s: Seq<char>) -> Seq<char> {
    trim_back(trim_front(s))
}

/// The characters of `s` without the white space at either end.
pub fn trim_chars(s: &str) -> (r: Vec<char>)
    ensures
        r@ == trimmed(s@),
{
    let v = chars_of(s);
    let mut a: usize = 0;
    assert(v@.skip(0) =~= v@);
    while a < v.len() && white(v[a])
        invariant
            a <= v@.len(),
            trim_front(v@.skip(a as int)) == trim_front(v@),
        decreases v@.len() - a,
    {
        assert(v@.skip(a as int).skip(1) =~= v@.skip(a + 1));
        a = a + 1;
    }
    let mut b: usize = v.len();
    let ghost f = v@.skip(a as int);
    assert(trim_front(v@) == f);
    assert(f.take(b - a) =~= f);
    while b > a && white(v[b - 1])
        invariant
            a <= b <= v@.len(),
            f == v@.skip(a as int),
            trim_back(f.take(b - a)) == trim_back(f),
        decreases b,
    {
        assert(f.take(b - a).drop_last() =~= f.take(b - a - 1));
        b = b - 1;
    }
    assert(trim_back(f.take(b - a)) == f.take(b - a));
    let mut out: Vec<char> = Vec::new();
    let mut i: usize = a;
    while i < b
        invariant
            a <= i <= b <= v@.len(),
            f == v@.skip(a as int),
            out@ =~= f.take(i - a),
        decreases b - i,
    {
        out.push(v[i]);
        i = i + 1;
    }
    out
}

/// `s` without the white space at either end, as `str::trim` gives it.
pub fn trim(s: &str) -> (r: String)
    ensures
        r@ == trimmed(s@),
{
    let v = trim_chars(s);
    text_of(v.as_slice())
}

/// The words of `s` that have ended, and the one that has not: words are what
/// stands between white space.
pub open spec fn split_words(s: Seq<char>) -> (Seq<Seq<char>>, Seq<char>)
    decreases s.len(),
{
    if s.len() == 0 {
        (Seq::empty(), Seq::empty())
    } else {
        let (done, open) = split_words(s.drop_last());
        if !is_white(s.last()) {
            (done, open.push(s.last()))
        } else if open.len() > 0 {
            (done.push(open), Seq::empty())
        } else {
            (done, open)
        }
    }
}

/// The words of `s`: its longest stretches without white space, in order.
pub open spec fn words_of(s: Seq<char>) -> Seq<Seq<char>> {
    let (done, open) = split_words(s);
    if open.len() > 0 {
        done.push(open)
    } else {
        done
    }
}

/// The characters of a list of texts.
pub open spec fn char_views(s: Seq<Vec<char>>) -> Seq<Seq<char>> {
    s.map_values(|x: Vec<char>| x@)
}

/// The words of `s`, as `str::split_whitespace` gives them.
pub fn words(s: &str) -> (r: Vec<Vec<char>>)
    ensures
        char_views(r@) == words_of(s@),
{
    let v = chars_of(s);
    let mut done: Vec<Vec<char>> = Vec::new();
    let mut open: Vec<char> = Vec::new();
    let mut i: usize = 0;
    assert(char_views(done@) =~= Seq::empty());
    assert(v@.take(0) =~= Seq::empty());
    while i < v.len()
        invariant
            i <= v@.len(),
            (char_views(done@), open@) == split_words(v@.take(i as int)),
        decreases v@.len() - i,
    {
        assert(v@.take(i + 1).drop_last() =~= v@.take(i as int));
        let c: char = v[i];
        if !white(c) {
            open.push(c);
        } else if open.len() > 0 {
            let ghost before = char_views(done@);
            let ghost word = open@;
            done.push(open);
            assert(char_views(done@) =~= before.push(word));
            open = Vec::new();
            assert(open@ =~= Seq::empty());
        }
        i = i + 1;
    }
    assert(v@.take(i as int) =~= v@);
    if open.len() > 0 {
        let ghost before = char_views(done@);
        let ghost word = open@;
        done.push(open);
        assert(char_views(done@) =~= before.push(word));
    }
    done
}

/// Whether `w` holds no white space.
pub open spec fn no_white(w: Seq<char>) -> bool {
    forall|j: int| 0 <= j < w.len() ==> !is_white(#[trigger] w[j])
}

/// Whether every text of a list is not empty and holds no white space.
pub open spec fn all_words(s: Seq<Seq<char>>) -> bool {
    forall|i: int| 0 <= i < s.len() ==> (#[trigger] s[i]).len() > 0 && no_white(s[i])
}

proof fn lemma_split(s: Seq<char>)
    ensures
        all_words(split_words(s).0),
        no_white(split_words(s).1),
    decreases s.len(),
{
    if s.len() > 0 {
        lemma_split(s.drop_last());
    }
}

/// A word is not empty and holds no white space.
pub proof fn words_are_words(s: Seq<char>)
    ensures
        all_words(words_of(s)),
{
    lemma_split(s);
}

/// An ASCII capital letter in lower case; other characters stay.
pub open spec fn lower_char(c: char) -> char {
    if 'A' <= c <= 'Z' {
        (c as u32 + 32) as char
    } else {
        c
    }
}

/// Every ASCII capital letter of `s` in lower case.
pub open spec fn lower_text(s: Seq<char>) -> Seq<char> {
    s.map_values(|c: char| lower_char(c))
}

/// An ASCII capital letter in lower case; other characters stay.
pub fn lower(c: char) -> (r: char)
    ensures
        r == lower_char(c),
{
    if 'A' <= c && c <= 'Z' {
        let b: u8 = c as u8;
        (b + 32) as char
    } else {
        c
    }
}

/// Every ASCII capital letter of `s` in lower case.
pub fn lower_chars(s: &Vec<char>) -> (r: Vec<char>)
    ensures
        r@ == lower_text(s@),
{
    let mut out: Vec<char> = Vec::new();
    let mut i: usize = 0;
    while i < s.len()
        invariant
            i <= s@.len(),
            out@ =~= lower_text(s@.take(i as int)),
        decreases s@.len() - i,
    {
        out.push(lower(s[i]));
        i = i + 1;
    }
    assert(s@.take(i as int) =~= s@);
    out
}

/// The decimal digit of value `d`.
pub open spec fn digit_char(d: int) -> char {
    if d == 0 {
        '0'
    } else if d == 1 {
        '1'
    } else if d == 2 {
        '2'
    } else if d == 3 {
        '3'
    } else if d == 4 {
        '4'
    } else if d == 5 {
        '5'
    } else if d == 6 {
        '6'
    } else if d == 7 {
        '7'
    } else if d == 8 {
        '8'
    } else {
        '9'
    }
}

fn digit(d: u64) -> (c: char)
    requires
        d < 10,
    ensures
        c == digit_char(d as int),
{
    if d == 0 {
        '0'
    } else if d == 1 {
        '1'
    } else if d == 2 {
        '2'
    } else if d == 3 {
        '3'
    } else if d == 4 {
        '4'
    } else if d == 5 {
        '5'
    } else if d == 6 {
        '6'
    } else if d == 7 {
        '7'
    } else if d == 8 {
        '8'
    } else {
        '9'
    }
}

/// The decimal digits of `n`, without leading zeros.
pub open spec fn digits(n: nat) -> Seq<char>
    decreases n,
{
    if n < 10 {
        seq![digit_char(n as int)]
    } else {
        digits(n / 10).push(digit_char((n % 10) as int))
    }
}

/// `n` in decimal, with a minus sign where it is negative.
pub open spec fn decimal(n: int) -> Seq<char> {
    if n < 0 {
        seq!['-'] + digits((-n) as nat)
    } else {
        digits(n as nat)
    }
}

/// `n` in decimal.
pub fn decimal_u64(n: u64) -> (r: String)
    ensures
        r@ == digits(n as nat),
        r@ == decimal(n as int),
    decreases n,
{
    if n < 10 {
        let mut out = String::new();
        out.push(digit(n));
        assert(out@ =~= digits(n as nat));
        out
    } else {
        let mut out = decimal_u64(n / 10);
        out.push(digit(n % 10));
        out
    }
}

/// `n` in decimal, with a minus sign where it is negative.
pub fn decimal_i64(n: i64) -> (r: String)
    ensures
        r@ == decimal(n as int),
{
    if n < 0 {
        let magnitude: u64 = if n == i64::MIN {
            9223372036854775808u64
        } else {
            (-n) as u64
        };
        let mut out = String::new();
        out.push('-');
        let tail = decimal_u64(magnitude);
        out.append(tail.as_str());
        assert(out@ =~= seq!['-'] + digits((-n) as nat));
        out
    } else {
        decimal_u64(n as u64)
    }
}

/// The first position of `c` in `s`.
pub open spec fn first_index(s: Seq<char>, c: char) -> Option<nat>
    decreases s.len(),
{
    if s.len() == 0 {
        None
    } else {
        match first_index(s.drop_last(), c) {
            Some(i) => Some(i),
            None => if s.last() == c {
                Some((s.len() - 1) as nat)
            } else {
                None
            },
        }
    }
}

/// The last position of `c` in `s`.
pub open spec fn last_index(s: Seq<char>, c: char) -> Option<nat>
    decreases s.len(),
{
    if s.len() == 0 {
        None
    } else if s.last() == c {
        Some((s.len() - 1) as nat)
    } else {
        last_index(s.drop_last(), c)
    }
}

/// The first position of `c` in `s`.
pub fn find_char(s: &Vec<char>, c: char) -> (r: Option<usize>)
    ensures
        match r {
            Some(i) => first_index(s@, c) == Some(i as nat) && i < s@.len(),
            None => first_index(s@, c) is None,
        },
{
    let mut found: Option<usize> = None;
    let mut i: usize = 0;
    assert(s@.take(0) =~= Seq::empty());
    while i < s.len()
        invariant
            i <= s@.len(),
            match found {
                Some(k) => first_index(s@.take(i as int), c) == Some(k as nat) && k < i,
                None => first_index(s@.take(i as int), c) is None,
            },
        decreases s@.len() - i,
    {
        assert(s@.take(i + 1).drop_last() =~= s@.take(i as int));
        if found.is_none() && s[i] == c {
            found = Some(i);
        }
        i = i + 1;
    }
    assert(s@.take(i as int) =~= s@);
    found
}

/// The last position of `c` in `s`.
pub fn rfind_char(s: &Vec<char>, c: char) -> (r: Option<usize>)
    ensures
        match r {
            Some(i) => last_index(s@, c) == Some(i as nat) && i < s@.len(),
            None => last_index(s@, c) is None,
        },
{
    let mut i: usize = s.len();
    assert(s@.take(i as int) =~= s@);
    while i > 0
        invariant
            i <= s@.len(),
            last_index(s@.take(i as int), c) == last_index(s@, c),
        decreases i,
    {
        assert(s@.take(i as int).drop_last() =~= s@.take(i - 1));
        if s[i - 1] == c {
            return Some(i - 1);
        }
        i = i - 1;
    }
    None
}

/// A line without the carriage return at its end.
pub open spec fn without_cr(s: Seq<char>) -> Seq<char> {
    if s.len() > 0 && s.last() == '\r' {
        s.drop_last()
    } else {
        s
    }
}

/// The lines of `s` that have ended, and what follows the last of them.
pub open spec fn split_lines(s: Seq<char>) -> (Seq<Seq<char>>, Seq<char>)
    decreases s.len(),
{
    if s.len() == 0 {
        (Seq::empty(), Seq::empty())
    } else {
        let (done, open) = split_lines(s.drop_last());
        if s.last() == '\n' {
            (done.push(without_cr(open)), Seq::empty())
        } else {
            (done, open.push(s.last()))
        }
    }
}

/// The lines of `s`: each ends with a line feed, or a carriage return and a line
/// feed, and the last one need not.
pub open spec fn lines_of(s: Seq<char>) -> Seq<Seq<char>> {
    let (done, open) = split_lines(s);
    if open.len() > 0 {
        done.push(open)
    } else {
        done
    }
}

/// The lines of `s`, as `str::lines` gives them.
pub fn lines(s: &str) -> (r: Vec<String>)
    ensures
        views(r@) == lines_of(s@),
{
    let v = chars_of(s);
    let mut done: Vec<String> = Vec::new();
    let mut open: Vec<char> = Vec::new();
    let mut i: usize = 0;
    assert(views(done@) =~= Seq::empty());
    assert(v@.take(0) =~= Seq::empty());
    while i < v.len()
        invariant
            i <= v@.len(),
            (views(done@), open@) == split_lines(v@.take(i as int)),
        decreases v@.len() - i,
    {
        assert(v@.take(i + 1).drop_last() =~= v@.take(i as int));
        let c: char = v[i];
        if c == '\n' {
            let ghost before = views(done@);
            let ghost line = open@;
            if open.len() > 0 && open[open.len() - 1] == '\r' {
                open.pop();
            }
            assert(open@ =~= without_cr(line));
            let text = text_of(open.as_slice());
            done.push(text);
            assert(views(done@) =~= before.push(without_cr(line)));
            open = Vec::new();
            assert(open@ =~= Seq::empty());
        } else {
            open.push(c);
        }
        i = i + 1;
    }
    assert(v@.take(i as int) =~= v@);
    if open.len() > 0 {
        let ghost before = views(done@);
        let text = text_of(open.as_slice());
        done.push(text);
        assert(views(done@) =~= before.push(open@));
    }
    done
}

/// The value of a decimal digit.
pub open spec fn digit_value(c: char) -> Option<nat> {
    if '0' <= c <= '9' {
        Some((c as u32 - '0' as u32) as nat)
    } else {
        None
    }
}

/// The number that some digits make; `None` where another character is among
/// them.
pub open spec fn digits_value(s: Seq<char>) -> Option<nat>
    decreases s.len(),
{
    if s.len() == 0 {
        Some(0)
    } else {
        match digits_value(s.drop_last()) {
            None => None,
            Some(v) => match digit_value(s.last()) {
                None => None,
                Some(d) => Some(v * 10 + d),
            },
        }
    }
}

/// The number that `s` is in decimal: one digit or more, behind a plus sign or
/// not.
pub open spec fn unsigned_of(s: Seq<char>) -> Option<nat> {
    let body = if s.len() > 0 && s[0] == '+' {
        s.skip(1)
    } else {
        s
    };
    if body.len() == 0 {
        None
    } else {
        digits_value(body)
    }
}

proof fn lemma_digits_grow(s: Seq<char>, n: int)
    requires
        0 <= n <= s.len(),
    ensures
        digits_value(s.take(n)) is None ==> digits_value(s) is None,
        digits_value(s) is Some ==> digits_value(s.take(n)) is Some && digits_value(s)->Some_0
            >= digits_value(s.take(n))->Some_0,
    decreases s.len(),
{
    if n < s.len() {
        lemma_digits_grow(s.drop_last(), n);
        assert(s.drop_last().take(n) =~= s.take(n));
    } else {
        assert(s.take(n) =~= s);
    }
}

fn parse_digits(s: &Vec<char>, from: usize) -> (r: Option<u64>)
    requires
        from <= s@.len(),
    ensures
        match r {
            Some(v) => from < s@.len() && digits_value(s@.skip(from as int)) == Some(v as nat),
            None => from == s@.len() || digits_value(s@.skip(from as int)) is None || digits_value(
                s@.skip(from as int),
            )->Some_0 > u64::MAX,
        },
{
    if from == s.len() {
        return None;
    }
    let ghost body = s@.skip(from as int);
    let mut value: u64 = 0;
    let mut i: usize = from;
    assert(body.take(0) =~= Seq::empty());
    while i < s.len()
        invariant
            from < s@.len(),
            from <= i <= s@.len(),
            body == s@.skip(from as int),
            digits_value(body.take(i - from)) == Some(value as nat),
        decreases s@.len() - i,
    {
        let c: char = s[i];
        proof {
            assert(body[i - from] == c);
            assert(body.take(i - from + 1).drop_last() =~= body.take(i - from));
            assert(body.take(i - from + 1).last() == c);
            lemma_digits_grow(body, i - from + 1);
        }
        if !('0' <= c && c <= '9') {
            return None;
        }
        let d: u64 = (c as u32 - '0' as u32) as u64;
        if value > (u64::MAX - d) / 10 {
            return None;
        }
        value = value * 10 + d;
        i = i + 1;
    }
    assert(body.take(i - from) =~= body);
    Some(value)
}

/// The number that `s` is in decimal, where it is one and fits.
pub fn parse_u64(s: &str) -> (r: Option<u64>)
    ensures
        match r {
            Some(v) => unsigned_of(s@) == Some(v as nat),
            None => unsigned_of(s@) is None || unsigned_of(s@)->Some_0 > u64::MAX,
        },
{
    let v = chars_of(s);
    let from: usize = if v.len() > 0 && v[0] == '+' {
        1
    } else {
        0
    };
    assert(from == 0 ==> v@.skip(0) =~= v@);
    parse_digits(&v, from)
}

/// The number that `s` is in decimal, where it is one and fits.
pub fn parse_usize(s: &str) -> (r: Option<usize>)
    ensures
        match r {
            Some(v) => unsigned_of(s@) == Some(v as nat),
            None => unsigned_of(s@) is None || unsigned_of(s@)->Some_0 > usize::MAX,
        },
{
    match parse_u64(s) {
        Some(v) => if v <= usize::MAX as u64 {
            Some(v as usize)
        } else {
            None
        },
        None => None,
    }
}

/// The number that `s` is in decimal: one digit or more, behind a sign or not.
pub open spec fn signed_of(s: Seq<char>) -> Option<int> {
    if s.len() > 0 && s[0] == '-' {
        if s.len() == 1 {
            None
        } else {
            match digits_value(s.skip(1)) {
                Some(v) => Some(-(v as int)),
                None => None,
            }
        }
    } else {
        match unsigned_of(s) {
            Some(v) => Some(v as int),
            None => None,
        }
    }
}

/// The number that `s` is in decimal, where it is one and fits.
pub fn parse_i32(s: &str) -> (r: Option<i32>)
    ensures
        match r {
            Some(v) => signed_of(s@) == Some(v as int),
            None => signed_of(s@) is None || signed_of(s@)->Some_0 > i32::MAX
                || signed_of(s@)->Some_0 < i32::MIN,
        },
{
    let v = chars_of(s);
    if v.len() > 0 && v[0] == '-' {
        match parse_digits(&v, 1) {
            Some(n) => if n <= 0x7fff_ffff {
                Some(-(n as i32))
            } else if n == 0x8000_0000 {
                Some(i32::MIN)
            } else {
                None
            },
            None => None,
        }
    } else {
        match parse_u64(s) {
            Some(n) => if n <= 0x7fff_ffff {
                Some(n as i32)
            } else {
                None
            },
            None => None,
        }
    }
}

/// Whether `s` begins with `prefix`.
pub open spec fn has_prefix(s: Seq<char>, prefix: Seq<char>) -> bool {
    s.len() >= prefix.len() && s.take(prefix.len() as int) == prefix
}

/// What follows `prefix` in `s`, where `s` begins with it.
pub fn strip_prefix(s: &str, prefix: &str) -> (r: Option<String>)
    ensures
        r is Some <==> has_prefix(s@, prefix@),
        r is Some ==> r->Some_0@ == s@.skip(prefix@.len() as int),
{
    let v = chars_of(s);
    let p = chars_of(prefix);
    if v.len() < p.len() {
        return None;
    }
    let mut i: usize = 0;
    while i < p.len()
        invariant
            i <= p@.len() <= v@.len(),
            v@ == s@,
            p@ == prefix@,
            v@.take(i as int) =~= p@.take(i as int),
        decreases p@.len() - i,
    {
        if v[i] != p[i] {
            assert(s@.take(p@.len() as int)[i as int] != prefix@[i as int]);
            return None;
        }
        i = i + 1;
    }
    assert(p@.take(i as int) =~= p@);
    let rest = vstd::slice::slice_subrange(v.as_slice(), i, v.len());
    assert(rest@ =~= s@.skip(i as int));
    Some(text_of(rest))
}

// ── Laws ────────────────────────────────────────────────────────────────────

/// Where the words of a text that have ended begin.
spec fn word_starts(s: Seq<char>) -> Seq<int>
    decreases s.len(),
{
    if s.len() == 0 {
        Seq::empty()
    } else {
        let open = split_words(s.drop_last()).1;
        if is_white(s.last()) && open.len() > 0 {
            word_starts(s.drop_last()).push(s.len() - 1 - open.len())
        } else {
            word_starts(s.drop_last())
        }
    }
}

/// Whether the words stand in the text at the given places, each as a whole, and no
/// other character of the text is anything but white space.
pub open spec fn stand_at(s: Seq<char>, words: Seq<Seq<char>>, at: Seq<int>) -> bool {
    &&& at.len() == words.len()
    &&& forall|k: int|
        0 <= k < words.len() ==> {
            let (a, b) = (#[trigger] at[k], at[k] + words[k].len());
            &&& 0 <= a < b <= s.len()
            &&& words[k] == s.subrange(a, b)
            &&& a == 0 || is_white(s[a - 1])
            &&& b == s.len() || is_white(s[b])
        }
    &&& forall|k: int, l: int|
        0 <= k < l < words.len() ==> #[trigger] at[k] + words[k].len() < #[trigger] at[l]
    &&& forall|p: int|
        0 <= p < s.len() && !is_white(#[trigger] s[p]) ==> exists|k: int|
            0 <= k < words.len() && #[trigger] at[k] <= p < at[k] + words[k].len()
}

proof fn lemma_split_stands(s: Seq<char>)
    ensures
        ({
            let (done, open) = split_words(s);
            let at = word_starts(s);
            let n = s.len() - open.len();
            &&& 0 <= n
            &&& open == s.subrange(n, s.len() as int)
            &&& n == 0 || is_white(s[n - 1])
            &&& at.len() == done.len()
            &&& forall|k: int|
                0 <= k < done.len() ==> {
                    let (a, b) = (#[trigger] at[k], at[k] + done[k].len());
                    &&& 0 <= a < b < s.len()
                    &&& b < n
                    &&& done[k] == s.subrange(a, b)
                    &&& a == 0 || is_white(s[a - 1])
                    &&& is_white(s[b])
                }
            &&& forall|k: int, l: int|
                0 <= k < l < done.len() ==> #[trigger] at[k] + done[k].len() < #[trigger] at[l]
            &&& forall|p: int|
                0 <= p < n && !is_white(#[trigger] s[p]) ==> exists|k: int|
                    0 <= k < done.len() && #[trigger] at[k] <= p < at[k] + done[k].len()
        }),
    decreases s.len(),
{
    if s.len() > 0 {
        let t = s.drop_last();
        lemma_split_stands(t);
        let (done0, open0) = split_words(t);
        let (done, open) = split_words(s);
        let at0 = word_starts(t);
        let at = word_starts(s);
        let n0 = t.len() - open0.len();
        assert forall|k: int| 0 <= k < done0.len() implies done0[k] == s.subrange(
            #[trigger] at0[k],
            at0[k] + done0[k].len(),
        ) by {
            assert(t.subrange(at0[k], at0[k] + done0[k].len()) =~= s.subrange(
                at0[k],
                at0[k] + done0[k].len(),
            ));
        }
        assert(open0 =~= s.subrange(n0, n0 + open0.len()));
        let n = s.len() - open.len();
        if !is_white(s.last()) {
            assert(open =~= s.subrange(n, s.len() as int));
            assert forall|p: int| 0 <= p < n && !is_white(#[trigger] s[p]) implies exists|k: int|
                0 <= k < done.len() && #[trigger] at[k] <= p < at[k] + done[k].len() by {
                assert(t[p] == s[p]);
            }
        } else {
            assert(open =~= s.subrange(s.len() as int, s.len() as int));
            assert forall|p: int| 0 <= p < n && !is_white(#[trigger] s[p]) implies exists|k: int|
                0 <= k < done.len() && #[trigger] at[k] <= p < at[k] + done[k].len() by {
                assert(t[p] == s[p]);
                if p < n0 {
                    let k = choose|k: int|
                        0 <= k < done0.len() && #[trigger] at0[k] <= p < at0[k] + done0[k].len();
                    assert(at[k] == at0[k] && done[k] == done0[k]);
                } else {
                    assert(open0.len() > 0);
                    assert(at[done0.len() as int] <= p);
                }
            }
        }
    }
}

/// The words of a text are its longest stretches without white space, each where it
/// stands, and together they are all of the text but its white space.
pub proof fn words_are_what_white_space_parts(s: &str, r: Vec<Vec<char>>) -> (at: Seq<int>)
    requires
        call_ensures(words, (s,), r),
    ensures
        stand_at(s@, char_views(r@), at),
        forall|k: int, j: int|
            0 <= k < r@.len() && 0 <= j < r@[k]@.len() ==> !is_white(#[trigger] r@[k]@[j]),
{
    words_are_words(s@);
    let at = lemma_words_stand(s@);
    assert forall|k: int, j: int| 0 <= k < r@.len() && 0 <= j < r@[k]@.len() implies !is_white(
        #[trigger] r@[k]@[j],
    ) by {
        assert(char_views(r@)[k] == r@[k]@);
        assert(no_white(words_of(s@)[k]));
    }
    at
}

/// Where the words of a text stand.
pub proof fn lemma_words_stand(s: Seq<char>) -> (at: Seq<int>)
    ensures
        stand_at(s, words_of(s), at),
{
    lemma_split_stands(s);
    let (done, open) = split_words(s);
    let at0 = word_starts(s);
    let n = s.len() - open.len();
    if open.len() > 0 {
        let at = at0.push(n);
        let w = done.push(open);
        assert forall|p: int| 0 <= p < s.len() && !is_white(#[trigger] s[p]) implies exists|k: int|
            0 <= k < w.len() && #[trigger] at[k] <= p < at[k] + w[k].len() by {
            if p < n {
                let k = choose|k: int|
                    0 <= k < done.len() && #[trigger] at0[k] <= p < at0[k] + done[k].len();
                assert(at[k] == at0[k] && w[k] == done[k]);
            } else {
                assert(at[done.len() as int] <= p);
            }
        }
        assert forall|k: int, l: int| 0 <= k < l < w.len() implies #[trigger] at[k] + w[k].len()
            < #[trigger] at[l] by {
            if l == done.len() {
                assert(at0[k] + done[k].len() < n);
            } else {
                assert(at0[k] + done[k].len() < at0[l]);
            }
        }
        at
    } else {
        at0
    }
}

/// White space is what parts words: blanks, tabs, line ends and the wide blank are;
/// letters, digits, punctuation and the characters of Chinese are not.
pub proof fn blanks_are_white(c: char, r: bool)
    requires
        call_ensures(white, (c,), r),
    ensures
        c == ' ' || c == '\t' || c == '\n' || c == '\r' || c == '\u{a0}' || c == '\u{3000}' ==> r,
        '!' <= c <= '~' || '\u{4e00}' <= c <= '\u{9fff}' || '\u{c0}' <= c <= '\u{24f}' ==> !r,
{
}

proof fn lemma_trim_front(s: Seq<char>) -> (a: int)
    ensures
        0 <= a <= s.len(),
        trim_front(s) == s.skip(a),
        forall|i: int| 0 <= i < a ==> is_white(#[trigger] s[i]),
        a < s.len() ==> !is_white(s[a]),
    decreases s.len(),
{
    if s.len() > 0 && is_white(s[0]) {
        let b = lemma_trim_front(s.skip(1));
        assert(s.skip(1).skip(b) =~= s.skip(b + 1));
        assert forall|i: int| 0 <= i < b + 1 implies is_white(#[trigger] s[i]) by {
            if i > 0 {
                assert(s.skip(1)[i - 1] == s[i]);
            }
        }
        b + 1
    } else {
        assert(s.skip(0) =~= s);
        0
    }
}

proof fn lemma_trim_back(s: Seq<char>) -> (b: int)
    ensures
        0 <= b <= s.len(),
        trim_back(s) == s.take(b),
        forall|i: int| b <= i < s.len() ==> is_white(#[trigger] s[i]),
        b > 0 ==> !is_white(s[b - 1]),
    decreases s.len(),
{
    if s.len() > 0 && is_white(s.last()) {
        let b = lemma_trim_back(s.drop_last());
        assert(s.drop_last().take(b) =~= s.take(b));
        assert forall|i: int| b <= i < s.len() implies is_white(#[trigger] s[i]) by {
            if i < s.len() - 1 {
                assert(s.drop_last()[i] == s[i]);
            }
        }
        b
    } else {
        assert(s.take(s.len() as int) =~= s);
        s.len() as int
    }
}

/// What is trimmed off a text is white space, all of it at either end, and the rest
/// stays as it is.
pub proof fn trimming_takes_white_space_off(s: &str, r: Vec<char>) -> (cut: (int, int))
    requires
        call_ensures(trim_chars, (s,), r),
    ensures
        0 <= cut.0 <= cut.1 <= s@.len(),
        r@ == s@.subrange(cut.0, cut.1),
        forall|i: int|
            0 <= i < cut.0 || cut.1 <= i < s@.len() ==> is_white(#[trigger] s@[i]),
        cut.0 < cut.1 ==> !is_white(s@[cut.0]) && !is_white(s@[cut.1 - 1]),
{
    lemma_trimmed(s@)
}

/// Where a text is trimmed.
pub proof fn lemma_trimmed(s: Seq<char>) -> (cut: (int, int))
    ensures
        0 <= cut.0 <= cut.1 <= s.len(),
        trimmed(s) == s.subrange(cut.0, cut.1),
        forall|i: int| 0 <= i < cut.0 || cut.1 <= i < s.len() ==> is_white(#[trigger] s[i]),
        cut.0 < cut.1 ==> !is_white(s[cut.0]) && !is_white(s[cut.1 - 1]),
{
    let a = lemma_trim_front(s);
    let f = s.skip(a);
    let b = lemma_trim_back(f);
    assert(f.take(b) =~= s.subrange(a, a + b));
    assert forall|i: int| 0 <= i < a || a + b <= i < s.len() implies is_white(#[trigger] s[i]) by {
        if i >= a {
            assert(f[i - a] == s[i]);
        }
    }
    if b > 0 {
        assert(f[0] == s[a]);
        assert(f[b - 1] == s[a + b - 1]);
    }
    (a, a + b)
}

/// The first place of a character is one where it stands, and it stands nowhere
/// before.
pub proof fn first_place_is_the_first(s: &Vec<char>, c: char, r: Option<usize>)
    requires
        call_ensures(find_char, (s, c), r),
    ensures
        r is Some ==> r->Some_0 < s@.len() && s@[r->Some_0 as int] == c && forall|i: int|
            0 <= i < r->Some_0 ==> #[trigger] s@[i] != c,
        r is None ==> forall|i: int| 0 <= i < s@.len() ==> #[trigger] s@[i] != c,
{
    lemma_first_index(s@, c);
}

pub proof fn lemma_first_index(s: Seq<char>, c: char)
    ensures
        match first_index(s, c) {
            Some(p) => p < s.len() && s[p as int] == c && forall|i: int|
                0 <= i < p ==> #[trigger] s[i] != c,
            None => forall|i: int| 0 <= i < s.len() ==> #[trigger] s[i] != c,
        },
    decreases s.len(),
{
    if s.len() > 0 {
        let t = s.drop_last();
        lemma_first_index(t, c);
        assert forall|i: int| 0 <= i < t.len() implies #[trigger] s[i] == t[i] by {}
        assert(s[s.len() - 1] == s.last());
    }
}

/// The last place of a character is one where it stands, and it stands nowhere behind.
pub proof fn last_place_is_the_last(s: &Vec<char>, c: char, r: Option<usize>)
    requires
        call_ensures(rfind_char, (s, c), r),
    ensures
        r is Some ==> r->Some_0 < s@.len() && s@[r->Some_0 as int] == c && forall|i: int|
            r->Some_0 < i < s@.len() ==> #[trigger] s@[i] != c,
        r is None ==> forall|i: int| 0 <= i < s@.len() ==> #[trigger] s@[i] != c,
{
    lemma_last_index(s@, c);
}

pub proof fn lemma_last_index(s: Seq<char>, c: char)
    ensures
        match last_index(s, c) {
            Some(p) => p < s.len() && s[p as int] == c && forall|i: int|
                p < i < s.len() ==> #[trigger] s[i] != c,
            None => forall|i: int| 0 <= i < s.len() ==> #[trigger] s[i] != c,
        },
    decreases s.len(),
{
    if s.len() > 0 {
        let t = s.drop_last();
        lemma_last_index(t, c);
        assert forall|i: int| 0 <= i < t.len() implies #[trigger] s[i] == t[i] by {}
        assert(s[s.len() - 1] == s.last());
    }
}

proof fn lemma_digits_read_back(n: nat)
    ensures
        digits(n).len() > 0,
        digits_value(digits(n)) == Some(n),
        '0' <= digits(n)[0] <= '9',
    decreases n,
{
    if n >= 10 {
        lemma_digits_read_back(n / 10);
        assert(digits(n).drop_last() =~= digits(n / 10));
        assert(digits(n)[0] == digits(n / 10)[0]);
    } else {
        assert(digits(n).drop_last() =~= Seq::empty());
        assert(digits_value(Seq::<char>::empty()) == Some(0nat));
    }
}

/// A number that is written in decimal is read back as it was.
pub proof fn numbers_are_read_back(n: u64, text: String, s: &str, r: Option<u64>)
    requires
        call_ensures(decimal_u64, (n,), text),
        s@ == text@,
        call_ensures(parse_u64, (s,), r),
    ensures
        r == Some(n),
        forall|i: int| 0 <= i < text@.len() ==> '0' <= #[trigger] text@[i] <= '9',
        n > 0 ==> text@[0] != '0',
{
    lemma_digits_read_back(n as nat);
    lemma_digits_are_digits(n as nat);
}

proof fn lemma_digits_are_digits(n: nat)
    ensures
        forall|i: int| 0 <= i < digits(n).len() ==> '0' <= #[trigger] digits(n)[i] <= '9',
        n > 0 ==> digits(n)[0] != '0',
        digits(n).len() > 0,
    decreases n,
{
    if n >= 10 {
        lemma_digits_are_digits(n / 10);
    }
}

/// Where a line begins: behind the line feed that ends the one before.
pub open spec fn line_start(ends: Seq<int>, i: int) -> int {
    if i == 0 {
        0
    } else {
        ends[i - 1] + 1
    }
}

/// The characters from `from` up to `end`, where a line ends: a carriage return that
/// stands before the line feed is not part of the line.
pub open spec fn line_between(s: Seq<char>, from: int, end: int) -> Seq<char> {
    if end < s.len() && from < end && s[end - 1] == '\r' {
        s.subrange(from, end - 1)
    } else {
        s.subrange(from, end)
    }
}

/// Whether the characters from `from` up to `end` are a line that a line feed ends.
pub open spec fn is_line(s: Seq<char>, from: int, end: int) -> bool {
    &&& 0 <= from <= end < s.len()
    &&& s[end] == '\n'
    &&& forall|k: int| from <= k < end ==> #[trigger] s[k] != '\n'
}

/// What follows a line does not change it.
proof fn lemma_line_kept(s: Seq<char>, from: int, end: int)
    requires
        s.len() > 0,
        is_line(s.drop_last(), from, end),
    ensures
        is_line(s, from, end),
        line_between(s, from, end) == line_between(s.drop_last(), from, end),
{
    let t = s.drop_last();
    assert(s[end] == t[end]);
    assert forall|k: int| from <= k < end implies #[trigger] s[k] != '\n' by {
        assert(s[k] == t[k]);
    }
    assert(s.subrange(from, end) =~= t.subrange(from, end));
    if from < end {
        assert(s[end - 1] == t[end - 1]);
        assert(s.subrange(from, end - 1) =~= t.subrange(from, end - 1));
    }
}

/// A line feed ends the line that was open.
proof fn lemma_line_ended(s: Seq<char>, from: int)
    requires
        s.len() > 0,
        0 <= from < s.len(),
        s.last() == '\n',
        forall|k: int| from <= k < s.len() - 1 ==> #[trigger] s.drop_last()[k] != '\n',
    ensures
        is_line(s, from, s.len() - 1),
        line_between(s, from, s.len() - 1) == without_cr(
            s.drop_last().subrange(from, s.len() - 1),
        ),
{
    let t = s.drop_last();
    let open = t.subrange(from, t.len() as int);
    assert forall|k: int| from <= k < s.len() - 1 implies #[trigger] s[k] != '\n' by {
        assert(s[k] == t[k]);
    }
    assert(s.subrange(from, s.len() - 1) =~= open);
    if open.len() > 0 {
        assert(open.last() == s[s.len() - 2]);
        assert(s.subrange(from, s.len() - 2) =~= open.drop_last());
    }
}

proof fn lemma_lines(s: Seq<char>) -> (ends: Seq<int>)
    ensures
        ends.len() == split_lines(s).0.len(),
        forall|i: int|
            0 <= i < ends.len() ==> is_line(s, line_start(ends, i), #[trigger] ends[i]) && split_lines(
                s,
            ).0[i] == line_between(s, line_start(ends, i), ends[i]),
        0 <= line_start(ends, ends.len() as int) <= s.len(),
        split_lines(s).1 == s.subrange(line_start(ends, ends.len() as int), s.len() as int),
        forall|k: int|
            line_start(ends, ends.len() as int) <= k < s.len() ==> #[trigger] s[k] != '\n',
    decreases s.len(),
{
    if s.len() == 0 {
        assert(s.subrange(0, 0) =~= Seq::empty());
        Seq::empty()
    } else {
        let t = s.drop_last();
        let before = lemma_lines(t);
        let n = before.len() as int;
        let from = line_start(before, n);
        assert forall|i: int| 0 <= i < n implies is_line(
            s,
            line_start(before, i),
            #[trigger] before[i],
        ) && line_between(s, line_start(before, i), before[i]) == split_lines(t).0[i] by {
            lemma_line_kept(s, line_start(before, i), before[i]);
        }
        if s.last() == '\n' {
            let ends = before.push(s.len() - 1);
            lemma_line_ended(s, from);
            assert forall|i: int| 0 <= i < ends.len() implies is_line(
                s,
                line_start(ends, i),
                #[trigger] ends[i],
            ) && split_lines(s).0[i] == line_between(s, line_start(ends, i), ends[i]) by {
                assert(line_start(ends, i) == line_start(before, i));
                if i < n {
                    assert(ends[i] == before[i]);
                }
            }
            assert(s.subrange(s.len() as int, s.len() as int) =~= Seq::empty());
            ends
        } else {
            assert(s.subrange(from, s.len() as int) =~= t.subrange(from, t.len() as int).push(
                s.last(),
            ));
            assert forall|k: int| from <= k < s.len() implies #[trigger] s[k] != '\n' by {
                if k < t.len() {
                    assert(s[k] == t[k]);
                }
            }
            before
        }
    }
}

/// The lines are what line feeds part: each begins behind the one before and goes up to
/// the next line feed, without the carriage return that may stand before it. Only the
/// last may end with the text instead, and then it is not empty.
pub proof fn lines_are_what_line_feeds_part(s: &str, r: Vec<String>) -> (ends: Seq<int>)
    requires
        call_ensures(lines, (s,), r),
    ensures
        ends.len() == r@.len(),
        forall|i: int|
            0 <= i < ends.len() ==> 0 <= line_start(ends, i) <= #[trigger] ends[i] <= s@.len()
                && r@[i]@ == line_between(s@, line_start(ends, i), ends[i]),
        forall|i: int|
            0 <= i < ends.len() && #[trigger] ends[i] < s@.len() ==> s@[ends[i]] == '\n',
        forall|i: int|
            0 <= i < ends.len() && #[trigger] ends[i] == s@.len() ==> i == ends.len() - 1
                && line_start(ends, i) < s@.len(),
        forall|i: int, k: int|
            0 <= i < ends.len() && line_start(ends, i) <= k < #[trigger] ends[i] ==> #[trigger] s@[k]
                != '\n',
        s@.len() == 0 <==> ends.len() == 0,
        ends.len() > 0 ==> ends.last() >= s@.len() - 1,
{
    let before = lemma_lines(s@);
    let n = before.len() as int;
    let from = line_start(before, n);
    assert(views(r@).len() == r@.len());
    assert forall|i: int| 0 <= i < r@.len() implies (#[trigger] r@[i])@ == views(r@)[i] by {
    }
    if from < s@.len() {
        let ends = before.push(s@.len() as int);
        assert forall|i: int| 0 <= i <= n implies line_start(ends, i) == #[trigger] line_start(
            before,
            i,
        ) by {
        }
        assert forall|i: int| 0 <= i < ends.len() implies 0 <= line_start(ends, i)
            <= #[trigger] ends[i] <= s@.len() && r@[i]@ == line_between(
            s@,
            line_start(ends, i),
            ends[i],
        ) by {
            assert(line_start(ends, i) == line_start(before, i));
            if i < n {
                assert(ends[i] == before[i]);
            }
        }
        assert forall|i: int, k: int|
            0 <= i < ends.len() && line_start(ends, i) <= k < #[trigger] ends[i] implies
            #[trigger] s@[k] != '\n' by {
            assert(line_start(ends, i) == line_start(before, i));
            if i < n {
                assert(ends[i] == before[i]);
                assert(is_line(s@, line_start(before, i), before[i]));
            }
        }
        assert forall|i: int| 0 <= i < ends.len() && #[trigger] ends[i] < s@.len() implies s@[ends[i]]
            == '\n' by {
            assert(ends[i] == before[i]);
        }
        assert forall|i: int| 0 <= i < ends.len() && #[trigger] ends[i] == s@.len() implies i
            == ends.len() - 1 by {
            if i < n {
                assert(ends[i] == before[i]);
            }
        }
        ends
    } else {
        before
    }
}

/// Whether a text has a character that is no white space.
pub open spec fn holds_text(s: Seq<char>) -> bool {
    exists|i: int| 0 <= i < s.len() && !is_white(#[trigger] s[i])
}

/// Trimming leaves nothing exactly where there is nothing but white space.
pub proof fn blank_texts_trim_to_nothing(s: Seq<char>)
    ensures
        trimmed(s).len() == 0 <==> !holds_text(s),
{
    let cut = lemma_trimmed(s);
    if cut.0 < cut.1 {
        assert(!is_white(s[cut.0]));
    }
}

/// Capital letters from A to Z become the small letters 32 places behind them; all else
/// stays.
pub proof fn capitals_become_small(s: &Vec<char>, r: Vec<char>)
    requires
        call_ensures(lower_chars, (s,), r),
    ensures
        r@.len() == s@.len(),
        forall|i: int|
            0 <= i < s@.len() ==> (if 65 <= s@[i] as u32 <= 90 {
                #[trigger] r@[i] as u32 == s@[i] as u32 + 32
            } else {
                r@[i] == s@[i]
            }),
{
}

/// Whether a name is a word in small letters, letter by letter in either case.
pub open spec fn is_spelled(name: Seq<char>, word: Seq<char>) -> bool {
    &&& name.len() == word.len()
    &&& forall|i: int|
        0 <= i < word.len() ==> #[trigger] name[i] == word[i] || 65 <= name[i] as u32 <= 90
            && name[i] as u32 + 32 == word[i] as u32
}

proof fn lemma_small_letter(c: char, w: char)
    requires
        65 <= c as u32 <= 90,
        c as u32 + 32 == w as u32,
    ensures
        lower_char(c) == w,
{
}

proof fn lemma_no_capital(c: char)
    requires
        !(65 <= c as u32 <= 90),
    ensures
        lower_char(c) == c,
{
}

/// Lower case makes a name a word exactly where it spells it.
pub proof fn lemma_spelled(name: Seq<char>, word: Seq<char>)
    requires
        forall|i: int| 0 <= i < word.len() ==> !(65 <= (#[trigger] word[i]) as u32 <= 90),
    ensures
        lower_text(name) == word <==> is_spelled(name, word),
{
    let low = lower_text(name);
    if low == word {
        assert forall|i: int| 0 <= i < word.len() implies #[trigger] name[i] == word[i] || 65
            <= name[i] as u32 <= 90 && name[i] as u32 + 32 == word[i] as u32 by {
            assert(low[i] == word[i]);
        }
    }
    if is_spelled(name, word) {
        assert forall|i: int| 0 <= i < word.len() implies #[trigger] low[i] == word[i] by {
            let c = name[i];
            let w = word[i];
            assert(c == w || 65 <= c as u32 <= 90 && c as u32 + 32 == w as u32);
            assert(low[i] == lower_char(c));
            if c != w {
                lemma_small_letter(c, w);
            } else {
                assert(!(65 <= word[i] as u32 <= 90));
                lemma_no_capital(c);
            }
        }
        assert(low =~= word);
    }
}

/// A number is read digit by digit: one more digit behind it makes it ten times as large
/// and adds the digit, as long as that fits. Anything but a digit spoils it, and a text
/// that is no number does not become one, unless it is empty or a plus sign alone.
pub proof fn numbers_are_read_digit_by_digit(
    s: &str,
    t: &str,
    c: char,
    a: Option<u64>,
    b: Option<u64>,
)
    requires
        call_ensures(parse_u64, (s,), a),
        call_ensures(parse_u64, (t,), b),
        t@ == s@.push(c),
    ensures
        s@.len() == 0 ==> a is None,
        (s@.len() == 0 && c != '+') || s@ == seq!['+'] ==> (b is Some <==> '0' <= c <= '9'),
        (s@.len() == 0 || s@ == seq!['+']) && '0' <= c <= '9' ==> b is Some && b->Some_0 == c as u32
            - 48,
        a is Some && '0' <= c <= '9' && 10 * a->Some_0 + (c as u32 - 48) <= u64::MAX ==> b is Some
            && b->Some_0 == 10 * a->Some_0 + (c as u32 - 48),
        a is Some && '0' <= c <= '9' && 10 * a->Some_0 + (c as u32 - 48) > u64::MAX ==> b is None,
        a is Some && !('0' <= c <= '9') ==> b is None,
        a is None && s@.len() > 0 && s@ != seq!['+'] ==> b is None,
{
    let signed = s@.len() > 0 && s@[0] == '+';
    let body = if signed {
        s@.skip(1)
    } else {
        s@
    };
    reveal_with_fuel(digits_value, 2);
    assert(s@.len() == 1 && signed ==> s@ =~= seq!['+']);
    if s@.len() > 0 {
        assert(t@[0] == s@[0]);
        let long = if signed {
            t@.skip(1)
        } else {
            t@
        };
        assert(long =~= body.push(c));
        assert(long.drop_last() =~= body);
    } else {
        assert(t@ =~= seq![c]);
        assert(t@.drop_last() =~= s@);
    }
}

/// A negative number is written as a minus sign and the number without it.
pub proof fn negative_numbers_have_a_sign(n: i64, r: String, m: u64, plain: String)
    requires
        call_ensures(decimal_i64, (n,), r),
        call_ensures(decimal_u64, (m,), plain),
        m == n || m == -n,
    ensures
        n >= 0 ==> r@ == plain@,
        n < 0 ==> r@ == seq!['-'] + plain@,
{
}

/// A number behind a minus sign is read as the negative of what is read without it, and
/// any other as it is, as long as it fits.
pub proof fn signs_are_read(s: &str, t: &str, r: Option<i32>, v: Option<u64>)
    requires
        call_ensures(parse_i32, (s,), r),
        call_ensures(parse_u64, (t,), v),
        t@.len() == 0 || t@[0] != '-',
    ensures
        s@ == t@ && v is Some && v->Some_0 < 0x8000_0000 ==> r is Some && r->Some_0 == v->Some_0,
        s@ == t@ && (v is None || v->Some_0 >= 0x8000_0000) ==> r is None,
        s@ == seq!['-'] + t@ && t@.len() > 0 && t@[0] != '+' && v is Some && v->Some_0 <= 0x8000_0000
            ==> r is Some && r->Some_0 == -(v->Some_0 as int),
        s@ == seq!['-'] + t@ && t@.len() > 0 && t@[0] != '+' && (v is None || v->Some_0
            > 0x8000_0000) ==> r is None,
{
    if s@ == seq!['-'] + t@ {
        assert(s@.skip(1) =~= t@);
    }
}

/// Taking a prefix off leaves what stands behind it, and is refused where the text does
/// not begin with it.
pub proof fn prefixes_are_taken_off(s: &str, prefix: &str, r: Option<String>)
    requires
        call_ensures(strip_prefix, (s, prefix), r),
    ensures
        r is Some ==> s@ == prefix@ + r->Some_0@,
        r is None ==> s@.len() < prefix@.len() || exists|i: int|
            0 <= i < prefix@.len() && s@[i] != #[trigger] prefix@[i],
{
    let n = prefix@.len() as int;
    if r is Some {
        assert(s@ =~= prefix@ + r->Some_0@);
    } else if s@.len() >= n && forall|i: int| 0 <= i < n ==> s@[i] == #[trigger] prefix@[i] {
        assert(s@.take(n) =~= prefix@);
        assert(s@.subrange(0, n) =~= prefix@);
    }
}

} // verus!
