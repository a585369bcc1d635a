//! What is written to the crash log.

use crate::text::chars_of;
use vstd::prelude::*;

verus! {

/// A record with a line feed at its end.
pub open spec fn with_newline(msg: Seq<char>) -> Seq<char> {
    if msg.len() > 0 && msg.last() == '\n' {
        msg
    } else {
        msg.push('\n')
    }
}

/// A record as it is appended to the crash log: it ends with a line feed.
pub fn crash_record(msg: &str) -> (r: String)
    ensures
        r@ == with_newline(msg@),
{
    let v = chars_of(msg);
    let mut out = msg.to_owned();
    if v.len() == 0 || v[v.len() - 1] != '\n' {
        out.push('\n');
    }
    out
}

/// The name of a structured exception of Windows.
pub open spec fn seh_name(code: u32) -> Seq<char> {
    if code == 0xC0000005 {
        "ACCESS_VIOLATION"@
    } else if code == 0xC000001D {
        "ILLEGAL_INSTRUCTION"@
    } else if code == 0xC0000025 {
        "NONCONTINUABLE_EXCEPTION"@
    } else if code == 0xC000008C {
        "ARRAY_BOUNDS_EXCEEDED"@
    } else if code == 0xC0000094 {
        "INT_DIVIDE_BY_ZERO"@
    } else if code == 0xC0000095 {
        "INT_OVERFLOW"@
    } else if code == 0xC00000FD {
        "STACK_OVERFLOW"@
    } else if code == 0xC0000374 {
        "HEAP_CORRUPTION"@
    } else if code == 0xC0000409 {
        "STACK_BUFFER_OVERRUN"@
    } else if code == 0xC0000417 {
        "INVALID_CRT_PARAMETER"@
    } else if code == 0xE0000008 {
        "RAISE_EXCEPTION_8 (likely pdfium internal abort)"@
    } else if code == 0xE06D7363 {
        "C++ EXCEPTION"@
    } else {
        "UNKNOWN"@
    }
}

/// The name of a structured exception of Windows.
pub fn seh_code_name(code: u32) -> (r: &'static str)
    ensures
        r@ == seh_name(code),
{
    match code {
        0xC0000005 => "ACCESS_VIOLATION",
        0xC000001D => "ILLEGAL_INSTRUCTION",
        0xC0000025 => "NONCONTINUABLE_EXCEPTION",
        0xC000008C => "ARRAY_BOUNDS_EXCEEDED",
        0xC0000094 => "INT_DIVIDE_BY_ZERO",
        0xC0000095 => "INT_OVERFLOW",
        0xC00000FD => "STACK_OVERFLOW",
        0xC0000374 => "HEAP_CORRUPTION",
        0xC0000409 => "STACK_BUFFER_OVERRUN",
        0xC0000417 => "INVALID_CRT_PARAMETER",
        0xE0000008 => "RAISE_EXCEPTION_8 (likely pdfium internal abort)",
        0xE06D7363 => "C++ EXCEPTION",
        _ => "UNKNOWN",
    }
}

/// A record is the message, which ends with a line feed: one is added only where there
/// is none.
pub proof fn records_end_with_a_line_feed(msg: &str, r: String)
    requires
        call_ensures(crash_record, (msg,), r),
    ensures
        r@.len() > 0 && r@[r@.len() - 1] == '\n',
        msg@.len() > 0 && msg@[msg@.len() - 1] == '\n' ==> r@ == msg@,
        msg@.len() == 0 || msg@[msg@.len() - 1] != '\n' ==> r@.len() == msg@.len() + 1,
        r@.take(msg@.len() as int) == msg@,
{
    assert(r@.take(msg@.len() as int) =~= msg@);
}

} // verus!
