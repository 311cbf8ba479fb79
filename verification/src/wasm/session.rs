//! Limits, spans and framing shared by language modules and rule modules.

use crate::config::{parse_toml, toml_document, toml_get, TomlValue};
use crate::diagnostic::Span;
use crate::text::{decimal, push_decimal, push_str, string_of};
use vstd::prelude::*;

verus! {

/// Fuel ticks granted per guest call.
pub const DEFAULT_FUEL: u64 = 5_000_000_000;

/// Hard ceiling on findings a guest may report per call.
pub const MAX_REPORTED_FINDINGS: usize = 100_000;

/// Maximum bytes a guest result (or a guest input) may have.
pub const MAX_RESULT_BYTES: usize = 67_108_864;

/// Span offsets are clamped to this, which keeps host arithmetic in bounds.
pub const MAX_SPAN_OFFSET: u32 = 0x4000_0000;

/// Per-call limits of guest execution.
#[derive(Clone, Debug)]
pub struct WasmLimits {
    /// Fuel ticks per call; `None` disables metering (not recommended for
    /// third-party modules).
    pub fuel: Option<u64>,
}

impl Default for WasmLimits {
    fn default() -> (r: WasmLimits)
        ensures
            r.fuel is None,
    {
        WasmLimits { fuel: None }
    }
}

/// The default fuelling policy: the given fuel, else `DEFAULT_FUEL`.
pub fn normalize_limits(raw: WasmLimits) -> (r: WasmLimits)
    ensures
        r.fuel == Some(
            match raw.fuel {
                Some(f) => f,
                None => DEFAULT_FUEL,
            },
        ),
{
    match raw.fuel {
        Some(f) => WasmLimits { fuel: Some(f) },
        None => WasmLimits { fuel: Some(DEFAULT_FUEL) },
    }
}

/// The `fuel` a `limits.toml` text sets: its integer `fuel`, when the text is
/// a TOML document that has one.
pub open spec fn fuel_setting(text: Seq<char>) -> Option<i64> {
    match toml_document(text) {
        Some(s) => match toml_get(s, "fuel"@) {
            Some(TomlValue::Int(i)) => Some(i),
            _ => None,
        },
        None => None,
    }
}

/// The limits a directory's `limits.toml` text gives its modules (see
/// `directory_limits`); a text that is no TOML document, or has no integer
/// `fuel`, leaves the default.
pub fn limits_from_text(text: &str) -> (r: WasmLimits)
    ensures
        r.fuel == Some(
            match fuel_setting(text@) {
                Some(f) => if f < 0 {
                    0u64
                } else {
                    f as u64
                },
                None => DEFAULT_FUEL,
            },
        ),
{
    let fuel = match parse_toml(text) {
        Ok(t) => match t.get("fuel") {
            Some(TomlValue::Int(i)) => Some(*i),
            _ => None,
        },
        Err(_) => None,
    };
    directory_limits(fuel)
}

/// The limits for the modules of a directory whose `limits.toml` sets
/// `fuel` (when it does): that fuel, a negative count read as 0; else
/// `DEFAULT_FUEL`.
pub fn directory_limits(fuel: Option<i64>) -> (r: WasmLimits)
    ensures
        r.fuel == Some(
            match fuel {
                Some(f) => if f < 0 {
                    0u64
                } else {
                    f as u64
                },
                None => DEFAULT_FUEL,
            },
        ),
{
    match fuel {
        Some(f) => if f < 0 {
            WasmLimits { fuel: Some(0) }
        } else {
            WasmLimits { fuel: Some(f as u64) }
        },
        None => WasmLimits { fuel: Some(DEFAULT_FUEL) },
    }
}

/// One finding as a guest reports it: every field but `message` is optional.
#[derive(Debug)]
pub struct GuestFinding {
    /// Defaults to the rule's own id; a foreign id is discarded host-side.
    pub rule_id: Option<String>,
    pub severity: Option<String>,
    pub message: String,
    pub span: [u32; 2],
    pub subject: Option<String>,
    /// Workspace-relative path of the file the finding belongs to.
    pub path: Option<String>,
}

pub open spec fn min_u32(a: u32, b: u32) -> u32 {
    if a <= b { a } else { b }
}

/// A guest span clamped into engine-visible maxima: both ends at most
/// `MAX_SPAN_OFFSET`, the end no earlier than the start.
pub open spec fn clamped(sp: [u32; 2]) -> [u32; 2] {
    let s = min_u32(sp[0], MAX_SPAN_OFFSET);
    let e = min_u32(sp[1], MAX_SPAN_OFFSET);
    [s, if e >= s { e } else { s }]
}

pub fn clamp_span(sp: [u32; 2]) -> (r: [u32; 2])
    ensures
        r == clamped(sp),
        r[0] <= r[1] <= MAX_SPAN_OFFSET,
{
    let s = if sp[0] <= MAX_SPAN_OFFSET { sp[0] } else { MAX_SPAN_OFFSET };
    let e0 = if sp[1] <= MAX_SPAN_OFFSET { sp[1] } else { MAX_SPAN_OFFSET };
    let e = if e0 >= s { e0 } else { s };
    let r = [s, e];
    assert(r =~= clamped(sp));
    r
}

/// A guest span as an engine span (the end no earlier than the start).
pub fn span_of(sp: [u32; 2]) -> (r: Span)
    ensures
        r.start == sp[0],
        r.end == if sp[1] >= sp[0] { sp[1] } else { sp[0] },
{
    Span::new(sp[0], if sp[1] >= sp[0] { sp[1] } else { sp[0] })
}

/// The length a little-endian `u32` header announces.
pub open spec fn le_u32(h: [u8; 4]) -> nat {
    (h[0] + 256 * h[1] + 65536 * h[2] + 16777216 * h[3]) as nat
}

pub open spec fn oversized_message(name: Seq<char>, len: nat) -> Seq<char> {
    name + " returned an oversized buffer ("@ + decimal(len) + " bytes)"@
}

/// The body length of a guest result whose header is `head`; results over
/// `MAX_RESULT_BYTES` are refused.
pub fn result_length(name: &str, head: [u8; 4]) -> (r: Result<usize, String>)
    ensures
        le_u32(head) <= MAX_RESULT_BYTES ==> r == Ok::<usize, String>(le_u32(head) as usize),
        le_u32(head) > MAX_RESULT_BYTES ==> (r matches Err(m) && m@ == oversized_message(name@, le_u32(head))),
{
    let len: u64 = head[0] as u64 + 256 * (head[1] as u64) + 65536 * (head[2] as u64) + 16777216 * (head[3] as u64);
    if len > MAX_RESULT_BYTES as u64 {
        let mut m = string_of(name);
        push_str(&mut m, " returned an oversized buffer (");
        push_decimal(&mut m, len);
        push_str(&mut m, " bytes)");
        Err(m)
    } else {
        Ok(len as usize)
    }
}

/// A framed result: the little-endian `u32` length, then the bytes.
pub open spec fn framed(bytes: Seq<u8>) -> Seq<u8> {
    let n = bytes.len();
    seq![(n % 256) as u8, ((n / 256) % 256) as u8, ((n / 65536) % 256) as u8, ((n / 16777216) % 256) as u8] + bytes
}

/// Frame `bytes` as a guest result (`[u32 LE len][bytes]`).
pub fn frame(bytes: &[u8]) -> (r: Vec<u8>)
    requires
        bytes@.len() <= u32::MAX,
    ensures
        r@ == framed(bytes@),
{
    let n = bytes.len() as u32;
    let mut out: Vec<u8> = Vec::new();
    out.push((n % 256) as u8);
    out.push(((n / 256) % 256) as u8);
    out.push(((n / 65536) % 256) as u8);
    out.push(((n / 16777216) % 256) as u8);
    let mut i: usize = 0;
    while i < bytes.len()
        invariant
            i <= bytes@.len(),
            n == bytes@.len(),
            out@ == seq![(n % 256) as u8, ((n / 256) % 256) as u8, ((n / 65536) % 256) as u8, ((n / 16777216) % 256) as u8] + bytes@.subrange(0, i as int),
        decreases bytes@.len() - i,
    {
        out.push(bytes[i]);
        assert(bytes@.subrange(0, i + 1) =~= bytes@.subrange(0, i as int).push(bytes@[i as int]));
        i = i + 1;
    }
    assert(bytes@.subrange(0, i as int) =~= bytes@);
    assert(out@ =~= framed(bytes@));
    out
}

/// Read a framed result back: the announced length must fit the limit and
/// the buffer; the body follows the header.
pub fn unframe(buf: &[u8]) -> (r: Option<Vec<u8>>)
    ensures
        match r {
            Some(b) => buf@.len() >= 4 && le_u32([buf@[0], buf@[1], buf@[2], buf@[3]]) <= MAX_RESULT_BYTES
                && 4 + le_u32([buf@[0], buf@[1], buf@[2], buf@[3]]) <= buf@.len()
                && b@ == buf@.subrange(4, (4 + le_u32([buf@[0], buf@[1], buf@[2], buf@[3]])) as int),
            None => buf@.len() < 4 || le_u32([buf@[0], buf@[1], buf@[2], buf@[3]]) > MAX_RESULT_BYTES
                || 4 + le_u32([buf@[0], buf@[1], buf@[2], buf@[3]]) > buf@.len(),
        },
{
    if buf.len() < 4 {
        return None;
    }
    let head: [u8; 4] = [buf[0], buf[1], buf[2], buf[3]];
    assert(head =~= [buf@[0], buf@[1], buf@[2], buf@[3]]);
    match result_length("frame", head) {
        Err(_) => None,
        Ok(len) => {
            if len > buf.len() - 4 {
                return None;
            }
            let mut out: Vec<u8> = Vec::new();
            let mut i: usize = 0;
            while i < len
                invariant
                    i <= len,
                    4 + len <= buf@.len(),
                    buf@.len() == buf.len(),
                    out@ == buf@.subrange(4, 4 + i),
                decreases len - i,
            {
                out.push(buf[4 + i]);
                assert(buf@.subrange(4, 4 + i + 1) =~= buf@.subrange(4, 4 + i).push(buf@[4 + i]));
                i = i + 1;
            }
            Some(out)
        },
    }
}

/// Reading a framed result gives back exactly the bytes that were framed.
pub proof fn lemma_unframe_framed(bytes: Seq<u8>)
    requires
        bytes.len() <= MAX_RESULT_BYTES,
    ensures
        ({
            let f = framed(bytes);
            &&& f.len() == 4 + bytes.len()
            &&& le_u32([f[0], f[1], f[2], f[3]]) == bytes.len()
            &&& f.subrange(4, 4 + bytes.len() as int) == bytes
        }),
{
    let f = framed(bytes);
    let n = bytes.len();
    assert(f.subrange(4, 4 + n as int) =~= bytes);
    let h: [u8; 4] = [f[0], f[1], f[2], f[3]];
    assert(h[0] == (n % 256) as u8);
    assert(h[1] == ((n / 256) % 256) as u8);
    assert(h[2] == ((n / 65536) % 256) as u8);
    assert(h[3] == ((n / 16777216) % 256) as u8);
    assert(n % 256 + 256 * ((n / 256) % 256) + 65536 * ((n / 65536) % 256) + 16777216 * ((n / 16777216) % 256) == n) by (nonlinear_arith)
        requires
            n <= 67_108_864,
    ;
}

pub open spec fn input_too_large_message() -> Seq<char> {
    "input too large for the guest contract"@
}

/// Inputs handed to a guest are bounded like its results.
pub fn check_input_size(len: usize) -> (r: Result<(), String>)
    ensures
        len <= MAX_RESULT_BYTES ==> r is Ok,
        len > MAX_RESULT_BYTES ==> (r matches Err(m) && m@ == input_too_large_message()),
{
    if len > MAX_RESULT_BYTES {
        Err(string_of("input too large for the guest contract"))
    } else {
        Ok(())
    }
}

/// Where a guest buffer `(ptr, len)` lies in a memory of `size` bytes.
pub open spec fn buffer_range(ptr: i32, len: i32, size: usize) -> Result<(usize, usize), Seq<char>> {
    if ptr < 0 || len < 0 {
        Err("negative buffer"@)
    } else if ptr + len > usize::MAX {
        Err("buffer overflow"@)
    } else if ptr + len > size {
        Err("buffer "@ + decimal(ptr as nat) + ".."@ + decimal((ptr + len) as nat) + " exceeds guest memory "@ + decimal(size as nat))
    } else {
        Ok((ptr as usize, (ptr + len) as usize))
    }
}

/// The byte range of a guest buffer, checked against the memory size.
pub fn slice_range(ptr: i32, len: i32, size: usize) -> (r: Result<(usize, usize), String>)
    ensures
        match (r, buffer_range(ptr, len, size)) {
            (Ok(a), Ok(b)) => a == b,
            (Err(m), Err(e)) => m@ == e,
            _ => false,
        },
{
    if ptr < 0 || len < 0 {
        return Err(string_of("negative buffer"));
    }
    let start = ptr as usize;
    let end = match start.checked_add(len as usize) {
        Some(e) => e,
        None => {
            return Err(string_of("buffer overflow"));
        },
    };
    if end > size {
        let mut m = string_of("buffer ");
        push_decimal(&mut m, start as u64);
        push_str(&mut m, "..");
        push_decimal(&mut m, end as u64);
        push_str(&mut m, " exceeds guest memory ");
        push_decimal(&mut m, size as u64);
        return Err(m);
    }
    Ok((start, end))
}

pub open spec fn over_limit_message() -> Seq<char> {
    "guest reported findings over limit"@
}

/// A finding a guest streams while `count` findings are already held: its
/// span clamped, or an error once the limit is reached.
pub fn accept_report(count: usize, f: GuestFinding) -> (r: Result<GuestFinding, String>)
    ensures
        count >= MAX_REPORTED_FINDINGS ==> (r matches Err(m) && m@ == over_limit_message()),
        count < MAX_REPORTED_FINDINGS ==> (r matches Ok(g) && g.span == clamped(f.span) && g.rule_id == f.rule_id
            && g.severity == f.severity && g.message == f.message && g.subject == f.subject && g.path == f.path),
{
    if count >= MAX_REPORTED_FINDINGS {
        return Err(string_of("guest reported findings over limit"));
    }
    let mut g = f;
    g.span = clamp_span(g.span);
    Ok(g)
}

} // verus!
