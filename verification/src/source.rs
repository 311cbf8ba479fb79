//! Source file representation and line indexing.

use crate::diagnostic::{Located, SourceId, Span};
use crate::text::{chars_of, lossy_utf8, lower_seq, lower_string, utf8_lossy, utf8_str};
use vstd::prelude::*;
use vstd::utf8::*;

verus! {

/// Line starts of the first `n` bytes: offset 0, then the offset after each
/// `\n`, in order.
pub open spec fn newline_starts(b: Seq<u8>, n: nat) -> Seq<int>
    decreases n,
{
    if n == 0 {
        seq![0int]
    } else {
        let prev = newline_starts(b, (n - 1) as nat);
        if b[n - 1] == 10u8 {
            prev.push(n as int)
        } else {
            prev
        }
    }
}

/// Number of `\n` bytes among the first `n`.
pub open spec fn count_nl(b: Seq<u8>, n: nat) -> nat
    decreases n,
{
    if n == 0 {
        0
    } else {
        count_nl(b, (n - 1) as nat) + if b[n - 1] == 10u8 { 1nat } else { 0nat }
    }
}

/// Offset where the line containing position `n` starts.
pub open spec fn line_start_before(b: Seq<u8>, n: nat) -> nat
    decreases n,
{
    if n == 0 {
        0
    } else if b[n - 1] == 10u8 {
        n
    } else {
        line_start_before(b, (n - 1) as nat)
    }
}

/// An offset clamped to the end of the file.
pub open spec fn clamp(b: Seq<u8>, off: int) -> nat {
    if off < b.len() { off as nat } else { b.len() }
}

/// 0-based index of the line containing byte `off`.
pub open spec fn line_index(b: Seq<u8>, off: int) -> nat {
    count_nl(b, clamp(b, off))
}

/// Byte offset of the start of the line containing `off`.
pub open spec fn line_start(b: Seq<u8>, off: int) -> nat {
    line_start_before(b, clamp(b, off))
}

proof fn lemma_newline_starts(b: Seq<u8>, n: nat)
    requires
        n <= b.len(),
    ensures
        newline_starts(b, n).len() == count_nl(b, n) + 1,
        count_nl(b, n) <= n,
        newline_starts(b, n)[0] == 0,
        newline_starts(b, n).last() == line_start_before(b, n),
        line_start_before(b, n) <= n,
        forall|i: int, j: int|
            0 <= i < j < newline_starts(b, n).len() ==> newline_starts(b, n)[i] < newline_starts(
                b,
                n,
            )[j],
        forall|i: int| 0 <= i < newline_starts(b, n).len() ==> 0 <= #[trigger] newline_starts(b, n)[i] <= n,
    decreases n,
{
    if n > 0 {
        lemma_newline_starts(b, (n - 1) as nat);
    }
}

/// `newline_starts(b, m)` is a prefix of `newline_starts(b, n)` for `m <= n`,
/// and the later starts lie past `m`.
proof fn lemma_starts_prefix(b: Seq<u8>, m: nat, n: nat)
    requires
        m <= n <= b.len(),
    ensures
        newline_starts(b, m).len() <= newline_starts(b, n).len(),
        forall|i: int|
            0 <= i < newline_starts(b, m).len() ==> #[trigger] newline_starts(b, n)[i]
                == newline_starts(b, m)[i],
        forall|i: int|
            newline_starts(b, m).len() <= i < newline_starts(b, n).len() ==> #[trigger] newline_starts(
                b,
                n,
            )[i] > m,
    decreases n,
{
    if m < n {
        lemma_starts_prefix(b, m, (n - 1) as nat);
        lemma_newline_starts(b, (n - 1) as nat);
    }
}

/// Lines count newlines: the 0-based line of position `n` is the number of
/// `\n` bytes before it, and its line starts right after the last of them
/// (at 0 when there is none).
pub proof fn law_lines_count_newlines(b: Seq<u8>, n: nat)
    requires
        n <= b.len(),
    ensures
        count_nl(b, n) == b.subrange(0, n as int).filter(|c: u8| c == 10u8).len(),
        line_start_before(b, n) <= n,
        line_start_before(b, n) > 0 ==> b[line_start_before(b, n) - 1] == 10u8,
        forall|k: int| line_start_before(b, n) <= k < n ==> b[k] != 10u8,
    decreases n,
{
    reveal(Seq::filter);
    if n > 0 {
        law_lines_count_newlines(b, (n - 1) as nat);
        assert(b.subrange(0, n as int).drop_last() =~= b.subrange(0, n - 1));
        assert(b.subrange(0, n as int).last() == b[n - 1]);
    }
}

/// One input file discovered and loaded by the engine.
pub struct SourceFile {
    pub id: SourceId,
    /// Path relative to the lint root.
    pub path: String,
    pub bytes: Vec<u8>,
    /// Byte offset of the start of each line (line 0 starts at 0).
    pub line_starts: Vec<u32>,
}

impl SourceFile {
    /// The file is well formed: its offsets fit in `u32` and the line index
    /// matches its bytes.
    pub open spec fn wf(&self) -> bool {
        &&& self.bytes.len() < 0xFFFF_FFFF
        &&& self.line_starts@.len() == newline_starts(self.bytes@, self.bytes.len() as nat).len()
        &&& forall|i: int|
            0 <= i < self.line_starts@.len() ==> #[trigger] self.line_starts@[i] as int
                == newline_starts(self.bytes@, self.bytes.len() as nat)[i]
    }

    pub fn new(id: SourceId, path: String, bytes: Vec<u8>) -> (r: SourceFile)
        requires
            bytes.len() < 0xFFFF_FFFF,
        ensures
            r.wf(),
            r.id == id,
            r.path == path,
            r.bytes == bytes,
    {
        let mut v: Vec<u32> = Vec::new();
        v.push(0);
        let mut i: usize = 0;
        while i < bytes.len()
            invariant
                bytes.len() < 0xFFFF_FFFF,
                i <= bytes.len(),
                v@.len() == newline_starts(bytes@, i as nat).len(),
                forall|k: int|
                    0 <= k < v@.len() ==> #[trigger] v@[k] as int == newline_starts(
                        bytes@,
                        i as nat,
                    )[k],
            decreases bytes.len() - i,
        {
            if bytes[i] == 10u8 {
                v.push((i + 1) as u32);
            }
            i = i + 1;
        }
        SourceFile { id, path, bytes, line_starts: v }
    }

    /// The whole file as text; empty when it is not valid UTF-8.
    pub fn text(&self) -> (r: &str)
        ensures
            r@ == if valid_utf8(self.bytes@) {
                decode_utf8(self.bytes@)
            } else {
                Seq::<char>::empty()
            },
    {
        proof {
            reveal_strlit("");
        }
        match utf8_str(self.bytes.as_slice()) {
            Some(s) => s,
            None => "",
        }
    }

    /// Index of the last line start at or before `off`.
    fn line_idx(&self, off: u32) -> (r: usize)
        requires
            self.wf(),
        ensures
            r == line_index(self.bytes@, off as int),
            r < self.line_starts@.len(),
            r <= self.bytes.len(),
            line_start(self.bytes@, off as int) <= off,
            self.line_starts@[r as int] == line_start(self.bytes@, off as int),
            r + 1 < self.line_starts@.len() ==> self.line_starts@[r + 1] as int > off,
            r + 1 < self.line_starts@.len() ==> self.line_starts@[r + 1] as int - 1 >= line_start(
                self.bytes@,
                off as int,
            ),
    {
        let ghost b = self.bytes@;
        let ghost n = self.bytes.len() as nat;
        let ghost m = clamp(b, off as int);
        proof {
            lemma_newline_starts(b, n);
            lemma_newline_starts(b, m);
            lemma_starts_prefix(b, m, n);
        }
        let starts = &self.line_starts;
        // largest index whose start is <= off
        let mut lo: usize = 0;
        let mut hi: usize = starts.len();
        while lo + 1 < hi
            invariant
                0 <= lo < hi <= starts@.len(),
                starts@.len() == newline_starts(b, n).len(),
                forall|i: int| 0 <= i < starts@.len() ==> #[trigger] starts@[i] as int == newline_starts(b, n)[i],
                forall|i: int, j: int|
                    0 <= i < j < newline_starts(b, n).len() ==> newline_starts(b, n)[i]
                        < newline_starts(b, n)[j],
                starts@[lo as int] <= off,
                hi < starts@.len() ==> starts@[hi as int] > off,
            decreases hi - lo,
        {
            let mid = lo + (hi - lo) / 2;
            if starts[mid] <= off {
                lo = mid;
            } else {
                hi = mid;
            }
        }
        proof {
            let s = newline_starts(b, n);
            let sm = newline_starts(b, m);
            // every start <= off lies in the prefix for m
            if (lo as int) >= sm.len() {
                assert(s[lo as int] > m);
                assert(s[lo as int] <= n);
                assert(m < n);
                assert(false);
            }
            if (lo as int) + 1 < sm.len() {
                assert(s[lo + 1] == sm[lo + 1]);
                assert(sm[lo + 1] <= m);
                assert(false);
            }
            assert(lo as int == sm.len() - 1);
            if (lo as int) + 1 < s.len() {
                assert(s[lo + 1] > s[lo as int]);
            }
        }
        lo
    }

    /// Convert a byte span to a 1-based line/column location for reporting.
    pub fn locate(&self, span: Span) -> (r: Located)
        requires
            self.wf(),
            span.start - line_start(self.bytes@, span.start as int) + 1 <= u32::MAX,
        ensures
            r.path == self.path,
            r.line == line_index(self.bytes@, span.start as int) + 1,
            r.column == span.start - line_start(self.bytes@, span.start as int) + 1,
    {
        let idx = self.line_idx(span.start);
        let col = span.start - self.line_starts[idx] + 1;
        proof {
            lemma_newline_starts(self.bytes@, self.bytes.len() as nat);
        }
        Located { path: self.path.clone(), line: (idx + 1) as u32, column: col }
    }

    /// Byte offset of the start of the line containing `offset`.
    pub fn line_span_start(&self, offset: u32) -> (r: u32)
        requires
            self.wf(),
        ensures
            r == line_start(self.bytes@, offset as int),
            r <= offset,
    {
        let idx = self.line_idx(offset);
        self.line_starts[idx]
    }

    /// Extract the text of a span (lossy UTF-8), both ends clamped to the file.
    pub fn span_text(&self, span: Span) -> (r: String)
        requires
            clamp(self.bytes@, span.start as int) <= clamp(self.bytes@, span.end as int),
        ensures
            r@ == lossy_utf8(
                self.bytes@.subrange(
                    clamp(self.bytes@, span.start as int) as int,
                    clamp(self.bytes@, span.end as int) as int,
                ),
            ),
    {
        let len = self.bytes.len();
        let start = if (span.start as usize) < len { span.start as usize } else { len };
        let end = if (span.end as usize) < len { span.end as usize } else { len };
        let part = vstd::slice::slice_subrange(self.bytes.as_slice(), start, end);
        utf8_lossy(part)
    }

    /// Text of the whole line containing `offset` (without its `\n`), empty
    /// when that line is not valid UTF-8, and the 1-based line number.
    pub fn line_text(&self, offset: u32) -> (r: (&str, u32))
        requires
            self.wf(),
        ensures
            r.1 == line_index(self.bytes@, offset as int) + 1,
            r.0@ == {
                let part = self.bytes@.subrange(
                    line_start(self.bytes@, offset as int) as int,
                    line_end(self.bytes@, offset as int) as int,
                );
                if valid_utf8(part) {
                    decode_utf8(part)
                } else {
                    Seq::<char>::empty()
                }
            },
    {
        let idx = self.line_idx(offset);
        let start = self.line_starts[idx] as usize;
        let len = self.bytes.len();
        proof {
            lemma_newline_starts(self.bytes@, self.bytes.len() as nat);
        }
        let end0: usize = if idx + 1 < self.line_starts.len() {
            (self.line_starts[idx + 1] - 1) as usize
        } else {
            len
        };
        let end = if end0 < len { end0 } else { len };
        let stop = if end < start { start } else { end };
        let part = vstd::slice::slice_subrange(self.bytes.as_slice(), start, stop);
        proof {
            reveal_strlit("");
        }
        let text = match utf8_str(part) {
            Some(s) => s,
            None => "",
        };
        (text, (idx + 1) as u32)
    }

    /// The extension, lowercase without the dot, for plugin matching.
    pub fn extension(&self) -> (r: Option<String>)
        ensures
            r matches Some(e) ==> path_extension(self.path@) matches Some(x) && e@ == lower_seq(x),
            r is None <==> path_extension(self.path@) is None,
    {
        extension_of(self.path.as_str())
    }
}

/// End (exclusive, before its `\n`) of the line containing `off`: one
/// before the next line start, or the end of the file on the last line.
pub open spec fn line_end(b: Seq<u8>, off: int) -> int {
    let s = newline_starts(b, b.len() as nat);
    let i = line_index(b, off) as int;
    if i + 1 < s.len() {
        s[i + 1] - 1
    } else {
        b.len() as int
    }
}

// ---------------------------------------------------------------------------
// File names and extensions of `/`-separated paths
// ---------------------------------------------------------------------------

/// The last `/` before `e`, or -1.
pub open spec fn last_slash_before(p: Seq<char>, e: int) -> int
    decreases e,
{
    if e <= 0 {
        -1
    } else if p[e - 1] == '/' {
        e - 1
    } else {
        last_slash_before(p, e - 1)
    }
}

/// Whether `p[a..e]` is `.` or `..`.
pub open spec fn is_dot(p: Seq<char>, a: int, e: int) -> bool {
    e - a == 1 && p[a] == '.'
}

pub open spec fn is_dot_dot(p: Seq<char>, a: int, e: int) -> bool {
    e - a == 2 && p[a] == '.' && p[a + 1] == '.'
}

/// The file name of `p[..e]` as a range of `p`: its last component that is
/// neither empty nor `.`; none when there is no such component or it is
/// `..`.
pub open spec fn file_name_upto(p: Seq<char>, e: int) -> Option<(int, int)>
    decreases e,
{
    if e <= 0 {
        None
    } else {
        let k = last_slash_before(p, e);
        if k + 1 == e || is_dot(p, k + 1, e) {
            if k < 0 {
                None
            } else {
                file_name_upto(p, k)
            }
        } else if is_dot_dot(p, k + 1, e) {
            None
        } else {
            Some((k + 1, e))
        }
    }
}

/// The last `.` in `p[a..e]`, or -1.
pub open spec fn last_dot_in(p: Seq<char>, a: int, e: int) -> int
    decreases e - a,
{
    if e <= a {
        -1
    } else if p[e - 1] == '.' {
        e - 1
    } else {
        last_dot_in(p, a, e - 1)
    }
}

/// The extension of a `/`-separated path: the text after the last `.` of
/// its file name, unless that `.` is the name's first character or the
/// name has none.
pub open spec fn path_extension(p: Seq<char>) -> Option<Seq<char>> {
    match file_name_upto(p, p.len() as int) {
        None => None,
        Some((a, e)) => {
            let d = last_dot_in(p, a, e);
            if d <= a {
                None
            } else {
                Some(p.subrange(d + 1, e))
            }
        },
    }
}

/// The range of the file name of `v` (see `file_name_upto`).
fn file_name_range(v: &Vec<char>) -> (r: Option<(usize, usize)>)
    ensures
        match r {
            None => file_name_upto(v@, v@.len() as int) is None,
            Some((a, e)) => file_name_upto(v@, v@.len() as int) == Some((a as int, e as int)) && a <= e <= v@.len(),
        },
{
    let mut e = v.len();
    loop
        invariant
            e <= v@.len(),
            file_name_upto(v@, v@.len() as int) == file_name_upto(v@, e as int),
        decreases e,
    {
        if e == 0 {
            return None;
        }
        let mut k = e;
        while k > 0 && v[k - 1] != '/'
            invariant
                k <= e <= v@.len(),
                last_slash_before(v@, e as int) == last_slash_before(v@, k as int),
            decreases k,
        {
            k = k - 1;
        }
        assert(last_slash_before(v@, e as int) == k - 1);
        let empty_or_dot = k == e || (e - k == 1 && v[k] == '.');
        if empty_or_dot {
            if k == 0 {
                return None;
            }
            e = k - 1;
        } else if e - k == 2 && v[k] == '.' && v[k + 1] == '.' {
            return None;
        } else {
            return Some((k, e));
        }
    }
}

/// The extension of a path as `Path::extension` gives it on Unix, lower-cased.
pub fn extension_of(path: &str) -> (r: Option<String>)
    ensures
        r matches Some(e) ==> path_extension(path@) matches Some(x) && e@ == lower_seq(x),
        r is None <==> path_extension(path@) is None,
{
    let v = chars_of(path);
    match file_name_range(&v) {
        None => None,
        Some((a, e)) => {
            let mut d = e;
            while d > a && v[d - 1] != '.'
                invariant
                    a <= d <= e <= v@.len(),
                    last_dot_in(v@, a as int, e as int) == last_dot_in(v@, a as int, d as int),
                decreases d,
            {
                d = d - 1;
            }
            if d - a <= 1 {
                None
            } else {
                assert(last_dot_in(v@, a as int, e as int) == d - 1);
                Some(lower_string(&v, d, e))
            }
        },
    }
}

} // verus!
