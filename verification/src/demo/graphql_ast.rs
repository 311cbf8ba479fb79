//! The demo GraphQL AST module's scanner: a deliberately simple token-level
//! reading of SDL into the facts vocabulary, with the parse errors it meets.
//! (A real language module embeds its own lexer and parser; the contract
//! never constrains a module's internals.)
//!
//! The scanner reads the UTF-8 bytes of the source. It gives up (the module
//! traps) when it would quote a token that does not start and end on
//! character boundaries, which happens when a non-ASCII character stands
//! where a token is expected.

use crate::facts::{def_fact_views, strs, use_fact_views, DefFact, DefFactV, Facts, FactsV, FieldFact, FieldFactV, GuestError, UseFact, UseFactV, pair_views};
use crate::graphql::model::{builtin, is_builtin};
use crate::text::{is_alnum_b, is_alpha_b, push_str, str_eq, string_of, utf8_str};
use crate::wasm::plugin::{guest_error_views, GuestErrorV};
use vstd::prelude::*;
use vstd::utf8::{decode_utf8, encode_utf8, valid_utf8};

verus! {

// ---------------------------------------------------------------------------
// Bytes
// ---------------------------------------------------------------------------

/// ASCII white space (space, tab, line feed, form feed, carriage return) or
/// a comma: skipped between tokens.
pub open spec fn trivia_byte(c: u8) -> bool {
    c == 32u8 || c == 9u8 || c == 10u8 || c == 12u8 || c == 13u8 || c == 44u8
}

pub open spec fn name_byte(c: u8) -> bool {
    is_alnum_b(c) || c == 95u8
}

/// A byte of a type expression: a name byte, `[`, `]` or `!`.
pub open spec fn type_byte(c: u8) -> bool {
    name_byte(c) || c == 91u8 || c == 93u8 || c == 33u8
}

/// ASCII bytes as text.
pub open spec fn ascii_text(s: Seq<u8>) -> Seq<char> {
    s.map_values(|c: u8| c as char)
}

/// End of a line comment starting at `i`: the next `\n`, or the end.
pub open spec fn line_end(b: Seq<u8>, i: int) -> int
    decreases b.len() - i,
{
    if i >= b.len() || b[i] == 10u8 {
        i
    } else {
        line_end(b, i + 1)
    }
}

/// End of the run of bytes satisfying `p` from `i`.
pub open spec fn run_end(b: Seq<u8>, i: int, p: spec_fn(u8) -> bool) -> int
    decreases b.len() - i,
{
    if i >= b.len() || !p(b[i]) {
        i
    } else {
        run_end(b, i + 1, p)
    }
}

pub proof fn lemma_line_end(b: Seq<u8>, i: int)
    ensures
        i <= line_end(b, i),
        i <= b.len() ==> line_end(b, i) <= b.len(),
    decreases b.len() - i,
{
    if !(i >= b.len() || b[i] == 10u8) {
        lemma_line_end(b, i + 1);
    }
}

pub proof fn lemma_run_end(b: Seq<u8>, i: int, p: spec_fn(u8) -> bool)
    ensures
        i <= run_end(b, i, p),
        i <= b.len() ==> run_end(b, i, p) <= b.len(),
        forall|k: int| i <= k < run_end(b, i, p) ==> p(#[trigger] b[k]),
    decreases b.len() - i,
{
    if !(i >= b.len() || !p(b[i])) {
        lemma_run_end(b, i + 1, p);
    }
}

/// Where the trivia (white space, commas and `#` comments) from `i` ends.
pub open spec fn trivia_end(b: Seq<u8>, i: int) -> int
    decreases b.len() - i,
{
    if i < 0 || i >= b.len() {
        i
    } else if trivia_byte(b[i]) {
        trivia_end(b, i + 1)
    } else if b[i] == 35u8 {
        let j = line_end(b, i + 1);
        proof {
            lemma_line_end(b, i + 1);
        }
        trivia_end(b, j)
    } else {
        i
    }
}

pub proof fn lemma_trivia_end(b: Seq<u8>, i: int)
    requires
        0 <= i,
    ensures
        i <= trivia_end(b, i),
        i <= b.len() ==> trivia_end(b, i) <= b.len(),
    decreases b.len() - i,
{
    if i < b.len() {
        if trivia_byte(b[i]) {
            lemma_trivia_end(b, i + 1);
        } else if b[i] == 35u8 {
            lemma_line_end(b, i + 1);
            lemma_trivia_end(b, line_end(b, i + 1));
        }
    }
}

/// The end of the name starting at `i`, if one does (an ASCII letter or `_`,
/// then ASCII letters, digits and `_`).
pub open spec fn name_at(b: Seq<u8>, i: int) -> Option<int> {
    if 0 <= i < b.len() && (is_alpha_b(b[i]) || b[i] == 95u8) {
        Some(run_end(b, i, |c: u8| name_byte(c)))
    } else {
        None
    }
}

/// Whether the byte at `i` is `c`.
pub open spec fn at(b: Seq<u8>, i: int, c: u8) -> bool {
    0 <= i < b.len() && b[i] == c
}

// ---------------------------------------------------------------------------
// Exec helpers over the bytes
// ---------------------------------------------------------------------------

pub(crate) fn skip_trivia(b: &[u8], i: usize) -> (r: usize)
    requires
        i <= b@.len(),
    ensures
        r == trivia_end(b@, i as int),
        i <= r <= b@.len(),
{
    proof {
        lemma_trivia_end(b@, i as int);
    }
    let mut j = i;
    while j < b.len()
        invariant
            i <= j <= b@.len(),
            trivia_end(b@, i as int) == trivia_end(b@, j as int),
        decreases b@.len() - j,
    {
        let c = b[j];
        if c == 32 || c == 9 || c == 10 || c == 12 || c == 13 || c == 44 {
            j = j + 1;
        } else if c == 35 {
            let mut k = j + 1;
            proof {
                lemma_line_end(b@, j + 1);
            }
            while k < b.len() && b[k] != 10
                invariant
                    j < k <= b@.len(),
                    line_end(b@, j + 1) == line_end(b@, k as int),
                decreases b@.len() - k,
            {
                k = k + 1;
            }
            j = k;
        } else {
            return j;
        }
    }
    j
}

pub(crate) fn name_end(b: &[u8], i: usize) -> (r: Option<usize>)
    requires
        i <= b@.len(),
    ensures
        match (r, name_at(b@, i as int)) {
            (Some(x), Some(y)) => x == y && i < x <= b@.len(),
            (None, None) => true,
            _ => false,
        },
{
    if i >= b.len() || !((b[i] >= 65 && b[i] <= 90) || (b[i] >= 97 && b[i] <= 122) || b[i] == 95) {
        return None;
    }
    let ghost p = |c: u8| name_byte(c);
    let mut j = i + 1;
    proof {
        lemma_run_end(b@, i as int, p);
        assert(run_end(b@, i as int, p) == run_end(b@, i + 1, p));
    }
    while j < b.len() && ((b[j] >= 65 && b[j] <= 90) || (b[j] >= 97 && b[j] <= 122) || (b[j] >= 48 && b[j] <= 57) || b[j] == 95)
        invariant
            i < j <= b@.len(),
            forall|c: u8| #[trigger] p(c) == name_byte(c),
            run_end(b@, i as int, p) == run_end(b@, j as int, p),
        decreases b@.len() - j,
    {
        j = j + 1;
    }
    Some(j)
}

/// The ASCII text of `b[lo..hi]`.
pub(crate) fn ascii_string(b: &[u8], lo: usize, hi: usize) -> (r: String)
    requires
        lo <= hi <= b@.len(),
    ensures
        r@ == ascii_text(b@.subrange(lo as int, hi as int)),
{
    let mut s = String::new();
    let mut k = lo;
    while k < hi
        invariant
            lo <= k <= hi <= b@.len(),
            s@ == ascii_text(b@.subrange(lo as int, k as int)),
        decreases hi - k,
    {
        crate::text::push_char(&mut s, b[k] as char);
        assert(ascii_text(b@.subrange(lo as int, k + 1)) =~= ascii_text(b@.subrange(lo as int, k as int)).push(b@[k as int] as char));
        k = k + 1;
    }
    s
}

// ---------------------------------------------------------------------------
// Pieces of the grammar
// ---------------------------------------------------------------------------

/// `s` without leading and trailing `[`, `]` and `!`.
pub open spec fn strip_front(s: Seq<char>) -> Seq<char>
    decreases s.len(),
{
    if s.len() > 0 && (s[0] == '[' || s[0] == ']' || s[0] == '!') {
        strip_front(s.drop_first())
    } else {
        s
    }
}

pub open spec fn strip_back(s: Seq<char>) -> Seq<char>
    decreases s.len(),
{
    if s.len() > 0 && (s.last() == '[' || s.last() == ']' || s.last() == '!') {
        strip_back(s.drop_last())
    } else {
        s
    }
}

/// A type reference from `i`: the named type (wrappers and `!` stripped),
/// its span, whether it ends with `!`, and where it ends.
pub open spec fn type_ref_at(b: Seq<u8>, i: int) -> (Seq<char>, int, int, bool) {
    let e = run_end(b, i, |c: u8| type_byte(c));
    let raw = ascii_text(b.subrange(i, e));
    (strip_back(strip_front(raw)), i, e, raw.len() > 0 && raw.last() == '!')
}

fn strip_type(raw: &Vec<char>) -> (r: String)
    ensures
        r@ == strip_back(strip_front(raw@)),
{
    let mut lo: usize = 0;
    assert(raw@.skip(0) =~= raw@);
    while lo < raw.len() && (raw[lo] == '[' || raw[lo] == ']' || raw[lo] == '!')
        invariant
            lo <= raw@.len(),
            strip_front(raw@) == strip_front(raw@.skip(lo as int)),
        decreases raw@.len() - lo,
    {
        assert(raw@.skip(lo as int).drop_first() =~= raw@.skip(lo + 1));
        lo = lo + 1;
    }
    let ghost f = raw@.skip(lo as int);
    assert(strip_front(raw@) == f);
    let mut hi: usize = raw.len();
    assert(f =~= raw@.subrange(lo as int, hi as int));
    while hi > lo && (raw[hi - 1] == '[' || raw[hi - 1] == ']' || raw[hi - 1] == '!')
        invariant
            lo <= hi <= raw@.len(),
            strip_back(f) == strip_back(raw@.subrange(lo as int, hi as int)),
        decreases hi,
    {
        assert(raw@.subrange(lo as int, hi as int).drop_last() =~= raw@.subrange(lo as int, hi - 1));
        hi = hi - 1;
    }
    crate::text::string_from_chars(raw, lo, hi)
}

pub(crate) fn type_ref(b: &[u8], i: usize) -> (r: (String, usize, bool))
    requires
        i <= b@.len(),
    ensures
        ({
            let (n, s, e, req) = type_ref_at(b@, i as int);
            &&& r.0@ == n
            &&& r.1 == e
            &&& r.2 == req
            &&& i <= r.1 <= b@.len()
        }),
{
    let ghost p = |c: u8| type_byte(c);
    proof {
        lemma_run_end(b@, i as int, p);
    }
    let mut j = i;
    while j < b.len() && ((b[j] >= 65 && b[j] <= 90) || (b[j] >= 97 && b[j] <= 122) || (b[j] >= 48 && b[j] <= 57) || b[j] == 95
        || b[j] == 91 || b[j] == 93 || b[j] == 33)
        invariant
            i <= j <= b@.len(),
            forall|c: u8| #[trigger] p(c) == type_byte(c),
            run_end(b@, i as int, p) == run_end(b@, j as int, p),
        decreases b@.len() - j,
    {
        j = j + 1;
    }
    let raw = ascii_string(b, i, j);
    let cs = crate::text::chars_of(raw.as_str());
    let required = cs.len() > 0 && cs[cs.len() - 1] == '!';
    let named = strip_type(&cs);
    (named, j, required)
}

/// Where an argument list from `i` ends: after the trivia, a `(` opens a
/// list whose parentheses are balanced to its end; anything else is no list.
pub open spec fn parens_end(b: Seq<u8>, i: int, depth: int) -> int
    decreases b.len() - i,
{
    if i < 0 || i >= b.len() || depth <= 0 {
        i
    } else {
        let d = if b[i] == 40u8 {
            depth + 1
        } else if b[i] == 41u8 {
            depth - 1
        } else {
            depth
        };
        parens_end(b, i + 1, d)
    }
}

pub open spec fn args_end(b: Seq<u8>, i: int) -> int {
    let t = trivia_end(b, i);
    if at(b, t, 40u8) {
        parens_end(b, t + 1, 1)
    } else {
        t
    }
}

pub proof fn lemma_parens_end(b: Seq<u8>, i: int, depth: int)
    requires
        0 <= i,
    ensures
        i <= parens_end(b, i, depth),
        i <= b.len() ==> parens_end(b, i, depth) <= b.len(),
    decreases b.len() - i,
{
    if !(i >= b.len() || depth <= 0) {
        let d = if b[i] == 40u8 {
            depth + 1
        } else if b[i] == 41u8 {
            depth - 1
        } else {
            depth
        };
        lemma_parens_end(b, i + 1, d);
    }
}

fn skip_args(b: &[u8], i: usize) -> (r: usize)
    requires
        i <= b@.len(),
        b@.len() < 0xFFFF_FFF0,
    ensures
        r == args_end(b@, i as int),
        i <= r <= b@.len(),
{
    let t = skip_trivia(b, i);
    if t < b.len() && b[t] == 40 {
        let mut depth: i64 = 1;
        let mut j = t + 1;
        proof {
            lemma_parens_end(b@, j as int, 1);
        }
        while j < b.len() && depth > 0
            invariant
                t < j <= b@.len(),
                b@.len() < 0xFFFF_FFF0,
                depth <= j - t,
                parens_end(b@, t + 1, 1) == parens_end(b@, j as int, depth as int),
            decreases b@.len() - j,
        {
            if b[j] == 40 {
                depth = depth + 1;
            } else if b[j] == 41 {
                depth = depth - 1;
            }
            j = j + 1;
        }
        j
    } else {
        t
    }
}

/// Directive names `@name(args)` from `i` until `stop` (or the end), and
/// where the scan stops: at the trivia before `stop` or the end, else back
/// where an unclaimed token's trivia began.
pub open spec fn directives_from(b: Seq<u8>, i: int, stop: u8, acc: Seq<Seq<char>>) -> (Seq<Seq<char>>, int)
    decreases b.len() - i,
{
    let t = trivia_end(b, i);
    if i < 0 || t >= b.len() || b[t] == stop {
        (acc, t)
    } else if b[t] == 64u8 {
        match name_at(b, t + 1) {
            Some(e) => {
                let k = args_end(b, e);
                proof {
                    lemma_trivia_end(b, i);
                    lemma_run_end(b, t + 1, |c: u8| name_byte(c));
                    lemma_args_end(b, e);
                }
                directives_from(b, k, stop, acc.push(ascii_text(b.subrange(t + 1, e))))
            },
            None => (acc, i),
        }
    } else {
        (acc, i)
    }
}

fn directives_until(b: &[u8], i: usize, stop: u8) -> (r: (Vec<String>, usize))
    requires
        i <= b@.len(),
        b@.len() < 0xFFFF_FFF0,
    ensures
        (strs(r.0@), r.1 as int) == directives_from(b@, i as int, stop, seq![]),
        i <= r.1 <= b@.len(),
{
    let mut out: Vec<String> = Vec::new();
    let mut j = i;
    assert(strs(out@) =~= seq![]);
    loop
        invariant
            i <= j <= b@.len(),
            b@.len() < 0xFFFF_FFF0,
            directives_from(b@, i as int, stop, seq![]) == directives_from(b@, j as int, stop, strs(out@)),
        decreases b@.len() - j,
    {
        let t = skip_trivia(b, j);
        if t >= b.len() || b[t] == stop {
            return (out, t);
        }
        if b[t] == 64 {
            match name_end(b, t + 1) {
                Some(e) => {
                    let k = skip_args(b, e);
                    let n = ascii_string(b, t + 1, e);
                    let ghost before = strs(out@);
                    out.push(n);
                    assert(strs(out@) =~= before.push(n@));
                    j = k;
                },
                None => {
                    return (out, j);
                },
            }
        } else {
            return (out, j);
        }
    }
}

/// Root operations `op: Type` of a schema block body from `i`, until its
/// `}` (consumed) or the end; a token that is not a name is skipped a byte
/// at a time.
pub open spec fn roots_from(b: Seq<u8>, i: int, acc: Seq<(Seq<char>, Seq<char>)>) -> (Seq<(Seq<char>, Seq<char>)>, int)
    decreases b.len() - i,
{
    let t = trivia_end(b, i);
    if i < 0 || t >= b.len() {
        (acc, t)
    } else if b[t] == 125u8 {
        (acc, t + 1)
    } else {
        let (acc2, k) = match name_at(b, t) {
            None => (acc, t + 1),
            Some(e) => {
                let t2 = trivia_end(b, e);
                if at(b, t2, 58u8) {
                    let (n, s0, e2, r) = type_ref_at(b, trivia_end(b, t2 + 1));
                    (acc.push((ascii_text(b.subrange(t, e)), n)), e2)
                } else {
                    (acc, t2)
                }
            },
        };
        proof {
            lemma_roots_step(b, i);
        }
        roots_from(b, k, acc2)
    }
}

/// The position a step of `roots_from` moves to from `i` (when the body
/// goes on): past where it started, within the bytes.
pub open spec fn roots_next(b: Seq<u8>, i: int) -> int {
    let t = trivia_end(b, i);
    match name_at(b, t) {
        None => t + 1,
        Some(e) => {
            let t2 = trivia_end(b, e);
            if at(b, t2, 58u8) {
                type_ref_at(b, trivia_end(b, t2 + 1)).2
            } else {
                t2
            }
        },
    }
}

pub proof fn lemma_roots_step(b: Seq<u8>, i: int)
    requires
        0 <= i,
        trivia_end(b, i) < b.len(),
    ensures
        i < roots_next(b, i) <= b.len(),
{
    lemma_trivia_end(b, i);
    let t = trivia_end(b, i);
    let p = |c: u8| name_byte(c);
    match name_at(b, t) {
        None => {},
        Some(e) => {
            lemma_run_end(b, t, p);
            assert(run_end(b, t, p) == run_end(b, t + 1, p));
            lemma_run_end(b, t + 1, p);
            lemma_trivia_end(b, e);
            let t2 = trivia_end(b, e);
            if at(b, t2, 58u8) {
                lemma_trivia_end(b, t2 + 1);
                lemma_run_end(b, trivia_end(b, t2 + 1), |c: u8| type_byte(c));
            }
        },
    }
}

/// Interface names after `implements`, each optionally followed by `&`.
pub open spec fn implements_from(b: Seq<u8>, i: int, acc: Seq<Seq<char>>) -> (Seq<Seq<char>>, int)
    decreases b.len() - i,
{
    let t = trivia_end(b, i);
    match name_at(b, t) {
        None => (acc, t),
        Some(e) => {
            let t2 = trivia_end(b, e);
            let k = if at(b, t2, 38u8) { t2 + 1 } else { t2 };
            proof {
                lemma_trivia_end(b, i);
                lemma_run_end(b, t, |c: u8| name_byte(c));
                assert(run_end(b, t, |c: u8| name_byte(c)) == run_end(b, t + 1, |c: u8| name_byte(c)));
                lemma_run_end(b, t + 1, |c: u8| name_byte(c));
                lemma_trivia_end(b, e);
            }
            implements_from(b, k, acc.push(ascii_text(b.subrange(t, e))))
        },
    }
}

/// Union members `A | B | ...`, with their spans.
pub open spec fn members_from(b: Seq<u8>, i: int, acc: Seq<(Seq<char>, (u32, u32))>) -> (Seq<(Seq<char>, (u32, u32))>, int)
    decreases b.len() - i,
{
    let t = trivia_end(b, i);
    match name_at(b, t) {
        None => (acc, t),
        Some(e) => {
            let acc2 = acc.push((ascii_text(b.subrange(t, e)), (t as u32, e as u32)));
            let t2 = trivia_end(b, e);
            if at(b, t2, 124u8) {
                proof {
                    lemma_trivia_end(b, i);
                    lemma_run_end(b, t, |c: u8| name_byte(c));
                    assert(run_end(b, t, |c: u8| name_byte(c)) == run_end(b, t + 1, |c: u8| name_byte(c)));
                    lemma_run_end(b, t + 1, |c: u8| name_byte(c));
                    lemma_trivia_end(b, e);
                }
                members_from(b, t2 + 1, acc2)
            } else {
                (acc2, t2)
            }
        },
    }
}

/// Where the keyword `w` ends when it follows the trivia at `i` as a whole
/// word.
pub open spec fn word_at(b: Seq<u8>, i: int, w: Seq<u8>) -> Option<int> {
    let t = trivia_end(b, i);
    let after = t + w.len();
    if 0 <= t && after <= b.len() && b.subrange(t, after) == w && (after >= b.len() || !name_byte(b[after])) {
        Some(after)
    } else {
        None
    }
}

/// The scanner's state: the position, the facts so far, the errors so far,
/// and whether a definition body is open (its fields and values go to the
/// last definition).
pub struct ScanV {
    pub i: int,
    pub facts: FactsV,
    pub errors: Seq<GuestErrorV>,
    pub open: bool,
}

pub open spec fn type_keyword(w: Seq<char>) -> bool {
    w == "type"@ || w == "interface"@ || w == "input"@ || w == "enum"@ || w == "union"@ || w == "scalar"@
}

pub open spec fn new_def(kind: Seq<char>, name: Seq<char>, span: (u32, u32), dirs: Seq<Seq<char>>) -> DefFactV {
    DefFactV {
        kind,
        name,
        span,
        subject: "type:"@ + name,
        fields: seq![],
        implements: seq![],
        union_members: seq![],
        enum_values: seq![],
        directives: dirs,
        path: None,
    }
}

pub open spec fn implements_bytes() -> Seq<u8> {
    seq![105u8, 109u8, 112u8, 108u8, 101u8, 109u8, 101u8, 110u8, 116u8, 115u8]
}

/// A definition keyword at `start..k`: the definition, its directives, and
/// what follows its name (interfaces, union members).
pub open spec fn def_step(b: Seq<u8>, start: int, k: int, word: Seq<char>, s: ScanV) -> ScanV {
    let kind = if word == "type"@ { "object"@ } else { word };
    let t = trivia_end(b, k);
    match name_at(b, t) {
        None => ScanV {
            i: t,
            facts: s.facts,
            errors: s.errors.push(GuestErrorV { message: "`"@ + word + "` without a name"@, span: [start as u32, t as u32] }),
            open: s.open,
        },
        Some(ne) => {
            let name = ascii_text(b.subrange(t, ne));
            let span = (t as u32, ne as u32);
            let (dirs, i2) = directives_from(b, ne, 123u8, seq![]);
            let d = new_def(kind, name, span, dirs);
            let used = s.facts.directives_used + dirs;
            if kind == "object"@ || kind == "interface"@ {
                match word_at(b, i2, implements_bytes()) {
                    Some(i3) => {
                        let (ifs, i4) = implements_from(b, i3, seq![]);
                        ScanV {
                            i: i4,
                            facts: FactsV {
                                defs: s.facts.defs.push(DefFactV { implements: ifs, ..d }),
                                uses: s.facts.uses + ifs.map_values(|n: Seq<char>| UseFactV { name: n, span, path: None }),
                                directives_used: used,
                                ..s.facts
                            },
                            errors: s.errors,
                            open: true,
                        }
                    },
                    None => ScanV {
                        i: i2,
                        facts: FactsV { defs: s.facts.defs.push(d), directives_used: used, ..s.facts },
                        errors: s.errors,
                        open: true,
                    },
                }
            } else if kind == "union"@ {
                let t0 = trivia_end(b, i2);
                let k0 = if at(b, t0, 61u8) { t0 + 1 } else { t0 };
                let (ms, i5) = members_from(b, k0, seq![]);
                ScanV {
                    i: i5,
                    facts: FactsV {
                        defs: s.facts.defs.push(DefFactV { union_members: ms.map_values(|m: (Seq<char>, (u32, u32))| m.0), ..d }),
                        uses: s.facts.uses + ms.map_values(|m: (Seq<char>, (u32, u32))| UseFactV { name: m.0, span: m.1, path: None }),
                        directives_used: used,
                        ..s.facts
                    },
                    errors: s.errors,
                    open: false,
                }
            } else {
                ScanV {
                    i: i2,
                    facts: FactsV { defs: s.facts.defs.push(d), directives_used: used, ..s.facts },
                    errors: s.errors,
                    open: kind != "scalar"@,
                }
            }
        },
    }
}

/// `directive @name ...`: the name is recorded as defined.
pub open spec fn directive_step(b: Seq<u8>, k: int, s: ScanV) -> ScanV {
    let t = trivia_end(b, k);
    let t1 = if at(b, t, 64u8) { t + 1 } else { t };
    match name_at(b, t1) {
        Some(e) => ScanV {
            i: e,
            facts: FactsV { directives_defined: s.facts.directives_defined.push(ascii_text(b.subrange(t1, e))), ..s.facts },
            errors: s.errors,
            open: false,
        },
        None => ScanV { i: t1, facts: s.facts, errors: s.errors, open: false },
    }
}

/// A name inside a body: an enum value, or a field `name: Type @directive`.
pub open spec fn body_step(b: Seq<u8>, start: int, k: int, word: Seq<char>, s: ScanV) -> ScanV {
    let defs = s.facts.defs;
    if !s.open || defs.len() == 0 {
        ScanV { i: k, ..s }
    } else {
        let d = defs.last();
        if d.kind == "enum"@ {
            ScanV {
                i: k,
                facts: FactsV { defs: defs.update(defs.len() - 1, DefFactV { enum_values: d.enum_values.push(word), ..d }), ..s.facts },
                ..s
            }
        } else if d.kind == "object"@ || d.kind == "interface"@ || d.kind == "input"@ {
            let t = trivia_end(b, k);
            if !at(b, t, 58u8) {
                ScanV { i: t, ..s }
            } else {
                let (named, ts, te, req) = type_ref_at(b, trivia_end(b, t + 1));
                let (dirs, i6) = directives_from(b, te, 10u8, seq![]);
                let field = FieldFactV {
                    name: word,
                    span: (start as u32, k as u32),
                    named_type: Some(named),
                    required: req,
                    directives: dirs,
                    subject: "type:"@ + d.name + ".field:"@ + word,
                };
                ScanV {
                    i: i6,
                    facts: FactsV {
                        defs: defs.update(defs.len() - 1, DefFactV { fields: d.fields.push(field), ..d }),
                        directives_used: s.facts.directives_used + dirs,
                        uses: if builtin(named) {
                            s.facts.uses
                        } else {
                            s.facts.uses.push(UseFactV { name: named, span: (ts as u32, te as u32), path: None })
                        },
                        ..s.facts
                    },
                    ..s
                }
            }
        } else {
            ScanV { i: k, ..s }
        }
    }
}

/// The quote of an unidentified token at `j`: up to 12 bytes.
pub open spec fn quote_end(b: Seq<u8>, j: int) -> int {
    if j + 12 <= b.len() { j + 12 } else { b.len() as int }
}

/// One token at `j` (after the trivia); `None` when the scanner gives up.
pub open spec fn token_step(b: Seq<u8>, j: int, s: ScanV) -> Option<ScanV> {
    if b[j] == 123u8 {
        Some(ScanV { i: j + 1, ..s })
    } else if b[j] == 125u8 {
        Some(ScanV { i: j + 1, open: false, ..s })
    } else {
        match name_at(b, j) {
            None => {
                let e = quote_end(b, j);
                if !valid_utf8(b.subrange(j, e)) {
                    None
                } else {
                    Some(ScanV {
                        i: j + 1,
                        errors: s.errors.push(GuestErrorV {
                            message: "cannot identify token near `"@ + decode_utf8(b.subrange(j, e)) + "`"@,
                            span: [j as u32, (j + 1) as u32],
                        }),
                        ..s
                    })
                }
            },
            Some(k) => {
                let word = ascii_text(b.subrange(j, k));
                if word == "schema"@ {
                    let t = trivia_end(b, k);
                    let (roots, i2) = if at(b, t, 123u8) {
                        roots_from(b, t + 1, s.facts.roots)
                    } else {
                        (s.facts.roots, t)
                    };
                    Some(ScanV { i: i2, facts: FactsV { roots, has_entry_block: true, ..s.facts }, ..s })
                } else if type_keyword(word) {
                    Some(def_step(b, j, k, word, s))
                } else if word == "directive"@ {
                    Some(directive_step(b, k, s))
                } else {
                    Some(body_step(b, j, k, word, s))
                }
            },
        }
    }
}

// ---------------------------------------------------------------------------
// Progress
// ---------------------------------------------------------------------------

pub proof fn lemma_args_end(b: Seq<u8>, i: int)
    requires
        0 <= i <= b.len(),
    ensures
        i <= args_end(b, i) <= b.len(),
{
    lemma_trivia_end(b, i);
    let t = trivia_end(b, i);
    if at(b, t, 40u8) {
        lemma_parens_end(b, t + 1, 1);
    }
}

pub proof fn lemma_directives_from(b: Seq<u8>, i: int, stop: u8, acc: Seq<Seq<char>>)
    requires
        0 <= i <= b.len(),
    ensures
        i <= directives_from(b, i, stop, acc).1 <= b.len(),
    decreases b.len() - i,
{
    lemma_trivia_end(b, i);
    let t = trivia_end(b, i);
    if !(t >= b.len() || b[t] == stop) && b[t] == 64u8 {
        match name_at(b, t + 1) {
            Some(e) => {
                lemma_run_end(b, t + 1, |c: u8| name_byte(c));
                lemma_args_end(b, e);
                lemma_directives_from(b, args_end(b, e), stop, acc.push(ascii_text(b.subrange(t + 1, e))));
            },
            None => {},
        }
    }
}

pub proof fn lemma_roots_from(b: Seq<u8>, i: int, acc: Seq<(Seq<char>, Seq<char>)>)
    requires
        0 <= i <= b.len(),
    ensures
        i <= roots_from(b, i, acc).1 <= b.len(),
    decreases b.len() - i,
{
    lemma_trivia_end(b, i);
    let t = trivia_end(b, i);
    if !(t >= b.len()) && b[t] != 125u8 {
        let (acc2, k) = match name_at(b, t) {
            None => (acc, t + 1),
            Some(e) => {
                let t2 = trivia_end(b, e);
                if at(b, t2, 58u8) {
                    let (n, s0, e2, r) = type_ref_at(b, trivia_end(b, t2 + 1));
                    (acc.push((ascii_text(b.subrange(t, e)), n)), e2)
                } else {
                    (acc, t2)
                }
            },
        };
        lemma_roots_step(b, i);
        assert(k == roots_next(b, i));
        lemma_roots_from(b, k, acc2);
    }
}

pub proof fn lemma_implements_from(b: Seq<u8>, i: int, acc: Seq<Seq<char>>)
    requires
        0 <= i <= b.len(),
    ensures
        i <= implements_from(b, i, acc).1 <= b.len(),
    decreases b.len() - i,
{
    lemma_trivia_end(b, i);
    let t = trivia_end(b, i);
    match name_at(b, t) {
        None => {},
        Some(e) => {
            let p = |c: u8| name_byte(c);
            lemma_run_end(b, t, p);
            lemma_trivia_end(b, e);
            assert(run_end(b, t, p) == run_end(b, t + 1, p));
            lemma_run_end(b, t + 1, p);
            let t2 = trivia_end(b, e);
            let k = if at(b, t2, 38u8) { t2 + 1 } else { t2 };
            lemma_implements_from(b, k, acc.push(ascii_text(b.subrange(t, e))));
        },
    }
}

pub proof fn lemma_members_from(b: Seq<u8>, i: int, acc: Seq<(Seq<char>, (u32, u32))>)
    requires
        0 <= i <= b.len(),
    ensures
        i <= members_from(b, i, acc).1 <= b.len(),
    decreases b.len() - i,
{
    lemma_trivia_end(b, i);
    let t = trivia_end(b, i);
    match name_at(b, t) {
        None => {},
        Some(e) => {
            let p = |c: u8| name_byte(c);
            lemma_run_end(b, t, p);
            lemma_trivia_end(b, e);
            let t2 = trivia_end(b, e);
            let acc2 = acc.push((ascii_text(b.subrange(t, e)), (t as u32, e as u32)));
            if at(b, t2, 124u8) {
                lemma_members_from(b, t2 + 1, acc2);
            }
        },
    }
}

/// Every token moves the scan forward, and no further than the end of the
/// bytes.
pub proof fn lemma_token_progress(b: Seq<u8>, j: int, s: ScanV)
    requires
        0 <= s.i <= j < b.len(),
    ensures
        token_step(b, j, s) matches Some(t) ==> s.i < t.i <= b.len(),
{
    if b[j] != 123u8 && b[j] != 125u8 {
        match name_at(b, j) {
            None => {},
            Some(k) => {
                let p = |c: u8| name_byte(c);
                lemma_run_end(b, j, p);
                assert(run_end(b, j, p) == run_end(b, j + 1, p));
                lemma_run_end(b, j + 1, p);
                let word = ascii_text(b.subrange(j, k));
                lemma_trivia_end(b, k);
                let t = trivia_end(b, k);
                if word == "schema"@ {
                    if at(b, t, 123u8) {
                        lemma_roots_from(b, t + 1, s.facts.roots);
                    }
                } else if type_keyword(word) {
                    match name_at(b, t) {
                        None => {},
                        Some(ne) => {
                            lemma_run_end(b, t, p);
                            lemma_directives_from(b, ne, 123u8, seq![]);
                            let i2 = directives_from(b, ne, 123u8, seq![]).1;
                            let kind = if word == "type"@ { "object"@ } else { word };
                            if kind == "object"@ || kind == "interface"@ {
                                match word_at(b, i2, implements_bytes()) {
                                    Some(i3) => {
                                        lemma_trivia_end(b, i2);
                                        lemma_implements_from(b, i3, seq![]);
                                    },
                                    None => {},
                                }
                            } else if kind == "union"@ {
                                lemma_trivia_end(b, i2);
                                let t0 = trivia_end(b, i2);
                                let k0 = if at(b, t0, 61u8) { t0 + 1 } else { t0 };
                                lemma_members_from(b, k0, seq![]);
                            }
                        },
                    }
                } else if word == "directive"@ {
                    let t1 = if at(b, t, 64u8) { t + 1 } else { t };
                    match name_at(b, t1) {
                        Some(e) => {
                            lemma_run_end(b, t1, p);
                        },
                        None => {},
                    }
                } else {
                    let defs = s.facts.defs;
                    if s.open && defs.len() > 0 {
                        let d = defs.last();
                        if d.kind != "enum"@ && (d.kind == "object"@ || d.kind == "interface"@ || d.kind == "input"@) && at(b, t, 58u8) {
                            lemma_trivia_end(b, t + 1);
                            let ts = trivia_end(b, t + 1);
                            lemma_run_end(b, ts, |c: u8| type_byte(c));
                            let te = type_ref_at(b, ts).2;
                            lemma_directives_from(b, te, 10u8, seq![]);
                        }
                    }
                }
            },
        }
    }
}

/// The facts and parse errors of the tokens from `s.i` on.
pub open spec fn scan_from(b: Seq<u8>, s: ScanV) -> Option<(FactsV, Seq<GuestErrorV>)>
    decreases b.len() - s.i,
{
    let j = trivia_end(b, s.i);
    if s.i < 0 || j >= b.len() {
        Some((s.facts, s.errors))
    } else {
        match token_step(b, j, s) {
            None => None,
            Some(t) => {
                proof {
                    lemma_trivia_end(b, s.i);
                    lemma_token_progress(b, j, s);
                }
                scan_from(b, t)
            },
        }
    }
}

pub open spec fn empty_facts() -> FactsV {
    FactsV { defs: seq![], uses: seq![], directives_defined: seq![], directives_used: seq![], has_entry_block: false, roots: seq![] }
}

/// What the scanner makes of a source: its facts and parse errors, or
/// `None` when it gives up.
pub open spec fn scan_spec(src: Seq<char>) -> Option<(FactsV, Seq<GuestErrorV>)> {
    scan_from(encode_utf8(src), ScanV { i: 0, facts: empty_facts(), errors: seq![], open: false })
}

// ---------------------------------------------------------------------------
// The scanner
// ---------------------------------------------------------------------------

fn roots_exec(b: &[u8], i: usize, roots: &mut Vec<(String, String)>) -> (r: usize)
    requires
        i <= b@.len(),
        b@.len() < 0xFFFF_FFF0,
    ensures
        (pair_views(final(roots)@), r as int) == roots_from(b@, i as int, pair_views(old(roots)@)),
        r <= b@.len(),
{
    let mut j = i;
    loop
        invariant
            j <= b@.len(),
            b@.len() < 0xFFFF_FFF0,
            roots_from(b@, i as int, pair_views(old(roots)@)) == roots_from(b@, j as int, pair_views(roots@)),
        decreases b@.len() - j,
    {
        let t = skip_trivia(b, j);
        if t >= b.len() {
            return t;
        }
        if b[t] == 125 {
            return t + 1;
        }
        let ghost before = pair_views(roots@);
        let k = match name_end(b, t) {
            None => t + 1,
            Some(e) => {
                let t2 = skip_trivia(b, e);
                if t2 < b.len() && b[t2] == 58 {
                    let t3 = skip_trivia(b, t2 + 1);
                    let (n, e2, _) = type_ref(b, t3);
                    let op = ascii_string(b, t, e);
                    roots.push((op, n));
                    assert(pair_views(roots@) =~= before.push((ascii_text(b@.subrange(t as int, e as int)), n@)));
                    e2
                } else {
                    t2
                }
            },
        };
        j = k;
    }
}

fn implements_exec(b: &[u8], i: usize) -> (r: (Vec<String>, usize))
    requires
        i <= b@.len(),
    ensures
        (strs(r.0@), r.1 as int) == implements_from(b@, i as int, seq![]),
        r.1 <= b@.len(),
{
    let mut out: Vec<String> = Vec::new();
    let mut j = i;
    assert(strs(out@) =~= seq![]);
    loop
        invariant
            j <= b@.len(),
            implements_from(b@, i as int, seq![]) == implements_from(b@, j as int, strs(out@)),
        decreases b@.len() - j,
    {
        let t = skip_trivia(b, j);
        match name_end(b, t) {
            None => {
                return (out, t);
            },
            Some(e) => {
                let t2 = skip_trivia(b, e);
                let k = if t2 < b.len() && b[t2] == 38 { t2 + 1 } else { t2 };
                let n = ascii_string(b, t, e);
                let ghost before = strs(out@);
                out.push(n);
                assert(strs(out@) =~= before.push(n@));
                j = k;
            },
        }
    }
}

pub open spec fn member_views(s: Seq<(String, [u32; 2])>) -> Seq<(Seq<char>, (u32, u32))> {
    s.map_values(|m: (String, [u32; 2])| (m.0@, crate::facts::pair(m.1)))
}

fn members_exec(b: &[u8], i: usize) -> (r: (Vec<(String, [u32; 2])>, usize))
    requires
        i <= b@.len(),
        b@.len() < 0xFFFF_FFF0,
    ensures
        (member_views(r.0@), r.1 as int) == members_from(b@, i as int, seq![]),
        r.1 <= b@.len(),
{
    let mut out: Vec<(String, [u32; 2])> = Vec::new();
    let mut j = i;
    assert(member_views(out@) =~= seq![]);
    loop
        invariant
            j <= b@.len(),
            b@.len() < 0xFFFF_FFF0,
            members_from(b@, i as int, seq![]) == members_from(b@, j as int, member_views(out@)),
        decreases b@.len() - j,
    {
        let t = skip_trivia(b, j);
        match name_end(b, t) {
            None => {
                return (out, t);
            },
            Some(e) => {
                let n = ascii_string(b, t, e);
                let sp: [u32; 2] = [t as u32, e as u32];
                let ghost before = member_views(out@);
                out.push((n, sp));
                assert(member_views(out@) =~= before.push((n@, (t as u32, e as u32))));
                let t2 = skip_trivia(b, e);
                if t2 < b.len() && b[t2] == 124 {
                    j = t2 + 1;
                } else {
                    return (out, t2);
                }
            },
        }
    }
}

fn implements_word(b: &[u8], i: usize) -> (r: Option<usize>)
    requires
        i <= b@.len(),
        b@.len() < 0xFFFF_FFF0,
    ensures
        match r {
            Some(x) => word_at(b@, i as int, implements_bytes()) == Some(x as int) && x <= b@.len(),
            None => word_at(b@, i as int, implements_bytes()) is None,
        },
{
    let w: [u8; 10] = [105, 109, 112, 108, 101, 109, 101, 110, 116, 115];
    assert(w@ =~= implements_bytes());
    let t = skip_trivia(b, i);
    if t + 10 > b.len() {
        return None;
    }
    let mut k: usize = 0;
    while k < 10
        invariant
            k <= 10,
            t + 10 <= b@.len(),
            b@.len() == b.len(),
            b@.len() < 0xFFFF_FFF0,
            t == trivia_end(b@, i as int),
            w@ == implements_bytes(),
            forall|q: int| 0 <= q < k ==> b@[t + q] == w@[q],
        decreases 10 - k,
    {
        if b[t + k] != w[k] {
            assert(b@.subrange(t as int, t + 10)[k as int] != implements_bytes()[k as int]);
            return None;
        }
        k = k + 1;
    }
    assert(b@.subrange(t as int, t + 10) =~= implements_bytes());
    let after = t + 10;
    if after < b.len() && ((b[after] >= 65 && b[after] <= 90) || (b[after] >= 97 && b[after] <= 122) || (b[after] >= 48 && b[after] <= 57)
        || b[after] == 95) {
        return None;
    }
    Some(after)
}

pub open spec fn scan_view(i: int, facts: Facts, errors: Seq<GuestError>, open: bool) -> ScanV {
    ScanV { i, facts: facts@, errors: guest_error_views(errors), open }
}

pub(crate) fn subject_of(name: &String) -> (r: String)
    ensures
        r@ == "type:"@ + name@,
{
    let mut s = string_of("type:");
    push_str(&mut s, name.as_str());
    s
}

fn def_exec(b: &[u8], start: usize, k: usize, word: &String, facts: &mut Facts, errors: &mut Vec<GuestError>, open: &mut bool) -> (r: usize)
    requires
        start < k <= b@.len(),
        b@.len() < 0xFFFF_FFF0,
        type_keyword(word@),
    ensures
        scan_view(r as int, *final(facts), final(errors)@, *final(open)) == def_step(
            b@,
            start as int,
            k as int,
            word@,
            scan_view(k as int, *old(facts), old(errors)@, *old(open)),
        ),
        r <= b@.len(),
{
    let ghost s0 = scan_view(k as int, *facts, errors@, *open);
    let kind = if str_eq(word.as_str(), "type") {
        string_of("object")
    } else {
        word.clone()
    };
    let t = skip_trivia(b, k);
    let ne = match name_end(b, t) {
        None => {
            let mut m = string_of("`");
            push_str(&mut m, word.as_str());
            push_str(&mut m, "` without a name");
            let e = GuestError { message: m, span: [start as u32, t as u32] };
            let ghost before = guest_error_views(errors@);
            errors.push(e);
            assert(guest_error_views(errors@) =~= before.push(e@));
            return t;
        },
        Some(ne) => ne,
    };
    let name = ascii_string(b, t, ne);
    let span: [u32; 2] = [t as u32, ne as u32];
    assert(crate::facts::pair(span) == (t as u32, ne as u32));
    let (dirs, i2) = directives_until(b, ne, 123);
    let ghost dv = strs(dirs@);
    let ghost used0 = strs(facts.directives_used@);
    let ghost fa = *facts;
    let mut k2: usize = 0;
    while k2 < dirs.len()
        invariant
            k2 <= dirs@.len(),
            facts.defs == fa.defs,
            facts.uses == fa.uses,
            facts.directives_defined == fa.directives_defined,
            facts.has_entry_block == fa.has_entry_block,
            facts.roots == fa.roots,
            dv == strs(dirs@),
            strs(facts.directives_used@) == used0 + dv.subrange(0, k2 as int),
        decreases dirs@.len() - k2,
    {
        let x = dirs[k2].clone();
        let ghost before = strs(facts.directives_used@);
        facts.directives_used.push(x);
        assert(strs(facts.directives_used@) =~= before.push(dv[k2 as int]));
        assert(dv.subrange(0, k2 + 1) =~= dv.subrange(0, k2 as int).push(dv[k2 as int]));
        k2 = k2 + 1;
    }
    assert(dv.subrange(0, k2 as int) =~= dv);
    let mut d = DefFact {
        kind,
        name: name.clone(),
        span,
        subject: subject_of(&name),
        fields: Vec::new(),
        implements: Vec::new(),
        union_members: Vec::new(),
        enum_values: Vec::new(),
        directives: dirs,
        path: None,
    };
    let ghost dd = new_def(d.kind@, name@, (t as u32, ne as u32), dv);
    assert(d@ =~= dd) by {
        assert(d@.fields =~= Seq::<FieldFactV>::empty());
        assert(d@.implements =~= Seq::<Seq<char>>::empty());
        assert(d@.union_members =~= Seq::<Seq<char>>::empty());
        assert(d@.enum_values =~= Seq::<Seq<char>>::empty());
    }
    let is_object = str_eq(d.kind.as_str(), "object") || str_eq(d.kind.as_str(), "interface");
    let is_union = str_eq(d.kind.as_str(), "union");
    let is_scalar = str_eq(d.kind.as_str(), "scalar");
    let ghost defs0 = def_fact_views(facts.defs@);
    let ghost uses0 = use_fact_views(facts.uses@);
    let ghost f0 = *facts;
    if is_object {
        match implements_word(b, i2) {
            Some(i3) => {
                let (ifs, i4) = implements_exec(b, i3);
                let ghost iv = strs(ifs@);
                let mut q: usize = 0;
                while q < ifs.len()
                    invariant
                        q <= ifs@.len(),
                        iv == strs(ifs@),
                        crate::facts::pair(span) == (t as u32, ne as u32),
                        facts.defs == f0.defs,
                        facts.directives_used == f0.directives_used,
                        facts.directives_defined == f0.directives_defined,
                        facts.has_entry_block == f0.has_entry_block,
                        facts.roots == f0.roots,
                        use_fact_views(facts.uses@) == uses0 + iv.subrange(0, q as int).map_values(
                            |n: Seq<char>| UseFactV { name: n, span: (t as u32, ne as u32), path: None },
                        ),
                        strs(d.implements@) == iv.subrange(0, q as int),
                        d@.kind == dd.kind,
                        d@.name == dd.name,
                        d@.span == dd.span,
                        d@.subject == dd.subject,
                        d@.fields == dd.fields,
                        d@.union_members == dd.union_members,
                        d@.enum_values == dd.enum_values,
                        d@.directives == dd.directives,
                        d@.path == dd.path,
                    decreases ifs@.len() - q,
                {
                    let u = UseFact { name: ifs[q].clone(), span, path: None };
                    let ghost before = use_fact_views(facts.uses@);
                    facts.uses.push(u);
                    assert(use_fact_views(facts.uses@) =~= before.push(u@));
                    let ghost bi = strs(d.implements@);
                    d.implements.push(ifs[q].clone());
                    assert(strs(d.implements@) =~= bi.push(iv[q as int]));
                    assert(iv.subrange(0, q + 1) =~= iv.subrange(0, q as int).push(iv[q as int]));
                    q = q + 1;
                }
                assert(iv.subrange(0, q as int) =~= iv);
                let ghost dv2 = d@;
                facts.defs.push(d);
                assert(def_fact_views(facts.defs@) =~= defs0.push(dv2));
                *open = true;
                return i4;
            },
            None => {
                let ghost dv2 = d@;
                facts.defs.push(d);
                assert(def_fact_views(facts.defs@) =~= defs0.push(dv2));
                *open = true;
                return i2;
            },
        }
    } else if is_union {
        let t0 = skip_trivia(b, i2);
        let k0 = if t0 < b.len() && b[t0] == 61 { t0 + 1 } else { t0 };
        let (ms, i5) = members_exec(b, k0);
        let ghost mv = member_views(ms@);
        let mut q: usize = 0;
        while q < ms.len()
            invariant
                q <= ms@.len(),
                mv == member_views(ms@),
                        crate::facts::pair(span) == (t as u32, ne as u32),
                        facts.defs == f0.defs,
                        facts.directives_used == f0.directives_used,
                        facts.directives_defined == f0.directives_defined,
                        facts.has_entry_block == f0.has_entry_block,
                        facts.roots == f0.roots,
                use_fact_views(facts.uses@) == uses0 + mv.subrange(0, q as int).map_values(
                    |m: (Seq<char>, (u32, u32))| UseFactV { name: m.0, span: m.1, path: None },
                ),
                strs(d.union_members@) == mv.subrange(0, q as int).map_values(|m: (Seq<char>, (u32, u32))| m.0),
                d@.kind == dd.kind,
                d@.name == dd.name,
                d@.span == dd.span,
                d@.subject == dd.subject,
                d@.fields == dd.fields,
                d@.implements == dd.implements,
                d@.enum_values == dd.enum_values,
                d@.directives == dd.directives,
                d@.path == dd.path,
            decreases ms@.len() - q,
        {
            let u = UseFact { name: ms[q].0.clone(), span: ms[q].1, path: None };
            let ghost before = use_fact_views(facts.uses@);
            facts.uses.push(u);
            assert(use_fact_views(facts.uses@) =~= before.push(u@));
            let ghost bm = strs(d.union_members@);
            d.union_members.push(ms[q].0.clone());
            assert(strs(d.union_members@) =~= bm.push(mv[q as int].0));
            assert(mv.subrange(0, q + 1) =~= mv.subrange(0, q as int).push(mv[q as int]));
            q = q + 1;
        }
        assert(mv.subrange(0, q as int) =~= mv);
        let ghost dv2 = d@;
        facts.defs.push(d);
        assert(def_fact_views(facts.defs@) =~= defs0.push(dv2));
        *open = false;
        return i5;
    } else {
        let ghost dv2 = d@;
        facts.defs.push(d);
        assert(def_fact_views(facts.defs@) =~= defs0.push(dv2));
        *open = !is_scalar;
        return i2;
    }
}

fn extend_strings(dst: &mut Vec<String>, src: &Vec<String>)
    ensures
        strs(final(dst)@) == strs(old(dst)@) + strs(src@),
{
    let ghost d0 = strs(dst@);
    let mut q: usize = 0;
    while q < src.len()
        invariant
            q <= src@.len(),
            strs(dst@) == d0 + strs(src@).subrange(0, q as int),
        decreases src@.len() - q,
    {
        let ghost before = strs(dst@);
        dst.push(src[q].clone());
        assert(strs(dst@) =~= before.push(src@[q as int]@));
        assert(strs(src@).subrange(0, q + 1) =~= strs(src@).subrange(0, q as int).push(src@[q as int]@));
        q = q + 1;
    }
    assert(strs(src@).subrange(0, q as int) =~= strs(src@));
}

fn directive_exec(b: &[u8], k: usize, facts: &mut Facts, open: &mut bool) -> (r: usize)
    requires
        k <= b@.len(),
    ensures
        forall|errs: Seq<GuestError>|
            #![auto]
            scan_view(r as int, *final(facts), errs, *final(open)) == directive_step(b@, k as int, scan_view(k as int, *old(facts), errs, *old(open))),
        r <= b@.len(),
{
    let t = skip_trivia(b, k);
    let t1 = if t < b.len() && b[t] == 64 { t + 1 } else { t };
    *open = false;
    match name_end(b, t1) {
        Some(e) => {
            let n = ascii_string(b, t1, e);
            let ghost before = strs(facts.directives_defined@);
            facts.directives_defined.push(n);
            assert(strs(facts.directives_defined@) =~= before.push(n@));
            e
        },
        None => t1,
    }
}

pub(crate) fn field_subject(owner: &String, word: &String) -> (r: String)
    ensures
        r@ == "type:"@ + owner@ + ".field:"@ + word@,
{
    let mut s = string_of("type:");
    push_str(&mut s, owner.as_str());
    push_str(&mut s, ".field:");
    push_str(&mut s, word.as_str());
    s
}

fn body_exec(b: &[u8], start: usize, k: usize, word: &String, facts: &mut Facts, open: &mut bool) -> (r: usize)
    requires
        start < k <= b@.len(),
        b@.len() < 0xFFFF_FFF0,
    ensures
        forall|errs: Seq<GuestError>|
            #![auto]
            scan_view(r as int, *final(facts), errs, *final(open)) == body_step(
                b@,
                start as int,
                k as int,
                word@,
                scan_view(k as int, *old(facts), errs, *old(open)),
            ),
        r <= b@.len(),
{
    if !*open || facts.defs.len() == 0 {
        return k;
    }
    let ghost defs0 = facts.defs@;
    let ghost f0 = *facts;
    let mut d = match facts.defs.pop() {
        Some(d) => d,
        None => {
            return k;
        },
    };
    assert(d == defs0.last());
    assert(facts.defs@ =~= defs0.drop_last());
    let ghost dv = d@;
    if str_eq(d.kind.as_str(), "enum") {
        let ghost ev = strs(d.enum_values@);
        d.enum_values.push(word.clone());
        assert(strs(d.enum_values@) =~= ev.push(word@));
        let ghost nd = d@;
        facts.defs.push(d);
        assert(def_fact_views(facts.defs@) =~= def_fact_views(defs0).update(defs0.len() - 1, nd));
        return k;
    }
    if !(str_eq(d.kind.as_str(), "object") || str_eq(d.kind.as_str(), "interface") || str_eq(d.kind.as_str(), "input")) {
        facts.defs.push(d);
        assert(facts.defs@ =~= defs0);
        return k;
    }
    let t = skip_trivia(b, k);
    if !(t < b.len() && b[t] == 58) {
        facts.defs.push(d);
        assert(facts.defs@ =~= defs0);
        return t;
    }
    let t2 = skip_trivia(b, t + 1);
    let (named, te, req) = type_ref(b, t2);
    let (dirs, i6) = directives_until(b, te, 10);
    extend_strings(&mut facts.directives_used, &dirs);
    let subject = field_subject(&d.name, word);
    let field = FieldFact {
        name: word.clone(),
        span: [start as u32, k as u32],
        named_type: Some(named.clone()),
        required: req,
        directives: dirs,
        subject,
    };
    let ghost fv = field@;
    let ghost fs0 = d@.fields;
    d.fields.push(field);
    assert(d@.fields =~= fs0.push(fv));
    let ghost nd = d@;
    facts.defs.push(d);
    assert(def_fact_views(facts.defs@) =~= def_fact_views(defs0).update(defs0.len() - 1, nd));
    if !is_builtin(named.as_str()) {
        let u = UseFact { name: named, span: [t2 as u32, te as u32], path: None };
        let ghost before = use_fact_views(facts.uses@);
        facts.uses.push(u);
        assert(use_fact_views(facts.uses@) =~= before.push(u@));
    }
    i6
}

pub(crate) fn quote_bytes(b: &[u8], j: usize, e: usize) -> (r: Vec<u8>)
    requires
        j <= e <= b@.len(),
    ensures
        r@ == b@.subrange(j as int, e as int),
{
    let mut v: Vec<u8> = Vec::new();
    let mut q = j;
    while q < e
        invariant
            j <= q <= e <= b@.len(),
            v@ == b@.subrange(j as int, q as int),
        decreases e - q,
    {
        v.push(b[q]);
        assert(b@.subrange(j as int, q + 1) =~= b@.subrange(j as int, q as int).push(b@[q as int]));
        q = q + 1;
    }
    v
}

fn token_exec(b: &[u8], j: usize, facts: &mut Facts, errors: &mut Vec<GuestError>, open: &mut bool, Ghost(i0): Ghost<int>) -> (r: Option<usize>)
    requires
        j < b@.len(),
        b@.len() < 0xFFFF_FFF0,
    ensures
        match r {
            Some(x) => token_step(b@, j as int, scan_view(i0, *old(facts), old(errors)@, *old(open))) == Some(
                scan_view(x as int, *final(facts), final(errors)@, *final(open)),
            ) && x <= b@.len(),
            None => token_step(b@, j as int, scan_view(i0, *old(facts), old(errors)@, *old(open))) is None,
        },
{
    let ghost s0 = scan_view(i0, *facts, errors@, *open);
    if b[j] == 123 {
        return Some(j + 1);
    }
    if b[j] == 125 {
        *open = false;
        return Some(j + 1);
    }
    match name_end(b, j) {
        None => {
            let e = if j + 12 <= b.len() { j + 12 } else { b.len() };
            let v = quote_bytes(b, j, e);
            match utf8_str(v.as_slice()) {
                None => {
                    return None;
                },
                Some(q) => {
                    let mut m = string_of("cannot identify token near `");
                    push_str(&mut m, q);
                    push_str(&mut m, "`");
                    let er = GuestError { message: m, span: [j as u32, (j + 1) as u32] };
                    let ghost before = guest_error_views(errors@);
                    errors.push(er);
                    assert(guest_error_views(errors@) =~= before.push(er@));
                    return Some(j + 1);
                },
            }
        },
        Some(k) => {
            let word = ascii_string(b, j, k);
            if str_eq(word.as_str(), "schema") {
                let t = skip_trivia(b, k);
                let i2 = if t < b.len() && b[t] == 123 {
                    roots_exec(b, t + 1, &mut facts.roots)
                } else {
                    t
                };
                facts.has_entry_block = true;
                return Some(i2);
            }
            let tk = str_eq(word.as_str(), "type") || str_eq(word.as_str(), "interface") || str_eq(word.as_str(), "input")
                || str_eq(word.as_str(), "enum") || str_eq(word.as_str(), "union") || str_eq(word.as_str(), "scalar");
            if tk {
                let x = def_exec(b, j, k, &word, facts, errors, open);
                return Some(x);
            }
            if str_eq(word.as_str(), "directive") {
                let x = directive_exec(b, k, facts, open);
                assert(scan_view(x as int, *facts, errors@, *open) == directive_step(b@, k as int, scan_view(k as int, *old(facts), errors@, *old(open))));
                return Some(x);
            }
            let x = body_exec(b, j, k, &word, facts, open);
            assert(scan_view(x as int, *facts, errors@, *open) == body_step(b@, j as int, k as int, word@, scan_view(k as int, *old(facts), errors@, *old(open))));
            Some(x)
        },
    }
}

/// Scan one SDL document into its facts and parse errors; `None` when the
/// scanner gives up (see the module documentation).
pub fn scan_document(src: &str) -> (r: Option<(Facts, Vec<GuestError>)>)
    requires
        crate::graphql::lexer::fits_source(src@),
    ensures
        match (r, scan_spec(src@)) {
            (Some((f, e)), Some((sf, se))) => f@ == sf && guest_error_views(e@) == se,
            (None, None) => true,
            _ => false,
        },
{
    let b = src.as_bytes();
    let mut facts = Facts::default();
    let mut errors: Vec<GuestError> = Vec::new();
    let mut open = false;
    let mut i: usize = 0;
    assert(scan_view(0, facts, errors@, open) == (ScanV { i: 0, facts: empty_facts(), errors: seq![], open: false })) by {
        assert(facts@.defs =~= Seq::<DefFactV>::empty());
        assert(facts@.uses =~= Seq::<UseFactV>::empty());
        assert(facts@.directives_defined =~= Seq::<Seq<char>>::empty());
        assert(facts@.directives_used =~= Seq::<Seq<char>>::empty());
        assert(facts@.roots =~= Seq::<(Seq<char>, Seq<char>)>::empty());
        assert(guest_error_views(errors@) =~= Seq::<GuestErrorV>::empty());
    }
    loop
        invariant
            i <= b@.len(),
            b@ == encode_utf8(src@),
            b@.len() < 0xFFFF_FFF0,
            scan_spec(src@) == scan_from(b@, scan_view(i as int, facts, errors@, open)),
        decreases b@.len() - i,
    {
        let j = skip_trivia(b, i);
        if j >= b.len() {
            return Some((facts, errors));
        }
        let ghost old_facts = facts;
        let ghost old_errors = errors@;
        let ghost old_open = open;
        match token_exec(b, j, &mut facts, &mut errors, &mut open, Ghost(i as int)) {
            None => {
                return None;
            },
            Some(x) => {
                proof {
                    lemma_trivia_end(b@, i as int);
                    lemma_token_progress(b@, j as int, scan_view(i as int, old_facts, old_errors, old_open));
                }
                i = x;
            },
        }
    }
}

} // verus!
