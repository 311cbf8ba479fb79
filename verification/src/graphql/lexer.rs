//! Tokenizer for GraphQL SDL (type system documents).

use crate::text::{is_alnum_b, is_alpha_b, is_digit_b, lossy_utf8, push_char, string_of, utf8_lossy};
use vstd::prelude::*;

verus! {

#[derive(Clone, Copy, Debug, PartialEq, Eq, Structural)]
pub enum TokKind {
    Name,
    /// `{ } ( ) [ ] ! : = | & @ $ ...` and any other single byte.
    Punct,
    StringLit,
}

#[derive(Debug)]
pub struct Token {
    pub kind: TokKind,
    /// Byte span of this token.
    pub span: (u32, u32),
    pub text: String,
}

#[derive(Debug)]
pub struct LexError {
    pub message: String,
    pub span: (u32, u32),
}

/// A token as the specification sees it: kind, start, end, text.
pub type TokV = (TokKind, int, int, Seq<char>);

/// A lexical error as the specification sees it: message, start, end.
pub type LexErrV = (Seq<char>, int, int);

impl Token {
    pub open spec fn view(&self) -> TokV {
        (self.kind, self.span.0 as int, self.span.1 as int, self.text@)
    }
}

impl LexError {
    pub open spec fn view(&self) -> LexErrV {
        (self.message@, self.span.0 as int, self.span.1 as int)
    }
}

pub open spec fn tok_views(s: Seq<Token>) -> Seq<TokV> {
    s.map_values(|t: Token| t@)
}

pub open spec fn err_views(s: Seq<LexError>) -> Seq<LexErrV> {
    s.map_values(|e: LexError| e@)
}

/// The text of a token's bytes: their characters when they are valid UTF-8,
/// else what `String::from_utf8_lossy` makes of them.
pub open spec fn tok_text(b: Seq<u8>) -> Seq<char> {
    if vstd::utf8::valid_utf8(b) {
        vstd::utf8::decode_utf8(b)
    } else {
        lossy_utf8(b)
    }
}

/// Bytes skipped between tokens (the byte `0xEF` is skipped as well).
pub open spec fn is_blank(c: u8) -> bool {
    c == 32u8 || c == 9u8 || c == 13u8 || c == 10u8 || c == 44u8 || c == 0xEFu8
}

pub open spec fn is_name_byte(c: u8) -> bool {
    is_alnum_b(c) || c == 95u8
}

pub open spec fn is_number_byte(c: u8) -> bool {
    is_alnum_b(c) || c == 46u8
}

/// End of the run of name bytes from `i`.
pub open spec fn name_end(b: Seq<u8>, i: int) -> int
    decreases b.len() - i,
{
    if i >= b.len() || !is_name_byte(b[i]) {
        i
    } else {
        name_end(b, i + 1)
    }
}

/// End of the run of number bytes (alphanumerics and `.`) from `i`.
pub open spec fn number_end(b: Seq<u8>, i: int) -> int
    decreases b.len() - i,
{
    if i >= b.len() || !is_number_byte(b[i]) {
        i
    } else {
        number_end(b, i + 1)
    }
}

/// Position of the `\n` ending a comment that starts at or before `i`.
pub open spec fn comment_end(b: Seq<u8>, i: int) -> int
    decreases b.len() - i,
{
    if i >= b.len() || b[i] == 10u8 {
        i
    } else {
        comment_end(b, i + 1)
    }
}

/// Where a string body scan starting at `i` stops: at the closing `"`, a
/// `\n`, or past the end; a `\\` skips the byte after it.
pub open spec fn string_scan(b: Seq<u8>, i: int) -> int
    decreases b.len() + 1 - i,
{
    if i >= b.len() || b[i] == 34u8 || b[i] == 10u8 {
        i
    } else if b[i] == 92u8 {
        string_scan(b, i + 2)
    } else {
        string_scan(b, i + 1)
    }
}

/// Where the body of a block string from `i` ends: at the first `"""` at or
/// after `i`, or where fewer than three bytes remain.
pub open spec fn block_scan(b: Seq<u8>, i: int) -> int
    decreases b.len() - i,
{
    if i + 2 < b.len() && !(b[i] == 34u8 && b[i + 1] == 34u8 && b[i + 2] == 34u8) {
        block_scan(b, i + 1)
    } else {
        i
    }
}

/// Whether a string literal at `i` is a block string: `"""` with at least
/// one byte after it.
pub open spec fn block_opens(b: Seq<u8>, i: int) -> bool {
    i + 3 < b.len() && b[i + 1] == 34u8 && b[i + 2] == 34u8
}

/// The end of a block string starting at `i`: past its closing `"""`, or the
/// end of the bytes when it is not closed.
pub open spec fn block_end(b: Seq<u8>, i: int) -> int {
    let k = block_scan(b, i + 3);
    if k + 3 <= b.len() {
        k + 3
    } else {
        b.len() as int
    }
}

pub proof fn lemma_runs(b: Seq<u8>, i: int)
    requires
        0 <= i,
    ensures
        i <= name_end(b, i),
        name_end(b, i) <= b.len() || name_end(b, i) == i,
        i <= number_end(b, i),
        number_end(b, i) <= b.len() || number_end(b, i) == i,
        i <= comment_end(b, i),
        comment_end(b, i) <= b.len() || comment_end(b, i) == i,
        i <= string_scan(b, i),
        string_scan(b, i) <= b.len() + 1 || string_scan(b, i) == i,
        i <= block_scan(b, i),
    decreases b.len() + 1 - i,
{
    if i < b.len() {
        lemma_runs(b, i + 1);
        lemma_runs(b, i + 2);
    }
}

/// The tokens and errors of `b[i..]` appended to `toks` / `errs`.
pub open spec fn lex(b: Seq<u8>, i: int, toks: Seq<TokV>, errs: Seq<LexErrV>) -> (Seq<TokV>, Seq<LexErrV>)
    decreases b.len() - i,
{
    if i < 0 || i >= b.len() {
        (toks, errs)
    } else {
        let c = b[i];
        proof {
            lemma_runs(b, i);
            lemma_runs(b, i + 1);
            lemma_runs(b, i + 3);
        }
        if is_blank(c) {
            lex(b, i + 1, toks, errs)
        } else if c == 35u8 {
            lex(b, comment_end(b, i), toks, errs)
        } else if c == 34u8 && block_opens(b, i) {
            let e = block_end(b, i);
            lex(b, e, toks.push((TokKind::StringLit, i, e, tok_text(b.subrange(i, e)))), errs)
        } else if c == 34u8 {
            let j = string_scan(b, i + 1);
            if j < b.len() && b[j] == 34u8 {
                lex(
                    b,
                    j + 1,
                    toks.push((TokKind::StringLit, i, j + 1, tok_text(b.subrange(i, j + 1)))),
                    errs,
                )
            } else {
                (toks, errs.push(("unterminated string literal"@, i, j)))
            }
        } else if is_alpha_b(c) || c == 95u8 {
            let j = name_end(b, i);
            lex(b, j, toks.push((TokKind::Name, i, j, tok_text(b.subrange(i, j)))), errs)
        } else if is_digit_b(c) {
            let j = number_end(b, i);
            lex(b, j, toks.push((TokKind::Name, i, j, tok_text(b.subrange(i, j)))), errs)
        } else if c == 45u8 || c == 43u8 {
            let j = number_end(b, i + 1);
            lex(b, j, toks.push((TokKind::Name, i, j, tok_text(b.subrange(i, j)))), errs)
        } else if c == 46u8 {
            if i + 2 < b.len() && b[i + 1] == 46u8 && b[i + 2] == 46u8 {
                lex(b, i + 3, toks.push((TokKind::Punct, i, i + 3, "..."@)), errs)
            } else {
                lex(
                    b,
                    i + 1,
                    toks.push((TokKind::Punct, i, i + 1, "..."@)),
                    errs.push(("unexpected `.`"@, i, i + 1)),
                )
            }
        } else {
            lex(b, i + 1, toks.push((TokKind::Punct, i, i + 1, seq![c as char])), errs)
        }
    }
}

/// Token spans lie in `0..len`, are not empty, and follow each other
/// without overlap.
pub open spec fn spans_ordered(t: Seq<TokV>, len: int) -> bool {
    &&& forall|k: int| 0 <= k < t.len() ==> 0 <= (#[trigger] t[k]).1 < t[k].2 <= len
    &&& forall|a: int, c: int| 0 <= a < c < t.len() ==> (#[trigger] t[a]).2 <= (#[trigger] t[c]).1
}

proof fn lemma_spans_push(t: Seq<TokV>, len: int, i: int, x: TokV)
    requires
        spans_ordered(t, len),
        forall|k: int| 0 <= k < t.len() ==> (#[trigger] t[k]).2 <= i,
        x.1 == i,
        i < x.2 <= len,
        0 <= i,
    ensures
        spans_ordered(t.push(x), len),
        forall|k: int| 0 <= k < t.push(x).len() ==> (#[trigger] t.push(x)[k]).2 <= x.2,
{
    let u = t.push(x);
    assert forall|k: int| 0 <= k < u.len() implies 0 <= (#[trigger] u[k]).1 < u[k].2 <= len by {
        if k < t.len() {
            assert(u[k] == t[k]);
        }
    }
    assert forall|a: int, c: int| 0 <= a < c < u.len() implies (#[trigger] u[a]).2 <= (#[trigger] u[c]).1 by {
        assert(u[a] == t[a]);
        if c < t.len() {
            assert(u[c] == t[c]);
        }
    }
    assert forall|k: int| 0 <= k < u.len() implies (#[trigger] u[k]).2 <= x.2 by {
        if k < t.len() {
            assert(u[k] == t[k]);
        }
    }
}

proof fn lemma_lex_spans(b: Seq<u8>, i: int, toks: Seq<TokV>, errs: Seq<LexErrV>)
    requires
        0 <= i,
        spans_ordered(toks, b.len() as int),
        forall|k: int| 0 <= k < toks.len() ==> (#[trigger] toks[k]).2 <= i,
    ensures
        spans_ordered(lex(b, i, toks, errs).0, b.len() as int),
    decreases b.len() - i,
{
    if i < b.len() {
        let c = b[i];
        let len = b.len() as int;
        lemma_runs(b, i);
        lemma_runs(b, i + 1);
        lemma_runs(b, i + 3);
        if is_blank(c) {
            lemma_lex_spans(b, i + 1, toks, errs);
        } else if c == 35u8 {
            assert(comment_end(b, i) == comment_end(b, i + 1));
            assert forall|k: int| 0 <= k < toks.len() implies (#[trigger] toks[k]).2 <= comment_end(b, i) by {}
            lemma_lex_spans(b, comment_end(b, i), toks, errs);
        } else if c == 34u8 && block_opens(b, i) {
            let e = block_end(b, i);
            let x = (TokKind::StringLit, i, e, tok_text(b.subrange(i, e)));
            lemma_spans_push(toks, len, i, x);
            lemma_lex_spans(b, e, toks.push(x), errs);
        } else if c == 34u8 {
            let j = string_scan(b, i + 1);
            if j < b.len() && b[j] == 34u8 {
                let x = (TokKind::StringLit, i, j + 1, tok_text(b.subrange(i, j + 1)));
                lemma_spans_push(toks, len, i, x);
                lemma_lex_spans(b, j + 1, toks.push(x), errs);
            }
        } else if is_alpha_b(c) || c == 95u8 {
            let j = name_end(b, i);
            assert(j == name_end(b, i + 1));
            let x = (TokKind::Name, i, j, tok_text(b.subrange(i, j)));
            lemma_spans_push(toks, len, i, x);
            lemma_lex_spans(b, j, toks.push(x), errs);
        } else if is_digit_b(c) {
            let j = number_end(b, i);
            assert(j == number_end(b, i + 1));
            let x = (TokKind::Name, i, j, tok_text(b.subrange(i, j)));
            lemma_spans_push(toks, len, i, x);
            lemma_lex_spans(b, j, toks.push(x), errs);
        } else if c == 45u8 || c == 43u8 {
            let j = number_end(b, i + 1);
            let x = (TokKind::Name, i, j, tok_text(b.subrange(i, j)));
            lemma_spans_push(toks, len, i, x);
            lemma_lex_spans(b, j, toks.push(x), errs);
        } else if c == 46u8 {
            if i + 2 < b.len() && b[i + 1] == 46u8 && b[i + 2] == 46u8 {
                let x = (TokKind::Punct, i, i + 3, "..."@);
                lemma_spans_push(toks, len, i, x);
                lemma_lex_spans(b, i + 3, toks.push(x), errs);
            } else {
                let x = (TokKind::Punct, i, i + 1, "..."@);
                lemma_spans_push(toks, len, i, x);
                lemma_lex_spans(b, i + 1, toks.push(x), errs.push(("unexpected `.`"@, i, i + 1)));
            }
        } else {
            let x = (TokKind::Punct, i, i + 1, seq![c as char]);
            lemma_spans_push(toks, len, i, x);
            lemma_lex_spans(b, i + 1, toks.push(x), errs);
        }
    }
}

/// Every token covers a non-empty span of the source's bytes, and tokens
/// come in source order without overlapping.
pub proof fn law_token_spans_ordered(src: Seq<char>)
    ensures
        spans_ordered(lex_spec(src).0, vstd::utf8::encode_utf8(src).len() as int),
{
    lemma_lex_spans(vstd::utf8::encode_utf8(src), 0, seq![], seq![]);
}

/// The characters of ASCII bytes, one for one.
pub open spec fn ascii_chars(b: Seq<u8>) -> Seq<char> {
    b.map_values(|c: u8| c as char)
}

proof fn lemma_ascii_byte(x: u8)
    requires
        x < 128,
    ensures
        (x & 0x7F) == x,
{
    assert((x & 0x7F) == x) by (bit_vector)
        requires
            x < 128,
    ;
}

proof fn lemma_ascii_scalar(v: u32)
    requires
        v < 128,
    ensures
        ((v & 0x7F) as u8) as u32 == v,
{
    assert(((v & 0x7F) as u8) as u32 == v) by (bit_vector)
        requires
            v < 128,
    ;
}

/// ASCII bytes are valid UTF-8 and decode to their characters.
proof fn lemma_ascii_decode(b: Seq<u8>)
    requires
        forall|k: int| 0 <= k < b.len() ==> #[trigger] b[k] < 128,
    ensures
        vstd::utf8::valid_utf8(b),
        vstd::utf8::decode_utf8(b) == ascii_chars(b),
    decreases b.len(),
{
    if b.len() > 0 {
        let rest = b.subrange(1, b.len() as int);
        assert forall|k: int| 0 <= k < rest.len() implies #[trigger] rest[k] < 128 by {
            assert(rest[k] == b[k + 1]);
        }
        lemma_ascii_decode(rest);
        lemma_ascii_byte(b[0]);
        assert(vstd::utf8::pop_first_scalar(b) == rest);
        assert(ascii_chars(b) =~= seq![b[0] as char] + ascii_chars(rest));
    }
}

/// The UTF-8 encoding of an ASCII text is its characters as bytes.
proof fn lemma_ascii_encode(s: Seq<char>)
    requires
        forall|k: int| 0 <= k < s.len() ==> (#[trigger] s[k] as u32) < 128,
    ensures
        vstd::utf8::encode_utf8(s).len() == s.len(),
        forall|k: int| 0 <= k < s.len() ==> #[trigger] vstd::utf8::encode_utf8(s)[k] as u32 == s[k] as u32,
    decreases s.len(),
{
    if s.len() > 0 {
        let t = s.drop_first();
        assert forall|k: int| 0 <= k < t.len() implies (#[trigger] t[k] as u32) < 128 by {
            assert(t[k] == s[k + 1]);
        }
        lemma_ascii_encode(t);
        lemma_ascii_scalar(s[0] as u32);
        let e = vstd::utf8::encode_utf8(s);
        assert(e == vstd::utf8::encode_scalar(s[0] as u32) + vstd::utf8::encode_utf8(t));
        assert forall|k: int| 0 <= k < s.len() implies #[trigger] e[k] as u32 == s[k] as u32 by {
            if k > 0 {
                assert(e[k] == vstd::utf8::encode_utf8(t)[k - 1]);
                assert(t[k - 1] == s[k]);
            }
        }
    }
}

/// The tokenizer only adds errors.
proof fn lemma_lex_errs_grow(b: Seq<u8>, i: int, toks: Seq<TokV>, errs: Seq<LexErrV>)
    ensures
        lex(b, i, toks, errs).1.len() >= errs.len(),
    decreases b.len() - i,
{
    if 0 <= i < b.len() {
        let c = b[i];
        lemma_runs(b, i);
        lemma_runs(b, i + 1);
        lemma_runs(b, i + 3);
        if is_blank(c) {
            lemma_lex_errs_grow(b, i + 1, toks, errs);
        } else if c == 35u8 {
            lemma_lex_errs_grow(b, comment_end(b, i), toks, errs);
        } else if c == 34u8 && block_opens(b, i) {
            let e = block_end(b, i);
            lemma_lex_errs_grow(b, e, toks.push((TokKind::StringLit, i, e, tok_text(b.subrange(i, e)))), errs);
        } else if c == 34u8 {
            let j = string_scan(b, i + 1);
            if j < b.len() && b[j] == 34u8 {
                lemma_lex_errs_grow(b, j + 1, toks.push((TokKind::StringLit, i, j + 1, tok_text(b.subrange(i, j + 1)))), errs);
            }
        } else if is_alpha_b(c) || c == 95u8 {
            let j = name_end(b, i);
            lemma_lex_errs_grow(b, j, toks.push((TokKind::Name, i, j, tok_text(b.subrange(i, j)))), errs);
        } else if is_digit_b(c) {
            let j = number_end(b, i);
            lemma_lex_errs_grow(b, j, toks.push((TokKind::Name, i, j, tok_text(b.subrange(i, j)))), errs);
        } else if c == 45u8 || c == 43u8 {
            let j = number_end(b, i + 1);
            lemma_lex_errs_grow(b, j, toks.push((TokKind::Name, i, j, tok_text(b.subrange(i, j)))), errs);
        } else if c == 46u8 {
            if i + 2 < b.len() && b[i + 1] == 46u8 && b[i + 2] == 46u8 {
                lemma_lex_errs_grow(b, i + 3, toks.push((TokKind::Punct, i, i + 3, "..."@)), errs);
            } else {
                lemma_lex_errs_grow(b, i + 1, toks.push((TokKind::Punct, i, i + 1, "..."@)), errs.push(("unexpected `.`"@, i, i + 1)));
            }
        } else {
            lemma_lex_errs_grow(b, i + 1, toks.push((TokKind::Punct, i, i + 1, seq![c as char])), errs);
        }
    }
}

proof fn lemma_lex_texts(b: Seq<u8>, i: int, toks: Seq<TokV>, errs: Seq<LexErrV>)
    requires
        0 <= i,
        forall|k: int| 0 <= k < b.len() ==> #[trigger] b[k] < 128,
        forall|k: int| 0 <= k < toks.len() ==> 0 <= (#[trigger] toks[k]).1 <= toks[k].2 <= b.len()
            && toks[k].3 == ascii_chars(b.subrange(toks[k].1, toks[k].2)),
    ensures
        lex(b, i, toks, errs).1.len() == errs.len() ==> forall|k: int| 0 <= k < lex(b, i, toks, errs).0.len()
            ==> (#[trigger] lex(b, i, toks, errs).0[k]).3 == ascii_chars(b.subrange(lex(b, i, toks, errs).0[k].1, lex(b, i, toks, errs).0[k].2)),
    decreases b.len() - i,
{
    if i < b.len() {
        let c = b[i];
        lemma_runs(b, i);
        lemma_runs(b, i + 1);
        lemma_runs(b, i + 3);
        if is_blank(c) {
            lemma_lex_texts(b, i + 1, toks, errs);
        } else if c == 35u8 {
            lemma_lex_texts(b, comment_end(b, i), toks, errs);
        } else {
            let (x, next, errs2): (TokV, int, Seq<LexErrV>) = if c == 34u8 && block_opens(b, i) {
                let e = block_end(b, i);
                ((TokKind::StringLit, i, e, tok_text(b.subrange(i, e))), e, errs)
            } else if c == 34u8 {
                let j = string_scan(b, i + 1);
                ((TokKind::StringLit, i, j + 1, tok_text(b.subrange(i, j + 1))), j + 1, errs)
            } else if is_alpha_b(c) || c == 95u8 {
                let j = name_end(b, i);
                ((TokKind::Name, i, j, tok_text(b.subrange(i, j))), j, errs)
            } else if is_digit_b(c) {
                let j = number_end(b, i);
                ((TokKind::Name, i, j, tok_text(b.subrange(i, j))), j, errs)
            } else if c == 45u8 || c == 43u8 {
                let j = number_end(b, i + 1);
                ((TokKind::Name, i, j, tok_text(b.subrange(i, j))), j, errs)
            } else if c == 46u8 && i + 2 < b.len() && b[i + 1] == 46u8 && b[i + 2] == 46u8 {
                ((TokKind::Punct, i, i + 3, "..."@), i + 3, errs)
            } else if c == 46u8 {
                ((TokKind::Punct, i, i + 1, "..."@), i + 1, errs.push(("unexpected `.`"@, i, i + 1)))
            } else {
                ((TokKind::Punct, i, i + 1, seq![c as char]), i + 1, errs)
            };
            let unterminated = c == 34u8 && !block_opens(b, i) && !(string_scan(b, i + 1) < b.len() && b[string_scan(b, i + 1)] == 34u8);
            if unterminated {
            } else if c == 46u8 && !(i + 2 < b.len() && b[i + 1] == 46u8 && b[i + 2] == 46u8) {
                lemma_lex_errs_grow(b, next, toks.push(x), errs2);
            } else {
                let sub = b.subrange(x.1, x.2);
                assert(x.1 <= x.2 <= b.len());
                assert forall|k: int| 0 <= k < sub.len() implies #[trigger] sub[k] < 128 by {
                    assert(sub[k] == b[x.1 + k]);
                }
                lemma_ascii_decode(sub);
                if c == 46u8 {
                    reveal_strlit("...");
                    assert(ascii_chars(sub) =~= "..."@);
                } else if !(c == 34u8 || is_alpha_b(c) || c == 95u8 || is_digit_b(c) || c == 45u8 || c == 43u8) {
                    assert(ascii_chars(sub) =~= seq![c as char]);
                }
                assert(x.3 == ascii_chars(sub));
                let t2 = toks.push(x);
                assert forall|k: int| 0 <= k < t2.len() implies 0 <= (#[trigger] t2[k]).1 <= t2[k].2 <= b.len()
                    && t2[k].3 == ascii_chars(b.subrange(t2[k].1, t2[k].2)) by {
                    if k < toks.len() {
                        assert(t2[k] == toks[k]);
                    }
                }
                lemma_lex_texts(b, next, t2, errs2);
            }
        }
    }
}

/// On an ASCII source that lexes without error, each token's text is the
/// source's text over the token's span.
pub proof fn law_ascii_token_texts(src: Seq<char>)
    requires
        forall|k: int| 0 <= k < src.len() ==> (#[trigger] src[k] as u32) < 128,
        lex_spec(src).1.len() == 0,
    ensures
        forall|k: int| 0 <= k < lex_spec(src).0.len() ==> (#[trigger] lex_spec(src).0[k]).3 == src.subrange(lex_spec(src).0[k].1, lex_spec(src).0[k].2),
{
    let b = vstd::utf8::encode_utf8(src);
    lemma_ascii_encode(src);
    assert forall|k: int| 0 <= k < b.len() implies #[trigger] b[k] < 128 by {
        assert(b[k] as u32 == src[k] as u32);
    }
    lemma_lex_texts(b, 0, seq![], seq![]);
    lemma_lex_spans(b, 0, seq![], seq![]);
    let t = lex_spec(src).0;
    assert forall|k: int| 0 <= k < t.len() implies (#[trigger] t[k]).3 == src.subrange(t[k].1, t[k].2) by {
        assert(0 <= t[k].1 < t[k].2 <= b.len());
        let sub = b.subrange(t[k].1, t[k].2);
        assert forall|q: int| 0 <= q < sub.len() implies #[trigger] ascii_chars(sub)[q] == src.subrange(t[k].1, t[k].2)[q] by {
            assert(sub[q] == b[t[k].1 + q]);
            assert(b[t[k].1 + q] as u32 == src[t[k].1 + q] as u32);
            vstd::utf8::char_u32_cast(src[t[k].1 + q], b[t[k].1 + q] as u32);
        }
        assert(ascii_chars(sub) =~= src.subrange(t[k].1, t[k].2));
    }
}

/// The tokenizer's outcome on `src`: its tokens and errors.
pub open spec fn lex_spec(src: Seq<char>) -> (Seq<TokV>, Seq<LexErrV>) {
    lex(vstd::utf8::encode_utf8(src), 0, seq![], seq![])
}

/// A source the engine holds: its UTF-8 bytes are fewer than `0xFFFF_FFF0`,
/// so every byte offset, and the position one past an unterminated string,
/// fits a `u32` span.
pub open spec fn fits_source(src: Seq<char>) -> bool {
    vstd::utf8::encode_utf8(src).len() < 0xFFFF_FFF0
}

fn scan_block(b: &[u8], i: usize) -> (k: usize)
    requires
        i <= b@.len(),
        b@.len() < 0xFFFF_FFF0,
    ensures
        k == block_scan(b@, i as int),
        i <= k <= b@.len(),
{
    let mut k = i;
    while k + 2 < b.len() && !(b[k] == 34 && b[k + 1] == 34 && b[k + 2] == 34)
        invariant
            i <= k <= b@.len(),
            b@.len() < 0xFFFF_FFF0,
            block_scan(b@, i as int) == block_scan(b@, k as int),
        decreases b.len() - k,
    {
        k = k + 1;
    }
    k
}

fn scan_name(b: &[u8], i: usize) -> (j: usize)
    requires
        i <= b@.len(),
    ensures
        j == name_end(b@, i as int),
        i <= j <= b@.len(),
{
    let mut j = i;
    while j < b.len() && ((b[j] >= 65 && b[j] <= 90) || (b[j] >= 97 && b[j] <= 122) || (b[j] >= 48
        && b[j] <= 57) || b[j] == 95)
        invariant
            i <= j <= b@.len(),
            name_end(b@, i as int) == name_end(b@, j as int),
        decreases b.len() - j,
    {
        j = j + 1;
    }
    j
}

fn scan_number(b: &[u8], i: usize) -> (j: usize)
    requires
        i <= b@.len(),
    ensures
        j == number_end(b@, i as int),
        i <= j <= b@.len(),
{
    let mut j = i;
    while j < b.len() && ((b[j] >= 65 && b[j] <= 90) || (b[j] >= 97 && b[j] <= 122) || (b[j] >= 48
        && b[j] <= 57) || b[j] == 46)
        invariant
            i <= j <= b@.len(),
            number_end(b@, i as int) == number_end(b@, j as int),
        decreases b.len() - j,
    {
        j = j + 1;
    }
    j
}

fn scan_comment(b: &[u8], i: usize) -> (j: usize)
    requires
        i <= b@.len(),
    ensures
        j == comment_end(b@, i as int),
        i <= j <= b@.len(),
{
    let mut j = i;
    while j < b.len() && b[j] != 10
        invariant
            i <= j <= b@.len(),
            comment_end(b@, i as int) == comment_end(b@, j as int),
        decreases b.len() - j,
    {
        j = j + 1;
    }
    j
}

fn scan_string(b: &[u8], i: usize) -> (j: usize)
    requires
        i <= b@.len(),
        b@.len() < 0xFFFF_FFF0,
    ensures
        j == string_scan(b@, i as int),
        i <= j <= b@.len() + 1,
{
    let mut j = i;
    while j < b.len() && b[j] != 34 && b[j] != 10
        invariant
            i <= j <= b@.len() + 1,
            b@.len() < 0xFFFF_FFF0,
            string_scan(b@, i as int) == string_scan(b@, j as int),
        decreases b.len() + 1 - j,
    {
        if b[j] == 92 {
            j = j + 1;
        }
        j = j + 1;
    }
    j
}

fn text_of(b: &[u8], i: usize, j: usize) -> (r: String)
    requires
        i <= j <= b@.len(),
    ensures
        r@ == tok_text(b@.subrange(i as int, j as int)),
{
    utf8_lossy(vstd::slice::slice_subrange(b, i, j))
}

/// Tokenize SDL. Comments (`#`) are skipped. Strings, block strings
/// (`"""..."""`) among them, keep their quotes in `text`; the span covers the
/// whole literal. A number may carry a leading `-` or `+`. An unterminated
/// string ends the scan; a lone `.` is reported and scanning goes on. Returns the tokens
/// when no error was reported, else the errors.
pub fn tokenize(src: &str) -> (r: Result<Vec<Token>, Vec<LexError>>)
    requires
        fits_source(src@),
    ensures
        ({
            let (toks, errs) = lex_spec(src@);
            match r {
                Ok(ts) => errs.len() == 0 && tok_views(ts@) == toks,
                Err(es) => errs.len() > 0 && err_views(es@) == errs,
            }
        }),
{
    let b = src.as_bytes();
    let ghost bs = b@;
    let mut i: usize = 0;
    let mut toks: Vec<Token> = Vec::new();
    let mut errors: Vec<LexError> = Vec::new();
    let ghost goal = lex_spec(src@);
    assert(tok_views(toks@) =~= seq![]);
    assert(err_views(errors@) =~= seq![]);
    while i < b.len()
        invariant_except_break
            goal == lex(bs, i as int, tok_views(toks@), err_views(errors@)),
        invariant
            b@ == bs,
            bs == vstd::utf8::encode_utf8(src@),
            bs.len() < 0xFFFF_FFF0,
            i <= bs.len(),
            goal == lex_spec(src@),
        ensures
            goal == (tok_views(toks@), err_views(errors@)),
        decreases b.len() - i,
    {
        let c = b[i];
        let ghost tv = tok_views(toks@);
        let ghost ev = err_views(errors@);
        proof {
            lemma_runs(bs, i as int);
            lemma_runs(bs, i + 1);
        }
        if c == 32 || c == 9 || c == 13 || c == 10 || c == 44 || c == 0xEF {
            i = i + 1;
        } else if c == 35 {
            i = scan_comment(b, i);
        } else if c == 34 && i + 3 < b.len() && b[i + 1] == 34 && b[i + 2] == 34 {
            let k = scan_block(b, i + 3);
            let e = if k + 3 <= b.len() { k + 3 } else { b.len() };
            let t = Token { kind: TokKind::StringLit, span: (i as u32, e as u32), text: text_of(b, i, e) };
            toks.push(t);
            assert(tok_views(toks@) == tv.push(t@));
            i = e;
        } else if c == 34 {
            let start = i;
            let j = scan_string(b, i + 1);
            if j < b.len() && b[j] == 34 {
                let t = Token { kind: TokKind::StringLit, span: (start as u32, (j + 1) as u32), text: text_of(b, start, j + 1) };
                toks.push(t);
                assert(tok_views(toks@) == tv.push(t@));
                i = j + 1;
            } else {
                let e = LexError { message: string_of("unterminated string literal"), span: (start as u32, j as u32) };
                errors.push(e);
                assert(err_views(errors@) == ev.push(e@));
                assert(goal == (tv, err_views(errors@)));
                break;
            }
        } else if (c >= 65 && c <= 90) || (c >= 97 && c <= 122) || c == 95 {
            let j = scan_name(b, i);
            let t = Token { kind: TokKind::Name, span: (i as u32, j as u32), text: text_of(b, i, j) };
            toks.push(t);
            assert(tok_views(toks@) == tv.push(t@));
            i = j;
        } else if c >= 48 && c <= 57 {
            let j = scan_number(b, i);
            let t = Token { kind: TokKind::Name, span: (i as u32, j as u32), text: text_of(b, i, j) };
            toks.push(t);
            assert(tok_views(toks@) == tv.push(t@));
            i = j;
        } else if c == 45 || c == 43 {
            let j = scan_number(b, i + 1);
            let t = Token { kind: TokKind::Name, span: (i as u32, j as u32), text: text_of(b, i, j) };
            toks.push(t);
            assert(tok_views(toks@) == tv.push(t@));
            i = j;
        } else if c == 46 {
            if i + 2 < b.len() && b[i + 1] == 46 && b[i + 2] == 46 {
                let t = Token { kind: TokKind::Punct, span: (i as u32, (i + 3) as u32), text: string_of("...") };
                toks.push(t);
                assert(tok_views(toks@) == tv.push(t@));
                i = i + 3;
            } else {
                let t = Token { kind: TokKind::Punct, span: (i as u32, (i + 1) as u32), text: string_of("...") };
                toks.push(t);
                assert(tok_views(toks@) == tv.push(t@));
                let e = LexError { message: string_of("unexpected `.`"), span: (i as u32, (i + 1) as u32) };
                errors.push(e);
                assert(err_views(errors@) == ev.push(e@));
                i = i + 1;
            }
        } else {
            let mut text = String::new();
            push_char(&mut text, c as char);
            let t = Token { kind: TokKind::Punct, span: (i as u32, (i + 1) as u32), text };
            toks.push(t);
            assert(tok_views(toks@) == tv.push(t@));
            i = i + 1;
        }
    }
    if errors.len() == 0 {
        Ok(toks)
    } else {
        Err(errors)
    }
}

} // verus!
