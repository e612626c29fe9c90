//! The byte-level tokenizer of the universal heuristic parser.
//!
//! Identifiers are runs of ASCII letters, digits and underscores that start
//! with a letter or an underscore; nine punctuation bytes become tokens of
//! their own; every other byte is skipped.  Lines and columns are 1-based
//! and count bytes.

use vstd::prelude::*;
use vstd::string::StringSliceAdditionalSpecFns;

verus! {

/// Kinds of tokens.
#[derive(Debug, Clone, Copy, PartialEq, Eq, Structural)]
pub enum TokenKind {
    Ident,
    OpenParen,
    CloseParen,
    OpenBrace,
    CloseBrace,
    Dot,
    Comma,
    Colon,
    LessThan,
    GreaterThan,
}

/// A token with its text and its 1-based position.
#[derive(Debug, Clone)]
pub struct Token {
    pub kind: TokenKind,
    pub text: String,
    pub line: usize,
    pub col: usize,
}

/// The mathematical value of a token.
pub struct SpecToken {
    pub kind: TokenKind,
    pub text: Seq<char>,
    pub line: nat,
    pub col: nat,
}

impl View for Token {
    type V = SpecToken;

    open spec fn view(&self) -> SpecToken {
        SpecToken { kind: self.kind, text: self.text@, line: self.line as nat, col: self.col as nat }
    }
}

/// The views of a list of tokens.
pub open spec fn tokens_view(s: Seq<Token>) -> Seq<SpecToken> {
    s.map_values(|t: Token| t@)
}

pub open spec fn is_ascii_alpha(b: u8) -> bool {
    (65 <= b && b <= 90) || (97 <= b && b <= 122)
}

pub open spec fn is_ascii_digit(b: u8) -> bool {
    48 <= b && b <= 57
}

/// A byte that may start an identifier.
pub open spec fn is_ident_start(b: u8) -> bool {
    is_ascii_alpha(b) || b == 95
}

/// A byte that may continue an identifier.
pub open spec fn is_ident_continue(b: u8) -> bool {
    is_ascii_alpha(b) || is_ascii_digit(b) || b == 95
}

/// The token kind of a punctuation byte, if it is one.
pub open spec fn punct_kind(b: u8) -> Option<TokenKind> {
    if b == 40 {
        Some(TokenKind::OpenParen)
    } else if b == 41 {
        Some(TokenKind::CloseParen)
    } else if b == 123 {
        Some(TokenKind::OpenBrace)
    } else if b == 125 {
        Some(TokenKind::CloseBrace)
    } else if b == 46 {
        Some(TokenKind::Dot)
    } else if b == 44 {
        Some(TokenKind::Comma)
    } else if b == 58 {
        Some(TokenKind::Colon)
    } else if b == 60 {
        Some(TokenKind::LessThan)
    } else if b == 62 {
        Some(TokenKind::GreaterThan)
    } else {
        None
    }
}

/// The characters of a run of ASCII bytes.
pub open spec fn ascii_chars(b: Seq<u8>) -> Seq<char> {
    Seq::new(b.len(), |k: int| b[k] as char)
}

/// The first position at or after `i` that does not continue an identifier.
pub open spec fn ident_end(b: Seq<u8>, i: int) -> int
    decreases b.len() - i,
{
    if 0 <= i < b.len() && is_ident_continue(b[i]) {
        ident_end(b, i + 1)
    } else {
        i
    }
}

pub proof fn lemma_ident_end_bounds(b: Seq<u8>, i: int)
    requires
        0 <= i <= b.len(),
    ensures
        i <= ident_end(b, i) <= b.len(),
        forall|k: int| i <= k < ident_end(b, i) ==> is_ident_continue(#[trigger] b[k]),
    decreases b.len() - i,
{
    if i < b.len() && is_ident_continue(b[i]) {
        lemma_ident_end_bounds(b, i + 1);
    }
}

/// The tokens of `b[i..]`, when the byte at `i` stands at `line`, `col`.
pub open spec fn tokenize_from(b: Seq<u8>, i: int, line: nat, col: nat) -> Seq<SpecToken>
    decreases b.len() - i,
{
    if i < 0 || i >= b.len() {
        seq![]
    } else if b[i] == 10 {
        tokenize_from(b, i + 1, line + 1, 1)
    } else if punct_kind(b[i]) is Some {
        seq![SpecToken { kind: punct_kind(b[i])->0, text: seq![b[i] as char], line, col }]
            + tokenize_from(b, i + 1, line, col + 1)
    } else if is_ident_start(b[i]) {
        let e = ident_end(b, i + 1);
        proof {
            lemma_ident_end_bounds(b, i + 1);
        }
        seq![SpecToken { kind: TokenKind::Ident, text: ascii_chars(b.subrange(i, e)), line, col }]
            + tokenize_from(b, e, line, (col + (e - i)) as nat)
    } else {
        tokenize_from(b, i + 1, line, col + 1)
    }
}

/// The tokens of a whole source text, given as its UTF-8 bytes.
pub open spec fn tokenize_spec(b: Seq<u8>) -> Seq<SpecToken> {
    tokenize_from(b, 0, 1, 1)
}

/// The 1-based line of byte `o`: one more than the newlines before it.
pub open spec fn line_at(b: Seq<u8>, o: int) -> nat
    decreases o,
{
    if o <= 0 {
        1
    } else {
        line_at(b, o - 1) + if b[o - 1] == 10 {
            1nat
        } else {
            0nat
        }
    }
}

/// The 1-based column of byte `o`: its distance from the last newline
/// before it (or from the start of the text).
pub open spec fn col_at(b: Seq<u8>, o: int) -> nat
    decreases o,
{
    if o <= 0 {
        1
    } else if b[o - 1] == 10 {
        1
    } else {
        col_at(b, o - 1) + 1
    }
}

/// Token `t` stands at byte offset `o` of `b`: its line and column are those
/// of the offset, its text is the bytes from there, and either it is an
/// identifier (a byte that starts one, then the longest run that continues
/// it) or a punctuation byte of its kind.
pub open spec fn token_at(b: Seq<u8>, t: SpecToken, o: int) -> bool {
    &&& 0 <= o
    &&& o + t.text.len() <= b.len()
    &&& t.line == line_at(b, o)
    &&& t.col == col_at(b, o)
    &&& t.text == ascii_chars(b.subrange(o, o + t.text.len()))
    &&& if t.kind == TokenKind::Ident {
        is_ident_start(b[o]) && ident_end(b, o + 1) == o + t.text.len()
    } else {
        t.text.len() == 1 && punct_kind(b[o]) == Some(t.kind)
    }
}

/// Offsets `os` place the tokens `ts` in `b` from byte `i` on: one offset
/// per token, each token standing at its offset.
pub open spec fn placed_at(b: Seq<u8>, ts: Seq<SpecToken>, os: Seq<int>, i: int) -> bool {
    &&& os.len() == ts.len()
    &&& forall|k: int| 0 <= k < os.len() ==> i <= #[trigger] os[k] && token_at(b, ts[k], os[k])
}

/// Each token ends before the next one starts.
pub open spec fn placed_in_order(ts: Seq<SpecToken>, os: Seq<int>) -> bool {
    forall|k: int| 0 <= k < os.len() - 1 ==> #[trigger] os[k] + ts[k].text.len() <= os[k + 1]
}

/// Every punctuation byte from `i` on starts a token.
pub open spec fn puncts_covered(b: Seq<u8>, os: Seq<int>, i: int) -> bool {
    forall|o: int|
        i <= o < b.len() && #[trigger] punct_kind(b[o]) is Some ==> exists|k: int| 0 <= k < os.len() && os[k] == o
}

/// Every byte from `i` on that may start an identifier lies inside an
/// identifier token.
pub open spec fn idents_covered(b: Seq<u8>, ts: Seq<SpecToken>, os: Seq<int>, i: int) -> bool {
    forall|o: int|
        i <= o < b.len() && #[trigger] is_ident_start(b[o]) ==> exists|k: int|
            0 <= k < os.len() && ts[k].kind == TokenKind::Ident && os[k] <= o < os[k] + ts[k].text.len()
}

/// Offsets `os` place the tokens `ts` in `b` from byte `i` on: one offset
/// per token, increasing, each token standing at its offset; every
/// punctuation byte from `i` on starts a token, and every byte that may
/// start an identifier lies inside an identifier token.
pub open spec fn tokens_placed(b: Seq<u8>, ts: Seq<SpecToken>, os: Seq<int>, i: int) -> bool {
    &&& placed_at(b, ts, os, i)
    &&& placed_in_order(ts, os)
    &&& puncts_covered(b, os, i)
    &&& idents_covered(b, ts, os, i)
}

proof fn lemma_col_run(b: Seq<u8>, i: int, e: int)
    requires
        0 <= i <= e <= b.len(),
        forall|k: int| i <= k < e ==> #[trigger] b[k] != 10,
    ensures
        col_at(b, e) == col_at(b, i) + (e - i),
        line_at(b, e) == line_at(b, i),
    decreases e - i,
{
    if i < e {
        lemma_col_run(b, i, e - 1);
    }
}

/// The offsets of the tokens of `b[i..]`, in order.
pub open spec fn token_offsets(b: Seq<u8>, i: int) -> Seq<int>
    decreases b.len() - i,
{
    if i < 0 || i >= b.len() {
        seq![]
    } else if b[i] == 10 {
        token_offsets(b, i + 1)
    } else if punct_kind(b[i]) is Some {
        seq![i] + token_offsets(b, i + 1)
    } else if is_ident_start(b[i]) {
        let e = ident_end(b, i + 1);
        proof {
            lemma_ident_end_bounds(b, i + 1);
        }
        seq![i] + token_offsets(b, e)
    } else {
        token_offsets(b, i + 1)
    }
}

proof fn lemma_cons_at(b: Seq<u8>, t: SpecToken, ts: Seq<SpecToken>, os: Seq<int>, i: int, j: int)
    requires
        0 <= i < j,
        token_at(b, t, i),
        placed_at(b, ts, os, j),
    ensures
        placed_at(b, seq![t] + ts, seq![i] + os, i),
{
    let ts2 = seq![t] + ts;
    let os2 = seq![i] + os;
    assert forall|k: int| 0 <= k < os2.len() implies i <= #[trigger] os2[k] && token_at(b, ts2[k], os2[k]) by {
        if k > 0 {
            assert(os2[k] == os[k - 1] && ts2[k] == ts[k - 1]);
        }
    }
}

proof fn lemma_cons_order(b: Seq<u8>, t: SpecToken, ts: Seq<SpecToken>, os: Seq<int>, i: int, j: int)
    requires
        i + t.text.len() == j,
        placed_at(b, ts, os, j),
        placed_in_order(ts, os),
    ensures
        placed_in_order(seq![t] + ts, seq![i] + os),
{
    let ts2 = seq![t] + ts;
    let os2 = seq![i] + os;
    assert forall|k: int| 0 <= k < os2.len() - 1 implies #[trigger] os2[k] + ts2[k].text.len() <= os2[k + 1] by {
        if k > 0 {
            assert(os2[k] == os[k - 1] && ts2[k] == ts[k - 1] && os2[k + 1] == os[k]);
        } else {
            assert(os2[1] == os[0]);
        }
    }
}

proof fn lemma_cons_puncts(b: Seq<u8>, os: Seq<int>, i: int, j: int)
    requires
        i < j,
        puncts_covered(b, os, j),
        forall|o: int| i <= o < j ==> punct_kind(#[trigger] b[o]) is Some ==> o == i,
    ensures
        puncts_covered(b, seq![i] + os, i),
{
    let os2 = seq![i] + os;
    assert forall|o: int| i <= o < b.len() && #[trigger] punct_kind(b[o]) is Some implies exists|k: int|
        0 <= k < os2.len() && os2[k] == o by {
        if o < j {
            assert(os2[0] == o);
        } else {
            let k = choose|k: int| 0 <= k < os.len() && os[k] == o;
            assert(os2[k + 1] == o);
        }
    }
}

proof fn lemma_cons_idents(b: Seq<u8>, t: SpecToken, ts: Seq<SpecToken>, os: Seq<int>, i: int, j: int)
    requires
        i + t.text.len() == j,
        os.len() == ts.len(),
        idents_covered(b, ts, os, j),
        forall|o: int| i <= o < j ==> #[trigger] is_ident_start(b[o]) ==> t.kind == TokenKind::Ident,
    ensures
        idents_covered(b, seq![t] + ts, seq![i] + os, i),
{
    let ts2 = seq![t] + ts;
    let os2 = seq![i] + os;
    assert forall|o: int| i <= o < b.len() && #[trigger] is_ident_start(b[o]) implies exists|k: int|
        0 <= k < os2.len() && ts2[k].kind == TokenKind::Ident && os2[k] <= o < os2[k] + ts2[k].text.len() by {
        if o < j {
            assert(os2[0] == i && ts2[0] == t);
        } else {
            let k = choose|k: int|
                0 <= k < os.len() && ts[k].kind == TokenKind::Ident && os[k] <= o < os[k] + ts[k].text.len();
            assert(os2[k + 1] == os[k] && ts2[k + 1] == ts[k]);
        }
    }
}

proof fn lemma_placed_cons(b: Seq<u8>, t: SpecToken, ts: Seq<SpecToken>, os: Seq<int>, i: int, j: int)
    requires
        0 <= i < j <= b.len(),
        token_at(b, t, i),
        i + t.text.len() == j,
        tokens_placed(b, ts, os, j),
        forall|o: int| i <= o < j ==> punct_kind(#[trigger] b[o]) is Some ==> o == i,
        forall|o: int| i <= o < j ==> #[trigger] is_ident_start(b[o]) ==> t.kind == TokenKind::Ident,
    ensures
        tokens_placed(b, seq![t] + ts, seq![i] + os, i),
{
    lemma_cons_at(b, t, ts, os, i, j);
    lemma_cons_order(b, t, ts, os, i, j);
    lemma_cons_puncts(b, os, i, j);
    lemma_cons_idents(b, t, ts, os, i, j);
}

proof fn lemma_tokens_placed_from(b: Seq<u8>, i: int, line: nat, col: nat)
    requires
        0 <= i <= b.len(),
        line == line_at(b, i),
        col == col_at(b, i),
    ensures
        tokens_placed(b, tokenize_from(b, i, line, col), token_offsets(b, i), i),
    decreases b.len() - i,
{
    let ts = tokenize_from(b, i, line, col);
    let os = token_offsets(b, i);
    if i >= b.len() {
        assert(tokens_placed(b, ts, os, i));
    } else if b[i] == 10 {
        lemma_tokens_placed_from(b, i + 1, line + 1, 1);
        assert(punct_kind(b[i]) is None && !is_ident_start(b[i]));
    } else if punct_kind(b[i]) is Some {
        lemma_tokens_placed_from(b, i + 1, line, col + 1);
        let t = SpecToken { kind: punct_kind(b[i])->0, text: seq![b[i] as char], line, col };
        assert(t.text == ascii_chars(b.subrange(i, i + 1)));
        assert(!is_ident_start(b[i]));
        lemma_placed_cons(b, t, tokenize_from(b, i + 1, line, col + 1), token_offsets(b, i + 1), i, i + 1);
    } else if is_ident_start(b[i]) {
        let e = ident_end(b, i + 1);
        lemma_ident_end_bounds(b, i + 1);
        lemma_col_run(b, i, e);
        lemma_tokens_placed_from(b, e, line, (col + (e - i)) as nat);
        let t = SpecToken { kind: TokenKind::Ident, text: ascii_chars(b.subrange(i, e)), line, col };
        assert(t.text.len() == e - i);
        assert(t.text == ascii_chars(b.subrange(i, i + t.text.len())));
        assert forall|o: int| i <= o < e implies punct_kind(#[trigger] b[o]) is Some ==> o == i by {
            if o > i {
                assert(is_ident_continue(b[o]));
            }
        }
        lemma_placed_cons(b, t, tokenize_from(b, e, line, (col + (e - i)) as nat), token_offsets(b, e), i, e);
    } else {
        lemma_tokens_placed_from(b, i + 1, line, col + 1);
    }
}

/// Every token stands at a byte offset of the text, the offsets increasing
/// along the tokens: its line and column are those of the offset, its text
/// the bytes there, an identifier the longest identifier run from a byte
/// that starts one, any other token a punctuation byte of its kind.  Every
/// punctuation byte of the text starts a token, and every byte that may
/// start an identifier lies inside an identifier token; no other tokens
/// exist.
pub proof fn lemma_tokens_placed(b: Seq<u8>)
    ensures
        exists|os: Seq<int>| tokens_placed(b, tokenize_spec(b), os, 0),
{
    lemma_tokens_placed_from(b, 0, 1, 1);
    assert(tokens_placed(b, tokenize_spec(b), token_offsets(b, 0), 0));
}

/// The string made of the ASCII bytes `src[start..end]`.
#[verifier::external_body]
fn ascii_substring(src: &str, start: usize, end: usize) -> (r: String)
    requires
        start < end <= src.spec_bytes().len(),
        forall|k: int| start <= k < end ==> #[trigger] src.spec_bytes()[k] < 128,
    ensures
        r@ == ascii_chars(src.spec_bytes().subrange(start as int, end as int)),
{
    src[start..end].to_string()
}

/// The one-character string of an ASCII punctuation byte.
fn punct_text(b: u8) -> (r: String)
    requires
        punct_kind(b) is Some,
    ensures
        r@ == seq![b as char],
{
    let s: &str = if b == 40 {
        "("
    } else if b == 41 {
        ")"
    } else if b == 123 {
        "{"
    } else if b == 125 {
        "}"
    } else if b == 46 {
        "."
    } else if b == 44 {
        ","
    } else if b == 58 {
        ":"
    } else if b == 60 {
        "<"
    } else {
        ">"
    };
    proof {
        reveal_strlit("(");
        reveal_strlit(")");
        reveal_strlit("{");
        reveal_strlit("}");
        reveal_strlit(".");
        reveal_strlit(",");
        reveal_strlit(":");
        reveal_strlit("<");
        reveal_strlit(">");
        assert((b as char) as u8 == b);
    }
    s.to_owned()
}

/// Split a source text into tokens.
///
/// The result is exactly [`tokenize_spec`] of the text's UTF-8 bytes.
pub fn tokenize(src: &str) -> (out: Vec<Token>)
    requires
        src.spec_bytes().len() < usize::MAX,
    ensures
        tokens_view(out@) == tokenize_spec(src.spec_bytes()),
{
    let bytes = src.as_bytes();
    let ghost b = src.spec_bytes();
    let n = bytes.len();
    let mut out: Vec<Token> = Vec::new();
    let mut i: usize = 0;
    let mut line: usize = 1;
    let mut col: usize = 1;
    while i < n
        invariant
            bytes@ == b,
            b == src.spec_bytes(),
            n == b.len(),
            n < usize::MAX,
            i <= n,
            1 <= line <= i + 1,
            1 <= col <= i + 1,
            tokens_view(out@) + tokenize_from(b, i as int, line as nat, col as nat) == tokenize_spec(b),
        decreases n - i,
    {
        let c = bytes[i];
        if c == 10 {
            line = line + 1;
            col = 1;
            i = i + 1;
        } else if c == 40 || c == 41 || c == 123 || c == 125 || c == 46 || c == 44 || c == 58 || c == 60
            || c == 62 {
            let kind = if c == 40 {
                TokenKind::OpenParen
            } else if c == 41 {
                TokenKind::CloseParen
            } else if c == 123 {
                TokenKind::OpenBrace
            } else if c == 125 {
                TokenKind::CloseBrace
            } else if c == 46 {
                TokenKind::Dot
            } else if c == 44 {
                TokenKind::Comma
            } else if c == 58 {
                TokenKind::Colon
            } else if c == 60 {
                TokenKind::LessThan
            } else {
                TokenKind::GreaterThan
            };
            let tok = Token { kind, text: punct_text(c), line, col };
            let ghost before = tokens_view(out@);
            out.push(tok);
            proof {
                assert(tokens_view(out@) == before.push(tok@));
                assert(tokenize_from(b, i as int, line as nat, col as nat) == seq![tok@] + tokenize_from(
                    b,
                    i + 1,
                    line as nat,
                    (col + 1) as nat,
                ));
                assert(before.push(tok@) + tokenize_from(b, i + 1, line as nat, (col + 1) as nat) == before
                    + (seq![tok@] + tokenize_from(b, i + 1, line as nat, (col + 1) as nat)));
            }
            i = i + 1;
            col = col + 1;
        } else if (65 <= c && c <= 90) || (97 <= c && c <= 122) || c == 95 {
            let start = i;
            i = i + 1;
            while i < n && ((65 <= bytes[i] && bytes[i] <= 90) || (97 <= bytes[i] && bytes[i] <= 122) || (48
                <= bytes[i] && bytes[i] <= 57) || bytes[i] == 95)
                invariant
                    bytes@ == b,
                    b == src.spec_bytes(),
                    n == b.len(),
                    start < i <= n,
                    ident_end(b, start + 1) == ident_end(b, i as int),
                    forall|k: int| start <= k < i ==> #[trigger] b[k] < 128,
                decreases n - i,
            {
                i = i + 1;
            }
            proof {
                lemma_ident_end_bounds(b, start + 1);
            }
            let text = ascii_substring(src, start, i);
            let tok = Token { kind: TokenKind::Ident, text, line, col };
            let ghost before = tokens_view(out@);
            out.push(tok);
            proof {
                assert(tokens_view(out@) == before.push(tok@));
                let rest = tokenize_from(b, i as int, line as nat, (col + (i - start)) as nat);
                assert(tokenize_from(b, start as int, line as nat, col as nat) == seq![tok@] + rest);
                assert(before.push(tok@) + rest == before + (seq![tok@] + rest));
            }
            col = col + (i - start);
        } else {
            i = i + 1;
            col = col + 1;
        }
    }
    proof {
        assert(tokenize_from(b, i as int, line as nat, col as nat) == Seq::<SpecToken>::empty());
        assert(tokens_view(out@) + Seq::<SpecToken>::empty() == tokens_view(out@));
    }
    out
}

} // verus!
