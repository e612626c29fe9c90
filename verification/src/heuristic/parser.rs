//! Structure-aware extraction of facts from the token stream.
//!
//! The extractor reports
//! * a `Class` fact for every class-like keyword (`class`, `struct`, ...)
//!   followed by a name,
//! * a `Function` fact for every function keyword (`fn`, `def`, ...)
//!   followed by a name,
//! * a `CallSite` fact for every identifier directly followed by `(`, named
//!   by its dotted qualification,
//! * a `Class` fact for every `namespace` followed by a name,
//!
//! and then drops every fact whose (name, line, kind) was already reported.

use vstd::prelude::*;
use vstd::string::StringSliceAdditionalSpecFns;
use crate::common::{Language, NodeKind};
use crate::facts::{RawNode, RawNodeView, facts_view};
use crate::heuristic::tokens::{Token, TokenKind, SpecToken, tokens_view, tokenize, tokenize_spec, tokenize_from, punct_kind, ident_end, is_ident_start, lemma_ident_end_bounds};
use crate::text::{str_is, str_eq, owned};

verus! {

// ---------------------------------------------------------------------------
// Word classes
// ---------------------------------------------------------------------------

pub open spec fn is_class_keyword_spec(s: Seq<char>) -> bool {
    s == "class"@ || s == "struct"@ || s == "interface"@ || s == "trait"@ || s == "enum"@
        || s == "namespace"@ || s == "union"@ || s == "object"@
}

pub open spec fn is_function_keyword_spec(s: Seq<char>) -> bool {
    s == "fn"@ || s == "def"@ || s == "func"@ || s == "function"@ || s == "method"@
}

pub open spec fn is_modifier_word_spec(s: Seq<char>) -> bool {
    s == "public"@ || s == "private"@ || s == "protected"@ || s == "static"@ || s == "final"@
        || s == "abstract"@ || s == "virtual"@ || s == "override"@ || s == "const"@ || s == "inline"@
}

pub open spec fn is_noise_word_spec(s: Seq<char>) -> bool {
    s == "if"@ || s == "for"@ || s == "while"@ || s == "return"@ || s == "true"@ || s == "false"@
        || s == "null"@ || s == "this"@ || s == "self"@
}

pub open spec fn is_valid_call_spec(s: Seq<char>) -> bool {
    s.len() > 0 && !is_noise_word_spec(s)
}

/// Keywords that introduce a class-like declaration.
pub fn is_class_keyword(s: &str) -> (r: bool)
    ensures
        r == is_class_keyword_spec(s@),
{
    str_is(s, "class") || str_is(s, "struct") || str_is(s, "interface") || str_is(s, "trait")
        || str_is(s, "enum") || str_is(s, "namespace") || str_is(s, "union") || str_is(s, "object")
}

/// Keywords that introduce a function declaration.
pub fn is_function_keyword(s: &str) -> (r: bool)
    ensures
        r == is_function_keyword_spec(s@),
{
    str_is(s, "fn") || str_is(s, "def") || str_is(s, "func") || str_is(s, "function") || str_is(
        s,
        "method",
    )
}

/// Modifiers skipped while looking for a declared name.
pub fn is_modifier_word(s: &str) -> (r: bool)
    ensures
        r == is_modifier_word_spec(s@),
{
    str_is(s, "public") || str_is(s, "private") || str_is(s, "protected") || str_is(s, "static")
        || str_is(s, "final") || str_is(s, "abstract") || str_is(s, "virtual") || str_is(s, "override")
        || str_is(s, "const") || str_is(s, "inline")
}

/// Control-flow words and literals that are never declared names or callees.
pub fn is_noise_word(s: &str) -> (r: bool)
    ensures
        r == is_noise_word_spec(s@),
{
    str_is(s, "if") || str_is(s, "for") || str_is(s, "while") || str_is(s, "return") || str_is(
        s,
        "true",
    ) || str_is(s, "false") || str_is(s, "null") || str_is(s, "this") || str_is(s, "self")
}

/// A callee name is kept when it is non-empty and not a noise word.
pub fn is_valid_call(name: &str) -> (r: bool)
    ensures
        r == is_valid_call_spec(name@),
{
    name.unicode_len() != 0 && !is_noise_word(name)
}

// ---------------------------------------------------------------------------
// Markup detection
// ---------------------------------------------------------------------------

pub open spec fn has_prefix(b: Seq<u8>, p: Seq<u8>) -> bool {
    p.len() <= b.len() && b.subrange(0, p.len() as int) == p
}

/// Sources that start like HTML or XML documents are not parsed at all.
pub open spec fn looks_like_markup_spec(b: Seq<u8>) -> bool {
    has_prefix(b, seq![60u8, 104, 116, 109, 108]) || has_prefix(b, seq![60u8, 63, 120, 109, 108])
        || has_prefix(b, seq![60u8, 33, 68, 79, 67, 84, 89, 80, 69])
}

fn starts_with_bytes(b: &[u8], p: &[u8]) -> (r: bool)
    ensures
        r == has_prefix(b@, p@),
{
    if p.len() > b.len() {
        return false;
    }
    let mut i: usize = 0;
    while i < p.len()
        invariant
            p.len() <= b.len(),
            i <= p.len(),
            forall|k: int| 0 <= k < i ==> b@[k] == p@[k],
        decreases p.len() - i,
    {
        if b[i] != p[i] {
            return false;
        }
        i = i + 1;
    }
    assert(b@.subrange(0, p@.len() as int) =~= p@);
    true
}

/// Whether the source looks like an HTML/XML document.
pub fn looks_like_markup(src: &str) -> (r: bool)
    ensures
        r == looks_like_markup_spec(src.spec_bytes()),
{
    let b = src.as_bytes();
    let html: [u8; 5] = [60, 104, 116, 109, 108];
    let xml: [u8; 5] = [60, 63, 120, 109, 108];
    let doctype: [u8; 9] = [60, 33, 68, 79, 67, 84, 89, 80, 69];
    let r1 = starts_with_bytes(b, html.as_slice());
    let r2 = starts_with_bytes(b, xml.as_slice());
    let r3 = starts_with_bytes(b, doctype.as_slice());
    proof {
        assert(html@ =~= seq![60u8, 104, 116, 109, 108]);
        assert(xml@ =~= seq![60u8, 63, 120, 109, 108]);
        assert(doctype@ =~= seq![60u8, 33, 68, 79, 67, 84, 89, 80, 69]);
    }
    r1 || r2 || r3
}

// ---------------------------------------------------------------------------
// Scopes
// ---------------------------------------------------------------------------

/// Brace depth after the first `n` tokens, saturating at both ends of `u32`.
pub open spec fn depth_after(t: Seq<SpecToken>, n: int) -> nat
    decreases n,
{
    if n <= 0 {
        0
    } else {
        let d = depth_after(t, n - 1);
        if t[n - 1].kind == TokenKind::OpenBrace {
            if d >= u32::MAX { d } else { d + 1 }
        } else if t[n - 1].kind == TokenKind::CloseBrace {
            if d == 0 { 0 } else { (d - 1) as nat }
        } else {
            d
        }
    }
}

proof fn lemma_depth_bounded(t: Seq<SpecToken>, n: int)
    ensures
        depth_after(t, n) <= u32::MAX,
    decreases n,
{
    if n > 0 {
        lemma_depth_bounded(t, n - 1);
    }
}

/// For every token, the brace depth right after it.
pub fn build_scope_map(tokens: &Vec<Token>) -> (map: Vec<u32>)
    ensures
        map.len() == tokens.len(),
        forall|i: int| 0 <= i < map.len() ==> map[i] == depth_after(tokens_view(tokens@), i + 1),
{
    let ghost t = tokens_view(tokens@);
    let mut depth: u32 = 0;
    let mut map: Vec<u32> = Vec::new();
    let mut i: usize = 0;
    while i < tokens.len()
        invariant
            t == tokens_view(tokens@),
            i <= tokens.len(),
            map.len() == i,
            depth == depth_after(t, i as int),
            forall|k: int| 0 <= k < i ==> map[k] == depth_after(t, k + 1),
        decreases tokens.len() - i,
    {
        match tokens[i].kind {
            TokenKind::OpenBrace => {
                depth = depth.saturating_add(1);
            },
            TokenKind::CloseBrace => {
                depth = depth.saturating_sub(1);
            },
            _ => {},
        }
        map.push(depth);
        i = i + 1;
    }
    map
}

// ---------------------------------------------------------------------------
// Declared names
// ---------------------------------------------------------------------------

/// Position after the template argument list that opens with the `<` at `i`
/// (tracking nesting), or the end of the tokens.
pub open spec fn skip_template_from(t: Seq<SpecToken>, i: int, depth: nat) -> int
    decreases t.len() - i,
{
    if i < 0 || i >= t.len() {
        i
    } else if t[i].kind == TokenKind::LessThan {
        skip_template_from(t, i + 1, depth + 1)
    } else if t[i].kind == TokenKind::GreaterThan {
        if depth == 0 {
            i
        } else if depth == 1 {
            i + 1
        } else {
            skip_template_from(t, i + 1, (depth - 1) as nat)
        }
    } else {
        skip_template_from(t, i + 1, depth)
    }
}

pub proof fn lemma_skip_template_ge(t: Seq<SpecToken>, i: int, depth: nat)
    requires
        0 <= i,
    ensures
        skip_template_from(t, i, depth) >= i,
        skip_template_from(t, i, depth) <= if i <= t.len() { t.len() as int } else { i },
    decreases t.len() - i,
{
    if i < t.len() {
        if t[i].kind == TokenKind::LessThan {
            lemma_skip_template_ge(t, i + 1, depth + 1);
        } else if t[i].kind == TokenKind::GreaterThan {
            if depth > 1 {
                lemma_skip_template_ge(t, i + 1, (depth - 1) as nat);
            }
        } else {
            lemma_skip_template_ge(t, i + 1, depth);
        }
    }
}

/// The first identifier at or after `i` that is neither a noise word nor a
/// modifier, skipping template argument lists; with its column.
pub open spec fn structural_name_from(t: Seq<SpecToken>, i: int) -> Option<(Seq<char>, nat)>
    decreases t.len() - i,
{
    if i < 0 || i >= t.len() {
        None
    } else if t[i].kind == TokenKind::Ident {
        if is_noise_word_spec(t[i].text) || is_modifier_word_spec(t[i].text) {
            structural_name_from(t, i + 1)
        } else {
            Some((t[i].text, t[i].col))
        }
    } else if t[i].kind == TokenKind::LessThan {
        let j = skip_template_from(t, i, 0);
        proof {
            lemma_skip_template_ge(t, i + 1, 1);
        }
        structural_name_from(t, j)
    } else {
        structural_name_from(t, i + 1)
    }
}

fn skip_template(tokens: &Vec<Token>, start: usize) -> (r: usize)
    requires
        start < tokens.len(),
        tokens@[start as int].kind == TokenKind::LessThan,
    ensures
        r as int == skip_template_from(tokens_view(tokens@), start as int, 0),
        start < r <= tokens.len(),
{
    let ghost t = tokens_view(tokens@);
    let mut depth: usize = 0;
    let mut i = start;
    proof {
        lemma_skip_template_ge(t, start + 1, 1);
    }
    while i < tokens.len()
        invariant
            t == tokens_view(tokens@),
            start <= i <= tokens.len(),
            depth <= i,
            tokens@[start as int].kind == TokenKind::LessThan,
            i == start ==> depth == 0,
            i > start ==> depth >= 1,
            skip_template_from(t, i as int, depth as nat) == skip_template_from(t, start as int, 0),
        decreases tokens.len() - i,
    {
        match tokens[i].kind {
            TokenKind::LessThan => {
                depth = depth + 1;
            },
            TokenKind::GreaterThan => {
                if depth == 0 {
                    return i;
                }
                depth = depth - 1;
                if depth == 0 {
                    return i + 1;
                }
            },
            _ => {},
        }
        i = i + 1;
    }
    i
}

/// Find the declared name that follows a keyword.
pub fn find_structural_name(tokens: &Vec<Token>, start: usize) -> (r: Option<(String, usize)>)
    ensures
        match r {
            Some((name, col)) => structural_name_from(tokens_view(tokens@), start as int) == Some((
                name@,
                col as nat,
            )),
            None => structural_name_from(tokens_view(tokens@), start as int) is None,
        },
{
    let ghost t = tokens_view(tokens@);
    let mut i = start;
    while i < tokens.len()
        invariant
            t == tokens_view(tokens@),
            start <= i,
            structural_name_from(t, i as int) == structural_name_from(t, start as int),
        decreases tokens.len() - i,
    {
        let tok = &tokens[i];
        match tok.kind {
            TokenKind::Ident => {
                if is_noise_word(tok.text.as_str()) || is_modifier_word(tok.text.as_str()) {
                    i = i + 1;
                } else {
                    return Some((tok.text.clone(), tok.col));
                }
            },
            TokenKind::LessThan => {
                i = skip_template(tokens, i);
            },
            _ => {
                i = i + 1;
            },
        }
    }
    None
}

// ---------------------------------------------------------------------------
// Fact constructors
// ---------------------------------------------------------------------------

/// A declaration fact at a token's position.
pub open spec fn decl_fact(kind: NodeKind, name: Seq<char>, line: nat, col: nat, file: Seq<char>) -> RawNodeView {
    RawNodeView {
        language: Language::Unknown,
        kind,
        name: Some(name),
        usr: None,
        start_line: line,
        start_col: col,
        end_line: line,
        end_col: col + 1,
        children: seq![],
        source_file: Some(file),
    }
}

/// A call-site fact at a token's position.
pub open spec fn call_fact(name: Seq<char>, line: nat, col: nat) -> RawNodeView {
    RawNodeView {
        language: Language::Unknown,
        kind: NodeKind::CallSite,
        name: Some(name),
        usr: None,
        start_line: line,
        start_col: col,
        end_line: line,
        end_col: col + 1,
        children: seq![],
        source_file: None,
    }
}

/// Build a declaration fact.
pub fn make_node(kind: NodeKind, name: String, line: usize, col: usize, file: &str) -> (r: RawNode)
    requires
        col < usize::MAX,
    ensures
        r@ == decl_fact(kind, name@, line as nat, col as nat, file@),
{
    let r = RawNode {
        language: Language::Unknown,
        kind,
        name: Some(name),
        usr: None,
        start_line: line,
        start_col: col,
        end_line: line,
        end_col: col + 1,
        children: Vec::new(),
        source_file: Some(owned(file)),
    };
    assert(r.children@ =~= Seq::<usize>::empty());
    r
}

// ---------------------------------------------------------------------------
// Extraction passes
// ---------------------------------------------------------------------------

/// Bound on token columns that keeps `col + 1` representable.
pub open spec fn cols_bounded(t: Seq<SpecToken>) -> bool {
    forall|k: int| 0 <= k < t.len() ==> #[trigger] t[k].col < usize::MAX
}

/// The declaration fact contributed by the token at `i`, if any.
pub open spec fn structure_at(t: Seq<SpecToken>, i: int, file: Seq<char>) -> Seq<RawNodeView> {
    if t[i].kind == TokenKind::Ident && is_class_keyword_spec(t[i].text) && structural_name_from(
        t,
        i + 1,
    ) is Some {
        let (name, col) = structural_name_from(t, i + 1)->0;
        seq![decl_fact(NodeKind::Class, name, t[i].line, col, file)]
    } else if t[i].kind == TokenKind::Ident && is_function_keyword_spec(t[i].text)
        && structural_name_from(t, i + 1) is Some {
        let (name, col) = structural_name_from(t, i + 1)->0;
        seq![decl_fact(NodeKind::Function, name, t[i].line, col, file)]
    } else {
        seq![]
    }
}

/// Declaration facts of the first `n` tokens, in token order.
pub open spec fn structures_upto(t: Seq<SpecToken>, n: int, file: Seq<char>) -> Seq<RawNodeView>
    decreases n,
{
    if n <= 0 {
        seq![]
    } else {
        structures_upto(t, n - 1, file) + structure_at(t, n - 1, file)
    }
}

proof fn lemma_structural_name_col(t: Seq<SpecToken>, i: int)
    requires
        cols_bounded(t),
    ensures
        structural_name_from(t, i) matches Some((n, c)) ==> c < usize::MAX,
    decreases t.len() - i,
{
    if 0 <= i < t.len() {
        if t[i].kind == TokenKind::Ident {
            if is_noise_word_spec(t[i].text) || is_modifier_word_spec(t[i].text) {
                lemma_structural_name_col(t, i + 1);
            }
        } else if t[i].kind == TokenKind::LessThan {
            lemma_skip_template_ge(t, i + 1, 1);
            lemma_structural_name_col(t, skip_template_from(t, i, 0));
        } else {
            lemma_structural_name_col(t, i + 1);
        }
    }
}

/// Append the class and function declarations found in `tokens`.
pub fn extract_structures(tokens: &Vec<Token>, scopes: &Vec<u32>, file: &str, out: &mut Vec<RawNode>)
    requires
        cols_bounded(tokens_view(tokens@)),
    ensures
        facts_view(final(out)@) == facts_view(old(out)@) + structures_upto(
            tokens_view(tokens@),
            tokens.len() as int,
            file@,
        ),
{
    let ghost t = tokens_view(tokens@);
    let ghost start = facts_view(out@);
    let mut i: usize = 0;
    while i < tokens.len()
        invariant
            t == tokens_view(tokens@),
            cols_bounded(t),
            i <= tokens.len(),
            facts_view(out@) == start + structures_upto(t, i as int, file@),
        decreases tokens.len() - i,
    {
        let tok = &tokens[i];
        let ghost before = facts_view(out@);
        proof {
            lemma_structural_name_col(t, i + 1);
        }
        if tok.kind == TokenKind::Ident {
            let word = tok.text.as_str();
            let mut pushed = false;
            if is_class_keyword(word) {
                if let Some((name, col)) = find_structural_name(tokens, i + 1) {
                    let node = make_node(NodeKind::Class, name, tok.line, col, file);
                    out.push(node);
                    pushed = true;
                }
            }
            if !pushed && is_function_keyword(word) {
                if let Some((name, col)) = find_structural_name(tokens, i + 1) {
                    let node = make_node(NodeKind::Function, name, tok.line, col, file);
                    out.push(node);
                }
            }
        }
        proof {
            assert(facts_view(out@) =~= before + structure_at(t, i as int, file@));
            assert(structures_upto(t, i + 1, file@) == structures_upto(t, i as int, file@)
                + structure_at(t, i as int, file@));
        }
        i = i + 1;
    }
}

/// The dotted name parts ending at `pos`, last part first.
pub open spec fn qualified_parts_rev(t: Seq<SpecToken>, pos: int) -> Seq<Seq<char>>
    decreases pos,
{
    if pos <= 0 || pos >= t.len() || t[pos].kind != TokenKind::Ident {
        seq![]
    } else if pos >= 2 && t[pos - 1].kind == TokenKind::Dot {
        seq![t[pos].text] + qualified_parts_rev(t, pos - 2)
    } else {
        seq![t[pos].text]
    }
}

/// Parts joined by `.`.
pub open spec fn join_dot(s: Seq<Seq<char>>) -> Seq<char>
    decreases s.len(),
{
    if s.len() == 0 {
        seq![]
    } else if s.len() == 1 {
        s[0]
    } else {
        join_dot(s.drop_last()) + seq!['.'] + s.last()
    }
}

/// The dotted name of the call whose callee identifier is the token at `pos`.
///
/// The token at position 0 never takes part in a name.
pub open spec fn qualified_name(t: Seq<SpecToken>, pos: int) -> Seq<char> {
    join_dot(qualified_parts_rev(t, pos).reverse())
}

/// The views of a list of strings.
pub open spec fn strings_view(s: Seq<String>) -> Seq<Seq<char>> {
    s.map_values(|x: String| x@)
}

/// Build the dotted callee name that ends at the identifier at `pos`.
pub fn build_qualified(tokens: &Vec<Token>, pos: usize) -> (r: String)
    requires
        pos < tokens.len(),
    ensures
        r@ == qualified_name(tokens_view(tokens@), pos as int),
{
    let ghost t = tokens_view(tokens@);
    let mut parts: Vec<String> = Vec::new();
    let mut p = pos;
    let mut go = true;
    while go && p > 0 && tokens[p].kind == TokenKind::Ident
        invariant
            t == tokens_view(tokens@),
            p < tokens.len(),
            strings_view(parts@) + (if go { qualified_parts_rev(t, p as int) } else { seq![] })
                == qualified_parts_rev(t, pos as int),
        decreases p + if go { 1int } else { 0int },
    {
        let ghost before = strings_view(parts@);
        parts.push(tokens[p].text.clone());
        proof {
            assert(strings_view(parts@) == before.push(t[p as int].text));
        }
        if p >= 2 && tokens[p - 1].kind == TokenKind::Dot {
            proof {
                assert(before.push(t[p as int].text) + qualified_parts_rev(t, p - 2) =~= before + (seq![
                    t[p as int].text,
                ] + qualified_parts_rev(t, p - 2)));
            }
            p = p - 2;
        } else {
            proof {
                assert(before.push(t[p as int].text) + seq![] =~= before + seq![t[p as int].text]);
            }
            go = false;
        }
    }
    proof {
        if go {
            assert(qualified_parts_rev(t, p as int) == Seq::<Seq<char>>::empty());
        }
        assert(strings_view(parts@) =~= qualified_parts_rev(t, pos as int));
    }
    let ghost rev = strings_view(parts@).reverse();
    let m = parts.len();
    let mut name = String::new();
    let mut k: usize = 0;
    while k < m
        invariant
            m == parts.len(),
            rev == strings_view(parts@).reverse(),
            k <= m,
            name@ == join_dot(rev.take(k as int)),
        decreases m - k,
    {
        let part = &parts[m - 1 - k];
        proof {
            reveal_strlit(".");
            assert(rev.take(k + 1).drop_last() =~= rev.take(k as int));
            assert(rev[k as int] == part@);
        }
        if k > 0 {
            name.append(".");
        }
        name.append(part.as_str());
        proof {
            if k == 0 {
                assert(rev.take(1) =~= seq![part@]);
                assert(name@ =~= part@);
            } else {
                assert(name@ =~= join_dot(rev.take(k as int)) + seq!['.'] + part@);
            }
        }
        k = k + 1;
    }
    proof {
        assert(rev.take(m as int) =~= rev);
    }
    name
}

/// The call-site fact contributed by the token at `i`, if any.
pub open spec fn call_at(t: Seq<SpecToken>, i: int) -> Seq<RawNodeView> {
    if i + 1 < t.len() && t[i].kind == TokenKind::Ident && t[i + 1].kind == TokenKind::OpenParen
        && is_valid_call_spec(qualified_name(t, i)) {
        seq![call_fact(qualified_name(t, i), t[i].line, t[i].col)]
    } else {
        seq![]
    }
}

/// Call-site facts of the first `n` tokens.
pub open spec fn calls_upto(t: Seq<SpecToken>, n: int) -> Seq<RawNodeView>
    decreases n,
{
    if n <= 0 {
        seq![]
    } else {
        calls_upto(t, n - 1) + call_at(t, n - 1)
    }
}

/// Append a call-site fact for every identifier directly followed by `(`.
pub fn extract_calls(tokens: &Vec<Token>, out: &mut Vec<RawNode>)
    requires
        cols_bounded(tokens_view(tokens@)),
    ensures
        facts_view(final(out)@) == facts_view(old(out)@) + calls_upto(
            tokens_view(tokens@),
            tokens.len() as int,
        ),
{
    let ghost t = tokens_view(tokens@);
    let ghost start = facts_view(out@);
    let mut i: usize = 0;
    while i + 1 < tokens.len()
        invariant
            t == tokens_view(tokens@),
            cols_bounded(t),
            i <= tokens.len(),
            i == 0 || i < tokens.len(),
            facts_view(out@) == start + calls_upto(t, i as int),
        decreases tokens.len() - i,
    {
        let ghost before = facts_view(out@);
        if tokens[i].kind == TokenKind::Ident && tokens[i + 1].kind == TokenKind::OpenParen {
            let name = build_qualified(tokens, i);
            if is_valid_call(name.as_str()) {
                let tok = &tokens[i];
                let node = RawNode {
                    language: Language::Unknown,
                    kind: NodeKind::CallSite,
                    name: Some(name),
                    usr: None,
                    start_line: tok.line,
                    start_col: tok.col,
                    end_line: tok.line,
                    end_col: tok.col + 1,
                    children: Vec::new(),
                    source_file: None,
                };
                proof {
                    assert(node.children@ =~= Seq::<usize>::empty());
                }
                out.push(node);
            }
        }
        proof {
            assert(facts_view(out@) =~= before + call_at(t, i as int));
        }
        i = i + 1;
    }
    proof {
        if tokens.len() > 0 {
            assert(i + 1 == tokens.len());
            assert(call_at(t, i as int) == Seq::<RawNodeView>::empty());
            assert(calls_upto(t, i + 1) =~= calls_upto(t, i as int));
        }
    }
}

/// The namespace fact contributed by the token at `i`, if any.
pub open spec fn namespace_at(t: Seq<SpecToken>, i: int) -> Seq<RawNodeView> {
    if t[i].text == "namespace"@ && structural_name_from(t, i + 1) is Some {
        let (name, col) = structural_name_from(t, i + 1)->0;
        seq![decl_fact(NodeKind::Class, name, t[i].line, col, seq![])]
    } else {
        seq![]
    }
}

/// Namespace facts of the first `n` tokens.
pub open spec fn namespaces_upto(t: Seq<SpecToken>, n: int) -> Seq<RawNodeView>
    decreases n,
{
    if n <= 0 {
        seq![]
    } else {
        namespaces_upto(t, n - 1) + namespace_at(t, n - 1)
    }
}

/// Append a class fact for every `namespace` followed by a name.
pub fn extract_namespaces(tokens: &Vec<Token>, out: &mut Vec<RawNode>)
    requires
        cols_bounded(tokens_view(tokens@)),
    ensures
        facts_view(final(out)@) == facts_view(old(out)@) + namespaces_upto(
            tokens_view(tokens@),
            tokens.len() as int,
        ),
{
    let ghost t = tokens_view(tokens@);
    let ghost start = facts_view(out@);
    let mut i: usize = 0;
    while i < tokens.len()
        invariant
            t == tokens_view(tokens@),
            cols_bounded(t),
            i <= tokens.len(),
            facts_view(out@) == start + namespaces_upto(t, i as int),
        decreases tokens.len() - i,
    {
        let ghost before = facts_view(out@);
        proof {
            lemma_structural_name_col(t, i + 1);
        }
        if str_is(tokens[i].text.as_str(), "namespace") {
            if let Some((name, col)) = find_structural_name(tokens, i + 1) {
                let node = make_node(NodeKind::Class, name, tokens[i].line, col, "");
                proof {
                    reveal_strlit("");
                    assert(""@ =~= Seq::<char>::empty());
                    assert(node@ == decl_fact(NodeKind::Class, name@, t[i as int].line, col as nat, seq![]));
                    assert(namespace_at(t, i as int) == seq![node@]);
                }
                out.push(node);
            }
        }
        proof {
            assert(facts_view(out@) =~= before + namespace_at(t, i as int));
        }
        i = i + 1;
    }
}

// ---------------------------------------------------------------------------
// Deduplication
// ---------------------------------------------------------------------------

pub open spec fn kind_code(k: NodeKind) -> int {
    match k {
        NodeKind::Function => 1,
        NodeKind::Class => 2,
        NodeKind::CallSite => 3,
        _ => 0,
    }
}

/// The identity of a fact for deduplication: name, start line and kind
/// (kinds other than function, class and call site count as one).
pub open spec fn fact_key(r: RawNodeView) -> (Seq<char>, nat, int) {
    (
        match r.name {
            Some(n) => n,
            None => seq![],
        },
        r.start_line,
        kind_code(r.kind),
    )
}

/// Whether a fact with the same key occurs among the first `n` facts.
pub open spec fn key_seen(s: Seq<RawNodeView>, n: int, k: (Seq<char>, nat, int)) -> bool {
    exists|j: int| 0 <= j < n && #[trigger] fact_key(s[j]) == k
}

/// The first `n` facts without those whose key occurred earlier.
pub open spec fn dedup_upto(s: Seq<RawNodeView>, n: int) -> Seq<RawNodeView>
    decreases n,
{
    if n <= 0 {
        seq![]
    } else if key_seen(s, n - 1, fact_key(s[n - 1])) {
        dedup_upto(s, n - 1)
    } else {
        dedup_upto(s, n - 1).push(s[n - 1])
    }
}

/// All facts without those whose key occurred earlier.
pub open spec fn dedup_spec(s: Seq<RawNodeView>) -> Seq<RawNodeView> {
    dedup_upto(s, s.len() as int)
}

fn kind_code_of(k: NodeKind) -> (r: u8)
    ensures
        r as int == kind_code(k),
{
    match k {
        NodeKind::Function => 1,
        NodeKind::Class => 2,
        NodeKind::CallSite => 3,
        _ => 0,
    }
}

fn name_or_empty(n: &Option<String>) -> (r: &str)
    ensures
        r@ == match n.deep_view() {
            Some(s) => s,
            None => seq![],
        },
{
    match n {
        Some(s) => s.as_str(),
        None => {
            proof {
                reveal_strlit("");
            }
            ""
        },
    }
}

/// Whether two facts have the same deduplication key.
fn same_key(a: &RawNode, b: &RawNode) -> (r: bool)
    ensures
        r == (fact_key(a@) == fact_key(b@)),
{
    a.start_line == b.start_line && kind_code_of(a.kind) == kind_code_of(b.kind) && str_eq(
        name_or_empty(&a.name),
        name_or_empty(&b.name),
    )
}

impl RawNode {
    /// A copy of this fact.
    pub fn duplicate(&self) -> (r: RawNode)
        ensures
            r@ == self@,
    {
        let mut children: Vec<usize> = Vec::new();
        let mut i: usize = 0;
        while i < self.children.len()
            invariant
                i <= self.children.len(),
                children@ == self.children@.take(i as int),
            decreases self.children.len() - i,
        {
            children.push(self.children[i]);
            i = i + 1;
            proof {
                assert(children@ =~= self.children@.take(i as int));
            }
        }
        proof {
            assert(children@ =~= self.children@);
        }
        let name = match &self.name {
            Some(s) => Some(s.clone()),
            None => None,
        };
        let usr = match &self.usr {
            Some(s) => Some(s.clone()),
            None => None,
        };
        let source_file = match &self.source_file {
            Some(s) => Some(s.clone()),
            None => None,
        };
        RawNode {
            language: self.language,
            kind: self.kind,
            name,
            usr,
            start_line: self.start_line,
            start_col: self.start_col,
            end_line: self.end_line,
            end_col: self.end_col,
            children,
            source_file,
        }
    }
}

/// Keep only the first fact of every (name, line, kind) key, in order.
pub fn dedup(facts: &mut Vec<RawNode>)
    ensures
        facts_view(final(facts)@) == dedup_spec(facts_view(old(facts)@)),
{
    let ghost s = facts_view(facts@);
    let mut kept: Vec<RawNode> = Vec::new();
    let mut i: usize = 0;
    while i < facts.len()
        invariant
            s == facts_view(facts@),
            i <= facts.len(),
            facts_view(kept@) == dedup_upto(s, i as int),
        decreases facts.len() - i,
    {
        let mut seen = false;
        let mut j: usize = 0;
        while j < i
            invariant
                s == facts_view(facts@),
                i < facts.len(),
                j <= i,
                seen == key_seen(s, j as int, fact_key(s[i as int])),
            decreases i - j,
        {
            if same_key(&facts[j], &facts[i]) {
                seen = true;
            }
            proof {
                if key_seen(s, j + 1, fact_key(s[i as int])) && !key_seen(s, j as int, fact_key(s[i as int])) {
                    assert(fact_key(s[j as int]) == fact_key(s[i as int]));
                }
                if fact_key(s[j as int]) == fact_key(s[i as int]) {
                    assert(key_seen(s, j + 1, fact_key(s[i as int])));
                }
            }
            j = j + 1;
        }
        if !seen {
            let ghost before = facts_view(kept@);
            kept.push(facts[i].duplicate());
            proof {
                assert(facts_view(kept@) =~= before.push(s[i as int]));
            }
        }
        i = i + 1;
    }
    *facts = kept;
}

// ---------------------------------------------------------------------------
// Entry point
// ---------------------------------------------------------------------------

/// The facts that the universal parser reports for a source text (given as
/// its UTF-8 bytes) found in `file`.
pub open spec fn universal_facts(b: Seq<u8>, file: Seq<char>) -> Seq<RawNodeView> {
    let t = tokenize_spec(b);
    if looks_like_markup_spec(b) || t.len() == 0 {
        seq![]
    } else {
        dedup_spec(
            structures_upto(t, t.len() as int, file) + calls_upto(t, t.len() as int) + namespaces_upto(
                t,
                t.len() as int,
            ),
        )
    }
}

proof fn lemma_tokenize_cols(b: Seq<u8>, i: int, line: nat, col: nat)
    requires
        0 <= i <= b.len(),
        col >= 1,
    ensures
        forall|k: int|
            0 <= k < tokenize_from(b, i, line, col).len() ==> #[trigger] tokenize_from(
                b,
                i,
                line,
                col,
            )[k].col < col + (b.len() - i),
    decreases b.len() - i,
{
    if i < b.len() {
        if b[i] == 10 {
            lemma_tokenize_cols(b, i + 1, line + 1, 1);
        } else if punct_kind(b[i]) is Some {
            lemma_tokenize_cols(b, i + 1, line, col + 1);
            let rest = tokenize_from(b, i + 1, line, col + 1);
            let all = tokenize_from(b, i, line, col);
            assert forall|k: int| 0 <= k < all.len() implies #[trigger] all[k].col < col + (b.len() - i) by {
                if k > 0 {
                    assert(all[k] == rest[k - 1]);
                }
            }
        } else if is_ident_start(b[i]) {
            let e = ident_end(b, i + 1);
            lemma_ident_end_bounds(b, i + 1);
            lemma_tokenize_cols(b, e, line, (col + (e - i)) as nat);
            let rest = tokenize_from(b, e, line, (col + (e - i)) as nat);
            let all = tokenize_from(b, i, line, col);
            assert forall|k: int| 0 <= k < all.len() implies #[trigger] all[k].col < col + (b.len() - i) by {
                if k > 0 {
                    assert(all[k] == rest[k - 1]);
                }
            }
        } else {
            lemma_tokenize_cols(b, i + 1, line, col + 1);
        }
    }
}

/// Deduplication keeps exactly one fact per key: the kept facts have
/// pairwise distinct keys, and every key of the input is kept.
pub proof fn lemma_dedup_keys(s: Seq<RawNodeView>, n: int)
    requires
        0 <= n <= s.len(),
    ensures
        forall|i: int, j: int|
            0 <= i < j < dedup_upto(s, n).len() ==> fact_key(#[trigger] dedup_upto(s, n)[i]) != fact_key(
                #[trigger] dedup_upto(s, n)[j],
            ),
        forall|k: (Seq<char>, nat, int)|
            key_seen(s, n, k) <==> exists|i: int|
                0 <= i < dedup_upto(s, n).len() && fact_key(#[trigger] dedup_upto(s, n)[i]) == k,
    decreases n,
{
    if n > 0 {
        lemma_dedup_keys(s, n - 1);
        let prev = dedup_upto(s, n - 1);
        let cur = dedup_upto(s, n);
        let kl = fact_key(s[n - 1]);
        assert forall|k: (Seq<char>, nat, int)| key_seen(s, n, k) <==> (key_seen(s, n - 1, k) || k == kl) by {
            if key_seen(s, n, k) {
                let j = choose|j: int| 0 <= j < n && #[trigger] fact_key(s[j]) == k;
                if j < n - 1 {
                    assert(key_seen(s, n - 1, k));
                }
            }
            if key_seen(s, n - 1, k) {
                let j = choose|j: int| 0 <= j < n - 1 && #[trigger] fact_key(s[j]) == k;
                assert(key_seen(s, n, k));
            }
            if k == kl {
                assert(fact_key(s[n - 1]) == k);
            }
        }
        if !key_seen(s, n - 1, kl) {
            assert forall|i: int, j: int| 0 <= i < j < cur.len() implies fact_key(#[trigger] cur[i]) != fact_key(
                #[trigger] cur[j],
            ) by {
                if j == cur.len() - 1 {
                    assert(cur[j] == s[n - 1]);
                    assert(cur[i] == prev[i]);
                    if fact_key(prev[i]) == kl {
                        assert(exists|ii: int| 0 <= ii < prev.len() && fact_key(#[trigger] prev[ii]) == kl);
                    }
                } else {
                    assert(cur[i] == prev[i] && cur[j] == prev[j]);
                }
            }
            assert forall|k: (Seq<char>, nat, int)| key_seen(s, n, k) <==> exists|i: int|
                0 <= i < cur.len() && fact_key(#[trigger] cur[i]) == k by {
                if exists|i: int| 0 <= i < cur.len() && fact_key(#[trigger] cur[i]) == k {
                    let i = choose|i: int| 0 <= i < cur.len() && fact_key(#[trigger] cur[i]) == k;
                    if i < prev.len() {
                        assert(cur[i] == prev[i]);
                    }
                }
                if key_seen(s, n - 1, k) {
                    let i = choose|i: int| 0 <= i < prev.len() && fact_key(#[trigger] prev[i]) == k;
                    assert(cur[i] == prev[i]);
                }
                if k == kl {
                    assert(cur[cur.len() - 1] == s[n - 1]);
                }
            }
        } else {
            assert forall|k: (Seq<char>, nat, int)| key_seen(s, n, k) <==> exists|i: int|
                0 <= i < cur.len() && fact_key(#[trigger] cur[i]) == k by {
                if k == kl {
                    assert(key_seen(s, n - 1, k));
                }
            }
        }
    }
}

/// The universal parser never reports two facts with the same name, start
/// line and kind.
pub proof fn lemma_universal_keys_distinct(b: Seq<u8>, file: Seq<char>)
    ensures
        forall|i: int, j: int|
            0 <= i < j < universal_facts(b, file).len() ==> fact_key(#[trigger] universal_facts(b, file)[i])
                != fact_key(#[trigger] universal_facts(b, file)[j]),
{
    let t = tokenize_spec(b);
    if !(looks_like_markup_spec(b) || t.len() == 0) {
        let all = structures_upto(t, t.len() as int, file) + calls_upto(t, t.len() as int) + namespaces_upto(
            t,
            t.len() as int,
        );
        lemma_dedup_keys(all, all.len() as int);
    }
}

/// Parse any source text with the universal heuristic parser.
///
/// The result is exactly [`universal_facts`] of the text's bytes.
pub fn parse_universal(source: &str, file: &str) -> (out: Vec<RawNode>)
    requires
        source.spec_bytes().len() < usize::MAX,
    ensures
        facts_view(out@) == universal_facts(source.spec_bytes(), file@),
{
    if looks_like_markup(source) {
        return Vec::new();
    }
    let tokens = tokenize(source);
    if tokens.len() == 0 {
        return Vec::new();
    }
    let ghost t = tokens_view(tokens@);
    proof {
        lemma_tokenize_cols(source.spec_bytes(), 0, 1, 1);
        assert forall|k: int| 0 <= k < t.len() implies #[trigger] t[k].col < usize::MAX by {
            assert(t[k] == tokenize_spec(source.spec_bytes())[k]);
        }
    }
    let scopes = build_scope_map(&tokens);
    let mut out: Vec<RawNode> = Vec::new();
    proof {
        assert(facts_view(out@) =~= Seq::<RawNodeView>::empty());
    }
    extract_structures(&tokens, &scopes, file, &mut out);
    extract_calls(&tokens, &mut out);
    extract_namespaces(&tokens, &mut out);
    dedup(&mut out);
    proof {
        let s1 = structures_upto(t, t.len() as int, file@);
        assert(Seq::<RawNodeView>::empty() + s1 =~= s1);
    }
    out
}

/// The universal parser reports nothing for markup, nor for a text without
/// tokens.
pub proof fn lemma_universal_empty(b: Seq<u8>, file: Seq<char>)
    ensures
        looks_like_markup_spec(b) || tokenize_spec(b).len() == 0 ==> universal_facts(b, file).len() == 0,
{
}

/// Two fact lists that differ in the source files only.
pub open spec fn same_but_file(a: Seq<RawNodeView>, c: Seq<RawNodeView>) -> bool {
    &&& a.len() == c.len()
    &&& forall|i: int| 0 <= i < a.len() ==> #[trigger] c[i] == RawNodeView { source_file: c[i].source_file, ..a[i] }
}

proof fn lemma_same_but_file_concat(a: Seq<RawNodeView>, c: Seq<RawNodeView>, x: Seq<RawNodeView>, y: Seq<RawNodeView>)
    requires
        same_but_file(a, c),
        same_but_file(x, y),
    ensures
        same_but_file(a + x, c + y),
{
    assert forall|i: int| 0 <= i < (a + x).len() implies #[trigger] (c + y)[i] == RawNodeView {
        source_file: (c + y)[i].source_file,
        ..(a + x)[i]
    } by {
        if i < a.len() {
            assert((c + y)[i] == c[i] && (a + x)[i] == a[i]);
        } else {
            assert((c + y)[i] == y[i - a.len()] && (a + x)[i] == x[i - a.len()]);
        }
    }
}

proof fn lemma_structures_file(t: Seq<SpecToken>, n: int, f1: Seq<char>, f2: Seq<char>)
    ensures
        same_but_file(structures_upto(t, n, f1), structures_upto(t, n, f2)),
    decreases n,
{
    if n > 0 {
        lemma_structures_file(t, n - 1, f1, f2);
        let x = structure_at(t, n - 1, f1);
        let y = structure_at(t, n - 1, f2);
        assert(same_but_file(x, y));
        lemma_same_but_file_concat(structures_upto(t, n - 1, f1), structures_upto(t, n - 1, f2), x, y);
    }
}

proof fn lemma_dedup_file(a: Seq<RawNodeView>, c: Seq<RawNodeView>, n: int)
    requires
        same_but_file(a, c),
        n <= a.len(),
    ensures
        same_but_file(dedup_upto(a, n), dedup_upto(c, n)),
    decreases n,
{
    if n > 0 {
        lemma_dedup_file(a, c, n - 1);
        assert(fact_key(a[n - 1]) == fact_key(c[n - 1]));
        assert(key_seen(a, n - 1, fact_key(a[n - 1])) == key_seen(c, n - 1, fact_key(c[n - 1]))) by {
            if key_seen(a, n - 1, fact_key(a[n - 1])) {
                let j = choose|j: int| 0 <= j < n - 1 && #[trigger] fact_key(a[j]) == fact_key(a[n - 1]);
                assert(fact_key(c[j]) == fact_key(a[j]));
            }
            if key_seen(c, n - 1, fact_key(c[n - 1])) {
                let j = choose|j: int| 0 <= j < n - 1 && #[trigger] fact_key(c[j]) == fact_key(c[n - 1]);
                assert(fact_key(c[j]) == fact_key(a[j]));
            }
        }
        if !key_seen(a, n - 1, fact_key(a[n - 1])) {
            lemma_same_but_file_concat(dedup_upto(a, n - 1), dedup_upto(c, n - 1), seq![a[n - 1]], seq![c[n - 1]]);
            assert(dedup_upto(a, n) =~= dedup_upto(a, n - 1) + seq![a[n - 1]]);
            assert(dedup_upto(c, n) =~= dedup_upto(c, n - 1) + seq![c[n - 1]]);
        }
    }
}

/// The file name given to the universal parser changes nothing but the
/// facts' source files: for two file names the facts are the same, one for
/// one, but for their `source_file`.
pub proof fn lemma_universal_file(b: Seq<u8>, f1: Seq<char>, f2: Seq<char>)
    ensures
        same_but_file(universal_facts(b, f1), universal_facts(b, f2)),
{
    let t = tokenize_spec(b);
    if !(looks_like_markup_spec(b) || t.len() == 0) {
        lemma_structures_file(t, t.len() as int, f1, f2);
        let rest = calls_upto(t, t.len() as int) + namespaces_upto(t, t.len() as int);
        lemma_same_but_file_concat(structures_upto(t, t.len() as int, f1), structures_upto(t, t.len() as int, f2), rest, rest);
        let a = structures_upto(t, t.len() as int, f1) + calls_upto(t, t.len() as int) + namespaces_upto(t, t.len() as int);
        let c = structures_upto(t, t.len() as int, f2) + calls_upto(t, t.len() as int) + namespaces_upto(t, t.len() as int);
        assert(a =~= structures_upto(t, t.len() as int, f1) + rest);
        assert(c =~= structures_upto(t, t.len() as int, f2) + rest);
        lemma_dedup_file(a, c, a.len() as int);
    }
}

/// The shape of every fact of the universal parser: no language, no USR,
/// no children, a one-column range on one line, and either a declaration
/// (a function or a class, with a source file) or a call site (without
/// one).
pub open spec fn universal_shape(x: RawNodeView) -> bool {
    &&& x.language == Language::Unknown
    &&& x.usr is None
    &&& x.children.len() == 0
    &&& x.end_line == x.start_line
    &&& x.end_col == x.start_col + 1
    &&& x.name is Some
    &&& (x.kind == NodeKind::Function || x.kind == NodeKind::Class) == (x.source_file is Some)
    &&& (x.kind == NodeKind::Function || x.kind == NodeKind::Class || x.kind == NodeKind::CallSite)
}

/// Every fact of a list has the universal shape.
pub open spec fn all_shaped(s: Seq<RawNodeView>) -> bool {
    forall|i: int| 0 <= i < s.len() ==> universal_shape(#[trigger] s[i])
}

proof fn lemma_shaped_concat(a: Seq<RawNodeView>, c: Seq<RawNodeView>)
    requires
        all_shaped(a),
        all_shaped(c),
    ensures
        all_shaped(a + c),
{
    assert forall|i: int| 0 <= i < (a + c).len() implies universal_shape(#[trigger] (a + c)[i]) by {
        if i < a.len() {
            assert((a + c)[i] == a[i]);
        } else {
            assert((a + c)[i] == c[i - a.len()]);
        }
    }
}

proof fn lemma_shaped_parts(t: Seq<SpecToken>, n: int, file: Seq<char>)
    ensures
        all_shaped(structures_upto(t, n, file)),
        all_shaped(calls_upto(t, n)),
        all_shaped(namespaces_upto(t, n)),
    decreases n,
{
    if n > 0 {
        lemma_shaped_parts(t, n - 1, file);
        let x = structure_at(t, n - 1, file);
        let y = call_at(t, n - 1);
        let z = namespace_at(t, n - 1);
        assert(all_shaped(x));
        assert(all_shaped(y));
        assert(all_shaped(z));
        lemma_shaped_concat(structures_upto(t, n - 1, file), x);
        lemma_shaped_concat(calls_upto(t, n - 1), y);
        lemma_shaped_concat(namespaces_upto(t, n - 1), z);
    }
}

proof fn lemma_dedup_shaped(s: Seq<RawNodeView>, n: int)
    requires
        all_shaped(s),
        n <= s.len(),
    ensures
        all_shaped(dedup_upto(s, n)),
    decreases n,
{
    if n > 0 {
        lemma_dedup_shaped(s, n - 1);
        if !key_seen(s, n - 1, fact_key(s[n - 1])) {
            lemma_shaped_concat(dedup_upto(s, n - 1), seq![s[n - 1]]);
            assert(dedup_upto(s, n) =~= dedup_upto(s, n - 1) + seq![s[n - 1]]);
        }
    }
}

/// Every fact that the universal parser reports has the universal shape.
pub proof fn lemma_universal_shape(b: Seq<u8>, file: Seq<char>)
    ensures
        all_shaped(universal_facts(b, file)),
{
    let t = tokenize_spec(b);
    if !(looks_like_markup_spec(b) || t.len() == 0) {
        let n = t.len() as int;
        lemma_shaped_parts(t, n, file);
        lemma_shaped_concat(structures_upto(t, n, file), calls_upto(t, n));
        lemma_shaped_concat(structures_upto(t, n, file) + calls_upto(t, n), namespaces_upto(t, n));
        let a = structures_upto(t, n, file) + calls_upto(t, n) + namespaces_upto(t, n);
        lemma_dedup_shaped(a, a.len() as int);
    }
}

/// The nesting of template brackets over the tokens from `o` up to `k`:
/// the number of `<` less the number of `>`.
pub open spec fn nest(t: Seq<SpecToken>, o: int, k: int) -> int
    decreases k - o,
{
    if k <= o {
        0
    } else {
        nest(t, o, k - 1) + if t[k - 1].kind == TokenKind::LessThan {
            1int
        } else if t[k - 1].kind == TokenKind::GreaterThan {
            -1int
        } else {
            0int
        }
    }
}

proof fn lemma_skip_step(t: Seq<SpecToken>, i: int, d: nat)
    requires
        0 <= i < t.len(),
    ensures
        t[i].kind == TokenKind::LessThan ==> skip_template_from(t, i, d) == skip_template_from(t, i + 1, d + 1),
        t[i].kind == TokenKind::GreaterThan && d == 1 ==> skip_template_from(t, i, d) == i + 1,
        t[i].kind == TokenKind::GreaterThan && d > 1 ==> skip_template_from(t, i, d) == skip_template_from(
            t,
            i + 1,
            (d - 1) as nat,
        ),
        t[i].kind != TokenKind::LessThan && t[i].kind != TokenKind::GreaterThan ==> skip_template_from(t, i, d)
            == skip_template_from(t, i + 1, d),
{
}

proof fn lemma_skip_nest(t: Seq<SpecToken>, o: int, i: int, d: nat)
    requires
        0 <= o < i <= t.len(),
        d >= 1,
        nest(t, o, i) == d,
    ensures
        ({
            let r = skip_template_from(t, i, d);
            ||| (r == t.len() && forall|k: int| i <= k <= t.len() ==> #[trigger] nest(t, o, k) >= 1)
            ||| (i < r <= t.len() && t[r - 1].kind == TokenKind::GreaterThan && nest(t, o, r) == 0 && forall|k: int|
                i <= k < r ==> #[trigger] nest(t, o, k) >= 1)
        }),
    decreases t.len() - i,
{
    if i < t.len() {
        lemma_skip_step(t, i, d);
        assert(nest(t, o, i + 1) == nest(t, o, i) + if t[i].kind == TokenKind::LessThan {
            1int
        } else if t[i].kind == TokenKind::GreaterThan {
            -1int
        } else {
            0int
        });
        if t[i].kind == TokenKind::LessThan {
            lemma_skip_nest(t, o, i + 1, d + 1);
            assert(skip_template_from(t, i, d) == skip_template_from(t, i + 1, d + 1));
        } else if t[i].kind == TokenKind::GreaterThan {
            if d > 1 {
                lemma_skip_nest(t, o, i + 1, (d - 1) as nat);
                assert(skip_template_from(t, i, d) == skip_template_from(t, i + 1, (d - 1) as nat));
            } else {
                assert(skip_template_from(t, i, d) == i + 1);
                assert forall|k: int| i <= k < i + 1 implies #[trigger] nest(t, o, k) >= 1 by {
                    assert(k == i);
                }
            }
        } else {
            lemma_skip_nest(t, o, i + 1, d);
            assert(skip_template_from(t, i, d) == skip_template_from(t, i + 1, d));
        }
    } else {
        assert(skip_template_from(t, i, d) == i);
        assert forall|k: int| i <= k <= t.len() implies #[trigger] nest(t, o, k) >= 1 by {
            assert(k == i);
        }
    }
}

/// Skipping a template argument list ends just after the `>` that closes
/// the `<` at `start`: the nesting returns to zero there for the first time.
/// Without such a `>`, the skip runs to the end of the tokens, the nesting
/// staying open all along.
pub proof fn lemma_skip_template_matches(t: Seq<SpecToken>, start: int)
    requires
        0 <= start < t.len(),
        t[start].kind == TokenKind::LessThan,
    ensures
        ({
            let r = skip_template_from(t, start, 0);
            ||| (r == t.len() && forall|k: int| start < k <= t.len() ==> #[trigger] nest(t, start, k) >= 1)
            ||| (start < r <= t.len() && t[r - 1].kind == TokenKind::GreaterThan && nest(t, start, r) == 0
                && forall|k: int| start < k < r ==> #[trigger] nest(t, start, k) >= 1)
        }),
{
    assert(nest(t, start, start) == 0);
    assert(nest(t, start, start + 1) == 1);
    assert(skip_template_from(t, start, 0) == skip_template_from(t, start + 1, 1));
    lemma_skip_nest(t, start, start + 1, 1);
}

} // verus!
