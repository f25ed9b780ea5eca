use vstd::prelude::*;

use crate::scanner::{is_token_char, lemma_no_token_chars_lines, lines_tokens};
use crate::token::{Token, TokenKind, TokenView, token_views};

verus! {

/// The function header and its entry label.
pub open spec fn header() -> Seq<char> {
    "export function w $main() {\n@start\n"@
}

/// The return statement and the end of the function.
pub open spec fn ret_lines() -> Seq<char> {
    "    ret 0\n}\n"@
}

/// The static format-string declaration that closes the module.
pub open spec fn data_line() -> Seq<char> {
    "data $fmt = { b \"compiler output: %d\\n\", b 0 }"@
}

/// The start of a print statement, up to the literal.
pub open spec fn call_prefix() -> Seq<char> {
    "    call $printf(l $fmt, ..., w "@
}

/// The end of a print statement, after the literal.
pub open spec fn call_suffix() -> Seq<char> {
    ")\n"@
}

/// One print statement for the literal text `v`.
pub open spec fn call_line(v: Seq<char>) -> Seq<char> {
    call_prefix() + v + call_suffix()
}

/// The result pattern starts at `i`: a result keyword, an integer literal
/// that carries its text, and a delimiter.
pub open spec fn pattern_at(ts: Seq<TokenView>, i: int) -> bool {
    &&& 0 <= i
    &&& i + 2 < ts.len()
    &&& ts[i].0 == TokenKind::ResultKeyword
    &&& ts[i + 1].0 == TokenKind::IntegerLiteral
    &&& ts[i + 1].1 is Some
    &&& ts[i + 2].0 == TokenKind::Delimiter
}

/// The print statements for the patterns that start at `i` or later, in order.
pub open spec fn call_lines_from(ts: Seq<TokenView>, i: int) -> Seq<char>
    decreases ts.len() - i,
{
    if i < 0 || i >= ts.len() {
        seq![]
    } else if pattern_at(ts, i) {
        call_line(ts[i + 1].1->0) + call_lines_from(ts, i + 1)
    } else {
        call_lines_from(ts, i + 1)
    }
}

/// The print statements of a whole token sequence.
pub open spec fn call_lines(ts: Seq<TokenView>) -> Seq<char> {
    call_lines_from(ts, 0)
}

/// The module text for a token sequence.
pub open spec fn iml_text(ts: Seq<TokenView>) -> Seq<char> {
    header() + call_lines(ts) + ret_lines() + data_line()
}

/// Translates tokens into the module text: one print statement for each
/// occurrence of the result pattern, in token order, inside the fixed
/// skeleton.  Tokens outside the pattern are ignored.
pub fn tokens_to_iml(tokens: &[Token]) -> (r: String)
    ensures
        r@ == iml_text(token_views(tokens@)),
{
    let ghost ts = token_views(tokens@);
    let mut out = String::new();
    out.append("export function w $main() {\n@start\n");
    let mut i: usize = 0;
    while i < tokens.len()
        invariant
            i <= tokens.len(),
            ts == token_views(tokens@),
            out@ + call_lines_from(ts, i as int) == header() + call_lines(ts),
        decreases tokens.len() - i,
    {
        let ghost at = i as int;
        let ghost before = out@;
        if tokens[i].kind == TokenKind::ResultKeyword && i + 1 < tokens.len()
            && tokens[i + 1].kind == TokenKind::IntegerLiteral {
            let temp = &tokens[i + 1].text;
            i = i + 1;
            if i + 1 < tokens.len() && tokens[i + 1].kind == TokenKind::Delimiter {
                match temp {
                    Some(value) => {
                        out.append("    call $printf(l $fmt, ..., w ");
                        out.append(value.as_str());
                        out.append(")\n");
                    },
                    None => {},
                }
            }
            assert(ts[at + 1].0 == TokenKind::IntegerLiteral);
            assert(call_lines_from(ts, at + 1) == call_lines_from(ts, at + 2));
            proof {
                if pattern_at(ts, at) {
                    assert(out@ =~= before + call_line(ts[at + 1].1->0));
                } else {
                    assert(out@ == before);
                }
            }
        }
        i = i + 1;
    }
    out.append("    ret 0\n}\n");
    out.append("data $fmt = { b \"compiler output: %d\\n\", b 0 }");
    out
}

/// Generation is a function of the tokens alone: token sequences with the
/// same views give byte-identical module text.
pub proof fn lemma_generate_deterministic(a: Seq<Token>, b: Seq<Token>)
    requires
        token_views(a) == token_views(b),
    ensures
        iml_text(token_views(a)) == iml_text(token_views(b)),
{
}

/// Where the result pattern starts nowhere, the module holds no print
/// statement: it is the bare skeleton.
pub proof fn lemma_no_pattern_no_calls(ts: Seq<TokenView>)
    requires
        forall|i: int| !pattern_at(ts, i),
    ensures
        iml_text(ts) == header() + ret_lines() + data_line(),
{
    lemma_no_pattern_from(ts, 0);
    assert(header() + call_lines(ts) =~= header());
}

proof fn lemma_no_pattern_from(ts: Seq<TokenView>, i: int)
    requires
        0 <= i,
        forall|j: int| !pattern_at(ts, j),
    ensures
        call_lines_from(ts, i) == Seq::<char>::empty(),
    decreases ts.len() - i,
{
    if i < ts.len() {
        lemma_no_pattern_from(ts, i + 1);
    }
}

/// Input whose lines hold no ASCII letter, digit or quote (only whitespace
/// and punctuation) yields no tokens, and its module is the bare skeleton.
pub proof fn lemma_blank_input(lines: Seq<Seq<char>>)
    requires
        forall|l: int, k: int|
            0 <= l < lines.len() && 0 <= k < lines[l].len() ==> !is_token_char(
                #[trigger] lines[l][k],
            ),
    ensures
        lines_tokens(lines) == Seq::<TokenView>::empty(),
        iml_text(lines_tokens(lines)) == header() + ret_lines() + data_line(),
{
    lemma_no_token_chars_lines(lines);
    lemma_no_pattern_no_calls(lines_tokens(lines));
}

} // verus!
