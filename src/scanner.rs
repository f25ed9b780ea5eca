use vstd::prelude::*;
use vstd::std_specs::iter::IteratorSpec;

use crate::token::{Token, TokenKind, TokenView, token_views};

verus! {

/// ASCII letters and decimal digits.
pub open spec fn is_ascii_alnum(c: char) -> bool {
    ('a' <= c && c <= 'z') || ('A' <= c && c <= 'Z') || ('0' <= c && c <= '9')
}

/// ASCII decimal digits.
pub open spec fn is_digit(c: char) -> bool {
    '0' <= c && c <= '9'
}

/// A character that the scanner takes into its buffer; every other one is dropped.
pub open spec fn is_token_char(c: char) -> bool {
    is_ascii_alnum(c) || c == '\''
}

/// The kind of a buffer that is exactly one of the fixed keywords.
pub open spec fn keyword_kind(b: Seq<char>) -> Option<TokenKind> {
    if b == seq!['i', 'f'] {
        Some(TokenKind::If)
    } else if b == seq!['e', 'l', 's', 'e'] {
        Some(TokenKind::Else)
    } else if b == seq!['w', 'h', 'i', 'l', 'e'] {
        Some(TokenKind::While)
    } else if b == seq!['r', 'i', 'z'] {
        Some(TokenKind::RizKeyword)
    } else if b == seq!['\''] {
        Some(TokenKind::Delimiter)
    } else if b == seq!['r', 'e', 's', 'u', 'l', 't'] {
        Some(TokenKind::ResultKeyword)
    } else {
        None
    }
}

/// The number written by a sequence of decimal digits.
pub open spec fn digits_value(d: Seq<char>) -> int
    decreases d.len(),
{
    if d.len() == 0 {
        0
    } else {
        digits_value(d.drop_last()) * 10 + (d.last() as int - '0' as int)
    }
}

/// Every character of `d` is a decimal digit.
pub open spec fn all_digits(d: Seq<char>) -> bool {
    forall|k: int| 0 <= k < d.len() ==> is_digit(#[trigger] d[k])
}

/// The digits of a numeral: what follows an optional leading `+`.
pub open spec fn numeral_digits(b: Seq<char>) -> Seq<char> {
    if b.len() > 0 && b[0] == '+' {
        b.drop_first()
    } else {
        b
    }
}

/// Text that reads as an unsigned 32-bit integer: an optional `+`, then one or
/// more decimal digits whose value is at most `u32::MAX`.
pub open spec fn is_u32_text(b: Seq<char>) -> bool {
    let d = numeral_digits(b);
    &&& d.len() > 0
    &&& all_digits(d)
    &&& digits_value(d) <= u32::MAX
}

/// How a buffer is classified: a keyword first, then an integer literal.
pub open spec fn classify(b: Seq<char>) -> Option<TokenKind> {
    match keyword_kind(b) {
        Some(k) => Some(k),
        None => if is_u32_text(b) {
            Some(TokenKind::IntegerLiteral)
        } else {
            None
        },
    }
}

/// The length of the run of digits in `s` that starts at `i`.
pub open spec fn digit_run_len(s: Seq<char>, i: int) -> nat
    decreases s.len() - i,
{
    if 0 <= i < s.len() && is_digit(s[i]) {
        1 + digit_run_len(s, i + 1)
    } else {
        0
    }
}

/// A run of digits stays within the line.
pub proof fn lemma_digit_run_bound(s: Seq<char>, i: int)
    requires
        0 <= i <= s.len(),
    ensures
        i + digit_run_len(s, i) <= s.len(),
    decreases s.len() - i,
{
    if i < s.len() && is_digit(s[i]) {
        lemma_digit_run_bound(s, i + 1);
    }
}

/// The tokens that the rest of line `s` yields from position `i` on, with `buf`
/// accumulated so far.  A token character is taken together with the digits
/// right after it; the buffer is then classified, and on success emitted and
/// cleared.  What is left in the buffer at the end of the line is dropped.
pub open spec fn scan_from(s: Seq<char>, i: int, buf: Seq<char>) -> Seq<TokenView>
    decreases s.len() - i,
{
    if i < 0 || i >= s.len() {
        seq![]
    } else if !is_token_char(s[i]) {
        scan_from(s, i + 1, buf)
    } else {
        proof {
            lemma_digit_run_bound(s, i + 1);
        }
        let j = i + 1 + digit_run_len(s, i + 1);
        let grown = buf + s.subrange(i, j);
        match classify(grown) {
            Some(k) => seq![(k, Some(grown))] + scan_from(s, j, seq![]),
            None => scan_from(s, j, grown),
        }
    }
}

/// The tokens of one line.
pub open spec fn line_tokens(s: Seq<char>) -> Seq<TokenView> {
    scan_from(s, 0, seq![])
}

/// The tokens of a sequence of lines: each line on its own, concatenated in order.
pub open spec fn lines_tokens(lines: Seq<Seq<char>>) -> Seq<TokenView>
    decreases lines.len(),
{
    if lines.len() == 0 {
        seq![]
    } else {
        lines_tokens(lines.drop_last()) + line_tokens(lines.last())
    }
}

/// The characters of `s`, in order.
fn chars_of(s: &str) -> (r: Vec<char>)
    ensures
        r@ == s@,
{
    let mut iter = s.chars();
    let mut r: Vec<char> = Vec::new();
    loop
        invariant
            r@ + iter.remaining() == s@,
            iter.decrease() is Some,
        ensures
            r@ == s@,
        decreases iter.decrease()->0,
    {
        match iter.next() {
            Some(c) => {
                r.push(c);
            },
            None => {
                break;
            },
        }
    }
    r
}

fn check_digit(c: char) -> (r: bool)
    ensures
        r == is_digit(c),
{
    '0' <= c && c <= '9'
}

fn check_token_char(c: char) -> (r: bool)
    ensures
        r == is_token_char(c),
{
    ('a' <= c && c <= 'z') || ('A' <= c && c <= 'Z') || ('0' <= c && c <= '9') || c == '\''
}

/// Whether `cs` is exactly `word`.
fn same_chars<const N: usize>(cs: &Vec<char>, word: &[char; N]) -> (r: bool)
    ensures
        r == (cs@ == word@),
{
    if cs.len() != word.len() {
        return false;
    }
    let mut i: usize = 0;
    while i < cs.len()
        invariant
            cs.len() == word.len(),
            i <= cs.len(),
            forall|k: int| 0 <= k < i ==> cs@[k] == word@[k],
        decreases cs.len() - i,
    {
        if cs[i] != word[i] {
            return false;
        }
        i = i + 1;
    }
    assert(cs@ =~= word@);
    true
}

/// The value of a prefix of a digit sequence is at most the value of the whole.
proof fn lemma_digits_prefix_value(d: Seq<char>, k: int)
    requires
        0 <= k <= d.len(),
        all_digits(d),
    ensures
        0 <= digits_value(d.subrange(0, k)) <= digits_value(d),
    decreases d.len() - k,
{
    if k == d.len() {
        assert(d.subrange(0, k) =~= d);
        lemma_digits_value_nonneg(d);
    } else {
        let e = d.drop_last();
        assert(all_digits(e)) by {
            assert forall|m: int| 0 <= m < e.len() implies is_digit(#[trigger] e[m]) by {
                assert(e[m] == d[m]);
            }
        }
        lemma_digits_prefix_value(e, k);
        assert(e.subrange(0, k) =~= d.subrange(0, k));
        lemma_digits_value_nonneg(e);
    }
}

/// A digit sequence has a non-negative value.
proof fn lemma_digits_value_nonneg(d: Seq<char>)
    requires
        all_digits(d),
    ensures
        digits_value(d) >= 0,
    decreases d.len(),
{
    if d.len() > 0 {
        let e = d.drop_last();
        assert(all_digits(e)) by {
            assert forall|m: int| 0 <= m < e.len() implies is_digit(#[trigger] e[m]) by {
                assert(e[m] == d[m]);
            }
        }
        lemma_digits_value_nonneg(e);
        assert(is_digit(d[d.len() - 1]));
    }
}

/// Whether `cs` reads as an unsigned 32-bit integer.
fn is_u32_numeral(cs: &Vec<char>) -> (r: bool)
    ensures
        r == is_u32_text(cs@),
{
    let start: usize = if cs.len() > 0 && cs[0] == '+' {
        1
    } else {
        0
    };
    let ghost d = numeral_digits(cs@);
    assert(d =~= cs@.subrange(start as int, cs@.len() as int));
    if start >= cs.len() {
        return false;
    }
    let mut value: u64 = 0;
    let mut i: usize = start;
    while i < cs.len()
        invariant
            start <= i <= cs.len(),
            d == numeral_digits(cs@),
            d == cs@.subrange(start as int, cs@.len() as int),
            forall|k: int| start <= k < i ==> is_digit(#[trigger] cs@[k]),
            value as int == digits_value(cs@.subrange(start as int, i as int)),
            value <= u32::MAX,
        decreases cs.len() - i,
    {
        let c = cs[i];
        if !check_digit(c) {
            assert(d[i - start] == c);
            assert(!all_digits(d));
            return false;
        }
        value = value * 10 + (c as u64 - '0' as u64);
        assert(cs@.subrange(start as int, i + 1).drop_last() =~= cs@.subrange(start as int, i as int));
        i = i + 1;
        if value > u32::MAX as u64 {
            proof {
                if all_digits(d) {
                    lemma_digits_prefix_value(d, i - start);
                    assert(d.subrange(0, i - start) =~= cs@.subrange(start as int, i as int));
                }
            }
            return false;
        }
    }
    assert(cs@.subrange(start as int, i as int) =~= d);
    assert forall|m: int| 0 <= m < d.len() implies is_digit(#[trigger] d[m]) by {
        assert(d[m] == cs@[start + m]);
    }
    true
}

/// Classifies a buffer: one of the fixed keywords by exact match, else an
/// integer literal where the whole buffer reads as a `u32`, else nothing.
/// The buffer is left as it is.
pub fn match_identifiers(buf: &mut String) -> (r: Option<TokenKind>)
    ensures
        *final(buf) == *old(buf),
        r == classify(old(buf)@),
{
    let cs = chars_of(buf.as_str());
    let w_if = ['i', 'f'];
    let w_else = ['e', 'l', 's', 'e'];
    let w_while = ['w', 'h', 'i', 'l', 'e'];
    let w_riz = ['r', 'i', 'z'];
    let w_quote = ['\''];
    let w_result = ['r', 'e', 's', 'u', 'l', 't'];
    assert(w_if@ =~= seq!['i', 'f']);
    assert(w_else@ =~= seq!['e', 'l', 's', 'e']);
    assert(w_while@ =~= seq!['w', 'h', 'i', 'l', 'e']);
    assert(w_riz@ =~= seq!['r', 'i', 'z']);
    assert(w_quote@ =~= seq!['\'']);
    assert(w_result@ =~= seq!['r', 'e', 's', 'u', 'l', 't']);
    let kind = if same_chars(&cs, &w_if) {
        TokenKind::If
    } else if same_chars(&cs, &w_else) {
        TokenKind::Else
    } else if same_chars(&cs, &w_while) {
        TokenKind::While
    } else if same_chars(&cs, &w_riz) {
        TokenKind::RizKeyword
    } else if same_chars(&cs, &w_quote) {
        TokenKind::Delimiter
    } else if same_chars(&cs, &w_result) {
        TokenKind::ResultKeyword
    } else {
        TokenKind::Unrecognized
    };
    if kind == TokenKind::Unrecognized {
        if is_u32_numeral(&cs) {
            return Some(TokenKind::IntegerLiteral);
        }
        return None;
    }
    Some(kind)
}

/// Relies on `String::push`: appends one character to the string.
#[verifier::external_body]
fn push_char(s: &mut String, c: char)
    ensures
        final(s)@ == old(s)@.push(c),
{
    s.push(c)
}

/// Tokenizes one line on its own: the result is exactly `line_tokens(input@)`.
/// Characters other than ASCII letters, digits and the quote are dropped, and
/// an unclassified buffer left at the end of the line is discarded.
pub fn tokenize_line(input: &str) -> (r: Vec<Token>)
    ensures
        token_views(r@) == line_tokens(input@),
{
    let cs = chars_of(input);
    let mut tokens: Vec<Token> = Vec::new();
    let mut buf = String::new();
    let mut i: usize = 0;
    while i < cs.len()
        invariant
            i <= cs.len(),
            cs@ == input@,
            token_views(tokens@) + scan_from(cs@, i as int, buf@) == line_tokens(input@),
        decreases cs.len() - i,
    {
        let c = cs[i];
        let ghost at = i as int;
        let ghost before = buf@;
        i = i + 1;
        if check_token_char(c) {
            push_char(&mut buf, c);
            let start: usize = i;
            proof {
                lemma_digit_run_bound(cs@, start as int);
            }
            while i < cs.len() && check_digit(cs[i])
                invariant
                    0 <= at,
                    start == at + 1,
                    start <= i <= cs.len(),
                    digit_run_len(cs@, start as int) == (i - start) + digit_run_len(cs@, i as int),
                    buf@ == before + cs@.subrange(at, i as int),
                decreases cs.len() - i,
            {
                push_char(&mut buf, cs[i]);
                assert(cs@.subrange(at, i + 1) =~= cs@.subrange(at, i as int).push(cs@[i as int]));
                i = i + 1;
            }
            assert(scan_from(cs@, at, before) == match classify(buf@) {
                Some(k) => seq![(k, Some(buf@))] + scan_from(cs@, i as int, seq![]),
                None => scan_from(cs@, i as int, buf@),
            });
            match match_identifiers(&mut buf) {
                Some(kind) => {
                    let ghost old_tokens = tokens@;
                    tokens.push(Token { kind, text: Some(buf) });
                    assert(token_views(tokens@) =~= token_views(old_tokens) + seq![(kind, Some(buf@))]);
                    buf = String::new();
                    assert(buf@ =~= Seq::<char>::empty());
                },
                None => {},
            }
        }
    }
    tokens
}

/// The characters of each line, in order.
pub open spec fn line_views(lines: Seq<String>) -> Seq<Seq<char>> {
    lines.map_values(|l: String| l@)
}

/// Tokenizes a sequence of lines: each line on its own, with no state carried
/// from one line to the next, and the results concatenated in line order.
pub fn tokenize_lines(lines: &[String]) -> (r: Vec<Token>)
    ensures
        token_views(r@) == lines_tokens(line_views(lines@)),
{
    let mut tokens: Vec<Token> = Vec::new();
    let mut i: usize = 0;
    while i < lines.len()
        invariant
            i <= lines.len(),
            token_views(tokens@) == lines_tokens(line_views(lines@).take(i as int)),
        decreases lines.len() - i,
    {
        let mut line_tokens_vec = tokenize_line(lines[i].as_str());
        let ghost old_tokens = tokens@;
        let ghost added = line_tokens_vec@;
        tokens.append(&mut line_tokens_vec);
        assert(token_views(tokens@) =~= token_views(old_tokens) + token_views(added));
        assert(line_views(lines@).take(i + 1).drop_last() =~= line_views(lines@).take(i as int));
        i = i + 1;
    }
    assert(line_views(lines@).take(i as int) =~= line_views(lines@));
    tokens
}

/// Lines are tokenized independently: the tokens of two runs of lines, one
/// after the other, are the tokens of the first run followed by those of the
/// second.
pub proof fn lemma_lines_tokens_concat(a: Seq<Seq<char>>, b: Seq<Seq<char>>)
    ensures
        lines_tokens(a + b) == lines_tokens(a) + lines_tokens(b),
    decreases b.len(),
{
    if b.len() == 0 {
        assert(a + b =~= a);
        assert(lines_tokens(a) + lines_tokens(b) =~= lines_tokens(a));
    } else {
        lemma_lines_tokens_concat(a, b.drop_last());
        assert((a + b).drop_last() =~= a + b.drop_last());
        assert((a + b).last() == b.last());
        assert(lines_tokens(a + b) =~= lines_tokens(a) + lines_tokens(b));
    }
}

/// Two lines yield the tokens of the first line alone followed by the tokens
/// of the second line alone: no partial buffer leaks across the line break.
pub proof fn lemma_two_lines_tokens(l1: Seq<char>, l2: Seq<char>)
    ensures
        lines_tokens(seq![l1, l2]) == line_tokens(l1) + line_tokens(l2),
{
    assert(seq![l1, l2].drop_last() =~= seq![l1]);
    assert(seq![l1].drop_last() =~= Seq::<Seq<char>>::empty());
    assert(lines_tokens(Seq::<Seq<char>>::empty()) == Seq::<TokenView>::empty());
    assert(lines_tokens(seq![l1]) =~= line_tokens(l1));
}

/// A keyword kind comes out of classification exactly for its own spelling:
/// no prefix, no extension and no other text classifies as it.
pub proof fn lemma_keyword_exact(b: Seq<char>)
    ensures
        classify(b) == Some(TokenKind::If) <==> b == seq!['i', 'f'],
        classify(b) == Some(TokenKind::Else) <==> b == seq!['e', 'l', 's', 'e'],
        classify(b) == Some(TokenKind::While) <==> b == seq!['w', 'h', 'i', 'l', 'e'],
        classify(b) == Some(TokenKind::RizKeyword) <==> b == seq!['r', 'i', 'z'],
        classify(b) == Some(TokenKind::Delimiter) <==> b == seq!['\''],
        classify(b) == Some(TokenKind::ResultKeyword) <==> b == seq!['r', 'e', 's', 'u', 'l', 't'],
{
}

/// A line without a single ASCII letter, digit or quote yields no tokens.
pub proof fn lemma_no_token_chars_line(s: Seq<char>)
    requires
        forall|k: int| 0 <= k < s.len() ==> !is_token_char(#[trigger] s[k]),
    ensures
        line_tokens(s) == Seq::<TokenView>::empty(),
{
    lemma_skip_tail(s, 0, seq![]);
}

proof fn lemma_skip_tail(s: Seq<char>, i: int, buf: Seq<char>)
    requires
        0 <= i <= s.len(),
        forall|k: int| i <= k < s.len() ==> !is_token_char(#[trigger] s[k]),
    ensures
        scan_from(s, i, buf) == Seq::<TokenView>::empty(),
    decreases s.len() - i,
{
    if i < s.len() {
        lemma_skip_tail(s, i + 1, buf);
    }
}

/// Lines without a single ASCII letter, digit or quote yield no tokens.
pub proof fn lemma_no_token_chars_lines(lines: Seq<Seq<char>>)
    requires
        forall|l: int, k: int|
            0 <= l < lines.len() && 0 <= k < lines[l].len() ==> !is_token_char(
                #[trigger] lines[l][k],
            ),
    ensures
        lines_tokens(lines) == Seq::<TokenView>::empty(),
    decreases lines.len(),
{
    if lines.len() > 0 {
        let init = lines.drop_last();
        assert forall|l: int, k: int|
            0 <= l < init.len() && 0 <= k < init[l].len() implies !is_token_char(
                #[trigger] init[l][k],
            ) by {
            assert(init[l] == lines[l]);
        }
        lemma_no_token_chars_lines(init);
        let last = lines.last();
        assert forall|k: int| 0 <= k < last.len() implies !is_token_char(#[trigger] last[k]) by {
            assert(last[k] == lines[lines.len() - 1][k]);
        }
        lemma_no_token_chars_line(last);
        assert(lines_tokens(lines) =~= Seq::<TokenView>::empty());
    }
}

} // verus!
