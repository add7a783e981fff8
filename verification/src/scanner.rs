//! Lexical scanner for the Lox language.
//!
//! Walks a source string and produces a stream of scan events: tokens and
//! lexical errors, interleaved in source order, always ending with exactly
//! one `EOF` token.
//!
//! Two public entry points share one underlying state machine:
//!
//! - [`scan`] (eager) consumes the whole source up front and returns
//!   `(tokens, errors)`;
//! - [`Scanner`] (lazy) hands out one event per call to [`Scanner::next`].
//!
//! Both are specified against [`scan_events`], the mathematical event
//! stream of a source text. Every grammar character of Lox is ASCII; a
//! character outside string literals that starts no token is reported
//! once per byte of its UTF-8 encoding as `Unexpected character.`.

use vstd::prelude::*;

use crate::error::{LoxError, LoxErrorV};
use crate::text::{chars_of, string_from_chars};
use crate::token::{Literal, LiteralV, Token, TokenType, TokenV};

verus! {

// ---------------------------------------------------------------------
// Specification
// ---------------------------------------------------------------------

/// One unit of scanner output: a token or a lexical error.
pub type ScanEvent = Result<Token, LoxError>;

/// Mathematical view of a [`ScanEvent`].
pub type ScanEventV = Result<TokenV, LoxErrorV>;

pub open spec fn event_view(e: ScanEvent) -> ScanEventV {
    match e {
        Ok(t) => Ok(t@),
        Err(x) => Err(x@),
    }
}

pub open spec fn events_view(v: Seq<ScanEvent>) -> Seq<ScanEventV> {
    v.map_values(|e: ScanEvent| event_view(e))
}

pub open spec fn is_digit(c: char) -> bool {
    '0' <= c && c <= '9'
}

pub open spec fn is_alpha(c: char) -> bool {
    ('a' <= c && c <= 'z') || ('A' <= c && c <= 'Z')
}

pub open spec fn ident_start(c: char) -> bool {
    is_alpha(c) || c == '_'
}

pub open spec fn ident_continue(c: char) -> bool {
    ident_start(c) || is_digit(c)
}

/// The character at `i`, or NUL past either end (the scanner's lookahead
/// convention).
pub open spec fn char_at(cs: Seq<char>, i: int) -> char {
    if 0 <= i < cs.len() {
        cs[i]
    } else {
        '\0'
    }
}

/// First index at or after `i` that does not hold a decimal digit.
pub open spec fn digits_end(cs: Seq<char>, i: int) -> int
    decreases cs.len() - i,
{
    if 0 <= i < cs.len() && is_digit(cs[i]) {
        digits_end(cs, i + 1)
    } else {
        i
    }
}

/// First index at or after `i` that cannot continue an identifier.
pub open spec fn ident_end(cs: Seq<char>, i: int) -> int
    decreases cs.len() - i,
{
    if 0 <= i < cs.len() && ident_continue(cs[i]) {
        ident_end(cs, i + 1)
    } else {
        i
    }
}

/// First index at or after `i` holding a newline, or the end of input.
pub open spec fn comment_end(cs: Seq<char>, i: int) -> int
    decreases cs.len() - i,
{
    if 0 <= i < cs.len() && cs[i] != '\n' {
        comment_end(cs, i + 1)
    } else {
        i
    }
}

/// First index at or after `i` holding a double quote, or the end of input.
pub open spec fn string_end(cs: Seq<char>, i: int) -> int
    decreases cs.len() - i,
{
    if 0 <= i < cs.len() && cs[i] != '"' {
        string_end(cs, i + 1)
    } else {
        i
    }
}

/// End of a number literal whose first digit sits just before `i`: an
/// integer part, then a fractional part only when the `.` is immediately
/// followed by a digit.
pub open spec fn number_end(cs: Seq<char>, i: int) -> int {
    let e = digits_end(cs, i);
    if char_at(cs, e) == '.' && is_digit(char_at(cs, e + 1)) {
        digits_end(cs, e + 1)
    } else {
        e
    }
}

/// Number of newline characters in `s`.
pub open spec fn count_newlines(s: Seq<char>) -> nat
    decreases s.len(),
{
    if s.len() == 0 {
        0
    } else {
        count_newlines(s.drop_last()) + if s.last() == '\n' {
            1nat
        } else {
            0nat
        }
    }
}

/// Keyword recognition: the reserved word spelled by `lex`, or
/// `Identifier`.
pub open spec fn keyword_kind(lex: Seq<char>) -> TokenType {
    if lex == seq!['a', 'n', 'd'] {
        TokenType::And
    } else if lex == seq!['c', 'l', 'a', 's', 's'] {
        TokenType::Class
    } else if lex == seq!['e', 'l', 's', 'e'] {
        TokenType::Else
    } else if lex == seq!['f', 'a', 'l', 's', 'e'] {
        TokenType::False
    } else if lex == seq!['f', 'o', 'r'] {
        TokenType::For
    } else if lex == seq!['f', 'u', 'n'] {
        TokenType::Fun
    } else if lex == seq!['i', 'f'] {
        TokenType::If
    } else if lex == seq!['n', 'i', 'l'] {
        TokenType::Nil
    } else if lex == seq!['o', 'r'] {
        TokenType::Or
    } else if lex == seq!['p', 'r', 'i', 'n', 't'] {
        TokenType::Print
    } else if lex == seq!['r', 'e', 't', 'u', 'r', 'n'] {
        TokenType::Return
    } else if lex == seq!['s', 'u', 'p', 'e', 'r'] {
        TokenType::Super
    } else if lex == seq!['t', 'h', 'i', 's'] {
        TokenType::This
    } else if lex == seq!['t', 'r', 'u', 'e'] {
        TokenType::True
    } else if lex == seq!['v', 'a', 'r'] {
        TokenType::Var
    } else if lex == seq!['w', 'h', 'i', 'l', 'e'] {
        TokenType::While
    } else {
        TokenType::Identifier
    }
}

/// Number of bytes in the UTF-8 encoding of `c`.
pub open spec fn utf8_len(c: char) -> nat {
    if (c as u32) < 0x80 {
        1
    } else if (c as u32) < 0x800 {
        2
    } else if (c as u32) < 0x10000 {
        3
    } else {
        4
    }
}

pub open spec fn unexpected_msg() -> Seq<char> {
    "Unexpected character."@
}

pub open spec fn unterminated_msg() -> Seq<char> {
    "Unterminated string."@
}

pub open spec fn tok_ev(
    ttype: TokenType,
    lexeme: Seq<char>,
    literal: Option<LiteralV>,
    line: nat,
) -> ScanEventV {
    Ok(TokenV { ttype, lexeme, literal, line })
}

pub open spec fn err_ev(line: nat, message: Seq<char>) -> ScanEventV {
    Err(LoxErrorV::Scan { line, message })
}

/// `n` copies of the unexpected-character error at `line`.
pub open spec fn unexpected_errs(n: nat, line: nat) -> Seq<ScanEventV> {
    Seq::new(n, |i: int| err_ev(line, unexpected_msg()))
}

/// Outcome of one scanning step: the events it emits, the position after
/// it and the line after it.
pub type Step = (Seq<ScanEventV>, int, nat);

/// A single-character token at `pos`.
pub open spec fn one_char_step(cs: Seq<char>, pos: int, line: nat, t: TokenType) -> Step {
    (seq![tok_ev(t, cs.subrange(pos, pos + 1), None, line)], pos + 1, line)
}

/// `single` at `pos`, or `both` when it is followed by `=`.
pub open spec fn two_char_step(
    cs: Seq<char>,
    pos: int,
    line: nat,
    both: TokenType,
    single: TokenType,
) -> Step {
    if char_at(cs, pos + 1) == '=' {
        (seq![tok_ev(both, cs.subrange(pos, pos + 2), None, line)], pos + 2, line)
    } else {
        one_char_step(cs, pos, line, single)
    }
}

/// A `/` at `pos`: a line comment when doubled, else a `SLASH` token.
pub open spec fn slash_step(cs: Seq<char>, pos: int, line: nat) -> Step {
    if char_at(cs, pos + 1) == '/' {
        (seq![], comment_end(cs, pos + 2), line)
    } else {
        one_char_step(cs, pos, line, TokenType::Slash)
    }
}

/// A string literal opening at `pos`.
pub open spec fn string_step(cs: Seq<char>, pos: int, line: nat) -> Step {
    let e = string_end(cs, pos + 1);
    let nl = line + count_newlines(cs.subrange(pos + 1, e));
    if e >= cs.len() {
        (seq![err_ev(nl, unterminated_msg())], e, nl)
    } else {
        (
            seq![
                tok_ev(
                    TokenType::String,
                    cs.subrange(pos, e + 1),
                    Some(LiteralV::Str(cs.subrange(pos + 1, e))),
                    nl,
                ),
            ],
            e + 1,
            nl,
        )
    }
}

/// A number literal starting at `pos`.
pub open spec fn number_step(cs: Seq<char>, pos: int, line: nat) -> Step {
    let e = number_end(cs, pos + 1);
    let lex = cs.subrange(pos, e);
    (seq![tok_ev(TokenType::Number, lex, Some(LiteralV::Number(lex)), line)], e, line)
}

/// An identifier or keyword starting at `pos`.
pub open spec fn ident_step(cs: Seq<char>, pos: int, line: nat) -> Step {
    let e = ident_end(cs, pos + 1);
    let lex = cs.subrange(pos, e);
    (seq![tok_ev(keyword_kind(lex), lex, None, line)], e, line)
}

/// One scanning step at `pos` (`0 <= pos < cs.len()`): consume one token,
/// or whitespace, or a comment, or report unexpected input.
pub open spec fn scan_step(cs: Seq<char>, pos: int, line: nat) -> Step {
    let c = cs[pos];
    if c == '(' {
        one_char_step(cs, pos, line, TokenType::LeftParen)
    } else if c == ')' {
        one_char_step(cs, pos, line, TokenType::RightParen)
    } else if c == '{' {
        one_char_step(cs, pos, line, TokenType::LeftBrace)
    } else if c == '}' {
        one_char_step(cs, pos, line, TokenType::RightBrace)
    } else if c == ',' {
        one_char_step(cs, pos, line, TokenType::Comma)
    } else if c == '.' {
        one_char_step(cs, pos, line, TokenType::Dot)
    } else if c == '-' {
        one_char_step(cs, pos, line, TokenType::Minus)
    } else if c == '+' {
        one_char_step(cs, pos, line, TokenType::Plus)
    } else if c == ';' {
        one_char_step(cs, pos, line, TokenType::Semicolon)
    } else if c == '*' {
        one_char_step(cs, pos, line, TokenType::Star)
    } else if c == '!' {
        two_char_step(cs, pos, line, TokenType::BangEqual, TokenType::Bang)
    } else if c == '=' {
        two_char_step(cs, pos, line, TokenType::EqualEqual, TokenType::Equal)
    } else if c == '<' {
        two_char_step(cs, pos, line, TokenType::LessEqual, TokenType::Less)
    } else if c == '>' {
        two_char_step(cs, pos, line, TokenType::GreaterEqual, TokenType::Greater)
    } else if c == '/' {
        slash_step(cs, pos, line)
    } else if c == ' ' || c == '\r' || c == '\t' {
        (seq![], pos + 1, line)
    } else if c == '\n' {
        (seq![], pos + 1, line + 1)
    } else if c == '"' {
        string_step(cs, pos, line)
    } else if is_digit(c) {
        number_step(cs, pos, line)
    } else if ident_start(c) {
        ident_step(cs, pos, line)
    } else {
        (unexpected_errs(utf8_len(c), line), pos + 1, line)
    }
}

/// Whether `c` begins no lexeme: it is reported as unexpected input, one
/// error for each byte of its UTF-8 encoding.
pub open spec fn is_unexpected(c: char) -> bool {
    &&& c != '(' && c != ')' && c != '{' && c != '}' && c != ',' && c != '.'
    &&& c != '-' && c != '+' && c != ';' && c != '*' && c != '!' && c != '='
    &&& c != '<' && c != '>' && c != '/' && c != ' ' && c != '\r' && c != '\t'
    &&& c != '\n' && c != '"'
    &&& !is_digit(c)
    &&& !ident_start(c)
}

/// Outcome of one call of the scanner's single step: the events it
/// records (at most one), the position, the line, and the errors still
/// owed for the bytes of an unexpected character already passed.
pub type Unit = (Seq<ScanEventV>, int, nat, nat);

/// One call of the scanner's single step at `pos` on `line`, owing
/// `owed` errors: an owed error is reported first; otherwise one step is
/// taken, except that of an unexpected character only the first byte is
/// reported and the others are owed.
pub open spec fn unit_step(cs: Seq<char>, pos: int, line: nat, owed: nat) -> Unit {
    if owed > 0 {
        (seq![err_ev(line, unexpected_msg())], pos, line, (owed - 1) as nat)
    } else if is_unexpected(cs[pos]) {
        (seq![err_ev(line, unexpected_msg())], pos + 1, line, (utf8_len(cs[pos]) - 1) as nat)
    } else {
        let st = scan_step(cs, pos, line);
        (st.0, st.1, st.2, 0)
    }
}

/// Number of bytes in the UTF-8 encoding of `s`.
pub open spec fn utf8_bytes(s: Seq<char>) -> nat
    decreases s.len(),
{
    if s.len() == 0 {
        0
    } else {
        utf8_bytes(s.drop_last()) + utf8_len(s.last())
    }
}

/// How many bytes of the source are behind the scanner at `pos` owing
/// `owed` errors: every byte before `pos`, less those still to report.
pub open spec fn bytes_done(cs: Seq<char>, pos: int, owed: nat) -> int {
    utf8_bytes(cs.take(pos)) - owed
}

pub proof fn lemma_digits_end(cs: Seq<char>, i: int)
    requires
        0 <= i <= cs.len(),
    ensures
        i <= digits_end(cs, i) <= cs.len(),
        forall|k: int| i <= k < digits_end(cs, i) ==> is_digit(#[trigger] cs[k]),
        digits_end(cs, i) < cs.len() ==> !is_digit(cs[digits_end(cs, i)]),
    decreases cs.len() - i,
{
    if i < cs.len() && is_digit(cs[i]) {
        lemma_digits_end(cs, i + 1);
    }
}

pub proof fn lemma_ident_end(cs: Seq<char>, i: int)
    requires
        0 <= i <= cs.len(),
    ensures
        i <= ident_end(cs, i) <= cs.len(),
        forall|k: int| i <= k < ident_end(cs, i) ==> ident_continue(#[trigger] cs[k]),
        ident_end(cs, i) < cs.len() ==> !ident_continue(cs[ident_end(cs, i)]),
    decreases cs.len() - i,
{
    if i < cs.len() && ident_continue(cs[i]) {
        lemma_ident_end(cs, i + 1);
    }
}

pub proof fn lemma_comment_end(cs: Seq<char>, i: int)
    requires
        0 <= i <= cs.len(),
    ensures
        i <= comment_end(cs, i) <= cs.len(),
        forall|k: int| i <= k < comment_end(cs, i) ==> #[trigger] cs[k] != '\n',
        comment_end(cs, i) < cs.len() ==> cs[comment_end(cs, i)] == '\n',
    decreases cs.len() - i,
{
    if i < cs.len() && cs[i] != '\n' {
        lemma_comment_end(cs, i + 1);
    }
}

pub proof fn lemma_string_end(cs: Seq<char>, i: int)
    requires
        0 <= i <= cs.len(),
    ensures
        i <= string_end(cs, i) <= cs.len(),
        forall|k: int| i <= k < string_end(cs, i) ==> #[trigger] cs[k] != '"',
        string_end(cs, i) < cs.len() ==> cs[string_end(cs, i)] == '"',
    decreases cs.len() - i,
{
    if i < cs.len() && cs[i] != '"' {
        lemma_string_end(cs, i + 1);
    }
}

pub proof fn lemma_count_newlines_le(s: Seq<char>)
    ensures
        count_newlines(s) <= s.len(),
    decreases s.len(),
{
    if s.len() > 0 {
        lemma_count_newlines_le(s.drop_last());
    }
}

/// Every step consumes input and stays within it; the line never goes
/// back and grows by at most the number of characters consumed.
pub proof fn lemma_step_bounds(cs: Seq<char>, pos: int, line: nat)
    requires
        0 <= pos < cs.len(),
    ensures
        pos < scan_step(cs, pos, line).1 <= cs.len(),
        line <= scan_step(cs, pos, line).2,
        scan_step(cs, pos, line).2 <= line + (scan_step(cs, pos, line).1 - pos),
{
    lemma_digits_end(cs, pos + 1);
    lemma_ident_end(cs, pos + 1);
    lemma_string_end(cs, pos + 1);
    if pos + 2 <= cs.len() {
        lemma_comment_end(cs, pos + 2);
    }
    let e = digits_end(cs, pos + 1);
    if e + 1 <= cs.len() {
        lemma_digits_end(cs, e + 1);
    }
    let se = string_end(cs, pos + 1);
    lemma_count_newlines_le(cs.subrange(pos + 1, se));
}

/// A step records at most one event, except at an unexpected character,
/// which it reports once for each of its bytes.
pub proof fn lemma_step_events(cs: Seq<char>, pos: int, line: nat)
    requires
        0 <= pos < cs.len(),
    ensures
        is_unexpected(cs[pos]) ==> scan_step(cs, pos, line) == (
            unexpected_errs(utf8_len(cs[pos]), line),
            pos + 1,
            line,
        ),
        !is_unexpected(cs[pos]) ==> scan_step(cs, pos, line).0.len() <= 1,
{
}

proof fn lemma_utf8_len_pos(c: char)
    ensures
        1 <= utf8_len(c) <= 4,
{
}

/// The bytes of a prefix one character longer: those of the prefix and of
/// that character; so a longer prefix has at least one more byte for each
/// more character.
proof fn lemma_utf8_bytes_take(cs: Seq<char>, a: int, b: int)
    requires
        0 <= a <= b <= cs.len(),
    ensures
        a < cs.len() ==> utf8_bytes(cs.take(a + 1)) == utf8_bytes(cs.take(a)) + utf8_len(cs[a]),
        utf8_bytes(cs.take(b)) >= utf8_bytes(cs.take(a)) + (b - a),
    decreases b - a,
{
    if a < cs.len() {
        assert(cs.take(a + 1).drop_last() =~= cs.take(a));
        assert(cs.take(a + 1).last() == cs[a]);
        lemma_utf8_len_pos(cs[a]);
    }
    if a < b {
        lemma_utf8_bytes_take(cs, a + 1, b);
    }
}

/// The event stream of the source suffix starting at `pos` on `line`,
/// ending with the `EOF` token.
pub open spec fn scan_from(cs: Seq<char>, pos: int, line: nat) -> Seq<ScanEventV>
    decreases cs.len() - pos,
{
    if pos < 0 || pos >= cs.len() {
        seq![tok_ev(TokenType::Eof, seq![], None, line)]
    } else {
        proof {
            lemma_step_bounds(cs, pos, line);
        }
        let st = scan_step(cs, pos, line);
        st.0 + scan_from(cs, st.1, st.2)
    }
}

/// The complete event stream of a source text: tokens and lexical errors
/// in source order, ending with one `EOF` token.
pub open spec fn scan_events(cs: Seq<char>) -> Seq<ScanEventV> {
    scan_from(cs, 0, 1)
}

/// The tokens of an event stream, in order.
pub open spec fn ok_events(s: Seq<ScanEventV>) -> Seq<TokenV>
    decreases s.len(),
{
    if s.len() == 0 {
        seq![]
    } else {
        match s.last() {
            Ok(t) => ok_events(s.drop_last()).push(t),
            Err(_) => ok_events(s.drop_last()),
        }
    }
}

/// The errors of an event stream, in order.
pub open spec fn err_events(s: Seq<ScanEventV>) -> Seq<LoxErrorV>
    decreases s.len(),
{
    if s.len() == 0 {
        seq![]
    } else {
        match s.last() {
            Ok(_) => err_events(s.drop_last()),
            Err(e) => err_events(s.drop_last()).push(e),
        }
    }
}

/// The tokens `scan` returns for `source`.
pub open spec fn scanned_tokens(source: Seq<char>) -> Seq<TokenV> {
    ok_events(scan_events(source))
}

/// The lexical errors `scan` returns for `source`.
pub open spec fn scanned_errors(source: Seq<char>) -> Seq<LoxErrorV> {
    err_events(scan_events(source))
}

pub open spec fn tokens_view(v: Seq<Token>) -> Seq<TokenV> {
    v.map_values(|t: Token| t@)
}

pub open spec fn errors_view(v: Seq<LoxError>) -> Seq<LoxErrorV> {
    v.map_values(|e: LoxError| e@)
}


// ---------------------------------------------------------------------
// Lemmas about the specification
// ---------------------------------------------------------------------

pub proof fn lemma_events_view_push(v: Seq<ScanEvent>, e: ScanEvent)
    ensures
        events_view(v.push(e)) == events_view(v).push(event_view(e)),
{
    assert(events_view(v.push(e)) =~= events_view(v).push(event_view(e)));
}

pub proof fn lemma_count_newlines_concat(a: Seq<char>, b: Seq<char>)
    ensures
        count_newlines(a + b) == count_newlines(a) + count_newlines(b),
    decreases b.len(),
{
    if b.len() == 0 {
        assert(a + b =~= a);
    } else {
        assert((a + b).drop_last() =~= a + b.drop_last());
        lemma_count_newlines_concat(a, b.drop_last());
    }
}

pub proof fn lemma_count_newlines_none(s: Seq<char>)
    requires
        forall|k: int| 0 <= k < s.len() ==> #[trigger] s[k] != '\n',
    ensures
        count_newlines(s) == 0,
    decreases s.len(),
{
    if s.len() > 0 {
        lemma_count_newlines_none(s.drop_last());
    }
}

pub proof fn lemma_count_newlines_split(cs: Seq<char>, a: int, b: int, c: int)
    requires
        0 <= a <= b <= c <= cs.len(),
    ensures
        count_newlines(cs.subrange(a, c)) == count_newlines(cs.subrange(a, b)) + count_newlines(
            cs.subrange(b, c),
        ),
{
    assert(cs.subrange(a, c) =~= cs.subrange(a, b) + cs.subrange(b, c));
    lemma_count_newlines_concat(cs.subrange(a, b), cs.subrange(b, c));
}

pub proof fn lemma_count_newlines_single(c: char)
    ensures
        count_newlines(seq![c]) == if c == '\n' {
            1nat
        } else {
            0nat
        },
{
    assert(seq![c].drop_last() =~= Seq::<char>::empty());
    assert(seq![c].last() == c);
    assert(count_newlines(Seq::<char>::empty()) == 0);
}

pub proof fn lemma_no_newlines_range(cs: Seq<char>, a: int, b: int)
    requires
        0 <= a <= b <= cs.len(),
        forall|k: int| a <= k < b ==> #[trigger] cs[k] != '\n',
    ensures
        count_newlines(cs.subrange(a, b)) == 0,
{
    assert forall|k: int| 0 <= k < cs.subrange(a, b).len() implies #[trigger] cs.subrange(a, b)[k]
        != '\n' by {
        assert(cs.subrange(a, b)[k] == cs[a + k]);
    }
    lemma_count_newlines_none(cs.subrange(a, b));
}

/// A step advances the line by exactly the newlines it consumes.
pub proof fn lemma_step_newlines(cs: Seq<char>, pos: int, line: nat)
    requires
        0 <= pos < cs.len(),
    ensures
        scan_step(cs, pos, line).2 == line + count_newlines(
            cs.subrange(pos, scan_step(cs, pos, line).1),
        ),
{
    lemma_step_bounds(cs, pos, line);
    let st = scan_step(cs, pos, line);
    let c = cs[pos];
    if c == '"' {
        let e = string_end(cs, pos + 1);
        lemma_string_end(cs, pos + 1);
        lemma_count_newlines_split(cs, pos, pos + 1, e);
        lemma_no_newlines_range(cs, pos, pos + 1);
        if e < cs.len() {
            lemma_count_newlines_split(cs, pos, e, e + 1);
            lemma_no_newlines_range(cs, e, e + 1);
            assert(st.1 == e + 1);
        } else {
            assert(st.1 == e);
        }
        assert(st.2 == line + count_newlines(cs.subrange(pos + 1, e)));
        assert(st.2 == line + count_newlines(cs.subrange(pos, st.1)));
    } else if c == '\n' {
        assert(cs.subrange(pos, pos + 1) =~= seq!['\n']);
        lemma_count_newlines_single('\n');
        assert(st.2 == line + count_newlines(cs.subrange(pos, st.1)));
    } else if c == '/' && char_at(cs, pos + 1) == '/' {
        lemma_comment_end(cs, pos + 2);
        lemma_no_newlines_range(cs, pos, st.1);
        assert(st.2 == line + count_newlines(cs.subrange(pos, st.1)));
    } else if c == '/' || c == '!' || c == '=' || c == '<' || c == '>' {
        lemma_no_newlines_range(cs, pos, st.1);
        assert(st.2 == line + count_newlines(cs.subrange(pos, st.1)));
    } else if is_digit(c) {
        lemma_digits_end(cs, pos + 1);
        let e1 = digits_end(cs, pos + 1);
        if e1 + 1 <= cs.len() {
            lemma_digits_end(cs, e1 + 1);
        }
        lemma_no_newlines_range(cs, pos, st.1);
        assert(st.2 == line + count_newlines(cs.subrange(pos, st.1)));
    } else if ident_start(c) {
        lemma_ident_end(cs, pos + 1);
        lemma_no_newlines_range(cs, pos, st.1);
        assert(st.2 == line + count_newlines(cs.subrange(pos, st.1)));
    } else {
        assert(st.1 == pos + 1);
        lemma_no_newlines_range(cs, pos, st.1);
        assert(st.2 == line + count_newlines(cs.subrange(pos, st.1)));
    }
}

// ---------------------------------------------------------------------
// Executable scanner
// ---------------------------------------------------------------------

/// Whether `c` is an ASCII decimal digit.
pub fn is_digit_char(c: char) -> (r: bool)
    ensures
        r == is_digit(c),
{
    '0' <= c && c <= '9'
}

/// Whether `c` may start an identifier.
pub fn is_ident_start(c: char) -> (r: bool)
    ensures
        r == ident_start(c),
{
    ('a' <= c && c <= 'z') || ('A' <= c && c <= 'Z') || c == '_'
}

/// Whether `c` may continue an identifier.
pub fn is_ident_continue(c: char) -> (r: bool)
    ensures
        r == ident_continue(c),
{
    is_ident_start(c) || is_digit_char(c)
}

/// Number of bytes in the UTF-8 encoding of `c`.
pub fn utf8_len_of(c: char) -> (n: usize)
    ensures
        n as nat == utf8_len(c),
{
    let u = c as u32;
    if u < 0x80 {
        1
    } else if u < 0x800 {
        2
    } else if u < 0x10000 {
        3
    } else {
        4
    }
}

/// Mutable scanning state: the source characters, the events produced so
/// far, the start and end of the lexeme being scanned, and the line.
struct State {
    chars: Vec<char>,
    events: Vec<ScanEvent>,
    start: usize,
    current: usize,
    line: usize,
}

impl State {
    spec fn wf(&self) -> bool {
        &&& self.chars@.len() < usize::MAX
        &&& self.start <= self.current <= self.chars@.len()
        &&& 1 <= self.line <= self.current + 1
    }

    spec fn cs(&self) -> Seq<char> {
        self.chars@
    }

    spec fn evs(&self) -> Seq<ScanEventV> {
        events_view(self.events@)
    }

    fn new(chars: Vec<char>) -> (s: State)
        requires
            chars@.len() < usize::MAX,
        ensures
            s.wf(),
            s.chars@ == chars@,
            s.events@.len() == 0,
            s.start == 0,
            s.current == 0,
            s.line == 1,
    {
        State { chars, events: Vec::new(), start: 0, current: 0, line: 1 }
    }

    fn at_end(&self) -> (r: bool)
        ensures
            r == (self.current >= self.chars@.len()),
    {
        self.current >= self.chars.len()
    }

    fn bump(&mut self) -> (c: char)
        requires
            old(self).wf(),
            old(self).current < old(self).chars@.len(),
        ensures
            final(self).wf(),
            c == old(self).chars@[old(self).current as int],
            final(self).current == old(self).current + 1,
            final(self).chars == old(self).chars,
            final(self).events == old(self).events,
            final(self).start == old(self).start,
            final(self).line == old(self).line,
    {
        let c = self.chars[self.current];
        self.current = self.current + 1;
        c
    }

    fn peek(&self) -> (c: char)
        requires
            self.wf(),
        ensures
            c == char_at(self.chars@, self.current as int),
    {
        if self.current < self.chars.len() {
            self.chars[self.current]
        } else {
            '\0'
        }
    }

    fn peek_next(&self) -> (c: char)
        requires
            self.wf(),
        ensures
            c == char_at(self.chars@, self.current + 1),
    {
        if self.current + 1 < self.chars.len() {
            self.chars[self.current + 1]
        } else {
            '\0'
        }
    }

    fn take(&mut self, expected: char) -> (r: bool)
        requires
            old(self).wf(),
            expected != '\0',
        ensures
            final(self).wf(),
            r == (char_at(old(self).chars@, old(self).current as int) == expected),
            final(self).current == if r {
                old(self).current + 1
            } else {
                old(self).current as int
            },
            final(self).chars == old(self).chars,
            final(self).events == old(self).events,
            final(self).start == old(self).start,
            final(self).line == old(self).line,
    {
        if self.peek() == expected {
            self.current = self.current + 1;
            true
        } else {
            false
        }
    }

    fn lexeme(&self) -> (r: String)
        requires
            self.wf(),
        ensures
            r@ == self.chars@.subrange(self.start as int, self.current as int),
    {
        string_from_chars(&self.chars, self.start, self.current)
    }

    fn push_token(&mut self, ttype: TokenType, lexeme: String, literal: Option<Literal>)
        requires
            old(self).wf(),
        ensures
            final(self).wf(),
            final(self).evs() == old(self).evs().push(
                tok_ev(ttype, lexeme@, opt_lit_view_of(literal), old(self).line as nat),
            ),
            final(self).chars == old(self).chars,
            final(self).current == old(self).current,
            final(self).start == old(self).start,
            final(self).line == old(self).line,
    {
        let t = Token { ttype, lexeme, literal, line: self.line };
        proof {
            lemma_events_view_push(self.events@, Ok(t));
        }
        self.events.push(Ok(t));
    }

    fn record_error(&mut self, message: &str)
        requires
            old(self).wf(),
        ensures
            final(self).wf(),
            final(self).evs() == old(self).evs().push(err_ev(old(self).line as nat, message@)),
            final(self).chars == old(self).chars,
            final(self).current == old(self).current,
            final(self).start == old(self).start,
            final(self).line == old(self).line,
    {
        let e = LoxError::scan(self.line, message);
        proof {
            lemma_events_view_push(self.events@, Err(e));
        }
        self.events.push(Err(e));
    }
}

pub open spec fn opt_lit_view_of(l: Option<Literal>) -> Option<LiteralV> {
    crate::token::opt_lit_view(l)
}

/// Precondition shared by the per-lexeme helpers: the first character of
/// the lexeme (at `start`) has just been consumed.
spec fn just_bumped(s: &State) -> bool {
    &&& s.wf()
    &&& s.current == s.start + 1
}

/// Postcondition shared by the per-lexeme helpers: the state moved as
/// `st` says.
spec fn stepped(old_s: &State, new_s: &State, st: Step) -> bool {
    &&& new_s.wf()
    &&& new_s.chars == old_s.chars
    &&& new_s.start == old_s.start
    &&& new_s.evs() == old_s.evs() + st.0
    &&& new_s.current == st.1
    &&& new_s.line == st.2
}

fn emit_one(s: &mut State, t: TokenType)
    requires
        just_bumped(old(s)),
    ensures
        stepped(old(s), final(s), one_char_step(old(s).cs(), old(s).start as int, old(s).line as nat, t)),
{
    let lx = s.lexeme();
    s.push_token(t, lx, None);
    assert(s.evs() =~= old(s).evs() + one_char_step(old(s).cs(), old(s).start as int, old(s).line as nat, t).0);
}

fn emit_two_char(s: &mut State, second: char, both: TokenType, single: TokenType)
    requires
        just_bumped(old(s)),
        second == '=',
    ensures
        stepped(
            old(s),
            final(s),
            two_char_step(old(s).cs(), old(s).start as int, old(s).line as nat, both, single),
        ),
{
    let ttype = if s.take(second) {
        both
    } else {
        single
    };
    let lx = s.lexeme();
    s.push_token(ttype, lx, None);
    assert(s.evs() =~= old(s).evs() + two_char_step(
        old(s).cs(),
        old(s).start as int,
        old(s).line as nat,
        both,
        single,
    ).0);
}

fn slash_or_comment(s: &mut State)
    requires
        just_bumped(old(s)),
    ensures
        stepped(old(s), final(s), slash_step(old(s).cs(), old(s).start as int, old(s).line as nat)),
{
    if s.take('/') {
        let ghost from = s.current as int;
        while !s.at_end() && s.peek() != '\n'
            invariant
                s.wf(),
                s.chars == old(s).chars,
                s.start == old(s).start,
                s.events == old(s).events,
                s.line == old(s).line,
                from <= s.current,
                from == old(s).start + 2,
                comment_end(s.cs(), s.current as int) == comment_end(s.cs(), from),
            decreases s.chars@.len() - s.current,
        {
            s.current = s.current + 1;
        }
        assert(s.evs() =~= old(s).evs() + seq![]);
    } else {
        emit_one(s, TokenType::Slash);
    }
}

fn string_literal(s: &mut State)
    requires
        just_bumped(old(s)),
    ensures
        stepped(old(s), final(s), string_step(old(s).cs(), old(s).start as int, old(s).line as nat)),
{
    let ghost cs = s.cs();
    let ghost pos = s.start as int;
    proof {
        lemma_string_end(cs, pos + 1);
    }
    while !s.at_end() && s.peek() != '"'
        invariant
            s.wf(),
            s.chars == old(s).chars,
            cs == s.chars@,
            pos == s.start,
            s.start == old(s).start,
            s.events == old(s).events,
            pos + 1 <= s.current <= cs.len(),
            string_end(cs, s.current as int) == string_end(cs, pos + 1),
            s.line == old(s).line + count_newlines(cs.subrange(pos + 1, s.current as int)),
        decreases s.chars@.len() - s.current,
    {
        let ghost cur = s.current as int;
        proof {
            lemma_count_newlines_split(cs, pos + 1, cur, cur + 1);
            assert(cs.subrange(cur, cur + 1) =~= seq![cs[cur]]);
            lemma_count_newlines_single(cs[cur]);
            lemma_count_newlines_le(cs.subrange(pos + 1, cur));
        }
        let c = s.bump();
        if c == '\n' {
            s.line = s.line + 1;
        }
    }
    if s.at_end() {
        s.record_error("Unterminated string.");
        assert(s.evs() =~= old(s).evs() + string_step(cs, pos, old(s).line as nat).0);
        return;
    }
    s.bump();
    let lexeme = s.lexeme();
    let value = string_from_chars(&s.chars, s.start + 1, s.current - 1);
    s.push_token(TokenType::String, lexeme, Some(Literal::String(value)));
    assert(s.evs() =~= old(s).evs() + string_step(cs, pos, old(s).line as nat).0);
}

fn number_literal(s: &mut State)
    requires
        just_bumped(old(s)),
    ensures
        stepped(old(s), final(s), number_step(old(s).cs(), old(s).start as int, old(s).line as nat)),
{
    let ghost cs = s.cs();
    let ghost pos = s.start as int;
    while is_digit_char(s.peek())
        invariant
            s.wf(),
            s.chars == old(s).chars,
            s.start == old(s).start,
            s.events == old(s).events,
            s.line == old(s).line,
            cs == s.chars@,
            pos + 1 <= s.current <= cs.len(),
            digits_end(cs, s.current as int) == digits_end(cs, pos + 1),
        decreases s.chars@.len() - s.current,
    {
        s.current = s.current + 1;
    }
    assert(digits_end(cs, s.current as int) == s.current);
    if s.peek() == '.' && is_digit_char(s.peek_next()) {
        s.current = s.current + 1;
        let ghost frac = s.current as int;
        while is_digit_char(s.peek())
            invariant
                s.wf(),
                s.chars == old(s).chars,
                s.start == old(s).start,
                s.events == old(s).events,
                s.line == old(s).line,
                cs == s.chars@,
                frac <= s.current <= cs.len(),
                digits_end(cs, s.current as int) == digits_end(cs, frac),
            decreases s.chars@.len() - s.current,
        {
            s.current = s.current + 1;
        }
    }
    let lexeme = s.lexeme();
    let text = s.lexeme();
    s.push_token(TokenType::Number, lexeme, Some(Literal::Number(text)));
    assert(s.evs() =~= old(s).evs() + number_step(cs, pos, old(s).line as nat).0);
}

/// Whether `cs[from..to]` spells `word`.
fn spells(cs: &Vec<char>, from: usize, to: usize, word: &[char]) -> (r: bool)
    requires
        from <= to <= cs@.len(),
    ensures
        r == (cs@.subrange(from as int, to as int) == word@),
{
    if to - from != word.len() {
        return false;
    }
    let mut i: usize = 0;
    while i < word.len()
        invariant
            from <= to <= cs@.len(),
            to - from == word@.len(),
            i <= word@.len(),
            forall|k: int| 0 <= k < i ==> cs@[from + k] == word@[k],
        decreases word@.len() - i,
    {
        if cs[from + i] != word[i] {
            assert(cs@.subrange(from as int, to as int)[i as int] != word@[i as int]);
            return false;
        }
        i = i + 1;
    }
    assert(cs@.subrange(from as int, to as int) =~= word@);
    true
}

/// The token type of the identifier-shaped lexeme `cs[from..to]`.
fn keyword_type(cs: &Vec<char>, from: usize, to: usize) -> (t: TokenType)
    requires
        from <= to <= cs@.len(),
    ensures
        t == keyword_kind(cs@.subrange(from as int, to as int)),
{
    let ghost lex = cs@.subrange(from as int, to as int);
    if spells(cs, from, to, &['a', 'n', 'd']) {
        assert(lex == seq!['a', 'n', 'd']);
        TokenType::And
    } else if spells(cs, from, to, &['c', 'l', 'a', 's', 's']) {
        TokenType::Class
    } else if spells(cs, from, to, &['e', 'l', 's', 'e']) {
        TokenType::Else
    } else if spells(cs, from, to, &['f', 'a', 'l', 's', 'e']) {
        TokenType::False
    } else if spells(cs, from, to, &['f', 'o', 'r']) {
        TokenType::For
    } else if spells(cs, from, to, &['f', 'u', 'n']) {
        TokenType::Fun
    } else if spells(cs, from, to, &['i', 'f']) {
        TokenType::If
    } else if spells(cs, from, to, &['n', 'i', 'l']) {
        TokenType::Nil
    } else if spells(cs, from, to, &['o', 'r']) {
        TokenType::Or
    } else if spells(cs, from, to, &['p', 'r', 'i', 'n', 't']) {
        TokenType::Print
    } else if spells(cs, from, to, &['r', 'e', 't', 'u', 'r', 'n']) {
        TokenType::Return
    } else if spells(cs, from, to, &['s', 'u', 'p', 'e', 'r']) {
        TokenType::Super
    } else if spells(cs, from, to, &['t', 'h', 'i', 's']) {
        TokenType::This
    } else if spells(cs, from, to, &['t', 'r', 'u', 'e']) {
        TokenType::True
    } else if spells(cs, from, to, &['v', 'a', 'r']) {
        TokenType::Var
    } else if spells(cs, from, to, &['w', 'h', 'i', 'l', 'e']) {
        TokenType::While
    } else {
        TokenType::Identifier
    }
}

fn identifier_or_keyword(s: &mut State)
    requires
        just_bumped(old(s)),
    ensures
        stepped(old(s), final(s), ident_step(old(s).cs(), old(s).start as int, old(s).line as nat)),
{
    let ghost cs = s.cs();
    let ghost pos = s.start as int;
    while is_ident_continue(s.peek())
        invariant
            s.wf(),
            s.chars == old(s).chars,
            s.start == old(s).start,
            s.events == old(s).events,
            s.line == old(s).line,
            cs == s.chars@,
            pos + 1 <= s.current <= cs.len(),
            ident_end(cs, s.current as int) == ident_end(cs, pos + 1),
        decreases s.chars@.len() - s.current,
    {
        s.current = s.current + 1;
    }
    let lexeme = s.lexeme();
    let ttype = keyword_type(&s.chars, s.start, s.current);
    s.push_token(ttype, lexeme, None);
    assert(s.evs() =~= old(s).evs() + ident_step(cs, pos, old(s).line as nat).0);
}

/// Report the first byte of an unexpected character; the errors for its
/// other bytes are owed, one to each following step.
fn unexpected_input(s: &mut State, c: char) -> (owed: usize)
    requires
        just_bumped(old(s)),
    ensures
        stepped(
            old(s),
            final(s),
            (seq![err_ev(old(s).line as nat, unexpected_msg())], old(s).current as int, old(s).line as nat),
        ),
        owed == utf8_len(c) - 1,
{
    s.record_error("Unexpected character.");
    assert(s.evs() =~= old(s).evs() + seq![err_ev(old(s).line as nat, unexpected_msg())]);
    utf8_len_of(c) - 1
}

/// The state and the errors owed moved as one call of the single step
/// says ([`unit_step`]).
spec fn unit_stepped(old_s: &State, new_s: &State, old_owed: usize, new_owed: usize) -> bool {
    let u = unit_step(old_s.cs(), old_s.current as int, old_s.line as nat, old_owed as nat);
    &&& stepped(old_s, new_s, (u.0, u.1, u.2))
    &&& new_owed == u.3
}

/// One step at `s.start == s.current`: report an error still owed for the
/// bytes of an unexpected character, or consume one token (or whitespace,
/// or a comment, or the first byte of unexpected input). Each call records
/// at most one event and moves forward through the source's bytes.
fn scan_one(s: &mut State, owed: &mut usize)
    requires
        old(s).wf(),
        old(s).start == old(s).current,
        *old(owed) > 0 || old(s).current < old(s).chars@.len(),
    ensures
        unit_stepped(old(s), final(s), *old(owed), *final(owed)),
        final(s).evs().len() <= old(s).evs().len() + 1,
        final(s).line >= old(s).line,
        bytes_done(final(s).cs(), final(s).current as int, *final(owed) as nat) > bytes_done(
            old(s).cs(),
            old(s).current as int,
            *old(owed) as nat,
        ),
{
    let ghost cs = s.cs();
    let ghost pos = s.current as int;
    let ghost line = s.line as nat;
    if *owed > 0 {
        s.record_error("Unexpected character.");
        *owed = *owed - 1;
        assert(s.evs() =~= old(s).evs() + seq![err_ev(line, unexpected_msg())]);
        return;
    }
    proof {
        lemma_step_events(cs, pos, line);
        lemma_step_bounds(cs, pos, line);
    }
    let c = s.bump();
    match c {
        '(' => emit_one(s, TokenType::LeftParen),
        ')' => emit_one(s, TokenType::RightParen),
        '{' => emit_one(s, TokenType::LeftBrace),
        '}' => emit_one(s, TokenType::RightBrace),
        ',' => emit_one(s, TokenType::Comma),
        '.' => emit_one(s, TokenType::Dot),
        '-' => emit_one(s, TokenType::Minus),
        '+' => emit_one(s, TokenType::Plus),
        ';' => emit_one(s, TokenType::Semicolon),
        '*' => emit_one(s, TokenType::Star),
        '!' => emit_two_char(s, '=', TokenType::BangEqual, TokenType::Bang),
        '=' => emit_two_char(s, '=', TokenType::EqualEqual, TokenType::Equal),
        '<' => emit_two_char(s, '=', TokenType::LessEqual, TokenType::Less),
        '>' => emit_two_char(s, '=', TokenType::GreaterEqual, TokenType::Greater),
        '/' => slash_or_comment(s),
        ' ' | '\r' | '\t' => {
            assert(s.evs() =~= old(s).evs() + seq![]);
        },
        '\n' => {
            s.line = s.line + 1;
            assert(s.evs() =~= old(s).evs() + seq![]);
        },
        '"' => string_literal(s),
        _ => {
            if is_digit_char(c) {
                number_literal(s);
            } else if is_ident_start(c) {
                identifier_or_keyword(s);
            } else {
                *owed = unexpected_input(s, c);
            }
        },
    }
    proof {
        lemma_utf8_bytes_take(cs, pos, s.current as int);
    }
}

/// Lazy scanner: hands out the event stream of its source one event per
/// call to [`Scanner::next`], advancing through the source only as far as
/// needed to produce the next event.
pub struct Scanner {
    state: State,
    next_idx: usize,
    eof_pushed: bool,
    owed: usize,
}

impl Scanner {
    /// The characters of the source being scanned.
    pub closed spec fn source(&self) -> Seq<char> {
        self.state.chars@
    }

    /// How many events have been handed out so far.
    pub closed spec fn emitted(&self) -> nat {
        self.next_idx as nat
    }

    /// How far into the source scanning has advanced.
    pub closed spec fn consumed(&self) -> nat {
        self.state.current as nat
    }

    pub closed spec fn wf(&self) -> bool {
        let cs = self.state.chars@;
        &&& self.state.wf()
        &&& self.next_idx <= self.state.events@.len()
        &&& self.state.events@.len() <= scan_events(cs).len()
        &&& self.state.line == 1 + count_newlines(cs.subrange(0, self.state.current as int))
        &&& if self.eof_pushed {
            &&& self.state.evs() == scan_events(cs)
            &&& self.state.current >= cs.len()
            &&& self.owed == 0
        } else {
            self.state.evs() + unexpected_errs(self.owed as nat, self.state.line as nat) + scan_from(
                cs,
                self.state.current as int,
                self.state.line as nat,
            ) == scan_events(cs)
        }
    }

    /// A fresh scanner over `source`.
    pub fn new(source: &str) -> (s: Scanner)
        requires
            source@.len() < usize::MAX,
        ensures
            s.wf(),
            s.source() == source@,
            s.emitted() == 0,
            s.consumed() == 0,
    {
        let chars = chars_of(source);
        let state = State::new(chars);
        let s = Scanner { state, next_idx: 0, eof_pushed: false, owed: 0 };
        assert(s.state.evs() =~= Seq::<ScanEventV>::empty());
        assert(s.state.evs() + unexpected_errs(0, 1) + scan_from(source@, 0, 1) =~= scan_from(
            source@,
            0,
            1,
        ));
        assert(source@.subrange(0, 0) =~= Seq::<char>::empty());
        s
    }

    /// Source line the scanner has reached: one more than the number of
    /// newlines consumed so far.
    pub fn line(&self) -> (n: usize)
        requires
            self.wf(),
        ensures
            n == 1 + count_newlines(self.source().subrange(0, self.consumed() as int)),
            self.consumed() <= self.source().len(),
    {
        self.state.line
    }

    /// The next event of the stream, or `None` once the `EOF` token has
    /// been handed out.
    pub fn next(&mut self) -> (r: Option<ScanEvent>)
        requires
            old(self).wf(),
        ensures
            final(self).wf(),
            final(self).source() == old(self).source(),
            old(self).emitted() < scan_events(old(self).source()).len() ==> {
                &&& r matches Some(e)
                &&& event_view(e) == scan_events(old(self).source())[old(self).emitted() as int]
                &&& final(self).emitted() == old(self).emitted() + 1
            },
            old(self).emitted() >= scan_events(old(self).source()).len() ==> {
                &&& r is None
                &&& final(self).emitted() == old(self).emitted()
            },
            r is None ==> final(self).consumed() == final(self).source().len(),
            r is None ==> *final(self) == *old(self),
            final(self).emitted() <= scan_events(final(self).source()).len(),
    {
        let ghost cs = self.state.chars@;
        loop
            invariant
                self.wf(),
                self.state.chars@ == cs,
                cs == old(self).source(),
                self.next_idx == old(self).next_idx,
                self.eof_pushed ==> (*self == *old(self) || self.next_idx < self.state.events@.len()),
            decreases cs.len() - self.state.current, self.owed, if self.eof_pushed {
                0int
            } else {
                1int
            },
        {
            if self.next_idx < self.state.events.len() {
                let ev = match &self.state.events[self.next_idx] {
                    Ok(t) => Ok(t.clone()),
                    Err(e) => Err(e.clone()),
                };
                proof {
                    let total = scan_events(cs);
                    if self.eof_pushed {
                    } else {
                        let rest = unexpected_errs(self.owed as nat, self.state.line as nat) + scan_from(
                            cs,
                            self.state.current as int,
                            self.state.line as nat,
                        );
                        assert(self.state.evs() + rest =~= self.state.evs() + unexpected_errs(
                            self.owed as nat,
                            self.state.line as nat,
                        ) + scan_from(cs, self.state.current as int, self.state.line as nat));
                        assert(total[self.next_idx as int] == (self.state.evs() + rest)[self.next_idx as int]);
                    }
                }
                self.next_idx = self.next_idx + 1;
                return Some(ev);
            }
            if self.owed == 0 && self.state.at_end() {
                if self.eof_pushed {
                    return None;
                }
                self.state.push_token(TokenType::Eof, String::new(), None);
                self.eof_pushed = true;
                assert(unexpected_errs(0, self.state.line as nat) =~= Seq::<ScanEventV>::empty());
                assert(self.state.evs() =~= scan_events(cs));
                continue;
            }
            self.state.start = self.state.current;
            let ghost pos = self.state.current as int;
            let ghost line = self.state.line as nat;
            let ghost owed0 = self.owed as nat;
            let ghost before = self.state.evs();
            proof {
                if owed0 == 0 {
                    lemma_step_bounds(cs, pos, line);
                    lemma_step_newlines(cs, pos, line);
                    lemma_step_events(cs, pos, line);
                    lemma_count_newlines_split(cs, 0, pos, scan_step(cs, pos, line).1);
                }
            }
            scan_one(&mut self.state, &mut self.owed);
            proof {
                let u = unit_step(cs, pos, line, owed0);
                let err = err_ev(line, unexpected_msg());
                if owed0 > 0 {
                    assert(unexpected_errs(owed0, line) =~= seq![err] + unexpected_errs(
                        (owed0 - 1) as nat,
                        line,
                    ));
                    assert(self.state.evs() + unexpected_errs(self.owed as nat, line) + scan_from(cs, pos, line)
                        =~= before + unexpected_errs(owed0, line) + scan_from(cs, pos, line));
                } else {
                    let st = scan_step(cs, pos, line);
                    assert(scan_from(cs, pos, line) == st.0 + scan_from(cs, st.1, st.2));
                    assert(unexpected_errs(0, line) =~= Seq::<ScanEventV>::empty());
                    if is_unexpected(cs[pos]) {
                        assert(st.0 =~= seq![err] + unexpected_errs((utf8_len(cs[pos]) - 1) as nat, line));
                        assert(self.state.evs() + unexpected_errs(self.owed as nat, line) + scan_from(
                            cs,
                            st.1,
                            st.2,
                        ) =~= before + unexpected_errs(0, line) + scan_from(cs, pos, line));
                    } else {
                        assert(unexpected_errs(self.owed as nat, self.state.line as nat) =~= Seq::<
                            ScanEventV,
                        >::empty());
                        assert(self.state.evs() + unexpected_errs(self.owed as nat, self.state.line as nat)
                            + scan_from(cs, st.1, st.2) =~= before + unexpected_errs(0, line) + scan_from(
                            cs,
                            pos,
                            line,
                        ));
                    }
                }
                assert(self.state.evs().len() <= scan_events(cs).len());
            }
        }
    }

    /// Every event still to be handed out, in stream order: what repeated
    /// calls of [`Scanner::next`] give before the first `None`.
    pub fn into_events(self) -> (r: Vec<ScanEvent>)
        requires
            self.wf(),
        ensures
            events_view(r@) == scan_events(self.source()).skip(self.emitted() as int),
    {
        let ghost total = scan_events(self.source());
        let ghost start = self.emitted() as int;
        let ghost src = self.source();
        let mut sc = self;
        let mut out: Vec<ScanEvent> = Vec::new();
        assert(events_view(out@) =~= total.subrange(start, start));
        loop
            invariant
                sc.wf(),
                sc.source() == src,
                total == scan_events(src),
                0 <= start <= sc.emitted() <= total.len(),
                events_view(out@) == total.subrange(start, sc.emitted() as int),
            ensures
                events_view(out@) == total.subrange(start, total.len() as int),
            decreases total.len() - sc.emitted(),
        {
            let ghost k = sc.emitted() as int;
            let ev = sc.next();
            match ev {
                Some(e) => {
                    let ghost before = out@;
                    proof {
                        lemma_events_view_push(before, e);
                    }
                    out.push(e);
                    assert(total.subrange(start, k + 1) =~= total.subrange(start, k).push(total[k]));
                    assert(events_view(out@) == events_view(before).push(event_view(e)));
                },
                None => {
                    break;
                },
            }
        }
        assert(total.subrange(start, total.len() as int) =~= total.skip(start));
        out
    }
}


pub proof fn lemma_ok_events_take(s: Seq<ScanEventV>, k: int)
    requires
        0 <= k < s.len(),
    ensures
        ok_events(s.take(k + 1)) == match s[k] {
            Ok(t) => ok_events(s.take(k)).push(t),
            Err(_) => ok_events(s.take(k)),
        },
        err_events(s.take(k + 1)) == match s[k] {
            Ok(_) => err_events(s.take(k)),
            Err(e) => err_events(s.take(k)).push(e),
        },
{
    assert(s.take(k + 1).drop_last() =~= s.take(k));
    assert(s.take(k + 1).last() == s[k]);
}

/// Scan `source` into tokens, returning the lexical errors alongside.
///
/// The token vector always ends with the `EOF` token, even when errors were
/// found. The tokens and errors are exactly those of the event stream the
/// lazy [`Scanner`] hands out, in the same order.
pub fn scan(source: &str) -> (r: (Vec<Token>, Vec<LoxError>))
    requires
        source@.len() < usize::MAX,
    ensures
        tokens_view(r.0@) == scanned_tokens(source@),
        errors_view(r.1@) == scanned_errors(source@),
{
    let mut tokens: Vec<Token> = Vec::new();
    let mut errors: Vec<LoxError> = Vec::new();
    let mut sc = Scanner::new(source);
    let ghost total = scan_events(source@);
    assert(total.take(0) =~= Seq::<ScanEventV>::empty());
    assert(tokens_view(tokens@) =~= Seq::<TokenV>::empty());
    assert(errors_view(errors@) =~= Seq::<LoxErrorV>::empty());
    loop
        invariant
            sc.wf(),
            sc.source() == source@,
            total == scan_events(source@),
            sc.emitted() <= total.len(),
            tokens_view(tokens@) == ok_events(total.take(sc.emitted() as int)),
            errors_view(errors@) == err_events(total.take(sc.emitted() as int)),
        ensures
            tokens_view(tokens@) == ok_events(total),
            errors_view(errors@) == err_events(total),
        decreases total.len() - sc.emitted(),
    {
        let ghost k = sc.emitted() as int;
        let ev = sc.next();
        match ev {
            Some(Ok(t)) => {
                proof {
                    lemma_ok_events_take(total, k);
                }
                tokens.push(t);
                assert(tokens_view(tokens@) =~= ok_events(total.take(k + 1)));
            },
            Some(Err(e)) => {
                proof {
                    lemma_ok_events_take(total, k);
                }
                errors.push(e);
                assert(errors_view(errors@) =~= err_events(total.take(k + 1)));
            },
            None => {
                assert(total.take(k) =~= total);
                break;
            },
        }
    }
    (tokens, errors)
}


// ---------------------------------------------------------------------
// Laws of the scanner
// ---------------------------------------------------------------------

pub proof fn lemma_ok_events_concat(a: Seq<ScanEventV>, b: Seq<ScanEventV>)
    ensures
        ok_events(a + b) == ok_events(a) + ok_events(b),
        err_events(a + b) == err_events(a) + err_events(b),
    decreases b.len(),
{
    if b.len() == 0 {
        assert(a + b =~= a);
        assert(ok_events(a) + ok_events(b) =~= ok_events(a));
        assert(err_events(a) + err_events(b) =~= err_events(a));
    } else {
        assert((a + b).drop_last() =~= a + b.drop_last());
        assert((a + b).last() == b.last());
        lemma_ok_events_concat(a, b.drop_last());
        match b.last() {
            Ok(t) => {
                assert(ok_events(a) + ok_events(b.drop_last()).push(t) =~= (ok_events(a)
                    + ok_events(b.drop_last())).push(t));
            },
            Err(e) => {
                assert(err_events(a) + err_events(b.drop_last()).push(e) =~= (err_events(a)
                    + err_events(b.drop_last())).push(e));
            },
        }
    }
}

/// Whether no token of `ts` is an `EOF` token.
pub open spec fn no_eof(ts: Seq<TokenV>) -> bool {
    forall|i: int| 0 <= i < ts.len() ==> #[trigger] ts[i].ttype != TokenType::Eof
}

proof fn lemma_ok_events_no_eof(s: Seq<ScanEventV>)
    requires
        forall|i: int| 0 <= i < s.len() ==> (#[trigger] s[i] matches Ok(t) ==> t.ttype != TokenType::Eof),
    ensures
        no_eof(ok_events(s)),
    decreases s.len(),
{
    if s.len() > 0 {
        assert forall|i: int| 0 <= i < s.drop_last().len() implies (#[trigger] s.drop_last()[i] matches Ok(t)
            ==> t.ttype != TokenType::Eof) by {
            assert(s.drop_last()[i] == s[i]);
        }
        lemma_ok_events_no_eof(s.drop_last());
        assert(s.last() == s[s.len() - 1]);
    }
}

proof fn lemma_keyword_not_eof(lex: Seq<char>)
    ensures
        keyword_kind(lex) != TokenType::Eof,
{
}

proof fn lemma_step_no_eof(cs: Seq<char>, pos: int, line: nat)
    requires
        0 <= pos < cs.len(),
    ensures
        no_eof(ok_events(scan_step(cs, pos, line).0)),
{
    let st = scan_step(cs, pos, line);
    let c = cs[pos];
    if ident_start(c) && !is_digit(c) {
        lemma_keyword_not_eof(cs.subrange(pos, ident_end(cs, pos + 1)));
    }
    assert forall|i: int| 0 <= i < st.0.len() implies (#[trigger] st.0[i] matches Ok(t) ==> t.ttype
        != TokenType::Eof) by {
        if ident_start(c) && !is_digit(c) {
            lemma_keyword_not_eof(cs.subrange(pos, ident_end(cs, pos + 1)));
        }
    }
    lemma_ok_events_no_eof(st.0);
}

proof fn lemma_scan_from_tokens(cs: Seq<char>, pos: int, line: nat)
    requires
        0 <= pos <= cs.len(),
    ensures
        ok_events(scan_from(cs, pos, line)).len() >= 1,
        ok_events(scan_from(cs, pos, line)).last().ttype == TokenType::Eof,
        ok_events(scan_from(cs, pos, line)).last().line == line + count_newlines(
            cs.subrange(pos, cs.len() as int),
        ),
        no_eof(ok_events(scan_from(cs, pos, line)).drop_last()),
    decreases cs.len() - pos,
{
    let all = scan_from(cs, pos, line);
    if pos >= cs.len() {
        let only = tok_ev(TokenType::Eof, seq![], None, line);
        assert(all == seq![only]);
        assert(seq![only].drop_last() =~= Seq::<ScanEventV>::empty());
        assert(ok_events(seq![only]) == ok_events(Seq::<ScanEventV>::empty()).push(
            TokenV { ttype: TokenType::Eof, lexeme: seq![], literal: None, line },
        ));
        assert(cs.subrange(pos, cs.len() as int) =~= Seq::<char>::empty());
        assert(count_newlines(Seq::<char>::empty()) == 0);
        assert(ok_events(all).drop_last() =~= Seq::<TokenV>::empty());
    } else {
        lemma_step_bounds(cs, pos, line);
        lemma_step_newlines(cs, pos, line);
        let st = scan_step(cs, pos, line);
        lemma_scan_from_tokens(cs, st.1, st.2);
        let rest = scan_from(cs, st.1, st.2);
        assert(all == st.0 + rest);
        lemma_ok_events_concat(st.0, rest);
        lemma_step_no_eof(cs, pos, line);
        lemma_count_newlines_split(cs, pos, st.1, cs.len() as int);
        let a = ok_events(st.0);
        let b = ok_events(rest);
        assert(ok_events(all) == a + b);
        assert((a + b).last() == b.last());
        assert((a + b).drop_last() =~= a + b.drop_last());
        assert forall|i: int| 0 <= i < (a + b.drop_last()).len() implies #[trigger] (a
            + b.drop_last())[i].ttype != TokenType::Eof by {
            if i < a.len() {
                assert((a + b.drop_last())[i] == a[i]);
            } else {
                assert((a + b.drop_last())[i] == b.drop_last()[i - a.len()]);
            }
        }
    }
}

/// The token stream of any source ends with the `EOF` token, `EOF` occurs
/// nowhere else in it, and the `EOF` token sits on the last line: one more
/// than the number of newlines in the source.
pub proof fn lemma_trailing_eof(source: Seq<char>)
    ensures
        scanned_tokens(source).len() >= 1,
        scanned_tokens(source).last().ttype == TokenType::Eof,
        scanned_tokens(source).last().line == 1 + count_newlines(source),
        no_eof(scanned_tokens(source).drop_last()),
{
    lemma_scan_from_tokens(source, 0, 1);
    assert(source.subrange(0, source.len() as int) =~= source);
}

/// A number token carries a number literal and a string token a string
/// literal.
pub open spec fn literal_fits(t: TokenV) -> bool {
    match t.literal {
        Some(LiteralV::Number(_)) => t.ttype != TokenType::String,
        Some(LiteralV::Str(_)) => t.ttype != TokenType::Number,
        None => t.ttype != TokenType::Number && t.ttype != TokenType::String,
    }
}

/// Every number token carries a number literal and every string token a
/// string literal.
pub open spec fn literals_attached(ts: Seq<TokenV>) -> bool {
    forall|k: int| 0 <= k < ts.len() ==> #[trigger] literal_fits(ts[k])
}

proof fn lemma_ok_events_all_err(s: Seq<ScanEventV>)
    requires
        forall|i: int| 0 <= i < s.len() ==> #[trigger] s[i] is Err,
    ensures
        ok_events(s) == Seq::<TokenV>::empty(),
    decreases s.len(),
{
    if s.len() > 0 {
        assert(s.last() == s[s.len() - 1]);
        lemma_ok_events_all_err(s.drop_last());
    }
}

pub proof fn lemma_ok_events_single(t: TokenV)
    ensures
        ok_events(seq![Ok::<TokenV, LoxErrorV>(t)]) == seq![t],
{
    let s = seq![Ok::<TokenV, LoxErrorV>(t)];
    assert(s.drop_last() =~= Seq::<ScanEventV>::empty());
    assert(s.last() == Ok::<TokenV, LoxErrorV>(t));
    assert(ok_events(Seq::<ScanEventV>::empty()) =~= Seq::<TokenV>::empty());
    assert(ok_events(s) == ok_events(s.drop_last()).push(t));
    assert(seq![t] =~= Seq::<TokenV>::empty().push(t));
}

proof fn lemma_keyword_not_literal(lex: Seq<char>)
    ensures
        keyword_kind(lex) != TokenType::Number,
        keyword_kind(lex) != TokenType::String,
{
}

/// One step yields at most one token, and a number or string token carries
/// its literal.
proof fn lemma_step_tokens(cs: Seq<char>, pos: int, line: nat)
    requires
        0 <= pos < cs.len(),
    ensures
        ok_events(scan_step(cs, pos, line).0).len() <= 1,
        literals_attached(ok_events(scan_step(cs, pos, line).0)),
{
    let st = scan_step(cs, pos, line);
    let c = cs[pos];
    if st.0.len() == 1 && st.0[0] is Ok {
        assert(st.0 =~= seq![st.0[0]]);
        lemma_ok_events_single(st.0[0]->Ok_0);
        if ident_start(c) && !is_digit(c) && c != '"' {
            lemma_keyword_not_literal(cs.subrange(pos, ident_end(cs, pos + 1)));
        }
    } else {
        assert forall|i: int| 0 <= i < st.0.len() implies #[trigger] st.0[i] is Err by {}
        lemma_ok_events_all_err(st.0);
    }
}

/// The stream from `pos` ends with the `EOF` token (empty lexeme, no
/// literal, on the final line), holds at most one token per remaining
/// character plus `EOF`, and attaches literals to its number and string
/// tokens.
pub proof fn lemma_scan_from_shape(cs: Seq<char>, pos: int, line: nat)
    requires
        0 <= pos <= cs.len(),
    ensures
        scan_from(cs, pos, line).len() >= 1,
        scan_from(cs, pos, line).last() == tok_ev(
            TokenType::Eof,
            seq![],
            None,
            line + count_newlines(cs.subrange(pos, cs.len() as int)),
        ),
        ok_events(scan_from(cs, pos, line)).len() <= cs.len() - pos + 1,
        literals_attached(ok_events(scan_from(cs, pos, line))),
    decreases cs.len() - pos,
{
    let all = scan_from(cs, pos, line);
    if pos >= cs.len() {
        let only = tok_ev(TokenType::Eof, seq![], None, line);
        assert(all == seq![only]);
        lemma_ok_events_single(TokenV { ttype: TokenType::Eof, lexeme: seq![], literal: None, line });
        assert(cs.subrange(pos, cs.len() as int) =~= Seq::<char>::empty());
        assert(count_newlines(Seq::<char>::empty()) == 0);
    } else {
        lemma_step_bounds(cs, pos, line);
        lemma_step_newlines(cs, pos, line);
        lemma_step_tokens(cs, pos, line);
        let st = scan_step(cs, pos, line);
        lemma_scan_from_shape(cs, st.1, st.2);
        let rest = scan_from(cs, st.1, st.2);
        assert(all == st.0 + rest);
        assert((st.0 + rest).last() == rest.last());
        lemma_ok_events_concat(st.0, rest);
        lemma_count_newlines_split(cs, pos, st.1, cs.len() as int);
        let a = ok_events(st.0);
        let b = ok_events(rest);
        assert(ok_events(all) == a + b);
        assert forall|k: int| 0 <= k < (a + b).len() implies #[trigger] literal_fits((a + b)[k]) by {
            if k < a.len() {
                assert((a + b)[k] == a[k]);
            } else {
                assert((a + b)[k] == b[k - a.len()]);
            }
        }
    }
}

/// The eager scan partitions the lazy scanner's event stream (what
/// [`Scanner::next`] hands out, call by call, and [`Scanner::into_events`]
/// collects): its tokens are exactly the stream's tokens and its errors
/// exactly the stream's errors, each in stream order, and together they
/// account for every event. The stream's last event is the `EOF` token, on
/// the source's last line, and no earlier event is an `EOF` token.
pub proof fn lemma_scan_partitions_stream(source: Seq<char>)
    ensures
        scanned_tokens(source) == ok_events(scan_events(source)),
        scanned_errors(source) == err_events(scan_events(source)),
        scanned_tokens(source).len() + scanned_errors(source).len() == scan_events(source).len(),
        scan_events(source).last() == tok_ev(TokenType::Eof, seq![], None, 1 + count_newlines(source)),
        no_eof(ok_events(scan_events(source)).drop_last()),
{
    lemma_partition_len(scan_events(source));
    lemma_scan_from_shape(source, 0, 1);
    lemma_trailing_eof(source);
    assert(source.subrange(0, source.len() as int) =~= source);
}

proof fn lemma_partition_len(s: Seq<ScanEventV>)
    ensures
        ok_events(s).len() + err_events(s).len() == s.len(),
    decreases s.len(),
{
    if s.len() > 0 {
        lemma_partition_len(s.drop_last());
    }
}


// ---------------------------------------------------------------------
// Laws of the character classes
// ---------------------------------------------------------------------

/// An ASCII letter, upper or lower case, or `_`.
pub open spec fn ascii_word_start(c: char) -> bool {
    c == '_' || ('A' <= c && c <= 'Z') || ('a' <= c && c <= 'z')
}

/// An ASCII letter, an ASCII digit or `_`.
pub open spec fn ascii_word_char(c: char) -> bool {
    ascii_word_start(c) || ('0' <= c && c <= '9')
}

/// What one step does at each kind of character outside a lexeme:
/// a space, carriage return or tab is skipped with no event; a newline is
/// skipped with no event and starts the next line; an ASCII letter or `_`
/// begins one identifier (or keyword) token that runs over every letter,
/// digit and `_` that follows and no further; an ASCII digit begins one
/// number token whose literal is its text. None of these reports an error.
pub proof fn lemma_scan_step_laws(cs: Seq<char>, pos: int, line: nat)
    requires
        0 <= pos < cs.len(),
    ensures
        cs[pos] == ' ' || cs[pos] == '\r' || cs[pos] == '\t' ==> scan_step(cs, pos, line) == (
            Seq::<ScanEventV>::empty(),
            pos + 1,
            line,
        ),
        cs[pos] == '\n' ==> scan_step(cs, pos, line) == (Seq::<ScanEventV>::empty(), pos + 1, line + 1),
        ascii_word_start(cs[pos]) ==> {
            let e = scan_step(cs, pos, line).1;
            &&& pos < e <= cs.len()
            &&& scan_step(cs, pos, line).2 == line
            &&& scan_step(cs, pos, line).0 == seq![
                tok_ev(keyword_kind(cs.subrange(pos, e)), cs.subrange(pos, e), None, line),
            ]
            &&& forall|k: int| pos <= k < e ==> ascii_word_char(#[trigger] cs[k])
            &&& e < cs.len() ==> !ascii_word_char(cs[e])
        },
        '0' <= cs[pos] && cs[pos] <= '9' ==> {
            let e = scan_step(cs, pos, line).1;
            &&& pos < e <= cs.len()
            &&& scan_step(cs, pos, line).2 == line
            &&& scan_step(cs, pos, line).0 == seq![
                tok_ev(
                    TokenType::Number,
                    cs.subrange(pos, e),
                    Some(LiteralV::Number(cs.subrange(pos, e))),
                    line,
                ),
            ]
        },
{
    lemma_ident_end(cs, pos + 1);
    lemma_step_bounds(cs, pos, line);
}

/// A letter or `_` on its own is an identifier: no letter is a keyword,
/// and scanning it gives that one identifier token and `EOF`, with no
/// error.
pub proof fn lemma_single_letter_is_identifier(c: char)
    requires
        ascii_word_start(c),
    ensures
        scan_events(seq![c]) == seq![
            tok_ev(TokenType::Identifier, seq![c], None, 1),
            tok_ev(TokenType::Eof, seq![], None, 1),
        ],
{
    let cs = seq![c];
    lemma_scan_step_laws(cs, 0, 1);
    let st = scan_step(cs, 0, 1);
    assert(st.1 == 1);
    assert(cs.subrange(0, 1) =~= cs);
    assert(keyword_kind(cs) == TokenType::Identifier);
    assert(scan_from(cs, 0, 1) == st.0 + scan_from(cs, 1, 1));
    assert(scan_from(cs, 1, 1) == seq![tok_ev(TokenType::Eof, seq![], None, 1)]);
    assert(scan_events(cs) =~= seq![
        tok_ev(TokenType::Identifier, seq![c], None, 1),
        tok_ev(TokenType::Eof, seq![], None, 1),
    ]);
}

/// Blank text (spaces, carriage returns, tabs and newlines only) scans to
/// the `EOF` token alone, on the line after its last newline: whitespace
/// yields no token and no error, wherever a line ends with `\r\n`.
pub proof fn lemma_blank_source(cs: Seq<char>)
    requires
        forall|i: int| 0 <= i < cs.len() ==> (#[trigger] cs[i] == ' ' || cs[i] == '\r' || cs[i] == '\t'
            || cs[i] == '\n'),
    ensures
        scan_events(cs) == seq![tok_ev(TokenType::Eof, seq![], None, 1 + count_newlines(cs))],
{
    lemma_blank_from(cs, 0, 1);
    assert(cs.subrange(0, cs.len() as int) =~= cs);
}

proof fn lemma_blank_from(cs: Seq<char>, pos: int, line: nat)
    requires
        0 <= pos <= cs.len(),
        forall|i: int| 0 <= i < cs.len() ==> (#[trigger] cs[i] == ' ' || cs[i] == '\r' || cs[i] == '\t'
            || cs[i] == '\n'),
    ensures
        scan_from(cs, pos, line) == seq![
            tok_ev(TokenType::Eof, seq![], None, line + count_newlines(cs.subrange(pos, cs.len() as int))),
        ],
    decreases cs.len() - pos,
{
    if pos == cs.len() {
        assert(cs.subrange(pos, cs.len() as int) =~= Seq::<char>::empty());
    } else {
        let c = cs[pos];
        lemma_scan_step_laws(cs, pos, line);
        let nl = if c == '\n' {
            1nat
        } else {
            0nat
        };
        lemma_blank_from(cs, pos + 1, line + nl);
        lemma_count_newlines_split(cs, pos, pos + 1, cs.len() as int);
        assert(cs.subrange(pos, pos + 1) =~= seq![c]);
        lemma_count_newlines_single(c);
        assert(scan_from(cs, pos, line) == scan_step(cs, pos, line).0 + scan_from(
            cs,
            scan_step(cs, pos, line).1,
            scan_step(cs, pos, line).2,
        ));
        assert(Seq::<ScanEventV>::empty() + scan_from(cs, pos + 1, line + nl) =~= scan_from(
            cs,
            pos + 1,
            line + nl,
        ));
    }
}


/// The token type a character names on its own, for the characters that
/// are always a token of one character.
pub open spec fn single_char_kind(c: char) -> Option<TokenType> {
    if c == '(' {
        Some(TokenType::LeftParen)
    } else if c == ')' {
        Some(TokenType::RightParen)
    } else if c == '{' {
        Some(TokenType::LeftBrace)
    } else if c == '}' {
        Some(TokenType::RightBrace)
    } else if c == ',' {
        Some(TokenType::Comma)
    } else if c == '.' {
        Some(TokenType::Dot)
    } else if c == '-' {
        Some(TokenType::Minus)
    } else if c == '+' {
        Some(TokenType::Plus)
    } else if c == ';' {
        Some(TokenType::Semicolon)
    } else if c == '*' {
        Some(TokenType::Star)
    } else {
        None
    }
}

/// The operator a character begins, alone and when followed by `=`.
pub open spec fn operator_kinds(c: char) -> Option<(TokenType, TokenType)> {
    if c == '!' {
        Some((TokenType::Bang, TokenType::BangEqual))
    } else if c == '=' {
        Some((TokenType::Equal, TokenType::EqualEqual))
    } else if c == '<' {
        Some((TokenType::Less, TokenType::LessEqual))
    } else if c == '>' {
        Some((TokenType::Greater, TokenType::GreaterEqual))
    } else {
        None
    }
}

/// What one step does at punctuation, operators, comments and strings: a
/// punctuation character is one token of its own; `!`, `=`, `<` and `>`
/// are one token, two characters long when `=` follows; `//` skips the
/// rest of the line with no event (the newline is left for the next
/// step); a `/` alone is a `SLASH`; a string runs to the next `"`, its
/// literal is the text between the quotes and its newlines count, and a
/// string with no closing quote is reported once, on the last line.
pub proof fn lemma_scan_punctuation_laws(cs: Seq<char>, pos: int, line: nat)
    requires
        0 <= pos < cs.len(),
    ensures
        single_char_kind(cs[pos]) matches Some(t) ==> scan_step(cs, pos, line) == (
            seq![tok_ev(t, seq![cs[pos]], None, line)],
            pos + 1,
            line,
        ),
        operator_kinds(cs[pos]) matches Some((one, two)) ==> scan_step(cs, pos, line) == if pos + 1
            < cs.len() && cs[pos + 1] == '=' {
            (seq![tok_ev(two, seq![cs[pos], '='], None, line)], pos + 2, line)
        } else {
            (seq![tok_ev(one, seq![cs[pos]], None, line)], pos + 1, line)
        },
        cs[pos] == '/' && pos + 1 < cs.len() && cs[pos + 1] == '/' ==> {
            let e = scan_step(cs, pos, line).1;
            &&& scan_step(cs, pos, line).0.len() == 0
            &&& scan_step(cs, pos, line).2 == line
            &&& pos + 2 <= e <= cs.len()
            &&& forall|k: int| pos + 2 <= k < e ==> #[trigger] cs[k] != '\n'
            &&& e < cs.len() ==> cs[e] == '\n'
        },
        cs[pos] == '/' && !(pos + 1 < cs.len() && cs[pos + 1] == '/') ==> scan_step(cs, pos, line) == (
            seq![tok_ev(TokenType::Slash, seq!['/'], None, line)],
            pos + 1,
            line,
        ),
        cs[pos] == '"' ==> {
            let st = scan_step(cs, pos, line);
            let e = string_end(cs, pos + 1);
            &&& pos + 1 <= e <= cs.len()
            &&& forall|k: int| pos + 1 <= k < e ==> #[trigger] cs[k] != '"'
            &&& st.2 == line + count_newlines(cs.subrange(pos + 1, e))
            &&& e < cs.len() ==> cs[e] == '"' && st.1 == e + 1 && st.0 == seq![
                tok_ev(TokenType::String, cs.subrange(pos, e + 1), Some(LiteralV::Str(cs.subrange(pos + 1, e))), st.2),
            ]
            &&& e == cs.len() ==> st.1 == e && st.0 == seq![err_ev(st.2, "Unterminated string."@)]
        },
{
    lemma_string_end(cs, pos + 1);
    if pos + 2 <= cs.len() {
        lemma_comment_end(cs, pos + 2);
    }
    let c = cs[pos];
    if single_char_kind(c) is Some {
        assert(cs.subrange(pos, pos + 1) =~= seq![c]);
    }
    if operator_kinds(c) is Some {
        assert(cs.subrange(pos, pos + 1) =~= seq![c]);
        if pos + 1 < cs.len() {
            assert(cs.subrange(pos, pos + 2) =~= seq![c, cs[pos + 1]]);
        }
    }
    if c == '/' {
        assert(cs.subrange(pos, pos + 1) =~= seq!['/']);
    }
}


/// How each keyword is spelled.
pub open spec fn keyword_spelling(t: TokenType) -> Option<Seq<char>> {
    match t {
        TokenType::And => Some("and"@),
        TokenType::Class => Some("class"@),
        TokenType::Else => Some("else"@),
        TokenType::False => Some("false"@),
        TokenType::For => Some("for"@),
        TokenType::Fun => Some("fun"@),
        TokenType::If => Some("if"@),
        TokenType::Nil => Some("nil"@),
        TokenType::Or => Some("or"@),
        TokenType::Print => Some("print"@),
        TokenType::Return => Some("return"@),
        TokenType::Super => Some("super"@),
        TokenType::This => Some("this"@),
        TokenType::True => Some("true"@),
        TokenType::Var => Some("var"@),
        TokenType::While => Some("while"@),
        _ => None,
    }
}

/// A word is a keyword exactly when it is spelled as one: every keyword's
/// spelling scans as that keyword, and a word that is not an identifier
/// is the spelling of the keyword it scans as.
pub proof fn lemma_keywords(lex: Seq<char>, t: TokenType)
    ensures
        keyword_spelling(t) matches Some(w) ==> keyword_kind(w) == t,
        keyword_kind(lex) != TokenType::Identifier ==> keyword_spelling(keyword_kind(lex)) == Some(lex),
{
    reveal_strlit("and");
    reveal_strlit("class");
    reveal_strlit("else");
    reveal_strlit("false");
    reveal_strlit("for");
    reveal_strlit("fun");
    reveal_strlit("if");
    reveal_strlit("nil");
    reveal_strlit("or");
    reveal_strlit("print");
    reveal_strlit("return");
    reveal_strlit("super");
    reveal_strlit("this");
    reveal_strlit("true");
    reveal_strlit("var");
    reveal_strlit("while");
    assert("and"@ =~= seq!['a', 'n', 'd']);
    assert("class"@ =~= seq!['c', 'l', 'a', 's', 's']);
    assert("else"@ =~= seq!['e', 'l', 's', 'e']);
    assert("false"@ =~= seq!['f', 'a', 'l', 's', 'e']);
    assert("for"@ =~= seq!['f', 'o', 'r']);
    assert("fun"@ =~= seq!['f', 'u', 'n']);
    assert("if"@ =~= seq!['i', 'f']);
    assert("nil"@ =~= seq!['n', 'i', 'l']);
    assert("or"@ =~= seq!['o', 'r']);
    assert("print"@ =~= seq!['p', 'r', 'i', 'n', 't']);
    assert("return"@ =~= seq!['r', 'e', 't', 'u', 'r', 'n']);
    assert("super"@ =~= seq!['s', 'u', 'p', 'e', 'r']);
    assert("this"@ =~= seq!['t', 'h', 'i', 's']);
    assert("true"@ =~= seq!['t', 'r', 'u', 'e']);
    assert("var"@ =~= seq!['v', 'a', 'r']);
    assert("while"@ =~= seq!['w', 'h', 'i', 'l', 'e']);
}


/// An ASCII decimal digit.
pub open spec fn ascii_digit(c: char) -> bool {
    '0' <= c && c <= '9'
}

/// A number literal is the longest run of digits, taking a `.` and the
/// digits after it only when a digit follows the `.`: its text holds
/// digits and at most one `.`, ends with a digit, is not followed by a
/// digit, and is followed by `.` and a digit only if it already has its
/// fraction.
pub proof fn lemma_number_law(cs: Seq<char>, pos: int, line: nat)
    requires
        0 <= pos < cs.len(),
        ascii_digit(cs[pos]),
    ensures
        ({
            let e = scan_step(cs, pos, line).1;
            &&& pos < e <= cs.len()
            &&& forall|k: int| pos <= k < e ==> ascii_digit(#[trigger] cs[k]) || cs[k] == '.'
            &&& forall|k1: int, k2: int| pos <= k1 < k2 < e ==> !(#[trigger] cs[k1] == '.' && #[trigger] cs[k2] == '.')
            &&& ascii_digit(cs[e - 1])
            &&& e < cs.len() ==> !ascii_digit(cs[e])
            &&& e + 1 < cs.len() && cs[e] == '.' && ascii_digit(cs[e + 1]) ==> exists|k: int|
                pos < k < e && #[trigger] cs[k] == '.'
        }),
{
    lemma_digits_end(cs, pos + 1);
    let d1 = digits_end(cs, pos + 1);
    if d1 + 1 <= cs.len() {
        lemma_digits_end(cs, d1 + 1);
    }
    let e = scan_step(cs, pos, line).1;
    assert(e == number_end(cs, pos + 1));
    if char_at(cs, d1) == '.' && is_digit(char_at(cs, d1 + 1)) {
        let d2 = digits_end(cs, d1 + 1);
        assert(e == d2);
        assert(cs[d1] == '.');
        assert(d2 > d1 + 1);
        assert forall|k: int| pos <= k < e implies ascii_digit(#[trigger] cs[k]) || cs[k] == '.' by {
            if k == pos {
            } else if k < d1 {
                assert(is_digit(cs[k]));
            } else if k > d1 {
                assert(is_digit(cs[k]));
            }
        }
        assert forall|k1: int, k2: int| pos <= k1 < k2 < e implies !(#[trigger] cs[k1] == '.'
            && #[trigger] cs[k2] == '.') by {
            if k1 > pos && k1 < d1 {
                assert(is_digit(cs[k1]));
            }
            if k2 > d1 {
                assert(is_digit(cs[k2]));
            }
        }
        assert(is_digit(cs[e - 1]));
        if e + 1 < cs.len() && cs[e] == '.' && ascii_digit(cs[e + 1]) {
            assert(pos < d1 < e && cs[d1] == '.');
        }
    } else {
        assert(e == d1);
        assert forall|k: int| pos <= k < e implies ascii_digit(#[trigger] cs[k]) || cs[k] == '.' by {
            if k > pos {
                assert(is_digit(cs[k]));
            }
        }
        assert forall|k1: int, k2: int| pos <= k1 < k2 < e implies !(#[trigger] cs[k1] == '.'
            && #[trigger] cs[k2] == '.') by {
            assert(is_digit(cs[k2]));
        }
        if e - 1 > pos {
            assert(is_digit(cs[e - 1]));
        }
        if e + 1 < cs.len() && cs[e] == '.' && ascii_digit(cs[e + 1]) {
            assert(char_at(cs, d1) == '.');
            assert(is_digit(char_at(cs, d1 + 1)));
        }
    }
}


/// The number of errors an unexpected character is reported with is the
/// length of its UTF-8 encoding.
pub proof fn lemma_utf8_len_is_encoding_length(c: char)
    ensures
        utf8_len(c) == vstd::utf8::encode_utf8(seq![c]).len(),
{
    assert(seq![c].drop_first() =~= Seq::<char>::empty());
    assert(seq![c][0] == c);
    assert(vstd::utf8::encode_utf8(seq![c]) == vstd::utf8::encode_scalar(c as u32) + vstd::utf8::encode_utf8(
        Seq::<char>::empty(),
    ));
}

} // verus!
