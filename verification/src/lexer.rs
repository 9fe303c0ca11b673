//! The lexer: from the bytes of the source text to a sequence of tokens.
use vstd::prelude::*;
use vstd::string::StringSliceAdditionalSpecFns;
use crate::text::{decimal, push_char, push_decimal};

verus! {

/// A token of the source language.
#[derive(Debug, PartialEq, Eq, Clone)]
pub enum Token {
    Num(u64),
    Plus,
    Minus,
    Mult,
    Div,
    ParL,
    ParR,
    Eq,
    Neq,
    Gt,
    Geq,
    Lt,
    Leq,
    Id(String),
    Assign,
    Semi,
    Return,
    Comma,
    BraceL,
    BraceR,
    If,
    Else,
    While,
    For,
    Amp,
}

/// The mathematical value of a token: an identifier is its sequence of characters.
pub enum SToken {
    Num(u64),
    Plus,
    Minus,
    Mult,
    Div,
    ParL,
    ParR,
    Eq,
    Neq,
    Gt,
    Geq,
    Lt,
    Leq,
    Id(Seq<char>),
    Assign,
    Semi,
    Return,
    Comma,
    BraceL,
    BraceR,
    If,
    Else,
    While,
    For,
    Amp,
}

impl View for Token {
    type V = SToken;

    open spec fn view(&self) -> SToken {
        match self {
            Token::Num(n) => SToken::Num(*n),
            Token::Plus => SToken::Plus,
            Token::Minus => SToken::Minus,
            Token::Mult => SToken::Mult,
            Token::Div => SToken::Div,
            Token::ParL => SToken::ParL,
            Token::ParR => SToken::ParR,
            Token::Eq => SToken::Eq,
            Token::Neq => SToken::Neq,
            Token::Gt => SToken::Gt,
            Token::Geq => SToken::Geq,
            Token::Lt => SToken::Lt,
            Token::Leq => SToken::Leq,
            Token::Id(s) => SToken::Id(s@),
            Token::Assign => SToken::Assign,
            Token::Semi => SToken::Semi,
            Token::Return => SToken::Return,
            Token::Comma => SToken::Comma,
            Token::BraceL => SToken::BraceL,
            Token::BraceR => SToken::BraceR,
            Token::If => SToken::If,
            Token::Else => SToken::Else,
            Token::While => SToken::While,
            Token::For => SToken::For,
            Token::Amp => SToken::Amp,
        }
    }
}

/// The views of a sequence of tokens.
pub open spec fn tokens_view(ts: Seq<Token>) -> Seq<SToken> {
    ts.map_values(|t: Token| t@)
}

/// ASCII decimal digit.
pub open spec fn is_digit(b: u8) -> bool {
    48 <= b <= 57
}

/// ASCII letter.
pub open spec fn is_alpha(b: u8) -> bool {
    (65 <= b <= 90) || (97 <= b <= 122)
}

/// ASCII letter or digit.
pub open spec fn is_alnum(b: u8) -> bool {
    is_digit(b) || is_alpha(b)
}

/// ASCII whitespace: space, tab, line feed, form feed, carriage return.
pub open spec fn is_space(b: u8) -> bool {
    b == 32 || b == 9 || b == 10 || b == 12 || b == 13
}

/// The end of the run of digits that starts at `i`.
pub open spec fn digit_run_end(b: Seq<u8>, i: int) -> int
    decreases b.len() - i,
{
    if 0 <= i < b.len() && is_digit(b[i]) {
        digit_run_end(b, i + 1)
    } else {
        i
    }
}

/// The end of the run of letters and digits that starts at `i`.
pub open spec fn alnum_run_end(b: Seq<u8>, i: int) -> int
    decreases b.len() - i,
{
    if 0 <= i < b.len() && is_alnum(b[i]) {
        alnum_run_end(b, i + 1)
    } else {
        i
    }
}

/// The value of a sequence of decimal digits.
pub open spec fn digits_value(s: Seq<u8>) -> nat
    decreases s.len(),
{
    if s.len() == 0 {
        0
    } else {
        digits_value(s.drop_last()) * 10 + (s.last() - 48) as nat
    }
}

/// The characters of ASCII bytes.
pub open spec fn ascii_chars(s: Seq<u8>) -> Seq<char> {
    s.map_values(|x: u8| x as char)
}

/// The token of a word of letters and digits: a keyword, or else an identifier.
pub open spec fn word_token(w: Seq<char>) -> SToken {
    if w == "return"@ {
        SToken::Return
    } else if w == "if"@ {
        SToken::If
    } else if w == "else"@ {
        SToken::Else
    } else if w == "while"@ {
        SToken::While
    } else if w == "for"@ {
        SToken::For
    } else {
        SToken::Id(w)
    }
}

/// The punctuation token at `pos` and its length in bytes, if there is one.
pub open spec fn punct_token(b: Seq<u8>, pos: int) -> Option<(SToken, int)> {
    let c = b[pos];
    let next_is_eq = pos + 1 < b.len() && b[pos + 1] == 61;
    if c == 43 {
        Some((SToken::Plus, 1))
    } else if c == 45 {
        Some((SToken::Minus, 1))
    } else if c == 42 {
        Some((SToken::Mult, 1))
    } else if c == 47 {
        Some((SToken::Div, 1))
    } else if c == 40 {
        Some((SToken::ParL, 1))
    } else if c == 41 {
        Some((SToken::ParR, 1))
    } else if c == 62 {
        if next_is_eq { Some((SToken::Geq, 2)) } else { Some((SToken::Gt, 1)) }
    } else if c == 60 {
        if next_is_eq { Some((SToken::Leq, 2)) } else { Some((SToken::Lt, 1)) }
    } else if c == 61 {
        if next_is_eq { Some((SToken::Eq, 2)) } else { Some((SToken::Assign, 1)) }
    } else if c == 33 {
        if next_is_eq { Some((SToken::Neq, 2)) } else { None }
    } else if c == 59 {
        Some((SToken::Semi, 1))
    } else if c == 44 {
        Some((SToken::Comma, 1))
    } else if c == 123 {
        Some((SToken::BraceL, 1))
    } else if c == 125 {
        Some((SToken::BraceR, 1))
    } else if c == 38 {
        Some((SToken::Amp, 1))
    } else {
        None
    }
}

/// What lexing a byte sequence gives: the tokens, the position of the first
/// invalid character, or a number literal that does not fit in 64 bits.
pub enum LexOutcome {
    Tokens(Seq<SToken>),
    Invalid(nat),
    Overflow,
}

/// `t` in front of the tokens of an outcome.
pub open spec fn prepend(t: Seq<SToken>, o: LexOutcome) -> LexOutcome {
    match o {
        LexOutcome::Tokens(ts) => LexOutcome::Tokens(t + ts),
        _ => o,
    }
}

pub proof fn lemma_digit_run_end(b: Seq<u8>, i: int)
    ensures
        digit_run_end(b, i) >= i,
        0 <= i ==> digit_run_end(b, i) <= b.len() || digit_run_end(b, i) == i,
        forall|k: int| i <= k < digit_run_end(b, i) ==> is_digit(#[trigger] b[k]),
        0 <= i ==> !(0 <= digit_run_end(b, i) < b.len() && is_digit(b[digit_run_end(b, i)])),
    decreases b.len() - i,
{
    if 0 <= i < b.len() && is_digit(b[i]) {
        lemma_digit_run_end(b, i + 1);
    }
}

pub proof fn lemma_alnum_run_end(b: Seq<u8>, i: int)
    ensures
        alnum_run_end(b, i) >= i,
        0 <= i ==> alnum_run_end(b, i) <= b.len() || alnum_run_end(b, i) == i,
        forall|k: int| i <= k < alnum_run_end(b, i) ==> is_alnum(#[trigger] b[k]),
        0 <= i ==> !(0 <= alnum_run_end(b, i) < b.len() && is_alnum(b[alnum_run_end(b, i)])),
    decreases b.len() - i,
{
    if 0 <= i < b.len() && is_alnum(b[i]) {
        lemma_alnum_run_end(b, i + 1);
    }
}

/// Lexing of the bytes from `pos` on.
pub open spec fn lex_from(b: Seq<u8>, pos: int) -> LexOutcome
    decreases b.len() - pos,
{
    if pos < 0 || pos >= b.len() {
        LexOutcome::Tokens(seq![])
    } else {
        let c = b[pos];
        if is_digit(c) {
            let end = digit_run_end(b, pos + 1);
            proof {
                lemma_digit_run_end(b, pos + 1);
            }
            let v = digits_value(b.subrange(pos, end));
            if v > u64::MAX {
                LexOutcome::Overflow
            } else {
                prepend(seq![SToken::Num(v as u64)], lex_from(b, end))
            }
        } else if is_space(c) {
            lex_from(b, pos + 1)
        } else if is_alpha(c) {
            let end = alnum_run_end(b, pos + 1);
            proof {
                lemma_alnum_run_end(b, pos + 1);
            }
            prepend(seq![word_token(ascii_chars(b.subrange(pos, end)))], lex_from(b, end))
        } else {
            match punct_token(b, pos) {
                Some((t, len)) => if len >= 1 {
                    prepend(seq![t], lex_from(b, pos + len))
                } else {
                    LexOutcome::Invalid(pos as nat)
                },
                None => LexOutcome::Invalid(pos as nat),
            }
        }
    }
}

/// Lexing of a whole byte sequence.
pub open spec fn lex_spec(b: Seq<u8>) -> LexOutcome {
    lex_from(b, 0)
}

/// The outcome of lexing a prefix, continued by the outcome `tail` of lexing
/// what follows it.
pub open spec fn glue(o: LexOutcome, tail: LexOutcome) -> LexOutcome {
    match o {
        LexOutcome::Tokens(t) => prepend(t, tail),
        _ => o,
    }
}

/// An outcome with its invalid position, if any, moved `d` bytes on.
pub open spec fn shift(o: LexOutcome, d: nat) -> LexOutcome {
    match o {
        LexOutcome::Invalid(p) => LexOutcome::Invalid(p + d),
        _ => o,
    }
}

proof fn lemma_glue_prepend(t: Seq<SToken>, o: LexOutcome, tail: LexOutcome)
    ensures
        glue(prepend(t, o), tail) == prepend(t, glue(o, tail)),
{
    if let LexOutcome::Tokens(u) = o {
        if let LexOutcome::Tokens(v) = tail {
            assert(t + u + v =~= t + (u + v));
        }
    }
}

proof fn lemma_run_ends_prefix(b1: Seq<u8>, rest: Seq<u8>, i: int)
    requires
        rest.len() > 0,
        is_space(rest[0]),
        0 <= i <= b1.len(),
    ensures
        digit_run_end(b1 + rest, i) == digit_run_end(b1, i),
        alnum_run_end(b1 + rest, i) == alnum_run_end(b1, i),
    decreases b1.len() - i,
{
    let b = b1 + rest;
    if i < b1.len() {
        assert(b[i] == b1[i]);
        lemma_run_ends_prefix(b1, rest, i + 1);
    } else {
        assert(b[i] == rest[0]);
    }
}

proof fn lemma_run_ends_shift(a: Seq<u8>, c: Seq<u8>, i: int)
    requires
        0 <= i <= c.len(),
    ensures
        digit_run_end(a + c, a.len() + i) == a.len() + digit_run_end(c, i),
        alnum_run_end(a + c, a.len() + i) == a.len() + alnum_run_end(c, i),
    decreases c.len() - i,
{
    if i < c.len() {
        assert((a + c)[a.len() + i] == c[i]);
        lemma_run_ends_shift(a, c, i + 1);
    }
}

/// Lexing `b1` followed by text that starts with whitespace: the tokens of
/// `b1` come first, and the rest is lexed as if `b1` were not there.
proof fn lemma_lex_prefix(b1: Seq<u8>, rest: Seq<u8>, pos: int)
    requires
        rest.len() > 0,
        is_space(rest[0]),
        0 <= pos <= b1.len(),
    ensures
        lex_from(b1 + rest, pos) == glue(lex_from(b1, pos), lex_from(b1 + rest, b1.len() as int)),
    decreases b1.len() - pos,
{
    let b = b1 + rest;
    let tail = lex_from(b, b1.len() as int);
    if pos == b1.len() {
        if let LexOutcome::Tokens(u) = tail {
            assert(Seq::<SToken>::empty() + u =~= u);
        }
    } else {
        let c = b1[pos];
        assert(b[pos] == c);
        if is_digit(c) {
            lemma_run_ends_prefix(b1, rest, pos + 1);
            lemma_digit_run_end(b1, pos + 1);
            let end = digit_run_end(b1, pos + 1);
            assert(b.subrange(pos, end) =~= b1.subrange(pos, end));
            lemma_lex_prefix(b1, rest, end);
            let v = digits_value(b1.subrange(pos, end));
            if v <= u64::MAX {
                lemma_glue_prepend(seq![SToken::Num(v as u64)], lex_from(b1, end), tail);
            }
        } else if is_space(c) {
            lemma_lex_prefix(b1, rest, pos + 1);
        } else if is_alpha(c) {
            lemma_run_ends_prefix(b1, rest, pos + 1);
            lemma_alnum_run_end(b1, pos + 1);
            let end = alnum_run_end(b1, pos + 1);
            assert(b.subrange(pos, end) =~= b1.subrange(pos, end));
            lemma_lex_prefix(b1, rest, end);
            lemma_glue_prepend(seq![word_token(ascii_chars(b1.subrange(pos, end)))], lex_from(b1, end), tail);
        } else {
            if pos + 1 < b1.len() {
                assert(b[pos + 1] == b1[pos + 1]);
            } else {
                assert(b[pos + 1] == rest[0]);
            }
            assert(punct_token(b, pos) == punct_token(b1, pos));
            if let Some((t, len)) = punct_token(b1, pos) {
                if len >= 1 {
                    lemma_lex_prefix(b1, rest, pos + len);
                    lemma_glue_prepend(seq![t], lex_from(b1, pos + len), tail);
                }
            }
        }
    }
}

/// Lexing `c` after `a`, from a position in `c`: what lexing `c` alone gives,
/// with an invalid position counted from the start of `a`.
proof fn lemma_lex_shift(a: Seq<u8>, c: Seq<u8>, k: int)
    requires
        0 <= k <= c.len(),
    ensures
        lex_from(a + c, a.len() + k) == shift(lex_from(c, k), a.len()),
    decreases c.len() - k,
{
    let b = a + c;
    let pos = a.len() + k;
    if k < c.len() {
        let ch = c[k];
        assert(b[pos] == ch);
        if is_digit(ch) {
            lemma_run_ends_shift(a, c, k + 1);
            lemma_digit_run_end(c, k + 1);
            let end = digit_run_end(c, k + 1);
            assert(b.subrange(pos, a.len() + end) =~= c.subrange(k, end));
            lemma_lex_shift(a, c, end);
        } else if is_space(ch) {
            lemma_lex_shift(a, c, k + 1);
        } else if is_alpha(ch) {
            lemma_run_ends_shift(a, c, k + 1);
            lemma_alnum_run_end(c, k + 1);
            let end = alnum_run_end(c, k + 1);
            assert(b.subrange(pos, a.len() + end) =~= c.subrange(k, end));
            lemma_lex_shift(a, c, end);
        } else {
            if k + 1 < c.len() {
                assert(b[pos + 1] == c[k + 1]);
            }
            assert(punct_token(b, pos) == punct_token(c, k));
            if let Some((t, len)) = punct_token(c, k) {
                if len >= 1 {
                    lemma_lex_shift(a, c, k + len);
                }
            }
        }
    }
}

/// Whitespace only separates tokens: lexing two texts joined by one
/// whitespace byte gives the tokens of the first followed by those of the
/// second.
pub proof fn lex_joined_by_space(b1: Seq<u8>, sep: u8, b2: Seq<u8>)
    requires
        is_space(sep),
        lex_spec(b1) is Tokens,
        lex_spec(b2) is Tokens,
    ensures
        lex_spec(b1 + seq![sep] + b2) == LexOutcome::Tokens(
            lex_spec(b1)->Tokens_0 + lex_spec(b2)->Tokens_0,
        ),
{
    let b = b1 + seq![sep] + b2;
    let rest = seq![sep] + b2;
    assert(b =~= b1 + rest);
    lemma_lex_prefix(b1, rest, 0);
    assert(b[b1.len() as int] == sep);
    lemma_lex_shift(b1 + seq![sep], b2, 0);
    assert((b1 + seq![sep]).len() == b1.len() + 1);
}

/// Whitespace around a text changes nothing but the position of an invalid
/// character, which moves one byte on for a leading whitespace byte.
pub proof fn lex_with_surrounding_space(b: Seq<u8>, sep: u8)
    requires
        is_space(sep),
    ensures
        lex_spec(seq![sep] + b) == shift(lex_spec(b), 1),
        lex_spec(b + seq![sep]) == lex_spec(b),
{
    lemma_lex_shift(seq![sep], b, 0);
    assert((seq![sep] + b)[0] == sep);
    let rest = seq![sep];
    lemma_lex_prefix(b, rest, 0);
    assert((b + rest)[b.len() as int] == sep);
    assert(lex_from(b + rest, b.len() as int + 1) == LexOutcome::Tokens(Seq::<SToken>::empty()));
    assert(lex_from(b + rest, b.len() as int) == LexOutcome::Tokens(Seq::<SToken>::empty()));
    if let LexOutcome::Tokens(t) = lex_spec(b) {
        assert(t + Seq::<SToken>::empty() =~= t);
    }
}

/// An ASCII letter.
pub open spec fn is_alpha_char(c: char) -> bool {
    ('a' <= c && c <= 'z') || ('A' <= c && c <= 'Z')
}

/// A token that its spelling gives back: an identifier must be a letter
/// followed by letters and digits, and not a keyword.
pub open spec fn spellable(t: SToken) -> bool {
    match t {
        SToken::Id(x) => {
            &&& x.len() > 0
            &&& is_alpha_char(x[0])
            &&& forall|i: int| 0 <= i < x.len() ==> is_alnum_char(#[trigger] x[i])
            &&& word_token(x) == SToken::Id(x)
        },
        _ => true,
    }
}

/// The bytes of ASCII characters.
pub open spec fn char_bytes(s: Seq<char>) -> Seq<u8> {
    s.map_values(|c: char| c as u8)
}

/// The decimal digits of `n`, as bytes.
pub open spec fn decimal_bytes(n: nat) -> Seq<u8>
    decreases n,
{
    if n < 10 {
        seq![(n + 48) as u8]
    } else {
        decimal_bytes(n / 10).push((n % 10 + 48) as u8)
    }
}

/// The source text of a token.
pub open spec fn spelling(t: SToken) -> Seq<u8> {
    match t {
        SToken::Num(n) => decimal_bytes(n as nat),
        SToken::Id(x) => char_bytes(x),
        SToken::Plus => char_bytes("+"@),
        SToken::Minus => char_bytes("-"@),
        SToken::Mult => char_bytes("*"@),
        SToken::Div => char_bytes("/"@),
        SToken::ParL => char_bytes("("@),
        SToken::ParR => char_bytes(")"@),
        SToken::Eq => char_bytes("=="@),
        SToken::Neq => char_bytes("!="@),
        SToken::Gt => char_bytes(">"@),
        SToken::Geq => char_bytes(">="@),
        SToken::Lt => char_bytes("<"@),
        SToken::Leq => char_bytes("<="@),
        SToken::Assign => char_bytes("="@),
        SToken::Semi => char_bytes(";"@),
        SToken::Return => char_bytes("return"@),
        SToken::Comma => char_bytes(","@),
        SToken::BraceL => char_bytes("{"@),
        SToken::BraceR => char_bytes("}"@),
        SToken::If => char_bytes("if"@),
        SToken::Else => char_bytes("else"@),
        SToken::While => char_bytes("while"@),
        SToken::For => char_bytes("for"@),
        SToken::Amp => char_bytes("&"@),
    }
}

/// The spellings of tokens, separated by single spaces.
pub open spec fn spelled(ts: Seq<SToken>) -> Seq<u8>
    decreases ts.len(),
{
    if ts.len() == 0 {
        seq![]
    } else if ts.len() == 1 {
        spelling(ts[0])
    } else {
        spelled(ts.drop_last()) + seq![32u8] + spelling(ts.last())
    }
}

proof fn lemma_digit_run_all(b: Seq<u8>, i: int)
    requires
        0 <= i <= b.len(),
        forall|k: int| i <= k < b.len() ==> is_digit(#[trigger] b[k]),
    ensures
        digit_run_end(b, i) == b.len(),
    decreases b.len() - i,
{
    if i < b.len() {
        lemma_digit_run_all(b, i + 1);
    }
}

proof fn lemma_alnum_run_all(b: Seq<u8>, i: int)
    requires
        0 <= i <= b.len(),
        forall|k: int| i <= k < b.len() ==> is_alnum(#[trigger] b[k]),
    ensures
        alnum_run_end(b, i) == b.len(),
    decreases b.len() - i,
{
    if i < b.len() {
        lemma_alnum_run_all(b, i + 1);
    }
}

proof fn lemma_decimal_bytes(n: nat)
    ensures
        decimal_bytes(n).len() >= 1,
        forall|k: int| 0 <= k < decimal_bytes(n).len() ==> is_digit(#[trigger] decimal_bytes(n)[k]),
        digits_value(decimal_bytes(n)) == n,
    decreases n,
{
    if n >= 10 {
        lemma_decimal_bytes(n / 10);
        let d = (n % 10 + 48) as u8;
        lemma_digits_push(decimal_bytes(n / 10), d);
        assert(d - 48 == n % 10);
        assert((n / 10) * 10 + n % 10 == n) by (nonlinear_arith);
    } else {
        let d = (n + 48) as u8;
        assert(d - 48 == n);
        lemma_digits_push(Seq::<u8>::empty(), d);
        assert(Seq::<u8>::empty().push(d) =~= seq![d]);
    }
}

proof fn lemma_ascii_round_trip(x: Seq<char>)
    requires
        forall|i: int| 0 <= i < x.len() ==> is_alnum_char(#[trigger] x[i]),
    ensures
        ascii_chars(char_bytes(x)) =~= x,
        forall|i: int| 0 <= i < x.len() ==> is_alnum(#[trigger] char_bytes(x)[i]),
{
    assert forall|i: int| 0 <= i < x.len() implies ascii_chars(char_bytes(x))[i] == x[i] && is_alnum(#[trigger] char_bytes(x)[i]) by {
        let c = x[i];
        assert(is_alnum_char(c));
        assert(((c as u8) as char) == c);
    }
}

/// A single token that its spelling gives back.
proof fn lemma_lex_spelling(t: SToken)
    requires
        spellable(t),
    ensures
        lex_spec(spelling(t)) == LexOutcome::Tokens(seq![t]),
{
    let b = spelling(t);
    reveal_strlit("+");
    reveal_strlit("-");
    reveal_strlit("*");
    reveal_strlit("/");
    reveal_strlit("(");
    reveal_strlit(")");
    reveal_strlit("==");
    reveal_strlit("!=");
    reveal_strlit(">");
    reveal_strlit(">=");
    reveal_strlit("<");
    reveal_strlit("<=");
    reveal_strlit("=");
    reveal_strlit(";");
    reveal_strlit("return");
    reveal_strlit(",");
    reveal_strlit("{");
    reveal_strlit("}");
    reveal_strlit("if");
    reveal_strlit("else");
    reveal_strlit("while");
    reveal_strlit("for");
    reveal_strlit("&");
    match t {
        SToken::Num(n) => {
            lemma_decimal_bytes(n as nat);
            lemma_digit_run_all(b, 1);
            assert(b.subrange(0, b.len() as int) =~= b);
            assert(lex_from(b, b.len() as int) == LexOutcome::Tokens(Seq::<SToken>::empty()));
            assert(seq![t] + Seq::<SToken>::empty() =~= seq![t]);
        },
        SToken::Id(x) => {
            lemma_ascii_round_trip(x);
            assert(is_alpha(b[0]));
            lemma_alnum_run_all(b, 1);
            assert(b.subrange(0, b.len() as int) =~= b);
            assert(lex_from(b, b.len() as int) == LexOutcome::Tokens(Seq::<SToken>::empty()));
            assert(seq![t] + Seq::<SToken>::empty() =~= seq![t]);
        },
        SToken::Return | SToken::If | SToken::Else | SToken::While | SToken::For => {
            assert(forall|k: int| 0 <= k < b.len() ==> is_alnum(#[trigger] b[k]));
            lemma_alnum_run_all(b, 1);
            assert(b.subrange(0, b.len() as int) =~= b);
            assert(ascii_chars(b) =~= match t {
                SToken::Return => "return"@,
                SToken::If => "if"@,
                SToken::Else => "else"@,
                SToken::While => "while"@,
                _ => "for"@,
            });
            assert(lex_from(b, b.len() as int) == LexOutcome::Tokens(Seq::<SToken>::empty()));
            assert(seq![t] + Seq::<SToken>::empty() =~= seq![t]);
        },
        _ => {
            assert(lex_from(b, b.len() as int) == LexOutcome::Tokens(Seq::<SToken>::empty()));
            assert(seq![t] + Seq::<SToken>::empty() =~= seq![t]);
        },
    }
}

/// Spelling tokens, separated by spaces, and lexing the text gives the tokens
/// back.
pub proof fn lex_spelled_tokens(ts: Seq<SToken>)
    requires
        forall|i: int| 0 <= i < ts.len() ==> spellable(#[trigger] ts[i]),
    ensures
        lex_spec(spelled(ts)) == LexOutcome::Tokens(ts),
    decreases ts.len(),
{
    if ts.len() == 0 {
        assert(lex_spec(spelled(ts)) == LexOutcome::Tokens(Seq::<SToken>::empty()));
        assert(ts =~= Seq::<SToken>::empty());
    } else if ts.len() == 1 {
        lemma_lex_spelling(ts[0]);
        assert(seq![ts[0]] =~= ts);
    } else {
        let prefix = ts.drop_last();
        assert forall|i: int| 0 <= i < prefix.len() implies spellable(#[trigger] prefix[i]) by {
            assert(prefix[i] == ts[i]);
        }
        lex_spelled_tokens(prefix);
        lemma_lex_spelling(ts.last());
        lex_joined_by_space(spelled(prefix), 32u8, spelling(ts.last()));
        assert(prefix + seq![ts.last()] =~= ts);
    }
}

proof fn lemma_prepend_spellable(t: SToken, o: LexOutcome)
    requires
        spellable(t),
        o matches LexOutcome::Tokens(ts) ==> forall|i: int| 0 <= i < ts.len() ==> spellable(#[trigger] ts[i]),
    ensures
        prepend(seq![t], o) matches LexOutcome::Tokens(ts) ==> forall|i: int| 0 <= i < ts.len() ==> spellable(#[trigger] ts[i]),
{
    if let LexOutcome::Tokens(u) = o {
        let ts = seq![t] + u;
        assert forall|i: int| 0 <= i < ts.len() implies spellable(#[trigger] ts[i]) by {
            if i > 0 {
                assert(ts[i] == u[i - 1]);
            }
        }
    }
}

proof fn lemma_lex_from_spellable(b: Seq<u8>, pos: int)
    ensures
        lex_from(b, pos) matches LexOutcome::Tokens(ts) ==> forall|i: int| 0 <= i < ts.len() ==> spellable(#[trigger] ts[i]),
    decreases b.len() - pos,
{
    if 0 <= pos < b.len() {
        let c = b[pos];
        if is_digit(c) {
            lemma_digit_run_end(b, pos + 1);
            let end = digit_run_end(b, pos + 1);
            lemma_lex_from_spellable(b, end);
            let v = digits_value(b.subrange(pos, end));
            if v <= u64::MAX {
                lemma_prepend_spellable(SToken::Num(v as u64), lex_from(b, end));
            }
        } else if is_space(c) {
            lemma_lex_from_spellable(b, pos + 1);
        } else if is_alpha(c) {
            lemma_alnum_run_end(b, pos + 1);
            let end = alnum_run_end(b, pos + 1);
            lemma_lex_from_spellable(b, end);
            let x = ascii_chars(b.subrange(pos, end));
            assert forall|i: int| 0 <= i < x.len() implies is_alnum_char(#[trigger] x[i]) by {
                assert(x[i] == b[pos + i] as char);
                assert(is_alnum(b[pos + i]));
            }
            assert(is_alpha_char(x[0]));
            lemma_prepend_spellable(word_token(x), lex_from(b, end));
        } else if let Some((t, len)) = punct_token(b, pos) {
            if len >= 1 {
                lemma_lex_from_spellable(b, pos + len);
                lemma_prepend_spellable(t, lex_from(b, pos + len));
            }
        }
    }
}

/// Every token that lexing gives is spelled back by `spelling`: lexing the
/// spellings of the tokens of a text, separated by spaces, gives the same
/// tokens again.
pub proof fn lex_round_trip(b: Seq<u8>)
    ensures
        lex_spec(b) matches LexOutcome::Tokens(ts) ==> {
            &&& forall|i: int| 0 <= i < ts.len() ==> spellable(#[trigger] ts[i])
            &&& lex_spec(spelled(ts)) == LexOutcome::Tokens(ts)
        },
{
    lemma_lex_from_spellable(b, 0);
    if let LexOutcome::Tokens(ts) = lex_spec(b) {
        lex_spelled_tokens(ts);
    }
}

/// Every ASCII whitespace byte (space, tab, line feed, form feed, carriage
/// return) only separates tokens: alone it gives no token, and between two
/// texts it gives the tokens of the first followed by those of the second.
/// The vertical tab is not whitespace and is an invalid character.
pub proof fn ascii_whitespace_separates(b1: Seq<u8>, w: u8, b2: Seq<u8>)
    requires
        w == 32 || w == 9 || w == 10 || w == 12 || w == 13,
    ensures
        lex_spec(seq![w]) == LexOutcome::Tokens(Seq::<SToken>::empty()),
        lex_spec(seq![11u8]) == LexOutcome::Invalid(0),
        (lex_spec(b1) is Tokens && lex_spec(b2) is Tokens) ==> lex_spec(b1 + seq![w] + b2) == LexOutcome::Tokens(
            lex_spec(b1)->Tokens_0 + lex_spec(b2)->Tokens_0,
        ),
{
    assert(lex_from(seq![w], 1) == LexOutcome::Tokens(Seq::<SToken>::empty()));
    assert(punct_token(seq![11u8], 0) is None);
    if lex_spec(b1) is Tokens && lex_spec(b2) is Tokens {
        lex_joined_by_space(b1, w, b2);
    }
}

/// The message of an invalid character at byte position `pos`.
pub open spec fn invalid_character_message(pos: nat) -> Seq<char> {
    "Invalid Character at "@ + decimal(pos)
}

/// What `scan` returns; `Invalid` holds the byte position.
enum Scanned {
    Tokens(Vec<Token>),
    Invalid(usize),
    Overflow,
}

proof fn lemma_digits_push(s: Seq<u8>, d: u8)
    ensures
        digits_value(s.push(d)) == digits_value(s) * 10 + (d - 48) as nat,
{
    assert(s.push(d).drop_last() =~= s);
}

fn is_digit_byte(b: u8) -> (r: bool)
    ensures
        r == is_digit(b),
{
    48 <= b && b <= 57
}

fn is_alpha_byte(b: u8) -> (r: bool)
    ensures
        r == is_alpha(b),
{
    (65 <= b && b <= 90) || (97 <= b && b <= 122)
}

fn is_space_byte(b: u8) -> (r: bool)
    ensures
        r == is_space(b),
{
    b == 32 || b == 9 || b == 10 || b == 12 || b == 13
}

/// The token of the word `w`: a keyword, or else an identifier.
fn word_to_token(w: String) -> (t: Token)
    ensures
        t@ == word_token(w@),
{
    if w == String::from_str("return") {
        Token::Return
    } else if w == String::from_str("if") {
        Token::If
    } else if w == String::from_str("else") {
        Token::Else
    } else if w == String::from_str("while") {
        Token::While
    } else if w == String::from_str("for") {
        Token::For
    } else {
        Token::Id(w)
    }
}

/// The punctuation token at `pos`, with its length.
fn punct_at(b: &[u8], pos: usize) -> (r: Option<(Token, usize)>)
    requires
        pos < b@.len(),
    ensures
        match punct_token(b@, pos as int) {
            Some((t, len)) => r matches Some((rt, rlen)) && rt@ == t && rlen == len,
            None => r is None,
        },
{
    let c = b[pos];
    let next_is_eq = pos + 1 < b.len() && b[pos + 1] == 61;
    if c == 43 {
        Some((Token::Plus, 1))
    } else if c == 45 {
        Some((Token::Minus, 1))
    } else if c == 42 {
        Some((Token::Mult, 1))
    } else if c == 47 {
        Some((Token::Div, 1))
    } else if c == 40 {
        Some((Token::ParL, 1))
    } else if c == 41 {
        Some((Token::ParR, 1))
    } else if c == 62 {
        if next_is_eq { Some((Token::Geq, 2)) } else { Some((Token::Gt, 1)) }
    } else if c == 60 {
        if next_is_eq { Some((Token::Leq, 2)) } else { Some((Token::Lt, 1)) }
    } else if c == 61 {
        if next_is_eq { Some((Token::Eq, 2)) } else { Some((Token::Assign, 1)) }
    } else if c == 33 {
        if next_is_eq { Some((Token::Neq, 2)) } else { None }
    } else if c == 59 {
        Some((Token::Semi, 1))
    } else if c == 44 {
        Some((Token::Comma, 1))
    } else if c == 123 {
        Some((Token::BraceL, 1))
    } else if c == 125 {
        Some((Token::BraceR, 1))
    } else if c == 38 {
        Some((Token::Amp, 1))
    } else {
        None
    }
}

/// Lexes `b`, reporting an overflowing number literal as such.
fn scan(b: &[u8]) -> (r: Scanned)
    ensures
        match lex_spec(b@) {
            LexOutcome::Tokens(ts) => r matches Scanned::Tokens(v) && tokens_view(v@) == ts,
            LexOutcome::Invalid(p) => r matches Scanned::Invalid(rp) && rp == p,
            LexOutcome::Overflow => r is Overflow,
        },
{
    let mut tokens: Vec<Token> = Vec::new();
    let mut pos: usize = 0;
    let len = b.len();
    while pos < len
        invariant
            len == b@.len(),
            pos <= len,
            lex_spec(b@) == prepend(tokens_view(tokens@), lex_from(b@, pos as int)),
        decreases len - pos,
    {
        let ghost old_tokens = tokens@;
        let c = b[pos];
        if is_digit_byte(c) {
            let start = pos;
            let mut value: Option<u64> = Some((c - 48) as u64);
            pos = pos + 1;
            proof {
                assert(b@.subrange(start as int, pos as int) =~= seq![c]);
                assert(seq![c] =~= Seq::<u8>::empty().push(c));
                lemma_digits_push(Seq::<u8>::empty(), c);
            }
            while pos < len && is_digit_byte(b[pos])
                invariant
                    len == b@.len(),
                    start < pos <= len,
                    is_digit(b@[start as int]),
                    digit_run_end(b@, start as int + 1) == digit_run_end(b@, pos as int),
                    value matches Some(v) ==> v == digits_value(b@.subrange(start as int, pos as int)),
                    value is None ==> digits_value(b@.subrange(start as int, pos as int)) > u64::MAX,
                decreases len - pos,
            {
                let d = b[pos];
                proof {
                    assert(b@.subrange(start as int, pos + 1) =~= b@.subrange(start as int, pos as int).push(d));
                    lemma_digits_push(b@.subrange(start as int, pos as int), d);
                }
                value = match value {
                    Some(v) => match v.checked_mul(10) {
                        Some(m) => m.checked_add((d - 48) as u64),
                        None => None,
                    },
                    None => None,
                };
                pos = pos + 1;
            }
            proof {
                lemma_digit_run_end(b@, pos as int);
                assert(digit_run_end(b@, pos as int) == pos as int);
            }
            match value {
                Some(v) => {
                    tokens.push(Token::Num(v));
                    proof {
                        assert(tokens_view(tokens@) =~= tokens_view(old_tokens) + seq![SToken::Num(v)]);
                        assert(tokens_view(old_tokens) + (seq![SToken::Num(v)] + Seq::<SToken>::empty()) =~= tokens_view(tokens@));
                        match lex_from(b@, pos as int) {
                            LexOutcome::Tokens(rest) => {
                                assert(tokens_view(old_tokens) + (seq![SToken::Num(v)] + rest) =~= tokens_view(tokens@) + rest);
                            },
                            _ => {},
                        }
                    }
                },
                None => {
                    return Scanned::Overflow;
                },
            }
        } else if is_space_byte(c) {
            pos = pos + 1;
        } else if is_alpha_byte(c) {
            let start = pos;
            let mut word = String::new();
            push_char(&mut word, c as char);
            pos = pos + 1;
            proof {
                assert(word@ =~= ascii_chars(b@.subrange(start as int, pos as int)));
            }
            while pos < len && (is_alpha_byte(b[pos]) || is_digit_byte(b[pos]))
                invariant
                    len == b@.len(),
                    start < pos <= len,
                    alnum_run_end(b@, start as int + 1) == alnum_run_end(b@, pos as int),
                    word@ == ascii_chars(b@.subrange(start as int, pos as int)),
                decreases len - pos,
            {
                let d = b[pos];
                push_char(&mut word, d as char);
                pos = pos + 1;
                proof {
                    assert(word@ =~= ascii_chars(b@.subrange(start as int, pos as int)));
                }
            }
            proof {
                lemma_alnum_run_end(b@, pos as int);
                assert(alnum_run_end(b@, pos as int) == pos as int);
            }
            let t = word_to_token(word);
            let ghost tv = t@;
            tokens.push(t);
            proof {
                assert(tokens_view(tokens@) =~= tokens_view(old_tokens) + seq![tv]);
                match lex_from(b@, pos as int) {
                    LexOutcome::Tokens(rest) => {
                        assert(tokens_view(old_tokens) + (seq![tv] + rest) =~= tokens_view(tokens@) + rest);
                    },
                    _ => {},
                }
            }
        } else {
            match punct_at(b, pos) {
                Some((t, n)) => {
                    let ghost tv = t@;
                    tokens.push(t);
                    pos = pos + n;
                    proof {
                        assert(tokens_view(tokens@) =~= tokens_view(old_tokens) + seq![tv]);
                        match lex_from(b@, pos as int) {
                            LexOutcome::Tokens(rest) => {
                                assert(tokens_view(old_tokens) + (seq![tv] + rest) =~= tokens_view(tokens@) + rest);
                            },
                            _ => {},
                        }
                    }
                },
                None => {
                    return Scanned::Invalid(pos);
                },
            }
        }
    }
    proof {
        assert(tokens_view(tokens@) + Seq::<SToken>::empty() =~= tokens_view(tokens@));
    }
    Scanned::Tokens(tokens)
}

/// Splits the source text into tokens.
///
/// An invalid character gives `Err` with the message
/// `"Invalid Character at <byte position>"`. A number literal whose value does not
/// fit in 64 bits is outside what this function accepts: see `literals_fit`.
pub fn lex(input: &str) -> (res: Result<Vec<Token>, String>)
    requires
        !(lex_spec(input.spec_bytes()) is Overflow),
    ensures
        match lex_spec(input.spec_bytes()) {
            LexOutcome::Tokens(ts) => res matches Ok(v) && tokens_view(v@) == ts,
            LexOutcome::Invalid(p) => res matches Err(e) && e@ == invalid_character_message(p),
            LexOutcome::Overflow => false,
        },
{
    match scan(input.as_bytes()) {
        Scanned::Tokens(v) => Ok(v),
        Scanned::Invalid(p) => Err(invalid_character(p)),
        Scanned::Overflow => {
            proof {
                assert(false);
            }
            Ok(Vec::new())
        },
    }
}

/// Whether every number literal that `lex` would reach fits in 64 bits, that is,
/// whether `input` meets the precondition of `lex`.
pub fn literals_fit(input: &str) -> (r: bool)
    ensures
        r == !(lex_spec(input.spec_bytes()) is Overflow),
{
    match scan(input.as_bytes()) {
        Scanned::Overflow => false,
        _ => true,
    }
}

fn invalid_character(pos: usize) -> (e: String)
    ensures
        e@ == invalid_character_message(pos as nat),
{
    let mut e = String::from_str("Invalid Character at ");
    push_decimal(&mut e, pos as u64);
    e
}

/// What `format!("{:?}", s)` gives for a string `s`.
pub uninterp spec fn string_debug(s: Seq<char>) -> Seq<char>;

/// An ASCII letter or digit.
pub open spec fn is_alnum_char(c: char) -> bool {
    ('0' <= c && c <= '9') || ('a' <= c && c <= 'z') || ('A' <= c && c <= 'Z')
}

/// `<String as Debug>::fmt`, through `format!("{:?}", ..)`: the string in double
/// quotes, with characters escaped as `char::escape_debug` does. The result is named
/// by `string_debug`; the contract states its value only where no character needs
/// escaping (ASCII letters and digits are written as they are).
#[verifier::external_body]
fn debug_string(s: &String) -> (r: String)
    ensures
        r@ == string_debug(s@),
        (forall|i: int| 0 <= i < s@.len() ==> is_alnum_char(#[trigger] s@[i])) ==> r@ == seq!['"'] + s@ + seq!['"'],
{
    format!("{:?}", s)
}

/// The text that `Debug` gives for a token.
pub open spec fn token_debug(t: SToken) -> Seq<char> {
    match t {
        SToken::Num(n) => "Num("@ + decimal(n as nat) + ")"@,
        SToken::Id(s) => "Id("@ + string_debug(s) + ")"@,
        SToken::Plus => "Plus"@,
        SToken::Minus => "Minus"@,
        SToken::Mult => "Mult"@,
        SToken::Div => "Div"@,
        SToken::ParL => "ParL"@,
        SToken::ParR => "ParR"@,
        SToken::Eq => "Eq"@,
        SToken::Neq => "Neq"@,
        SToken::Gt => "Gt"@,
        SToken::Geq => "Geq"@,
        SToken::Lt => "Lt"@,
        SToken::Leq => "Leq"@,
        SToken::Assign => "Assign"@,
        SToken::Semi => "Semi"@,
        SToken::Return => "Return"@,
        SToken::Comma => "Comma"@,
        SToken::BraceL => "BraceL"@,
        SToken::BraceR => "BraceR"@,
        SToken::If => "If"@,
        SToken::Else => "Else"@,
        SToken::While => "While"@,
        SToken::For => "For"@,
        SToken::Amp => "Amp"@,
    }
}

/// The text that `Debug` gives for an optional token.
pub open spec fn opt_token_debug(o: Option<SToken>) -> Seq<char> {
    match o {
        Some(t) => "Some("@ + token_debug(t) + ")"@,
        None => "None"@,
    }
}

/// The `Debug` text of a token.
pub fn token_debug_string(t: &Token) -> (s: String)
    ensures
        s@ == token_debug(t@),
{
    match t {
        Token::Num(n) => {
            let mut s = String::from_str("Num(");
            push_decimal(&mut s, *n);
            s.append(")");
            s
        },
        Token::Id(name) => {
            let mut s = String::from_str("Id(");
            let d = debug_string(name);
            s.append(d.as_str());
            s.append(")");
            s
        },
        Token::Plus => String::from_str("Plus"),
        Token::Minus => String::from_str("Minus"),
        Token::Mult => String::from_str("Mult"),
        Token::Div => String::from_str("Div"),
        Token::ParL => String::from_str("ParL"),
        Token::ParR => String::from_str("ParR"),
        Token::Eq => String::from_str("Eq"),
        Token::Neq => String::from_str("Neq"),
        Token::Gt => String::from_str("Gt"),
        Token::Geq => String::from_str("Geq"),
        Token::Lt => String::from_str("Lt"),
        Token::Leq => String::from_str("Leq"),
        Token::Assign => String::from_str("Assign"),
        Token::Semi => String::from_str("Semi"),
        Token::Return => String::from_str("Return"),
        Token::Comma => String::from_str("Comma"),
        Token::BraceL => String::from_str("BraceL"),
        Token::BraceR => String::from_str("BraceR"),
        Token::If => String::from_str("If"),
        Token::Else => String::from_str("Else"),
        Token::While => String::from_str("While"),
        Token::For => String::from_str("For"),
        Token::Amp => String::from_str("Amp"),
    }
}

/// The `Debug` text of an optional token.
pub fn opt_token_debug_string(o: Option<&Token>) -> (s: String)
    ensures
        s@ == opt_token_debug(match o { Some(t) => Some(t@), None => None }),
{
    match o {
        Some(t) => {
            let mut s = String::from_str("Some(");
            let d = token_debug_string(t);
            s.append(d.as_str());
            s.append(")");
            s
        },
        None => String::from_str("None"),
    }
}

} // verus!
