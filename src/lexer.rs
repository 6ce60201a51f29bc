use vstd::prelude::*;
use vstd::string::StringSliceAdditionalSpecFns;

verus! {

/// One lexical token. Identifiers borrow their bytes from the source.
#[derive(PartialEq, Eq, Debug, Clone, Copy)]
pub enum Token<'a> {
    Illegal,
    EOF,
    Number(u64),
    Identifier(&'a [u8]),
    EqualSign,
    PlusSign,
    MinusSign,
    BangSign,
    AsteriskSign,
    SlashSign,
    LT,
    GT,
    EQ,
    NotEQ,
    Comma,
    Semicolon,
    Lparen,
    Rparen,
    Lbrace,
    Rbrace,
    Function,
    Let,
    True,
    False,
    If,
    Else,
    Return,
}

/// A single-pass scanner over the bytes of a source text.
pub struct Lexer<'a> {
    code: &'a [u8],
    position: usize,
}

pub open spec fn is_ws(c: u8) -> bool {
    c == ' ' as u8 || c == '\t' as u8 || c == '\n' as u8 || c == '\r' as u8
}

pub open spec fn is_letter_byte(c: u8) -> bool {
    ('a' as u8 <= c && c <= 'z' as u8) || ('A' as u8 <= c && c <= 'Z' as u8) || c == '_' as u8
}

pub open spec fn is_digit_byte(c: u8) -> bool {
    '0' as u8 <= c && c <= '9' as u8
}

/// First position at or after `i` that is not whitespace.
pub open spec fn skip_ws(b: Seq<u8>, i: int) -> int
    decreases b.len() - i,
{
    if 0 <= i < b.len() && is_ws(b[i]) {
        skip_ws(b, i + 1)
    } else {
        i
    }
}

/// End of the run of letters that starts at `i`.
pub open spec fn letters_end(b: Seq<u8>, i: int) -> int
    decreases b.len() - i,
{
    if 0 <= i < b.len() && is_letter_byte(b[i]) {
        letters_end(b, i + 1)
    } else {
        i
    }
}

/// End of the run of digits that starts at `i`.
pub open spec fn digits_end(b: Seq<u8>, i: int) -> int
    decreases b.len() - i,
{
    if 0 <= i < b.len() && is_digit_byte(b[i]) {
        digits_end(b, i + 1)
    } else {
        i
    }
}

/// End of the lexeme that starts at `s` (a position holding no whitespace).
pub open spec fn token_end(b: Seq<u8>, s: int) -> int {
    if s < 0 || s >= b.len() {
        s
    } else if is_letter_byte(b[s]) {
        letters_end(b, s)
    } else if is_digit_byte(b[s]) {
        digits_end(b, s)
    } else if (b[s] == '=' as u8 || b[s] == '!' as u8) && s + 1 < b.len() && b[s + 1] == '=' as u8 {
        s + 2
    } else {
        s + 1
    }
}

/// The decimal value of a run of digits.
pub open spec fn digits_value(w: Seq<u8>) -> nat
    decreases w.len(),
{
    if w.len() == 0 {
        0
    } else {
        digits_value(w.drop_last()) * 10 + (w.last() - '0' as u8) as nat
    }
}

/// The keyword spelled by `w`, if any.
pub open spec fn keyword<'a>(w: Seq<u8>) -> Option<Token<'a>> {
    if w == seq!['f' as u8, 'n' as u8] {
        Some(Token::Function)
    } else if w == seq!['l' as u8, 'e' as u8, 't' as u8] {
        Some(Token::Let)
    } else if w == seq!['t' as u8, 'r' as u8, 'u' as u8, 'e' as u8] {
        Some(Token::True)
    } else if w == seq!['f' as u8, 'a' as u8, 'l' as u8, 's' as u8, 'e' as u8] {
        Some(Token::False)
    } else if w == seq!['i' as u8, 'f' as u8] {
        Some(Token::If)
    } else if w == seq!['e' as u8, 'l' as u8, 's' as u8, 'e' as u8] {
        Some(Token::Else)
    } else if w == seq!['r' as u8, 'e' as u8, 't' as u8, 'u' as u8, 'r' as u8, 'n' as u8] {
        Some(Token::Return)
    } else {
        None
    }
}

/// The token of a lexeme that is not a word or a number.
pub open spec fn punct_token<'a>(b: Seq<u8>, s: int) -> Token<'a> {
    let c = b[s];
    let eq_next = s + 1 < b.len() && b[s + 1] == '=' as u8;
    if c == '=' as u8 {
        if eq_next { Token::EQ } else { Token::EqualSign }
    } else if c == '!' as u8 {
        if eq_next { Token::NotEQ } else { Token::BangSign }
    } else if c == '+' as u8 {
        Token::PlusSign
    } else if c == '-' as u8 {
        Token::MinusSign
    } else if c == '*' as u8 {
        Token::AsteriskSign
    } else if c == '/' as u8 {
        Token::SlashSign
    } else if c == '<' as u8 {
        Token::LT
    } else if c == '>' as u8 {
        Token::GT
    } else if c == ',' as u8 {
        Token::Comma
    } else if c == ';' as u8 {
        Token::Semicolon
    } else if c == '(' as u8 {
        Token::Lparen
    } else if c == ')' as u8 {
        Token::Rparen
    } else if c == '{' as u8 {
        Token::Lbrace
    } else if c == '}' as u8 {
        Token::Rbrace
    } else {
        Token::Illegal
    }
}

/// `t` is the token for the lexeme `b[s..e]`; at the end of input it is EOF.
pub open spec fn token_fits<'a>(b: Seq<u8>, s: int, e: int, t: Token<'a>) -> bool {
    if s >= b.len() {
        t is EOF
    } else if is_letter_byte(b[s]) {
        let w = b.subrange(s, e);
        match keyword(w) {
            Some(k) => t == k,
            None => t is Identifier && t->Identifier_0@ == w,
        }
    } else if is_digit_byte(b[s]) {
        let v = digits_value(b.subrange(s, e));
        if v <= u64::MAX {
            t == Token::Number(v as u64)
        } else {
            t is Illegal
        }
    } else {
        t == punct_token(b, s)
    }
}

/// The lexemes of `b` from position `i` on, as (start, end) pairs; the last
/// one is the empty lexeme at the end of input, which stands for EOF.
pub open spec fn spans(b: Seq<u8>, i: int) -> Seq<(int, int)>
    decreases b.len() - i,
{
    let s = skip_ws(b, i);
    if s >= b.len() {
        seq![(s, s)]
    } else {
        let e = token_end(b, s);
        if i < e <= b.len() {
            seq![(s, e)] + spans(b, e)
        } else {
            seq![]
        }
    }
}

/// `toks` is the token sequence of the source bytes `b`.
pub open spec fn lexed<'a>(b: Seq<u8>, toks: Seq<Token<'a>>) -> bool {
    let sp = spans(b, 0);
    toks.len() == sp.len() && forall|k: int|
        0 <= k < toks.len() ==> #[trigger] token_fits(b, sp[k].0, sp[k].1, toks[k])
}

/// There is at most one lexeme per remaining byte, and the EOF lexeme.
proof fn lemma_spans_len(b: Seq<u8>, i: int)
    requires
        0 <= i <= b.len(),
    ensures
        spans(b, i).len() <= b.len() - i + 1,
    decreases b.len() - i,
{
    lemma_skip_ws(b, i);
    let s = skip_ws(b, i);
    if s < b.len() {
        let e = token_end(b, s);
        if i < e <= b.len() {
            lemma_spans_len(b, e);
        }
    }
}

proof fn lemma_skip_ws(b: Seq<u8>, i: int)
    requires
        0 <= i,
    ensures
        i <= skip_ws(b, i),
        skip_ws(b, i) < b.len() ==> !is_ws(b[skip_ws(b, i)]),
    decreases b.len() - i,
{
    if 0 <= i < b.len() && is_ws(b[i]) {
        lemma_skip_ws(b, i + 1);
    }
}

proof fn lemma_letters_end(b: Seq<u8>, i: int)
    requires
        0 <= i,
    ensures
        i <= letters_end(b, i),
        0 <= i < b.len() && is_letter_byte(b[i]) ==> i < letters_end(b, i),
    decreases b.len() - i,
{
    if 0 <= i < b.len() && is_letter_byte(b[i]) {
        lemma_letters_end(b, i + 1);
    }
}

proof fn lemma_digits_end(b: Seq<u8>, i: int)
    requires
        0 <= i,
    ensures
        i <= digits_end(b, i),
        0 <= i < b.len() && is_digit_byte(b[i]) ==> i < digits_end(b, i),
    decreases b.len() - i,
{
    if 0 <= i < b.len() && is_digit_byte(b[i]) {
        lemma_digits_end(b, i + 1);
    }
}

/// Whether `c` may stand in an identifier.
pub fn is_letter(c: u8) -> (r: bool)
    ensures
        r == is_letter_byte(c),
{
    ('a' as u8 <= c && c <= 'z' as u8) || ('A' as u8 <= c && c <= 'Z' as u8) || c == '_' as u8
}

/// Whether `c` is a decimal digit.
pub fn is_digit(c: u8) -> (r: bool)
    ensures
        r == is_digit_byte(c),
{
    '0' as u8 <= c && c <= '9' as u8
}

/// A lexer positioned at the start of `code`.
pub fn new<'a>(code: &'a str) -> (l: Lexer<'a>)
    ensures
        l.wf(),
        l.bytes() == code.spec_bytes(),
        l.pos() == 0,
{
    Lexer { code: code.as_bytes(), position: 0 }
}

impl<'a> Lexer<'a> {
    pub closed spec fn bytes(&self) -> Seq<u8> {
        self.code@
    }

    pub closed spec fn pos(&self) -> int {
        self.position as int
    }

    pub closed spec fn wf(&self) -> bool {
        self.position <= self.code@.len()
    }

    /// Scans the whole remaining input into tokens, the last of which is EOF.
    pub fn get_tokens(&mut self) -> (toks: Vec<Token<'a>>)
        requires
            old(self).wf(),
        ensures
            final(self).wf(),
            toks@.len() > 0,
            toks@.last() is EOF,
            toks@.len() <= old(self).bytes().len() - old(self).pos() + 1,
            toks@.len() == spans(old(self).bytes(), old(self).pos()).len(),
            forall|k: int|
                0 <= k < toks@.len() ==> #[trigger] token_fits(
                    old(self).bytes(),
                    spans(old(self).bytes(), old(self).pos())[k].0,
                    spans(old(self).bytes(), old(self).pos())[k].1,
                    toks@[k],
                ),
    {
        let ghost b = self.code@;
        let ghost start = self.position as int;
        let ghost mut done: Seq<(int, int)> = seq![];
        let mut toks: Vec<Token<'a>> = Vec::new();
        loop
            invariant
                self.wf(),
                self.code@ == b,
                b == old(self).bytes(),
                start == old(self).pos(),
                0 <= start <= b.len(),
                spans(b, start) == done + spans(b, self.position as int),
                toks@.len() == done.len(),
                forall|k: int|
                    0 <= k < toks@.len() ==> #[trigger] token_fits(b, done[k].0, done[k].1, toks@[k]),
            decreases b.len() - self.position,
        {
            let ghost p = self.position as int;
            let t = self.next_token();
            proof {
                lemma_skip_ws(b, p);
                let s = skip_ws(b, p);
                if s < b.len() {
                    lemma_letters_end(b, s);
                    lemma_digits_end(b, s);
                }
                assert(spans(b, p) == seq![(s, token_end(b, s))] + if s >= b.len() {
                    seq![]
                } else {
                    spans(b, token_end(b, s))
                });
                done = done.push((s, token_end(b, s)));
            }
            toks.push(t);
            if let Token::EOF = t {
                proof {
                    assert(spans(b, start) =~= done);
                    lemma_spans_len(b, start);
                }
                return toks;
            }
        }
    }

    /// Moves one byte forward.
    fn read_char(&mut self)
        requires
            old(self).position < old(self).code@.len(),
        ensures
            final(self).code == old(self).code,
            final(self).position == old(self).position + 1,
    {
        if self.position < self.code.len() {
            self.position = self.position + 1;
        }
    }

    /// The current byte, or `None` at the end of input.
    fn current(&self) -> (r: Option<u8>)
        ensures
            self.position < self.code@.len() ==> r == Some(self.code@[self.position as int]),
            self.position >= self.code@.len() ==> r is None,
    {
        if self.position < self.code.len() {
            Some(self.code[self.position])
        } else {
            None
        }
    }

    /// Steps over the byte after the current one when it is `chr`.
    fn peek_char(&mut self, chr: u8) -> (r: bool)
        requires
            old(self).position < old(self).code@.len(),
        ensures
            final(self).code == old(self).code,
            r == (old(self).position + 1 < old(self).code@.len()
                && old(self).code@[old(self).position + 1] == chr),
            final(self).position == if r { old(self).position + 1 } else { old(self).position as int },
    {
        if self.code.len() - self.position > 1 && self.code[self.position + 1] == chr {
            self.read_char();
            true
        } else {
            false
        }
    }

    fn skip_whitespace(&mut self)
        requires
            old(self).wf(),
        ensures
            final(self).code == old(self).code,
            final(self).wf(),
            final(self).position == skip_ws(old(self).code@, old(self).position as int),
        decreases old(self).code@.len() - old(self).position,
    {
        if self.position < self.code.len() && is_ws_byte(self.code[self.position]) {
            self.read_char();
            self.skip_whitespace();
        }
    }

    /// Scans a word at a letter and classifies it as keyword or identifier.
    fn read_literal(&mut self) -> (t: Token<'a>)
        requires
            old(self).wf(),
            old(self).position < old(self).code@.len(),
            is_letter_byte(old(self).code@[old(self).position as int]),
        ensures
            final(self).code == old(self).code,
            final(self).wf(),
            final(self).position == letters_end(old(self).code@, old(self).position as int),
            token_fits(old(self).code@, old(self).position as int, final(self).position as int, t),
    {
        let start = self.position;
        while self.position < self.code.len() && is_letter(self.code[self.position])
            invariant
                self.code == old(self).code,
                start <= self.position <= self.code@.len(),
                letters_end(self.code@, start as int) == letters_end(self.code@, self.position as int),
            decreases self.code@.len() - self.position,
        {
            self.read_char();
        }
        let word = slice_range(self.code, start, self.position);
        classify_word(word)
    }

    /// Scans a run of digits; a value beyond `u64` gives an illegal token.
    fn read_number(&mut self) -> (t: Token<'a>)
        requires
            old(self).wf(),
            old(self).position < old(self).code@.len(),
            is_digit_byte(old(self).code@[old(self).position as int]),
        ensures
            final(self).code == old(self).code,
            final(self).wf(),
            final(self).position == digits_end(old(self).code@, old(self).position as int),
            token_fits(old(self).code@, old(self).position as int, final(self).position as int, t),
    {
        let start = self.position;
        let mut value: u64 = 0;
        let mut overflow = false;
        while self.position < self.code.len() && is_digit(self.code[self.position])
            invariant
                self.code == old(self).code,
                start <= self.position <= self.code@.len(),
                digits_end(self.code@, start as int) == digits_end(self.code@, self.position as int),
                forall|k: int| start <= k < self.position ==> is_digit_byte(#[trigger] self.code@[k]),
                !overflow ==> value == digits_value(self.code@.subrange(start as int, self.position as int)),
                overflow ==> digits_value(self.code@.subrange(start as int, self.position as int)) > u64::MAX,
            decreases self.code@.len() - self.position,
        {
            let d = self.code[self.position];
            let ghost w = self.code@.subrange(start as int, self.position as int);
            let ghost w2 = self.code@.subrange(start as int, self.position + 1);
            proof {
                assert(w2.drop_last() =~= w);
                assert(w2.last() == d);
            }
            if !overflow {
                match value.checked_mul(10) {
                    Some(m) => match m.checked_add((d - '0' as u8) as u64) {
                        Some(v) => {
                            value = v;
                        },
                        None => {
                            overflow = true;
                        },
                    },
                    None => {
                        overflow = true;
                    },
                }
            } else {
                proof {
                    assert(digits_value(w2) >= digits_value(w)) by (nonlinear_arith)
                        requires
                            digits_value(w2) == digits_value(w) * 10 + (d - '0' as u8) as nat,
                    ;
                }
            }
            self.read_char();
        }
        if overflow {
            Token::Illegal
        } else {
            Token::Number(value)
        }
    }

    /// Skips whitespace and scans the next token; at the end of input it
    /// returns EOF and stays there.
    fn next_token(&mut self) -> (t: Token<'a>)
        requires
            old(self).wf(),
        ensures
            final(self).code == old(self).code,
            final(self).wf(),
            final(self).position == token_end(
                old(self).code@,
                skip_ws(old(self).code@, old(self).position as int),
            ),
            token_fits(
                old(self).code@,
                skip_ws(old(self).code@, old(self).position as int),
                final(self).position as int,
                t,
            ),
    {
        self.skip_whitespace();
        let c = match self.current() {
            None => {
                return Token::EOF;
            },
            Some(c) => c,
        };
        if is_letter(c) {
            return self.read_literal();
        }
        if is_digit(c) {
            return self.read_number();
        }
        let t = if c == '=' as u8 {
            if self.peek_char('=' as u8) {
                Token::EQ
            } else {
                Token::EqualSign
            }
        } else if c == '!' as u8 {
            if self.peek_char('=' as u8) {
                Token::NotEQ
            } else {
                Token::BangSign
            }
        } else if c == '+' as u8 {
            Token::PlusSign
        } else if c == '-' as u8 {
            Token::MinusSign
        } else if c == '*' as u8 {
            Token::AsteriskSign
        } else if c == '/' as u8 {
            Token::SlashSign
        } else if c == '<' as u8 {
            Token::LT
        } else if c == '>' as u8 {
            Token::GT
        } else if c == ',' as u8 {
            Token::Comma
        } else if c == ';' as u8 {
            Token::Semicolon
        } else if c == '(' as u8 {
            Token::Lparen
        } else if c == ')' as u8 {
            Token::Rparen
        } else if c == '{' as u8 {
            Token::Lbrace
        } else if c == '}' as u8 {
            Token::Rbrace
        } else {
            Token::Illegal
        };
        self.read_char();
        t
    }
}

fn is_ws_byte(c: u8) -> (r: bool)
    ensures
        r == is_ws(c),
{
    c == ' ' as u8 || c == '\t' as u8 || c == '\n' as u8 || c == '\r' as u8
}

fn slice_range<'a>(code: &'a [u8], start: usize, end: usize) -> (r: &'a [u8])
    requires
        start <= end <= code@.len(),
    ensures
        r@ == code@.subrange(start as int, end as int),
{
    &code[start..end]
}

/// Whether `w` spells exactly the bytes of `lit`.
fn word_is(w: &[u8], lit: &Vec<u8>) -> (r: bool)
    ensures
        r == (w@ == lit@),
{
    if w.len() != lit.len() {
        return false;
    }
    let mut i: usize = 0;
    while i < w.len()
        invariant
            w@.len() == lit@.len(),
            i <= w@.len(),
            forall|k: int| 0 <= k < i ==> w@[k] == lit@[k],
        decreases w@.len() - i,
    {
        if w[i] != lit[i] {
            return false;
        }
        i = i + 1;
    }
    proof {
        assert(w@ =~= lit@);
    }
    true
}

/// The keyword token spelled by `w`, or an identifier holding `w`.
fn classify_word<'a>(w: &'a [u8]) -> (t: Token<'a>)
    ensures
        match keyword(w@) {
            Some(k) => t == k,
            None => t is Identifier && t->Identifier_0@ == w@,
        },
{
    if word_is(w, &vec!['f' as u8, 'n' as u8]) {
        Token::Function
    } else if word_is(w, &vec!['l' as u8, 'e' as u8, 't' as u8]) {
        Token::Let
    } else if word_is(w, &vec!['t' as u8, 'r' as u8, 'u' as u8, 'e' as u8]) {
        Token::True
    } else if word_is(w, &vec!['f' as u8, 'a' as u8, 'l' as u8, 's' as u8, 'e' as u8]) {
        Token::False
    } else if word_is(w, &vec!['i' as u8, 'f' as u8]) {
        Token::If
    } else if word_is(w, &vec!['e' as u8, 'l' as u8, 's' as u8, 'e' as u8]) {
        Token::Else
    } else if word_is(w, &vec!['r' as u8, 'e' as u8, 't' as u8, 'u' as u8, 'r' as u8, 'n' as u8]) {
        Token::Return
    } else {
        Token::Identifier(w)
    }
}

/// The decimal spelling of `n`, without leading zeros.
pub open spec fn decimal(n: nat) -> Seq<u8>
    decreases n,
{
    if n < 10 {
        seq![('0' as u8 + n) as u8]
    } else {
        decimal(n / 10).push(('0' as u8 + n % 10) as u8)
    }
}

proof fn lemma_decimal(n: nat)
    ensures
        decimal(n).len() > 0,
        forall|k: int| 0 <= k < decimal(n).len() ==> is_digit_byte(#[trigger] decimal(n)[k]),
        digits_value(decimal(n)) == n,
    decreases n,
{
    if n < 10 {
        let w = decimal(n);
        assert(w.drop_last() =~= Seq::<u8>::empty());
        assert(w.last() - '0' as u8 == n);
        assert(digits_value(w) == digits_value(w.drop_last()) * 10 + (w.last() - '0' as u8) as nat);
        assert(digits_value(w.drop_last()) == 0);
    } else {
        lemma_decimal(n / 10);
        let w = decimal(n);
        assert(w.drop_last() =~= decimal(n / 10));
        assert(w.last() - '0' as u8 == n % 10);
        assert(digits_value(w) == digits_value(w.drop_last()) * 10 + (w.last() - '0' as u8) as nat);
        let q = n / 10;
        assert(digits_value(w) == q * 10 + n % 10);
        assert(q * 10 + n % 10 == n) by (nonlinear_arith)
            requires
                q == n / 10,
        ;
    }
}

proof fn lemma_letters_run(w: Seq<u8>, i: int)
    requires
        0 <= i <= w.len(),
        forall|k: int| 0 <= k < w.len() ==> is_letter_byte(#[trigger] w[k]),
    ensures
        letters_end(w, i) == w.len(),
    decreases w.len() - i,
{
    if i < w.len() {
        lemma_letters_run(w, i + 1);
    }
}

proof fn lemma_digits_run(w: Seq<u8>, i: int)
    requires
        0 <= i <= w.len(),
        forall|k: int| 0 <= k < w.len() ==> is_digit_byte(#[trigger] w[k]),
    ensures
        digits_end(w, i) == w.len(),
    decreases w.len() - i,
{
    if i < w.len() {
        lemma_digits_run(w, i + 1);
    }
}

/// An identifier re-reads as itself: lexing its lexeme alone gives one
/// identifier token holding exactly those bytes, then EOF.
pub proof fn lemma_identifier_round_trip<'a>(w: Seq<u8>, toks: Seq<Token<'a>>)
    requires
        w.len() > 0,
        forall|k: int| 0 <= k < w.len() ==> is_letter_byte(#[trigger] w[k]),
        keyword::<'a>(w) is None,
        lexed(w, toks),
    ensures
        toks.len() == 2,
        toks[0] is Identifier,
        toks[0]->Identifier_0@ == w,
        toks[1] is EOF,
{
    lemma_letters_run(w, 0);
    assert(spans(w, w.len() as int) == seq![(w.len() as int, w.len() as int)]);
    assert(spans(w, 0) =~= seq![(0, w.len() as int), (w.len() as int, w.len() as int)]);
    assert(w.subrange(0, w.len() as int) =~= w);
    assert(token_fits(w, spans(w, 0)[0].0, spans(w, 0)[0].1, toks[0]));
    assert(token_fits(w, spans(w, 0)[1].0, spans(w, 0)[1].1, toks[1]));
}

/// An integer literal re-reads as itself: lexing the decimal spelling of `n`
/// gives the number token of `n`, then EOF.
pub proof fn lemma_number_round_trip<'a>(n: u64, toks: Seq<Token<'a>>)
    requires
        lexed(decimal(n as nat), toks),
    ensures
        toks == seq![Token::<'a>::Number(n), Token::EOF],
{
    let w = decimal(n as nat);
    lemma_decimal(n as nat);
    lemma_digits_run(w, 0);
    assert(spans(w, w.len() as int) == seq![(w.len() as int, w.len() as int)]);
    assert(spans(w, 0) =~= seq![(0, w.len() as int), (w.len() as int, w.len() as int)]);
    assert(w.subrange(0, w.len() as int) =~= w);
    assert(token_fits(w, spans(w, 0)[0].0, spans(w, 0)[0].1, toks[0]));
    assert(token_fits(w, spans(w, 0)[1].0, spans(w, 0)[1].1, toks[1]));
    assert(toks =~= seq![Token::<'a>::Number(n), Token::EOF]);
}

/// Every lexeme that `spans` lists either is the end of input or ends where
/// `token_end` says.
proof fn lemma_spans_shape(b: Seq<u8>, i: int)
    requires
        0 <= i,
    ensures
        forall|j: int|
            0 <= j < spans(b, i).len() ==> {
                let (s, e) = #[trigger] spans(b, i)[j];
                s >= b.len() || (0 <= s && e == token_end(b, s))
            },
    decreases b.len() - i,
{
    lemma_skip_ws(b, i);
    let s = skip_ws(b, i);
    if s < b.len() {
        let e = token_end(b, s);
        if i < e <= b.len() {
            lemma_spans_shape(b, e);
            assert forall|j: int| 0 <= j < spans(b, i).len() implies {
                let (s2, e2) = #[trigger] spans(b, i)[j];
                s2 >= b.len() || (0 <= s2 && e2 == token_end(b, s2))
            } by {
                if j > 0 {
                    assert(spans(b, i)[j] == spans(b, e)[j - 1]);
                }
            }
        }
    }
}

proof fn lemma_letters_in_run(b: Seq<u8>, i: int)
    requires
        0 <= i,
    ensures
        letters_end(b, i) <= b.len() || letters_end(b, i) == i,
        forall|k: int| i <= k < letters_end(b, i) ==> is_letter_byte(#[trigger] b[k]),
    decreases b.len() - i,
{
    if 0 <= i < b.len() && is_letter_byte(b[i]) {
        lemma_letters_in_run(b, i + 1);
    }
}

/// Every identifier token of any input is a non-empty run of letters of the
/// input that is no keyword, and it re-reads as itself: lexing its bytes
/// alone gives one identifier token with the same bytes, then EOF.
pub proof fn lemma_identifier_tokens_round_trip<'a>(
    b: Seq<u8>,
    toks: Seq<Token<'a>>,
    k: int,
    again: Seq<Token<'a>>,
)
    requires
        lexed(b, toks),
        0 <= k < toks.len(),
        toks[k] is Identifier,
        lexed(toks[k]->Identifier_0@, again),
    ensures
        exists|s: int, e: int|
            0 <= s < e <= b.len() && toks[k]->Identifier_0@ == b.subrange(s, e),
        toks[k]->Identifier_0@.len() > 0,
        forall|j: int|
            0 <= j < toks[k]->Identifier_0@.len() ==> is_letter_byte(
                #[trigger] toks[k]->Identifier_0@[j],
            ),
        keyword::<'a>(toks[k]->Identifier_0@) is None,
        again.len() == 2,
        again[0] is Identifier,
        again[0]->Identifier_0@ == toks[k]->Identifier_0@,
        again[1] is EOF,
{
    let sp = spans(b, 0);
    lemma_spans_shape(b, 0);
    let (s, e) = sp[k];
    assert(token_fits(b, sp[k].0, sp[k].1, toks[k]));
    assert(s < b.len());
    assert(e == token_end(b, s));
    assert(is_letter_byte(b[s]));
    lemma_letters_end(b, s);
    lemma_letters_in_run(b, s);
    let w = b.subrange(s, e);
    assert(w == toks[k]->Identifier_0@);
    assert forall|j: int| 0 <= j < w.len() implies is_letter_byte(#[trigger] w[j]) by {
        assert(w[j] == b[s + j]);
    }
    lemma_identifier_round_trip(w, again);
}

proof fn lemma_digit_run_to(b: Seq<u8>, i: int, end: int)
    requires
        0 <= i <= end <= b.len(),
        forall|k: int| i <= k < end ==> is_digit_byte(#[trigger] b[k]),
        end == b.len() || !is_digit_byte(b[end]),
    ensures
        digits_end(b, i) == end,
    decreases end - i,
{
    if i < end {
        lemma_digit_run_to(b, i + 1, end);
    }
}

/// The decimal spelling of `n` at position `i` of `b`, followed by the end or
/// by a byte that is no digit, is one lexeme whose value is `n`.
pub proof fn lemma_number_lexeme(b: Seq<u8>, i: int, n: nat)
    requires
        0 <= i,
        i + decimal(n).len() <= b.len(),
        b.subrange(i, i + decimal(n).len()) == decimal(n),
        i + decimal(n).len() == b.len() || !is_digit_byte(b[i + decimal(n).len()]),
    ensures
        skip_ws(b, i) == i,
        token_end(b, i) == i + decimal(n).len(),
        is_digit_byte(b[i]),
        !is_letter_byte(b[i]),
        digits_value(b.subrange(i, token_end(b, i))) == n,
{
    let d = decimal(n);
    lemma_decimal(n);
    assert forall|k: int| i <= k < i + d.len() implies is_digit_byte(#[trigger] b[k]) by {
        assert(b[k] == b.subrange(i, i + d.len())[k - i]);
    }
    assert(b[i] == d[0]);
    lemma_digit_run_to(b, i, i + d.len());
}

/// The bytes of `x + y + z` where `y` is one space, one operator byte and one
/// space: the operator is a lexeme of its own between the two spaces.
pub open spec fn spaced(x: Seq<u8>, op: u8, z: Seq<u8>) -> Seq<u8> {
    x + seq![' ' as u8, op, ' ' as u8] + z
}

/// Lexing `a + b * c` gives the number, operator and EOF tokens in order.
pub proof fn lemma_lex_sum_of_product<'a>(a: u64, b: u64, c: u64, toks: Seq<Token<'a>>)
    requires
        lexed(
            spaced(spaced(decimal(a as nat), '+' as u8, decimal(b as nat)), '*' as u8, decimal(c as nat)),
            toks,
        ),
    ensures
        toks == seq![
            Token::<'a>::Number(a),
            Token::PlusSign,
            Token::Number(b),
            Token::AsteriskSign,
            Token::Number(c),
            Token::EOF,
        ],
{
    let da = decimal(a as nat);
    let db = decimal(b as nat);
    let dc = decimal(c as nat);
    lemma_decimal(a as nat);
    lemma_decimal(b as nat);
    lemma_decimal(c as nat);
    let x = spaced(da, '+' as u8, db);
    let w = spaced(x, '*' as u8, dc);
    let la = da.len() as int;
    let pb = la + 3;
    let eb = pb + db.len();
    let pc = eb + 3;
    let n = pc + dc.len();
    assert(w.len() == n);
    assert(w.subrange(0, la) =~= da);
    assert(w.subrange(pb, eb) =~= db);
    assert(w.subrange(pc, n) =~= dc);
    assert(w[la] == ' ' as u8 && w[la + 1] == '+' as u8 && w[la + 2] == ' ' as u8);
    assert(w[eb] == ' ' as u8 && w[eb + 1] == '*' as u8 && w[eb + 2] == ' ' as u8);
    lemma_number_lexeme(w, 0, a as nat);
    lemma_number_lexeme(w, pb, b as nat);
    lemma_number_lexeme(w, pc, c as nat);
    assert(skip_ws(w, la + 1) == la + 1);
    assert(skip_ws(w, la) == la + 1);
    assert(skip_ws(w, la + 2) == pb);
    assert(skip_ws(w, eb + 1) == eb + 1);
    assert(skip_ws(w, eb) == eb + 1);
    assert(skip_ws(w, eb + 2) == pc);
    assert(skip_ws(w, n) == n);
    assert(spans(w, n) == seq![(n, n)]);
    assert(spans(w, eb + 2) == seq![(pc, n)] + spans(w, n));
    assert(spans(w, eb) == seq![(eb + 1, eb + 2)] + spans(w, eb + 2));
    assert(spans(w, la + 2) == seq![(pb, eb)] + spans(w, eb));
    assert(spans(w, la) == seq![(la + 1, la + 2)] + spans(w, la + 2));
    assert(spans(w, 0) == seq![(0, la)] + spans(w, la));
    let sp = spans(w, 0);
    assert(sp =~= seq![(0, la), (la + 1, la + 2), (pb, eb), (eb + 1, eb + 2), (pc, n), (n, n)]);
    assert(token_fits(w, sp[0].0, sp[0].1, toks[0]));
    assert(token_fits(w, sp[1].0, sp[1].1, toks[1]));
    assert(token_fits(w, sp[2].0, sp[2].1, toks[2]));
    assert(token_fits(w, sp[3].0, sp[3].1, toks[3]));
    assert(token_fits(w, sp[4].0, sp[4].1, toks[4]));
    assert(token_fits(w, sp[5].0, sp[5].1, toks[5]));
    assert(toks =~= seq![
        Token::<'a>::Number(a),
        Token::PlusSign,
        Token::Number(b),
        Token::AsteriskSign,
        Token::Number(c),
        Token::EOF,
    ]);
}

/// Lexing `-a * b` gives the minus, number, operator and EOF tokens in order.
pub proof fn lemma_lex_negated_product<'a>(a: u64, b: u64, toks: Seq<Token<'a>>)
    requires
        lexed(spaced(seq!['-' as u8] + decimal(a as nat), '*' as u8, decimal(b as nat)), toks),
    ensures
        toks == seq![
            Token::<'a>::MinusSign,
            Token::Number(a),
            Token::AsteriskSign,
            Token::Number(b),
            Token::EOF,
        ],
{
    let da = decimal(a as nat);
    let db = decimal(b as nat);
    lemma_decimal(a as nat);
    lemma_decimal(b as nat);
    let w = spaced(seq!['-' as u8] + da, '*' as u8, db);
    let ea = 1 + da.len() as int;
    let pb = ea + 3;
    let n = pb + db.len();
    assert(w.len() == n);
    assert(w.subrange(1, ea) =~= da);
    assert(w.subrange(pb, n) =~= db);
    assert(w[0] == '-' as u8);
    assert(w[ea] == ' ' as u8 && w[ea + 1] == '*' as u8 && w[ea + 2] == ' ' as u8);
    lemma_number_lexeme(w, 1, a as nat);
    lemma_number_lexeme(w, pb, b as nat);
    assert(skip_ws(w, 0) == 0);
    assert(skip_ws(w, 1) == 1);
    assert(skip_ws(w, ea + 1) == ea + 1);
    assert(skip_ws(w, ea) == ea + 1);
    assert(skip_ws(w, ea + 2) == pb);
    assert(skip_ws(w, n) == n);
    assert(spans(w, n) == seq![(n, n)]);
    assert(spans(w, ea + 2) == seq![(pb, n)] + spans(w, n));
    assert(spans(w, ea) == seq![(ea + 1, ea + 2)] + spans(w, ea + 2));
    assert(spans(w, 1) == seq![(1, ea)] + spans(w, ea));
    assert(spans(w, 0) == seq![(0, 1)] + spans(w, 1));
    let sp = spans(w, 0);
    assert(sp =~= seq![(0, 1), (1, ea), (ea + 1, ea + 2), (pb, n), (n, n)]);
    assert(token_fits(w, sp[0].0, sp[0].1, toks[0]));
    assert(token_fits(w, sp[1].0, sp[1].1, toks[1]));
    assert(token_fits(w, sp[2].0, sp[2].1, toks[2]));
    assert(token_fits(w, sp[3].0, sp[3].1, toks[3]));
    assert(token_fits(w, sp[4].0, sp[4].1, toks[4]));
    assert(toks =~= seq![
        Token::<'a>::MinusSign,
        Token::Number(a),
        Token::AsteriskSign,
        Token::Number(b),
        Token::EOF,
    ]);
}

/// The bytes of `x`, a space, `==`, a space, then `z`.
pub open spec fn spaced_equal(x: Seq<u8>, z: Seq<u8>) -> Seq<u8> {
    x + seq![' ' as u8, '=' as u8, '=' as u8, ' ' as u8] + z
}

/// Lexing `a == b == c` gives the number, `==` and EOF tokens in order.
pub proof fn lemma_lex_chained_equality<'a>(a: u64, b: u64, c: u64, toks: Seq<Token<'a>>)
    requires
        lexed(
            spaced_equal(spaced_equal(decimal(a as nat), decimal(b as nat)), decimal(c as nat)),
            toks,
        ),
    ensures
        toks == seq![
            Token::<'a>::Number(a),
            Token::EQ,
            Token::Number(b),
            Token::EQ,
            Token::Number(c),
            Token::EOF,
        ],
{
    let da = decimal(a as nat);
    let db = decimal(b as nat);
    let dc = decimal(c as nat);
    lemma_decimal(a as nat);
    lemma_decimal(b as nat);
    lemma_decimal(c as nat);
    let w = spaced_equal(spaced_equal(da, db), dc);
    let la = da.len() as int;
    let pb = la + 4;
    let eb = pb + db.len();
    let pc = eb + 4;
    let n = pc + dc.len();
    assert(w.len() == n);
    assert(w.subrange(0, la) =~= da);
    assert(w.subrange(pb, eb) =~= db);
    assert(w.subrange(pc, n) =~= dc);
    assert(w[la] == ' ' as u8 && w[la + 1] == '=' as u8 && w[la + 2] == '=' as u8 && w[la + 3]
        == ' ' as u8);
    assert(w[eb] == ' ' as u8 && w[eb + 1] == '=' as u8 && w[eb + 2] == '=' as u8 && w[eb + 3]
        == ' ' as u8);
    lemma_number_lexeme(w, 0, a as nat);
    lemma_number_lexeme(w, pb, b as nat);
    lemma_number_lexeme(w, pc, c as nat);
    assert(skip_ws(w, la + 1) == la + 1);
    assert(skip_ws(w, la) == la + 1);
    assert(skip_ws(w, la + 3) == pb);
    assert(skip_ws(w, eb + 1) == eb + 1);
    assert(skip_ws(w, eb) == eb + 1);
    assert(skip_ws(w, eb + 3) == pc);
    assert(skip_ws(w, n) == n);
    assert(spans(w, n) == seq![(n, n)]);
    assert(spans(w, eb + 3) == seq![(pc, n)] + spans(w, n));
    assert(spans(w, eb) == seq![(eb + 1, eb + 3)] + spans(w, eb + 3));
    assert(spans(w, la + 3) == seq![(pb, eb)] + spans(w, eb));
    assert(spans(w, la) == seq![(la + 1, la + 3)] + spans(w, la + 3));
    assert(spans(w, 0) == seq![(0, la)] + spans(w, la));
    let sp = spans(w, 0);
    assert(sp =~= seq![(0, la), (la + 1, la + 3), (pb, eb), (eb + 1, eb + 3), (pc, n), (n, n)]);
    assert(token_fits(w, sp[0].0, sp[0].1, toks[0]));
    assert(token_fits(w, sp[1].0, sp[1].1, toks[1]));
    assert(token_fits(w, sp[2].0, sp[2].1, toks[2]));
    assert(token_fits(w, sp[3].0, sp[3].1, toks[3]));
    assert(token_fits(w, sp[4].0, sp[4].1, toks[4]));
    assert(token_fits(w, sp[5].0, sp[5].1, toks[5]));
    assert(toks =~= seq![
        Token::<'a>::Number(a),
        Token::EQ,
        Token::Number(b),
        Token::EQ,
        Token::Number(c),
        Token::EOF,
    ]);
}

} // verus!
