//! Splitting program text into tokens.

use crate::text::{decimal, digit_char};
use vstd::prelude::*;
use vstd::std_specs::iter::IteratorSpec;

verus! {

/// The characters of `input`, in order.
pub fn chars_of(input: &str) -> (r: Vec<char>)
    ensures
        r@ == input@,
{
    let mut out: Vec<char> = Vec::new();
    let mut it = input.chars();
    loop
        invariant
            out@ + IteratorSpec::remaining(&it) == input@,
            it.obeys_prophetic_iter_laws(),
            IteratorSpec::decrease(&it) is Some,
        ensures
            out@ == input@,
        decreases IteratorSpec::decrease(&it)->0,
    {
        let ghost rem = IteratorSpec::remaining(&it);
        match it.next() {
            Some(c) => {
                proof {
                    assert(out@.push(c) + rem.drop_first() =~= out@ + rem);
                }
                out.push(c);
            },
            None => {
                proof {
                    assert(out@ + rem =~= out@);
                }
                break;
            },
        }
    }
    out
}

/// What a token is.
#[derive(Debug, Clone, Copy, PartialEq, Eq, Structural)]
pub enum TokenKind {
    Int(u64),
    Ident,
    LParen,
    RParen,
    LBrace,
    RBrace,
    Comma,
    Semi,
    Plus,
    Star,
    Lt,
    Gt,
    Eq,
    Let,
    Println,
    Fun,
    Return,
    True,
    False,
}

/// A token and the characters `start..end` of the input it was read from.
#[derive(Debug, Clone, Copy, PartialEq, Eq, Structural)]
pub struct Token {
    pub kind: TokenKind,
    pub start: usize,
    pub end: usize,
}

pub open spec fn is_space(c: char) -> bool {
    c == ' ' || c == '\t' || c == '\n' || c == '\r'
}

pub open spec fn is_digit(c: char) -> bool {
    '0' <= c && c <= '9'
}

pub open spec fn is_ident_start(c: char) -> bool {
    ('a' <= c && c <= 'z') || ('A' <= c && c <= 'Z') || c == '_'
}

pub open spec fn is_ident_char(c: char) -> bool {
    is_ident_start(c) || is_digit(c)
}

pub open spec fn digit_value(c: char) -> nat {
    (c as int - '0' as int) as nat
}

/// The end of the run of digits that starts at `i`.
pub open spec fn digits_end(cs: Seq<char>, i: nat) -> nat
    decreases cs.len() - i,
{
    if i < cs.len() && is_digit(cs[i as int]) {
        digits_end(cs, i + 1)
    } else {
        i
    }
}

/// The end of the run of identifier characters that starts at `i`.
pub open spec fn ident_end(cs: Seq<char>, i: nat) -> nat
    decreases cs.len() - i,
{
    if i < cs.len() && is_ident_char(cs[i as int]) {
        ident_end(cs, i + 1)
    } else {
        i
    }
}

/// The number that the decimal digits `cs[i..j]` denote.
pub open spec fn digits_value(cs: Seq<char>, i: nat, j: nat) -> nat
    decreases j - i,
{
    if j <= i {
        0
    } else {
        digits_value(cs, i, (j - 1) as nat) * 10 + digit_value(cs[j - 1])
    }
}

/// The token of a one-character symbol.
pub open spec fn symbol_kind(c: char) -> Option<TokenKind> {
    if c == '(' {
        Some(TokenKind::LParen)
    } else if c == ')' {
        Some(TokenKind::RParen)
    } else if c == '{' {
        Some(TokenKind::LBrace)
    } else if c == '}' {
        Some(TokenKind::RBrace)
    } else if c == ',' {
        Some(TokenKind::Comma)
    } else if c == ';' {
        Some(TokenKind::Semi)
    } else if c == '+' {
        Some(TokenKind::Plus)
    } else if c == '*' {
        Some(TokenKind::Star)
    } else if c == '<' {
        Some(TokenKind::Lt)
    } else if c == '>' {
        Some(TokenKind::Gt)
    } else if c == '=' {
        Some(TokenKind::Eq)
    } else {
        None
    }
}

/// The token of a word: a keyword, or else an identifier.
pub open spec fn word_kind(w: Seq<char>) -> TokenKind {
    if w == seq!['l', 'e', 't'] {
        TokenKind::Let
    } else if w == seq!['p', 'r', 'i', 'n', 't', 'l', 'n'] {
        TokenKind::Println
    } else if w == seq!['f', 'u', 'n'] {
        TokenKind::Fun
    } else if w == seq!['r', 'e', 't', 'u', 'r', 'n'] {
        TokenKind::Return
    } else if w == seq!['t', 'r', 'u', 'e'] {
        TokenKind::True
    } else if w == seq!['f', 'a', 'l', 's', 'e'] {
        TokenKind::False
    } else {
        TokenKind::Ident
    }
}

pub proof fn lemma_digits_end(cs: Seq<char>, i: nat)
    ensures
        digits_end(cs, i) >= i,
        i < cs.len() && is_digit(cs[i as int]) ==> digits_end(cs, i) > i,
        i <= cs.len() ==> digits_end(cs, i) <= cs.len(),
        forall|k: int| i <= k < digits_end(cs, i) ==> is_digit(#[trigger] cs[k]),
        digits_end(cs, i) < cs.len() ==> !is_digit(cs[digits_end(cs, i) as int]),
    decreases cs.len() - i,
{
    if i < cs.len() && is_digit(cs[i as int]) {
        lemma_digits_end(cs, i + 1);
    }
}

pub proof fn lemma_ident_end(cs: Seq<char>, i: nat)
    ensures
        ident_end(cs, i) >= i,
        i < cs.len() && is_ident_char(cs[i as int]) ==> ident_end(cs, i) > i,
        i <= cs.len() ==> ident_end(cs, i) <= cs.len(),
        forall|k: int| i <= k < ident_end(cs, i) ==> is_ident_char(#[trigger] cs[k]),
        ident_end(cs, i) < cs.len() ==> !is_ident_char(cs[ident_end(cs, i) as int]),
    decreases cs.len() - i,
{
    if i < cs.len() && is_ident_char(cs[i as int]) {
        lemma_ident_end(cs, i + 1);
    }
}

/// Lexing from position `i`, after the tokens `acc`: all tokens, or the
/// position of the first character that starts none.
pub open spec fn lex_from(cs: Seq<char>, i: nat, acc: Seq<Token>) -> Result<Seq<Token>, nat>
    decreases cs.len() - i,
{
    if i >= cs.len() {
        Ok(acc)
    } else if is_space(cs[i as int]) {
        lex_from(cs, i + 1, acc)
    } else if is_digit(cs[i as int]) {
        let j = digits_end(cs, i);
        let v = digits_value(cs, i, j);
        proof {
            lemma_digits_end(cs, i);
        }
        if v > u64::MAX {
            Err(i)
        } else {
            lex_from(
                cs,
                j,
                acc.push(Token { kind: TokenKind::Int(v as u64), start: i as usize, end: j as usize }),
            )
        }
    } else if is_ident_start(cs[i as int]) {
        let j = ident_end(cs, i);
        proof {
            lemma_ident_end(cs, i);
        }
        lex_from(
            cs,
            j,
            acc.push(Token { kind: word_kind(cs.subrange(i as int, j as int)), start: i as usize, end: j as usize }),
        )
    } else {
        match symbol_kind(cs[i as int]) {
            Some(k) => lex_from(
                cs,
                i + 1,
                acc.push(Token { kind: k, start: i as usize, end: (i + 1) as usize }),
            ),
            None => Err(i),
        }
    }
}

/// The tokens of a text, or the position of the first character that
/// starts none (or the start of a number too large for a `u64`).
pub open spec fn lex(cs: Seq<char>) -> Result<Seq<Token>, nat> {
    lex_from(cs, 0, Seq::empty())
}

fn is_space_char(c: char) -> (r: bool)
    ensures
        r == is_space(c),
{
    c == ' ' || c == '\t' || c == '\n' || c == '\r'
}

fn is_digit_char(c: char) -> (r: bool)
    ensures
        r == is_digit(c),
{
    '0' <= c && c <= '9'
}

fn is_ident_start_char(c: char) -> (r: bool)
    ensures
        r == is_ident_start(c),
{
    ('a' <= c && c <= 'z') || ('A' <= c && c <= 'Z') || c == '_'
}

fn is_ident_char_char(c: char) -> (r: bool)
    ensures
        r == is_ident_char(c),
{
    is_ident_start_char(c) || is_digit_char(c)
}

fn symbol_kind_of(c: char) -> (r: Option<TokenKind>)
    ensures
        r == symbol_kind(c),
{
    if c == '(' {
        Some(TokenKind::LParen)
    } else if c == ')' {
        Some(TokenKind::RParen)
    } else if c == '{' {
        Some(TokenKind::LBrace)
    } else if c == '}' {
        Some(TokenKind::RBrace)
    } else if c == ',' {
        Some(TokenKind::Comma)
    } else if c == ';' {
        Some(TokenKind::Semi)
    } else if c == '+' {
        Some(TokenKind::Plus)
    } else if c == '*' {
        Some(TokenKind::Star)
    } else if c == '<' {
        Some(TokenKind::Lt)
    } else if c == '>' {
        Some(TokenKind::Gt)
    } else if c == '=' {
        Some(TokenKind::Eq)
    } else {
        None
    }
}

/// Whether `cs[i..j]` is the word `w`.
fn is_word(cs: &Vec<char>, i: usize, j: usize, w: &Vec<char>) -> (r: bool)
    requires
        i <= j <= cs@.len(),
    ensures
        r == (cs@.subrange(i as int, j as int) == w@),
{
    if j - i != w.len() {
        return false;
    }
    let mut k: usize = 0;
    while k < w.len()
        invariant
            i <= j <= cs@.len(),
            j - i == w@.len(),
            k <= w@.len(),
            forall|m: int| 0 <= m < k ==> cs@[i + m] == w@[m],
        decreases w@.len() - k,
    {
        if cs[i + k] != w[k] {
            proof {
                assert(cs@.subrange(i as int, j as int)[k as int] != w@[k as int]);
            }
            return false;
        }
        k = k + 1;
    }
    proof {
        assert(cs@.subrange(i as int, j as int) =~= w@);
    }
    true
}

fn word_kind_of(cs: &Vec<char>, i: usize, j: usize) -> (r: TokenKind)
    requires
        i <= j <= cs@.len(),
    ensures
        r == word_kind(cs@.subrange(i as int, j as int)),
{
    let w_let = vec!['l', 'e', 't'];
    let w_println = vec!['p', 'r', 'i', 'n', 't', 'l', 'n'];
    let w_fun = vec!['f', 'u', 'n'];
    let w_return = vec!['r', 'e', 't', 'u', 'r', 'n'];
    let w_true = vec!['t', 'r', 'u', 'e'];
    let w_false = vec!['f', 'a', 'l', 's', 'e'];
    proof {
        assert(w_let@ =~= seq!['l', 'e', 't']);
        assert(w_println@ =~= seq!['p', 'r', 'i', 'n', 't', 'l', 'n']);
        assert(w_fun@ =~= seq!['f', 'u', 'n']);
        assert(w_return@ =~= seq!['r', 'e', 't', 'u', 'r', 'n']);
        assert(w_true@ =~= seq!['t', 'r', 'u', 'e']);
        assert(w_false@ =~= seq!['f', 'a', 'l', 's', 'e']);
    }
    if is_word(cs, i, j, &w_let) {
        TokenKind::Let
    } else if is_word(cs, i, j, &w_println) {
        TokenKind::Println
    } else if is_word(cs, i, j, &w_fun) {
        TokenKind::Fun
    } else if is_word(cs, i, j, &w_return) {
        TokenKind::Return
    } else if is_word(cs, i, j, &w_true) {
        TokenKind::True
    } else if is_word(cs, i, j, &w_false) {
        TokenKind::False
    } else {
        TokenKind::Ident
    }
}

proof fn lemma_digits_value_grows(cs: Seq<char>, i: nat, k: nat, j: nat)
    requires
        i <= k <= j,
        forall|m: int| i <= m < j ==> is_digit(#[trigger] cs[m]),
    ensures
        digits_value(cs, i, k) <= digits_value(cs, i, j),
    decreases j - k,
{
    if k < j {
        lemma_digits_value_grows(cs, i, k, (j - 1) as nat);
    }
}

/// The tokens of `cs`, or the position of the first character that starts
/// none (see `lex`).
pub fn tokenize(cs: &Vec<char>) -> (r: Result<Vec<Token>, usize>)
    ensures
        match lex(cs@) {
            Ok(ts) => r matches Ok(v) && v@ == ts,
            Err(p) => r matches Err(q) && q as nat == p,
        },
{
    let mut out: Vec<Token> = Vec::new();
    let mut i: usize = 0;
    while i < cs.len()
        invariant
            i <= cs@.len(),
            lex(cs@) == lex_from(cs@, i as nat, out@),
        decreases cs@.len() - i,
    {
        let c = cs[i];
        if is_space_char(c) {
            i = i + 1;
        } else if is_digit_char(c) {
            proof {
                lemma_digits_end(cs@, i as nat);
            }
            let mut j: usize = i;
            while j < cs.len() && is_digit_char(cs[j])
                invariant
                    i <= j <= cs@.len(),
                    digits_end(cs@, i as nat) == digits_end(cs@, j as nat),
                decreases cs@.len() - j,
            {
                j = j + 1;
            }
            proof {
                lemma_digits_end(cs@, j as nat);
            }
            let mut value: u64 = 0;
            let mut k: usize = i;
            while k < j
                invariant
                    i <= k <= j <= cs@.len(),
                    j == digits_end(cs@, i as nat),
                    forall|m: int| i <= m < j ==> is_digit(#[trigger] cs@[m]),
                    value as nat == digits_value(cs@, i as nat, k as nat),
                    lex(cs@) == lex_from(cs@, i as nat, out@),
                decreases j - k,
            {
                let d = (cs[k] as u32 - '0' as u32) as u64;
                proof {
                    assert(d as nat == digit_value(cs@[k as int]));
                }
                match value.checked_mul(10) {
                    Some(v10) => match v10.checked_add(d) {
                        Some(v) => {
                            value = v;
                        },
                        None => {
                            proof {
                                lemma_digits_value_grows(cs@, i as nat, (k + 1) as nat, j as nat);
                            }
                            return Err(i);
                        },
                    },
                    None => {
                        proof {
                            lemma_digits_value_grows(cs@, i as nat, (k + 1) as nat, j as nat);
                        }
                        return Err(i);
                    },
                }
                k = k + 1;
            }
            out.push(Token { kind: TokenKind::Int(value), start: i, end: j });
            i = j;
        } else if is_ident_start_char(c) {
            let mut j: usize = i;
            while j < cs.len() && is_ident_char_char(cs[j])
                invariant
                    i <= j <= cs@.len(),
                    ident_end(cs@, i as nat) == ident_end(cs@, j as nat),
                decreases cs@.len() - j,
            {
                j = j + 1;
            }
            proof {
                lemma_ident_end(cs@, i as nat);
            }
            let kind = word_kind_of(cs, i, j);
            out.push(Token { kind, start: i, end: j });
            i = j;
        } else {
            match symbol_kind_of(c) {
                Some(k) => {
                    out.push(Token { kind: k, start: i, end: i + 1 });
                    i = i + 1;
                },
                None => {
                    return Err(i);
                },
            }
        }
    }
    Ok(out)
}

/// Every token lies within the text.
pub open spec fn tokens_wf(ts: Seq<Token>, cs: Seq<char>) -> bool {
    forall|k: int| 0 <= k < ts.len() ==> #[trigger] ts[k].start <= ts[k].end <= cs.len()
}

/// The tokens that lexing gives lie within the text.
pub proof fn lemma_lex_wf(cs: Seq<char>, i: nat, acc: Seq<Token>)
    requires
        cs.len() <= usize::MAX,
        tokens_wf(acc, cs),
    ensures
        lex_from(cs, i, acc) matches Ok(ts) ==> tokens_wf(ts, cs),
    decreases cs.len() - i,
{
    if i < cs.len() {
        if is_space(cs[i as int]) {
            lemma_lex_wf(cs, i + 1, acc);
        } else if is_digit(cs[i as int]) {
            lemma_digits_end(cs, i);
            let j = digits_end(cs, i);
            let v = digits_value(cs, i, j);
            if v <= u64::MAX {
                let t = Token { kind: TokenKind::Int(v as u64), start: i as usize, end: j as usize };
                assert(tokens_wf(acc.push(t), cs));
                lemma_lex_wf(cs, j, acc.push(t));
            }
        } else if is_ident_start(cs[i as int]) {
            lemma_ident_end(cs, i);
            let j = ident_end(cs, i);
            let t = Token {
                kind: word_kind(cs.subrange(i as int, j as int)),
                start: i as usize,
                end: j as usize,
            };
            assert(tokens_wf(acc.push(t), cs));
            lemma_lex_wf(cs, j, acc.push(t));
        } else if let Some(k) = symbol_kind(cs[i as int]) {
            let t = Token { kind: k, start: i as usize, end: (i + 1) as usize };
            assert(tokens_wf(acc.push(t), cs));
            lemma_lex_wf(cs, i + 1, acc.push(t));
        }
    }
}


/// The characters of names: every ASCII letter and `_` can start a name,
/// and those and the ASCII digits can continue one.
pub proof fn law_name_chars(c: char)
    ensures
        ('a' <= c <= 'z' || 'A' <= c <= 'Z' || c == '_') ==> is_ident_start(c) && is_ident_char(c),
        '0' <= c <= '9' ==> is_ident_char(c) && !is_ident_start(c),
{
}

/// A text that is one name (an ASCII letter or `_`, then ASCII letters,
/// digits or `_`) lexes to a single word token that covers all of it.
pub proof fn law_lex_name(cs: Seq<char>)
    requires
        cs.len() > 0,
        cs.len() <= usize::MAX,
        'a' <= cs[0] <= 'z' || 'A' <= cs[0] <= 'Z' || cs[0] == '_',
        forall|i: int|
            0 <= i < cs.len() ==> ('a' <= #[trigger] cs[i] <= 'z' || 'A' <= cs[i] <= 'Z' || cs[i]
                == '_' || '0' <= cs[i] <= '9'),
    ensures
        lex(cs) == Ok::<Seq<Token>, nat>(
            seq![Token { kind: word_kind(cs), start: 0, end: cs.len() as usize }],
        ),
{
    lemma_ident_end(cs, 0);
    let j = ident_end(cs, 0);
    if j < cs.len() {
        assert(is_ident_char(cs[j as int]));
    }
    assert(cs.subrange(0, cs.len() as int) =~= cs);
    assert(j == cs.len());
    assert(!is_space(cs[0]) && !is_digit(cs[0]) && is_ident_start(cs[0]));
    let t = Token { kind: word_kind(cs), start: 0, end: cs.len() as usize };
    assert(Seq::<Token>::empty().push(t) =~= seq![t]);
    assert(lex_from(cs, cs.len(), seq![t]) == Ok::<Seq<Token>, nat>(seq![t]));
    assert(lex_from(cs, 0, Seq::empty()) == lex_from(cs, j, Seq::<Token>::empty().push(t)));
}


/// `10` to the power `k`.
spec fn ten_pow(k: nat) -> nat
    decreases k,
{
    if k == 0 {
        1
    } else {
        10 * ten_pow((k - 1) as nat)
    }
}

proof fn lemma_decimal_shape(n: nat, k: nat)
    requires
        k >= 1,
        n < ten_pow(k),
    ensures
        1 <= decimal(n).len() <= k,
        forall|i: int| 0 <= i < decimal(n).len() ==> is_digit(#[trigger] decimal(n)[i]),
        digits_value(decimal(n), 0, decimal(n).len()) == n,
    decreases n,
{
    if n < 10 {
        assert(decimal(n) == seq![digit_char(n)]);
        assert(digit_value(digit_char(n)) == n);
        assert(digits_value(decimal(n), 0, 0) == 0);
    } else {
        let p = decimal(n / 10);
        assert(n / 10 < ten_pow((k - 1) as nat) && k >= 2) by (nonlinear_arith)
            requires
                n < ten_pow(k),
                k >= 1,
                n >= 10,
                ten_pow(k) == 10 * ten_pow((k - 1) as nat),
                k == 1 ==> ten_pow((k - 1) as nat) == 1,
        {
        }
        lemma_decimal_shape(n / 10, (k - 1) as nat);
        let cs = decimal(n);
        assert(cs == p.push(digit_char(n % 10)));
        assert(digit_value(digit_char(n % 10)) == n % 10);
        lemma_digits_value_prefix(cs, p, p.len());
        assert(digits_value(cs, 0, cs.len()) == digits_value(cs, 0, p.len()) * 10 + digit_value(
            cs[p.len() as int],
        ));
        assert((n / 10) * 10 + n % 10 == n) by (nonlinear_arith);
    }
}

proof fn lemma_digits_value_prefix(cs: Seq<char>, ds: Seq<char>, j: nat)
    requires
        j <= cs.len(),
        j <= ds.len(),
        forall|k: int| 0 <= k < j ==> cs[k] == ds[k],
    ensures
        digits_value(cs, 0, j) == digits_value(ds, 0, j),
    decreases j,
{
    if j > 0 {
        lemma_digits_value_prefix(cs, ds, (j - 1) as nat);
    }
}

/// The decimal digits of a `u64`, and nothing else, lex to one integer
/// token holding that number and covering all of the text.
pub proof fn law_lex_number(n: u64)
    ensures
        lex(decimal(n as nat)) == Ok::<Seq<Token>, nat>(
            seq![Token { kind: TokenKind::Int(n), start: 0, end: decimal(n as nat).len() as usize }],
        ),
{
    reveal_with_fuel(ten_pow, 21);
    assert(ten_pow(20) == 100000000000000000000);
    lemma_decimal_shape(n as nat, 20);
    let cs = decimal(n as nat);
    lemma_digits_end(cs, 0);
    let j = digits_end(cs, 0);
    if j < cs.len() {
        assert(is_digit(cs[j as int]));
    }
    assert(j == cs.len());
    assert(!is_space(cs[0]));
    let t = Token { kind: TokenKind::Int(n), start: 0, end: cs.len() as usize };
    assert(Seq::<Token>::empty().push(t) =~= seq![t]);
    assert(lex_from(cs, cs.len(), seq![t]) == Ok::<Seq<Token>, nat>(seq![t]));
}

} // verus!
