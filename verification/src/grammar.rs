//! The grammar of programs as derivations: which token spans derive which
//! trees. The parser is proved to return only trees the grammar derives
//! from the tokens of the text.
//!
//! Each relation says that the tokens `p..q` (with `p < q <= ts.len()`)
//! derive a tree of one grammar symbol.

use crate::lexer::{Token, TokenKind, lex};
use crate::parser::{
    Ast, kind_at, text, advances, program, parse_atom, parse_args, parse_term, parse_term_rest,
    parse_sum, parse_sum_rest, parse_expr, parse_params, parse_stmt, parse_block, parse_program,
};
use vstd::prelude::*;

verus! {

/// `atom := INT | 'true' | 'false' | IDENT | IDENT '(' args | '(' expr ')'`
pub open spec fn atom_d(ts: Seq<Token>, cs: Seq<char>, p: nat, q: nat, a: Ast) -> bool
    decreases q - p, 0int,
{
    &&& p < q
    &&& q <= ts.len()
    &&& {
        ||| match a {
            Ast::Number(v) => q == p + 1 && kind_at(ts, p) == Some(TokenKind::Int(v)),
            Ast::Boolean(b) => q == p + 1 && kind_at(ts, p) == Some(
                if b {
                    TokenKind::True
                } else {
                    TokenKind::False
                },
            ),
            Ast::Id(n) => q == p + 1 && kind_at(ts, p) == Some(TokenKind::Ident) && n == text(
                cs,
                ts[p as int],
            ),
            Ast::FunctionCall(n, args) => {
                &&& kind_at(ts, p) == Some(TokenKind::Ident)
                &&& n == text(cs, ts[p as int])
                &&& kind_at(ts, p + 1) == Some(TokenKind::LParen)
                &&& p + 2 < q
                &&& args_d(ts, cs, p + 2, q, args)
            },
            _ => false,
        }
        ||| {
            &&& p + 2 < q
            &&& kind_at(ts, p) == Some(TokenKind::LParen)
            &&& kind_at(ts, (q - 1) as nat) == Some(TokenKind::RParen)
            &&& expr_d(ts, cs, p + 1, (q - 1) as nat, a)
        }
    }
}

/// `args := [expr (',' expr)*] ')'`
pub open spec fn args_d(ts: Seq<Token>, cs: Seq<char>, p: nat, q: nat, args: Seq<Ast>) -> bool
    decreases q - p, 4int,
{
    &&& p < q
    &&& kind_at(ts, (q - 1) as nat) == Some(TokenKind::RParen)
    &&& if args.len() == 0 {
        q == p + 1
    } else {
        list_d(ts, cs, p, (q - 1) as nat, args)
    }
}

/// `expr (',' expr)*`, with at least one `expr`.
pub open spec fn list_d(ts: Seq<Token>, cs: Seq<char>, p: nat, q: nat, args: Seq<Ast>) -> bool
    decreases q - p, 4int,
{
    &&& p < q
    &&& q <= ts.len()
    &&& args.len() >= 1
    &&& if args.len() == 1 {
        expr_d(ts, cs, p, q, args[0])
    } else {
        exists|m: nat|
            p < m && m + 1 < q && list_d(ts, cs, p, m, args.drop_last()) && #[trigger] kind_at(ts, m)
                == Some(TokenKind::Comma) && expr_d(ts, cs, m + 1, q, args.last())
    }
}

/// `term := atom | term '*' atom`
pub open spec fn term_d(ts: Seq<Token>, cs: Seq<char>, p: nat, q: nat, a: Ast) -> bool
    decreases q - p, 1int,
{
    &&& p < q
    &&& q <= ts.len()
    &&& {
        ||| atom_d(ts, cs, p, q, a)
        ||| match a {
            Ast::Mul(l, r) => exists|m: nat|
                p < m && m + 1 < q && term_d(ts, cs, p, m, *l) && #[trigger] kind_at(ts, m) == Some(
                    TokenKind::Star,
                ) && atom_d(ts, cs, m + 1, q, *r),
            _ => false,
        }
    }
}

/// `sum := term | sum '+' term`
pub open spec fn sum_d(ts: Seq<Token>, cs: Seq<char>, p: nat, q: nat, a: Ast) -> bool
    decreases q - p, 2int,
{
    &&& p < q
    &&& q <= ts.len()
    &&& {
        ||| term_d(ts, cs, p, q, a)
        ||| match a {
            Ast::Add(l, r) => exists|m: nat|
                p < m && m + 1 < q && sum_d(ts, cs, p, m, *l) && #[trigger] kind_at(ts, m) == Some(
                    TokenKind::Plus,
                ) && term_d(ts, cs, m + 1, q, *r),
            _ => false,
        }
    }
}

/// `expr := sum | sum '<' sum | sum '>' sum`
pub open spec fn expr_d(ts: Seq<Token>, cs: Seq<char>, p: nat, q: nat, a: Ast) -> bool
    decreases q - p, 3int,
{
    &&& p < q
    &&& q <= ts.len()
    &&& {
        ||| sum_d(ts, cs, p, q, a)
        ||| match a {
            Ast::LessThan(l, r) => exists|m: nat|
                p < m && m + 1 < q && sum_d(ts, cs, p, m, *l) && #[trigger] kind_at(ts, m) == Some(
                    TokenKind::Lt,
                ) && sum_d(ts, cs, m + 1, q, *r),
            Ast::GreaterThan(l, r) => exists|m: nat|
                p < m && m + 1 < q && sum_d(ts, cs, p, m, *l) && #[trigger] kind_at(ts, m) == Some(
                    TokenKind::Gt,
                ) && sum_d(ts, cs, m + 1, q, *r),
            _ => false,
        }
    }
}

/// `IDENT (',' IDENT)*` from token `p`, one name for each element of
/// `ps` (none when `ps` is empty), the names at `p`, `p + 2`, ... and a
/// `,` between each two.
pub open spec fn names_d(ts: Seq<Token>, cs: Seq<char>, p: nat, ps: Seq<Seq<char>>) -> bool
    decreases ps.len(),
{
    if ps.len() == 0 {
        true
    } else {
        let k = (p + 2 * (ps.len() - 1)) as nat;
        &&& names_d(ts, cs, p, ps.drop_last())
        &&& ps.len() > 1 ==> kind_at(ts, (k - 1) as nat) == Some(TokenKind::Comma)
        &&& kind_at(ts, k) == Some(TokenKind::Ident)
        &&& ps.last() == text(cs, ts[k as int])
    }
}

/// `params := [IDENT (',' IDENT)*] ')'`
pub open spec fn params_d(ts: Seq<Token>, cs: Seq<char>, p: nat, q: nat, ps: Seq<Seq<char>>) -> bool {
    &&& q == (if ps.len() == 0 {
        p + 1
    } else {
        p + 2 * ps.len()
    })
    &&& kind_at(ts, (q - 1) as nat) == Some(TokenKind::RParen)
    &&& names_d(ts, cs, p, ps)
}

/// `stmt := 'let' IDENT '=' expr | 'println' '(' expr ')' | 'return' expr
///        | 'fun' IDENT '(' params '{' block | expr`
pub open spec fn stmt_d(ts: Seq<Token>, cs: Seq<char>, p: nat, q: nat, a: Ast) -> bool
    decreases q - p, 5int,
{
    &&& p < q
    &&& q <= ts.len()
    &&& {
        ||| expr_d(ts, cs, p, q, a)
        ||| match a {
            Ast::Assign(n, e) => {
                &&& kind_at(ts, p) == Some(TokenKind::Let)
                &&& kind_at(ts, p + 1) == Some(TokenKind::Ident)
                &&& n == text(cs, ts[p + 1int])
                &&& kind_at(ts, p + 2) == Some(TokenKind::Eq)
                &&& p + 3 < q
                &&& expr_d(ts, cs, p + 3, q, *e)
            },
            Ast::PrintLn(e) => {
                &&& kind_at(ts, p) == Some(TokenKind::Println)
                &&& kind_at(ts, p + 1) == Some(TokenKind::LParen)
                &&& kind_at(ts, (q - 1) as nat) == Some(TokenKind::RParen)
                &&& p + 2 < q - 1
                &&& expr_d(ts, cs, p + 2, (q - 1) as nat, *e)
            },
            Ast::Return(b) => {
                &&& b.len() == 1
                &&& kind_at(ts, p) == Some(TokenKind::Return)
                &&& p + 1 < q
                &&& expr_d(ts, cs, p + 1, q, b[0])
            },
            Ast::Function(n, ps, body) => {
                &&& kind_at(ts, p) == Some(TokenKind::Fun)
                &&& kind_at(ts, p + 1) == Some(TokenKind::Ident)
                &&& n == text(cs, ts[p + 1int])
                &&& kind_at(ts, p + 2) == Some(TokenKind::LParen)
                &&& exists|m: nat|
                    p + 3 < m && m + 1 < q && params_d(ts, cs, p + 3, m, ps) && #[trigger] kind_at(ts, m)
                        == Some(TokenKind::LBrace) && block_d(ts, cs, m + 1, q, body)
            },
            _ => false,
        }
    }
}

/// `stmt (';' stmt)*`, with at least one `stmt`.
pub open spec fn stmts_d(ts: Seq<Token>, cs: Seq<char>, p: nat, q: nat, ss: Seq<Ast>) -> bool
    decreases q - p, 6int,
{
    &&& p < q
    &&& q <= ts.len()
    &&& ss.len() >= 1
    &&& if ss.len() == 1 {
        stmt_d(ts, cs, p, q, ss[0])
    } else {
        exists|m: nat|
            p < m && m + 1 < q && stmts_d(ts, cs, p, m, ss.drop_last()) && #[trigger] kind_at(ts, m)
                == Some(TokenKind::Semi) && stmt_d(ts, cs, m + 1, q, ss.last())
    }
}

/// `block := [stmt (';' stmt)* [';']] '}'`
pub open spec fn block_d(ts: Seq<Token>, cs: Seq<char>, p: nat, q: nat, body: Seq<Ast>) -> bool
    decreases q - p, 7int,
{
    &&& p < q
    &&& kind_at(ts, (q - 1) as nat) == Some(TokenKind::RBrace)
    &&& {
        ||| body.len() == 0 && q == p + 1
        ||| body.len() > 0 && stmts_d(ts, cs, p, (q - 1) as nat, body)
        ||| body.len() > 0 && p + 1 < q - 1 && kind_at(ts, (q - 2) as nat) == Some(TokenKind::Semi)
            && stmts_d(ts, cs, p, (q - 2) as nat, body)
    }
}

/// `program := [stmt (';' stmt)* [';']]`, over all the tokens `ts`.
pub open spec fn program_d(ts: Seq<Token>, cs: Seq<char>, ss: Seq<Ast>) -> bool {
    ||| ss.len() == 0 && ts.len() == 0
    ||| ss.len() > 0 && stmts_d(ts, cs, 0, ts.len(), ss)
    ||| ss.len() > 0 && ts.len() >= 2 && kind_at(ts, (ts.len() - 1) as nat) == Some(TokenKind::Semi)
        && stmts_d(ts, cs, 0, (ts.len() - 1) as nat, ss)
}


proof fn lemma_atom(ts: Seq<Token>, cs: Seq<char>, p: nat)
    ensures
        parse_atom(ts, cs, p) matches Ok((a, q)) ==> atom_d(ts, cs, p, q, a),
    decreases ts.len() - p, 1int,
{
    if p < ts.len() {
        match ts[p as int].kind {
            TokenKind::Ident => {
                if kind_at(ts, p + 1) == Some(TokenKind::LParen) {
                    lemma_args(ts, cs, p + 2, p + 2, Seq::empty());
                }
            },
            TokenKind::LParen => {
                lemma_expr(ts, cs, p + 1);
                if let Ok((e, q)) = parse_expr(ts, cs, p + 1) {
                    if kind_at(ts, q) == Some(TokenKind::RParen) {
                        assert(((q + 1) - 1) as nat == q);
                    }
                }
            },
            _ => {},
        }
    }
}

proof fn lemma_args(ts: Seq<Token>, cs: Seq<char>, p0: nat, p: nat, acc: Seq<Ast>)
    requires
        (acc.len() == 0 && p == p0) || (acc.len() > 0 && p0 + 1 < p && list_d(
            ts,
            cs,
            p0,
            (p - 1) as nat,
            acc,
        ) && kind_at(ts, (p - 1) as nat) == Some(TokenKind::Comma)),
    ensures
        parse_args(ts, cs, p, acc) matches Ok((args, q)) ==> args_d(ts, cs, p0, q, args),
    decreases ts.len() - p, 7int,
{
    if acc.len() == 0 && kind_at(ts, p) == Some(TokenKind::RParen) {
    } else {
        lemma_expr(ts, cs, p);
        if let Ok((e, q)) = parse_expr(ts, cs, p) {
            if advances(ts, p, q) {
                let acc1 = acc.push(e);
                assert(acc1.drop_last() =~= acc);
                assert(acc1.last() == e);
                assert(expr_d(ts, cs, p, q, e));
                if acc.len() > 0 {
                    let m = (p - 1) as nat;
                    assert(list_d(ts, cs, p0, m, acc1.drop_last()));
                    assert(m + 1 == p);
                    assert(p0 < m && m + 1 < q && kind_at(ts, m) == Some(TokenKind::Comma));
                    assert(exists|m: nat| p0 < m && m + 1 < q && list_d(ts, cs, p0, m, acc1.drop_last()) && #[trigger] kind_at(ts, m) == Some(TokenKind::Comma) && expr_d(ts, cs, m + 1, q, acc1.last()));
                } else {
                    assert(acc1[0] == e);
                }
                assert(list_d(ts, cs, p0, q, acc1));
                if kind_at(ts, q) == Some(TokenKind::Comma) {
                    lemma_args(ts, cs, p0, q + 1, acc1);
                } else if kind_at(ts, q) == Some(TokenKind::RParen) {
                    assert(((q + 1) - 1) as nat == q);
                }
            }
        }
    }
}

proof fn lemma_term(ts: Seq<Token>, cs: Seq<char>, p: nat)
    ensures
        parse_term(ts, cs, p) matches Ok((a, q)) ==> term_d(ts, cs, p, q, a),
    decreases ts.len() - p, 3int,
{
    lemma_atom(ts, cs, p);
    if let Ok((a, q)) = parse_atom(ts, cs, p) {
        if advances(ts, p, q) {
            lemma_term_rest(ts, cs, p, q, a);
        }
    }
}

proof fn lemma_term_rest(ts: Seq<Token>, cs: Seq<char>, p0: nat, p: nat, acc: Ast)
    requires
        term_d(ts, cs, p0, p, acc),
        p <= ts.len(),
    ensures
        parse_term_rest(ts, cs, p, acc) matches Ok((a, q)) ==> term_d(ts, cs, p0, q, a),
    decreases ts.len() - p, 2int,
{
    if kind_at(ts, p) == Some(TokenKind::Star) {
        lemma_atom(ts, cs, p + 1);
        if let Ok((b, q)) = parse_atom(ts, cs, p + 1) {
            if advances(ts, p, q) {
                let t = Ast::Mul(Box::new(acc), Box::new(b));
                assert(atom_d(ts, cs, p + 1, q, b));
                assert(p + 1 < q);
                assert(term_d(ts, cs, p0, p, acc));
                assert(p0 < p);
                assert(exists|m: nat| p0 < m && m + 1 < q && term_d(ts, cs, p0, m, acc) && #[trigger] kind_at(ts, m) == Some(TokenKind::Star) && atom_d(ts, cs, m + 1, q, b));
                assert(term_d(ts, cs, p0, q, t));
                lemma_term_rest(ts, cs, p0, q, t);
            }
        }
    }
}

proof fn lemma_sum(ts: Seq<Token>, cs: Seq<char>, p: nat)
    ensures
        parse_sum(ts, cs, p) matches Ok((a, q)) ==> sum_d(ts, cs, p, q, a),
    decreases ts.len() - p, 5int,
{
    lemma_term(ts, cs, p);
    if let Ok((a, q)) = parse_term(ts, cs, p) {
        if advances(ts, p, q) {
            lemma_sum_rest(ts, cs, p, q, a);
        }
    }
}

proof fn lemma_sum_rest(ts: Seq<Token>, cs: Seq<char>, p0: nat, p: nat, acc: Ast)
    requires
        sum_d(ts, cs, p0, p, acc),
        p <= ts.len(),
    ensures
        parse_sum_rest(ts, cs, p, acc) matches Ok((a, q)) ==> sum_d(ts, cs, p0, q, a),
    decreases ts.len() - p, 4int,
{
    if kind_at(ts, p) == Some(TokenKind::Plus) {
        lemma_term(ts, cs, p + 1);
        if let Ok((b, q)) = parse_term(ts, cs, p + 1) {
            if advances(ts, p, q) {
                let t = Ast::Add(Box::new(acc), Box::new(b));
                assert(term_d(ts, cs, p + 1, q, b));
                assert(p + 1 < q);
                assert(sum_d(ts, cs, p0, p, acc));
                assert(p0 < p);
                assert(exists|m: nat| p0 < m && m + 1 < q && sum_d(ts, cs, p0, m, acc) && #[trigger] kind_at(ts, m) == Some(TokenKind::Plus) && term_d(ts, cs, m + 1, q, b));
                assert(sum_d(ts, cs, p0, q, t));
                lemma_sum_rest(ts, cs, p0, q, t);
            }
        }
    }
}

proof fn lemma_expr(ts: Seq<Token>, cs: Seq<char>, p: nat)
    ensures
        parse_expr(ts, cs, p) matches Ok((a, q)) ==> expr_d(ts, cs, p, q, a),
    decreases ts.len() - p, 6int,
{
    lemma_sum(ts, cs, p);
    if let Ok((a, q)) = parse_sum(ts, cs, p) {
        if advances(ts, p, q) {
            if kind_at(ts, q) == Some(TokenKind::Lt) || kind_at(ts, q) == Some(TokenKind::Gt) {
                lemma_sum(ts, cs, q + 1);
                assert(sum_d(ts, cs, p, q, a));
                if let Ok((b, r)) = parse_sum(ts, cs, q + 1) {
                    assert(sum_d(ts, cs, q + 1, r, b));
                    assert(q + 1 < r);
                    if kind_at(ts, q) == Some(TokenKind::Lt) {
                        assert(exists|m: nat| p < m && m + 1 < r && sum_d(ts, cs, p, m, a) && #[trigger] kind_at(ts, m) == Some(TokenKind::Lt) && sum_d(ts, cs, m + 1, r, b));
                    } else {
                        assert(exists|m: nat| p < m && m + 1 < r && sum_d(ts, cs, p, m, a) && #[trigger] kind_at(ts, m) == Some(TokenKind::Gt) && sum_d(ts, cs, m + 1, r, b));
                    }
                }
            }
        }
    }
}

proof fn lemma_params(ts: Seq<Token>, cs: Seq<char>, p0: nat, p: nat, acc: Seq<Seq<char>>)
    requires
        p == p0 + 2 * acc.len(),
        names_d(ts, cs, p0, acc),
        acc.len() > 0 ==> kind_at(ts, (p - 1) as nat) == Some(TokenKind::Comma),
    ensures
        parse_params(ts, cs, p, acc) matches Ok((ps, q)) ==> params_d(ts, cs, p0, q, ps),
    decreases ts.len() - p,
{
    if acc.len() == 0 && kind_at(ts, p) == Some(TokenKind::RParen) {
    } else if kind_at(ts, p) == Some(TokenKind::Ident) {
        let name = text(cs, ts[p as int]);
        let acc1 = acc.push(name);
        assert(acc1.drop_last() =~= acc);
        assert(names_d(ts, cs, p0, acc1));
        if kind_at(ts, p + 1) == Some(TokenKind::Comma) {
            lemma_params(ts, cs, p0, p + 2, acc1);
        } else if kind_at(ts, p + 1) == Some(TokenKind::RParen) {
            assert(((p + 2) - 1) as nat == p + 1);
        }
    }
}

proof fn lemma_stmt(ts: Seq<Token>, cs: Seq<char>, p: nat)
    ensures
        parse_stmt(ts, cs, p) matches Ok((a, q)) ==> stmt_d(ts, cs, p, q, a),
    decreases ts.len() - p, 8int,
{
    match kind_at(ts, p) {
        Some(TokenKind::Let) => {
            if kind_at(ts, p + 1) == Some(TokenKind::Ident) && kind_at(ts, p + 2) == Some(TokenKind::Eq) {
                lemma_expr(ts, cs, p + 3);
            }
        },
        Some(TokenKind::Println) => {
            if kind_at(ts, p + 1) == Some(TokenKind::LParen) {
                lemma_expr(ts, cs, p + 2);
                if let Ok((e, q)) = parse_expr(ts, cs, p + 2) {
                    assert(((q + 1) - 1) as nat == q);
                }
            }
        },
        Some(TokenKind::Return) => {
            lemma_expr(ts, cs, p + 1);
            if let Ok((e, q)) = parse_expr(ts, cs, p + 1) {
                assert(seq![e][0] == e);
            }
        },
        Some(TokenKind::Fun) => {
            if kind_at(ts, p + 1) == Some(TokenKind::Ident) && kind_at(ts, p + 2) == Some(
                TokenKind::LParen,
            ) {
                lemma_params(ts, cs, p + 3, p + 3, Seq::empty());
                if let Ok((params, q)) = parse_params(ts, cs, p + 3, Seq::empty()) {
                    if advances(ts, p, q) && kind_at(ts, q) == Some(TokenKind::LBrace) {
                        lemma_block(ts, cs, q + 1, q + 1, Seq::empty());
                        if let Ok((body, r)) = parse_block(ts, cs, q + 1, Seq::empty()) {
                            assert(params_d(ts, cs, p + 3, q, params));
                            assert(block_d(ts, cs, q + 1, r, body));
                            assert(p + 3 < q && q + 1 < r);
                            assert(exists|m: nat| p + 3 < m && m + 1 < r && params_d(ts, cs, p + 3, m, params) && #[trigger] kind_at(ts, m) == Some(TokenKind::LBrace) && block_d(ts, cs, m + 1, r, body));
                        }
                    }
                }
            }
        },
        _ => {
            lemma_expr(ts, cs, p);
        },
    }
}

proof fn lemma_block(ts: Seq<Token>, cs: Seq<char>, p0: nat, p: nat, acc: Seq<Ast>)
    requires
        (acc.len() == 0 && p == p0) || (acc.len() > 0 && p0 + 1 < p && stmts_d(
            ts,
            cs,
            p0,
            (p - 1) as nat,
            acc,
        ) && kind_at(ts, (p - 1) as nat) == Some(TokenKind::Semi)),
    ensures
        parse_block(ts, cs, p, acc) matches Ok((body, q)) ==> block_d(ts, cs, p0, q, body),
    decreases ts.len() - p, 9int,
{
    if kind_at(ts, p) == Some(TokenKind::RBrace) {
        assert(((p + 1) - 1) as nat == p);
        if acc.len() > 0 {
            assert(((p + 1) - 2) as nat == (p - 1) as nat);
        }
    } else {
        lemma_stmt(ts, cs, p);
        if let Ok((s, q)) = parse_stmt(ts, cs, p) {
            if advances(ts, p, q) {
                let acc1 = acc.push(s);
                assert(acc1.drop_last() =~= acc);
                assert(acc1.last() == s);
                assert(stmt_d(ts, cs, p, q, s));
                if acc.len() > 0 {
                    let m = (p - 1) as nat;
                    assert(stmts_d(ts, cs, p0, m, acc1.drop_last()));
                    assert(m + 1 == p);
                    assert(p0 < m && m + 1 < q && kind_at(ts, m) == Some(TokenKind::Semi));
                    assert(exists|m: nat| p0 < m && m + 1 < q && stmts_d(ts, cs, p0, m, acc1.drop_last()) && #[trigger] kind_at(ts, m) == Some(TokenKind::Semi) && stmt_d(ts, cs, m + 1, q, acc1.last()));
                } else {
                    assert(acc1[0] == s);
                }
                assert(stmts_d(ts, cs, p0, q, acc1));
                if kind_at(ts, q) == Some(TokenKind::Semi) {
                    lemma_block(ts, cs, p0, q + 1, acc1);
                } else if kind_at(ts, q) == Some(TokenKind::RBrace) {
                    assert(((q + 1) - 1) as nat == q);
                }
            }
        }
    }
}

proof fn lemma_program(ts: Seq<Token>, cs: Seq<char>, p: nat, acc: Seq<Ast>)
    requires
        (acc.len() == 0 && p == 0) || (acc.len() > 0 && 1 < p && stmts_d(
            ts,
            cs,
            0,
            (p - 1) as nat,
            acc,
        ) && kind_at(ts, (p - 1) as nat) == Some(TokenKind::Semi)),
    ensures
        parse_program(ts, cs, p, acc) matches Ok(ss) ==> program_d(ts, cs, ss),
    decreases ts.len() - p,
{
    if p >= ts.len() {
    } else {
        lemma_stmt(ts, cs, p);
        if let Ok((s, q)) = parse_stmt(ts, cs, p) {
            if advances(ts, p, q) {
                let acc1 = acc.push(s);
                assert(acc1.drop_last() =~= acc);
                assert(acc1.last() == s);
                assert(stmt_d(ts, cs, p, q, s));
                if acc.len() > 0 {
                    let m = (p - 1) as nat;
                    assert(stmts_d(ts, cs, 0, m, acc1.drop_last()));
                    assert(m + 1 == p);
                    assert(0 < m && m + 1 < q && kind_at(ts, m) == Some(TokenKind::Semi));
                    assert(exists|m: nat| 0 < m && m + 1 < q && stmts_d(ts, cs, 0, m, acc1.drop_last()) && #[trigger] kind_at(ts, m) == Some(TokenKind::Semi) && stmt_d(ts, cs, m + 1, q, acc1.last()));
                } else {
                    assert(acc1[0] == s);
                }
                assert(stmts_d(ts, cs, 0, q, acc1));
                if q < ts.len() && kind_at(ts, q) == Some(TokenKind::Semi) {
                    lemma_program(ts, cs, q + 1, acc1);
                }
            }
        }
    }
}

/// Every program the parser accepts is derived by the grammar: when the
/// text `cs` parses to the statements `ss`, its tokens derive `ss`.
pub proof fn law_parse_derives(cs: Seq<char>)
    ensures
        program(cs) matches Ok(ss) ==> lex(cs) matches Ok(ts) && program_d(ts, cs, ss),
{
    if let Ok(ts) = lex(cs) {
        lemma_program(ts, cs, 0, Seq::empty());
    }
}


/// The tokens an expression can start with.
pub open spec fn starts_expr(k: Option<TokenKind>) -> bool {
    match k {
        Some(TokenKind::Int(_)) | Some(TokenKind::True) | Some(TokenKind::False) | Some(
            TokenKind::Ident,
        ) | Some(TokenKind::LParen) => true,
        _ => false,
    }
}

/// The tokens a statement can start with.
pub open spec fn starts_stmt(k: Option<TokenKind>) -> bool {
    ||| starts_expr(k)
    ||| k == Some(TokenKind::Let)
    ||| k == Some(TokenKind::Println)
    ||| k == Some(TokenKind::Return)
    ||| k == Some(TokenKind::Fun)
}

/// A token that cannot continue an expression that ends before it.
pub open spec fn ends_expr(k: Option<TokenKind>) -> bool {
    k != Some(TokenKind::LParen) && k != Some(TokenKind::Star) && k != Some(TokenKind::Plus) && k
        != Some(TokenKind::Lt) && k != Some(TokenKind::Gt)
}

proof fn lemma_first(ts: Seq<Token>, cs: Seq<char>, p: nat, q: nat, a: Ast)
    ensures
        atom_d(ts, cs, p, q, a) ==> starts_expr(kind_at(ts, p)),
        term_d(ts, cs, p, q, a) ==> starts_expr(kind_at(ts, p)),
        sum_d(ts, cs, p, q, a) ==> starts_expr(kind_at(ts, p)),
        expr_d(ts, cs, p, q, a) ==> starts_expr(kind_at(ts, p)),
        stmt_d(ts, cs, p, q, a) ==> starts_stmt(kind_at(ts, p)),
    decreases q - p,
{
    if p < q {
        if term_d(ts, cs, p, q, a) && !atom_d(ts, cs, p, q, a) {
            let m = choose|m: nat|
                p < m && m + 1 < q && term_d(ts, cs, p, m, *a->Mul_0) && #[trigger] kind_at(ts, m)
                    == Some(TokenKind::Star) && atom_d(ts, cs, m + 1, q, *a->Mul_1);
            lemma_first(ts, cs, p, m, *a->Mul_0);
        }
        if sum_d(ts, cs, p, q, a) && !term_d(ts, cs, p, q, a) {
            let m = choose|m: nat|
                p < m && m + 1 < q && sum_d(ts, cs, p, m, *a->Add_0) && #[trigger] kind_at(ts, m)
                    == Some(TokenKind::Plus) && term_d(ts, cs, m + 1, q, *a->Add_1);
            lemma_first(ts, cs, p, m, *a->Add_0);
        }
        if expr_d(ts, cs, p, q, a) && !sum_d(ts, cs, p, q, a) {
            if a is LessThan {
                let m = choose|m: nat|
                    p < m && m + 1 < q && sum_d(ts, cs, p, m, *a->LessThan_0) && #[trigger] kind_at(
                        ts,
                        m,
                    ) == Some(TokenKind::Lt) && sum_d(ts, cs, m + 1, q, *a->LessThan_1);
                lemma_first(ts, cs, p, m, *a->LessThan_0);
            } else {
                let m = choose|m: nat|
                    p < m && m + 1 < q && sum_d(ts, cs, p, m, *a->GreaterThan_0) && #[trigger] kind_at(
                        ts,
                        m,
                    ) == Some(TokenKind::Gt) && sum_d(ts, cs, m + 1, q, *a->GreaterThan_1);
                lemma_first(ts, cs, p, m, *a->GreaterThan_0);
            }
        }
    }
}

proof fn lemma_list_first(ts: Seq<Token>, cs: Seq<char>, p: nat, q: nat, args: Seq<Ast>)
    requires
        list_d(ts, cs, p, q, args),
    ensures
        starts_expr(kind_at(ts, p)),
    decreases args.len(),
{
    if args.len() == 1 {
        lemma_first(ts, cs, p, q, args[0]);
    } else {
        let m = choose|m: nat|
            p < m && m + 1 < q && list_d(ts, cs, p, m, args.drop_last()) && #[trigger] kind_at(ts, m)
                == Some(TokenKind::Comma) && expr_d(ts, cs, m + 1, q, args.last());
        lemma_list_first(ts, cs, p, m, args.drop_last());
    }
}

proof fn lemma_stmts_first(ts: Seq<Token>, cs: Seq<char>, p: nat, q: nat, ss: Seq<Ast>)
    requires
        stmts_d(ts, cs, p, q, ss),
    ensures
        starts_stmt(kind_at(ts, p)),
    decreases ss.len(),
{
    if ss.len() == 1 {
        lemma_first(ts, cs, p, q, ss[0]);
    } else {
        let m = choose|m: nat|
            p < m && m + 1 < q && stmts_d(ts, cs, p, m, ss.drop_last()) && #[trigger] kind_at(ts, m)
                == Some(TokenKind::Semi) && stmt_d(ts, cs, m + 1, q, ss.last());
        lemma_stmts_first(ts, cs, p, m, ss.drop_last());
    }
}

/// A list of two or more expressions, read from the left.
proof fn lemma_list_left(ts: Seq<Token>, cs: Seq<char>, p: nat, q: nat, args: Seq<Ast>) -> (m: nat)
    requires
        list_d(ts, cs, p, q, args),
        args.len() >= 2,
    ensures
        p < m && m + 1 < q,
        expr_d(ts, cs, p, m, args[0]),
        kind_at(ts, m) == Some(TokenKind::Comma),
        list_d(ts, cs, m + 1, q, args.drop_first()),
    decreases args.len(),
{
    let k = choose|k: nat|
        p < k && k + 1 < q && list_d(ts, cs, p, k, args.drop_last()) && #[trigger] kind_at(ts, k)
            == Some(TokenKind::Comma) && expr_d(ts, cs, k + 1, q, args.last());
    let init = args.drop_last();
    if args.len() == 2 {
        assert(init[0] == args[0]);
        let rest = args.drop_first();
        assert(rest.len() == 1 && rest[0] == args.last());
        k
    } else {
        let m = lemma_list_left(ts, cs, p, k, init);
        assert(init[0] == args[0]);
        let rest = args.drop_first();
        assert(rest.drop_last() =~= init.drop_first());
        assert(rest.last() == args.last());
        assert(list_d(ts, cs, m + 1, k, rest.drop_last()));
        assert(exists|k2: nat|
            m + 1 < k2 && k2 + 1 < q && list_d(ts, cs, m + 1, k2, rest.drop_last())
                && #[trigger] kind_at(ts, k2) == Some(TokenKind::Comma) && expr_d(
                ts,
                cs,
                k2 + 1,
                q,
                rest.last(),
            ));
        m
    }
}

/// Statements, two or more, read from the left.
proof fn lemma_stmts_left(ts: Seq<Token>, cs: Seq<char>, p: nat, q: nat, ss: Seq<Ast>) -> (m: nat)
    requires
        stmts_d(ts, cs, p, q, ss),
        ss.len() >= 2,
    ensures
        p < m && m + 1 < q,
        stmt_d(ts, cs, p, m, ss[0]),
        kind_at(ts, m) == Some(TokenKind::Semi),
        stmts_d(ts, cs, m + 1, q, ss.drop_first()),
    decreases ss.len(),
{
    let k = choose|k: nat|
        p < k && k + 1 < q && stmts_d(ts, cs, p, k, ss.drop_last()) && #[trigger] kind_at(ts, k)
            == Some(TokenKind::Semi) && stmt_d(ts, cs, k + 1, q, ss.last());
    let init = ss.drop_last();
    if ss.len() == 2 {
        assert(init[0] == ss[0]);
        let rest = ss.drop_first();
        assert(rest.len() == 1 && rest[0] == ss.last());
        k
    } else {
        let m = lemma_stmts_left(ts, cs, p, k, init);
        assert(init[0] == ss[0]);
        let rest = ss.drop_first();
        assert(rest.drop_last() =~= init.drop_first());
        assert(rest.last() == ss.last());
        assert(stmts_d(ts, cs, m + 1, k, rest.drop_last()));
        assert(exists|k2: nat|
            m + 1 < k2 && k2 + 1 < q && stmts_d(ts, cs, m + 1, k2, rest.drop_last())
                && #[trigger] kind_at(ts, k2) == Some(TokenKind::Semi) && stmt_d(
                ts,
                cs,
                k2 + 1,
                q,
                rest.last(),
            ));
        m
    }
}


proof fn complete_atom(ts: Seq<Token>, cs: Seq<char>, p: nat, q: nat, a: Ast)
    requires
        atom_d(ts, cs, p, q, a),
        kind_at(ts, q) != Some(TokenKind::LParen),
    ensures
        parse_atom(ts, cs, p) == Ok::<(Ast, nat), nat>((a, q)),
    decreases q - p, 0int,
{
    match ts[p as int].kind {
        TokenKind::Ident => {
            if a is FunctionCall {
                complete_args(ts, cs, p + 2, q, a->FunctionCall_1);
            }
        },
        TokenKind::LParen => {
            let e = (q - 1) as nat;
            complete_expr(ts, cs, p + 1, e, a);
        },
        _ => {},
    }
}

proof fn complete_args(ts: Seq<Token>, cs: Seq<char>, p: nat, q: nat, args: Seq<Ast>)
    requires
        args_d(ts, cs, p, q, args),
    ensures
        parse_args(ts, cs, p, Seq::empty()) == Ok::<(Seq<Ast>, nat), nat>((args, q)),
    decreases q - p, 7int,
{
    if args.len() == 0 {
        assert(Seq::<Ast>::empty() =~= args);
    } else {
        let e = (q - 1) as nat;
        lemma_list_first(ts, cs, p, e, args);
        complete_args_rest(ts, cs, p, e, Seq::empty(), args);
        assert(Seq::<Ast>::empty() + args =~= args);
    }
}

proof fn complete_args_rest(
    ts: Seq<Token>,
    cs: Seq<char>,
    p: nat,
    e: nat,
    acc: Seq<Ast>,
    rest: Seq<Ast>,
)
    requires
        list_d(ts, cs, p, e, rest),
        kind_at(ts, e) == Some(TokenKind::RParen),
        acc.len() == 0 ==> starts_expr(kind_at(ts, p)),
    ensures
        parse_args(ts, cs, p, acc) == Ok::<(Seq<Ast>, nat), nat>((acc + rest, e + 1)),
    decreases e - p, 6int,
{
    if rest.len() == 1 {
        complete_expr(ts, cs, p, e, rest[0]);
        assert(acc.push(rest[0]) =~= acc + rest);
    } else {
        let m = lemma_list_left(ts, cs, p, e, rest);
        complete_expr(ts, cs, p, m, rest[0]);
        complete_args_rest(ts, cs, m + 1, e, acc.push(rest[0]), rest.drop_first());
        assert(acc.push(rest[0]) + rest.drop_first() =~= acc + rest);
    }
}

proof fn complete_term_pre(ts: Seq<Token>, cs: Seq<char>, p: nat, q: nat, a: Ast)
    requires
        term_d(ts, cs, p, q, a),
        kind_at(ts, q) != Some(TokenKind::LParen),
    ensures
        parse_atom(ts, cs, p) matches Ok((a0, q0)) && advances(ts, p, q0) && parse_term_rest(
            ts,
            cs,
            q0,
            a0,
        ) == parse_term_rest(ts, cs, q, a),
    decreases q - p, 1int,
{
    if atom_d(ts, cs, p, q, a) {
        complete_atom(ts, cs, p, q, a);
    } else {
        let l = *a->Mul_0;
        let r = *a->Mul_1;
        let m = choose|m: nat|
            p < m && m + 1 < q && term_d(ts, cs, p, m, l) && #[trigger] kind_at(ts, m) == Some(
                TokenKind::Star,
            ) && atom_d(ts, cs, m + 1, q, r);
        complete_term_pre(ts, cs, p, m, l);
        complete_atom(ts, cs, m + 1, q, r);
        assert(a == Ast::Mul(Box::new(l), Box::new(r)));
    }
}

proof fn complete_term(ts: Seq<Token>, cs: Seq<char>, p: nat, q: nat, a: Ast)
    requires
        term_d(ts, cs, p, q, a),
        kind_at(ts, q) != Some(TokenKind::LParen),
        kind_at(ts, q) != Some(TokenKind::Star),
    ensures
        parse_term(ts, cs, p) == Ok::<(Ast, nat), nat>((a, q)),
    decreases q - p, 2int,
{
    complete_term_pre(ts, cs, p, q, a);
}

proof fn complete_sum_pre(ts: Seq<Token>, cs: Seq<char>, p: nat, q: nat, a: Ast)
    requires
        sum_d(ts, cs, p, q, a),
        kind_at(ts, q) != Some(TokenKind::LParen),
        kind_at(ts, q) != Some(TokenKind::Star),
    ensures
        parse_term(ts, cs, p) matches Ok((a0, q0)) && advances(ts, p, q0) && parse_sum_rest(
            ts,
            cs,
            q0,
            a0,
        ) == parse_sum_rest(ts, cs, q, a),
    decreases q - p, 3int,
{
    if term_d(ts, cs, p, q, a) {
        complete_term(ts, cs, p, q, a);
    } else {
        let l = *a->Add_0;
        let r = *a->Add_1;
        let m = choose|m: nat|
            p < m && m + 1 < q && sum_d(ts, cs, p, m, l) && #[trigger] kind_at(ts, m) == Some(
                TokenKind::Plus,
            ) && term_d(ts, cs, m + 1, q, r);
        complete_sum_pre(ts, cs, p, m, l);
        complete_term(ts, cs, m + 1, q, r);
        assert(a == Ast::Add(Box::new(l), Box::new(r)));
    }
}

proof fn complete_sum(ts: Seq<Token>, cs: Seq<char>, p: nat, q: nat, a: Ast)
    requires
        sum_d(ts, cs, p, q, a),
        kind_at(ts, q) != Some(TokenKind::LParen),
        kind_at(ts, q) != Some(TokenKind::Star),
        kind_at(ts, q) != Some(TokenKind::Plus),
    ensures
        parse_sum(ts, cs, p) == Ok::<(Ast, nat), nat>((a, q)),
    decreases q - p, 4int,
{
    complete_sum_pre(ts, cs, p, q, a);
}

proof fn complete_expr(ts: Seq<Token>, cs: Seq<char>, p: nat, q: nat, a: Ast)
    requires
        expr_d(ts, cs, p, q, a),
        ends_expr(kind_at(ts, q)),
    ensures
        parse_expr(ts, cs, p) == Ok::<(Ast, nat), nat>((a, q)),
    decreases q - p, 5int,
{
    if sum_d(ts, cs, p, q, a) {
        complete_sum(ts, cs, p, q, a);
    } else if a is LessThan {
        let l = *a->LessThan_0;
        let r = *a->LessThan_1;
        let m = choose|m: nat|
            p < m && m + 1 < q && sum_d(ts, cs, p, m, l) && #[trigger] kind_at(ts, m) == Some(
                TokenKind::Lt,
            ) && sum_d(ts, cs, m + 1, q, r);
        complete_sum(ts, cs, p, m, l);
        complete_sum(ts, cs, m + 1, q, r);
        assert(a == Ast::LessThan(Box::new(l), Box::new(r)));
    } else {
        let l = *a->GreaterThan_0;
        let r = *a->GreaterThan_1;
        let m = choose|m: nat|
            p < m && m + 1 < q && sum_d(ts, cs, p, m, l) && #[trigger] kind_at(ts, m) == Some(
                TokenKind::Gt,
            ) && sum_d(ts, cs, m + 1, q, r);
        complete_sum(ts, cs, p, m, l);
        complete_sum(ts, cs, m + 1, q, r);
        assert(a == Ast::GreaterThan(Box::new(l), Box::new(r)));
    }
}

proof fn lemma_names_at(ts: Seq<Token>, cs: Seq<char>, p: nat, ps: Seq<Seq<char>>, j: int)
    requires
        names_d(ts, cs, p, ps),
        0 <= j < ps.len(),
    ensures
        kind_at(ts, (p + 2 * j) as nat) == Some(TokenKind::Ident),
        ps[j] == text(cs, ts[p + 2 * j]),
        j + 1 < ps.len() ==> kind_at(ts, (p + 2 * j + 1) as nat) == Some(TokenKind::Comma),
    decreases ps.len(),
{
    if j + 1 < ps.len() {
        lemma_names_at(ts, cs, p, ps.drop_last(), j);
        assert(ps.drop_last()[j] == ps[j]);
        if j + 2 < ps.len() {
            lemma_names_at(ts, cs, p, ps.drop_last(), j + 1);
        }
    }
}

proof fn complete_params_rest(ts: Seq<Token>, cs: Seq<char>, p0: nat, q: nat, ps: Seq<Seq<char>>, j: nat)
    requires
        params_d(ts, cs, p0, q, ps),
        j < ps.len(),
    ensures
        parse_params(ts, cs, p0 + 2 * j, ps.take(j as int)) == Ok::<(Seq<Seq<char>>, nat), nat>(
            (ps, q),
        ),
    decreases ps.len() - j,
{
    lemma_names_at(ts, cs, p0, ps, j as int);
    let p = p0 + 2 * j;
    assert(ps.take(j as int).push(ps[j as int]) =~= ps.take(j + 1int));
    if j + 1 < ps.len() {
        complete_params_rest(ts, cs, p0, q, ps, j + 1);
    } else {
        assert(ps.take(j + 1int) =~= ps);
        assert(((p + 1) as nat) == (q - 1) as nat);
    }
}

proof fn complete_params(ts: Seq<Token>, cs: Seq<char>, p: nat, q: nat, ps: Seq<Seq<char>>)
    requires
        params_d(ts, cs, p, q, ps),
    ensures
        parse_params(ts, cs, p, Seq::empty()) == Ok::<(Seq<Seq<char>>, nat), nat>((ps, q)),
{
    if ps.len() == 0 {
        assert(Seq::<Seq<char>>::empty() =~= ps);
    } else {
        complete_params_rest(ts, cs, p, q, ps, 0);
        assert(ps.take(0) =~= Seq::<Seq<char>>::empty());
    }
}

proof fn complete_stmt(ts: Seq<Token>, cs: Seq<char>, p: nat, q: nat, a: Ast)
    requires
        stmt_d(ts, cs, p, q, a),
        ends_expr(kind_at(ts, q)),
    ensures
        parse_stmt(ts, cs, p) == Ok::<(Ast, nat), nat>((a, q)),
    decreases q - p, 8int,
{
    if expr_d(ts, cs, p, q, a) {
        lemma_first(ts, cs, p, q, a);
        complete_expr(ts, cs, p, q, a);
    } else {
        match a {
            Ast::Assign(n, e) => {
                complete_expr(ts, cs, p + 3, q, *e);
            },
            Ast::PrintLn(e) => {
                complete_expr(ts, cs, p + 2, (q - 1) as nat, *e);
            },
            Ast::Return(b) => {
                complete_expr(ts, cs, p + 1, q, b[0]);
                assert(seq![b[0]] =~= b);
            },
            Ast::Function(n, ps, body) => {
                let m = choose|m: nat|
                    p + 3 < m && m + 1 < q && params_d(ts, cs, p + 3, m, ps) && #[trigger] kind_at(
                        ts,
                        m,
                    ) == Some(TokenKind::LBrace) && block_d(ts, cs, m + 1, q, body);
                complete_params(ts, cs, p + 3, m, ps);
                complete_block(ts, cs, m + 1, q, body);
            },
            _ => {},
        }
    }
}

proof fn complete_block_rest(
    ts: Seq<Token>,
    cs: Seq<char>,
    p: nat,
    e: nat,
    q: nat,
    acc: Seq<Ast>,
    rest: Seq<Ast>,
)
    requires
        stmts_d(ts, cs, p, e, rest),
        (kind_at(ts, e) == Some(TokenKind::RBrace) && q == e + 1) || (kind_at(ts, e) == Some(
            TokenKind::Semi,
        ) && kind_at(ts, e + 1) == Some(TokenKind::RBrace) && q == e + 2),
    ensures
        parse_block(ts, cs, p, acc) == Ok::<(Seq<Ast>, nat), nat>((acc + rest, q)),
    decreases e - p, 9int,
{
    lemma_stmts_first(ts, cs, p, e, rest);
    if rest.len() == 1 {
        complete_stmt(ts, cs, p, e, rest[0]);
        assert(acc.push(rest[0]) =~= acc + rest);
        if kind_at(ts, e) == Some(TokenKind::Semi) {
            assert(parse_block(ts, cs, e + 1, acc.push(rest[0])) == Ok::<(Seq<Ast>, nat), nat>(
                (acc.push(rest[0]), e + 2),
            ));
        }
    } else {
        let m = lemma_stmts_left(ts, cs, p, e, rest);
        complete_stmt(ts, cs, p, m, rest[0]);
        complete_block_rest(ts, cs, m + 1, e, q, acc.push(rest[0]), rest.drop_first());
        assert(acc.push(rest[0]) + rest.drop_first() =~= acc + rest);
    }
}

proof fn complete_block(ts: Seq<Token>, cs: Seq<char>, p: nat, q: nat, body: Seq<Ast>)
    requires
        block_d(ts, cs, p, q, body),
    ensures
        parse_block(ts, cs, p, Seq::empty()) == Ok::<(Seq<Ast>, nat), nat>((body, q)),
    decreases q - p, 10int,
{
    assert(Seq::<Ast>::empty() + body =~= body);
    if body.len() == 0 {
        assert(Seq::<Ast>::empty() =~= body);
    } else if stmts_d(ts, cs, p, (q - 1) as nat, body) && kind_at(ts, (q - 1) as nat) == Some(
        TokenKind::RBrace,
    ) {
        complete_block_rest(ts, cs, p, (q - 1) as nat, q, Seq::empty(), body);
    } else {
        complete_block_rest(ts, cs, p, (q - 2) as nat, q, Seq::empty(), body);
    }
}

proof fn lemma_program_step(ts: Seq<Token>, cs: Seq<char>, p: nat, q: nat, acc: Seq<Ast>, s: Ast)
    requires
        stmt_d(ts, cs, p, q, s),
        ends_expr(kind_at(ts, q)),
    ensures
        parse_program(ts, cs, p, acc) == (if q >= ts.len() {
            Ok(acc.push(s))
        } else if kind_at(ts, q) == Some(TokenKind::Semi) {
            parse_program(ts, cs, q + 1, acc.push(s))
        } else {
            Err(q)
        }),
{
    complete_stmt(ts, cs, p, q, s);
}

proof fn complete_program_rest(ts: Seq<Token>, cs: Seq<char>, p: nat, e: nat, acc: Seq<Ast>, rest: Seq<Ast>)
    requires
        stmts_d(ts, cs, p, e, rest),
        e == ts.len() || (kind_at(ts, e) == Some(TokenKind::Semi) && e + 1 == ts.len()),
    ensures
        parse_program(ts, cs, p, acc) == Ok::<Seq<Ast>, nat>(acc + rest),
    decreases e - p,
{
    let acc1 = acc.push(rest[0]);
    if rest.len() == 1 {
        lemma_program_step(ts, cs, p, e, acc, rest[0]);
        assert(acc1 =~= acc + rest);
        if e < ts.len() {
            assert(parse_program(ts, cs, e + 1, acc1) == Ok::<Seq<Ast>, nat>(acc1));
        }
    } else {
        let m = lemma_stmts_left(ts, cs, p, e, rest);
        lemma_program_step(ts, cs, p, m, acc, rest[0]);
        complete_program_rest(ts, cs, m + 1, e, acc1, rest.drop_first());
        assert(acc1 + rest.drop_first() =~= acc + rest);
    }
}

/// Every derivation of a program's tokens is the parser's result: when the
/// tokens of `cs` derive the statements `ss`, the text parses to exactly
/// `ss`. With `law_parse_derives`, the text parses to `ss` exactly when its
/// tokens derive `ss`, so no two different statement lists derive from
/// the same tokens.
pub proof fn law_parse_complete(cs: Seq<char>, ts: Seq<Token>, ss: Seq<Ast>)
    requires
        lex(cs) == Ok::<Seq<Token>, nat>(ts),
        program_d(ts, cs, ss),
    ensures
        program(cs) == Ok::<Seq<Ast>, nat>(ss),
{
    assert(Seq::<Ast>::empty() + ss =~= ss);
    if ss.len() == 0 {
    } else if stmts_d(ts, cs, 0, ts.len(), ss) {
        complete_program_rest(ts, cs, 0, ts.len(), Seq::empty(), ss);
    } else {
        complete_program_rest(ts, cs, 0, (ts.len() - 1) as nat, Seq::empty(), ss);
    }
}

/// The grammar is unambiguous on programs: the tokens derive at most one
/// list of statements.
pub proof fn law_parse_unique(cs: Seq<char>, ts: Seq<Token>, s1: Seq<Ast>, s2: Seq<Ast>)
    requires
        lex(cs) == Ok::<Seq<Token>, nat>(ts),
        program_d(ts, cs, s1),
        program_d(ts, cs, s2),
    ensures
        s1 == s2,
{
    law_parse_complete(cs, ts, s1);
    law_parse_complete(cs, ts, s2);
}

} // verus!
