//! A recursive-descent parser for programs, with the spec functions
//! `parse_*` that give its exact results (trees and error positions).
//! The grammar it follows, also stated as derivations in `grammar`:
//!
//! ```text
//! program := [stmt (';' stmt)* [';']]
//! stmt    := 'let' IDENT '=' expr
//!          | 'println' '(' expr ')'
//!          | 'return' expr
//!          | 'fun' IDENT '(' [IDENT (',' IDENT)*] ')' '{' [stmt (';' stmt)*] [';'] '}'
//!          | expr
//! expr    := sum [('<' | '>') sum]
//! sum     := term ('+' term)*
//! term    := atom ('*' atom)*
//! atom    := INT | 'true' | 'false' | IDENT | IDENT '(' [expr (',' expr)*] ')' | '(' expr ')'
//! ```

use crate::ast::AstNode;
use crate::lexer::{Token, TokenKind, tokens_wf, lex};
use vstd::prelude::*;

verus! {

/// The content of a syntax tree node.
pub enum Ast {
    Number(u64),
    Boolean(bool),
    Add(Box<Ast>, Box<Ast>),
    Mul(Box<Ast>, Box<Ast>),
    LessThan(Box<Ast>, Box<Ast>),
    GreaterThan(Box<Ast>, Box<Ast>),
    PrintLn(Box<Ast>),
    Assign(Seq<char>, Box<Ast>),
    Id(Seq<char>),
    Function(Seq<char>, Seq<Seq<char>>, Seq<Ast>),
    FunctionCall(Seq<char>, Seq<Ast>),
    Return(Seq<Ast>),
}

/// The content of a node.
pub open spec fn ast_view(n: AstNode) -> Ast
    decreases n,
{
    match n {
        AstNode::Number { value } => Ast::Number(value),
        AstNode::Boolean { value } => Ast::Boolean(value),
        AstNode::Add { lhs, rhs } => Ast::Add(Box::new(ast_view(*lhs)), Box::new(ast_view(*rhs))),
        AstNode::Mul { lhs, rhs } => Ast::Mul(Box::new(ast_view(*lhs)), Box::new(ast_view(*rhs))),
        AstNode::LessThan { lhs, rhs } => Ast::LessThan(
            Box::new(ast_view(*lhs)),
            Box::new(ast_view(*rhs)),
        ),
        AstNode::GreaterThan { lhs, rhs } => Ast::GreaterThan(
            Box::new(ast_view(*lhs)),
            Box::new(ast_view(*rhs)),
        ),
        AstNode::PrintLn { rhs } => Ast::PrintLn(Box::new(ast_view(*rhs))),
        AstNode::Assign { id, node } => Ast::Assign(id@, Box::new(ast_view(*node))),
        AstNode::Id { name } => Ast::Id(name@),
        AstNode::Function { id, params, block } => Ast::Function(
            id@,
            params@.map_values(|p: String| p@),
            ast_views(block@),
        ),
        AstNode::FunctionCall { id, args } => Ast::FunctionCall(id@, ast_views(args@)),
        AstNode::Return { block } => Ast::Return(ast_views(block@)),
    }
}

/// The content of a sequence of nodes.
pub open spec fn ast_views(s: Seq<AstNode>) -> Seq<Ast>
    decreases s,
{
    if s.len() == 0 {
        Seq::empty()
    } else {
        ast_views(s.drop_last()).push(ast_view(s.last()))
    }
}

pub proof fn lemma_ast_views_push(s: Seq<AstNode>, n: AstNode)
    ensures
        ast_views(s.push(n)) == ast_views(s).push(ast_view(n)),
{
    assert(s.push(n).drop_last() =~= s);
}

/// The kind of the token at `p`, if there is one.
pub open spec fn kind_at(ts: Seq<Token>, p: nat) -> Option<TokenKind> {
    if p < ts.len() {
        Some(ts[p as int].kind)
    } else {
        None
    }
}

/// Whether a parse that started at `p` and stopped at `q` consumed tokens.
pub open spec fn advances(ts: Seq<Token>, p: nat, q: nat) -> bool {
    p < q <= ts.len()
}

/// The characters a token was read from.
pub open spec fn text(cs: Seq<char>, t: Token) -> Seq<char> {
    cs.subrange(t.start as int, t.end as int)
}

/// `atom`, at token `p`: the node and the position after it, or the
/// position of the first token that does not fit.
pub open spec fn parse_atom(ts: Seq<Token>, cs: Seq<char>, p: nat) -> Result<(Ast, nat), nat>
    decreases ts.len() - p, 1int,
{
    if p >= ts.len() {
        Err(p)
    } else {
        match ts[p as int].kind {
            TokenKind::Int(v) => Ok((Ast::Number(v), p + 1)),
            TokenKind::True => Ok((Ast::Boolean(true), p + 1)),
            TokenKind::False => Ok((Ast::Boolean(false), p + 1)),
            TokenKind::Ident => {
                let name = text(cs, ts[p as int]);
                if kind_at(ts, p + 1) == Some(TokenKind::LParen) {
                    match parse_args(ts, cs, p + 2, Seq::empty()) {
                        Ok((args, q)) => Ok((Ast::FunctionCall(name, args), q)),
                        Err(e) => Err(e),
                    }
                } else {
                    Ok((Ast::Id(name), p + 1))
                }
            },
            TokenKind::LParen => match parse_expr(ts, cs, p + 1) {
                Ok((e, q)) => if kind_at(ts, q) == Some(TokenKind::RParen) {
                    Ok((e, q + 1))
                } else {
                    Err(q)
                },
                Err(e) => Err(e),
            },
            _ => Err(p),
        }
    }
}

/// Call arguments, at token `p` (after the opening parenthesis), after the
/// arguments `acc`; also consumes the closing parenthesis.
pub open spec fn parse_args(ts: Seq<Token>, cs: Seq<char>, p: nat, acc: Seq<Ast>) -> Result<
    (Seq<Ast>, nat),
    nat,
>
    decreases ts.len() - p, 7int,
{
    if acc.len() == 0 && kind_at(ts, p) == Some(TokenKind::RParen) {
        Ok((acc, p + 1))
    } else {
        match parse_expr(ts, cs, p) {
            Ok((e, q)) => if !advances(ts, p, q) {
                Err(p)
            } else if kind_at(ts, q) == Some(TokenKind::Comma) {
                parse_args(ts, cs, q + 1, acc.push(e))
            } else if kind_at(ts, q) == Some(TokenKind::RParen) {
                Ok((acc.push(e), q + 1))
            } else {
                Err(q)
            },
            Err(e) => Err(e),
        }
    }
}

/// `term`: atoms joined by `*`, grouped to the left.
pub open spec fn parse_term(ts: Seq<Token>, cs: Seq<char>, p: nat) -> Result<(Ast, nat), nat>
    decreases ts.len() - p, 3int,
{
    match parse_atom(ts, cs, p) {
        Ok((a, q)) => if !advances(ts, p, q) {
            Err(p)
        } else {
            parse_term_rest(ts, cs, q, a)
        },
        Err(e) => Err(e),
    }
}

/// The rest of a `term` after the product `acc`, at token `p`.
pub open spec fn parse_term_rest(ts: Seq<Token>, cs: Seq<char>, p: nat, acc: Ast) -> Result<
    (Ast, nat),
    nat,
>
    decreases ts.len() - p, 2int,
{
    if kind_at(ts, p) == Some(TokenKind::Star) {
        match parse_atom(ts, cs, p + 1) {
            Ok((b, q)) => if !advances(ts, p, q) {
                Err(p)
            } else {
                parse_term_rest(ts, cs, q, Ast::Mul(Box::new(acc), Box::new(b)))
            },
            Err(e) => Err(e),
        }
    } else {
        Ok((acc, p))
    }
}

/// `sum`: terms joined by `+`, grouped to the left.
pub open spec fn parse_sum(ts: Seq<Token>, cs: Seq<char>, p: nat) -> Result<(Ast, nat), nat>
    decreases ts.len() - p, 5int,
{
    match parse_term(ts, cs, p) {
        Ok((a, q)) => if !advances(ts, p, q) {
            Err(p)
        } else {
            parse_sum_rest(ts, cs, q, a)
        },
        Err(e) => Err(e),
    }
}

/// The rest of a `sum` after the sum `acc`, at token `p`.
pub open spec fn parse_sum_rest(ts: Seq<Token>, cs: Seq<char>, p: nat, acc: Ast) -> Result<
    (Ast, nat),
    nat,
>
    decreases ts.len() - p, 4int,
{
    if kind_at(ts, p) == Some(TokenKind::Plus) {
        match parse_term(ts, cs, p + 1) {
            Ok((b, q)) => if !advances(ts, p, q) {
                Err(p)
            } else {
                parse_sum_rest(ts, cs, q, Ast::Add(Box::new(acc), Box::new(b)))
            },
            Err(e) => Err(e),
        }
    } else {
        Ok((acc, p))
    }
}

/// `expr`: a sum, or two sums compared with `<` or `>`.
pub open spec fn parse_expr(ts: Seq<Token>, cs: Seq<char>, p: nat) -> Result<(Ast, nat), nat>
    decreases ts.len() - p, 6int,
{
    match parse_sum(ts, cs, p) {
        Ok((a, q)) => if !advances(ts, p, q) {
            Err(p)
        } else if kind_at(ts, q) == Some(TokenKind::Lt) {
            match parse_sum(ts, cs, q + 1) {
                Ok((b, r)) => Ok((Ast::LessThan(Box::new(a), Box::new(b)), r)),
                Err(e) => Err(e),
            }
        } else if kind_at(ts, q) == Some(TokenKind::Gt) {
            match parse_sum(ts, cs, q + 1) {
                Ok((b, r)) => Ok((Ast::GreaterThan(Box::new(a), Box::new(b)), r)),
                Err(e) => Err(e),
            }
        } else {
            Ok((a, q))
        },
        Err(e) => Err(e),
    }
}

/// Parameter names, at token `p` (after the opening parenthesis), after
/// the names `acc`; also consumes the closing parenthesis.
pub open spec fn parse_params(ts: Seq<Token>, cs: Seq<char>, p: nat, acc: Seq<Seq<char>>) -> Result<
    (Seq<Seq<char>>, nat),
    nat,
>
    decreases ts.len() - p,
{
    if acc.len() == 0 && kind_at(ts, p) == Some(TokenKind::RParen) {
        Ok((acc, p + 1))
    } else if kind_at(ts, p) == Some(TokenKind::Ident) {
        let name = text(cs, ts[p as int]);
        if kind_at(ts, p + 1) == Some(TokenKind::Comma) {
            parse_params(ts, cs, p + 2, acc.push(name))
        } else if kind_at(ts, p + 1) == Some(TokenKind::RParen) {
            Ok((acc.push(name), p + 2))
        } else {
            Err(p + 1)
        }
    } else {
        Err(p)
    }
}

/// `stmt`, at token `p`.
pub open spec fn parse_stmt(ts: Seq<Token>, cs: Seq<char>, p: nat) -> Result<(Ast, nat), nat>
    decreases ts.len() - p, 8int,
{
    match kind_at(ts, p) {
        Some(TokenKind::Let) => if kind_at(ts, p + 1) != Some(TokenKind::Ident) {
            Err(p + 1)
        } else if kind_at(ts, p + 2) != Some(TokenKind::Eq) {
            Err(p + 2)
        } else {
            match parse_expr(ts, cs, p + 3) {
                Ok((e, q)) => Ok((Ast::Assign(text(cs, ts[p + 1int]), Box::new(e)), q)),
                Err(e) => Err(e),
            }
        },
        Some(TokenKind::Println) => if kind_at(ts, p + 1) != Some(TokenKind::LParen) {
            Err(p + 1)
        } else {
            match parse_expr(ts, cs, p + 2) {
                Ok((e, q)) => if kind_at(ts, q) == Some(TokenKind::RParen) {
                    Ok((Ast::PrintLn(Box::new(e)), q + 1))
                } else {
                    Err(q)
                },
                Err(e) => Err(e),
            }
        },
        Some(TokenKind::Return) => match parse_expr(ts, cs, p + 1) {
            Ok((e, q)) => Ok((Ast::Return(seq![e]), q)),
            Err(e) => Err(e),
        },
        Some(TokenKind::Fun) => if kind_at(ts, p + 1) != Some(TokenKind::Ident) {
            Err(p + 1)
        } else if kind_at(ts, p + 2) != Some(TokenKind::LParen) {
            Err(p + 2)
        } else {
            match parse_params(ts, cs, p + 3, Seq::empty()) {
                Ok((params, q)) => if !advances(ts, p, q) {
                    Err(p)
                } else if kind_at(ts, q) != Some(TokenKind::LBrace) {
                    Err(q)
                } else {
                    match parse_block(ts, cs, q + 1, Seq::empty()) {
                        Ok((body, r)) => Ok(
                            (Ast::Function(text(cs, ts[p + 1int]), params, body), r),
                        ),
                        Err(e) => Err(e),
                    }
                },
                Err(e) => Err(e),
            }
        },
        _ => parse_expr(ts, cs, p),
    }
}

/// The statements of a function body, at token `p`, after the statements
/// `acc`; also consumes the closing brace.
pub open spec fn parse_block(ts: Seq<Token>, cs: Seq<char>, p: nat, acc: Seq<Ast>) -> Result<
    (Seq<Ast>, nat),
    nat,
>
    decreases ts.len() - p, 9int,
{
    if kind_at(ts, p) == Some(TokenKind::RBrace) {
        Ok((acc, p + 1))
    } else {
        match parse_stmt(ts, cs, p) {
            Ok((s, q)) => if !advances(ts, p, q) {
                Err(p)
            } else if kind_at(ts, q) == Some(TokenKind::Semi) {
                parse_block(ts, cs, q + 1, acc.push(s))
            } else if kind_at(ts, q) == Some(TokenKind::RBrace) {
                Ok((acc.push(s), q + 1))
            } else {
                Err(q)
            },
            Err(e) => Err(e),
        }
    }
}

/// `program`, at token `p`, after the statements `acc`.
pub open spec fn parse_program(ts: Seq<Token>, cs: Seq<char>, p: nat, acc: Seq<Ast>) -> Result<
    Seq<Ast>,
    nat,
>
    decreases ts.len() - p,
{
    if p >= ts.len() {
        Ok(acc)
    } else {
        match parse_stmt(ts, cs, p) {
            Ok((s, q)) => if !advances(ts, p, q) {
                Err(p)
            } else if q >= ts.len() {
                Ok(acc.push(s))
            } else if kind_at(ts, q) == Some(TokenKind::Semi) {
                parse_program(ts, cs, q + 1, acc.push(s))
            } else {
                Err(q)
            },
            Err(e) => Err(e),
        }
    }
}

/// Whether an executable parse result is the one the grammar gives.
pub open spec fn node_result(r: Result<(AstNode, usize), usize>, s: Result<(Ast, nat), nat>) -> bool {
    match s {
        Ok((a, q)) => r matches Ok((n, q2)) && ast_view(n) == a && q2 as nat == q,
        Err(e) => r matches Err(e2) && e2 as nat == e,
    }
}

/// Whether an executable list parse result is the one the grammar gives.
pub open spec fn nodes_result(
    r: Result<(Vec<AstNode>, usize), usize>,
    s: Result<(Seq<Ast>, nat), nat>,
) -> bool {
    match s {
        Ok((a, q)) => r matches Ok((v, q2)) && ast_views(v@) == a && q2 as nat == q,
        Err(e) => r matches Err(e2) && e2 as nat == e,
    }
}

pub proof fn lemma_ast_views_len(s: Seq<AstNode>)
    ensures
        ast_views(s).len() == s.len(),
    decreases s.len(),
{
    if s.len() > 0 {
        lemma_ast_views_len(s.drop_last());
    }
}

fn kind_is(ts: &Vec<Token>, p: usize, k: TokenKind) -> (r: bool)
    ensures
        r == (kind_at(ts@, p as nat) == Some(k)),
        r ==> p < ts@.len() <= usize::MAX,
{
    p < ts.len() && ts[p].kind == k
}

fn token_text(input: &str, t: Token) -> (r: String)
    requires
        t.start <= t.end <= input@.len(),
    ensures
        r@ == input@.subrange(t.start as int, t.end as int),
{
    input.substring_char(t.start, t.end).to_string()
}

fn p_atom(ts: &Vec<Token>, input: &str, p: usize) -> (r: Result<(AstNode, usize), usize>)
    requires
        tokens_wf(ts@, input@),
        p <= ts@.len(),
    ensures
        node_result(r, parse_atom(ts@, input@, p as nat)),
        r matches Ok((_, q)) ==> p < q <= ts@.len(),
    decreases ts@.len() - p, 1int,
{
    if p >= ts.len() {
        return Err(p);
    }
    let t = ts[p];
    match t.kind {
        TokenKind::Int(v) => Ok((AstNode::Number { value: v }, p + 1)),
        TokenKind::True => Ok((AstNode::Boolean { value: true }, p + 1)),
        TokenKind::False => Ok((AstNode::Boolean { value: false }, p + 1)),
        TokenKind::Ident => {
            let name = token_text(input, t);
            if kind_is(ts, p + 1, TokenKind::LParen) {
                match p_args(ts, input, p + 2, Vec::new()) {
                    Ok((args, q)) => Ok((AstNode::FunctionCall { id: name, args }, q)),
                    Err(e) => Err(e),
                }
            } else {
                Ok((AstNode::Id { name }, p + 1))
            }
        },
        TokenKind::LParen => match p_expr(ts, input, p + 1) {
            Ok((e, q)) => if kind_is(ts, q, TokenKind::RParen) {
                Ok((e, q + 1))
            } else {
                Err(q)
            },
            Err(e) => Err(e),
        },
        _ => Err(p),
    }
}

fn p_args(ts: &Vec<Token>, input: &str, p: usize, acc: Vec<AstNode>) -> (r: Result<
    (Vec<AstNode>, usize),
    usize,
>)
    requires
        tokens_wf(ts@, input@),
        p <= ts@.len(),
    ensures
        nodes_result(r, parse_args(ts@, input@, p as nat, ast_views(acc@))),
        r matches Ok((_, q)) ==> p < q <= ts@.len(),
    decreases ts@.len() - p, 7int,
{
    proof {
        lemma_ast_views_len(acc@);
    }
    if acc.len() == 0 && kind_is(ts, p, TokenKind::RParen) {
        return Ok((acc, p + 1));
    }
    match p_expr(ts, input, p) {
        Ok((e, q)) => {
            if kind_is(ts, q, TokenKind::Comma) {
                let mut acc = acc;
                proof {
                    lemma_ast_views_push(acc@, e);
                }
                acc.push(e);
                p_args(ts, input, q + 1, acc)
            } else if kind_is(ts, q, TokenKind::RParen) {
                let mut acc = acc;
                proof {
                    lemma_ast_views_push(acc@, e);
                }
                acc.push(e);
                Ok((acc, q + 1))
            } else {
                Err(q)
            }
        },
        Err(e) => Err(e),
    }
}

fn p_term(ts: &Vec<Token>, input: &str, p: usize) -> (r: Result<(AstNode, usize), usize>)
    requires
        tokens_wf(ts@, input@),
        p <= ts@.len(),
    ensures
        node_result(r, parse_term(ts@, input@, p as nat)),
        r matches Ok((_, q)) ==> p < q <= ts@.len(),
    decreases ts@.len() - p, 3int,
{
    match p_atom(ts, input, p) {
        Ok((a, q)) => p_term_rest(ts, input, q, a),
        Err(e) => Err(e),
    }
}

fn p_term_rest(ts: &Vec<Token>, input: &str, p: usize, acc: AstNode) -> (r: Result<
    (AstNode, usize),
    usize,
>)
    requires
        tokens_wf(ts@, input@),
        p <= ts@.len(),
    ensures
        node_result(r, parse_term_rest(ts@, input@, p as nat, ast_view(acc))),
        r matches Ok((_, q)) ==> p <= q <= ts@.len(),
    decreases ts@.len() - p, 2int,
{
    if kind_is(ts, p, TokenKind::Star) {
        match p_atom(ts, input, p + 1) {
            Ok((b, q)) => p_term_rest(
                ts,
                input,
                q,
                AstNode::Mul { lhs: Box::new(acc), rhs: Box::new(b) },
            ),
            Err(e) => Err(e),
        }
    } else {
        Ok((acc, p))
    }
}

fn p_sum(ts: &Vec<Token>, input: &str, p: usize) -> (r: Result<(AstNode, usize), usize>)
    requires
        tokens_wf(ts@, input@),
        p <= ts@.len(),
    ensures
        node_result(r, parse_sum(ts@, input@, p as nat)),
        r matches Ok((_, q)) ==> p < q <= ts@.len(),
    decreases ts@.len() - p, 5int,
{
    match p_term(ts, input, p) {
        Ok((a, q)) => p_sum_rest(ts, input, q, a),
        Err(e) => Err(e),
    }
}

fn p_sum_rest(ts: &Vec<Token>, input: &str, p: usize, acc: AstNode) -> (r: Result<
    (AstNode, usize),
    usize,
>)
    requires
        tokens_wf(ts@, input@),
        p <= ts@.len(),
    ensures
        node_result(r, parse_sum_rest(ts@, input@, p as nat, ast_view(acc))),
        r matches Ok((_, q)) ==> p <= q <= ts@.len(),
    decreases ts@.len() - p, 4int,
{
    if kind_is(ts, p, TokenKind::Plus) {
        match p_term(ts, input, p + 1) {
            Ok((b, q)) => p_sum_rest(
                ts,
                input,
                q,
                AstNode::Add { lhs: Box::new(acc), rhs: Box::new(b) },
            ),
            Err(e) => Err(e),
        }
    } else {
        Ok((acc, p))
    }
}

fn p_expr(ts: &Vec<Token>, input: &str, p: usize) -> (r: Result<(AstNode, usize), usize>)
    requires
        tokens_wf(ts@, input@),
        p <= ts@.len(),
    ensures
        node_result(r, parse_expr(ts@, input@, p as nat)),
        r matches Ok((_, q)) ==> p < q <= ts@.len(),
    decreases ts@.len() - p, 6int,
{
    match p_sum(ts, input, p) {
        Ok((a, q)) => {
            if kind_is(ts, q, TokenKind::Lt) {
                match p_sum(ts, input, q + 1) {
                    Ok((b, r)) => Ok((AstNode::LessThan { lhs: Box::new(a), rhs: Box::new(b) }, r)),
                    Err(e) => Err(e),
                }
            } else if kind_is(ts, q, TokenKind::Gt) {
                match p_sum(ts, input, q + 1) {
                    Ok((b, r)) => Ok(
                        (AstNode::GreaterThan { lhs: Box::new(a), rhs: Box::new(b) }, r),
                    ),
                    Err(e) => Err(e),
                }
            } else {
                Ok((a, q))
            }
        },
        Err(e) => Err(e),
    }
}

fn p_params(ts: &Vec<Token>, input: &str, p: usize, acc: Vec<String>) -> (r: Result<
    (Vec<String>, usize),
    usize,
>)
    requires
        tokens_wf(ts@, input@),
        p <= ts@.len(),
    ensures
        match parse_params(ts@, input@, p as nat, acc@.map_values(|n: String| n@)) {
            Ok((a, q)) => r matches Ok((v, q2)) && v@.map_values(|n: String| n@) == a && q2 as nat
                == q,
            Err(e) => r matches Err(e2) && e2 as nat == e,
        },
        r matches Ok((_, q)) ==> p < q <= ts@.len(),
    decreases ts@.len() - p,
{
    if acc.len() == 0 && kind_is(ts, p, TokenKind::RParen) {
        return Ok((acc, p + 1));
    }
    if kind_is(ts, p, TokenKind::Ident) {
        let name = token_text(input, ts[p]);
        let mut acc = acc;
        let ghost old_acc = acc@;
        acc.push(name);
        proof {
            assert(acc@.map_values(|n: String| n@) =~= old_acc.map_values(|n: String| n@).push(
                name@,
            ));
        }
        if kind_is(ts, p + 1, TokenKind::Comma) {
            p_params(ts, input, p + 2, acc)
        } else if kind_is(ts, p + 1, TokenKind::RParen) {
            Ok((acc, p + 2))
        } else {
            Err(p + 1)
        }
    } else {
        Err(p)
    }
}

fn p_stmt(ts: &Vec<Token>, input: &str, p: usize) -> (r: Result<(AstNode, usize), usize>)
    requires
        tokens_wf(ts@, input@),
        p <= ts@.len(),
    ensures
        node_result(r, parse_stmt(ts@, input@, p as nat)),
        r matches Ok((_, q)) ==> p < q <= ts@.len(),
    decreases ts@.len() - p, 8int,
{
    if kind_is(ts, p, TokenKind::Let) {
        if !kind_is(ts, p + 1, TokenKind::Ident) {
            return Err(p + 1);
        }
        if !kind_is(ts, p + 2, TokenKind::Eq) {
            return Err(p + 2);
        }
        let id = token_text(input, ts[p + 1]);
        match p_expr(ts, input, p + 3) {
            Ok((e, q)) => Ok((AstNode::Assign { id, node: Box::new(e) }, q)),
            Err(e) => Err(e),
        }
    } else if kind_is(ts, p, TokenKind::Println) {
        if !kind_is(ts, p + 1, TokenKind::LParen) {
            return Err(p + 1);
        }
        match p_expr(ts, input, p + 2) {
            Ok((e, q)) => if kind_is(ts, q, TokenKind::RParen) {
                Ok((AstNode::PrintLn { rhs: Box::new(e) }, q + 1))
            } else {
                Err(q)
            },
            Err(e) => Err(e),
        }
    } else if kind_is(ts, p, TokenKind::Return) {
        match p_expr(ts, input, p + 1) {
            Ok((e, q)) => {
                let mut block: Vec<AstNode> = Vec::new();
                proof {
                    lemma_ast_views_push(block@, e);
                    assert(block@ =~= Seq::<AstNode>::empty());
                }
                block.push(e);
                Ok((AstNode::Return { block }, q))
            },
            Err(e) => Err(e),
        }
    } else if kind_is(ts, p, TokenKind::Fun) {
        if !kind_is(ts, p + 1, TokenKind::Ident) {
            return Err(p + 1);
        }
        if !kind_is(ts, p + 2, TokenKind::LParen) {
            return Err(p + 2);
        }
        let id = token_text(input, ts[p + 1]);
        proof {
            assert(Seq::<String>::empty().map_values(|n: String| n@) =~= Seq::<Seq<char>>::empty());
        }
        match p_params(ts, input, p + 3, Vec::new()) {
            Ok((params, q)) => {
                if !kind_is(ts, q, TokenKind::LBrace) {
                    return Err(q);
                }
                proof {
                    lemma_ast_views_len(Seq::<AstNode>::empty());
                }
                match p_block(ts, input, q + 1, Vec::new()) {
                    Ok((block, r)) => Ok((AstNode::Function { id, params, block }, r)),
                    Err(e) => Err(e),
                }
            },
            Err(e) => Err(e),
        }
    } else {
        p_expr(ts, input, p)
    }
}

fn p_block(ts: &Vec<Token>, input: &str, p: usize, acc: Vec<AstNode>) -> (r: Result<
    (Vec<AstNode>, usize),
    usize,
>)
    requires
        tokens_wf(ts@, input@),
        p <= ts@.len(),
    ensures
        nodes_result(r, parse_block(ts@, input@, p as nat, ast_views(acc@))),
        r matches Ok((_, q)) ==> p < q <= ts@.len(),
    decreases ts@.len() - p, 9int,
{
    if kind_is(ts, p, TokenKind::RBrace) {
        return Ok((acc, p + 1));
    }
    match p_stmt(ts, input, p) {
        Ok((s, q)) => {
            if kind_is(ts, q, TokenKind::Semi) {
                let mut acc = acc;
                proof {
                    lemma_ast_views_push(acc@, s);
                }
                acc.push(s);
                p_block(ts, input, q + 1, acc)
            } else if kind_is(ts, q, TokenKind::RBrace) {
                let mut acc = acc;
                proof {
                    lemma_ast_views_push(acc@, s);
                }
                acc.push(s);
                Ok((acc, q + 1))
            } else {
                Err(q)
            }
        },
        Err(e) => Err(e),
    }
}

/// Parses the statements of a program from token `p` on, after the
/// statements `acc` (see `parse_program`).
pub fn p_program(ts: &Vec<Token>, input: &str, p: usize, acc: Vec<AstNode>) -> (r: Result<
    Vec<AstNode>,
    usize,
>)
    requires
        tokens_wf(ts@, input@),
        p <= ts@.len(),
    ensures
        match parse_program(ts@, input@, p as nat, ast_views(acc@)) {
            Ok(a) => r matches Ok(v) && ast_views(v@) == a,
            Err(e) => r matches Err(e2) && e2 as nat == e,
        },
    decreases ts@.len() - p,
{
    if p >= ts.len() {
        return Ok(acc);
    }
    match p_stmt(ts, input, p) {
        Ok((s, q)) => {
            let mut acc = acc;
            proof {
                lemma_ast_views_push(acc@, s);
            }
            acc.push(s);
            if q >= ts.len() {
                Ok(acc)
            } else if kind_is(ts, q, TokenKind::Semi) {
                p_program(ts, input, q + 1, acc)
            } else {
                Err(q)
            }
        },
        Err(e) => Err(e),
    }
}

/// The statements of a program text, or the position (in characters) of
/// the first character that does not fit the grammar: a character that
/// starts no token, the start of a token out of place, or the end of the
/// text when it ends too early.
pub open spec fn program(cs: Seq<char>) -> Result<Seq<Ast>, nat> {
    match lex(cs) {
        Err(p) => Err(p),
        Ok(ts) => match parse_program(ts, cs, 0, Seq::empty()) {
            Ok(a) => Ok(a),
            Err(k) => Err(
                if k < ts.len() {
                    ts[k as int].start as nat
                } else {
                    cs.len()
                },
            ),
        },
    }
}

} // verus!
