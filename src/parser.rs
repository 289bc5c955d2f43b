//! Recursive-descent parser with precedence climbing for binary expressions.
use vstd::prelude::*;
use crate::exprs::{
    exprs_view, idents_view, operator_of, prec, stmts_view, BlockStatement, Expr, FnStatement,
    Ident, IfStatement, Op, Operator, ParenExpr, ParenIdent, SpecExpr, SpecStatement, Statement,
};
use crate::lexer::{
    lex, literal_value, tokens_view, Cursor, KeywordKind, KindView, Token, TokenKind, TokenView,
};

verus! {

#[derive(Debug, Clone, Copy, PartialEq, Eq, Structural)]
pub enum ParseError {
    /// A token of the expected kind whose text gives no value of the expected shape.
    FalseInner,
    /// The tokens ran out where one more was needed.
    UnexpectedEOF,
    /// A token of the wrong kind.
    UnexpectedToken,
}

/// The top node of the syntax tree: the statements of the file, in order.
#[derive(Debug, PartialEq)]
pub struct AST {
    pub program: Vec<Statement>,
}

impl View for AST {
    type V = Seq<SpecStatement>;

    open spec fn view(&self) -> Seq<SpecStatement> {
        stmts_view(self.program@)
    }
}

/// The kinds of a sequence of token views.
pub open spec fn token_kinds(ts: Seq<TokenView>) -> Seq<KindView> {
    ts.map_values(|t: TokenView| t.kind)
}

/// The kinds of a token sequence.
pub open spec fn kinds(ts: Seq<Token>) -> Seq<KindView> {
    ts.map_values(|t: Token| t.kind@)
}

/// A value read from the front of a token sequence, with the tokens after it.
pub type Parsed<T> = Result<(T, Seq<KindView>), ParseError>;

/// The operator that a token stands for, if any.
pub open spec fn op_token(k: KindView) -> Option<Operator> {
    match k {
        KindView::Operator(c) => operator_of(c),
        _ => None,
    }
}

/// The term that the token `k` gives: an identifier or a literal.
pub open spec fn term_of(k: KindView) -> Result<SpecExpr, ParseError> {
    match k {
        KindView::Ident(s) => Ok(SpecExpr::Ident(s)),
        KindView::Literal(s) => match literal_value(s) {
            Some(v) => Ok(SpecExpr::Literal(v)),
            None => Err(ParseError::FalseInner),
        },
        _ => Err(ParseError::UnexpectedToken),
    }
}

pub open spec fn spec_term(ts: Seq<KindView>) -> Parsed<SpecExpr> {
    if ts.len() == 0 {
        Err(ParseError::UnexpectedEOF)
    } else {
        match term_of(ts[0]) {
            Ok(t) => Ok((t, ts.drop_first())),
            Err(e) => Err(e),
        }
    }
}

/// The pairs `operator term` at the front of `ts`, as long as each operator binds
/// at least as tightly as `m`: the operators, the terms, and the tokens after them.
pub open spec fn spec_tail(ts: Seq<KindView>, m: nat) -> Result<
    (Seq<Operator>, Seq<SpecExpr>, Seq<KindView>),
    ParseError,
>
    decreases ts.len(),
{
    if ts.len() > 0 && op_token(ts[0]) is Some && prec(op_token(ts[0])->0) >= m {
        if ts.len() < 2 {
            Err(ParseError::UnexpectedEOF)
        } else {
            match term_of(ts[1]) {
                Err(e) => Err(e),
                Ok(t) => match spec_tail(ts.skip(2), m) {
                    Err(e) => Err(e),
                    Ok((os, es, rest)) => Ok(
                        (seq![op_token(ts[0])->0] + os, seq![t] + es, rest),
                    ),
                },
            }
        }
    } else {
        Ok((seq![], seq![], ts))
    }
}

/// The index of the last of the loosest-binding operators of `os`.
pub open spec fn loosest(os: Seq<Operator>) -> int
    decreases os.len(),
{
    if os.len() <= 1 {
        0
    } else {
        let j = loosest(os.drop_last());
        if prec(os.last()) <= prec(os[j]) {
            os.len() - 1
        } else {
            j
        }
    }
}

pub proof fn lemma_loosest(os: Seq<Operator>)
    requires
        os.len() > 0,
    ensures
        0 <= loosest(os) < os.len(),
        forall|i: int| 0 <= i < loosest(os) ==> prec(#[trigger] os[i]) >= prec(os[loosest(os)]),
        forall|i: int| loosest(os) < i < os.len() ==> prec(#[trigger] os[i]) > prec(os[loosest(os)]),
    decreases os.len(),
{
    if os.len() > 1 {
        let d = os.drop_last();
        lemma_loosest(d);
        let j = loosest(d);
        assert forall|i: int| 0 <= i < os.len() - 1 implies os[i] == #[trigger] d[i] by {}
        if prec(os.last()) <= prec(os[j]) {
            assert forall|i: int| 0 <= i < loosest(os) implies prec(#[trigger] os[i]) >= prec(
                os[loosest(os)],
            ) by {
                assert(os[i] == d[i]);
                assert(os[j] == d[j]);
                if i < j {
                    assert(prec(d[i]) >= prec(d[j]));
                } else if i > j {
                    assert(prec(d[i]) > prec(d[j]));
                }
            }
        } else {
            assert forall|i: int| 0 <= i < loosest(os) implies prec(#[trigger] os[i]) >= prec(
                os[loosest(os)],
            ) by {
                assert(os[i] == d[i]);
                assert(os[j] == d[j]);
            }
            assert forall|i: int| loosest(os) < i < os.len() implies prec(#[trigger] os[i]) > prec(
                os[loosest(os)],
            ) by {
                assert(os[j] == d[j]);
                if i < os.len() - 1 {
                    assert(os[i] == d[i]);
                }
            }
        }
    }
}

/// The tree that the operands `es` and the operators `os` between them build:
/// tighter-binding operators take their operands first, and operators that bind
/// equally group to the left. The root is the last of the loosest operators.
pub open spec fn tree_of(es: Seq<SpecExpr>, os: Seq<Operator>) -> SpecExpr
    decreases os.len(),
{
    if os.len() == 0 {
        es[0]
    } else {
        proof {
            lemma_loosest(os);
        }
        let k = loosest(os);
        SpecExpr::BinOp(
            Box::new(tree_of(es.take(k + 1), os.take(k))),
            os[k],
            Box::new(tree_of(es.skip(k + 1), os.skip(k + 1))),
        )
    }
}

/// The operands of a tree of binary operations, left to right.
pub open spec fn operands(e: SpecExpr) -> Seq<SpecExpr>
    decreases e,
{
    match e {
        SpecExpr::BinOp(l, _, r) => operands(*l) + operands(*r),
        _ => seq![e],
    }
}

/// The operators of a tree of binary operations, left to right.
pub open spec fn operators(e: SpecExpr) -> Seq<Operator>
    decreases e,
{
    match e {
        SpecExpr::BinOp(l, o, r) => operators(*l) + seq![o] + operators(*r),
        _ => seq![],
    }
}

/// How tightly the root of `e` binds; an operand binds tighter than any operator.
pub open spec fn binding(e: SpecExpr) -> nat {
    match e {
        SpecExpr::BinOp(_, o, _) => prec(o),
        _ => 3,
    }
}

/// Each operation's left operand binds at least as tightly as its operator, and
/// its right operand binds strictly tighter.
pub open spec fn well_grouped(e: SpecExpr) -> bool
    decreases e,
{
    match e {
        SpecExpr::BinOp(l, o, r) => well_grouped(*l) && well_grouped(*r) && binding(*l) >= prec(o)
            && binding(*r) > prec(o),
        _ => true,
    }
}

pub proof fn lemma_operands_len(e: SpecExpr)
    ensures
        operands(e).len() == operators(e).len() + 1,
    decreases e,
{
    if let SpecExpr::BinOp(l, _, r) = e {
        lemma_operands_len(*l);
        lemma_operands_len(*r);
    }
}

pub proof fn lemma_binding_least(e: SpecExpr)
    requires
        well_grouped(e),
    ensures
        forall|i: int|
            0 <= i < operators(e).len() ==> prec(#[trigger] operators(e)[i]) >= binding(e),
    decreases e,
{
    if let SpecExpr::BinOp(l, o, r) = e {
        lemma_binding_least(*l);
        lemma_binding_least(*r);
        let ol = operators(*l);
        let or = operators(*r);
        assert forall|i: int| 0 <= i < operators(e).len() implies prec(
            #[trigger] operators(e)[i],
        ) >= binding(e) by {
            if i < ol.len() {
                assert(operators(e)[i] == ol[i]);
            } else if i > ol.len() {
                assert(operators(e)[i] == or[i - ol.len() - 1]);
            }
        }
    }
}

/// A well-grouped tree is the one that `tree_of` builds from its operands and operators.
pub proof fn lemma_tree_of_unique(e: SpecExpr)
    requires
        well_grouped(e),
    ensures
        tree_of(operands(e), operators(e)) == e,
    decreases e,
{
    if let SpecExpr::BinOp(l, o, r) = e {
        let l = *l;
        let r = *r;
        lemma_tree_of_unique(l);
        lemma_tree_of_unique(r);
        lemma_operands_len(l);
        lemma_operands_len(r);
        lemma_binding_least(l);
        lemma_binding_least(r);
        let es = operands(e);
        let os = operators(e);
        let k0 = operators(l).len() as int;
        lemma_loosest(os);
        let k = loosest(os);
        assert(os[k0] == o);
        if k < k0 {
            assert(os[k] == operators(l)[k]);
            assert(prec(os[k0]) > prec(os[k]));
        } else if k > k0 {
            assert(os[k] == operators(r)[k - k0 - 1]);
            assert(prec(os[k0]) >= prec(os[k]));
        }
        assert(k == k0);
        assert(es.take(k0 + 1) =~= operands(l));
        assert(os.take(k0) =~= operators(l));
        assert(es.skip(k0 + 1) =~= operands(r));
        assert(os.skip(k0 + 1) =~= operators(r));
    } else {
        assert(operands(e) =~= seq![e]);
    }
}

/// The tree that `tree_of` builds respects precedence and keeps the order of the
/// input: each operation's left operand binds at least as tightly as its operator,
/// its right operand binds strictly tighter, and reading the tree left to right
/// gives back the operands and operators.
pub proof fn lemma_tree_of_well_grouped(es: Seq<SpecExpr>, os: Seq<Operator>)
    requires
        es.len() == os.len() + 1,
        forall|i: int| 0 <= i < es.len() ==> !(#[trigger] es[i] is BinOp),
    ensures
        well_grouped(tree_of(es, os)),
        operands(tree_of(es, os)) == es,
        operators(tree_of(es, os)) == os,
    decreases os.len(),
{
    if os.len() == 0 {
        assert(seq![es[0]] =~= es);
    } else {
        lemma_loosest(os);
        let k = loosest(os);
        let (el, ol) = (es.take(k + 1), os.take(k));
        let (er, or) = (es.skip(k + 1), os.skip(k + 1));
        assert forall|i: int| 0 <= i < el.len() implies !(#[trigger] el[i] is BinOp) by {
            assert(el[i] == es[i]);
        }
        assert forall|i: int| 0 <= i < er.len() implies !(#[trigger] er[i] is BinOp) by {
            assert(er[i] == es[i + k + 1]);
        }
        lemma_tree_of_well_grouped(el, ol);
        lemma_tree_of_well_grouped(er, or);
        if ol.len() > 0 {
            lemma_loosest(ol);
            assert(ol[loosest(ol)] == os[loosest(ol)]);
        } else {
            assert(!(el[0] is BinOp));
        }
        if or.len() > 0 {
            lemma_loosest(or);
            assert(or[loosest(or)] == os[loosest(or) + k + 1]);
        } else {
            assert(!(er[0] is BinOp));
        }
        assert(el + er =~= es);
        assert(ol + seq![os[k]] + or =~= os);
    }
}

/// An expression: a term followed by any number of `operator term` pairs.
pub open spec fn spec_expr(ts: Seq<KindView>) -> Parsed<SpecExpr> {
    match spec_term(ts) {
        Err(e) => Err(e),
        Ok((t, r)) => match spec_tail(r, 0) {
            Err(e) => Err(e),
            Ok((os, es, rest)) => Ok((tree_of(seq![t] + es, os), rest)),
        },
    }
}

pub proof fn lemma_tail_shrinks(ts: Seq<KindView>, m: nat)
    ensures
        spec_tail(ts, m) is Ok ==> spec_tail(ts, m)->Ok_0.2.len() <= ts.len(),
    decreases ts.len(),
{
    if ts.len() >= 2 {
        lemma_tail_shrinks(ts.skip(2), m);
    }
}

pub proof fn lemma_expr_advances(ts: Seq<KindView>)
    ensures
        spec_expr(ts) is Ok ==> spec_expr(ts)->Ok_0.1.len() < ts.len(),
{
    if ts.len() > 0 {
        lemma_tail_shrinks(ts.drop_first(), 0);
    }
}

/// The expressions up to and including the closing parenthesis.
pub open spec fn spec_paren_items(ts: Seq<KindView>) -> Parsed<Seq<SpecExpr>>
    decreases ts.len(),
{
    if ts.len() == 0 {
        Err(ParseError::UnexpectedEOF)
    } else if ts[0] is CloseParen {
        Ok((seq![], ts.drop_first()))
    } else {
        match spec_expr(ts) {
            Err(e) => Err(e),
            Ok((e, r)) => {
                proof {
                    lemma_expr_advances(ts);
                }
                match spec_paren_items(r) {
                    Err(err) => Err(err),
                    Ok((es, rest)) => Ok((seq![e] + es, rest)),
                }
            },
        }
    }
}

/// `(` followed by expressions and `)`.
pub open spec fn spec_paren_expr(ts: Seq<KindView>) -> Parsed<Seq<SpecExpr>> {
    if ts.len() == 0 {
        Err(ParseError::UnexpectedEOF)
    } else if ts[0] is OpenParen {
        spec_paren_items(ts.drop_first())
    } else {
        Err(ParseError::UnexpectedToken)
    }
}

pub proof fn lemma_paren_items_advance(ts: Seq<KindView>)
    ensures
        spec_paren_items(ts) is Ok ==> spec_paren_items(ts)->Ok_0.1.len() < ts.len(),
    decreases ts.len(),
{
    if ts.len() > 0 && !(ts[0] is CloseParen) {
        lemma_expr_advances(ts);
        if spec_expr(ts) is Ok {
            lemma_paren_items_advance(spec_expr(ts)->Ok_0.1);
        }
    }
}

/// An identifier token.
pub open spec fn spec_ident(ts: Seq<KindView>) -> Parsed<Seq<char>> {
    if ts.len() == 0 {
        Err(ParseError::UnexpectedEOF)
    } else {
        match ts[0] {
            KindView::Ident(s) => Ok((s, ts.drop_first())),
            _ => Err(ParseError::FalseInner),
        }
    }
}

/// Comma-separated identifiers up to and including the closing parenthesis;
/// a comma before it is allowed.
pub open spec fn spec_ident_items(ts: Seq<KindView>) -> Parsed<Seq<Seq<char>>>
    decreases ts.len(),
{
    if ts.len() == 0 {
        Err(ParseError::UnexpectedEOF)
    } else if ts[0] is CloseParen {
        Ok((seq![], ts.drop_first()))
    } else {
        match ts[0] {
            KindView::Ident(s) => {
                let r = ts.drop_first();
                let next = if r.len() == 0 {
                    Err(ParseError::UnexpectedEOF)
                } else if r[0] is CloseParen {
                    spec_ident_items(r)
                } else if r[0] is Comma {
                    spec_ident_items(r.drop_first())
                } else {
                    Err(ParseError::UnexpectedToken)
                };
                match next {
                    Err(e) => Err(e),
                    Ok((ids, rest)) => Ok((seq![s] + ids, rest)),
                }
            },
            _ => Err(ParseError::FalseInner),
        }
    }
}

/// `(`, a parameter list, and `)`.
pub open spec fn spec_paren_ident(ts: Seq<KindView>) -> Parsed<Seq<Seq<char>>> {
    if ts.len() == 0 {
        Err(ParseError::UnexpectedEOF)
    } else if ts[0] is OpenParen {
        spec_ident_items(ts.drop_first())
    } else {
        Err(ParseError::UnexpectedToken)
    }
}

pub proof fn lemma_ident_items_advance(ts: Seq<KindView>)
    ensures
        spec_ident_items(ts) is Ok ==> spec_ident_items(ts)->Ok_0.1.len() < ts.len(),
    decreases ts.len(),
{
    if ts.len() > 1 {
        lemma_ident_items_advance(ts.drop_first());
        if ts.len() > 2 {
            lemma_ident_items_advance(ts.drop_first().drop_first());
        }
    }
}

/// A statement: `if (...) statement`, `fn name(params) statement`, a block in
/// braces, or an expression.
pub open spec fn spec_statement(ts: Seq<KindView>) -> Parsed<SpecStatement>
    decreases ts.len(), 0nat,
{
    if ts.len() == 0 {
        Err(ParseError::UnexpectedEOF)
    } else {
        match ts[0] {
            KindView::Keyword(KeywordKind::If) => match spec_paren_expr(ts.drop_first()) {
                Err(e) => Err(e),
                Ok((cond, r)) => {
                    proof {
                        lemma_paren_items_advance(ts.drop_first().drop_first());
                    }
                    match spec_statement(r) {
                        Err(e) => Err(e),
                        Ok((body, rest)) => Ok((SpecStatement::If(cond, Box::new(body)), rest)),
                    }
                },
            },
            KindView::Keyword(KeywordKind::Fn) => match spec_ident(ts.drop_first()) {
                Err(e) => Err(e),
                Ok((name, r1)) => match spec_paren_ident(r1) {
                    Err(e) => Err(e),
                    Ok((params, r2)) => {
                        proof {
                            lemma_ident_items_advance(r1.drop_first());
                        }
                        match spec_statement(r2) {
                            Err(e) => Err(e),
                            Ok((body, rest)) => Ok(
                                (SpecStatement::Fn(name, params, Box::new(body)), rest),
                            ),
                        }
                    },
                },
            },
            KindView::OpenBrace => match spec_block_items(ts.drop_first()) {
                Err(e) => Err(e),
                Ok((stmts, rest)) => Ok((SpecStatement::Block(stmts), rest)),
            },
            _ => match spec_expr(ts) {
                Err(e) => Err(e),
                Ok((e, rest)) => Ok((SpecStatement::Expr(e), rest)),
            },
        }
    }
}

/// The statements of a block up to and including the closing brace.
pub open spec fn spec_block_items(ts: Seq<KindView>) -> Parsed<Seq<SpecStatement>>
    decreases ts.len(), 1nat,
{
    if ts.len() == 0 {
        Err(ParseError::UnexpectedEOF)
    } else if ts[0] is CloseBrace {
        Ok((seq![], ts.drop_first()))
    } else {
        match spec_statement(ts) {
            Err(e) => Err(e),
            Ok((s, r)) => {
                // A statement always takes at least one token (lemma_statement_advances),
                // so the test below never fails; it lets the recursion be seen to end.
                if r.len() < ts.len() {
                    match spec_block_items(r) {
                        Err(e) => Err(e),
                        Ok((stmts, rest)) => Ok((seq![s] + stmts, rest)),
                    }
                } else {
                    Err(ParseError::UnexpectedEOF)
                }
            },
        }
    }
}

pub proof fn lemma_statement_advances(ts: Seq<KindView>)
    ensures
        spec_statement(ts) is Ok ==> spec_statement(ts)->Ok_0.1.len() < ts.len(),
    decreases ts.len(), 0nat,
{
    if ts.len() > 0 {
        match ts[0] {
            KindView::Keyword(KeywordKind::If) => {
                if ts.len() > 1 {
                    lemma_paren_items_advance(ts.drop_first().drop_first());
                }
                if spec_paren_expr(ts.drop_first()) is Ok {
                    lemma_statement_advances(spec_paren_expr(ts.drop_first())->Ok_0.1);
                }
            },
            KindView::Keyword(KeywordKind::Fn) => {
                if spec_ident(ts.drop_first()) is Ok {
                    let r1 = spec_ident(ts.drop_first())->Ok_0.1;
                    if r1.len() > 0 {
                        lemma_ident_items_advance(r1.drop_first());
                    }
                    if spec_paren_ident(r1) is Ok {
                        lemma_statement_advances(spec_paren_ident(r1)->Ok_0.1);
                    }
                }
            },
            KindView::OpenBrace => {
                lemma_block_items_advance(ts.drop_first());
            },
            _ => {
                lemma_expr_advances(ts);
            },
        }
    }
}

pub proof fn lemma_block_items_advance(ts: Seq<KindView>)
    ensures
        spec_block_items(ts) is Ok ==> spec_block_items(ts)->Ok_0.1.len() < ts.len(),
    decreases ts.len(), 1nat,
{
    if ts.len() > 0 && !(ts[0] is CloseBrace) {
        lemma_statement_advances(ts);
        if spec_statement(ts) is Ok {
            let r = spec_statement(ts)->Ok_0.1;
            if r.len() < ts.len() {
                lemma_block_items_advance(r);
            }
        }
    }
}

/// The statements of a whole token sequence.
pub open spec fn spec_program(ts: Seq<KindView>) -> Result<Seq<SpecStatement>, ParseError>
    decreases ts.len(),
{
    if ts.len() == 0 {
        Ok(seq![])
    } else {
        match spec_statement(ts) {
            Err(e) => Err(e),
            Ok((s, r)) => {
                proof {
                    lemma_statement_advances(ts);
                }
                match spec_program(r) {
                    Err(e) => Err(e),
                    Ok(stmts) => Ok(seq![s] + stmts),
                }
            },
        }
    }
}

/// `xs` put in front of the values that `res` gives.
pub open spec fn prepend<A>(xs: Seq<A>, res: Parsed<Seq<A>>) -> Parsed<Seq<A>> {
    match res {
        Ok((ys, rest)) => Ok((xs + ys, rest)),
        Err(e) => Err(e),
    }
}

pub open spec fn join_tail(
    os: Seq<Operator>,
    es: Seq<SpecExpr>,
    res: Result<(Seq<Operator>, Seq<SpecExpr>, Seq<KindView>), ParseError>,
) -> Result<(Seq<Operator>, Seq<SpecExpr>, Seq<KindView>), ParseError> {
    match res {
        Ok((os2, es2, rest)) => Ok((os + os2, es + es2, rest)),
        Err(e) => Err(e),
    }
}

/// The operator at the front of `ts`, if any, binds no tighter than the root of `e`.
pub open spec fn next_binds_looser(e: SpecExpr, ts: Seq<KindView>) -> bool {
    ts.len() > 0 && op_token(ts[0]) is Some ==> prec(op_token(ts[0])->0) <= binding(e)
}

/// Reading the pairs that bind at least as tightly as `m2` and then those that bind
/// at least as tightly as `m <= m2` reads the pairs that bind as tightly as `m`.
pub proof fn lemma_tail_split(ts: Seq<KindView>, m: nat, m2: nat)
    requires
        m <= m2,
    ensures
        match spec_tail(ts, m2) {
            Err(e) => spec_tail(ts, m) == Err::<
                (Seq<Operator>, Seq<SpecExpr>, Seq<KindView>),
                ParseError,
            >(e),
            Ok((os, es, rest)) => spec_tail(ts, m) == join_tail(os, es, spec_tail(rest, m)),
        },
    decreases ts.len(),
{
    if ts.len() > 0 && op_token(ts[0]) is Some && prec(op_token(ts[0])->0) >= m2 {
        if ts.len() >= 2 {
            lemma_tail_split(ts.skip(2), m, m2);
            let o = op_token(ts[0])->0;
            if let Ok(t) = term_of(ts[1]) {
                if let Ok((os, es, rest)) = spec_tail(ts.skip(2), m2) {
                    if let Ok((os2, es2, rest2)) = spec_tail(rest, m) {
                        assert(seq![o] + os + os2 =~= seq![o] + (os + os2));
                        assert(seq![t] + es + es2 =~= seq![t] + (es + es2));
                    }
                }
            }
        }
    } else {
        if let Ok((os, es, rest)) = spec_tail(ts, m) {
            assert(seq![] + os =~= os);
            assert(seq![] + es =~= es);
        }
    }
}

/// After the pairs that `spec_tail` reads, no operator that binds as tightly as `m` follows.
pub proof fn lemma_tail_stop(ts: Seq<KindView>, m: nat)
    ensures
        spec_tail(ts, m) is Ok ==> tail_stops(spec_tail(ts, m)->Ok_0.2, m),
    decreases ts.len(),
{
    if ts.len() >= 2 {
        lemma_tail_stop(ts.skip(2), m);
    }
}

/// No operator that binds as tightly as `m` is at the front of `ts`.
pub open spec fn tail_stops(ts: Seq<KindView>, m: nat) -> bool {
    !(ts.len() > 0 && op_token(ts[0]) is Some && prec(op_token(ts[0])->0) >= m)
}

pub open spec fn no_pairs(ts: Seq<KindView>) -> Result<
    (Seq<Operator>, Seq<SpecExpr>, Seq<KindView>),
    ParseError,
> {
    Ok((seq![], seq![], ts))
}

proof fn lemma_tail_step(ts: Seq<KindView>, m: nat, op: Operator)
    requires
        ts.len() > 0,
        op_token(ts[0]) == Some(op),
        prec(op) >= m,
    ensures
        match spec_term(ts.drop_first()) {
            Err(e) => spec_tail(ts, m) == Err::<
                (Seq<Operator>, Seq<SpecExpr>, Seq<KindView>),
                ParseError,
            >(e),
            Ok((t, r)) => r == ts.skip(2) && spec_tail(ts, m) == join_tail(
                seq![op],
                seq![t],
                spec_tail(r, m),
            ),
        },
{
    if ts.len() >= 2 {
        assert(ts.drop_first().drop_first() =~= ts.skip(2));
    }
}

proof fn lemma_join_assoc(
    a: Seq<Operator>,
    b: Seq<SpecExpr>,
    c: Seq<Operator>,
    d: Seq<SpecExpr>,
    x: Result<(Seq<Operator>, Seq<SpecExpr>, Seq<KindView>), ParseError>,
)
    ensures
        join_tail(a, b, join_tail(c, d, x)) == join_tail(a + c, b + d, x),
{
    if let Ok((o, e, r)) = x {
        assert(a + (c + o) =~= a + c + o);
        assert(b + (d + e) =~= b + d + e);
    }
}

proof fn lemma_join_empty(
    a: Seq<Operator>,
    b: Seq<SpecExpr>,
    ts: Seq<KindView>,
    x: Result<(Seq<Operator>, Seq<SpecExpr>, Seq<KindView>), ParseError>,
)
    ensures
        join_tail(a, b, no_pairs(ts)) == Ok::<
            (Seq<Operator>, Seq<SpecExpr>, Seq<KindView>),
            ParseError,
        >((a, b, ts)),
        join_tail(seq![], seq![], x) == x,
{
    assert(a + seq![] =~= a);
    assert(b + seq![] =~= b);
    if let Ok((o, e, r)) = x {
        assert(seq![] + o =~= o);
        assert(seq![] + e =~= e);
    }
}

proof fn lemma_prepend_assoc<A>(xs: Seq<A>, ys: Seq<A>, res: Parsed<Seq<A>>)
    ensures
        prepend(xs, prepend(ys, res)) == prepend(xs + ys, res),
{
    if let Ok((zs, r)) = res {
        assert(xs + (ys + zs) =~= xs + ys + zs);
    }
}

proof fn lemma_prepend_nil<A>(xs: Seq<A>, ts: Seq<KindView>, res: Parsed<Seq<A>>)
    ensures
        prepend(xs, Ok((seq![], ts))) == Ok::<(Seq<A>, Seq<KindView>), ParseError>((xs, ts)),
        prepend(seq![], res) == res,
{
    assert(xs + seq![] =~= xs);
    if let Ok((zs, r)) = res {
        assert(seq![] + zs =~= zs);
    }
}

/// `xs` put in front of the statements that `res` gives.
pub open spec fn prefix_program(
    xs: Seq<SpecStatement>,
    res: Result<Seq<SpecStatement>, ParseError>,
) -> Result<Seq<SpecStatement>, ParseError> {
    match res {
        Ok(ys) => Ok(xs + ys),
        Err(e) => Err(e),
    }
}

/// Comments, whitespace and unknown characters carry no meaning for the grammar.
pub open spec fn is_significant(k: KindView) -> bool {
    !(k is Comment || k is Whitespace || k is Unknown)
}

/// The tokens that the parser is given: those of `ts` that are significant.
pub open spec fn significant(ts: Seq<TokenView>) -> Seq<TokenView> {
    ts.filter(|t: TokenView| is_significant(t.kind))
}

proof fn lemma_significant_push(ts: Seq<TokenView>, t: TokenView)
    ensures
        significant(ts.push(t)) == if is_significant(t.kind) {
            significant(ts).push(t)
        } else {
            significant(ts)
        },
{
    reveal(Seq::filter);
    assert(ts.push(t).drop_last() =~= ts);
}

/// The value that a parse gives, with the tokens left after it.
pub open spec fn outcome<T: View>(r: Result<T, ParseError>, rest: Seq<KindView>) -> Parsed<T::V> {
    match r {
        Ok(v) => Ok((v@, rest)),
        Err(e) => Err(e),
    }
}

pub open spec fn view_result<T: View>(r: Result<T, ParseError>) -> Result<T::V, ParseError> {
    match r {
        Ok(v) => Ok(v@),
        Err(e) => Err(e),
    }
}

/// Reads a syntax tree from a sequence of tokens, one token of lookahead at a time.
pub struct Parser<'a> {
    tokens: &'a Vec<Token>,
    pos: usize,
}

impl<'a> Parser<'a> {
    /// The kinds of the tokens not read yet.
    pub closed spec fn rest(&self) -> Seq<KindView> {
        kinds(self.tokens@).skip(self.pos as int)
    }

    pub closed spec fn wf(&self) -> bool {
        self.pos <= self.tokens.len()
    }

    pub closed spec fn same_tokens(&self, other: &Parser<'a>) -> bool {
        self.tokens == other.tokens
    }

    proof fn lemma_rest(&self)
        requires
            self.wf(),
        ensures
            self.rest().len() == self.tokens.len() - self.pos,
            forall|i: int|
                0 <= i < self.rest().len() ==> #[trigger] self.rest()[i] == self.tokens@[self.pos
                    + i].kind@,
    {
    }

    fn peek_iter(&self) -> (r: Result<&'a Token, ParseError>)
        requires
            self.wf(),
        ensures
            match r {
                Ok(t) => self.rest().len() > 0 && t.kind@ == self.rest()[0],
                Err(e) => self.rest().len() == 0 && e == ParseError::UnexpectedEOF,
            },
    {
        proof {
            self.lemma_rest();
        }
        let tokens: &'a Vec<Token> = self.tokens;
        if self.pos < tokens.len() {
            Ok(&tokens[self.pos])
        } else {
            Err(ParseError::UnexpectedEOF)
        }
    }

    fn next_iter(&mut self) -> (r: Result<&'a Token, ParseError>)
        requires
            old(self).wf(),
        ensures
            final(self).wf(),
            final(self).same_tokens(old(self)),
            match r {
                Ok(t) => old(self).rest().len() > 0 && t.kind@ == old(self).rest()[0]
                    && final(self).rest() == old(self).rest().drop_first(),
                Err(e) => old(self).rest().len() == 0 && e == ParseError::UnexpectedEOF,
            },
    {
        proof {
            self.lemma_rest();
        }
        let tokens: &'a Vec<Token> = self.tokens;
        if self.pos < tokens.len() {
            let t = &tokens[self.pos];
            let ghost before = self.rest();
            self.pos = self.pos + 1;
            assert(self.rest() =~= before.drop_first());
            Ok(t)
        } else {
            Err(ParseError::UnexpectedEOF)
        }
    }

    /// Reads the next token, which must be of kind `next`.
    fn assert_next(&mut self, next: TokenKind) -> (r: Result<&'a Token, ParseError>)
        requires
            old(self).wf(),
        ensures
            final(self).wf(),
            final(self).same_tokens(old(self)),
            old(self).rest().len() == 0 ==> r == Err::<&Token, ParseError>(
                ParseError::UnexpectedEOF,
            ),
            old(self).rest().len() > 0 && old(self).rest()[0] != next@ ==> r == Err::<
                &Token,
                ParseError,
            >(ParseError::UnexpectedToken),
            old(self).rest().len() > 0 && old(self).rest()[0] == next@ ==> r is Ok
                && final(self).rest() == old(self).rest().drop_first(),
    {
        let n = self.next_iter()?;
        if !next.eq(&n.kind) {
            return Err(ParseError::UnexpectedToken);
        }
        Ok(n)
    }

    fn ident(&mut self) -> (r: Result<String, ParseError>)
        requires
            old(self).wf(),
        ensures
            final(self).wf(),
            final(self).same_tokens(old(self)),
            outcome(r, final(self).rest()) == spec_ident(old(self).rest()),
    {
        let t = self.next_iter()?;
        match &t.kind {
            TokenKind::Ident(s) => Ok(s.clone()),
            _ => Err(ParseError::FalseInner),
        }
    }

    fn literal(&mut self) -> (r: Result<usize, ParseError>)
        requires
            old(self).wf(),
        ensures
            final(self).wf(),
            final(self).same_tokens(old(self)),
            old(self).rest().len() == 0 ==> r == Err::<usize, ParseError>(
                ParseError::UnexpectedEOF,
            ),
            old(self).rest().len() > 0 ==> match old(self).rest()[0] {
                KindView::Literal(s) => match literal_value(s) {
                    Some(v) => r == Ok::<usize, ParseError>(v) && final(self).rest() == old(
                        self,
                    ).rest().drop_first(),
                    None => r == Err::<usize, ParseError>(ParseError::FalseInner),
                },
                _ => r == Err::<usize, ParseError>(ParseError::FalseInner),
            },
    {
        let t = self.next_iter()?;
        match t.inner_int() {
            Some(v) => Ok(v),
            None => Err(ParseError::FalseInner),
        }
    }

    fn term(&mut self) -> (r: Result<Expr, ParseError>)
        requires
            old(self).wf(),
        ensures
            final(self).wf(),
            final(self).same_tokens(old(self)),
            outcome(r, final(self).rest()) == spec_term(old(self).rest()),
    {
        let next = self.peek_iter()?;
        match &next.kind {
            TokenKind::Ident(_) => Ok(Expr::Ident(self.ident()?)),
            TokenKind::Literal(_) => Ok(Expr::Literal(self.literal()?)),
            _ => Err(ParseError::UnexpectedToken),
        }
    }

    fn expr(&mut self) -> (r: Result<Expr, ParseError>)
        requires
            old(self).wf(),
        ensures
            final(self).wf(),
            final(self).same_tokens(old(self)),
            outcome(r, final(self).rest()) == spec_expr(old(self).rest()),
    {
        let term = self.term()?;
        let e = self.expr_1(term, 0)?;
        proof {
            lemma_tree_of_unique(e@);
        }
        Ok(e)
    }

    /// Precedence climbing: extends `lhs` with the pairs `operator term` that follow,
    /// as long as each operator binds at least as tightly as `min_prec`.
    fn expr_1(&mut self, lhs: Expr, min_prec: usize) -> (r: Result<Expr, ParseError>)
        requires
            old(self).wf(),
            min_prec <= 3,
            well_grouped(lhs@),
            next_binds_looser(lhs@, old(self).rest()),
        ensures
            final(self).wf(),
            final(self).same_tokens(old(self)),
            match spec_tail(old(self).rest(), min_prec as nat) {
                Err(e) => r == Err::<Expr, ParseError>(e),
                Ok((os, es, rest)) => r is Ok && final(self).rest() == rest && well_grouped(
                    r->Ok_0@,
                ) && operands(r->Ok_0@) == operands(lhs@) + es && operators(r->Ok_0@)
                    == operators(lhs@) + os && (r->Ok_0@ == lhs@ || binding(r->Ok_0@)
                    >= min_prec),
            },
        decreases old(self).tokens.len() - old(self).pos,
    {
        let ghost rest0 = self.rest();
        let ghost lhs0 = lhs@;
        let ghost m = min_prec as nat;
        let ghost mut os_acc: Seq<Operator> = seq![];
        let ghost mut es_acc: Seq<SpecExpr> = seq![];
        let mut lhs = lhs;
        proof {
            lemma_join_empty(os_acc, es_acc, rest0, spec_tail(rest0, m));
            assert(operands(lhs0) + es_acc =~= operands(lhs0));
            assert(operators(lhs0) + os_acc =~= operators(lhs0));
        }
        loop
            invariant
                self.wf(),
                self.tokens == old(self).tokens,
                old(self).pos <= self.pos,
                m == min_prec as nat,
                rest0 == old(self).rest(),
                well_grouped(lhs@),
                next_binds_looser(lhs@, self.rest()),
                spec_tail(rest0, m) == join_tail(os_acc, es_acc, spec_tail(self.rest(), m)),
                operands(lhs@) == operands(lhs0) + es_acc,
                operators(lhs@) == operators(lhs0) + os_acc,
                lhs@ == lhs0 || binding(lhs@) >= m,
            ensures
                self.wf(),
                self.tokens == old(self).tokens,
                tail_stops(self.rest(), m),
                spec_tail(rest0, m) == join_tail(os_acc, es_acc, spec_tail(self.rest(), m)),
                operands(lhs@) == operands(lhs0) + es_acc,
                operators(lhs@) == operators(lhs0) + os_acc,
                well_grouped(lhs@),
                lhs@ == lhs0 || binding(lhs@) >= m,
            decreases self.tokens.len() - self.pos,
        {
            let ghost rest1 = self.rest();
            let ghost pos1 = self.pos;
            assert(spec_tail(rest0, m) == join_tail(os_acc, es_acc, spec_tail(rest1, m)));
            let lookahead = match self.peek_iter() {
                Ok(t) => t,
                Err(_) => break,
            };
            let op = match lookahead.inner_operator() {
                Some(c) => match Operator::from_char(c) {
                    Some(o) => o,
                    None => break,
                },
                None => break,
            };
            let prec = op.precedence();
            if prec < min_prec {
                break;
            }
            proof {
                lemma_tail_step(rest1, m, op);
                self.lemma_rest();
            }
            self.next_iter()?;
            let ghost rest2 = self.rest();
            assert(rest2 == rest1.drop_first());
            let mut rhs = match self.term() {
                Ok(t) => t,
                Err(e) => {
                    assert(spec_term(rest2) == Err::<(SpecExpr, Seq<KindView>), ParseError>(e));
                    assert(spec_tail(rest1, m) == Err::<
                        (Seq<Operator>, Seq<SpecExpr>, Seq<KindView>),
                        ParseError,
                    >(e));
                    return Err(e);
                },
            };
            let ghost t = rhs@;
            let ghost rest3 = self.rest();
            let ghost p1 = (prec + 1) as nat;
            let ghost mut os2: Seq<Operator> = seq![];
            let ghost mut es2: Seq<SpecExpr> = seq![];
            proof {
                self.lemma_rest();
                lemma_join_empty(os2, es2, rest3, spec_tail(rest3, m));
                lemma_join_empty(os2, es2, rest3, spec_tail(rest3, p1));
                assert(seq![t] + es2 =~= seq![t]);
            }
            loop
                invariant
                    self.wf(),
                    self.tokens == old(self).tokens,
                    pos1 < self.pos,
                    old(self).pos <= pos1,
                    m == min_prec as nat,
                    p1 == prec + 1,
                    prec == crate::exprs::prec(op),
                    m <= prec,
                    rest0 == old(self).rest(),
                    spec_tail(rest0, m) == join_tail(os_acc, es_acc, spec_tail(rest1, m)),
                    spec_tail(rest1, m) == join_tail(seq![op], seq![t], spec_tail(rest3, m)),
                    well_grouped(rhs@),
                    binding(rhs@) > prec,
                    binding(rhs@) == 3 || tail_stops(self.rest(), p1),
                    spec_tail(rest3, p1) == join_tail(os2, es2, spec_tail(self.rest(), p1)),
                    spec_tail(rest3, m) == join_tail(os2, es2, spec_tail(self.rest(), m)),
                    operands(rhs@) == seq![t] + es2,
                    operators(rhs@) == os2,
                ensures
                    self.wf(),
                    self.tokens == old(self).tokens,
                    pos1 < self.pos,
                    well_grouped(rhs@),
                    binding(rhs@) > prec,
                    tail_stops(self.rest(), p1),
                    spec_tail(rest3, m) == join_tail(os2, es2, spec_tail(self.rest(), m)),
                    operands(rhs@) == seq![t] + es2,
                    operators(rhs@) == os2,
                decreases self.tokens.len() - self.pos,
            {
                let la = match self.peek_iter() {
                    Ok(x) => x,
                    Err(_) => break,
                };
                let lop = match la.inner_operator() {
                    Some(c) => match Operator::from_char(c) {
                        Some(o) => o,
                        None => break,
                    },
                    None => break,
                };
                if lop.precedence() <= prec {
                    break;
                }
                let ghost rest4 = self.rest();
                let ghost rhs_before = rhs@;
                proof {
                    lemma_tail_split(rest4, m, p1);
                    lemma_tail_shrinks(rest4, p1);
                    lemma_tail_stop(rest4, p1);
                    self.lemma_rest();
                }
                rhs = match self.expr_1(rhs, prec + 1) {
                    Ok(x) => x,
                    Err(e) => {
                        assert(spec_tail(rest3, m) == join_tail(os2, es2, spec_tail(rest4, m)));
                        assert(spec_tail(rest4, m) == Err::<
                            (Seq<Operator>, Seq<SpecExpr>, Seq<KindView>),
                            ParseError,
                        >(e));
                        assert(spec_tail(rest1, m) == join_tail(seq![op], seq![t], spec_tail(rest3, m)));
                        return Err(e);
                    },
                };
                proof {
                    self.lemma_rest();
                    let (o5, e5, r5) = spec_tail(rest4, p1)->Ok_0;
                    lemma_join_assoc(os2, es2, o5, e5, spec_tail(r5, p1));
                    lemma_join_assoc(os2, es2, o5, e5, spec_tail(r5, m));
                    assert(seq![t] + es2 + e5 =~= seq![t] + (es2 + e5));
                    os2 = os2 + o5;
                    es2 = es2 + e5;
                }
            }
            lhs = Expr::BinOp(Op { op1: Box::new(lhs), operator: op, op2: Box::new(rhs) });
            proof {
                let x = spec_tail(self.rest(), m);
                lemma_join_assoc(seq![op], seq![t], os2, es2, x);
                lemma_join_assoc(os_acc, es_acc, seq![op] + os2, seq![t] + es2, x);
                assert(operators(lhs@) =~= operators(lhs0) + (os_acc + (seq![op] + os2)));
                assert(operands(lhs@) =~= operands(lhs0) + (es_acc + (seq![t] + es2)));
                os_acc = os_acc + (seq![op] + os2);
                es_acc = es_acc + (seq![t] + es2);
            }
        }
        proof {
            lemma_join_empty(os_acc, es_acc, self.rest(), spec_tail(self.rest(), m));
        }
        Ok(lhs)
    }

    /// `(`, expressions, and `)`.
    fn paren_expr(&mut self) -> (r: Result<ParenExpr, ParseError>)
        requires
            old(self).wf(),
        ensures
            final(self).wf(),
            final(self).same_tokens(old(self)),
            outcome(r, final(self).rest()) == spec_paren_expr(old(self).rest()),
    {
        proof {
            self.lemma_rest();
        }
        self.assert_next(TokenKind::OpenParen)?;
        let mut block: Vec<Expr> = Vec::new();
        proof {
            lemma_prepend_nil(exprs_view(block@), self.rest(), spec_paren_items(self.rest()));
        }
        loop
            invariant
                self.wf(),
                self.tokens == old(self).tokens,
                spec_paren_expr(old(self).rest()) == prepend(
                    exprs_view(block@),
                    spec_paren_items(self.rest()),
                ),
            ensures
                self.wf(),
                self.tokens == old(self).tokens,
                self.rest().len() > 0 && self.rest()[0] is CloseParen,
                spec_paren_expr(old(self).rest()) == prepend(
                    exprs_view(block@),
                    spec_paren_items(self.rest()),
                ),
            decreases self.tokens.len() - self.pos,
        {
            let next = self.peek_iter()?;
            if matches!(next.kind, TokenKind::CloseParen) {
                break;
            }
            let ghost before = self.rest();
            let e = self.expr()?;
            proof {
                lemma_expr_advances(before);
                self.lemma_rest();
                lemma_prepend_assoc(exprs_view(block@), seq![e@], spec_paren_items(self.rest()));
            }
            let ghost old_block = block@;
            block.push(e);
            proof {
                assert(block@.drop_last() =~= old_block);
                assert(exprs_view(old_block) + seq![e@] =~= exprs_view(block@));
            }
        }
        proof {
            lemma_prepend_nil(
                exprs_view(block@),
                self.rest().drop_first(),
                spec_paren_items(self.rest()),
            );
        }
        self.assert_next(TokenKind::CloseParen)?;
        Ok(ParenExpr(block))
    }

    /// `(`, comma-separated identifiers, and `)`.
    fn paren_ident(&mut self) -> (r: Result<ParenIdent, ParseError>)
        requires
            old(self).wf(),
        ensures
            final(self).wf(),
            final(self).same_tokens(old(self)),
            outcome(r, final(self).rest()) == spec_paren_ident(old(self).rest()),
    {
        proof {
            self.lemma_rest();
        }
        self.assert_next(TokenKind::OpenParen)?;
        let mut block: Vec<Ident> = Vec::new();
        proof {
            lemma_prepend_nil(idents_view(block@), self.rest(), spec_ident_items(self.rest()));
        }
        loop
            invariant
                self.wf(),
                self.tokens == old(self).tokens,
                spec_paren_ident(old(self).rest()) == prepend(
                    idents_view(block@),
                    spec_ident_items(self.rest()),
                ),
            ensures
                self.wf(),
                self.tokens == old(self).tokens,
                self.rest().len() == 0 || self.rest()[0] is CloseParen,
                spec_paren_ident(old(self).rest()) == prepend(
                    idents_view(block@),
                    spec_ident_items(self.rest()),
                ),
            decreases self.tokens.len() - self.pos,
        {
            let next = match self.peek_iter() {
                Ok(t) => t,
                Err(_) => break,
            };
            if matches!(next.kind, TokenKind::CloseParen) {
                break;
            }
            let ghost before = self.rest();
            let id = self.ident()?;
            let ghost old_block = block@;
            block.push(id);
            let after = self.peek_iter()?;
            if !matches!(after.kind, TokenKind::CloseParen) {
                self.assert_next(TokenKind::Comma)?;
            }
            proof {
                self.lemma_rest();
                let s = before[0]->Ident_0;
                if before.len() > 1 && before[1] is Comma {
                    assert(before.drop_first().drop_first() == self.rest());
                }
                lemma_prepend_assoc(idents_view(old_block), seq![s], spec_ident_items(self.rest()));
                assert(idents_view(old_block) + seq![s] =~= idents_view(block@));
            }
        }
        proof {
            if self.rest().len() > 0 {
                lemma_prepend_nil(
                    idents_view(block@),
                    self.rest().drop_first(),
                    spec_ident_items(self.rest()),
                );
            }
        }
        self.assert_next(TokenKind::CloseParen)?;
        Ok(ParenIdent(block))
    }

    fn statement(&mut self) -> (r: Result<Statement, ParseError>)
        requires
            old(self).wf(),
        ensures
            final(self).wf(),
            final(self).same_tokens(old(self)),
            outcome(r, final(self).rest()) == spec_statement(old(self).rest()),
        decreases old(self).tokens.len() - old(self).pos,
    {
        proof {
            self.lemma_rest();
        }
        let ghost ts = self.rest();
        let next = self.peek_iter()?;
        match &next.kind {
            TokenKind::Keyword(KeywordKind::If) => {
                self.assert_next(TokenKind::Keyword(KeywordKind::If))?;
                proof {
                    self.lemma_rest();
                }
                let paren_expr = self.paren_expr()?;
                proof {
                    lemma_paren_items_advance(ts.drop_first().drop_first());
                    self.lemma_rest();
                }
                let stmt = self.statement()?;
                Ok(Statement::If(IfStatement { paren: paren_expr, statement: Box::new(stmt) }))
            },
            TokenKind::Keyword(KeywordKind::Fn) => {
                self.assert_next(TokenKind::Keyword(KeywordKind::Fn))?;
                proof {
                    self.lemma_rest();
                }
                let ident = self.ident()?;
                let ghost r1 = self.rest();
                let paren_ident = self.paren_ident()?;
                proof {
                    lemma_ident_items_advance(r1.drop_first());
                    self.lemma_rest();
                }
                let stmt = self.statement()?;
                Ok(
                    Statement::Fn(
                        FnStatement { ident, paren_ident, statement: Box::new(stmt) },
                    ),
                )
            },
            TokenKind::OpenBrace => {
                self.assert_next(TokenKind::OpenBrace)?;
                let ghost items0 = self.rest();
                let mut block: Vec<Statement> = Vec::new();
                proof {
                    self.lemma_rest();
                    lemma_prepend_nil(stmts_view(block@), items0, spec_block_items(items0));
                }
                loop
                    invariant
                        self.wf(),
                        self.tokens == old(self).tokens,
                        old(self).pos < self.pos,
                        ts == old(self).rest(),
                        ts.len() > 0,
                        ts[0] is OpenBrace,
                        items0 == ts.drop_first(),
                        spec_block_items(items0) == prepend(
                            stmts_view(block@),
                            spec_block_items(self.rest()),
                        ),
                    ensures
                        self.wf(),
                        self.tokens == old(self).tokens,
                        self.rest().len() > 0 && self.rest()[0] is CloseBrace,
                        spec_block_items(items0) == prepend(
                            stmts_view(block@),
                            spec_block_items(self.rest()),
                        ),
                    decreases self.tokens.len() - self.pos,
                {
                    let next = self.peek_iter()?;
                    if matches!(next.kind, TokenKind::CloseBrace) {
                        break;
                    }
                    let ghost before = self.rest();
                    let s = self.statement()?;
                    proof {
                        lemma_statement_advances(before);
                        self.lemma_rest();
                        lemma_prepend_assoc(
                            stmts_view(block@),
                            seq![s@],
                            spec_block_items(self.rest()),
                        );
                    }
                    let ghost old_block = block@;
                    block.push(s);
                    proof {
                        assert(block@.drop_last() =~= old_block);
                        assert(stmts_view(old_block) + seq![s@] =~= stmts_view(block@));
                    }
                }
                proof {
                    lemma_prepend_nil(
                        stmts_view(block@),
                        self.rest().drop_first(),
                        spec_block_items(self.rest()),
                    );
                }
                self.assert_next(TokenKind::CloseBrace)?;
                Ok(Statement::Block(BlockStatement(block)))
            },
            _ => {
                let expr = self.expr()?;
                Ok(Statement::Expr(expr))
            },
        }
    }

    /// Parses a whole token sequence, from which comments, whitespace and unknown
    /// characters have been taken out, into a program. The first error ends the parse.
    pub fn parse(tokens: Vec<Token>) -> (r: Result<AST, ParseError>)
        ensures
            view_result(r) == spec_program(kinds(tokens@)),
    {
        let mut parser = Parser { tokens: &tokens, pos: 0 };
        let mut body: Vec<Statement> = Vec::new();
        proof {
            assert(parser.rest() =~= kinds(tokens@));
            assert(stmts_view(body@) + seq![] =~= stmts_view(body@));
            if let Ok(ys) = spec_program(parser.rest()) {
                assert(seq![] + ys =~= ys);
            }
        }
        while parser.peek_iter().is_ok()
            invariant
                parser.wf(),
                parser.tokens@ == tokens@,
                spec_program(kinds(tokens@)) == prefix_program(
                    stmts_view(body@),
                    spec_program(parser.rest()),
                ),
            decreases parser.tokens.len() - parser.pos,
        {
            let ghost before = parser.rest();
            proof {
                parser.lemma_rest();
            }
            let stmt = parser.statement()?;
            proof {
                lemma_statement_advances(before);
                parser.lemma_rest();
                if let Ok(ys) = spec_program(parser.rest()) {
                    assert(stmts_view(body@) + (seq![stmt@] + ys) =~= stmts_view(body@) + seq![
                        stmt@,
                    ] + ys);
                }
            }
            let ghost old_body = body@;
            body.push(stmt);
            proof {
                assert(body@.drop_last() =~= old_body);
                assert(stmts_view(old_body) + seq![stmt@] =~= stmts_view(body@));
            }
        }
        proof {
            parser.lemma_rest();
            assert(stmts_view(body@) + seq![] =~= stmts_view(body@));
        }
        Ok(AST { program: body })
    }
}

/// Drops the tokens that carry no meaning for the grammar: comments, whitespace
/// and unknown characters.
pub fn filter_tokens(tokens: Vec<Token>) -> (r: Vec<Token>)
    ensures
        tokens_view(r@) == significant(tokens_view(tokens@)),
{
    let ghost all = tokens@;
    let mut out: Vec<Token> = Vec::new();
    proof {
        reveal(Seq::filter);
        assert(tokens_view(all.take(0)) =~= seq![]);
        assert(tokens_view(out@) =~= seq![]);
    }
    for token in it: tokens.into_iter()
        invariant
            it.seq() == all,
            tokens_view(out@) == significant(tokens_view(all.take(it.index() as int))),
    {
        let ghost i = it.index() as int;
        let ghost prev = tokens_view(out@);
        proof {
            assert(all.take(i + 1) =~= all.take(i).push(token));
            assert(tokens_view(all.take(i + 1)) =~= tokens_view(all.take(i)).push(token@));
            lemma_significant_push(tokens_view(all.take(i)), token@);
        }
        let keep = match token.kind {
            TokenKind::Comment(_) | TokenKind::Unknown | TokenKind::Whitespace => false,
            _ => true,
        };
        if keep {
            out.push(token);
            proof {
                assert(tokens_view(out@) =~= prev.push(out@.last()@));
            }
        }
    }
    proof {
        assert(all.take(all.len() as int) =~= all);
    }
    out
}

/// Lexes `source`, drops the tokens without meaning, and parses the rest.
pub fn parse_source(source: &str) -> (r: Result<AST, ParseError>)
    ensures
        view_result(r) == spec_program(token_kinds(significant(lex(source@)))),
{
    let tokens = Cursor::tokenize(source);
    let filtered = filter_tokens(tokens);
    proof {
        assert(kinds(filtered@) =~= token_kinds(tokens_view(filtered@)));
    }
    Parser::parse(filtered)
}

} // verus!
