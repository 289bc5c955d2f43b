//! The syntax tree, its mathematical model, and how each node is rendered as text.
use vstd::prelude::*;
use vstd::string::StringExecFns;

verus! {

/// A binary operator of an expression.
#[derive(Debug, Clone, Copy, PartialEq, Eq, Structural)]
pub enum Operator {
    Add,
    Subtract,
    Multiply,
    Divide,
    LessThan,
}

/// The character that stands for `o` in the source and in the output.
pub open spec fn symbol(o: Operator) -> char {
    match o {
        Operator::Add => '+',
        Operator::Subtract => '-',
        Operator::Multiply => '*',
        Operator::Divide => '/',
        Operator::LessThan => '<',
    }
}

/// The operator that `c` stands for, if any.
pub open spec fn operator_of(c: char) -> Option<Operator> {
    if c == '+' {
        Some(Operator::Add)
    } else if c == '-' {
        Some(Operator::Subtract)
    } else if c == '*' {
        Some(Operator::Multiply)
    } else if c == '/' {
        Some(Operator::Divide)
    } else if c == '<' {
        Some(Operator::LessThan)
    } else {
        None
    }
}

/// Binding strength: `<` binds loosest, `+` and `-` tighter, `*` and `/` tightest.
pub open spec fn prec(o: Operator) -> nat {
    match o {
        Operator::LessThan => 0,
        Operator::Add | Operator::Subtract => 1,
        Operator::Multiply | Operator::Divide => 2,
    }
}

impl Operator {
    pub fn precedence(&self) -> (r: usize)
        ensures
            r == prec(*self),
    {
        match self {
            Operator::LessThan => 0,
            Operator::Add | Operator::Subtract => 1,
            Operator::Multiply | Operator::Divide => 2,
        }
    }

    pub fn op_to_char(&self) -> (r: char)
        ensures
            r == symbol(*self),
    {
        match self {
            Operator::Add => '+',
            Operator::Subtract => '-',
            Operator::Multiply => '*',
            Operator::Divide => '/',
            Operator::LessThan => '<',
        }
    }

    pub fn from_char(c: char) -> (r: Option<Operator>)
        ensures
            r == operator_of(c),
    {
        if c == '+' {
            Some(Operator::Add)
        } else if c == '-' {
            Some(Operator::Subtract)
        } else if c == '*' {
            Some(Operator::Multiply)
        } else if c == '/' {
            Some(Operator::Divide)
        } else if c == '<' {
            Some(Operator::LessThan)
        } else {
            None
        }
    }
}

pub type Ident = String;

pub type Literal = usize;

#[derive(Debug, PartialEq)]
pub enum Statement {
    If(IfStatement),
    Fn(FnStatement),
    Block(BlockStatement),
    Expr(Expr),
    /// Not produced by the parser; callers may build it.
    Assignment(AssignmentStatement),
}

#[derive(Debug, PartialEq)]
pub struct FnStatement {
    pub ident: Ident,
    pub paren_ident: ParenIdent,
    pub statement: Box<Statement>,
}

/// A parenthesized list of expressions.
#[derive(Debug, PartialEq)]
pub struct ParenExpr(pub Vec<Expr>);

/// A parenthesized list of parameter names.
#[derive(Debug, PartialEq)]
pub struct ParenIdent(pub Vec<Ident>);

#[derive(Debug, PartialEq)]
pub struct BlockStatement(pub Vec<Statement>);

#[derive(Debug, PartialEq)]
pub struct IfStatement {
    pub paren: ParenExpr,
    pub statement: Box<Statement>,
}

#[derive(Debug, PartialEq)]
pub enum Expr {
    Ident(Ident),
    Literal(Literal),
    ParenExpr(ParenExpr),
    BinOp(Op),
}

#[derive(Debug, PartialEq)]
pub struct AssignmentStatement {
    pub ident: Ident,
    pub val: Box<Expr>,
}

/// A binary operation `op1 operator op2`.
#[derive(Debug, PartialEq)]
pub struct Op {
    pub op1: Box<Expr>,
    pub op2: Box<Expr>,
    pub operator: Operator,
}

/// An expression, with names as sequences of characters.
pub enum SpecExpr {
    Ident(Seq<char>),
    Literal(usize),
    Paren(Seq<SpecExpr>),
    BinOp(Box<SpecExpr>, Operator, Box<SpecExpr>),
}

/// A statement, with names as sequences of characters.
pub enum SpecStatement {
    If(Seq<SpecExpr>, Box<SpecStatement>),
    Fn(Seq<char>, Seq<Seq<char>>, Box<SpecStatement>),
    Block(Seq<SpecStatement>),
    Expr(SpecExpr),
    Assignment(Seq<char>, SpecExpr),
}

pub open spec fn expr_view(e: Expr) -> SpecExpr
    decreases e,
{
    match e {
        Expr::Ident(s) => SpecExpr::Ident(s@),
        Expr::Literal(v) => SpecExpr::Literal(v),
        Expr::ParenExpr(p) => SpecExpr::Paren(exprs_view(p.0@)),
        Expr::BinOp(op) => SpecExpr::BinOp(
            Box::new(expr_view(*op.op1)),
            op.operator,
            Box::new(expr_view(*op.op2)),
        ),
    }
}

pub open spec fn exprs_view(s: Seq<Expr>) -> Seq<SpecExpr>
    decreases s,
{
    if s.len() == 0 {
        seq![]
    } else {
        exprs_view(s.drop_last()).push(expr_view(s.last()))
    }
}

pub open spec fn idents_view(s: Seq<Ident>) -> Seq<Seq<char>> {
    s.map_values(|i: Ident| i@)
}

pub open spec fn stmt_view(s: Statement) -> SpecStatement
    decreases s,
{
    match s {
        Statement::If(i) => SpecStatement::If(exprs_view(i.paren.0@), Box::new(stmt_view(*i.statement))),
        Statement::Fn(f) => SpecStatement::Fn(
            f.ident@,
            idents_view(f.paren_ident.0@),
            Box::new(stmt_view(*f.statement)),
        ),
        Statement::Block(b) => SpecStatement::Block(stmts_view(b.0@)),
        Statement::Expr(e) => SpecStatement::Expr(expr_view(e)),
        Statement::Assignment(a) => SpecStatement::Assignment(a.ident@, expr_view(*a.val)),
    }
}

pub open spec fn stmts_view(s: Seq<Statement>) -> Seq<SpecStatement>
    decreases s,
{
    if s.len() == 0 {
        seq![]
    } else {
        stmts_view(s.drop_last()).push(stmt_view(s.last()))
    }
}

impl View for Expr {
    type V = SpecExpr;

    open spec fn view(&self) -> SpecExpr {
        expr_view(*self)
    }
}

impl View for Statement {
    type V = SpecStatement;

    open spec fn view(&self) -> SpecStatement {
        stmt_view(*self)
    }
}

impl View for ParenExpr {
    type V = Seq<SpecExpr>;

    open spec fn view(&self) -> Seq<SpecExpr> {
        exprs_view(self.0@)
    }
}

impl View for ParenIdent {
    type V = Seq<Seq<char>>;

    open spec fn view(&self) -> Seq<Seq<char>> {
        idents_view(self.0@)
    }
}

impl View for BlockStatement {
    type V = Seq<SpecStatement>;

    open spec fn view(&self) -> Seq<SpecStatement> {
        stmts_view(self.0@)
    }
}

pub proof fn lemma_exprs_view(s: Seq<Expr>)
    ensures
        exprs_view(s).len() == s.len(),
        forall|i: int| 0 <= i < s.len() ==> #[trigger] exprs_view(s)[i] == s[i]@,
    decreases s.len(),
{
    if s.len() > 0 {
        lemma_exprs_view(s.drop_last());
    }
}

pub proof fn lemma_stmts_view(s: Seq<Statement>)
    ensures
        stmts_view(s).len() == s.len(),
        forall|i: int| 0 <= i < s.len() ==> #[trigger] stmts_view(s)[i] == s[i]@,
    decreases s.len(),
{
    if s.len() > 0 {
        lemma_stmts_view(s.drop_last());
    }
}

pub open spec fn digit_char(d: nat) -> char {
    seq!['0', '1', '2', '3', '4', '5', '6', '7', '8', '9'][d as int]
}

/// The decimal digits of `n`, most significant first.
pub open spec fn decimal(n: nat) -> Seq<char>
    decreases n,
{
    if n < 10 {
        seq![digit_char(n)]
    } else {
        decimal(n / 10).push(digit_char(n % 10))
    }
}

/// The concatenation of the texts `ss`.
pub open spec fn concat(ss: Seq<Seq<char>>) -> Seq<char>
    decreases ss.len(),
{
    if ss.len() == 0 {
        seq![]
    } else {
        concat(ss.drop_last()) + ss.last()
    }
}

/// The text of an expression: names as they are, numbers in decimal, `(` and `)`
/// around a list, and `left op right` for a binary operation.
pub open spec fn render_expr(e: SpecExpr) -> Seq<char>
    decreases e,
{
    match e {
        SpecExpr::Ident(s) => s,
        SpecExpr::Literal(v) => decimal(v as nat),
        SpecExpr::Paren(es) => seq!['('] + render_exprs(es) + seq![')'],
        SpecExpr::BinOp(l, o, r) => render_expr(*l) + seq![' ', symbol(o), ' '] + render_expr(*r),
    }
}

/// The texts of the expressions `es`, one after the other.
pub open spec fn render_exprs(es: Seq<SpecExpr>) -> Seq<char>
    decreases es,
{
    if es.len() == 0 {
        seq![]
    } else {
        render_exprs(es.drop_last()) + render_expr(es.last())
    }
}

/// The text of a statement in the output syntax.
pub open spec fn render_stmt(s: SpecStatement) -> Seq<char>
    decreases s,
{
    match s {
        SpecStatement::If(c, b) => seq!['i', 'f', ' ', '('] + render_exprs(c) + seq![')', ' ']
            + render_stmt(*b),
        SpecStatement::Fn(n, ps, b) => seq!['v', 'o', 'i', 'd', ' '] + n + seq!['('] + concat(ps)
            + seq![')', ' '] + render_stmt(*b),
        SpecStatement::Block(ss) => seq!['{'] + render_stmts(ss) + seq!['}'],
        SpecStatement::Expr(e) => render_expr(e) + seq![';', '\n'],
        SpecStatement::Assignment(n, v) => n + seq![' ', '=', ' '] + render_expr(v),
    }
}

/// The texts of the statements `ss`, one after the other.
pub open spec fn render_stmts(ss: Seq<SpecStatement>) -> Seq<char>
    decreases ss,
{
    if ss.len() == 0 {
        seq![]
    } else {
        render_stmts(ss.drop_last()) + render_stmt(ss.last())
    }
}

fn digit(d: usize) -> (r: char)
    requires
        d < 10,
    ensures
        r == digit_char(d as nat),
{
    match d {
        0 => '0',
        1 => '1',
        2 => '2',
        3 => '3',
        4 => '4',
        5 => '5',
        6 => '6',
        7 => '7',
        8 => '8',
        _ => '9',
    }
}

fn push_decimal(out: &mut String, v: usize)
    ensures
        final(out)@ == old(out)@ + decimal(v as nat),
    decreases v,
{
    if v >= 10 {
        push_decimal(out, v / 10);
    }
    out.push(digit(v % 10));
    proof {
        assert(final(out)@ =~= old(out)@ + decimal(v as nat));
    }
}

impl Expr {
    /// Appends the text of this expression to `out`.
    pub fn render(&self, out: &mut String)
        ensures
            final(out)@ == old(out)@ + render_expr(self@),
        decreases self,
    {
        match self {
            Expr::Ident(i) => {
                out.append(i.as_str());
            },
            Expr::Literal(v) => {
                push_decimal(out, *v);
            },
            Expr::ParenExpr(p) => {
                p.render(out);
            },
            Expr::BinOp(op) => {
                op.render(out);
            },
        }
    }

    /// The text of this expression.
    pub fn to_string(&self) -> (r: String)
        ensures
            r@ == render_expr(self@),
    {
        let mut out = String::new();
        self.render(&mut out);
        proof {
            assert(out@ =~= render_expr(self@));
        }
        out
    }
}

impl Op {
    /// Appends `op1 operator op2` to `out`.
    pub fn render(&self, out: &mut String)
        ensures
            final(out)@ == old(out)@ + render_expr(
                SpecExpr::BinOp(Box::new(self.op1@), self.operator, Box::new(self.op2@)),
            ),
        decreases self,
    {
        let ghost start = out@;
        self.op1.render(out);
        out.push(' ');
        out.push(self.operator.op_to_char());
        out.push(' ');
        self.op2.render(out);
        proof {
            assert(out@ =~= start + render_expr(
                SpecExpr::BinOp(Box::new(self.op1@), self.operator, Box::new(self.op2@)),
            ));
        }
    }
}

impl ParenExpr {
    /// Appends `(`, the expressions one after the other, and `)` to `out`.
    pub fn render(&self, out: &mut String)
        ensures
            final(out)@ == old(out)@ + seq!['('] + render_exprs(self@) + seq![')'],
        decreases self,
    {
        let ghost start = out@;
        out.push('(');
        let mut i: usize = 0;
        proof {
            assert(self.0@.take(0) =~= seq![]);
        }
        while i < self.0.len()
            invariant
                i <= self.0.len(),
                out@ == start + seq!['('] + render_exprs(exprs_view(self.0@.take(i as int))),
            decreases self.0.len() - i,
        {
            let ghost before = out@;
            self.0[i].render(out);
            proof {
                let t = self.0@.take(i + 1);
                let prev = exprs_view(self.0@.take(i as int));
                assert(t.drop_last() =~= self.0@.take(i as int));
                assert(t.last() == self.0@[i as int]);
                assert(exprs_view(t) == prev.push(self.0@[i as int]@));
                assert(prev.push(self.0@[i as int]@).drop_last() =~= prev);
                assert(out@ =~= start + seq!['('] + render_exprs(exprs_view(t)));
            }
            i = i + 1;
        }
        out.push(')');
        proof {
            assert(self.0@.take(self.0.len() as int) =~= self.0@);
            assert(out@ =~= start + seq!['('] + render_exprs(self@) + seq![')']);
        }
    }
}

impl ParenIdent {
    /// Appends `(`, the names one after the other, and `)` to `out`.
    pub fn render(&self, out: &mut String)
        ensures
            final(out)@ == old(out)@ + seq!['('] + concat(self@) + seq![')'],
    {
        let ghost start = out@;
        out.push('(');
        let mut i: usize = 0;
        proof {
            assert(idents_view(self.0@.take(0)) =~= seq![]);
        }
        while i < self.0.len()
            invariant
                i <= self.0.len(),
                out@ == start + seq!['('] + concat(idents_view(self.0@.take(i as int))),
            decreases self.0.len() - i,
        {
            out.append(self.0[i].as_str());
            proof {
                let t = idents_view(self.0@.take(i + 1));
                assert(t.drop_last() =~= idents_view(self.0@.take(i as int)));
                assert(out@ =~= start + seq!['('] + concat(t));
            }
            i = i + 1;
        }
        out.push(')');
        proof {
            assert(self.0@.take(self.0.len() as int) =~= self.0@);
            assert(out@ =~= start + seq!['('] + concat(self@) + seq![')']);
        }
    }
}

impl BlockStatement {
    /// Appends `{`, the statements one after the other, and `}` to `out`.
    pub fn render(&self, out: &mut String)
        ensures
            final(out)@ == old(out)@ + seq!['{'] + render_stmts(self@) + seq!['}'],
        decreases self,
    {
        let ghost start = out@;
        out.push('{');
        let mut i: usize = 0;
        proof {
            assert(self.0@.take(0) =~= seq![]);
        }
        while i < self.0.len()
            invariant
                i <= self.0.len(),
                out@ == start + seq!['{'] + render_stmts(stmts_view(self.0@.take(i as int))),
            decreases self.0.len() - i,
        {
            self.0[i].render(out);
            proof {
                let t = self.0@.take(i + 1);
                let prev = stmts_view(self.0@.take(i as int));
                assert(t.drop_last() =~= self.0@.take(i as int));
                assert(t.last() == self.0@[i as int]);
                assert(stmts_view(t) == prev.push(self.0@[i as int]@));
                assert(prev.push(self.0@[i as int]@).drop_last() =~= prev);
                assert(out@ =~= start + seq!['{'] + render_stmts(stmts_view(t)));
            }
            i = i + 1;
        }
        out.push('}');
        proof {
            assert(self.0@.take(self.0.len() as int) =~= self.0@);
            assert(out@ =~= start + seq!['{'] + render_stmts(self@) + seq!['}']);
        }
    }
}

impl IfStatement {
    /// Appends `if (condition) body` to `out`.
    pub fn render(&self, out: &mut String)
        ensures
            final(out)@ == old(out)@ + render_stmt(
                SpecStatement::If(self.paren@, Box::new(self.statement@)),
            ),
        decreases self,
    {
        let ghost start = out@;
        out.append("if ");
        self.paren.render(out);
        out.push(' ');
        self.statement.render(out);
        proof {
            reveal_strlit("if ");
            assert(out@ =~= start + render_stmt(
                SpecStatement::If(self.paren@, Box::new(self.statement@)),
            ));
        }
    }
}

impl FnStatement {
    /// Appends `void name(params) body` to `out`.
    pub fn render(&self, out: &mut String)
        ensures
            final(out)@ == old(out)@ + render_stmt(
                SpecStatement::Fn(self.ident@, self.paren_ident@, Box::new(self.statement@)),
            ),
        decreases self,
    {
        let ghost start = out@;
        out.append("void ");
        out.append(self.ident.as_str());
        self.paren_ident.render(out);
        out.push(' ');
        self.statement.render(out);
        proof {
            reveal_strlit("void ");
            assert(out@ =~= start + render_stmt(
                SpecStatement::Fn(self.ident@, self.paren_ident@, Box::new(self.statement@)),
            ));
        }
    }
}

impl AssignmentStatement {
    /// Appends `name = value` to `out`.
    pub fn render(&self, out: &mut String)
        ensures
            final(out)@ == old(out)@ + render_stmt(
                SpecStatement::Assignment(self.ident@, self.val@),
            ),
    {
        let ghost start = out@;
        out.append(self.ident.as_str());
        out.append(" = ");
        self.val.render(out);
        proof {
            reveal_strlit(" = ");
            assert(out@ =~= start + render_stmt(SpecStatement::Assignment(self.ident@, self.val@)));
        }
    }
}

impl Statement {
    /// Appends the text of this statement to `out`.
    pub fn render(&self, out: &mut String)
        ensures
            final(out)@ == old(out)@ + render_stmt(self@),
        decreases self,
    {
        match self {
            Statement::If(i) => i.render(out),
            Statement::Fn(f) => f.render(out),
            Statement::Block(b) => {
                let ghost start = out@;
                b.render(out);
            },
            Statement::Expr(e) => {
                let ghost start = out@;
                e.render(out);
                out.push(';');
                out.push('\n');
                proof {
                    assert(out@ =~= start + render_stmt(self@));
                }
            },
            Statement::Assignment(a) => a.render(out),
        }
    }

    /// The text of this statement.
    pub fn to_string(&self) -> (r: String)
        ensures
            r@ == render_stmt(self@),
    {
        let mut out = String::new();
        self.render(&mut out);
        proof {
            assert(out@ =~= render_stmt(self@));
        }
        out
    }
}

} // verus!
