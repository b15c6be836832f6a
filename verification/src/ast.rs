//! The syntax tree: a program is an ordered sequence of statements, statements
//! and expressions are closed tagged variants, and every composite node owns
//! its children. Each node kind has a ghost view and a deterministic,
//! whitespace-normalized rendering used by tests and tooling.

use vstd::prelude::*;
use vstd::string::StringExecFns;

use crate::token::token_text;
use crate::token::Token;
use crate::token::TokenView;

verus! {

/// A statement of the language.
#[derive(Debug)]
pub enum Statement {
    Let { name: String, expr: Expression },
    Return { expr: Expression },
    Expression { expr: Expression },
    Block { body: Vec<Statement> },
}

/// An expression of the language.
#[derive(Debug)]
pub enum Expression {
    Identifier(String),
    Boolean(bool),
    Int(String),
    PrefixExpr { op: Token, right: Box<Expression> },
    InfixExpr { op: Token, left: Box<Expression>, right: Box<Expression> },
    If {
        condition: Box<Expression>,
        consequence: Box<Statement>,
        alternative: Option<Box<Statement>>,
    },
    Function { parameters: Vec<String>, body: Box<Statement> },
    Call { function: Box<Expression>, arguments: Vec<Expression> },
}

/// Either kind of tree node.
#[derive(Debug)]
pub enum Node {
    Statement(Statement),
    Expression,
}

/// The mathematical model of a statement.
pub enum StmtView {
    Let { name: Seq<char>, expr: ExprView },
    Return { expr: ExprView },
    Expression { expr: ExprView },
    Block { body: Seq<StmtView> },
}

/// The mathematical model of an expression.
pub enum ExprView {
    Identifier(Seq<char>),
    Boolean(bool),
    Int(Seq<char>),
    PrefixExpr { op: TokenView, right: Box<ExprView> },
    InfixExpr { op: TokenView, left: Box<ExprView>, right: Box<ExprView> },
    If {
        condition: Box<ExprView>,
        consequence: Box<StmtView>,
        alternative: Option<Box<StmtView>>,
    },
    Function { parameters: Seq<Seq<char>>, body: Box<StmtView> },
    Call { function: Box<ExprView>, arguments: Seq<ExprView> },
}

/// The views of a sequence of parameter names.
pub open spec fn strings_view(ss: Seq<String>) -> Seq<Seq<char>> {
    ss.map_values(|s: String| s@)
}

/// The model of a statement.
pub open spec fn stmt_view(s: Statement) -> StmtView
    decreases s,
{
    match s {
        Statement::Let { name, expr } => StmtView::Let { name: name@, expr: expr_view(expr) },
        Statement::Return { expr } => StmtView::Return { expr: expr_view(expr) },
        Statement::Expression { expr } => StmtView::Expression { expr: expr_view(expr) },
        Statement::Block { body } => StmtView::Block { body: stmts_view(body@) },
    }
}

/// The models of a sequence of statements, element by element.
pub open spec fn stmts_view(ss: Seq<Statement>) -> Seq<StmtView>
    decreases ss,
{
    if ss.len() == 0 {
        Seq::empty()
    } else {
        seq![stmt_view(ss[0])] + stmts_view(ss.skip(1))
    }
}

/// The model of an expression.
pub open spec fn expr_view(e: Expression) -> ExprView
    decreases e,
{
    match e {
        Expression::Identifier(name) => ExprView::Identifier(name@),
        Expression::Boolean(b) => ExprView::Boolean(b),
        Expression::Int(text) => ExprView::Int(text@),
        Expression::PrefixExpr { op, right } => ExprView::PrefixExpr {
            op: op@,
            right: Box::new(expr_view(*right)),
        },
        Expression::InfixExpr { op, left, right } => ExprView::InfixExpr {
            op: op@,
            left: Box::new(expr_view(*left)),
            right: Box::new(expr_view(*right)),
        },
        Expression::If { condition, consequence, alternative } => ExprView::If {
            condition: Box::new(expr_view(*condition)),
            consequence: Box::new(stmt_view(*consequence)),
            alternative: match alternative {
                Some(alt) => Some(Box::new(stmt_view(*alt))),
                None => None,
            },
        },
        Expression::Function { parameters, body } => ExprView::Function {
            parameters: strings_view(parameters@),
            body: Box::new(stmt_view(*body)),
        },
        Expression::Call { function, arguments } => ExprView::Call {
            function: Box::new(expr_view(*function)),
            arguments: exprs_view(arguments@),
        },
    }
}

/// The models of a sequence of expressions, element by element.
pub open spec fn exprs_view(es: Seq<Expression>) -> Seq<ExprView>
    decreases es,
{
    if es.len() == 0 {
        Seq::empty()
    } else {
        seq![expr_view(es[0])] + exprs_view(es.skip(1))
    }
}

impl View for Statement {
    type V = StmtView;

    open spec fn view(&self) -> StmtView {
        stmt_view(*self)
    }
}

impl View for Expression {
    type V = ExprView;

    open spec fn view(&self) -> ExprView {
        expr_view(*self)
    }
}

pub proof fn lemma_stmts_view_push(ss: Seq<Statement>, s: Statement)
    ensures
        stmts_view(ss.push(s)) == stmts_view(ss) + seq![stmt_view(s)],
    decreases ss.len(),
{
    if ss.len() == 0 {
        assert(ss.push(s) =~= seq![s]);
        assert(stmts_view(seq![s]).skip(1) == stmts_view(seq![s].skip(1)));
        assert(seq![s].skip(1) =~= Seq::<Statement>::empty());
        assert(stmts_view(ss.push(s)) =~= stmts_view(ss) + seq![stmt_view(s)]);
    } else {
        assert(ss.push(s).skip(1) =~= ss.skip(1).push(s));
        lemma_stmts_view_push(ss.skip(1), s);
        assert(stmts_view(ss.push(s)) =~= stmts_view(ss) + seq![stmt_view(s)]);
    }
}

pub proof fn lemma_exprs_view_push(es: Seq<Expression>, e: Expression)
    ensures
        exprs_view(es.push(e)) == exprs_view(es) + seq![expr_view(e)],
    decreases es.len(),
{
    if es.len() == 0 {
        assert(es.push(e) =~= seq![e]);
        assert(seq![e].skip(1) =~= Seq::<Expression>::empty());
        assert(exprs_view(seq![e].skip(1)) =~= Seq::<ExprView>::empty());
        assert(exprs_view(es.push(e)) =~= exprs_view(es) + seq![expr_view(e)]);
    } else {
        assert(es.push(e).skip(1) =~= es.skip(1).push(e));
        lemma_exprs_view_push(es.skip(1), e);
        assert(exprs_view(es.push(e)) =~= exprs_view(es) + seq![expr_view(e)]);
    }
}

/// A whole program: its statements in source order.
#[derive(Debug)]
pub struct Ast {
    pub statements: Vec<Statement>,
}

impl View for Ast {
    type V = Seq<StmtView>;

    open spec fn view(&self) -> Seq<StmtView> {
        stmts_view(self.statements@)
    }
}

impl Default for Ast {
    fn default() -> (r: Ast)
        ensures
            r.statements@ == Seq::<Statement>::empty(),
    {
        Ast { statements: Vec::new() }
    }
}

impl Ast {
    /// An empty program.
    pub fn new() -> (r: Ast)
        ensures
            r.statements@ == Seq::<Statement>::empty(),
            r@ == Seq::<StmtView>::empty(),
    {
        Ast::default()
    }
}

impl From<Vec<Statement>> for Ast {
    fn from(statements: Vec<Statement>) -> (r: Ast)
    {
        Ast { statements }
    }
}

impl vstd::std_specs::convert::FromSpecImpl<Vec<Statement>> for Ast {
    open spec fn obeys_from_spec() -> bool {
        true
    }

    open spec fn from_spec(statements: Vec<Statement>) -> Ast {
        Ast { statements }
    }
}

/// The canonical rendering of a statement: each statement ends in `;`, blocks
/// list their statements between braces, separated by single spaces.
pub open spec fn render_stmt(s: StmtView) -> Seq<char>
    decreases s,
{
    match s {
        StmtView::Let { name, expr } => "let "@ + name + " = "@ + render_expr(expr) + ";"@,
        StmtView::Return { expr } => "return "@ + render_expr(expr) + ";"@,
        StmtView::Expression { expr } => render_expr(expr) + ";"@,
        StmtView::Block { body } => "{ "@ + render_stmts(body) + "}"@,
    }
}

/// The rendering of a statement sequence: each statement followed by one
/// space.
pub open spec fn render_stmts(ss: Seq<StmtView>) -> Seq<char>
    decreases ss,
{
    if ss.len() == 0 {
        Seq::empty()
    } else {
        render_stmt(ss[0]) + " "@ + render_stmts(ss.skip(1))
    }
}

/// The canonical rendering of an expression: prefix and infix forms are
/// parenthesized, so that the rendering shows exactly how operators bound.
pub open spec fn render_expr(e: ExprView) -> Seq<char>
    decreases e,
{
    match e {
        ExprView::Identifier(name) => name,
        ExprView::Boolean(b) => if b {
            "true"@
        } else {
            "false"@
        },
        ExprView::Int(text) => text,
        ExprView::PrefixExpr { op, right } => "("@ + token_text(op) + render_expr(*right) + ")"@,
        ExprView::InfixExpr { op, left, right } => "("@ + render_expr(*left) + " "@ + token_text(
            op,
        ) + " "@ + render_expr(*right) + ")"@,
        ExprView::If { condition, consequence, alternative } => {
            let head = "if ("@ + render_expr(*condition) + ") "@ + render_stmt(*consequence);
            match alternative {
                Some(alt) => head + " else "@ + render_stmt(*alt),
                None => head,
            }
        },
        ExprView::Function { parameters, body } => "fn("@ + render_params(parameters) + ") "@
            + render_stmt(*body),
        ExprView::Call { function, arguments } => render_expr(*function) + "("@ + render_args(
            arguments,
        ) + ")"@,
    }
}

/// The rendering of a parameter list: names joined by comma and space.
pub open spec fn render_params(names: Seq<Seq<char>>) -> Seq<char>
    decreases names,
{
    if names.len() == 0 {
        Seq::empty()
    } else if names.len() == 1 {
        names[0]
    } else {
        names[0] + ", "@ + render_params(names.skip(1))
    }
}

/// The rendering of an argument list: expressions joined by comma and space.
pub open spec fn render_args(args: Seq<ExprView>) -> Seq<char>
    decreases args,
{
    if args.len() == 0 {
        Seq::empty()
    } else if args.len() == 1 {
        render_expr(args[0])
    } else {
        render_expr(args[0]) + ", "@ + render_args(args.skip(1))
    }
}

/// The rendering of a whole program: its statements, concatenated.
pub open spec fn render_program(ss: Seq<StmtView>) -> Seq<char>
    decreases ss,
{
    if ss.len() == 0 {
        Seq::empty()
    } else {
        render_stmt(ss[0]) + render_program(ss.skip(1))
    }
}

pub proof fn lemma_render_stmts_push(ss: Seq<StmtView>, s: StmtView)
    ensures
        render_stmts(ss.push(s)) == render_stmts(ss) + render_stmt(s) + " "@,
    decreases ss.len(),
{
    if ss.len() == 0 {
        assert(ss.push(s) =~= seq![s]);
        assert(seq![s].skip(1) =~= Seq::<StmtView>::empty());
        assert(render_stmts(seq![s].skip(1)) =~= Seq::<char>::empty());
        assert(render_stmts(ss.push(s)) =~= render_stmts(ss) + render_stmt(s) + " "@);
    } else {
        let a = render_stmt(ss[0]);
        let b = render_stmts(ss.skip(1));
        let c = render_stmt(s);
        assert(ss.push(s).skip(1) =~= ss.skip(1).push(s));
        assert(ss.push(s)[0] == ss[0]);
        lemma_render_stmts_push(ss.skip(1), s);
        assert(render_stmts(ss.push(s)) == a + " "@ + (b + c + " "@));
        assert(a + " "@ + (b + c + " "@) =~= a + " "@ + b + c + " "@);
        assert(render_stmts(ss) == a + " "@ + b);
    }
}

pub proof fn lemma_render_program_push(ss: Seq<StmtView>, s: StmtView)
    ensures
        render_program(ss.push(s)) == render_program(ss) + render_stmt(s),
    decreases ss.len(),
{
    if ss.len() == 0 {
        assert(ss.push(s) =~= seq![s]);
        assert(seq![s].skip(1) =~= Seq::<StmtView>::empty());
        assert(render_program(seq![s].skip(1)) =~= Seq::<char>::empty());
        assert(render_program(ss.push(s)) =~= render_program(ss) + render_stmt(s));
    } else {
        let a = render_stmt(ss[0]);
        let b = render_program(ss.skip(1));
        let c = render_stmt(s);
        assert(ss.push(s).skip(1) =~= ss.skip(1).push(s));
        assert(ss.push(s)[0] == ss[0]);
        lemma_render_program_push(ss.skip(1), s);
        assert(render_program(ss.push(s)) == a + (b + c));
        assert(a + (b + c) =~= a + b + c);
        assert(render_program(ss) == a + b);
    }
}

impl Statement {
    /// Renders the statement in its canonical textual form.
    pub fn render(&self) -> (r: String)
        ensures
            r@ == render_stmt(self@),
        decreases self,
    {
        match self {
            Statement::Let { name, expr } => {
                let mut r = "let ".to_owned();
                r.append(name.as_str());
                r.append(" = ");
                let e = expr.render();
                r.append(e.as_str());
                r.append(";");
                r
            },
            Statement::Return { expr } => {
                let mut r = "return ".to_owned();
                let e = expr.render();
                r.append(e.as_str());
                r.append(";");
                r
            },
            Statement::Expression { expr } => {
                let mut r = expr.render();
                r.append(";");
                r
            },
            Statement::Block { body } => {
                let mut r = "{ ".to_owned();
                let mut i: usize = 0;
                proof {
                    assert(body@.subrange(0, 0) =~= Seq::<Statement>::empty());
                    assert(r@ =~= "{ "@ + render_stmts(stmts_view(body@.subrange(0, 0))));
                    assert(decreases_to!(*self => (*self)->Block_body));
                }
                while i < body.len()
                    invariant
                        i <= body@.len(),
                        r@ == "{ "@ + render_stmts(stmts_view(body@.subrange(0, i as int))),
                        decreases_to!(*self => *body),
                    decreases body@.len() - i,
                {
                    proof {
                        assert(decreases_to!(*body => body@));
                        assert(decreases_to!(body@ => body@[i as int]));
                    }
                    let ghost prefix = stmts_view(body@.subrange(0, i as int));
                    let st = body[i].render();
                    r.append(st.as_str());
                    r.append(" ");
                    proof {
                        assert(body@.subrange(0, i + 1) =~= body@.subrange(0, i as int).push(
                            body@[i as int],
                        ));
                        lemma_stmts_view_push(body@.subrange(0, i as int), body@[i as int]);
                        assert(prefix + seq![stmt_view(body@[i as int])] =~= prefix.push(
                            stmt_view(body@[i as int]),
                        ));
                        lemma_render_stmts_push(prefix, stmt_view(body@[i as int]));
                        assert(r@ =~= "{ "@ + render_stmts(stmts_view(body@.subrange(0, i + 1))));
                    }
                    i += 1;
                }
                r.append("}");
                proof {
                    assert(body@.subrange(0, body@.len() as int) =~= body@);
                }
                r
            },
        }
    }
}

impl Expression {
    /// Renders the expression in its canonical parenthesized form.
    pub fn render(&self) -> (r: String)
        ensures
            r@ == render_expr(self@),
        decreases self,
    {
        match self {
            Expression::Identifier(name) => name.clone(),
            Expression::Boolean(b) => {
                if *b {
                    "true".to_owned()
                } else {
                    "false".to_owned()
                }
            },
            Expression::Int(text) => text.clone(),
            Expression::PrefixExpr { op, right } => {
                let mut r = "(".to_owned();
                let o = op.text();
                r.append(o.as_str());
                let e = right.render();
                r.append(e.as_str());
                r.append(")");
                r
            },
            Expression::InfixExpr { op, left, right } => {
                let mut r = "(".to_owned();
                let l = left.render();
                r.append(l.as_str());
                r.append(" ");
                let o = op.text();
                r.append(o.as_str());
                r.append(" ");
                let e = right.render();
                r.append(e.as_str());
                r.append(")");
                r
            },
            Expression::If { condition, consequence, alternative } => {
                let mut r = "if (".to_owned();
                let c = condition.render();
                r.append(c.as_str());
                r.append(") ");
                let q = consequence.render();
                r.append(q.as_str());
                match alternative {
                    Some(alt) => {
                        r.append(" else ");
                        let a = alt.render();
                        r.append(a.as_str());
                    },
                    None => {},
                }
                r
            },
            Expression::Function { parameters, body } => {
                let mut r = "fn(".to_owned();
                let ghost pv = strings_view(parameters@);
                let mut i: usize = 0;
                proof {
                    assert(pv.take(0) =~= Seq::<Seq<char>>::empty());
                    assert(r@ =~= "fn("@ + render_params(pv.take(0)));
                }
                while i < parameters.len()
                    invariant
                        i <= parameters@.len(),
                        pv == strings_view(parameters@),
                        pv.len() == parameters@.len(),
                        r@ == "fn("@ + render_params(pv.take(i as int)),
                    decreases parameters@.len() - i,
                {
                    if i > 0 {
                        r.append(", ");
                    }
                    r.append(parameters[i].as_str());
                    proof {
                        assert(pv[i as int] == parameters@[i as int]@);
                        lemma_render_params_take(pv, i as int);
                        assert(r@ =~= "fn("@ + render_params(pv.take(i + 1)));
                    }
                    i += 1;
                }
                proof {
                    assert(pv.take(pv.len() as int) =~= pv);
                }
                r.append(") ");
                let b = body.render();
                r.append(b.as_str());
                r
            },
            Expression::Call { function, arguments } => {
                let ghost fv = expr_view(**function);
                let f = function.render();
                let mut r = f;
                r.append("(");
                let ghost av = exprs_view(arguments@);
                let mut i: usize = 0;
                proof {
                    lemma_exprs_view_len(arguments@);
                    assert(av.take(0) =~= Seq::<ExprView>::empty());
                    assert(r@ =~= render_expr(fv) + "("@ + render_args(av.take(0)));
                    assert(decreases_to!(*self => (*self)->Call_arguments));
                }
                while i < arguments.len()
                    invariant
                        i <= arguments@.len(),
                        av == exprs_view(arguments@),
                        av.len() == arguments@.len(),
                        fv == expr_view(**function),
                        r@ == render_expr(fv) + "("@ + render_args(av.take(i as int)),
                        decreases_to!(*self => *arguments),
                    decreases arguments@.len() - i,
                {
                    proof {
                        assert(decreases_to!(*arguments => arguments@));
                        assert(decreases_to!(arguments@ => arguments@[i as int]));
                    }
                    let a = arguments[i].render();
                    if i > 0 {
                        r.append(", ");
                    }
                    r.append(a.as_str());
                    proof {
                        lemma_exprs_view_index(arguments@, i as int);
                        lemma_render_args_take(av, i as int);
                        assert(r@ =~= render_expr(fv) + "("@ + render_args(av.take(i + 1)));
                    }
                    i += 1;
                }
                proof {
                    assert(av.take(av.len() as int) =~= av);
                }
                r.append(")");
                r
            },
        }
    }
}

pub proof fn lemma_exprs_view_len(es: Seq<Expression>)
    ensures
        exprs_view(es).len() == es.len(),
    decreases es.len(),
{
    if es.len() > 0 {
        lemma_exprs_view_len(es.skip(1));
    }
}

pub proof fn lemma_exprs_view_index(es: Seq<Expression>, i: int)
    requires
        0 <= i < es.len(),
    ensures
        exprs_view(es).len() == es.len(),
        exprs_view(es)[i] == expr_view(es[i]),
    decreases es.len(),
{
    lemma_exprs_view_len(es);
    if i > 0 {
        lemma_exprs_view_index(es.skip(1), i - 1);
    }
}

/// Rendering one more parameter appends a comma where the list was non-empty.
proof fn lemma_render_params_take(names: Seq<Seq<char>>, i: int)
    requires
        0 <= i < names.len(),
    ensures
        render_params(names.take(i + 1)) == if i == 0 {
            names[0]
        } else {
            render_params(names.take(i)) + ", "@ + names[i]
        },
    decreases i,
{
    if i == 0 {
        assert(names.take(1) =~= seq![names[0]]);
    } else {
        assert(names.take(i + 1).skip(1) =~= names.skip(1).take(i));
        assert(names.take(i).skip(1) =~= names.skip(1).take(i - 1));
        lemma_render_params_take(names.skip(1), i - 1);
        assert(names.take(i + 1)[0] == names[0]);
        assert(names.take(i)[0] == names[0]);
        assert(names.skip(1)[i - 1] == names[i]);
    }
}

/// Rendering one more argument appends a comma where the list was non-empty.
proof fn lemma_render_args_take(args: Seq<ExprView>, i: int)
    requires
        0 <= i < args.len(),
    ensures
        render_args(args.take(i + 1)) == if i == 0 {
            render_expr(args[0])
        } else {
            render_args(args.take(i)) + ", "@ + render_expr(args[i])
        },
    decreases i,
{
    if i == 0 {
        assert(args.take(1) =~= seq![args[0]]);
    } else {
        assert(args.take(i + 1).skip(1) =~= args.skip(1).take(i));
        assert(args.take(i).skip(1) =~= args.skip(1).take(i - 1));
        lemma_render_args_take(args.skip(1), i - 1);
        assert(args.take(i + 1)[0] == args[0]);
        assert(args.take(i)[0] == args[0]);
        assert(args.skip(1)[i - 1] == args[i]);
    }
}

impl Ast {
    /// Renders the whole program: its statements' canonical forms,
    /// concatenated without separators.
    pub fn render(&self) -> (r: String)
        ensures
            r@ == render_program(self@),
    {
        let mut r = String::new();
        let mut i: usize = 0;
        proof {
            assert(self.statements@.subrange(0, 0) =~= Seq::<Statement>::empty());
        }
        while i < self.statements.len()
            invariant
                i <= self.statements@.len(),
                r@ == render_program(stmts_view(self.statements@.subrange(0, i as int))),
            decreases self.statements@.len() - i,
        {
            let ghost prefix = stmts_view(self.statements@.subrange(0, i as int));
            let st = self.statements[i].render();
            r.append(st.as_str());
            proof {
                assert(self.statements@.subrange(0, i + 1) =~= self.statements@.subrange(
                    0,
                    i as int,
                ).push(self.statements@[i as int]));
                lemma_stmts_view_push(
                    self.statements@.subrange(0, i as int),
                    self.statements@[i as int],
                );
                assert(prefix + seq![stmt_view(self.statements@[i as int])] =~= prefix.push(
                    stmt_view(self.statements@[i as int]),
                ));
                lemma_render_program_push(prefix, stmt_view(self.statements@[i as int]));
                assert(r@ =~= render_program(stmts_view(self.statements@.subrange(0, i + 1))));
            }
            i += 1;
        }
        proof {
            assert(self.statements@.subrange(0, self.statements@.len() as int)
                =~= self.statements@);
        }
        r
    }
}

} // verus!
