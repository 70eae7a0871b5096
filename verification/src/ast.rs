use vstd::prelude::*;

verus! {

#[derive(Debug, Clone, PartialEq, Eq)]
pub struct Identifier {
    pub value: String,
}

#[derive(Debug, Clone, PartialEq, Eq)]
pub struct PrefixExpression {
    pub operator: String,
    pub right: Box<Expression>,
}

#[derive(Debug, Clone, PartialEq, Eq)]
pub struct InfixExpression {
    pub left: Box<Expression>,
    pub operator: String,
    pub right: Box<Expression>,
}

#[derive(Debug, Clone, PartialEq, Eq)]
pub struct IfStatement {
    pub condition: Box<Expression>,
    pub consequence: Vec<Statement>,
    pub alternative: Vec<Statement>,
}

#[derive(Debug, Clone, PartialEq, Eq)]
pub struct FunctionExpression {
    pub name: Identifier,
    pub body: Vec<Statement>,
    pub parameters: Vec<Identifier>,
}

#[derive(Debug, Clone, PartialEq, Eq)]
pub struct CallExpression {
    pub name: Identifier,
    pub arguments: Vec<Expression>,
}

#[derive(Debug, PartialEq, Eq)]
pub enum Expression {
    Identifier(Identifier),
    String(String),
    Boolean(bool),
    Integer(u64),
    Array(Vec<Expression>),
    Prefix(PrefixExpression),
    Infix(InfixExpression),
    Function(FunctionExpression),
    Call(CallExpression),
}

#[derive(Debug, Clone, PartialEq, Eq)]
pub struct ExpressionStatement {
    pub expression: Expression,
    pub has_semicolon: bool,
}

#[derive(Debug, Clone, PartialEq, Eq)]
pub struct ValStatement {
    pub name: Identifier,
    pub value: Expression,
}

#[derive(Debug, Clone, PartialEq, Eq)]
pub struct ReturnStatement {
    pub return_value: Expression,
}

#[derive(Debug, Clone, PartialEq, Eq)]
pub struct ForStatement {
    pub initialization: Box<Statement>,
    pub condition: Expression,
    pub update: Box<Statement>,
    pub body: Vec<Statement>,
}

#[derive(Debug, PartialEq, Eq)]
pub enum Statement {
    Val(ValStatement),
    Return(ReturnStatement),
    If(IfStatement),
    Expression(ExpressionStatement),
    For(ForStatement),
}

#[derive(Debug, Clone, PartialEq, Eq)]
pub struct Program {
    pub statements: Vec<Statement>,
}

/// The mathematical model of an expression: names and texts as character
/// sequences, lists as sequences.
pub enum Expr {
    Identifier(Seq<char>),
    Str(Seq<char>),
    Boolean(bool),
    Integer(u64),
    Array(Seq<Expr>),
    Prefix { operator: Seq<char>, right: Box<Expr> },
    Infix { left: Box<Expr>, operator: Seq<char>, right: Box<Expr> },
    Function { name: Seq<char>, body: Seq<Stmt>, parameters: Seq<Seq<char>> },
    Call { name: Seq<char>, arguments: Seq<Expr> },
}

/// The mathematical model of a statement.
pub enum Stmt {
    Val { name: Seq<char>, value: Expr },
    Return { value: Expr },
    If { condition: Expr, consequence: Seq<Stmt>, alternative: Seq<Stmt> },
    Expression { expression: Expr, has_semicolon: bool },
    For { initialization: Box<Stmt>, condition: Expr, update: Box<Stmt>, body: Seq<Stmt> },
}

pub open spec fn expr_model(e: Expression) -> Expr
    decreases e,
{
    match e {
        Expression::Identifier(id) => Expr::Identifier(id.value@),
        Expression::String(s) => Expr::Str(s@),
        Expression::Boolean(b) => Expr::Boolean(b),
        Expression::Integer(n) => Expr::Integer(n),
        Expression::Array(items) => Expr::Array(exprs_model(items@)),
        Expression::Prefix(p) => Expr::Prefix {
            operator: p.operator@,
            right: Box::new(expr_model(*p.right)),
        },
        Expression::Infix(i) => Expr::Infix {
            left: Box::new(expr_model(*i.left)),
            operator: i.operator@,
            right: Box::new(expr_model(*i.right)),
        },
        Expression::Function(f) => Expr::Function {
            name: f.name.value@,
            body: stmts_model(f.body@),
            parameters: names_model(f.parameters@),
        },
        Expression::Call(c) => Expr::Call {
            name: c.name.value@,
            arguments: exprs_model(c.arguments@),
        },
    }
}

pub open spec fn exprs_model(s: Seq<Expression>) -> Seq<Expr>
    decreases s,
{
    if s.len() == 0 {
        Seq::empty()
    } else {
        exprs_model(s.subrange(0, s.len() - 1)).push(expr_model(s[s.len() - 1]))
    }
}

pub open spec fn stmt_model(s: Statement) -> Stmt
    decreases s,
{
    match s {
        Statement::Val(v) => Stmt::Val { name: v.name.value@, value: expr_model(v.value) },
        Statement::Return(r) => Stmt::Return { value: expr_model(r.return_value) },
        Statement::If(i) => Stmt::If {
            condition: expr_model(*i.condition),
            consequence: stmts_model(i.consequence@),
            alternative: stmts_model(i.alternative@),
        },
        Statement::Expression(e) => Stmt::Expression {
            expression: expr_model(e.expression),
            has_semicolon: e.has_semicolon,
        },
        Statement::For(f) => Stmt::For {
            initialization: Box::new(stmt_model(*f.initialization)),
            condition: expr_model(f.condition),
            update: Box::new(stmt_model(*f.update)),
            body: stmts_model(f.body@),
        },
    }
}

pub open spec fn stmts_model(s: Seq<Statement>) -> Seq<Stmt>
    decreases s,
{
    if s.len() == 0 {
        Seq::empty()
    } else {
        stmts_model(s.subrange(0, s.len() - 1)).push(stmt_model(s[s.len() - 1]))
    }
}

pub open spec fn names_model(s: Seq<Identifier>) -> Seq<Seq<char>> {
    s.map_values(|id: Identifier| id.value@)
}

impl View for Expression {
    type V = Expr;

    open spec fn view(&self) -> Expr {
        expr_model(*self)
    }
}

impl View for Statement {
    type V = Stmt;

    open spec fn view(&self) -> Stmt {
        stmt_model(*self)
    }
}

/// A sequence model has one entry per element, each the element's model.
pub proof fn lemma_exprs_model(s: Seq<Expression>)
    ensures
        exprs_model(s).len() == s.len(),
        forall|i: int| 0 <= i < s.len() ==> #[trigger] exprs_model(s)[i] == expr_model(s[i]),
    decreases s.len(),
{
    if s.len() > 0 {
        lemma_exprs_model(s.subrange(0, s.len() - 1));
    }
}

pub proof fn lemma_stmts_model(s: Seq<Statement>)
    ensures
        stmts_model(s).len() == s.len(),
        forall|i: int| 0 <= i < s.len() ==> #[trigger] stmts_model(s)[i] == stmt_model(s[i]),
    decreases s.len(),
{
    if s.len() > 0 {
        lemma_stmts_model(s.subrange(0, s.len() - 1));
    }
}

/// Appending an element appends its model.
pub proof fn lemma_exprs_model_push(s: Seq<Expression>, e: Expression)
    ensures
        exprs_model(s.push(e)) == exprs_model(s).push(expr_model(e)),
{
    assert(s.push(e).subrange(0, s.len() as int) =~= s);
}

pub proof fn lemma_stmts_model_push(s: Seq<Statement>, st: Statement)
    ensures
        stmts_model(s.push(st)) == stmts_model(s).push(stmt_model(st)),
{
    assert(s.push(st).subrange(0, s.len() as int) =~= s);
}

/// Sequences with equal element models have equal models.
pub proof fn lemma_exprs_model_ext(a: Seq<Expression>, b: Seq<Expression>)
    requires
        a.len() == b.len(),
        forall|i: int| 0 <= i < a.len() ==> expr_model(#[trigger] a[i]) == expr_model(b[i]),
    ensures
        exprs_model(a) == exprs_model(b),
{
    lemma_exprs_model(a);
    lemma_exprs_model(b);
    assert(exprs_model(a) =~= exprs_model(b));
}

pub proof fn lemma_stmts_model_ext(a: Seq<Statement>, b: Seq<Statement>)
    requires
        a.len() == b.len(),
        forall|i: int| 0 <= i < a.len() ==> stmt_model(#[trigger] a[i]) == stmt_model(b[i]),
    ensures
        stmts_model(a) == stmts_model(b),
{
    lemma_stmts_model(a);
    lemma_stmts_model(b);
    assert(stmts_model(a) =~= stmts_model(b));
}

impl Identifier {
    pub fn duplicate(&self) -> (r: Identifier)
        ensures
            r.value@ == self.value@,
    {
        Identifier { value: self.value.clone() }
    }
}

impl Expression {
    /// A deep copy with the same model.
    pub fn duplicate(&self) -> (r: Expression)
        ensures
            r@ == self@,
        decreases self,
    {
        match self {
            Expression::Identifier(id) => Expression::Identifier(id.duplicate()),
            Expression::String(s) => Expression::String(s.clone()),
            Expression::Boolean(b) => Expression::Boolean(*b),
            Expression::Integer(n) => Expression::Integer(*n),
            Expression::Array(items) => Expression::Array(duplicate_expressions(items)),
            Expression::Prefix(p) => Expression::Prefix(PrefixExpression {
                operator: p.operator.clone(),
                right: Box::new(p.right.duplicate()),
            }),
            Expression::Infix(i) => Expression::Infix(InfixExpression {
                left: Box::new(i.left.duplicate()),
                operator: i.operator.clone(),
                right: Box::new(i.right.duplicate()),
            }),
            Expression::Function(f) => Expression::Function(FunctionExpression {
                name: f.name.duplicate(),
                body: duplicate_statements(&f.body),
                parameters: duplicate_identifiers(&f.parameters),
            }),
            Expression::Call(c) => Expression::Call(CallExpression {
                name: c.name.duplicate(),
                arguments: duplicate_expressions(&c.arguments),
            }),
        }
    }
}

impl Clone for Expression {
    fn clone(&self) -> (r: Expression)
        ensures
            r@ == self@,
    {
        self.duplicate()
    }
}

impl Clone for Statement {
    fn clone(&self) -> (r: Statement)
        ensures
            r@ == self@,
    {
        self.duplicate()
    }
}

impl Statement {
    /// A deep copy with the same model.
    pub fn duplicate(&self) -> (r: Statement)
        ensures
            r@ == self@,
        decreases self,
    {
        match self {
            Statement::Val(v) => Statement::Val(ValStatement {
                name: v.name.duplicate(),
                value: v.value.duplicate(),
            }),
            Statement::Return(r) => Statement::Return(ReturnStatement {
                return_value: r.return_value.duplicate(),
            }),
            Statement::If(i) => Statement::If(IfStatement {
                condition: Box::new(i.condition.duplicate()),
                consequence: duplicate_statements(&i.consequence),
                alternative: duplicate_statements(&i.alternative),
            }),
            Statement::Expression(e) => Statement::Expression(ExpressionStatement {
                expression: e.expression.duplicate(),
                has_semicolon: e.has_semicolon,
            }),
            Statement::For(f) => Statement::For(ForStatement {
                initialization: Box::new(f.initialization.duplicate()),
                condition: f.condition.duplicate(),
                update: Box::new(f.update.duplicate()),
                body: duplicate_statements(&f.body),
            }),
        }
    }
}

/// A deep copy of a list of expressions.
pub fn duplicate_expressions(v: &Vec<Expression>) -> (r: Vec<Expression>)
    ensures
        exprs_model(r@) == exprs_model(v@),
    decreases v,
{
    let mut r: Vec<Expression> = Vec::new();
    let mut i: usize = 0;
    while i < v.len()
        invariant
            i <= v.len(),
            r@.len() == i,
            forall|j: int| 0 <= j < i ==> expr_model(#[trigger] r@[j]) == expr_model(v@[j]),
        decreases v.len() - i,
    {
        r.push(v[i].duplicate());
        i = i + 1;
    }
    proof {
        lemma_exprs_model_ext(r@, v@);
    }
    r
}

/// A deep copy of a list of statements.
pub fn duplicate_statements(v: &Vec<Statement>) -> (r: Vec<Statement>)
    ensures
        stmts_model(r@) == stmts_model(v@),
    decreases v,
{
    let mut r: Vec<Statement> = Vec::new();
    let mut i: usize = 0;
    while i < v.len()
        invariant
            i <= v.len(),
            r@.len() == i,
            forall|j: int| 0 <= j < i ==> stmt_model(#[trigger] r@[j]) == stmt_model(v@[j]),
        decreases v.len() - i,
    {
        r.push(v[i].duplicate());
        i = i + 1;
    }
    proof {
        lemma_stmts_model_ext(r@, v@);
    }
    r
}

/// A copy of a list of identifiers.
pub fn duplicate_identifiers(v: &Vec<Identifier>) -> (r: Vec<Identifier>)
    ensures
        names_model(r@) == names_model(v@),
{
    let mut r: Vec<Identifier> = Vec::new();
    let mut i: usize = 0;
    while i < v.len()
        invariant
            i <= v.len(),
            r@.len() == i,
            forall|j: int| 0 <= j < i ==> (#[trigger] r@[j]).value@ == v@[j].value@,
        decreases v.len() - i,
    {
        r.push(v[i].duplicate());
        i = i + 1;
    }
    assert(names_model(r@) =~= names_model(v@));
    r
}

} // verus!
