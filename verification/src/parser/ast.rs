//! The syntax tree, and the mathematical model of each of its nodes.
use crate::lexer::TokenKind;
use vstd::prelude::*;

verus! {

/// A literal value.
#[derive(Debug, PartialEq, Eq)]
pub enum Lit {
    /// An integer literal, by its value.
    Int(u64),
    /// A float literal, by its text in the source.
    Float(String),
    /// A string literal, by its text between the quotes, escapes untouched.
    Str(String),
}

/// An expression.
#[derive(Debug, PartialEq, Eq)]
pub enum Expr {
    Literal(Lit),
    Ident(String),
    FnCall { fn_name: String, args: Vec<Expr> },
    PrefixOp { op: TokenKind, expr: Box<Expr> },
    InfixOp { op: TokenKind, lhs: Box<Expr>, rhs: Box<Expr> },
    PostfixOp { op: TokenKind, expr: Box<Expr> },
}

/// A statement.
#[derive(Debug, PartialEq, Eq)]
pub enum Stmt {
    Let { var_name: String, value: Box<Expr> },
    Assignment { var_name: String, value: Box<Expr> },
    IfStmt { condition: Box<Expr>, body: Vec<Stmt>, else_stmt: Option<Box<Stmt>> },
    Block { stmts: Vec<Stmt> },
}

/// A type, with the types that instantiate its generic parameters.
#[derive(Debug, PartialEq, Eq)]
pub struct Type {
    pub name: String,
    pub generics: Vec<Type>,
}

/// A top-level declaration.
#[derive(Debug, PartialEq, Eq)]
#[allow(inconsistent_fields)]
pub enum Item {
    Struct { name: Type, members: Vec<(String, Type)> },
    Function { name: String, parameters: Vec<(String, Type)>, body: Vec<Stmt> },
}

/// What a [`Lit`] stands for.
pub enum LitModel {
    Int(u64),
    Float(Seq<char>),
    Str(Seq<char>),
}

/// What an [`Expr`] stands for.
pub enum ExprModel {
    Literal(LitModel),
    Ident(Seq<char>),
    FnCall { fn_name: Seq<char>, args: Seq<ExprModel> },
    PrefixOp { op: TokenKind, expr: Box<ExprModel> },
    InfixOp { op: TokenKind, lhs: Box<ExprModel>, rhs: Box<ExprModel> },
    PostfixOp { op: TokenKind, expr: Box<ExprModel> },
}

/// What a [`Stmt`] stands for.
pub enum StmtModel {
    Let { var_name: Seq<char>, value: ExprModel },
    Assignment { var_name: Seq<char>, value: ExprModel },
    IfStmt { condition: ExprModel, body: Seq<StmtModel>, else_stmt: Option<Box<StmtModel>> },
    Block { stmts: Seq<StmtModel> },
}

/// What a [`Type`] stands for.
pub struct TypeModel {
    pub name: Seq<char>,
    pub generics: Seq<TypeModel>,
}

/// What an [`Item`] stands for.
#[allow(inconsistent_fields)]
pub enum ItemModel {
    Struct { name: TypeModel, members: Seq<(Seq<char>, TypeModel)> },
    Function { name: Seq<char>, parameters: Seq<(Seq<char>, TypeModel)>, body: Seq<StmtModel> },
}

impl View for Lit {
    type V = LitModel;

    open spec fn view(&self) -> LitModel {
        match self {
            Lit::Int(value) => LitModel::Int(*value),
            Lit::Float(text) => LitModel::Float(text@),
            Lit::Str(text) => LitModel::Str(text@),
        }
    }
}

impl Expr {
    /// What the expression stands for.
    pub open spec fn model(&self) -> ExprModel
        decreases self,
    {
        match self {
            Expr::Literal(lit) => ExprModel::Literal(lit@),
            Expr::Ident(name) => ExprModel::Ident(name@),
            Expr::FnCall { fn_name, args } => ExprModel::FnCall {
                fn_name: fn_name@,
                args: Seq::new(
                    args.len() as nat,
                    |i: int|
                        if 0 <= i < args.len() {
                            args[i].model()
                        } else {
                            ExprModel::Ident(Seq::empty())
                        },
                ),
            },
            Expr::PrefixOp { op, expr } => ExprModel::PrefixOp {
                op: *op,
                expr: Box::new(expr.model()),
            },
            Expr::InfixOp { op, lhs, rhs } => ExprModel::InfixOp {
                op: *op,
                lhs: Box::new(lhs.model()),
                rhs: Box::new(rhs.model()),
            },
            Expr::PostfixOp { op, expr } => ExprModel::PostfixOp {
                op: *op,
                expr: Box::new(expr.model()),
            },
        }
    }
}

impl View for Expr {
    type V = ExprModel;

    open spec fn view(&self) -> ExprModel {
        self.model()
    }
}

impl Stmt {
    /// What the statement stands for.
    pub open spec fn model(&self) -> StmtModel
        decreases self,
    {
        match self {
            Stmt::Let { var_name, value } => StmtModel::Let {
                var_name: var_name@,
                value: value.model(),
            },
            Stmt::Assignment { var_name, value } => StmtModel::Assignment {
                var_name: var_name@,
                value: value.model(),
            },
            Stmt::IfStmt { condition, body, else_stmt } => StmtModel::IfStmt {
                condition: condition.model(),
                body: Seq::new(
                    body.len() as nat,
                    |i: int|
                        if 0 <= i < body.len() {
                            body[i].model()
                        } else {
                            StmtModel::Block { stmts: Seq::empty() }
                        },
                ),
                else_stmt: match else_stmt {
                    Some(stmt) => Some(Box::new(stmt.model())),
                    None => None,
                },
            },
            Stmt::Block { stmts } => StmtModel::Block {
                stmts: Seq::new(
                    stmts.len() as nat,
                    |i: int|
                        if 0 <= i < stmts.len() {
                            stmts[i].model()
                        } else {
                            StmtModel::Block { stmts: Seq::empty() }
                        },
                ),
            },
        }
    }
}

impl View for Stmt {
    type V = StmtModel;

    open spec fn view(&self) -> StmtModel {
        self.model()
    }
}

impl Type {
    /// What the type stands for.
    pub open spec fn model(&self) -> TypeModel
        decreases self,
    {
        TypeModel {
            name: self.name@,
            generics: Seq::new(
                self.generics.len() as nat,
                |i: int|
                    if 0 <= i < self.generics.len() {
                        self.generics[i].model()
                    } else {
                        TypeModel { name: Seq::empty(), generics: Seq::empty() }
                    },
            ),
        }
    }
}

impl View for Type {
    type V = TypeModel;

    open spec fn view(&self) -> TypeModel {
        self.model()
    }
}

/// What a list of expressions stands for.
pub open spec fn expr_models(list: Seq<Expr>) -> Seq<ExprModel> {
    Seq::new(list.len(), |i: int| list[i]@)
}

/// What a list of statements stands for.
pub open spec fn stmt_models(list: Seq<Stmt>) -> Seq<StmtModel> {
    Seq::new(list.len(), |i: int| list[i]@)
}

/// What a list of types stands for.
pub open spec fn type_models(list: Seq<Type>) -> Seq<TypeModel> {
    Seq::new(list.len(), |i: int| list[i]@)
}

/// What a list of named types stands for.
pub open spec fn field_models(list: Seq<(String, Type)>) -> Seq<(Seq<char>, TypeModel)> {
    Seq::new(list.len(), |i: int| (list[i].0@, list[i].1@))
}

impl View for Item {
    type V = ItemModel;

    open spec fn view(&self) -> ItemModel {
        match self {
            Item::Struct { name, members } => ItemModel::Struct {
                name: name@,
                members: field_models(members@),
            },
            Item::Function { name, parameters, body } => ItemModel::Function {
                name: name@,
                parameters: field_models(parameters@),
                body: stmt_models(body@),
            },
        }
    }
}

/// What a list of items stands for.
pub open spec fn item_models(list: Seq<Item>) -> Seq<ItemModel> {
    Seq::new(list.len(), |i: int| list[i]@)
}

/// The model of a call is made of the models of its arguments.
pub proof fn lemma_call_model(fn_name: String, args: Vec<Expr>)
    ensures
        (Expr::FnCall { fn_name, args })@ == (ExprModel::FnCall {
            fn_name: fn_name@,
            args: expr_models(args@),
        }),
{
    let e = Expr::FnCall { fn_name, args };
    assert(e@->FnCall_args =~= expr_models(args@));
}

/// The model of a block is made of the models of its statements.
pub proof fn lemma_block_model(stmts: Vec<Stmt>)
    ensures
        (Stmt::Block { stmts })@ == (StmtModel::Block { stmts: stmt_models(stmts@) }),
{
    let s = Stmt::Block { stmts };
    assert(s@->Block_stmts =~= stmt_models(stmts@));
}

/// The model of an `if` is made of the models of its parts.
pub proof fn lemma_if_model(condition: Box<Expr>, body: Vec<Stmt>, else_stmt: Option<Box<Stmt>>)
    ensures
        (Stmt::IfStmt { condition, body, else_stmt })@ == (StmtModel::IfStmt {
            condition: condition@,
            body: stmt_models(body@),
            else_stmt: match else_stmt {
                Some(stmt) => Some(Box::new(stmt@)),
                None => None,
            },
        }),
{
    let s = Stmt::IfStmt { condition, body, else_stmt };
    assert(s@->IfStmt_body =~= stmt_models(body@));
}

/// The model of a type is made of the models of its generic arguments.
pub proof fn lemma_type_model(name: String, generics: Vec<Type>)
    ensures
        (Type { name, generics })@ == (TypeModel {
            name: name@,
            generics: type_models(generics@),
        }),
{
    let t = Type { name, generics };
    assert(t@.generics =~= type_models(generics@));
}

} // verus!
