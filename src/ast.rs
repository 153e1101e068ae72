//! Syntax tree nodes. Each node keeps the token it was made from; the kinds
//! of statement and expression are closed enums.
use vstd::prelude::*;
use crate::lexer::Token;

verus! {

/// A node of the syntax tree: it can give back the token it came from.
pub trait Node {
    spec fn origin(&self) -> Token;

    fn token_literal(&self) -> (t: Token)
        ensures
            t == self.origin(),
    ;
}

/// Marks a node that stands as a statement.
pub trait Statement {
    fn statement_node(&self);
}

/// A statement that is also a node.
pub trait NodeStatement: Node + Statement {

}

/// Marks a node that stands where a value is needed.
pub trait Expression: Node {
    fn expression_node(&self);
}

/// An expression that is also a node.
pub trait NodeExpression: Node + Expression {

}

/// A name used as an expression.
pub struct Identifier {
    pub token: Token,
    pub value: String,
}

/// The kinds of expression.
pub enum ExpressionNode {
    Ident(Identifier),
}

/// `let <name> = <value>;`
pub struct LetStatement {
    pub token: Token,
    pub value: ExpressionNode,
}

/// The kinds of statement.
pub enum StatementNode {
    Let(LetStatement),
}

/// A whole program: its statements in order.
pub struct Program {
    pub statements: Vec<StatementNode>,
}

impl Node for Identifier {
    open spec fn origin(&self) -> Token {
        self.token
    }

    fn token_literal(&self) -> (t: Token) {
        self.token.clone()
    }
}

impl Expression for Identifier {
    fn expression_node(&self) {
    }
}

impl NodeExpression for Identifier {

}

impl Node for ExpressionNode {
    open spec fn origin(&self) -> Token {
        match self {
            ExpressionNode::Ident(i) => i.origin(),
        }
    }

    fn token_literal(&self) -> (t: Token) {
        match self {
            ExpressionNode::Ident(i) => i.token_literal(),
        }
    }
}

impl Expression for ExpressionNode {
    fn expression_node(&self) {
    }
}

impl NodeExpression for ExpressionNode {

}

impl Node for LetStatement {
    open spec fn origin(&self) -> Token {
        self.token
    }

    fn token_literal(&self) -> (t: Token) {
        self.token.clone()
    }
}

impl Statement for LetStatement {
    fn statement_node(&self) {
    }
}

impl NodeStatement for LetStatement {

}

impl Node for StatementNode {
    open spec fn origin(&self) -> Token {
        match self {
            StatementNode::Let(s) => s.origin(),
        }
    }

    fn token_literal(&self) -> (t: Token) {
        match self {
            StatementNode::Let(s) => s.token_literal(),
        }
    }
}

impl Statement for StatementNode {
    fn statement_node(&self) {
    }
}

impl NodeStatement for StatementNode {

}

/// A program stands for the token of its first statement, or for `Illegal`
/// when it has none.
impl Node for Program {
    open spec fn origin(&self) -> Token {
        if self.statements@.len() > 0 {
            self.statements@[0].origin()
        } else {
            Token::Illegal
        }
    }

    fn token_literal(&self) -> (t: Token) {
        if self.statements.len() > 0 {
            self.statements[0].token_literal()
        } else {
            Token::Illegal
        }
    }
}

} // verus!
