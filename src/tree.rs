use vstd::prelude::*;
use crate::token::{Calculator, Operator, Token};

verus! {

/// An expression tree: a number, or an operator applied to a left and a right
/// operand.
#[derive(Debug, PartialEq)]
pub enum Expr {
    Num(u32),
    Bin(Operator, Box<Expr>, Box<Expr>),
}

/// The stack of operand trees after one more postfix token: a number is
/// pushed; an operator takes the two topmost trees, the lower one as its left
/// operand; `None` where fewer than two are there. Brackets are skipped.
pub open spec fn read_token(stack: Seq<Expr>, t: Token) -> Option<Seq<Expr>> {
    match t {
        Token::Number(n) => Some(stack.push(Expr::Num(n))),
        Token::Op(op) => if stack.len() < 2 {
            None
        } else {
            let right = stack[stack.len() - 1];
            let left = stack[stack.len() - 2];
            Some(stack.take(stack.len() - 2).push(Expr::Bin(op, Box::new(left), Box::new(right))))
        },
        Token::Bracket(_) => Some(stack),
    }
}

/// The stack of operand trees after all of `tokens`, or `None` where an
/// operator lacked operands.
pub open spec fn read_postfix(tokens: Seq<Token>) -> Option<Seq<Expr>>
    decreases tokens.len(),
{
    if tokens.len() == 0 {
        Some(Seq::empty())
    } else {
        match read_postfix(tokens.drop_last()) {
            None => None,
            Some(stack) => read_token(stack, tokens.last()),
        }
    }
}

/// The one tree that the postfix `tokens` describe, or `None` where they
/// describe none: an operator without two operands, no operand at all, or
/// operands left over.
pub open spec fn tree_of(tokens: Seq<Token>) -> Option<Expr> {
    match read_postfix(tokens) {
        Some(stack) => if stack.len() == 1 {
            Some(stack[0])
        } else {
            None
        },
        None => None,
    }
}

impl Calculator {
    /// Arranges the operands of the postfix `tokens` into the expression tree
    /// that evaluating them computes, or `None` where they do not form one
    /// expression.
    pub fn syntax_tree(tokens: Vec<Token>) -> (r: Option<Expr>)
        ensures
            r == tree_of(tokens@),
    {
        let mut stack: Vec<Expr> = Vec::new();
        let n = tokens.len();
        for i in 0..n
            invariant
                n == tokens@.len(),
                read_postfix(tokens@.take(i as int)) == Some(stack@),
        {
            proof {
                assert(tokens@.take(i + 1).drop_last() =~= tokens@.take(i as int));
            }
            match tokens[i] {
                Token::Number(v) => {
                    stack.push(Expr::Num(v));
                },
                Token::Op(op) => {
                    if stack.len() < 2 {
                        proof {
                            lemma_read_stops(tokens@, i + 1);
                        }
                        return None;
                    }
                    let ghost before = stack@;
                    let right = stack.pop().unwrap();
                    let left = stack.pop().unwrap();
                    stack.push(Expr::Bin(op, Box::new(left), Box::new(right)));
                    proof {
                        assert(stack@ =~= before.take(before.len() - 2).push(
                            Expr::Bin(op, Box::new(left), Box::new(right)),
                        ));
                    }
                },
                Token::Bracket(_) => {},
            }
        }
        proof {
            assert(tokens@.take(n as int) =~= tokens@);
        }
        if stack.len() == 1 {
            stack.pop()
        } else {
            None
        }
    }
}

/// Once an operator has lacked operands, the rest of the tokens are not read.
proof fn lemma_read_stops(tokens: Seq<Token>, i: int)
    requires
        0 <= i <= tokens.len(),
        read_postfix(tokens.take(i)) is None,
    ensures
        read_postfix(tokens) is None,
    decreases tokens.len() - i,
{
    if i < tokens.len() {
        assert(tokens.take(i + 1).drop_last() =~= tokens.take(i));
        lemma_read_stops(tokens, i + 1);
    } else {
        assert(tokens.take(i) =~= tokens);
    }
}

} // verus!
