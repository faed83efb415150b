use vstd::prelude::*;
use crate::token::{tier, Calculator, Operator, Token};

verus! {

/// Whether `top`, lying on the operator stack, leaves it before `op` is
/// pushed: it is an operator of the same or a higher tier (which makes equal
/// tiers associate to the left).
pub open spec fn yields_to(top: Token, op: Operator) -> bool {
    match top {
        Token::Op(t) => tier(t) >= tier(op),
        _ => false,
    }
}

/// Moves operators from the top of `stack` to `out` while they yield to `op`.
pub open spec fn pop_higher(out: Seq<Token>, stack: Seq<Token>, op: Operator) -> (Seq<Token>, Seq<Token>)
    decreases stack.len(),
{
    if stack.len() > 0 && yields_to(stack.last(), op) {
        pop_higher(out.push(stack.last()), stack.drop_last(), op)
    } else {
        (out, stack)
    }
}

/// Moves tokens from the top of `stack` to `out` until an opening bracket is
/// on top or the stack is empty.
pub open spec fn pop_to_open(out: Seq<Token>, stack: Seq<Token>) -> (Seq<Token>, Seq<Token>)
    decreases stack.len(),
{
    if stack.len() > 0 && stack.last() != Token::Bracket('(') {
        pop_to_open(out.push(stack.last()), stack.drop_last())
    } else {
        (out, stack)
    }
}

/// The output and the operator stack after one more input token.
pub open spec fn shunt_step(out: Seq<Token>, stack: Seq<Token>, t: Token) -> (Seq<Token>, Seq<Token>) {
    match t {
        Token::Number(_) => (out.push(t), stack),
        Token::Op(op) => {
            let (o, s) = pop_higher(out, stack, op);
            (o, s.push(t))
        },
        Token::Bracket(b) => if b == '(' {
            (out, stack.push(t))
        } else if b == ')' {
            let (o, s) = pop_to_open(out, stack);
            if s.len() > 0 {
                (o, s.drop_last())
            } else {
                (o, s)
            }
        } else {
            (out, stack)
        },
    }
}

/// The output and the operator stack after all of `tokens`, read left to
/// right.
pub open spec fn shunt(tokens: Seq<Token>) -> (Seq<Token>, Seq<Token>)
    decreases tokens.len(),
{
    if tokens.len() == 0 {
        (Seq::empty(), Seq::empty())
    } else {
        let (o, s) = shunt(tokens.drop_last());
        shunt_step(o, s, tokens.last())
    }
}

/// `tokens` in postfix order: the output, followed by what remains on the
/// stack from the top down.
pub open spec fn postfix(tokens: Seq<Token>) -> Seq<Token> {
    let (o, s) = shunt(tokens);
    o + s.reverse()
}

impl Calculator {
    /// Reorders infix `tokens` into postfix order (shunting-yard). Brackets
    /// are consumed and not passed on.
    pub fn expression(tokens: Vec<Token>) -> (r: Vec<Token>)
        ensures
            r@ == postfix(tokens@),
    {
        let mut queue: Vec<Token> = Vec::new();
        let mut stack: Vec<Token> = Vec::new();
        let n = tokens.len();
        for i in 0..n
            invariant
                n == tokens@.len(),
                shunt(tokens@.take(i as int)) == (queue@, stack@),
        {
            proof {
                assert(tokens@.take(i + 1).drop_last() =~= tokens@.take(i as int));
            }
            let t = tokens[i];
            match t {
                Token::Number(_) => {
                    queue.push(t);
                },
                Token::Op(op) => {
                    let ghost goal = pop_higher(queue@, stack@, op);
                    while stack.len() > 0 && Calculator::yields(stack[stack.len() - 1], op)
                        invariant
                            pop_higher(queue@, stack@, op) == goal,
                        decreases stack.len(),
                    {
                        let top = stack.pop().unwrap();
                        queue.push(top);
                    }
                    stack.push(t);
                },
                Token::Bracket(b) => {
                    if b == '(' {
                        stack.push(t);
                    } else if b == ')' {
                        let ghost goal = pop_to_open(queue@, stack@);
                        while stack.len() > 0 && stack[stack.len() - 1] != Token::Bracket('(')
                            invariant
                                pop_to_open(queue@, stack@) == goal,
                            decreases stack.len(),
                        {
                            let top = stack.pop().unwrap();
                            queue.push(top);
                        }
                        stack.pop();
                    }
                },
            }
        }
        proof {
            assert(tokens@.take(n as int) =~= tokens@);
        }
        let ghost rest = stack@;
        let ghost start = queue@;
        while stack.len() > 0
            invariant
                start + rest.reverse() == queue@ + stack@.reverse(),
            decreases stack.len(),
        {
            let top = stack.pop().unwrap();
            queue.push(top);
        }
        queue
    }

    /// Whether `top` leaves the operator stack before `op` is pushed.
    fn yields(top: Token, op: Operator) -> (r: bool)
        ensures
            r == yields_to(top, op),
    {
        match top {
            Token::Op(t) => t.tier() >= op.tier(),
            _ => false,
        }
    }
}

} // verus!
