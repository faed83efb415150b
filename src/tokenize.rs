use vstd::prelude::*;
use crate::token::{CalcError, Calculator, Operator, Token};

verus! {

/// Whether `c` is a decimal digit.
pub open spec fn is_digit(c: char) -> bool {
    '0' <= c && c <= '9'
}

/// The value of a decimal digit.
pub open spec fn digit_of(c: char) -> nat {
    (c as u32 - '0' as u32) as nat
}

/// `n * 10 + d`, saturated at `u32::MAX`.
pub open spec fn append_digit(n: u32, d: nat) -> u32 {
    if n * 10 + d <= u32::MAX {
        (n * 10 + d) as u32
    } else {
        u32::MAX
    }
}

/// The tokenizer's state after one more character: the tokens so far and the
/// number of brackets still open, or the error that stops it.
pub open spec fn scan_char(tokens: Seq<Token>, depth: nat, c: char) -> Result<
    (Seq<Token>, nat),
    CalcError,
> {
    if is_digit(c) {
        if tokens.len() > 0 && tokens.last() is Number {
            Ok(
                (
                    tokens.update(
                        tokens.len() - 1,
                        Token::Number(append_digit(tokens.last()->Number_0, digit_of(c))),
                    ),
                    depth,
                ),
            )
        } else {
            Ok((tokens.push(Token::Number(digit_of(c) as u32)), depth))
        }
    } else if c == '(' {
        Ok((tokens.push(Token::Bracket('(')), depth + 1))
    } else if c == ')' {
        if depth == 0 {
            Err(CalcError::MismatchedParens)
        } else {
            Ok((tokens.push(Token::Bracket(')')), (depth - 1) as nat))
        }
    } else if c == '+' {
        Ok((tokens.push(Token::Op(Operator::Add)), depth))
    } else if c == '-' {
        Ok((tokens.push(Token::Op(Operator::Sub)), depth))
    } else if c == '*' {
        Ok((tokens.push(Token::Op(Operator::Mul)), depth))
    } else if c == '/' {
        Ok((tokens.push(Token::Op(Operator::Div)), depth))
    } else if c == ' ' || c == '\n' {
        Ok((tokens, depth))
    } else {
        Err(CalcError::BadToken(c))
    }
}

/// The tokenizer's state after reading all of `s` from left to right; the
/// first error met stops it.
pub open spec fn scan(s: Seq<char>) -> Result<(Seq<Token>, nat), CalcError>
    decreases s.len(),
{
    if s.len() == 0 {
        Ok((Seq::empty(), 0))
    } else {
        match scan(s.drop_last()) {
            Err(e) => Err(e),
            Ok((tokens, depth)) => scan_char(tokens, depth, s.last()),
        }
    }
}

/// The tokens of `s`, or why it has none: a bracket left open at the end is a
/// mismatch too.
pub open spec fn tokenize(s: Seq<char>) -> Result<Seq<Token>, CalcError> {
    match scan(s) {
        Err(e) => Err(e),
        Ok((tokens, depth)) => if depth == 0 {
            Ok(tokens)
        } else {
            Err(CalcError::MismatchedParens)
        },
    }
}

/// The value of a string of decimal digits.
pub open spec fn digits_value(s: Seq<char>) -> nat
    decreases s.len(),
{
    if s.len() == 0 {
        0
    } else {
        digits_value(s.drop_last()) * 10 + digit_of(s.last())
    }
}

/// Once the tokenizer has stopped on an error, the rest of the text is not
/// read.
proof fn lemma_scan_stops(s: Seq<char>, i: int)
    requires
        0 <= i <= s.len(),
        scan(s.take(i)) is Err,
    ensures
        scan(s) == scan(s.take(i)),
    decreases s.len() - i,
{
    if i < s.len() {
        assert(s.take(i + 1).drop_last() =~= s.take(i));
        lemma_scan_stops(s, i + 1);
    } else {
        assert(s.take(i) =~= s);
    }
}

/// A nonempty string of digits whose value fits in `u32` is one number token
/// of that value.
pub proof fn lemma_digits_give_one_number(s: Seq<char>)
    requires
        s.len() > 0,
        forall|i: int| 0 <= i < s.len() ==> is_digit(#[trigger] s[i]),
        digits_value(s) <= u32::MAX,
    ensures
        tokenize(s) == Ok::<Seq<Token>, CalcError>(seq![Token::Number(digits_value(s) as u32)]),
{
    lemma_scan_digits(s);
}

proof fn lemma_scan_digits(s: Seq<char>)
    requires
        s.len() > 0,
        forall|i: int| 0 <= i < s.len() ==> is_digit(#[trigger] s[i]),
        digits_value(s) <= u32::MAX,
    ensures
        scan(s) == Ok::<(Seq<Token>, nat), CalcError>(
            (seq![Token::Number(digits_value(s) as u32)], 0),
        ),
    decreases s.len(),
{
    let p = s.drop_last();
    assert(is_digit(s[s.len() - 1]));
    if s.len() == 1 {
        assert(p.len() == 0);
        assert(seq![].push(Token::Number(digit_of(s.last()) as u32)) =~= seq![
            Token::Number(digits_value(s) as u32),
        ]);
    } else {
        assert forall|i: int| 0 <= i < p.len() implies is_digit(#[trigger] p[i]) by {
            assert(p[i] == s[i]);
        }
        lemma_scan_digits(p);
        let v = digits_value(p) as u32;
        assert(seq![Token::Number(v)].update(0, Token::Number(append_digit(v, digit_of(s.last()))))
            =~= seq![Token::Number(digits_value(s) as u32)]);
    }
}

impl Calculator {
    /// Splits `expr` into tokens. Consecutive digits form one number; a number
    /// too large for `u32` is held at `u32::MAX`. Spaces and newlines are
    /// skipped.
    pub fn parse(expr: &str) -> (r: Result<Vec<Token>, CalcError>)
        ensures
            match r {
                Ok(tokens) => tokenize(expr@) == Ok::<Seq<Token>, CalcError>(tokens@),
                Err(e) => tokenize(expr@) == Err::<Seq<Token>, CalcError>(e),
            },
    {
        let mut tokens: Vec<Token> = Vec::new();
        let mut open: Vec<char> = Vec::new();
        for c in it: expr.chars()
            invariant
                it.seq() == expr@,
                scan(expr@.take(it.index() as int)) == Ok::<(Seq<Token>, nat), CalcError>(
                    (tokens@, open@.len()),
                ),
        {
            proof {
                assert(expr@.take(it.index() + 1).drop_last() =~= expr@.take(it.index() as int));
            }
            if '0' <= c && c <= '9' {
                let d: u32 = c as u32 - '0' as u32;
                let len = tokens.len();
                let last: Option<u32> = if len > 0 {
                    match tokens[len - 1] {
                        Token::Number(n) => Some(n),
                        _ => None,
                    }
                } else {
                    None
                };
                match last {
                    Some(n) => {
                        let wide: u64 = n as u64 * 10 + d as u64;
                        let next: u32 = if wide <= u32::MAX as u64 {
                            wide as u32
                        } else {
                            u32::MAX
                        };
                        tokens.set(len - 1, Token::Number(next));
                    },
                    None => {
                        tokens.push(Token::Number(d));
                    },
                }
            } else if c == '(' {
                tokens.push(Token::Bracket('('));
                open.push(c);
            } else if c == ')' {
                if open.pop().is_none() {
                    proof {
                        lemma_scan_stops(expr@, it.index() + 1);
                    }
                    return Err(CalcError::MismatchedParens);
                }
                tokens.push(Token::Bracket(')'));
            } else if c == '+' {
                tokens.push(Token::Op(Operator::Add));
            } else if c == '-' {
                tokens.push(Token::Op(Operator::Sub));
            } else if c == '*' {
                tokens.push(Token::Op(Operator::Mul));
            } else if c == '/' {
                tokens.push(Token::Op(Operator::Div));
            } else if c == ' ' || c == '\n' {
            } else {
                proof {
                    lemma_scan_stops(expr@, it.index() + 1);
                }
                return Err(CalcError::BadToken(c));
            }
        }
        proof {
            assert(expr@.take(expr@.len() as int) =~= expr@);
        }
        if open.len() > 0 {
            return Err(CalcError::MismatchedParens);
        }
        Ok(tokens)
    }
}

} // verus!
