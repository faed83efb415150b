use vstd::prelude::*;
use crate::shunting::{pop_higher, pop_to_open, postfix, shunt, shunt_step, yields_to};
use crate::token::{Operator, Token};
use crate::tokenize::{scan, scan_char, tokenize};

verus! {

/// The numbers and operators of `s`, in order.
pub open spec fn without_brackets(s: Seq<Token>) -> Seq<Token>
    decreases s.len(),
{
    if s.len() == 0 {
        s
    } else if s.last() is Bracket {
        without_brackets(s.drop_last())
    } else {
        without_brackets(s.drop_last()).push(s.last())
    }
}

/// The number of opening brackets in `s`.
spec fn opens(s: Seq<Token>) -> nat
    decreases s.len(),
{
    if s.len() == 0 {
        0
    } else if s.last() == Token::Bracket('(') {
        opens(s.drop_last()) + 1
    } else {
        opens(s.drop_last())
    }
}

/// Opening brackets minus closing brackets in `s`.
pub open spec fn depth(s: Seq<Token>) -> int
    decreases s.len(),
{
    if s.len() == 0 {
        0
    } else if s.last() == Token::Bracket('(') {
        depth(s.drop_last()) + 1
    } else if s.last() == Token::Bracket(')') {
        depth(s.drop_last()) - 1
    } else {
        depth(s.drop_last())
    }
}

/// Every closing bracket of `s` closes an earlier opening one, and every
/// opening bracket is closed.
pub open spec fn balanced(s: Seq<Token>) -> bool {
    &&& forall|i: int| 0 <= i <= s.len() ==> depth(#[trigger] s.take(i)) >= 0
    &&& depth(s) == 0
}

/// `s` holds no bracket.
pub open spec fn bracket_free(s: Seq<Token>) -> bool {
    forall|k: int| 0 <= k < s.len() ==> !(#[trigger] s[k] is Bracket)
}

/// `s` holds operators and opening brackets only, as the operator stack does.
spec fn stack_shaped(s: Seq<Token>) -> bool {
    forall|k: int| 0 <= k < s.len() ==> (#[trigger] s[k] is Op || s[k] == Token::Bracket('('))
}

/// What holds of the output and the stack after a prefix of the input.
spec fn shunt_inv(p: Seq<Token>, o: Seq<Token>, s: Seq<Token>) -> bool {
    &&& bracket_free(o)
    &&& stack_shaped(s)
    &&& opens(s) == depth(p)
    &&& o.to_multiset().add(without_brackets(s).to_multiset()) == without_brackets(
        p,
    ).to_multiset()
}

proof fn lemma_pop_higher(o: Seq<Token>, s: Seq<Token>, op: Operator)
    requires
        bracket_free(o),
        stack_shaped(s),
    ensures
        ({
            let (o2, s2) = pop_higher(o, s, op);
            &&& bracket_free(o2)
            &&& stack_shaped(s2)
            &&& opens(s2) == opens(s)
            &&& o2.to_multiset().add(without_brackets(s2).to_multiset()) == o.to_multiset().add(
                without_brackets(s).to_multiset(),
            )
        }),
    decreases s.len(),
{
    broadcast use vstd::seq_lib::group_to_multiset_ensures;

    if s.len() > 0 && yields_to(s.last(), op) {
        let x = s.last();
        let s1 = s.drop_last();
        assert(x is Op);
        assert(stack_shaped(s1)) by {
            assert forall|k: int| 0 <= k < s1.len() implies (#[trigger] s1[k] is Op || s1[k]
                == Token::Bracket('(')) by {
                assert(s1[k] == s[k]);
            }
        }
        assert(bracket_free(o.push(x))) by {
            assert forall|k: int| 0 <= k < o.push(x).len() implies !(#[trigger] o.push(x)[k] is Bracket) by {
                if k < o.len() {
                    assert(o.push(x)[k] == o[k]);
                }
            }
        }
        lemma_pop_higher(o.push(x), s1, op);
        assert(o.push(x).to_multiset().add(without_brackets(s1).to_multiset()) =~= o.to_multiset().add(
            without_brackets(s).to_multiset(),
        ));
    }
}

proof fn lemma_pop_to_open(o: Seq<Token>, s: Seq<Token>)
    requires
        bracket_free(o),
        stack_shaped(s),
    ensures
        ({
            let (o2, s2) = pop_to_open(o, s);
            &&& bracket_free(o2)
            &&& stack_shaped(s2)
            &&& opens(s2) == opens(s)
            &&& opens(s) > 0 ==> s2.len() > 0 && s2.last() == Token::Bracket('(')
            &&& o2.to_multiset().add(without_brackets(s2).to_multiset()) == o.to_multiset().add(
                without_brackets(s).to_multiset(),
            )
        }),
    decreases s.len(),
{
    broadcast use vstd::seq_lib::group_to_multiset_ensures;

    if s.len() > 0 && s.last() != Token::Bracket('(') {
        let x = s.last();
        let s1 = s.drop_last();
        assert(x is Op);
        assert(stack_shaped(s1)) by {
            assert forall|k: int| 0 <= k < s1.len() implies (#[trigger] s1[k] is Op || s1[k]
                == Token::Bracket('(')) by {
                assert(s1[k] == s[k]);
            }
        }
        assert(bracket_free(o.push(x))) by {
            assert forall|k: int| 0 <= k < o.push(x).len() implies !(#[trigger] o.push(x)[k] is Bracket) by {
                if k < o.len() {
                    assert(o.push(x)[k] == o[k]);
                }
            }
        }
        lemma_pop_to_open(o.push(x), s1);
        assert(o.push(x).to_multiset().add(without_brackets(s1).to_multiset()) =~= o.to_multiset().add(
            without_brackets(s).to_multiset(),
        ));
    }
}

proof fn lemma_shunt_inv(t: Seq<Token>, i: int)
    requires
        0 <= i <= t.len(),
        forall|j: int| 0 <= j <= i ==> depth(#[trigger] t.take(j)) >= 0,
    ensures
        shunt_inv(t.take(i), shunt(t.take(i)).0, shunt(t.take(i)).1),
    decreases i,
{
    broadcast use vstd::seq_lib::group_to_multiset_ensures;

    let p1 = t.take(i);
    if i == 0 {
        assert(p1 =~= Seq::<Token>::empty());
        assert(shunt(p1) == (Seq::<Token>::empty(), Seq::<Token>::empty()));
        assert(Seq::<Token>::empty().to_multiset().add(Seq::<Token>::empty().to_multiset())
            =~= Seq::<Token>::empty().to_multiset());
    } else {
        lemma_shunt_inv(t, i - 1);
        let p = t.take(i - 1);
        let x = t[i - 1];
        assert(p1.drop_last() =~= p);
        assert(p1.last() == x);
        let (o, s) = shunt(p);
        assert(shunt(p1) == shunt_step(o, s, x));
        assert(depth(p1) >= 0);
        match x {
            Token::Number(_) => {
                assert(bracket_free(o.push(x))) by {
                    assert forall|k: int| 0 <= k < o.push(x).len() implies !(#[trigger] o.push(
                        x,
                    )[k] is Bracket) by {
                        if k < o.len() {
                            assert(o.push(x)[k] == o[k]);
                        }
                    }
                }
                assert(o.push(x).to_multiset().add(without_brackets(s).to_multiset())
                    =~= without_brackets(p1).to_multiset());
            },
            Token::Op(op) => {
                lemma_pop_higher(o, s, op);
                let (o2, s2) = pop_higher(o, s, op);
                let s3 = s2.push(x);
                assert(s3.drop_last() =~= s2);
                assert(stack_shaped(s3)) by {
                    assert forall|k: int| 0 <= k < s3.len() implies (#[trigger] s3[k] is Op
                        || s3[k] == Token::Bracket('(')) by {
                        if k < s2.len() {
                            assert(s3[k] == s2[k]);
                        }
                    }
                }
                assert(o2.to_multiset().add(without_brackets(s3).to_multiset())
                    =~= without_brackets(p1).to_multiset());
            },
            Token::Bracket(b) => {
                assert(without_brackets(p1) == without_brackets(p));
                if b == '(' {
                    let s3 = s.push(x);
                    assert(s3.drop_last() =~= s);
                    assert(stack_shaped(s3)) by {
                        assert forall|k: int| 0 <= k < s3.len() implies (#[trigger] s3[k] is Op
                            || s3[k] == Token::Bracket('(')) by {
                            if k < s.len() {
                                assert(s3[k] == s[k]);
                            }
                        }
                    }
                    assert(without_brackets(s3) == without_brackets(s));
                } else if b == ')' {
                    lemma_pop_to_open(o, s);
                    let (o2, s2) = pop_to_open(o, s);
                    assert(opens(s) > 0);
                    let s3 = s2.drop_last();
                    assert(stack_shaped(s3)) by {
                        assert forall|k: int| 0 <= k < s3.len() implies (#[trigger] s3[k] is Op
                            || s3[k] == Token::Bracket('(')) by {
                            assert(s3[k] == s2[k]);
                        }
                    }
                    assert(without_brackets(s2) == without_brackets(s3));
                    assert(shunt(p1) == (o2, s3));
                }
            },
        }
    }
}

proof fn lemma_closed_stack(s: Seq<Token>)
    requires
        stack_shaped(s),
        opens(s) == 0,
    ensures
        without_brackets(s) == s,
        bracket_free(s),
    decreases s.len(),
{
    if s.len() > 0 {
        let s1 = s.drop_last();
        assert(stack_shaped(s1)) by {
            assert forall|k: int| 0 <= k < s1.len() implies (#[trigger] s1[k] is Op || s1[k]
                == Token::Bracket('(')) by {
                assert(s1[k] == s[k]);
            }
        }
        assert(s.last() is Op);
        lemma_closed_stack(s1);
        assert(s1.push(s.last()) =~= s);
        assert forall|k: int| 0 <= k < s.len() implies !(#[trigger] s[k] is Bracket) by {
            if k < s1.len() {
                assert(s1[k] == s[k]);
            }
        }
    }
}

/// On input whose brackets are balanced, the postfix form holds no bracket
/// and holds every number and operator of the input, as often as the input
/// does.
pub proof fn lemma_postfix_keeps_operands(tokens: Seq<Token>)
    requires
        balanced(tokens),
    ensures
        bracket_free(postfix(tokens)),
        postfix(tokens).to_multiset() == without_brackets(tokens).to_multiset(),
{
    let n = tokens.len() as int;
    lemma_shunt_inv(tokens, n);
    assert(tokens.take(n) =~= tokens);
    let (o, s) = shunt(tokens);
    lemma_closed_stack(s);
    let r = s.reverse();
    let out = o + r;
    assert(out == postfix(tokens));
    assert forall|k: int| 0 <= k < out.len() implies !(#[trigger] out[k] is Bracket) by {
        if k < o.len() {
            assert(out[k] == o[k]);
        } else {
            assert(out[k] == s[s.len() - 1 - (k - o.len())]);
        }
    }
    s.lemma_reverse_to_multiset();
    vstd::seq_lib::lemma_multiset_commutative(o, r);
}

proof fn lemma_scan_balanced(s: Seq<char>)
    requires
        scan(s) is Ok,
    ensures
        ({
            let (t, d) = scan(s)->Ok_0;
            &&& d == depth(t)
            &&& forall|j: int| 0 <= j <= t.len() ==> depth(#[trigger] t.take(j)) >= 0
        }),
    decreases s.len(),
{
    if s.len() == 0 {
        let t = Seq::<Token>::empty();
        assert forall|j: int| 0 <= j <= t.len() implies depth(#[trigger] t.take(j)) >= 0 by {
            assert(t.take(j) =~= t);
        }
    } else {
        let c = s.last();
        lemma_scan_balanced(s.drop_last());
        let (t, d) = scan(s.drop_last())->Ok_0;
        assert(scan(s) == scan_char(t, d, c));
        let (t2, d2) = scan(s)->Ok_0;
        if t2.len() == t.len() + 1 {
            assert(t2.drop_last() =~= t);
            assert forall|j: int| 0 <= j <= t2.len() implies depth(#[trigger] t2.take(j)) >= 0 by {
                if j <= t.len() {
                    assert(t2.take(j) =~= t.take(j));
                } else {
                    assert(t2.take(j) =~= t2);
                }
            }
        } else if t2 != t {
            let k = t.len() - 1;
            assert(t.last() is Number && t2.last() is Number);
            assert(t2.drop_last() =~= t.drop_last());
            assert(t.take(k) =~= t.drop_last());
            assert forall|j: int| 0 <= j <= t2.len() implies depth(#[trigger] t2.take(j)) >= 0 by {
                if j < t.len() {
                    assert(t2.take(j) =~= t.take(j));
                } else {
                    assert(t2.take(j) =~= t2);
                    assert(t.take(j) =~= t);
                }
            }
        }
    }
}

/// The tokens of a text that tokenizes have balanced brackets.
pub proof fn lemma_tokens_balanced(text: Seq<char>)
    requires
        tokenize(text) is Ok,
    ensures
        balanced(tokenize(text)->Ok_0),
{
    lemma_scan_balanced(text);
}

} // verus!
