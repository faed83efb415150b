use vstd::prelude::*;
use crate::shunting::{pop_higher, postfix, shunt, shunt_step};
use crate::token::{tier, Token};
use crate::tree::{read_postfix, read_token, tree_of, Expr};

verus! {

/// `tokens` alternate numbers and operators, begin and end with a number, and
/// hold no bracket.
pub open spec fn is_flat_chain(tokens: Seq<Token>) -> bool {
    &&& tokens.len() % 2 == 1
    &&& forall|i: int|
        0 <= i < tokens.len() ==> if i % 2 == 0 {
            #[trigger] tokens[i] is Number
        } else {
            tokens[i] is Op
        }
}

/// All operators of `tokens` are of one precedence tier.
pub open spec fn one_tier(tokens: Seq<Token>) -> bool {
    forall|i: int, j: int|
        #![trigger tokens[i], tokens[j]]
        0 <= i < tokens.len() && 0 <= j < tokens.len() && tokens[i] is Op && tokens[j] is Op ==> tier(tokens[i]->Op_0) == tier(tokens[j]->Op_0)
}

/// The postfix form of a flat chain evaluated from left to right:
/// `n0 n1 op1 n2 op2 ...`.
pub open spec fn left_fold_postfix(tokens: Seq<Token>) -> Seq<Token>
    decreases tokens.len(),
{
    if tokens.len() <= 1 {
        tokens
    } else {
        left_fold_postfix(tokens.take(tokens.len() - 2)) + seq![
            tokens[tokens.len() - 1],
            tokens[tokens.len() - 2],
        ]
    }
}

/// The tree of a flat chain evaluated from left to right:
/// `(((n0 op1 n1) op2 n2) ...)`.
pub open spec fn left_fold_tree(tokens: Seq<Token>) -> Expr
    decreases tokens.len(),
{
    if tokens.len() <= 1 {
        Expr::Num(tokens[0]->Number_0)
    } else {
        Expr::Bin(
            tokens[tokens.len() - 2]->Op_0,
            Box::new(left_fold_tree(tokens.take(tokens.len() - 2))),
            Box::new(Expr::Num(tokens[tokens.len() - 1]->Number_0)),
        )
    }
}

/// A bracket-free expression whose operators share one precedence tier is
/// put in postfix order as a left-to-right fold, and so denotes the tree that
/// evaluates it from left to right.
pub proof fn lemma_one_tier_folds_left(tokens: Seq<Token>)
    requires
        is_flat_chain(tokens),
        one_tier(tokens),
    ensures
        postfix(tokens) == left_fold_postfix(tokens),
        tree_of(postfix(tokens)) == Some(left_fold_tree(tokens)),
{
    let m = tokens.len() as int;
    lemma_shunt_chain(tokens, m);
    lemma_read_chain(tokens, m);
    assert(tokens.take(m) =~= tokens);
    if m >= 3 {
        let (o, s) = shunt(tokens);
        assert(o + s.reverse() =~= left_fold_postfix(tokens));
    } else {
        assert(postfix(tokens) =~= left_fold_postfix(tokens));
    }
}

proof fn lemma_shunt_chain(tokens: Seq<Token>, m: int)
    requires
        is_flat_chain(tokens),
        one_tier(tokens),
        1 <= m <= tokens.len(),
        m % 2 == 1,
    ensures
        m == 1 ==> shunt(tokens.take(m)) == (tokens.take(1), Seq::<Token>::empty()),
        m >= 3 ==> shunt(tokens.take(m)) == (
            left_fold_postfix(tokens.take(m - 2)).push(tokens[m - 1]),
            seq![tokens[m - 2]],
        ),
    decreases m,
{
    let e = Seq::<Token>::empty();
    let p = tokens.take(m);
    assert(tokens[m - 1] is Number);
    assert(p.last() == tokens[m - 1]);
    if m == 1 {
        assert(p.drop_last() =~= e);
        assert(shunt(e) == (e, e));
        assert(shunt(p) == shunt_step(e, e, tokens[0]));
        assert(e.push(tokens[0]) =~= p);
    } else {
        lemma_shunt_chain(tokens, m - 2);
        let q = tokens.take(m - 2);
        let r = tokens.take(m - 1);
        assert(r.drop_last() =~= q);
        assert(p.drop_last() =~= r);
        assert(r.last() == tokens[m - 2]);
        assert(tokens[m - 2] is Op);
        let op = tokens[m - 2]->Op_0;
        let (o, s) = shunt(q);
        assert(shunt(r) == shunt_step(o, s, tokens[m - 2]));
        let (o2, s2) = pop_higher(o, s, op);
        assert(shunt(r) == (o2, s2.push(tokens[m - 2])));
        assert(shunt(p) == shunt_step(o2, s2.push(tokens[m - 2]), tokens[m - 1]));
        if m == 3 {
            assert(s == e);
            assert(o2 == o && s2 == s);
            assert(o =~= left_fold_postfix(q));
            assert(s2.push(tokens[1]) =~= seq![tokens[1]]);
        } else {
            assert(tokens[m - 4] is Op);
            assert(tier(tokens[m - 4]->Op_0) == tier(op));
            let s1 = s.drop_last();
            assert(s1 =~= e);
            assert(pop_higher(o, s, op) == pop_higher(o.push(s.last()), s1, op));
            assert(pop_higher(o.push(s.last()), s1, op) == (o.push(s.last()), s1));
            assert(q.take(q.len() - 2) =~= tokens.take(m - 4));
            assert(left_fold_postfix(q) =~= o.push(s.last()));
            assert(s1.push(tokens[m - 2]) =~= seq![tokens[m - 2]]);
        }
    }
}

proof fn lemma_read_chain(tokens: Seq<Token>, m: int)
    requires
        is_flat_chain(tokens),
        1 <= m <= tokens.len(),
        m % 2 == 1,
    ensures
        read_postfix(left_fold_postfix(tokens.take(m))) == Some(
            seq![left_fold_tree(tokens.take(m))],
        ),
    decreases m,
{
    let e = Seq::<Expr>::empty();
    let p = tokens.take(m);
    assert(tokens[m - 1] is Number);
    let num = Expr::Num(tokens[m - 1]->Number_0);
    if m == 1 {
        assert(left_fold_postfix(p) == p);
        assert(p.drop_last() =~= Seq::<Token>::empty());
        assert(read_postfix(Seq::<Token>::empty()) == Some(e));
        assert(p.last() == tokens[0]);
        assert(read_postfix(p) == read_token(e, tokens[0]));
        assert(e.push(num) =~= seq![left_fold_tree(p)]);
    } else {
        lemma_read_chain(tokens, m - 2);
        assert(tokens[m - 2] is Op);
        let op = tokens[m - 2]->Op_0;
        assert(p.take(m - 2) =~= tokens.take(m - 2));
        let a = left_fold_postfix(tokens.take(m - 2));
        let t = left_fold_tree(tokens.take(m - 2));
        let whole = a + seq![tokens[m - 1], tokens[m - 2]];
        assert(left_fold_postfix(p) == whole);
        assert(whole.drop_last() =~= a.push(tokens[m - 1]));
        assert(a.push(tokens[m - 1]).drop_last() =~= a);
        assert(read_postfix(a.push(tokens[m - 1])) == read_token(seq![t], tokens[m - 1]));
        let two = seq![t].push(num);
        assert(read_postfix(whole) == read_token(two, tokens[m - 2]));
        let tree = Expr::Bin(op, Box::new(t), Box::new(num));
        assert(two[1] == num && two[0] == t);
        assert(two.take(0).push(tree) =~= seq![tree]);
        assert(left_fold_tree(p) == tree);
    }
}

} // verus!
