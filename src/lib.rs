//! An arithmetic expression evaluator in three verified stages: a tokenizer,
//! an infix-to-postfix converter (shunting-yard) and a postfix reader that
//! arranges the operands into an expression tree.

mod token;
mod tokenize;
mod shunting;
mod tree;
mod chain;
mod balance;

pub use token::{tier, CalcError, Calculator, Operator, Token};
pub use tokenize::{lemma_digits_give_one_number, append_digit, digit_of, digits_value, is_digit, scan, scan_char, tokenize};
pub use shunting::{pop_higher, pop_to_open, postfix, shunt, shunt_step, yields_to};
pub use tree::{read_postfix, read_token, tree_of, Expr};
pub use chain::{is_flat_chain, left_fold_postfix, left_fold_tree, lemma_one_tier_folds_left, one_tier};
pub use balance::{balanced, bracket_free, depth, lemma_postfix_keeps_operands, lemma_tokens_balanced, without_brackets};
