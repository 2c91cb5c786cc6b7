//! An ordered binary search tree with lazy, stack-machine traversal
//! producers, together with two small expression utilities (a postfix
//! evaluator and an infix-to-postfix converter) and a dense integer
//! matrix.  Every function carries a contract checked by Verus.

pub mod infix;
pub mod matrix;
pub mod postfix;
pub mod tree;
