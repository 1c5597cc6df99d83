//! Verified building blocks of a competitive-programming toolkit: number
//! theory, primality and factorisation, a xorshift generator, a whitespace
//! tokenizer with value parsers, and the sample handling used to test a
//! solution against an online judge's examples.
pub mod algebra;
pub mod boj;
pub mod fastio;
pub mod fermat;
pub mod prime;
pub mod rng;
