//! Correlated-subset search: among all k-sized subsets of a question set,
//! find the subsets whose summed per-user scores correlate most strongly
//! with each user's grand total across all questions.
use vstd::prelude::*;
use vstd::string::StringExecFns;

pub mod bignum;
pub mod bitset;
pub mod combos;
pub mod corr;
pub mod domain;
pub mod engine;
pub mod fused;
pub mod outer;
pub mod scorer;
pub mod store;
pub mod sums;
pub mod topn;
pub mod utils;

verus! {

/// A respondent identity, opaque to the engine.
#[derive(PartialEq, Eq, Hash, Clone, Debug)]
pub struct User(pub String);

/// An item identity, opaque to the engine.
#[derive(PartialEq, Eq, Hash, Clone, Debug)]
pub struct Question(pub String);

/// One observation: `user` answered `question` and obtained `score`.
#[derive(Clone, Debug)]
pub struct Row {
    pub user: User,
    pub question: Question,
    pub score: u32,
}

/// The mathematical content of a row: the two identities and the score.
pub struct RowV {
    pub user: Seq<char>,
    pub question: Seq<char>,
    pub score: int,
}

impl View for Row {
    type V = RowV;

    open spec fn view(&self) -> RowV {
        RowV { user: self.user.0@, question: self.question.0@, score: self.score as int }
    }
}

/// Errors of the engine.
#[derive(PartialEq, Eq, Structural, Clone, Copy, Debug)]
pub enum CorrSetError {
    /// A lookup of an identity that was never seen when the domain was built.
    UnknownIdentity,
    /// A subset size of zero, on which enumeration is undefined.
    InvalidSubsetSize,
}

/// The names of the candidate-evaluation strategies.
pub fn inner_names() -> (r: Vec<String>)
    ensures
        r@.len() == 3,
{
    let mut v: Vec<String> = Vec::new();
    v.push(String::from_str("0_naive"));
    v.push(String::from_str("1_bitset"));
    v.push(String::from_str("2_ivec"));
    v
}

/// The names of the evaluation-loop strategies.
pub fn outer_names() -> (r: Vec<String>)
    ensures
        r@.len() == 3,
{
    let mut v: Vec<String> = Vec::new();
    v.push(String::from_str("0_serial"));
    v.push(String::from_str("1_parallel"));
    v.push(String::from_str("2_chunked"));
    v
}

} // verus!
