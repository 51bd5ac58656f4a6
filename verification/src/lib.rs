//! Arbitrary-precision digit expansions of real numbers: regular continued
//! fractions and Gosper's continued logarithms, extracted either from an
//! exact rational or from a bracketing pair of convergents of a generalized
//! continued fraction, with binary-splitting acceleration and an adaptive
//! advancement schedule.

pub mod bigint;
pub mod brackets;
pub mod fractions;
pub mod logs;
pub mod math_consts;
pub mod nums;
pub mod regular;
pub mod series;

pub use brackets::KFrac;
pub use brackets::TermGen;
pub use fractions::Frac;
pub use logs::KLog;
pub use logs::KLogOps;
pub use regular::RedError;
pub use regular::RegFrac;
pub use regular::RegFracOps;
pub use series::Series;
