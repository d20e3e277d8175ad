//! Arithmetic in the prime field that the sketch works over.
pub mod evaluator;
pub mod fermat;
pub mod field;
pub mod modint;
pub mod residue;
pub mod roots;

pub use evaluator::MonicPolynomialEvaluator;
pub use field::MODULUS;
pub use modint::ModularInteger;
