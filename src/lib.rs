// Detection of under-constrained cells in arithmetic circuits by abstract
// evaluation of gate expressions over a three-valued domain.

pub mod analyzer;
pub mod domain;
pub mod eval;
pub mod expr;
pub mod extract;
