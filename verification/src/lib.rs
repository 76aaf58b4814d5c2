//! Solving quadratic equations over prime fields symbolically.
pub mod bits;
pub mod decomposition;
pub mod effect;
pub mod field;
pub mod form;
pub mod goldilocks;
pub mod koala_bear;
pub mod laws;
pub mod linear;
pub mod mentions;
pub mod modular;
pub mod outcomes;
pub mod params;
pub mod precision;
pub mod printing;
pub mod quadratic;
pub mod quadratic_symbolic_expression;
pub mod range_constraint;
pub mod readings;
pub mod references;
pub mod solution;
pub mod solve;
pub mod sorting;
pub mod structure;
pub mod symbolic_expression;
pub mod text;
pub mod variable;
pub mod variable_update;
