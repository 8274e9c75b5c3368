pub mod applicable;
pub mod backtrack;
pub mod canon;
pub mod logic;
pub mod persist;
pub mod rpn;
pub mod session;
pub mod space;
pub mod strategies;
