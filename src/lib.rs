pub mod field;
pub mod hash;
pub mod merkle;
pub mod modular;
pub mod poly_math;
pub mod polynomial;
