//! Matrix structure, formula selection and text layout for a small
//! physics-and-linear-algebra toolkit.

mod text;
pub mod complex;
pub mod layout;
pub mod lu;
pub mod lu_inverse_laws;
pub mod lu_laws;
pub mod lu_product_laws;
pub mod matrix;
pub mod matrix_laws;
pub mod ohms_law;
pub mod ops;
pub mod physics_1;
pub mod refraction_law;
pub mod two_by_two;

pub use complex::complex_text;
pub use matrix::{matmul, product_shape, Matrix, MatrixError, MatrixModel};
pub use ohms_law::{ohms_law_plan, OhmsError, OhmsForm};
pub use physics_1::{f_ma_plan, FmaError, FmaForm};
pub use refraction_law::{snells_law_plan, SnellError, SnellForm};
pub use text::same_text;
