pub mod copy;
pub mod measure;

pub use copy::strided_copy;
