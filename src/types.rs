pub use crate::gc::TriColor;
