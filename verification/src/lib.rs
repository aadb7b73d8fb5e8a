pub mod arg;
pub mod clip;
pub mod error;
pub mod laws;
pub mod table;
pub mod text;

pub use crate::arg::{create_arg, Argument, Mode, Parameter, Type};
pub use crate::clip::{Clip, Input};
pub use crate::error::Error;
