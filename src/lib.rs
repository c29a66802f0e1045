//! Writing values into byte buffers laid out as GPU shaders expect them,
//! under the std430 and std140 packing rules.

pub mod layout;
pub mod sink;
pub mod values;
pub mod writer;

pub use layout::{padding_needed, Convention, Layout};
pub use sink::{BoundedBuffer, ByteSink, SinkError};
pub use values::{Std430, UVec2, UVec3, UVec4};
pub use writer::{WriteError, Writer};
