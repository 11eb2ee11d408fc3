//! A fixed-capacity ring arena of variable-length records. Writers reserve
//! records and finish them in any order; readers see them strictly in
//! reservation order. Readers give records back in any order; their space is
//! reclaimed strictly in consumption order.
pub mod codec;
pub mod layout;
pub mod model;
pub mod arena;
pub mod laws;

pub use arena::{
    BufferAddValueError, BufferGetValueError, CircullarBuffer, ReservedMemory, ReturnedValue,
    BUFFER_SIZE,
};
pub use layout::{align_ptr_to_usize, WORD};
