//! A control panel's parameter store: named, typed values kept in registration order,
//! packed into a 16-byte-aligned byte block for upload as a GPU uniform buffer.
pub mod align;
pub mod controls;
pub mod persist_order_map;
pub mod value;
