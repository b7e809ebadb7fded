//! A freestanding memory-management core: a page-granular bump allocator
//! modelled down to the bytes of each mapped region, a growable byte buffer
//! with copy-on-grow semantics built on top of it, a text buffer specialised
//! to UTF-8 bytes, and an integer-to-decimal renderer that writes into the
//! text buffer.

pub mod allocator;
pub mod buffer;
pub mod io;
pub mod text;
