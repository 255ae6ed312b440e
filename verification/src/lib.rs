//! A framed, encrypted byte stream over a Noise session in transport mode,
//! written so that it never touches the transport itself.

pub mod buffer;
pub mod frame;
pub mod io;
pub mod laws;
pub mod model;
pub mod relay;
pub mod session;
pub mod state;
pub mod wire;
