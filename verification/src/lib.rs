//! Control-plane building blocks of a congestion-control agent:
//! the wire codec spoken with the datapath, and the front-end of the
//! s-expression language in which control programs are written.

pub mod error;
pub mod lang;
pub mod pattern;
pub mod serialize;
pub mod text;
