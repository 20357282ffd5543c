//! Reply and error information of the hops of a tunnel.

pub mod error;
pub mod multi;
