//! Interactive connectivity establishment.

pub mod ice_connection;
