//! The standalone server around one node: its arguments and its HTTP routes.
pub mod args;
pub mod route;
