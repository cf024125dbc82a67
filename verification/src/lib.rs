//! Reading the command line of a running nfqws2 process: its arguments, the
//! configuration that they describe, and the status report built from them.
pub mod text;
pub mod argument;
pub mod desync;
pub mod config;
pub mod process;
pub mod status;
