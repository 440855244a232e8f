//! Finds the processes that listen on local TCP ports: parses the output of
//! `lsof`, formats what it found, and decides the steps of the interactive
//! commands that free a port.
pub mod text;
pub mod ports;
pub mod process;
pub mod cli;
pub mod tui;
