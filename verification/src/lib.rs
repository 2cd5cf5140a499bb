//! Verified core of a small collection of command-line tools: a zero-copy
//! log parser and log generator, a packet header analyzer with traffic
//! statistics, a traffic-light state machine, and a few utility routines.

pub mod text;
pub mod log_line;
pub mod generate;
pub mod cli;
pub mod packet;
pub mod traffic_light;
pub mod lookup;
pub mod bench;
pub mod sequences;
pub mod ids;
