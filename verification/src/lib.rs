//! Core of a serial-port monitor for an industrial measurement rig.
//!
//! The library contains the logic of the pipeline: framing and parsing of the
//! line protocol, the reconnecting reader state machine, message routing into
//! typed state, the bounded log ring, and the scrolling raster buffer that
//! visualizes sensor intensity over time. All I/O (the serial port itself and
//! the window toolkit) lives outside, in a thin shell that hands this library
//! plain values.

pub mod locator;
pub mod message;
pub mod numbers;
pub mod panes;
pub mod parser;
pub mod queue;
pub mod raster;
pub mod reader;
pub mod ring;
pub mod state;
pub mod text;
