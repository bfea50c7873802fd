//! Acquisition-and-persistence core for a solar charge controller's
//! telemetry: exact decimals, wire-line decoding, control-command encoding, line assembly,
//! batched persistence and the acquisition state machine.
pub mod acquisition;
pub mod buffer;
pub mod decimal;
pub mod field;
pub mod line;
pub mod menu;
pub mod sample;
pub mod switch;
pub mod text;
pub mod wire;
