//! Core engines of a telemetry relay that sits between a radio modem on a
//! serial line and a vehicle-internal CAN bus.
//!
//! The crate holds the protocol logic only; all I/O stays with the caller:
//! - [`framer::Framer`] turns an untrusted, chunked byte stream into frames;
//! - [`ingest::SerialRingbuffer`] stages bytes between an asynchronous
//!   reader and the deframer;
//! - [`sender::LSTSender`] builds outgoing frames and single-byte commands;
//! - [`telemetry`] decodes local command replies, telemetry included;
//! - [`reassembly::RodosCanReceiver`] reassembles logical messages out of
//!   small, lossy CAN fragments.

pub mod frame;
pub mod framer;
pub mod ingest;
pub mod reassembly;
pub mod sender;
pub mod telemetry;
