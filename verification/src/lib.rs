//! Streams pictures from a camera to Kinesis Video Streams.
//!
//! A camera gives JPEGs ([`camera`]). They are decoded ([`jpeg`]) and encoded as H.264
//! ([`codec`], [`annexb`], [`avcc`]), put into a Matroska container ([`ebml`], [`mkv`]), and sent over a
//! connection that a signed request opens ([`kvs`], [`streaming`]). This crate holds everything that is
//! decided and computed on the way. Devices, sockets, threads and files are left to the program around it.
pub mod annexb;
pub mod avcc;
pub mod camera;
pub mod clock;
pub mod codec;
pub mod ebml;
pub mod jpeg;
pub mod kvs;
pub mod lifecycle;
pub mod mkv;
pub mod monitoring;
pub mod streaming;
pub mod uid;
