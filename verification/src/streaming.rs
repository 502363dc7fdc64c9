//! Streaming: one task takes pictures, another one sends them, and each tells the other how things are.
use crate::camera::JpegFrame;
use vstd::prelude::*;

pub mod camera;
pub mod network;
pub mod wire;

verus! {

/// What the camera is told.
#[derive(Debug)]
pub enum CameraControl {
    /// A graceful shutdown.
    Terminate,
    /// The connection is there, and pictures can be sent.
    NetworkReady,
}

/// What the network is told.
#[derive(Debug)]
pub enum StreamControl {
    /// A graceful shutdown.
    Terminate,
    /// A picture has been taken.
    DataAvailable(JpegFrame),
}

} // verus!
