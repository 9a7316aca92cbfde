//! Realtime background matting for webcam streams.
//!
//! `prepare` turns a stock model into one that can be compiled: `freeze`
//! rewrites its graph, which `onnx` reads and changes and `wire` looks at before
//! it is parsed, and `manifest` records what it was made from and for.
//! A running stream goes from `capture` through `pipeline` to `sink`: `convert`
//! changes colour spaces, `model` keeps what the network remembers from frame
//! to frame, `composite` lays the result over a background, and `stream` says
//! what to do when a frame fails.
//!
//! Pixels and alpha are binary32 values. `single` computes with their bit
//! patterns, and what it computes is stated over the exact values that `number`
//! gives them.

pub mod capture;
pub mod cli;
pub mod composite;
pub mod convert;
pub mod freeze;
pub mod manifest;
pub mod model;
pub mod number;
pub mod onnx;
pub mod packing;
pub mod pipeline;
pub mod precision;
pub mod prepare;
pub mod rounding;
pub mod single;
pub mod sink;
pub mod stream;
pub mod text;
pub mod whole;
pub mod wire;
