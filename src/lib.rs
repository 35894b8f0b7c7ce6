//! The execution substrate of a block-structured dataflow engine: the stream
//! element protocol, send-side batching, the shuffle at the end of each block,
//! and the two-stage fold and reduce kernels.
pub mod batcher;
pub mod element;
pub mod end;
pub mod fold;
pub mod keyed;
pub mod stream;
pub mod window;
