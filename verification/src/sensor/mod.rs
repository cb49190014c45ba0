//! Screen capture frames, EXP digit reading and the sampling state machine.

pub mod blocks;
pub mod capture;
pub mod digits;
pub mod ocr;
pub mod readback;
pub mod region;
pub mod sampler;
