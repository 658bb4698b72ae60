//! Atlas: a float-free, integer-only inference engine over bf16 weights read as
//! cells ⟨m|n⟩ (odd core m, rung n, sign beside), with exact 256-bit buckets and a
//! single rounding at the gather.

pub mod ball;
pub mod big;
pub mod brocot;
pub mod cache;
pub mod cells;
pub mod clock;
pub mod cub;
pub mod cubfile;
pub mod cubopen;
pub mod cubread;
pub mod cubtrip;
pub mod fiber;
pub mod fiberkernel;
pub mod fold;
pub mod forward;
pub mod gate;
pub mod guess;
pub mod lanes;
pub mod maelstrom;
pub mod oscillator;
pub mod pf;
pub mod quat;
pub mod readback;
pub mod render;
pub mod rns;
pub mod matmul;
pub mod surfaces;
pub mod tp;
