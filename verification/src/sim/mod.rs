pub mod clock;
pub mod gate;
pub mod half_adder;
pub mod latch;
pub mod memory;
pub mod mux2;
pub mod transistor;
pub mod truth;
pub mod xnor;
pub mod xor;

pub use transistor::{
    CapacitorState, GateDescriptor, SignalGraph, SignalId, SignalState, TransistorId,
    TransistorKind,
};
