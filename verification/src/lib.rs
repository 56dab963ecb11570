//! A driver for the Google Edge TPU (DarwiNN) attached over USB.
//!
//! The crate holds no USB host driver and no chip firmware. It reaches the
//! device through the [`Transport`] trait, which the host-controller side
//! implements, and the Apex firmware blob stays in the application.
//!
//! # The three stages
//!
//! 1. DFU. A cold Edge TPU enumerates as [`DFU_VID`]`:`[`DFU_PID`] with no
//!    functional endpoints. [`Dfu`] downloads the firmware in
//!    [`DFU_BLOCK_SIZE`] blocks, verifies it by read-back and detaches; the
//!    device re-enumerates as [`RUNTIME_VID`]`:`[`RUNTIME_PID`].
//! 2. Bring-up. [`Driver::init`] and [`Driver::finish_init`] take the chip from
//!    cold to the run state: chip-ID check, control-path self-test, PHY and
//!    clock-gating setup, a trip through reset, clock-rate selection, tile
//!    configuration, temperature sensor, then
//!    [`csr::RunControl::MoveToRun`] across the scalar core and every tile.
//!    The one wait in between is the caller's.
//! 3. Inference. [`Driver::invoke`] walks an [`Executable`]'s DMA hints,
//!    streams instructions, parameters and input activations out on bulk
//!    endpoint 1, reads output activations back, and waits for the completion
//!    event.
//!
//! # Bounded waits
//!
//! Every register poll is bounded by [`Timeouts::poll_attempts`] and fails with
//! [`Error::PollTimeout`] naming the register; every transfer carries a
//! microsecond timeout handed to the transport; the bulk reassembly loop
//! rejects a zero-length read rather than spinning. No loop in this crate is
//! bounded by anything other than a constant, that poll limit or the length of
//! a caller-provided buffer: counts and dimensions stored in a model are held
//! against the model's length, and executions of a layer against the buffers of
//! a relayout.
//!
//! # Contracts
//!
//! The contracts speak of the transport's history: each [`Transport`] keeps,
//! in specifications only, the list of all transfers made so far, with what
//! was asked and what came back. A function that talks to the device states
//! which transfers it adds, in which order, and how its result follows from
//! the answers. Nothing is assumed of the answers themselves.
//!
//! The readers of [`fb`], [`executable`] and [`layer`] state their results over
//! the bytes of the buffer, for every buffer.
//!
//! # Laws
//!
//! What follows from the contracts for those at the other end is proved apart
//! from them, in plain numbers: [`wire`] for single transfers, [`download`],
//! [`startup`] and [`inference`] for what the device sees of each operation,
//! [`layout`] for where in a buffer things are, and [`tensor`] for where the
//! bytes of an output come from.

pub mod bringup;
pub mod bytes;
pub mod csr;
pub mod dfu;
pub mod download;
pub mod driver;
pub mod error;
pub mod executable;
pub mod fb;
pub mod inference;
pub mod invoke;
pub mod layer;
pub mod layout;
pub mod relayout;
pub mod startup;
pub mod stream;
pub mod tensor;
pub mod transport;
pub mod wire;

pub use bringup::{PerformanceMode, SENSOR_SETTLE_US};
pub use csr::RunControl;
pub use dfu::{
    Dfu, DfuReport, DfuStatus, DETACH_TIMEOUT_MS, DFU_BLOCK_SIZE, DFU_PID, DFU_TIMEOUT_US, DFU_VID,
};
pub use driver::{
    DescriptorTag, Driver, Event, Timeouts, BULK_IN_ENDPOINT, BULK_OUT_ENDPOINT, EVENT_ENDPOINT,
    EVENT_SIZE, HEADER_SIZE, INTERRUPT_ENDPOINT, MAX_BULK_CHUNK, RUNTIME_PID, RUNTIME_VID,
};
pub use error::Error;
pub use executable::{
    Description, Executable, ExecutableType, Hint, LayoutError, MultiExecutable, Package,
};
pub use layer::{DataType, Layer, Numerics};
pub use transport::{Transfer, Transport};
