//! Verified building blocks: shared memory buffers, `repr` validation for
//! the zerocopy derives, the event registry's bookkeeping and the power
//! controller's request handling.
pub mod repr;
pub mod shared_buffer;
pub mod events;
pub mod power;
