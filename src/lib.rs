//! Savestates for emulators: a codec that stores composite state into bytes and loads it back,
//! in two formats behind one interface. The transient format is native-order and carries no
//! structure, for fast in-memory snapshots; the persistent format is little-endian, checks every
//! read, and follows each struct with a directory of its field names, so that saves stay loadable
//! when fields are added, removed or reordered. A fixed-capacity ring buffer and a discrete-event
//! schedule are kept here too, the buffer storable through the codec.
pub mod raw;
pub mod value;
pub mod write;
pub mod read;
pub mod codec;
pub mod schedule;
pub mod laws;
pub mod fifo;
pub mod mem;
