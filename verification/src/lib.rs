//! A fixed-capacity wheel buffer: a ring that overwrites its oldest item when
//! full and that any number of readers may walk without consuming it.
//!
//! The buffer allocates nothing. It works over any backing store that can be
//! seen as a slice ([`Storage`]), such as an array or a vector, owned or
//! borrowed.
//!
//! * [`ring`] holds the mathematical model: where the live items sit in the
//!   slots, and how a push, a read and a take move the indices.
//! * [`storage`] is the capability a backing store has to offer.
//! * [`wheel`] is the buffer itself, [`iter`] its non-destructive reader and
//!   [`drain`] its destructive one.
//! * [`text`] lets a buffer of characters take text.
//! * [`laws`] states what holds of whole runs of pushes, reads and takes.
pub mod drain;
pub mod iter;
pub mod laws;
pub mod ring;
pub mod storage;
pub mod text;
pub mod wheel;

pub use drain::WheelBufDrain;
pub use iter::WheelBufIter;
pub use storage::Storage;
pub use wheel::WheelBuf;
