//! An append-only store of links with per-record vote tallies, kept inside a
//! fixed-capacity account buffer owned by a host runtime.
//!
//! The store is serialised in a canonical little-endian layout (see
//! [`codec`]); every operation decodes the buffer, computes the new state and
//! writes it back only when the whole result fits, so a failed call leaves the
//! buffer byte-for-byte unchanged.

pub mod account;
pub mod buffer;
pub mod codec;
pub mod program;

pub use account::{AccountModel, BaseAccount, Identity, ItemModel, ItemStruct, StoreError};
pub use buffer::AccountBuffer;
pub use program::{add_gif, start_stuff_off, update_item, AddGif, StartStuffOff, UpdateItem};


