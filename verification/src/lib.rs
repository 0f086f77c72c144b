//! Decoding of the variable-length records of Android's DEX container format:
//! the item arrays whose records are chained by their identifiers, and the
//! exception-handler tables. Each decoder borrows the bytes, consumes a
//! prefix of them, and says how long that prefix was.

pub mod ctx;
pub mod encoded_item;
pub mod error;
pub mod laws;
pub mod leb128;

pub use crate::ctx::{gread_with, TryFromCtx};
pub use crate::encoded_item::{
    EncodedCatchHandler, EncodedCatchHandlerList, EncodedItem, EncodedItemArray,
    EncodedItemArrayCtx, EncodedTypeAddrPair, Handler,
};
pub use crate::error::Error;
