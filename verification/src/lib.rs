pub mod bloom;
pub mod db;
pub mod digest;
pub mod keys;
pub mod memtable;
pub mod record;
pub mod sstable;
pub mod sync;
pub mod utf8;
pub mod wal;
pub mod wire;

use vstd::prelude::*;

verus! {

/// The error kinds the store reports. `Io` and `ChannelClosed` arise only at
/// the filesystem and background-writer boundary; the in-memory logic itself
/// produces `Corruption` (a record or table that fails validation) and
/// `InvalidInput` (a key or value beyond the representable length).
#[derive(Clone, Copy, Debug, PartialEq, Eq, Structural)]
pub enum SnailError {
    Io,
    Corruption,
    InvalidInput,
    ChannelClosed,
}

/// A stored value: either live bytes or a tombstone left by a delete.
#[derive(Debug)]
pub enum Value {
    Present(Vec<u8>),
    Deleted,
}

impl Clone for Value {
    /// Cloning preserves the mathematical view.
    fn clone(&self) -> (r: Value)
        ensures
            r@ == self@,
    {
        match self {
            Value::Present(b) => {
                let c = b.clone();
                proof {
                    assert(c@ =~= b@);
                }
                Value::Present(c)
            },
            Value::Deleted => Value::Deleted,
        }
    }
}

impl Value {
    /// The mathematical view of a value: `Some` bytes when present,
    /// `None` for a tombstone.
    pub open spec fn view(self) -> Option<Seq<u8>> {
        match self {
            Value::Present(b) => Some(b@),
            Value::Deleted => None,
        }
    }

    pub fn from_bytes(bytes: Vec<u8>) -> (r: Value)
        ensures
            r@ == Some(bytes@),
    {
        Value::Present(bytes)
    }

    pub fn tombstone() -> (r: Value)
        ensures
            r@ == Option::<Seq<u8>>::None,
    {
        Value::Deleted
    }

    /// `None` for a tombstone, a copy of the bytes otherwise.
    pub fn as_option(&self) -> (r: Option<Vec<u8>>)
        ensures
            match r {
                Some(b) => self@ == Some(b@),
                None => self@ is None,
            },
    {
        match self {
            Value::Present(bytes) => Some(bytes.clone()),
            Value::Deleted => None,
        }
    }
}

} // verus!
