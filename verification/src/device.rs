//! Identifiers for the storage devices an RPC server exposes.

use vstd::prelude::*;

verus! {

/// Identifier of a device that RPC requests are addressed to.
#[derive(Debug, PartialEq, Eq, Hash)]
pub struct DeviceId(String);

impl Clone for DeviceId {
    /// The clone names the same device.
    fn clone(&self) -> (r: Self)
        ensures
            r.chars() == self.chars(),
    {
        DeviceId(self.0.clone())
    }
}

impl DeviceId {
    /// The character sequence the identifier stands for.
    pub closed spec fn chars(&self) -> Seq<char> {
        self.0@
    }

    /// Creates a new `DeviceId` for the given name.
    pub fn new(id: String) -> (r: Self)
        ensures
            r.chars() == id@,
    {
        DeviceId(id)
    }

    /// Borrows the identifier as a string slice.
    pub fn as_str(&self) -> (r: &str)
        ensures
            r@ == self.chars(),
    {
        self.0.as_str()
    }

    /// Whether two identifiers name the same device.
    pub fn eq_id(&self, other: &DeviceId) -> (r: bool)
        ensures
            r == (self.chars() == other.chars()),
    {
        self.0.eq(&other.0)
    }

    /// Gives up ownership and returns the inner string.
    pub fn into_string(self) -> (r: String)
        ensures
            r@ == self.chars(),
    {
        self.0
    }
}

} // verus!
