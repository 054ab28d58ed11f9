//! Incremental disk-usage statistics: a cached single-directory scanner, two
//! tree-traversal strategies with a bounded worker pool, a task registry that
//! deduplicates in-flight scans, and the ordered key/value store with a JSON
//! record codec that all of them persist through.
//!
//! The store is an in-memory one: no durable storage engine is bound, so the
//! cache and the scan history live only as long as the process that holds
//! the `Db` value.  The storage interface is the capability the rest of the
//! library is written against; a durable engine would implement the same
//! operations.
use vstd::prelude::*;

mod order;
mod json;
pub mod kvstore;
pub mod db;
pub mod conf;
pub mod dirstat;
pub mod scanresult;
pub mod scan;
pub mod scandir;
pub mod cmd;

verus! {

/// Library-wide error carrying a plain message.
#[derive(Debug)]
pub struct Error(pub String);

impl Error {
    pub fn new(msg: &str) -> (r: Error)
        ensures
            r.0@ == msg@,
    {
        Error(msg.to_owned())
    }

    /// The error message; takes the place of a `Display` implementation.
    pub fn as_str(&self) -> (r: &str)
        ensures
            r@ == self.0@,
    {
        self.0.as_str()
    }
}

/// Single-owner holder for a value that a task keeps alive for the whole of a
/// scan.  The original design leaked the allocation to get a `'static`
/// lifetime; here plain ownership is enough, and the borrow checker replaces
/// the manual free.
#[derive(Debug)]
pub struct StaticBox<T> {
    pub value: T,
}

impl<T> StaticBox<T> {
    pub fn new(value: T) -> (r: StaticBox<T>)
        ensures
            r.value == value,
    {
        StaticBox { value }
    }

    pub fn get(&self) -> (r: &T)
        ensures
            r == &self.value,
    {
        &self.value
    }

    pub fn get_mut(&mut self) -> (r: &mut T)
        ensures
            *r == old(self).value,
            *final(self) == (StaticBox { value: *final(r) }),
    {
        &mut self.value
    }
}

/// Relies on std's `SystemTime`: seconds since the Unix epoch, as the clock
/// reports them now.  Nothing can be promised of the clock's value.
#[verifier::external_body]
pub fn unix() -> u64 {
    std::time::SystemTime::now()
        .duration_since(std::time::UNIX_EPOCH)
        .map(|d| d.as_secs())
        .unwrap_or(0)
}

} // verus!
