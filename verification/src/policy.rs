//! The traversal ordering policy and the scan configuration that is fixed
//! before a scan begins.

use vstd::prelude::*;
use crate::file_type::FileTypeMatcher;

verus! {

/// The locality signal that governs traversal order.
#[derive(Copy, Clone, PartialEq, Eq, Structural, Debug)]
pub enum Order {
    /// No reordering: directories are serviced first-in-first-out.
    Dentries,
    /// Directories are keyed by inode number, a cheap locality proxy.
    Inode,
    /// Directories are keyed by the physical address of their first extent.
    Content,
}

/// Configuration of one scan, read-only once traversal begins.
#[derive(Debug)]
pub struct ScanConfig {
    /// The explicitly requested ordering policy, if any.
    pub order: Option<Order>,
    /// Whether apparent file lengths are accumulated.
    pub want_size: bool,
    /// Whether matched paths are surfaced for listing.
    pub list: bool,
    /// The active type filter, if any.
    pub filter: Option<FileTypeMatcher>,
    /// Locality-prefetch hint, passed through to the physical locator.
    pub prefetch: bool,
}

impl ScanConfig {
    /// The policy in force: an explicit choice wins; otherwise requesting
    /// size accumulation forces inode order, and the default is unordered.
    pub open spec fn spec_effective_order(self) -> Order {
        match self.order {
            Some(o) => o,
            None => if self.want_size {
                Order::Inode
            } else {
                Order::Dentries
            },
        }
    }

    /// Returns the ordering policy in force for this configuration.
    pub fn effective_order(&self) -> (r: Order)
        ensures
            r == self.spec_effective_order(),
    {
        match self.order {
            Some(o) => o,
            None => if self.want_size {
                Order::Inode
            } else {
                Order::Dentries
            },
        }
    }
}

} // verus!
