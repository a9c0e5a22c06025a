//! The policies of one traversal: how links are read, how deep directories
//! are entered and how small a node may be.

use vstd::prelude::*;

verus! {

/// The policies of one traversal. A value is fixed once built.
#[derive(Clone, Copy, Debug, PartialEq, Eq)]
pub struct TraverseOptions {
    follow_system_links: bool,
    max_depth: Option<u32>,
    min_size: Option<u64>,
}

/// The mathematical value of a set of policies.
pub struct Policy {
    pub follow_system_links: bool,
    pub max_depth: Option<nat>,
    pub min_size: Option<nat>,
}

impl Policy {
    /// Whether directories met at `depth` are left unentered.
    pub open spec fn reached_max_depth(self, depth: nat) -> bool {
        match self.max_depth {
            Some(max) => depth >= max,
            None => false,
        }
    }

    /// Whether a node of `size` bytes is too small to be kept.
    pub open spec fn below_min_size(self, size: nat) -> bool {
        match self.min_size {
            Some(min) => size < min,
            None => false,
        }
    }
}

/// The value of an optional 32-bit limit.
pub open spec fn limit32(limit: Option<u32>) -> Option<nat> {
    match limit {
        Some(n) => Some(n as nat),
        None => None,
    }
}

/// The value of an optional 64-bit limit.
pub open spec fn limit64(limit: Option<u64>) -> Option<nat> {
    match limit {
        Some(n) => Some(n as nat),
        None => None,
    }
}

impl View for TraverseOptions {
    type V = Policy;

    closed spec fn view(&self) -> Policy {
        Policy {
            follow_system_links: self.follow_system_links,
            max_depth: limit32(self.max_depth),
            min_size: limit64(self.min_size),
        }
    }
}

/// Collects the policies one by one. What is never set stays at its
/// default: links are not followed, depth and size are not limited.
#[derive(Clone, Copy, Debug)]
pub struct TraverseOptionsBuilder {
    follow_system_links: bool,
    max_depth: Option<u32>,
    min_size: Option<u64>,
}

impl View for TraverseOptionsBuilder {
    type V = Policy;

    closed spec fn view(&self) -> Policy {
        Policy {
            follow_system_links: self.follow_system_links,
            max_depth: limit32(self.max_depth),
            min_size: limit64(self.min_size),
        }
    }
}

impl TraverseOptionsBuilder {
    /// Sets whether metadata is read through symbolic links.
    pub fn follow_system_links(self, value: bool) -> (builder: Self)
        ensures
            builder@ == (Policy { follow_system_links: value, ..self@ }),
    {
        TraverseOptionsBuilder { follow_system_links: value, ..self }
    }

    /// Limits the depth at which directories are still entered.
    pub fn max_depth(self, value: u32) -> (builder: Self)
        ensures
            builder@ == (Policy { max_depth: Some(value as nat), ..self@ }),
    {
        TraverseOptionsBuilder { max_depth: Some(value), ..self }
    }

    /// Sets or clears the depth limit.
    pub fn maybe_max_depth(self, value: Option<u32>) -> (builder: Self)
        ensures
            builder@ == (Policy { max_depth: limit32(value), ..self@ }),
    {
        TraverseOptionsBuilder { max_depth: value, ..self }
    }

    /// Sets the size below which nodes are dropped.
    pub fn min_size(self, value: u64) -> (builder: Self)
        ensures
            builder@ == (Policy { min_size: Some(value as nat), ..self@ }),
    {
        TraverseOptionsBuilder { min_size: Some(value), ..self }
    }

    /// Sets or clears the size threshold.
    pub fn maybe_min_size(self, value: Option<u64>) -> (builder: Self)
        ensures
            builder@ == (Policy { min_size: limit64(value), ..self@ }),
    {
        TraverseOptionsBuilder { min_size: value, ..self }
    }

    /// The policies collected so far, as a fixed value.
    pub fn build(self) -> (options: TraverseOptions)
        ensures
            options@ == self@,
    {
        TraverseOptions {
            follow_system_links: self.follow_system_links,
            max_depth: self.max_depth,
            min_size: self.min_size,
        }
    }
}

impl TraverseOptions {
    /// A builder in which nothing is set yet.
    pub fn builder() -> (builder: TraverseOptionsBuilder)
        ensures
            builder@ == (Policy { follow_system_links: false, max_depth: None, min_size: None }),
    {
        TraverseOptionsBuilder { follow_system_links: false, max_depth: None, min_size: None }
    }

    /// Whether metadata is read through symbolic links.
    pub fn follow_system_links(&self) -> (value: bool)
        ensures
            value == self@.follow_system_links,
    {
        self.follow_system_links
    }

    /// The depth limit, if one is set.
    pub fn max_depth(&self) -> (value: Option<u32>)
        ensures
            limit32(value) == self@.max_depth,
    {
        self.max_depth
    }

    /// The size threshold, if one is set.
    pub fn min_size(&self) -> (value: Option<u64>)
        ensures
            limit64(value) == self@.min_size,
    {
        self.min_size
    }

    /// Whether directories met at `depth` are left unentered.
    pub fn reached_max_depth(&self, depth: u64) -> (reached: bool)
        ensures
            reached == self@.reached_max_depth(depth as nat),
    {
        match self.max_depth {
            Some(max) => depth >= max as u64,
            None => false,
        }
    }

    /// Whether a node of `size` bytes is too small to be kept.
    pub fn below_min_size(&self, size: u64) -> (below: bool)
        ensures
            below == self@.below_min_size(size as nat),
    {
        match self.min_size {
            Some(min) => size < min,
            None => false,
        }
    }
}

} // verus!
