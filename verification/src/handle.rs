//! Handles into the arena and the tracing capability.
//!
//! A handle is an address and a length.  It owns nothing: the collector owns
//! every byte, and a handle only names some of them.  What a handle names is
//! fixed when it is made.

use crate::gc::{GarbageCollector, GcError};
use vstd::prelude::*;

verus! {

/// The capability of a value to report the addresses that it owns or refers
/// to.  Any type may have it.
///
/// What a value reports is its own business, so little is asked of `trace`:
/// it works on a well-formed collector and leaves one.  A type that can say
/// more does so on its own `trace`, as the handles below do.
pub trait Trace {
    /// Marks every address that the value owns or refers to, by `trace_ptr`
    /// for an address of its own and by `trace` for what it is made of.
    fn trace(&self, gc: &mut GarbageCollector) -> (outcome: Result<(), GcError>)
        requires
            old(gc).wf(),
        ensures
            final(gc).wf(),
    ;
}

/// What a handle names: `len` bytes from `address` on.
pub struct Span {
    /// Address of the first byte.
    pub address: nat,
    /// Number of bytes.
    pub len: nat,
}

/// A handle that grants reading.
#[derive(Clone, Copy, Debug)]
pub struct GcRef {
    address: usize,
    len: usize,
}

/// A handle that grants reading and writing in place.
#[derive(Clone, Copy, Debug)]
pub struct GcRefMut {
    address: usize,
    len: usize,
}

impl View for GcRef {
    type V = Span;

    closed spec fn view(&self) -> Span {
        Span { address: self.address as nat, len: self.len as nat }
    }
}

impl View for GcRefMut {
    type V = Span;

    closed spec fn view(&self) -> Span {
        Span { address: self.address as nat, len: self.len as nat }
    }
}

impl GcRef {
    /// Wraps `len` bytes from `address` on.
    pub fn new(address: usize, len: usize) -> (handle: GcRef)
        ensures
            handle@ == (Span { address: address as nat, len: len as nat }),
    {
        GcRef { address, len }
    }

    /// Address of the first byte.
    pub fn address(&self) -> (address: usize)
        ensures
            address == self@.address,
    {
        self.address
    }

    /// Number of bytes.
    pub fn len(&self) -> (len: usize)
        ensures
            len == self@.len,
    {
        self.len
    }

    /// The bytes that the handle names, for reading, if the arena holds
    /// them.
    pub fn read<'a>(&self, gc: &'a GarbageCollector) -> (bytes: Option<&'a [u8]>)
        requires
            gc.wf(),
        ensures
            gc@.holds(self@.address, self@.len) ==> bytes.is_some() && bytes.unwrap()@ == gc@.load(
                self@.address,
                self@.len,
            ),
            !gc@.holds(self@.address, self@.len) ==> bytes.is_none(),
    {
        gc.load(self.address, self.len)
    }
}

impl GcRefMut {
    /// Wraps `len` bytes from `address` on.
    pub fn new(address: usize, len: usize) -> (handle: GcRefMut)
        ensures
            handle@ == (Span { address: address as nat, len: len as nat }),
    {
        GcRefMut { address, len }
    }

    /// Address of the first byte.
    pub fn address(&self) -> (address: usize)
        ensures
            address == self@.address,
    {
        self.address
    }

    /// Number of bytes.
    pub fn len(&self) -> (len: usize)
        ensures
            len == self@.len,
    {
        self.len
    }

    /// The bytes that the handle names, for reading, if the arena holds
    /// them.
    pub fn read<'a>(&self, gc: &'a GarbageCollector) -> (bytes: Option<&'a [u8]>)
        requires
            gc.wf(),
        ensures
            gc@.holds(self@.address, self@.len) ==> bytes.is_some() && bytes.unwrap()@ == gc@.load(
                self@.address,
                self@.len,
            ),
            !gc@.holds(self@.address, self@.len) ==> bytes.is_none(),
    {
        gc.load(self.address, self.len)
    }

    /// Overwrites the bytes that the handle names with `values`.  Nothing is
    /// written unless `values` has the handle's length and the arena holds
    /// the bytes.
    pub fn write(&self, gc: &mut GarbageCollector, values: &[u8]) -> (written: bool)
        requires
            old(gc).wf(),
        ensures
            final(gc).wf(),
            written == (values@.len() == self@.len && old(gc)@.holds(self@.address, self@.len)),
            written ==> final(gc)@ == old(gc)@.store(self@.address, values@),
            !written ==> final(gc)@ == old(gc)@,
    {
        if values.len() != self.len {
            return false;
        }
        gc.store(self.address, values)
    }

    /// The same bytes, for reading only.
    pub fn freeze(self) -> (handle: GcRef)
        ensures
            handle@ == self@,
    {
        GcRef { address: self.address, len: self.len }
    }
}

/// A handle reports the address it wraps.  The bytes behind it refer to
/// nothing further, so the report ends there.
impl Trace for GcRef {
    fn trace(&self, gc: &mut GarbageCollector) -> (outcome: Result<(), GcError>)
        ensures
            old(gc)@.marking ==> outcome.is_ok() && final(gc)@ == old(gc)@.traced(
                seq![self@.address as usize],
            ),
            !old(gc)@.marking ==> outcome == Err::<(), GcError>(GcError::NoCollection)
                && final(gc)@ == old(gc)@,
    {
        gc.trace_ptr(self.address)
    }
}

/// A handle reports the address it wraps.  The bytes behind it refer to
/// nothing further, so the report ends there.
impl Trace for GcRefMut {
    fn trace(&self, gc: &mut GarbageCollector) -> (outcome: Result<(), GcError>)
        ensures
            old(gc)@.marking ==> outcome.is_ok() && final(gc)@ == old(gc)@.traced(
                seq![self@.address as usize],
            ),
            !old(gc)@.marking ==> outcome == Err::<(), GcError>(GcError::NoCollection)
                && final(gc)@ == old(gc)@,
    {
        gc.trace_ptr(self.address)
    }
}

} // verus!
