use vstd::prelude::*;
use vstd::slice::slice_subrange;
use std::sync::Arc;

verus! {

/// A value that owns or borrows a run of bytes.
///
/// `bytes` is the mathematical content and `as_bytes` hands out the same
/// content as a slice.
pub trait AsBytes {
    spec fn bytes(&self) -> Seq<u8>;

    fn as_bytes(&self) -> (s: &[u8])
        ensures
            s@ == self.bytes(),
    ;
}

impl<'a> AsBytes for &'a [u8] {
    open spec fn bytes(&self) -> Seq<u8> {
        self@
    }

    fn as_bytes(&self) -> (s: &[u8]) {
        *self
    }
}

impl AsBytes for Box<[u8]> {
    open spec fn bytes(&self) -> Seq<u8> {
        self@
    }

    fn as_bytes(&self) -> (s: &[u8]) {
        &**self
    }
}

impl AsBytes for Arc<[u8]> {
    open spec fn bytes(&self) -> Seq<u8> {
        (**self)@
    }

    fn as_bytes(&self) -> (s: &[u8]) {
        &**self
    }
}

impl AsBytes for Vec<u8> {
    open spec fn bytes(&self) -> Seq<u8> {
        self@
    }

    fn as_bytes(&self) -> (s: &[u8]) {
        self.as_slice()
    }
}

/// An owned buffer whose first `strip` elements are hidden: the slice it
/// presents is the rest of the buffer.
///
/// A decoded datagram uses it to hand out the payload without copying it
/// away from the header in front of it.
#[derive(Debug)]
pub struct StrippedBoxedSlice<T> {
    data: Box<[T]>,
    strip: usize,
}

impl<T> View for StrippedBoxedSlice<T> {
    type V = Seq<T>;

    /// The visible elements: the buffer without its hidden prefix.
    open spec fn view(&self) -> Seq<T> {
        self.buffer().subrange(self.stripped() as int, self.buffer().len() as int)
    }
}

impl<T> StrippedBoxedSlice<T> {
    #[verifier::type_invariant]
    spec fn well_formed(self) -> bool {
        self.strip <= self.data@.len()
    }

    /// The whole buffer, hidden prefix and all.
    pub closed spec fn buffer(&self) -> Seq<T> {
        self.data@
    }

    /// The number of hidden elements.
    pub closed spec fn stripped(&self) -> nat {
        self.strip as nat
    }

    /// Hides the first `strip` elements of `data`.
    pub fn new(data: Box<[T]>, strip: usize) -> (s: StrippedBoxedSlice<T>)
        requires
            strip <= data@.len(),
        ensures
            s.buffer() == data@,
            s.stripped() == strip,
            s@ == data@.subrange(strip as int, data@.len() as int),
    {
        StrippedBoxedSlice { data, strip }
    }

    pub fn as_slice(&self) -> (s: &[T])
        ensures
            s@ == self@,
    {
        proof {
            use_type_invariant(self);
        }
        let whole: &[T] = &*self.data;
        slice_subrange(whole, self.strip, whole.len())
    }

    /// Gives back the buffer and the number of elements that were hidden.
    pub fn into_box(self) -> (parts: (Box<[T]>, usize))
        ensures
            parts.0@ == self.buffer(),
            parts.1 == self.stripped(),
            parts.1 <= parts.0@.len(),
    {
        proof {
            use_type_invariant(&self);
        }
        (self.data, self.strip)
    }
}

impl<T> AsRef<[T]> for StrippedBoxedSlice<T> {
    fn as_ref(&self) -> (s: &[T])
        ensures
            s@ == self@,
    {
        self.as_slice()
    }
}

impl AsBytes for StrippedBoxedSlice<u8> {
    open spec fn bytes(&self) -> Seq<u8> {
        self@
    }

    fn as_bytes(&self) -> (s: &[u8]) {
        self.as_slice()
    }
}

} // verus!
