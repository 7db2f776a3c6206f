//! Byte containers: a fixed-size opaque blob, stored verbatim by both channels, and owned byte
//! buffers.
use crate::codec::{encoded_at, read_format, write_format, Format, Loadable, LoadableInPlace, Storable};
use crate::read::{ReadError, ReadSavestate};
use crate::write::{WriteError, WriteSavestate};
use vstd::prelude::*;

verus! {

/// `LEN` opaque bytes, already serialized: stored and loaded verbatim, with no byte-order change.
#[derive(Clone, Copy)]
pub struct Bytes<const LEN: usize>([u8; LEN]);

impl<const LEN: usize> View for Bytes<LEN> {
    type V = Seq<u8>;

    closed spec fn view(&self) -> Seq<u8> {
        self.0@
    }
}

/// Copies `src`, which holds `LEN` bytes, into an array.
fn to_array<const LEN: usize>(src: &Vec<u8>) -> (r: [u8; LEN])
    requires
        src@.len() == LEN,
    ensures
        r@ == src@,
{
    let mut a: [u8; LEN] = vstd::array::array_fill_for_copy_types(0u8);
    let mut i: usize = 0;
    while i < LEN
        invariant
            i <= LEN,
            src@.len() == LEN,
            a@.len() == LEN,
            forall|k: int| 0 <= k < i ==> a@[k] == src@[k],
        decreases LEN - i,
    {
        a[i] = src[i];
        i = i + 1;
    }
    assert(a@ =~= src@);
    a
}

impl<const LEN: usize> Bytes<LEN> {
    #[inline]
    pub fn new(value: [u8; LEN]) -> (r: Self)
        ensures
            r@ == value@,
    {
        Bytes(value)
    }

    #[inline]
    pub fn into_inner(self) -> (r: [u8; LEN])
        ensures
            r@ == self@,
    {
        self.0
    }

    #[inline]
    pub fn as_slice(&self) -> (r: &[u8])
        ensures
            r@ == self@,
    {
        self.0.as_slice()
    }

    /// The bytes at the reader's cursor, `LEN` of them.
    fn load_from<S: ReadSavestate>(save: &mut S) -> (r: Result<Self, ReadError>)
        requires
            old(save).wf(),
        ensures
            final(save).wf(),
            crate::read::same_stream(old(save).model(), final(save).model()),
            crate::codec::loaded(r, old(save).model(), final(save).model()),
    {
        let ghost m = old(save).model();
        let v = match save.load_bytes(LEN) {
            Ok(v) => v,
            Err(e) => {
                proof {
                    assert forall|x: Self| #[trigger] encoded_at(x, m) implies false by {
                        assert(x.0@.len() == LEN);
                    }
                }
                return Err(e);
            },
        };
        let r = Bytes(to_array(&v));
        proof {
            assert forall|x: Self| #[trigger] encoded_at(x, m) implies r.encoding(m.pos, read_format(m))
                == x.encoding(m.pos, read_format(m)) && save.model() == m.at_pos(
                m.pos + x.encoding(m.pos, read_format(m)).len(),
            ) by {
                assert(x.0@.len() == LEN);
            }
        }
        Ok(r)
    }
}

impl<const LEN: usize> Storable for Bytes<LEN> {
    open spec fn encoding(&self, at: nat, fmt: Format) -> Seq<u8> {
        self@
    }

    open spec fn storable(&self) -> bool {
        true
    }

    fn store<S: WriteSavestate>(&self, save: &mut S) -> (r: Result<(), WriteError>) {
        save.store_bytes(self.as_slice());
        Ok(())
    }
}

impl<const LEN: usize> Loadable for Bytes<LEN> {
    fn load<S: ReadSavestate>(save: &mut S) -> (r: Result<Self, ReadError>) {
        Self::load_from(save)
    }
}

impl<const LEN: usize> LoadableInPlace for Bytes<LEN> {
    fn load_in_place<S: ReadSavestate>(&mut self, save: &mut S) -> (r: Result<(), ReadError>) {
        match Self::load_from(save) {
            Ok(v) => {
                *self = v;
                Ok(())
            },
            Err(e) => Err(e),
        }
    }
}

/// An owned, fixed-size byte blob, stored like `Bytes`.
pub struct OwnedBytesCellPtr<const LEN: usize> {
    bytes: Bytes<LEN>,
}

impl<const LEN: usize> View for OwnedBytesCellPtr<LEN> {
    type V = Seq<u8>;

    closed spec fn view(&self) -> Seq<u8> {
        self.bytes@
    }
}

impl<const LEN: usize> OwnedBytesCellPtr<LEN> {
    pub fn new(bytes: Bytes<LEN>) -> (r: Self)
        ensures
            r@ == bytes@,
    {
        OwnedBytesCellPtr { bytes }
    }

    /// `LEN` zero bytes.
    pub fn new_zeroed() -> (r: Self)
        ensures
            r@ == Seq::new(LEN as nat, |i: int| 0u8),
    {
        let a: [u8; LEN] = vstd::array::array_fill_for_copy_types(0u8);
        assert(a@ =~= Seq::new(LEN as nat, |i: int| 0u8));
        OwnedBytesCellPtr { bytes: Bytes(a) }
    }

    #[inline]
    pub fn len(&self) -> (r: usize)
        ensures
            r == LEN,
    {
        LEN
    }

    #[inline]
    pub fn is_empty(&self) -> (r: bool)
        ensures
            r == (LEN == 0),
    {
        LEN == 0
    }

    #[inline]
    pub fn into_inner(self) -> (r: Bytes<LEN>)
        ensures
            r@ == self@,
    {
        self.bytes
    }

    #[inline]
    pub fn as_bytes(&self) -> (r: &Bytes<LEN>)
        ensures
            r@ == self@,
    {
        &self.bytes
    }
}

impl<const LEN: usize> Storable for OwnedBytesCellPtr<LEN> {
    open spec fn encoding(&self, at: nat, fmt: Format) -> Seq<u8> {
        self@
    }

    open spec fn storable(&self) -> bool {
        true
    }

    fn store<S: WriteSavestate>(&self, save: &mut S) -> (r: Result<(), WriteError>) {
        save.store_bytes(self.bytes.as_slice());
        Ok(())
    }
}

impl<const LEN: usize> Loadable for OwnedBytesCellPtr<LEN> {
    fn load<S: ReadSavestate>(save: &mut S) -> (r: Result<Self, ReadError>) {
        let ghost m = old(save).model();
        let r = Bytes::<LEN>::load_from(save);
        proof {
            assert forall|x: Self| #[trigger] encoded_at(x, m) implies encoded_at(x.bytes, m) by {}
        }
        match r {
            Ok(bytes) => Ok(OwnedBytesCellPtr { bytes }),
            Err(e) => Err(e),
        }
    }
}

impl<const LEN: usize> LoadableInPlace for OwnedBytesCellPtr<LEN> {
    fn load_in_place<S: ReadSavestate>(&mut self, save: &mut S) -> (r: Result<(), ReadError>) {
        match Self::load(save) {
            Ok(v) => {
                *self = v;
                Ok(())
            },
            Err(e) => Err(e),
        }
    }
}

/// An owned byte buffer whose length is chosen at run time.
#[derive(Clone)]
pub struct OwnedByteSliceCellPtr {
    data: Vec<u8>,
}

impl View for OwnedByteSliceCellPtr {
    type V = Seq<u8>;

    closed spec fn view(&self) -> Seq<u8> {
        self.data@
    }
}

impl OwnedByteSliceCellPtr {
    pub fn new(data: Vec<u8>) -> (r: Self)
        ensures
            r@ == data@,
    {
        OwnedByteSliceCellPtr { data }
    }

    /// `len` zero bytes.
    pub fn new_zeroed(len: usize) -> (r: Self)
        ensures
            r@ == Seq::new(len as nat, |i: int| 0u8),
    {
        let data = vec![0u8; len];
        assert(data@ =~= Seq::new(len as nat, |i: int| 0u8));
        OwnedByteSliceCellPtr { data }
    }

    #[inline]
    pub fn len(&self) -> (r: usize)
        ensures
            r == self@.len(),
    {
        self.data.len()
    }

    #[inline]
    pub fn is_empty(&self) -> (r: bool)
        ensures
            r == (self@.len() == 0),
    {
        self.data.len() == 0
    }

    #[inline]
    pub fn as_slice(&self) -> (r: &[u8])
        ensures
            r@ == self@,
    {
        self.data.as_slice()
    }
}

/// A boxed byte slice whose length is chosen at run time.
#[derive(Clone)]
pub struct BoxedByteSlice {
    data: Vec<u8>,
}

impl View for BoxedByteSlice {
    type V = Seq<u8>;

    closed spec fn view(&self) -> Seq<u8> {
        self.data@
    }
}

impl BoxedByteSlice {
    /// `len` zero bytes.
    pub fn new_zeroed(len: usize) -> (r: Self)
        ensures
            r@ == Seq::new(len as nat, |i: int| 0u8),
    {
        let data = vec![0u8; len];
        assert(data@ =~= Seq::new(len as nat, |i: int| 0u8));
        BoxedByteSlice { data }
    }

    #[inline]
    pub fn len(&self) -> (r: usize)
        ensures
            r == self@.len(),
    {
        self.data.len()
    }

    #[inline]
    pub fn as_slice(&self) -> (r: &[u8])
        ensures
            r@ == self@,
    {
        self.data.as_slice()
    }
}

} // verus!
