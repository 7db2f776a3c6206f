//! The type codec: how values are stored into and loaded from either channel, and what the bytes
//! of each kind of value are.
use crate::raw::{lemma_ordered_bytes_len, lemma_single_byte, ordered_bytes, ordered_value};
use crate::read::{same_stream, ReadError, ReadModel, ReadSavestate};
use crate::value::{lemma_value_round_trip, MemValue};
use crate::write::{WriteError, WriteModel, WriteSavestate};
use vstd::prelude::*;

verus! {

/// The shape of a channel's bytes: whether structs carry a directory, and the byte order.
pub struct Format {
    pub persistent: bool,
    pub little: bool,
}

pub open spec fn write_format(m: WriteModel) -> Format {
    Format { persistent: m.persistent, little: m.little }
}

pub open spec fn read_format(m: ReadModel) -> Format {
    Format { persistent: m.persistent, little: m.little }
}

/// The bytes at the reader's cursor are the encoding of `x` there.
pub open spec fn encoded_at<T: Storable>(x: T, m: ReadModel) -> bool {
    let enc = x.encoding(m.pos, read_format(m));
    &&& x.storable()
    &&& m.pos + enc.len() <= m.data.len()
    &&& m.data.subrange(m.pos as int, m.pos + enc.len() as int) == enc
}

/// What loading did: where the bytes at the cursor encode some value, the value loaded has the
/// same encoding, and the cursor moved past it with the open structs as they were.
pub open spec fn loaded<T: Storable>(r: Result<T, ReadError>, before: ReadModel, after: ReadModel) -> bool {
    forall|x: T| #[trigger]
        encoded_at(x, before) ==> match r {
            Ok(v) => v.encoding(before.pos, read_format(before)) == x.encoding(
                before.pos,
                read_format(before),
            ) && after == before.at_pos(
                before.pos + x.encoding(before.pos, read_format(before)).len(),
            ),
            Err(_) => false,
        }
}

/// What loading in place did, in the terms of `loaded`.
pub open spec fn loaded_in_place<T: Storable>(
    r: Result<(), ReadError>,
    v: T,
    before: ReadModel,
    after: ReadModel,
) -> bool {
    forall|x: T| #[trigger]
        encoded_at(x, before) ==> r is Ok && v.encoding(before.pos, read_format(before))
            == x.encoding(before.pos, read_format(before)) && after == before.at_pos(
            before.pos + x.encoding(before.pos, read_format(before)).len(),
        )
}

/// A value that can append itself to a channel.
pub trait Storable: Sized {
    /// The bytes that storing the value appends when it starts at offset `at`.
    spec fn encoding(&self, at: nat, fmt: Format) -> Seq<u8>;

    /// Whether the value fits the format's fixed-width counts.
    spec fn storable(&self) -> bool;

    fn store<S: WriteSavestate>(&self, save: &mut S) -> (r: Result<(), WriteError>)
        requires
            old(save).wf(),
        ensures
            final(save).wf(),
            // On success exactly the value's encoding was appended.
            r is Ok ==> final(save).model() == old(save).model().appended(
                self.encoding(old(save).model().bytes.len(), write_format(old(save).model())),
            ),
            // Only a value that fits the format is stored.
            r is Ok ==> self.storable(),
            // Success is owed where the value fits the format and the bytes stay within 4 GiB.
            self.storable() && old(save).model().bytes.len() + self.encoding(
                old(save).model().bytes.len(),
                write_format(old(save).model()),
            ).len() <= u32::MAX ==> r is Ok,
    ;
}

/// A value that can be built by consuming bytes from a channel.
pub trait Loadable: Storable {
    fn load<S: ReadSavestate>(save: &mut S) -> (r: Result<Self, ReadError>)
        requires
            old(save).wf(),
        ensures
            final(save).wf(),
            same_stream(old(save).model(), final(save).model()),
            loaded(r, old(save).model(), final(save).model()),
    ;
}

/// A value that can be overwritten by consuming bytes from a channel.
pub trait LoadableInPlace: Storable {
    fn load_in_place<S: ReadSavestate>(&mut self, save: &mut S) -> (r: Result<(), ReadError>)
        requires
            old(save).wf(),
        ensures
            final(save).wf(),
            same_stream(old(save).model(), final(save).model()),
            loaded_in_place(r, *final(self), old(save).model(), final(save).model()),
    ;
}

/// The bytes of an integer in the given format.
pub open spec fn int_encoding<T: MemValue>(v: T, fmt: Format) -> Seq<u8> {
    ordered_bytes(v.bits(), T::size(), fmt.little)
}

/// The bytes at the reader's cursor are those of the integer `x`.
pub open spec fn int_encoded_at<T: MemValue>(x: T, m: ReadModel) -> bool {
    &&& m.pos + T::size() <= m.data.len()
    &&& m.data.subrange(m.pos as int, m.pos + T::size() as int) == int_encoding(x, read_format(m))
}

/// Stores an integer: appends its bytes.
fn store_int<T: MemValue, S: WriteSavestate>(v: T, save: &mut S)
    requires
        old(save).wf(),
    ensures
        final(save).wf(),
        final(save).model() == old(save).model().appended(
            int_encoding(v, write_format(old(save).model())),
        ),
{
    save.store_raw(v);
}

/// Loads an integer: where the bytes at the cursor are those of `x`, `x` itself.
fn load_int<T: MemValue, S: ReadSavestate>(save: &mut S) -> (r: Result<T, ReadError>)
    requires
        old(save).wf(),
    ensures
        final(save).wf(),
        same_stream(old(save).model(), final(save).model()),
        forall|x: T| #[trigger]
            int_encoded_at(x, old(save).model()) ==> r == Ok::<T, ReadError>(x) && final(save).model()
                == old(save).model().at_pos(old(save).model().pos + T::size()),
        !old(save).model().can_take(T::size()) ==> r == Err::<T, ReadError>(ReadError::UnexpectedEof),
{
    let ghost m = old(save).model();
    let r = save.load_raw::<T>();
    proof {
        assert forall|x: T| #[trigger] int_encoded_at(x, m) implies r == Ok::<T, ReadError>(x)
            && save.model() == m.at_pos(m.pos + T::size()) by {
            lemma_value_round_trip(x, m.little);
            if let Ok(v) = r {
                T::lemma_bits_injective(v, x);
            }
        }
    }
    r
}

impl Storable for u8 {
    open spec fn encoding(&self, at: nat, fmt: Format) -> Seq<u8> {
        int_encoding(*self, fmt)
    }

    open spec fn storable(&self) -> bool {
        true
    }

    fn store<S: WriteSavestate>(&self, save: &mut S) -> (r: Result<(), WriteError>) {
        store_int(*self, save);
        Ok(())
    }
}

impl Loadable for u8 {
    fn load<S: ReadSavestate>(save: &mut S) -> (r: Result<Self, ReadError>)
        ensures
            // Running past the end of the buffer fails.
            !old(save).model().can_take(1) ==> r == Err::<u8, ReadError>(ReadError::UnexpectedEof),
    {
        let ghost m = old(save).model();
        proof {
            assert forall|x: u8| #[trigger] encoded_at(x, m) implies int_encoded_at(x, m) by {
                lemma_value_round_trip(x, m.little);
            }
        }
        load_int::<u8, S>(save)
    }
}

impl LoadableInPlace for u8 {
    fn load_in_place<S: ReadSavestate>(&mut self, save: &mut S) -> (r: Result<(), ReadError>) {
        match u8::load(save) {
            Ok(v) => {
                *self = v;
                Ok(())
            },
            Err(e) => Err(e),
        }
    }
}

impl Storable for u16 {
    open spec fn encoding(&self, at: nat, fmt: Format) -> Seq<u8> {
        int_encoding(*self, fmt)
    }

    open spec fn storable(&self) -> bool {
        true
    }

    fn store<S: WriteSavestate>(&self, save: &mut S) -> (r: Result<(), WriteError>) {
        store_int(*self, save);
        Ok(())
    }
}

impl Loadable for u16 {
    fn load<S: ReadSavestate>(save: &mut S) -> (r: Result<Self, ReadError>)
        ensures
            // Running past the end of the buffer fails.
            !old(save).model().can_take(2) ==> r == Err::<u16, ReadError>(ReadError::UnexpectedEof),
    {
        let ghost m = old(save).model();
        proof {
            assert forall|x: u16| #[trigger] encoded_at(x, m) implies int_encoded_at(x, m) by {
                lemma_value_round_trip(x, m.little);
            }
        }
        load_int::<u16, S>(save)
    }
}

impl LoadableInPlace for u16 {
    fn load_in_place<S: ReadSavestate>(&mut self, save: &mut S) -> (r: Result<(), ReadError>) {
        match u16::load(save) {
            Ok(v) => {
                *self = v;
                Ok(())
            },
            Err(e) => Err(e),
        }
    }
}

impl Storable for u32 {
    open spec fn encoding(&self, at: nat, fmt: Format) -> Seq<u8> {
        int_encoding(*self, fmt)
    }

    open spec fn storable(&self) -> bool {
        true
    }

    fn store<S: WriteSavestate>(&self, save: &mut S) -> (r: Result<(), WriteError>) {
        store_int(*self, save);
        Ok(())
    }
}

impl Loadable for u32 {
    fn load<S: ReadSavestate>(save: &mut S) -> (r: Result<Self, ReadError>)
        ensures
            // Running past the end of the buffer fails.
            !old(save).model().can_take(4) ==> r == Err::<u32, ReadError>(ReadError::UnexpectedEof),
    {
        let ghost m = old(save).model();
        proof {
            assert forall|x: u32| #[trigger] encoded_at(x, m) implies int_encoded_at(x, m) by {
                lemma_value_round_trip(x, m.little);
            }
        }
        load_int::<u32, S>(save)
    }
}

impl LoadableInPlace for u32 {
    fn load_in_place<S: ReadSavestate>(&mut self, save: &mut S) -> (r: Result<(), ReadError>) {
        match u32::load(save) {
            Ok(v) => {
                *self = v;
                Ok(())
            },
            Err(e) => Err(e),
        }
    }
}

impl Storable for u64 {
    open spec fn encoding(&self, at: nat, fmt: Format) -> Seq<u8> {
        int_encoding(*self, fmt)
    }

    open spec fn storable(&self) -> bool {
        true
    }

    fn store<S: WriteSavestate>(&self, save: &mut S) -> (r: Result<(), WriteError>) {
        store_int(*self, save);
        Ok(())
    }
}

impl Loadable for u64 {
    fn load<S: ReadSavestate>(save: &mut S) -> (r: Result<Self, ReadError>)
        ensures
            // Running past the end of the buffer fails.
            !old(save).model().can_take(8) ==> r == Err::<u64, ReadError>(ReadError::UnexpectedEof),
    {
        let ghost m = old(save).model();
        proof {
            assert forall|x: u64| #[trigger] encoded_at(x, m) implies int_encoded_at(x, m) by {
                lemma_value_round_trip(x, m.little);
            }
        }
        load_int::<u64, S>(save)
    }
}

impl LoadableInPlace for u64 {
    fn load_in_place<S: ReadSavestate>(&mut self, save: &mut S) -> (r: Result<(), ReadError>) {
        match u64::load(save) {
            Ok(v) => {
                *self = v;
                Ok(())
            },
            Err(e) => Err(e),
        }
    }
}

impl Storable for u128 {
    open spec fn encoding(&self, at: nat, fmt: Format) -> Seq<u8> {
        int_encoding(*self, fmt)
    }

    open spec fn storable(&self) -> bool {
        true
    }

    fn store<S: WriteSavestate>(&self, save: &mut S) -> (r: Result<(), WriteError>) {
        store_int(*self, save);
        Ok(())
    }
}

impl Loadable for u128 {
    fn load<S: ReadSavestate>(save: &mut S) -> (r: Result<Self, ReadError>)
        ensures
            // Running past the end of the buffer fails.
            !old(save).model().can_take(16) ==> r == Err::<u128, ReadError>(ReadError::UnexpectedEof),
    {
        let ghost m = old(save).model();
        proof {
            assert forall|x: u128| #[trigger] encoded_at(x, m) implies int_encoded_at(x, m) by {
                lemma_value_round_trip(x, m.little);
            }
        }
        load_int::<u128, S>(save)
    }
}

impl LoadableInPlace for u128 {
    fn load_in_place<S: ReadSavestate>(&mut self, save: &mut S) -> (r: Result<(), ReadError>) {
        match u128::load(save) {
            Ok(v) => {
                *self = v;
                Ok(())
            },
            Err(e) => Err(e),
        }
    }
}

impl Storable for i8 {
    open spec fn encoding(&self, at: nat, fmt: Format) -> Seq<u8> {
        int_encoding(*self, fmt)
    }

    open spec fn storable(&self) -> bool {
        true
    }

    fn store<S: WriteSavestate>(&self, save: &mut S) -> (r: Result<(), WriteError>) {
        store_int(*self, save);
        Ok(())
    }
}

impl Loadable for i8 {
    fn load<S: ReadSavestate>(save: &mut S) -> (r: Result<Self, ReadError>)
        ensures
            // Running past the end of the buffer fails.
            !old(save).model().can_take(1) ==> r == Err::<i8, ReadError>(ReadError::UnexpectedEof),
    {
        let ghost m = old(save).model();
        proof {
            assert forall|x: i8| #[trigger] encoded_at(x, m) implies int_encoded_at(x, m) by {
                lemma_value_round_trip(x, m.little);
            }
        }
        load_int::<i8, S>(save)
    }
}

impl LoadableInPlace for i8 {
    fn load_in_place<S: ReadSavestate>(&mut self, save: &mut S) -> (r: Result<(), ReadError>) {
        match i8::load(save) {
            Ok(v) => {
                *self = v;
                Ok(())
            },
            Err(e) => Err(e),
        }
    }
}

impl Storable for i16 {
    open spec fn encoding(&self, at: nat, fmt: Format) -> Seq<u8> {
        int_encoding(*self, fmt)
    }

    open spec fn storable(&self) -> bool {
        true
    }

    fn store<S: WriteSavestate>(&self, save: &mut S) -> (r: Result<(), WriteError>) {
        store_int(*self, save);
        Ok(())
    }
}

impl Loadable for i16 {
    fn load<S: ReadSavestate>(save: &mut S) -> (r: Result<Self, ReadError>)
        ensures
            // Running past the end of the buffer fails.
            !old(save).model().can_take(2) ==> r == Err::<i16, ReadError>(ReadError::UnexpectedEof),
    {
        let ghost m = old(save).model();
        proof {
            assert forall|x: i16| #[trigger] encoded_at(x, m) implies int_encoded_at(x, m) by {
                lemma_value_round_trip(x, m.little);
            }
        }
        load_int::<i16, S>(save)
    }
}

impl LoadableInPlace for i16 {
    fn load_in_place<S: ReadSavestate>(&mut self, save: &mut S) -> (r: Result<(), ReadError>) {
        match i16::load(save) {
            Ok(v) => {
                *self = v;
                Ok(())
            },
            Err(e) => Err(e),
        }
    }
}

impl Storable for i32 {
    open spec fn encoding(&self, at: nat, fmt: Format) -> Seq<u8> {
        int_encoding(*self, fmt)
    }

    open spec fn storable(&self) -> bool {
        true
    }

    fn store<S: WriteSavestate>(&self, save: &mut S) -> (r: Result<(), WriteError>) {
        store_int(*self, save);
        Ok(())
    }
}

impl Loadable for i32 {
    fn load<S: ReadSavestate>(save: &mut S) -> (r: Result<Self, ReadError>)
        ensures
            // Running past the end of the buffer fails.
            !old(save).model().can_take(4) ==> r == Err::<i32, ReadError>(ReadError::UnexpectedEof),
    {
        let ghost m = old(save).model();
        proof {
            assert forall|x: i32| #[trigger] encoded_at(x, m) implies int_encoded_at(x, m) by {
                lemma_value_round_trip(x, m.little);
            }
        }
        load_int::<i32, S>(save)
    }
}

impl LoadableInPlace for i32 {
    fn load_in_place<S: ReadSavestate>(&mut self, save: &mut S) -> (r: Result<(), ReadError>) {
        match i32::load(save) {
            Ok(v) => {
                *self = v;
                Ok(())
            },
            Err(e) => Err(e),
        }
    }
}

impl Storable for i64 {
    open spec fn encoding(&self, at: nat, fmt: Format) -> Seq<u8> {
        int_encoding(*self, fmt)
    }

    open spec fn storable(&self) -> bool {
        true
    }

    fn store<S: WriteSavestate>(&self, save: &mut S) -> (r: Result<(), WriteError>) {
        store_int(*self, save);
        Ok(())
    }
}

impl Loadable for i64 {
    fn load<S: ReadSavestate>(save: &mut S) -> (r: Result<Self, ReadError>)
        ensures
            // Running past the end of the buffer fails.
            !old(save).model().can_take(8) ==> r == Err::<i64, ReadError>(ReadError::UnexpectedEof),
    {
        let ghost m = old(save).model();
        proof {
            assert forall|x: i64| #[trigger] encoded_at(x, m) implies int_encoded_at(x, m) by {
                lemma_value_round_trip(x, m.little);
            }
        }
        load_int::<i64, S>(save)
    }
}

impl LoadableInPlace for i64 {
    fn load_in_place<S: ReadSavestate>(&mut self, save: &mut S) -> (r: Result<(), ReadError>) {
        match i64::load(save) {
            Ok(v) => {
                *self = v;
                Ok(())
            },
            Err(e) => Err(e),
        }
    }
}

impl Storable for i128 {
    open spec fn encoding(&self, at: nat, fmt: Format) -> Seq<u8> {
        int_encoding(*self, fmt)
    }

    open spec fn storable(&self) -> bool {
        true
    }

    fn store<S: WriteSavestate>(&self, save: &mut S) -> (r: Result<(), WriteError>) {
        store_int(*self, save);
        Ok(())
    }
}

impl Loadable for i128 {
    fn load<S: ReadSavestate>(save: &mut S) -> (r: Result<Self, ReadError>)
        ensures
            // Running past the end of the buffer fails.
            !old(save).model().can_take(16) ==> r == Err::<i128, ReadError>(ReadError::UnexpectedEof),
    {
        let ghost m = old(save).model();
        proof {
            assert forall|x: i128| #[trigger] encoded_at(x, m) implies int_encoded_at(x, m) by {
                lemma_value_round_trip(x, m.little);
            }
        }
        load_int::<i128, S>(save)
    }
}

impl LoadableInPlace for i128 {
    fn load_in_place<S: ReadSavestate>(&mut self, save: &mut S) -> (r: Result<(), ReadError>) {
        match i128::load(save) {
            Ok(v) => {
                *self = v;
                Ok(())
            },
            Err(e) => Err(e),
        }
    }
}

impl Storable for bool {
    open spec fn encoding(&self, at: nat, fmt: Format) -> Seq<u8> {
        if *self {
            seq![1u8]
        } else {
            seq![0u8]
        }
    }

    open spec fn storable(&self) -> bool {
        true
    }

    fn store<S: WriteSavestate>(&self, save: &mut S) -> (r: Result<(), WriteError>) {
        let b: u8 = if *self {
            1
        } else {
            0
        };
        proof {
            lemma_single_byte(b, old(save).model().little);
        }
        save.store_raw(b);
        Ok(())
    }
}

impl Loadable for bool {
    fn load<S: ReadSavestate>(save: &mut S) -> (r: Result<Self, ReadError>)
        ensures
            // Running past the end of the buffer fails.
            !old(save).model().can_take(1) ==> r == Err::<bool, ReadError>(ReadError::UnexpectedEof),
    {
        let ghost before = old(save).model();
        match save.load_raw::<u8>() {
            Ok(b) => {
                proof {
                    assert(before.ahead(1) == seq![before.data[before.pos as int]]);
                    lemma_single_byte(before.data[before.pos as int], before.little);
                }
                Ok(b != 0)
            },
            Err(e) => Err(e),
        }
    }
}

impl LoadableInPlace for bool {
    fn load_in_place<S: ReadSavestate>(&mut self, save: &mut S) -> (r: Result<(), ReadError>) {
        match bool::load(save) {
            Ok(v) => {
                *self = v;
                Ok(())
            },
            Err(e) => Err(e),
        }
    }
}

impl Storable for () {
    open spec fn encoding(&self, at: nat, fmt: Format) -> Seq<u8> {
        Seq::empty()
    }

    open spec fn storable(&self) -> bool {
        true
    }

    fn store<S: WriteSavestate>(&self, save: &mut S) -> (r: Result<(), WriteError>) {
        assert(save.model() =~= old(save).model().appended(Seq::empty()));
        Ok(())
    }
}

impl Loadable for () {
    fn load<S: ReadSavestate>(save: &mut S) -> (r: Result<Self, ReadError>) {
        assert(save.model() == save.model().at_pos(save.model().pos + 0));
        Ok(())
    }
}

impl<T: Storable> Storable for Option<T> {
    open spec fn encoding(&self, at: nat, fmt: Format) -> Seq<u8> {
        match self {
            None => seq![0u8],
            Some(v) => seq![1u8] + v.encoding(at + 1, fmt),
        }
    }

    open spec fn storable(&self) -> bool {
        match self {
            None => true,
            Some(v) => v.storable(),
        }
    }

    fn store<S: WriteSavestate>(&self, save: &mut S) -> (r: Result<(), WriteError>) {
        proof {
            lemma_single_byte(0u8, old(save).model().little);
            lemma_single_byte(1u8, old(save).model().little);
        }
        match self {
            Some(value) => {
                save.store_raw(1u8);
                let r = value.store(save);
                proof {
                    let m = old(save).model();
                    let enc = value.encoding(m.bytes.len() + 1, write_format(m));
                    assert(m.bytes + (seq![1u8] + enc) =~= m.bytes + seq![1u8] + enc);
                }
                r
            },
            None => {
                save.store_raw(0u8);
                Ok(())
            },
        }
    }
}

impl<T: Loadable> Loadable for Option<T> {
    fn load<S: ReadSavestate>(save: &mut S) -> (r: Result<Self, ReadError>)
        ensures
            // Running past the end of the buffer fails.
            !old(save).model().can_take(1) ==> r == Err::<Option<T>, ReadError>(ReadError::UnexpectedEof),
    {
        let ghost before = old(save).model();
        let tag = match save.load_raw::<u8>() {
            Ok(b) => b,
            Err(e) => return Err(e),
        };
        proof {
            assert(before.ahead(1) == seq![before.data[before.pos as int]]);
            lemma_single_byte(before.data[before.pos as int], before.little);
        }
        if tag == 0 {
            assert forall|x: Option<T>| #[trigger] encoded_at(x, before) implies x is None by {
                if let Some(y) = x {
                    assert(x.encoding(before.pos, read_format(before))[0] == 1u8);
                }
            }
            return Ok(None);
        }
        let ghost mid = save.model();
        assert(mid == before.at_pos(before.pos + 1));
        let r = T::load(save);
        proof {
            assert forall|x: Option<T>| #[trigger] encoded_at(x, before) implies match r {
                Ok(v) => Some(v).encoding(before.pos, read_format(before)) == x.encoding(
                    before.pos,
                    read_format(before),
                ) && save.model() == before.at_pos(
                    before.pos + x.encoding(before.pos, read_format(before)).len(),
                ),
                Err(_) => false,
            } by {
                let enc = x.encoding(before.pos, read_format(before));
                if let Some(y) = x {
                    let inner = y.encoding(mid.pos, read_format(mid));
                    assert(enc == seq![1u8] + inner);
                    let whole = before.data.subrange(before.pos as int, before.pos + enc.len() as int);
                    assert(whole == enc);
                    assert(mid.data.subrange(mid.pos as int, mid.pos + inner.len() as int) =~= whole.subrange(
                        1,
                        enc.len() as int,
                    ));
                    assert(enc.subrange(1, enc.len() as int) =~= inner);
                    assert(read_format(mid) == read_format(before));
                    assert(encoded_at(y, mid));
                } else {
                    assert(enc[0] == 0u8);
                }
            }
        }
        match r {
            Ok(v) => Ok(Some(v)),
            Err(e) => Err(e),
        }
    }
}

impl<T: Loadable> LoadableInPlace for Option<T> {
    fn load_in_place<S: ReadSavestate>(&mut self, save: &mut S) -> (r: Result<(), ReadError>) {
        match Option::<T>::load(save) {
            Ok(v) => {
                *self = v;
                Ok(())
            },
            Err(e) => Err(e),
        }
    }
}

/// The encodings of the items of `s` one after another, the first starting at `at`.
pub open spec fn seq_encoding<T: Storable>(s: Seq<T>, at: nat, fmt: Format) -> Seq<u8>
    decreases s.len(),
{
    if s.len() == 0 {
        Seq::empty()
    } else {
        let e = s[0].encoding(at, fmt);
        e + seq_encoding(s.drop_first(), at + e.len(), fmt)
    }
}

pub open spec fn seq_storable<T: Storable>(s: Seq<T>) -> bool {
    forall|i: int| 0 <= i < s.len() ==> #[trigger] s[i].storable()
}

/// The bytes at the reader's cursor are the encodings of the items of `x`.
pub open spec fn seq_encoded_at<T: Storable>(x: Seq<T>, m: ReadModel) -> bool {
    let enc = seq_encoding(x, m.pos, read_format(m));
    &&& seq_storable(x)
    &&& m.pos + enc.len() <= m.data.len()
    &&& m.data.subrange(m.pos as int, m.pos + enc.len() as int) == enc
}

pub proof fn lemma_seq_encoding_push<T: Storable>(s: Seq<T>, x: T, at: nat, fmt: Format)
    ensures
        seq_encoding(s.push(x), at, fmt) == seq_encoding(s, at, fmt) + x.encoding(
            at + seq_encoding(s, at, fmt).len(),
            fmt,
        ),
    decreases s.len(),
{
    let pushed = s.push(x);
    if s.len() == 0 {
        assert(pushed.drop_first() =~= Seq::<T>::empty());
        assert(seq_encoding(pushed.drop_first(), at + x.encoding(at, fmt).len(), fmt) =~= Seq::<
            u8,
        >::empty());
        assert(seq_encoding(pushed, at, fmt) =~= x.encoding(at, fmt));
    } else {
        let e = s[0].encoding(at, fmt);
        assert(pushed.drop_first() =~= s.drop_first().push(x));
        lemma_seq_encoding_push(s.drop_first(), x, at + e.len(), fmt);
        assert(seq_encoding(pushed, at, fmt) =~= seq_encoding(s, at, fmt) + x.encoding(
            at + seq_encoding(s, at, fmt).len(),
            fmt,
        ));
    }
}

/// The encoding of a sequence is that of its first `i` items followed by that of the rest.
pub proof fn lemma_seq_encoding_split<T: Storable>(s: Seq<T>, i: int, at: nat, fmt: Format)
    requires
        0 <= i <= s.len(),
    ensures
        seq_encoding(s, at, fmt) == seq_encoding(s.take(i), at, fmt) + seq_encoding(
            s.skip(i),
            at + seq_encoding(s.take(i), at, fmt).len(),
            fmt,
        ),
    decreases i,
{
    if i == 0 {
        assert(s.take(0) =~= Seq::<T>::empty());
        assert(s.skip(0) =~= s);
        assert(seq_encoding(s, at, fmt) =~= Seq::<u8>::empty() + seq_encoding(s, at, fmt));
    } else {
        let e = s[0].encoding(at, fmt);
        lemma_seq_encoding_split(s.drop_first(), i - 1, at + e.len(), fmt);
        assert(s.drop_first().take(i - 1) =~= s.take(i).drop_first());
        assert(s.drop_first().skip(i - 1) =~= s.skip(i));
        assert(s.take(i)[0] == s[0]);
        assert(seq_encoding(s, at, fmt) =~= seq_encoding(s.take(i), at, fmt) + seq_encoding(
            s.skip(i),
            at + seq_encoding(s.take(i), at, fmt).len(),
            fmt,
        ));
    }
}

/// Item `i` of `s` is encoded right after the first `i` items.
pub proof fn lemma_seq_encoding_item<T: Storable>(s: Seq<T>, i: int, at: nat, fmt: Format)
    requires
        0 <= i < s.len(),
    ensures
        ({
            let pre = seq_encoding(s.take(i), at, fmt);
            let item = s[i].encoding(at + pre.len(), fmt);
            &&& pre.len() + item.len() <= seq_encoding(s, at, fmt).len()
            &&& seq_encoding(s, at, fmt).subrange(pre.len() as int, pre.len() + item.len() as int) == item
            &&& seq_encoding(s.take(i + 1), at, fmt) == pre + item
        }),
{
    lemma_seq_encoding_split(s, i, at, fmt);
    let pre = seq_encoding(s.take(i), at, fmt);
    let rest = s.skip(i);
    assert(rest[0] == s[i]);
    let item = s[i].encoding(at + pre.len(), fmt);
    assert(seq_encoding(rest, at + pre.len(), fmt) == item + seq_encoding(
        rest.drop_first(),
        at + pre.len() + item.len(),
        fmt,
    ));
    assert(seq_encoding(s, at, fmt).subrange(pre.len() as int, pre.len() + item.len() as int) =~= item);
    assert(s.take(i + 1) =~= s.take(i).push(s[i]));
    lemma_seq_encoding_push(s.take(i), s[i], at, fmt);
}

/// `p` is a prefix of `s`.
pub open spec fn is_prefix(p: Seq<u8>, s: Seq<u8>) -> bool {
    p.len() <= s.len() && s.subrange(0, p.len() as int) == p
}

/// Values of `T` are told apart by their encoding, even with more bytes after it: where one
/// value's bytes begin another's, the two are the same value.
pub open spec fn decodable<T: Storable>(fmt: Format) -> bool {
    forall|a: T, b: T, at: nat|
        is_prefix(#[trigger] a.encoding(at, fmt), #[trigger] b.encoding(at, fmt)) ==> a == b
}

/// Of two prefixes of one sequence, the shorter is a prefix of the longer.
pub proof fn lemma_prefixes(p: Seq<u8>, q: Seq<u8>, s: Seq<u8>)
    requires
        is_prefix(p, s),
        is_prefix(q, s),
        p.len() <= q.len(),
    ensures
        is_prefix(p, q),
{
    assert(q.subrange(0, p.len() as int) =~= s.subrange(0, p.len() as int));
}

/// Where items are decodable, sequences of as many items whose encodings begin one another are
/// equal.
pub proof fn lemma_seq_decodable<T: Storable>(s: Seq<T>, t: Seq<T>, at: nat, fmt: Format)
    requires
        decodable::<T>(fmt),
        s.len() == t.len(),
        is_prefix(seq_encoding(s, at, fmt), seq_encoding(t, at, fmt)),
    ensures
        s == t,
    decreases s.len(),
{
    if s.len() == 0 {
        assert(s =~= t);
    } else {
        let es = seq_encoding(s, at, fmt);
        let et = seq_encoding(t, at, fmt);
        let a = s[0].encoding(at, fmt);
        let b = t[0].encoding(at, fmt);
        assert(is_prefix(a, et)) by {
            assert(es.subrange(0, a.len() as int) =~= a);
            assert(et.subrange(0, a.len() as int) =~= es.subrange(0, a.len() as int));
        }
        assert(is_prefix(b, et)) by {
            assert(et.subrange(0, b.len() as int) =~= b);
        }
        if a.len() <= b.len() {
            lemma_prefixes(a, b, et);
        } else {
            lemma_prefixes(b, a, et);
        }
        assert(s[0] == t[0]);
        let rs = seq_encoding(s.drop_first(), at + a.len(), fmt);
        let rt = seq_encoding(t.drop_first(), at + a.len(), fmt);
        assert(es == a + rs);
        assert(et == a + rt);
        assert(is_prefix(rs, rt)) by {
            assert(et.subrange(0, es.len() as int) == es);
            assert(et.subrange(a.len() as int, es.len() as int) =~= es.subrange(
                a.len() as int,
                es.len() as int,
            ));
            assert(rt.subrange(0, rs.len() as int) =~= et.subrange(
                a.len() as int,
                a.len() + rs.len() as int,
            ));
            assert(es.subrange(a.len() as int, es.len() as int) =~= rs);
        }
        lemma_seq_decodable(s.drop_first(), t.drop_first(), at + a.len(), fmt);
        assert(s =~= t) by {
            assert forall|i: int| 0 <= i < s.len() implies s[i] == t[i] by {
                if i > 0 {
                    assert(s[i] == s.drop_first()[i - 1]);
                    assert(t[i] == t.drop_first()[i - 1]);
                }
            }
        }
    }
}

/// Stores the items of `slice` one after another.
pub fn store_slice<S: WriteSavestate, T: Storable>(slice: &[T], save: &mut S) -> (r: Result<
    (),
    WriteError,
>)
    requires
        old(save).wf(),
    ensures
        final(save).wf(),
        r is Ok ==> final(save).model() == old(save).model().appended(
            seq_encoding(slice@, old(save).model().bytes.len(), write_format(old(save).model())),
        ),
        r is Ok ==> seq_storable(slice@),
        seq_storable(slice@) && old(save).model().bytes.len() + seq_encoding(
            slice@,
            old(save).model().bytes.len(),
            write_format(old(save).model()),
        ).len() <= u32::MAX ==> r is Ok,
{
    let ghost m = old(save).model();
    let ghost at = m.bytes.len();
    let ghost fmt = write_format(m);
    let len = slice.len();
    let mut i: usize = 0;
    assert(slice@.take(0) =~= Seq::<T>::empty());
    assert(m.appended(Seq::empty()) =~= m);
    while i < len
        invariant
            len == slice@.len(),
            i <= len,
            save.wf(),
            m == old(save).model(),
            at == m.bytes.len(),
            fmt == write_format(m),
            save.model() == m.appended(seq_encoding(slice@.take(i as int), at, fmt)),
            forall|k: int| 0 <= k < i ==> #[trigger] slice@[k].storable(),
        decreases len - i,
    {
        proof {
            lemma_seq_encoding_item(slice@, i as int, at, fmt);
        }
        let ghost before = save.model();
        let r = slice[i].store(save);
        match r {
            Ok(()) => {},
            Err(e) => {
                return Err(e);
            },
        }
        proof {
            let pre = seq_encoding(slice@.take(i as int), at, fmt);
            assert(before.bytes.len() == at + pre.len());
            assert(write_format(before) == fmt);
            assert(save.model().bytes =~= m.bytes + seq_encoding(slice@.take(i + 1), at, fmt));
            assert(save.model() == m.appended(seq_encoding(slice@.take(i + 1), at, fmt)));
        }
        i = i + 1;
    }
    assert(slice@.take(len as int) =~= slice@);
    Ok(())
}

/// Loads `n` items one after another.
pub fn load_vec<S: ReadSavestate, T: Loadable>(save: &mut S, n: usize) -> (r: Result<
    Vec<T>,
    ReadError,
>)
    requires
        old(save).wf(),
    ensures
        final(save).wf(),
        same_stream(old(save).model(), final(save).model()),
        match r {
            Ok(v) => v@.len() == n,
            Err(_) => true,
        },
        forall|x: Seq<T>| #[trigger]
            seq_encoded_at(x, old(save).model()) && x.len() == n ==> match r {
                Ok(v) => v@.len() == n && seq_encoding(
                    v@,
                    old(save).model().pos,
                    read_format(old(save).model()),
                ) == seq_encoding(x, old(save).model().pos, read_format(old(save).model()))
                    && final(save).model() == old(save).model().at_pos(
                    old(save).model().pos + seq_encoding(
                        x,
                        old(save).model().pos,
                        read_format(old(save).model()),
                    ).len(),
                ),
                Err(_) => false,
            },
{
    let ghost m = old(save).model();
    let ghost at = m.pos;
    let ghost fmt = read_format(m);
    let mut v: Vec<T> = Vec::new();
    let mut i: usize = 0;
    proof {
        assert forall|x: Seq<T>| #[trigger] seq_encoded_at(x, m) && x.len() == n implies x.take(0)
            =~= Seq::<T>::empty() by {}
        assert(m.at_pos(at + 0) == m);
    }
    while i < n
        invariant
            i <= n,
            v@.len() == i,
            save.wf(),
            same_stream(m, save.model()),
            m == old(save).model(),
            at == m.pos,
            fmt == read_format(m),
            forall|x: Seq<T>| #[trigger]
                seq_encoded_at(x, m) && x.len() == n ==> seq_encoding(v@, at, fmt) == seq_encoding(
                    x.take(i as int),
                    at,
                    fmt,
                ) && save.model() == m.at_pos(at + seq_encoding(x.take(i as int), at, fmt).len()),
        decreases n - i,
    {
        let ghost before = save.model();
        let r = T::load(save);
        proof {
            assert forall|x: Seq<T>| #[trigger] seq_encoded_at(x, m) && x.len() == n implies encoded_at(
                x[i as int],
                before,
            ) by {
                lemma_seq_encoding_item(x, i as int, at, fmt);
                let pre = seq_encoding(x.take(i as int), at, fmt);
                let item = x[i as int].encoding(at + pre.len(), fmt);
                let all = seq_encoding(x, at, fmt);
                assert(before.pos == at + pre.len());
                assert(m.data.subrange(at as int, at + all.len() as int) == all);
                assert(before.data.subrange(before.pos as int, before.pos + item.len() as int) =~= all.subrange(
                    pre.len() as int,
                    pre.len() + item.len() as int,
                ));
            }
        }
        let e = match r {
            Ok(e) => e,
            Err(err) => {
                proof {
                    assert forall|x: Seq<T>| #[trigger] seq_encoded_at(x, m) && x.len() == n implies false by {
                        assert(encoded_at(x[i as int], before));
                    }
                }
                return Err(err);
            },
        };
        let ghost vs = v@;
        v.push(e);
        proof {
            assert forall|x: Seq<T>| #[trigger] seq_encoded_at(x, m) && x.len() == n implies seq_encoding(
                v@,
                at,
                fmt,
            ) == seq_encoding(x.take(i + 1), at, fmt) && save.model() == m.at_pos(
                at + seq_encoding(x.take(i + 1), at, fmt).len(),
            ) by {
                assert(encoded_at(x[i as int], before));
                lemma_seq_encoding_item(x, i as int, at, fmt);
                lemma_seq_encoding_push(vs, e, at, fmt);
                assert(v@ == vs.push(e));
            }
        }
        i = i + 1;
    }
    proof {
        assert forall|x: Seq<T>| #[trigger] seq_encoded_at(x, m) && x.len() == n implies x.take(
            n as int,
        ) =~= x by {}
    }
    Ok(v)
}

impl<T: Storable> Storable for Vec<T> {
    open spec fn encoding(&self, at: nat, fmt: Format) -> Seq<u8> {
        ordered_bytes(self@.len(), 4, fmt.little) + seq_encoding(self@, at + 4, fmt)
    }

    open spec fn storable(&self) -> bool {
        self@.len() <= u32::MAX && seq_storable(self@)
    }

    fn store<S: WriteSavestate>(&self, save: &mut S) -> (r: Result<(), WriteError>)
        ensures
            // A length that 4 bytes cannot hold is refused, and nothing is written.
            self@.len() > u32::MAX ==> r == Err::<(), WriteError>(WriteError::TooManyFields)
                && final(save).model() == old(save).model(),
    {
        let ghost m = old(save).model();
        proof {
            lemma_ordered_bytes_len(self@.len(), 4, m.little);
        }
        match save.store_array_len(self.len()) {
            Ok(()) => {},
            Err(e) => return Err(e),
        }
        let r = store_slice(self.as_slice(), save);
        proof {
            let head = ordered_bytes(self@.len(), 4, m.little);
            let body = seq_encoding(self@, m.bytes.len() + 4, write_format(m));
            assert(m.bytes + head + body =~= m.bytes + (head + body));
        }
        r
    }
}

impl<T: Loadable> Loadable for Vec<T> {
    fn load<S: ReadSavestate>(save: &mut S) -> (r: Result<Self, ReadError>)
        ensures
            // Running past the end of the buffer fails.
            !old(save).model().can_take(4) ==> r == Err::<Vec<T>, ReadError>(ReadError::UnexpectedEof),
    {
        let ghost m = old(save).model();
        let ghost fmt = read_format(m);
        let len = match save.load_raw::<u32>() {
            Ok(l) => l,
            Err(e) => {
                proof {
                    assert forall|x: Vec<T>| #[trigger] encoded_at(x, m) implies false by {
                        lemma_ordered_bytes_len(x@.len(), 4, m.little);
                    }
                }
                return Err(e);
            },
        };
        let ghost mid = save.model();
        proof {
            assert forall|x: Vec<T>| #[trigger] encoded_at(x, m) implies x@.len() == len
                && seq_encoded_at(x@, mid) by {
                let head = ordered_bytes(x@.len(), 4, m.little);
                let body = seq_encoding(x@, m.pos + 4, fmt);
                let enc = x.encoding(m.pos, fmt);
                lemma_ordered_bytes_len(x@.len(), 4, m.little);
                crate::raw::lemma_pow256_facts(0);
                crate::raw::lemma_ordered_round_trip(x@.len(), 4, m.little);
                let whole = m.data.subrange(m.pos as int, m.pos + enc.len() as int);
                assert(whole == enc);
                assert(m.ahead(4) =~= whole.subrange(0, 4));
                assert(enc.subrange(0, 4) =~= head);
                assert(mid.data.subrange(mid.pos as int, mid.pos + body.len() as int) =~= whole.subrange(
                    4,
                    enc.len() as int,
                ));
                assert(enc.subrange(4, enc.len() as int) =~= body);
            }
        }
        let r = load_vec::<S, T>(save, len as usize);
        proof {
            assert forall|x: Vec<T>| #[trigger] encoded_at(x, m) implies match r {
                Ok(v) => v.encoding(m.pos, fmt) == x.encoding(m.pos, fmt) && save.model()
                    == m.at_pos(m.pos + x.encoding(m.pos, fmt).len()),
                Err(_) => false,
            } by {
                assert(seq_encoded_at(x@, mid) && x@.len() == len as usize);
                lemma_ordered_bytes_len(x@.len(), 4, m.little);
            }
        }
        r
    }
}

/// Overwrites the items of `slice` one after another from the channel.
pub fn load_slice_in_place<S: ReadSavestate, T: LoadableInPlace>(slice: &mut [T], save: &mut S) -> (r:
    Result<(), ReadError>)
    requires
        old(save).wf(),
    ensures
        final(save).wf(),
        same_stream(old(save).model(), final(save).model()),
        final(slice)@.len() == old(slice)@.len(),
        forall|x: Seq<T>| #[trigger]
            seq_encoded_at(x, old(save).model()) && x.len() == old(slice)@.len() ==> r is Ok
                && seq_encoding(final(slice)@, old(save).model().pos, read_format(old(save).model()))
                == seq_encoding(x, old(save).model().pos, read_format(old(save).model()))
                && (decodable::<T>(read_format(old(save).model())) ==> final(slice)@ == x)
                && final(save).model() == old(save).model().at_pos(
                old(save).model().pos + seq_encoding(
                    x,
                    old(save).model().pos,
                    read_format(old(save).model()),
                ).len(),
            ),
{
    let ghost m = old(save).model();
    let ghost at = m.pos;
    let ghost fmt = read_format(m);
    let n = slice.len();
    let mut i: usize = 0;
    proof {
        assert(m.at_pos(at + 0) == m);
    }
    while i < n
        invariant
            i <= n,
            n == slice@.len(),
            n == old(slice)@.len(),
            save.wf(),
            same_stream(m, save.model()),
            m == old(save).model(),
            at == m.pos,
            fmt == read_format(m),
            forall|x: Seq<T>| #[trigger]
                seq_encoded_at(x, m) && x.len() == n ==> seq_encoding(slice@.take(i as int), at, fmt)
                    == seq_encoding(x.take(i as int), at, fmt) && save.model() == m.at_pos(
                    at + seq_encoding(x.take(i as int), at, fmt).len(),
                ),
        decreases n - i,
    {
        let ghost before = save.model();
        let ghost prev = slice@;
        proof {
            assert forall|x: Seq<T>| #[trigger] seq_encoded_at(x, m) && x.len() == n implies encoded_at(
                x[i as int],
                before,
            ) by {
                lemma_seq_encoding_item(x, i as int, at, fmt);
                let pre = seq_encoding(x.take(i as int), at, fmt);
                let item = x[i as int].encoding(at + pre.len(), fmt);
                let all = seq_encoding(x, at, fmt);
                assert(m.data.subrange(at as int, at + all.len() as int) == all);
                assert(before.data.subrange(before.pos as int, before.pos + item.len() as int) =~= all.subrange(
                    pre.len() as int,
                    pre.len() + item.len() as int,
                ));
            }
        }
        let r = slice[i].load_in_place(save);
        let ghost e = slice@[i as int];
        proof {
            assert(slice@ == prev.update(i as int, e));
            assert(slice@.take(i as int) =~= prev.take(i as int));
        }
        match r {
            Ok(()) => {},
            Err(err) => {
                proof {
                    assert forall|x: Seq<T>| #[trigger] seq_encoded_at(x, m) && x.len() == n implies false by {
                        assert(encoded_at(x[i as int], before));
                    }
                }
                return Err(err);
            },
        }
        proof {
            assert forall|x: Seq<T>| #[trigger] seq_encoded_at(x, m) && x.len() == n implies seq_encoding(
                slice@.take(i + 1),
                at,
                fmt,
            ) == seq_encoding(x.take(i + 1), at, fmt) && save.model() == m.at_pos(
                at + seq_encoding(x.take(i + 1), at, fmt).len(),
            ) by {
                assert(encoded_at(x[i as int], before));
                lemma_seq_encoding_item(x, i as int, at, fmt);
                assert(slice@.take(i + 1) =~= prev.take(i as int).push(e));
                lemma_seq_encoding_push(prev.take(i as int), e, at, fmt);
            }
        }
        i = i + 1;
    }
    proof {
        assert forall|x: Seq<T>| #[trigger] seq_encoded_at(x, m) && x.len() == n implies x.take(
            n as int,
        ) =~= x && slice@.take(n as int) =~= slice@ && (decodable::<T>(fmt) ==> slice@ == x) by {
            assert(x.take(n as int) =~= x && slice@.take(n as int) =~= slice@);
            if decodable::<T>(fmt) {
                let e = seq_encoding(x, at, fmt);
                assert(e.subrange(0, e.len() as int) =~= e);
                lemma_seq_decodable(slice@, x, at, fmt);
            }
        }
    }
    Ok(())
}

/// The width in bytes of the discriminant of an enum with `variant_count` variants: the smallest
/// of 1, 2, 4 and 8 bytes that can index every variant.
pub open spec fn discriminant_width(variant_count: nat) -> nat {
    if variant_count <= 0x100 {
        1
    } else if variant_count <= 0x1_0000 {
        2
    } else if variant_count <= 0x1_0000_0000 {
        4
    } else {
        8
    }
}

pub fn discriminant_size(variant_count: u64) -> (r: usize)
    ensures
        r == discriminant_width(variant_count as nat),
{
    if variant_count <= 0x100 {
        1
    } else if variant_count <= 0x1_0000 {
        2
    } else if variant_count <= 0x1_0000_0000 {
        4
    } else {
        8
    }
}

/// Stores the discriminant of an enum's variant, in the width its variant count calls for.
pub fn store_discriminant<S: WriteSavestate>(save: &mut S, discriminant: u64, variant_count: u64)
    requires
        old(save).wf(),
        discriminant < variant_count,
    ensures
        final(save).wf(),
        final(save).model() == old(save).model().appended(
            ordered_bytes(
                discriminant as nat,
                discriminant_width(variant_count as nat),
                old(save).model().little,
            ),
        ),
{
    let width = discriminant_size(variant_count);
    if width == 1 {
        save.store_raw(discriminant as u8);
    } else if width == 2 {
        save.store_raw(discriminant as u16);
    } else if width == 4 {
        save.store_raw(discriminant as u32);
    } else {
        save.store_raw(discriminant);
    }
}

/// Loads the discriminant of an enum with `variant_count` variants; one out of range fails
/// with `InvalidEnum`.
pub fn load_discriminant<S: ReadSavestate>(save: &mut S, variant_count: u64) -> (r: Result<
    u64,
    ReadError,
>)
    requires
        old(save).wf(),
    ensures
        final(save).wf(),
        same_stream(old(save).model(), final(save).model()),
        match old(save).model().take_result(discriminant_width(variant_count as nat)) {
            Err(e) => r == Err::<u64, ReadError>(e),
            Ok(next) => {
                let v = ordered_value(
                    old(save).model().ahead(discriminant_width(variant_count as nat)),
                    old(save).model().little,
                );
                if v < variant_count {
                    r == Ok::<u64, ReadError>(v as u64) && final(save).model() == next
                } else {
                    r == Err::<u64, ReadError>(ReadError::InvalidEnum)
                }
            },
        },
{
    let width = discriminant_size(variant_count);
    let value: u64 = if width == 1 {
        match save.load_raw::<u8>() {
            Ok(v) => v as u64,
            Err(e) => return Err(e),
        }
    } else if width == 2 {
        match save.load_raw::<u16>() {
            Ok(v) => v as u64,
            Err(e) => return Err(e),
        }
    } else if width == 4 {
        match save.load_raw::<u32>() {
            Ok(v) => v as u64,
            Err(e) => return Err(e),
        }
    } else {
        match save.load_raw::<u64>() {
            Ok(v) => v,
            Err(e) => return Err(e),
        }
    };
    if value >= variant_count {
        return Err(ReadError::InvalidEnum);
    }
    Ok(value)
}

impl Storable for usize {
    open spec fn encoding(&self, at: nat, fmt: Format) -> Seq<u8> {
        int_encoding(*self as u32, fmt)
    }

    /// Sizes are stored in 4 bytes; a larger one is refused rather than cut short.
    open spec fn storable(&self) -> bool {
        *self <= u32::MAX
    }

    fn store<S: WriteSavestate>(&self, save: &mut S) -> (r: Result<(), WriteError>)
        ensures
            *self > u32::MAX ==> r == Err::<(), WriteError>(WriteError::TooManyFields)
                && final(save).model() == old(save).model(),
    {
        if *self > u32::MAX as usize {
            return Err(WriteError::TooManyFields);
        }
        store_int(*self as u32, save);
        Ok(())
    }
}

impl Loadable for usize {
    fn load<S: ReadSavestate>(save: &mut S) -> (r: Result<Self, ReadError>)
        ensures
            !old(save).model().can_take(4) ==> r == Err::<usize, ReadError>(ReadError::UnexpectedEof),
    {
        let ghost m = old(save).model();
        let r = load_int::<u32, S>(save);
        proof {
            assert forall|x: usize| #[trigger] encoded_at(x, m) implies int_encoded_at(x as u32, m) by {
                lemma_value_round_trip(x as u32, m.little);
            }
        }
        match r {
            Ok(v) => Ok(v as usize),
            Err(e) => Err(e),
        }
    }
}

impl Storable for isize {
    open spec fn encoding(&self, at: nat, fmt: Format) -> Seq<u8> {
        int_encoding(*self as i32, fmt)
    }

    /// Signed sizes are stored in 4 bytes; one out of that range is refused rather than cut
    /// short.
    open spec fn storable(&self) -> bool {
        i32::MIN <= *self <= i32::MAX
    }

    fn store<S: WriteSavestate>(&self, save: &mut S) -> (r: Result<(), WriteError>)
        ensures
            !(i32::MIN <= *self <= i32::MAX) ==> r == Err::<(), WriteError>(WriteError::TooManyFields)
                && final(save).model() == old(save).model(),
    {
        if *self > i32::MAX as isize || *self < i32::MIN as isize {
            return Err(WriteError::TooManyFields);
        }
        store_int(*self as i32, save);
        Ok(())
    }
}

impl Loadable for isize {
    fn load<S: ReadSavestate>(save: &mut S) -> (r: Result<Self, ReadError>)
        ensures
            !old(save).model().can_take(4) ==> r == Err::<isize, ReadError>(ReadError::UnexpectedEof),
    {
        let ghost m = old(save).model();
        let r = load_int::<i32, S>(save);
        proof {
            assert forall|x: isize| #[trigger] encoded_at(x, m) implies int_encoded_at(x as i32, m) by {
                lemma_value_round_trip(x as i32, m.little);
            }
        }
        match r {
            Ok(v) => Ok(v as isize),
            Err(e) => Err(e),
        }
    }
}

// `Cell` gets no codec: Verus does not support `std::cell::Cell`. A wrapper type passes through
// the way `Box` does below.
impl<T: Storable> Storable for Box<T> {
    open spec fn encoding(&self, at: nat, fmt: Format) -> Seq<u8> {
        (**self).encoding(at, fmt)
    }

    open spec fn storable(&self) -> bool {
        (**self).storable()
    }

    fn store<S: WriteSavestate>(&self, save: &mut S) -> (r: Result<(), WriteError>) {
        (**self).store(save)
    }
}

impl<T: Loadable> Loadable for Box<T> {
    fn load<S: ReadSavestate>(save: &mut S) -> (r: Result<Self, ReadError>) {
        let ghost m = old(save).model();
        let r = T::load(save);
        proof {
            assert forall|x: Box<T>| #[trigger] encoded_at(x, m) implies encoded_at(*x, m) by {}
        }
        match r {
            Ok(v) => Ok(Box::new(v)),
            Err(e) => Err(e),
        }
    }
}

impl<T: LoadableInPlace> LoadableInPlace for Box<T> {
    fn load_in_place<S: ReadSavestate>(&mut self, save: &mut S) -> (r: Result<(), ReadError>) {
        let ghost m = old(save).model();
        let r = (**self).load_in_place(save);
        proof {
            assert forall|x: Box<T>| #[trigger] encoded_at(x, m) implies encoded_at(*x, m) by {}
        }
        r
    }
}

impl<A: Storable, B: Storable> Storable for (A, B) {
    open spec fn encoding(&self, at: nat, fmt: Format) -> Seq<u8> {
        let first = self.0.encoding(at, fmt);
        first + self.1.encoding(at + first.len(), fmt)
    }

    open spec fn storable(&self) -> bool {
        self.0.storable() && self.1.storable()
    }

    fn store<S: WriteSavestate>(&self, save: &mut S) -> (r: Result<(), WriteError>) {
        let ghost m = old(save).model();
        match self.0.store(save) {
            Ok(()) => {},
            Err(e) => return Err(e),
        }
        let r = self.1.store(save);
        proof {
            let first = self.0.encoding(m.bytes.len(), write_format(m));
            let second = self.1.encoding(m.bytes.len() + first.len(), write_format(m));
            assert(m.bytes + first + second =~= m.bytes + (first + second));
        }
        r
    }
}

/// Where a pair is encoded at the cursor, its first item is encoded there and its second right
/// after.
proof fn lemma_pair_parts<A: Storable, B: Storable>(x: (A, B), m: ReadModel)
    requires
        encoded_at(x, m),
    ensures
        encoded_at(x.0, m),
        encoded_at(x.1, m.at_pos(m.pos + x.0.encoding(m.pos, read_format(m)).len())),
{
    let fmt = read_format(m);
    let first = x.0.encoding(m.pos, fmt);
    let second = x.1.encoding(m.pos + first.len(), fmt);
    let enc = x.encoding(m.pos, fmt);
    let whole = m.data.subrange(m.pos as int, m.pos + enc.len() as int);
    assert(whole == enc);
    assert(m.data.subrange(m.pos as int, m.pos + first.len() as int) =~= whole.subrange(
        0,
        first.len() as int,
    ));
    assert(enc.subrange(0, first.len() as int) =~= first);
    let mid = m.at_pos(m.pos + first.len());
    assert(mid.data.subrange(mid.pos as int, mid.pos + second.len() as int) =~= whole.subrange(
        first.len() as int,
        enc.len() as int,
    ));
    assert(enc.subrange(first.len() as int, enc.len() as int) =~= second);
}

impl<A: Loadable, B: Loadable> Loadable for (A, B) {
    fn load<S: ReadSavestate>(save: &mut S) -> (r: Result<Self, ReadError>) {
        let ghost m = old(save).model();
        let ghost fmt = read_format(m);
        let a = match A::load(save) {
            Ok(a) => a,
            Err(e) => {
                proof {
                    assert forall|x: (A, B)| #[trigger] encoded_at(x, m) implies false by {
                        lemma_pair_parts(x, m);
                    }
                }
                return Err(e);
            },
        };
        let ghost mid = save.model();
        proof {
            assert forall|x: (A, B)| #[trigger] encoded_at(x, m) implies encoded_at(x.1, mid)
                && a.encoding(m.pos, fmt) == x.0.encoding(m.pos, fmt) by {
                lemma_pair_parts(x, m);
            }
        }
        let b = match B::load(save) {
            Ok(b) => b,
            Err(e) => {
                proof {
                    assert forall|x: (A, B)| #[trigger] encoded_at(x, m) implies false by {
                        assert(encoded_at(x.1, mid));
                    }
                }
                return Err(e);
            },
        };
        proof {
            assert forall|x: (A, B)| #[trigger] encoded_at(x, m) implies (a, b).encoding(m.pos, fmt)
                == x.encoding(m.pos, fmt) && save.model() == m.at_pos(
                m.pos + x.encoding(m.pos, fmt).len(),
            ) by {
                assert(encoded_at(x.1, mid));
                lemma_pair_parts(x, m);
            }
        }
        Ok((a, b))
    }
}

impl<A: LoadableInPlace, B: LoadableInPlace> LoadableInPlace for (A, B) {
    fn load_in_place<S: ReadSavestate>(&mut self, save: &mut S) -> (r: Result<(), ReadError>) {
        let ghost m = old(save).model();
        let ghost fmt = read_format(m);
        let ra = self.0.load_in_place(save);
        if let Err(e) = ra {
            proof {
                assert forall|x: (A, B)| #[trigger] encoded_at(x, m) implies false by {
                    lemma_pair_parts(x, m);
                }
            }
            return Err(e);
        }
        let ghost mid = save.model();
        let ghost first = self.0;
        proof {
            assert forall|x: (A, B)| #[trigger] encoded_at(x, m) implies encoded_at(x.1, mid)
                && first.encoding(m.pos, fmt) == x.0.encoding(m.pos, fmt) by {
                lemma_pair_parts(x, m);
            }
        }
        let rb = self.1.load_in_place(save);
        proof {
            assert forall|x: (A, B)| #[trigger] encoded_at(x, m) implies rb is Ok && self.encoding(
                m.pos,
                fmt,
            ) == x.encoding(m.pos, fmt) && save.model() == m.at_pos(
                m.pos + x.encoding(m.pos, fmt).len(),
            ) by {
                assert(encoded_at(x.1, mid));
                lemma_pair_parts(x, m);
            }
        }
        rb
    }
}

// Tuples of more items are written as nested pairs: `(a, (b, c))` has the bytes of `a`, `b`
// and `c` one after another, as a flat tuple would.

// Fixed-size arrays load in place only: Verus offers no way to build an array of a generic item
// type from loaded items.
impl<T: Storable, const N: usize> Storable for [T; N] {
    open spec fn encoding(&self, at: nat, fmt: Format) -> Seq<u8> {
        seq_encoding(self@, at, fmt)
    }

    open spec fn storable(&self) -> bool {
        seq_storable(self@)
    }

    fn store<S: WriteSavestate>(&self, save: &mut S) -> (r: Result<(), WriteError>) {
        store_slice(self.as_slice(), save)
    }
}

impl<T: LoadableInPlace, const N: usize> LoadableInPlace for [T; N] {
    fn load_in_place<S: ReadSavestate>(&mut self, save: &mut S) -> (r: Result<(), ReadError>) {
        let ghost m = old(save).model();
        let r = load_slice_in_place(self, save);
        proof {
            assert forall|x: [T; N]| #[trigger] encoded_at(x, m) implies seq_encoded_at(x@, m) && x@.len()
                == N by {}
        }
        r
    }
}

} // verus!
