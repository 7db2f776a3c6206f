//! A fixed-capacity ring buffer, storable as a struct with a length and the items in order.
use crate::codec::{
    encoded_at, lemma_seq_encoding_push, load_vec, read_format, seq_encoded_at, seq_encoding,
    seq_storable, store_slice, write_format, Format, Loadable, LoadableInPlace, Storable,
};
use crate::laws::lemma_directory_round_trip;
use crate::raw::{
    le_bytes, le_value, lemma_le_bytes_len, lemma_le_round_trip, lemma_ordered_bytes_len,
    lemma_ordered_round_trip, lemma_pow256_facts, ordered_bytes, ordered_value,
};
use crate::read::{parse_entries, search_from, ReadError, ReadFrame, ReadModel, ReadSavestate};
use crate::write::{directory_bytes, WriteError, WriteSavestate};
use vstd::array::array_as_slice;
use vstd::prelude::*;

verus! {

/// `pos + i` wrapped into `0..capacity`, for `pos`, `i` below `capacity` (or `i == capacity`).
pub open spec fn wrap(pos: int, i: int, capacity: int) -> int {
    if pos + i < capacity {
        pos + i
    } else {
        pos + i - capacity
    }
}

#[derive(Copy)]
pub struct Fifo<T: Copy, const CAPACITY: usize> {
    buffer: [Option<T>; CAPACITY],
    len: usize,
    read_pos: usize,
}

impl<T: Copy, const CAPACITY: usize> Clone for Fifo<T, CAPACITY> {
    fn clone(&self) -> (r: Self)
        ensures
            r@ == self@,
    {
        proof {
            use_type_invariant(self);
        }
        Fifo { buffer: self.buffer, len: self.len, read_pos: self.read_pos }
    }
}

impl<T: Copy, const CAPACITY: usize> Fifo<T, CAPACITY> {
    /// The items, oldest first.
    pub closed spec fn view(&self) -> Seq<T> {
        Seq::new(
            self.len as nat,
            |i: int| self.buffer@[wrap(self.read_pos as int, i, CAPACITY as int)]->Some_0,
        )
    }

    pub closed spec fn spec_read_pos(&self) -> usize {
        self.read_pos
    }

    /// The slot the next item goes to.
    pub open spec fn spec_write_pos(&self) -> int {
        wrap(self.spec_read_pos() as int, self@.len() as int, CAPACITY as int)
    }

    pub closed spec fn raw(&self) -> Seq<Option<T>> {
        self.buffer@
    }

    #[verifier::type_invariant]
    pub closed spec fn wf(&self) -> bool {
        &&& self.len <= CAPACITY
        &&& (CAPACITY == 0 ==> self.read_pos == 0)
        &&& (CAPACITY > 0 ==> self.read_pos < CAPACITY)
        &&& forall|i: int|
            0 <= i < self.len ==> #[trigger] self.buffer@[wrap(
                self.read_pos as int,
                i,
                CAPACITY as int,
            )] is Some
    }

    /// An empty buffer.
    #[inline]
    pub fn new() -> (r: Self)
        ensures
            r@ == Seq::<T>::empty(),
            r.spec_read_pos() == 0,
    {
        let r = Fifo {
            buffer: vstd::array::array_fill_for_copy_types(None),
            len: 0,
            read_pos: 0,
        };
        assert(r@ =~= Seq::<T>::empty());
        r
    }

    /// The underlying slots: item `i` is in slot `(read_pos + i) % CAPACITY`.
    #[inline]
    pub fn into_raw(self) -> (r: [Option<T>; CAPACITY])
        ensures
            r@ == self.raw(),
            forall|i: int|
                0 <= i < self@.len() ==> r@[wrap(self.spec_read_pos() as int, i, CAPACITY as int)]
                    == Some(#[trigger] self@[i]),
    {
        proof {
            use_type_invariant(&self);
        }
        self.buffer
    }

    #[inline]
    pub fn as_raw(&self) -> (r: &[Option<T>; CAPACITY])
        ensures
            r@ == self.raw(),
            forall|i: int|
                0 <= i < self@.len() ==> r@[wrap(self.spec_read_pos() as int, i, CAPACITY as int)]
                    == Some(#[trigger] self@[i]),
    {
        proof {
            use_type_invariant(self);
        }
        &self.buffer
    }

    #[inline]
    pub fn len(&self) -> (r: usize)
        ensures
            r == self@.len(),
    {
        self.len
    }

    #[inline]
    pub fn read_pos(&self) -> (r: usize)
        ensures
            r == self.spec_read_pos(),
    {
        self.read_pos
    }

    #[inline]
    pub fn write_pos(&self) -> (r: usize)
        ensures
            r == self.spec_write_pos(),
    {
        proof {
            use_type_invariant(self);
        }
        if self.len < CAPACITY - self.read_pos {
            self.read_pos + self.len
        } else {
            self.len - (CAPACITY - self.read_pos)
        }
    }

    #[inline]
    pub fn is_empty(&self) -> (r: bool)
        ensures
            r == (self@.len() == 0),
    {
        self.len == 0
    }

    #[inline]
    pub fn is_full(&self) -> (r: bool)
        ensures
            r == (self@.len() == CAPACITY),
    {
        self.len == CAPACITY
    }

    #[inline]
    pub fn clear(&mut self)
        ensures
            final(self)@ == Seq::<T>::empty(),
            final(self).spec_read_pos() == 0,
            final(self).raw() == old(self).raw(),
    {
        proof {
            use_type_invariant(&*self);
        }
        self.len = 0;
        self.read_pos = 0;
        assert(self@ =~= Seq::<T>::empty());
    }

    /// Appends `value`; the buffer must not be full.
    pub fn write_unchecked(&mut self, value: T)
        requires
            old(self)@.len() < CAPACITY,
        ensures
            final(self)@ == old(self)@.push(value),
        no_unwind
    {
        proof {
            use_type_invariant(&*self);
        }
        let ghost old_view = self@;
        let pos = if self.len < CAPACITY - self.read_pos {
            self.read_pos + self.len
        } else {
            self.len - (CAPACITY - self.read_pos)
        };
        self.buffer[pos] = Some(value);
        self.len = self.len + 1;
        proof {
            assert forall|i: int| 0 <= i < self.len implies #[trigger] self.buffer@[wrap(
                self.read_pos as int,
                i,
                CAPACITY as int,
            )] is Some by {
                if i < self.len - 1 {
                    assert(wrap(self.read_pos as int, i, CAPACITY as int) != pos);
                }
            }
            assert(self@ =~= old_view.push(value)) by {
                assert forall|i: int| 0 <= i < old_view.len() implies #[trigger] self@[i] == old_view[i] by {
                    assert(wrap(self.read_pos as int, i, CAPACITY as int) != pos);
                }
            }
        }
    }

    /// Appends `value`, or gives `None` and changes nothing when the buffer is full.
    #[must_use]
    pub fn write(&mut self, value: T) -> (r: Option<()>)
        ensures
            old(self)@.len() == CAPACITY ==> r is None && *final(self) == *old(self),
            old(self)@.len() < CAPACITY ==> r is Some && final(self)@ == old(self)@.push(value),
    {
        proof {
            use_type_invariant(&*self);
        }
        if self.is_full() {
            return None;
        }
        self.write_unchecked(value);
        Some(())
    }

    /// Takes the oldest item; the buffer must not be empty.
    pub fn read_unchecked(&mut self) -> (r: T)
        requires
            old(self)@.len() > 0,
        ensures
            r == old(self)@[0],
            final(self)@ == old(self)@.drop_first(),
    {
        proof {
            use_type_invariant(&*self);
        }
        let ghost old_view = self@;
        let ghost old_pos = self.read_pos as int;
        proof {
            assert(self.buffer@[wrap(old_pos, 0, CAPACITY as int)] is Some);
        }
        let result = self.buffer[self.read_pos].unwrap();
        self.len = self.len - 1;
        let next = if self.read_pos + 1 == CAPACITY {
            0
        } else {
            self.read_pos + 1
        };
        proof {
            assert forall|i: int| 0 <= i < self.len implies #[trigger] self.buffer@[wrap(
                next as int,
                i,
                CAPACITY as int,
            )] is Some by {
                assert(self.buffer@[wrap(old_pos, i + 1, CAPACITY as int)] is Some);
            }
        }
        self.read_pos = next;
        proof {
            assert forall|i: int| 0 <= i < self.len implies #[trigger] self.buffer@[wrap(
                self.read_pos as int,
                i,
                CAPACITY as int,
            )] is Some by {
                assert(self.buffer@[wrap(old_pos, i + 1, CAPACITY as int)] is Some);
            }
            assert(self@ =~= old_view.drop_first());
        }
        result
    }

    /// Takes the oldest item, if any.
    pub fn read(&mut self) -> (r: Option<T>)
        ensures
            old(self)@.len() == 0 ==> r is None && *final(self) == *old(self),
            old(self)@.len() > 0 ==> r == Some(old(self)@[0]) && final(self)@ == old(self)@.drop_first(),
    {
        if self.is_empty() {
            return None;
        }
        Some(self.read_unchecked())
    }

    /// The oldest item; the buffer must not be empty.
    pub fn peek_unchecked(&self) -> (r: T)
        requires
            self@.len() > 0,
        ensures
            r == self@[0],
    {
        proof {
            use_type_invariant(self);
        }
        proof {
            assert(self.buffer@[wrap(self.read_pos as int, 0, CAPACITY as int)] is Some);
        }
        self.buffer[self.read_pos].unwrap()
    }

    /// The oldest item, if any.
    pub fn peek(&self) -> (r: Option<T>)
        ensures
            r == if self@.len() > 0 {
                Some(self@[0])
            } else {
                None
            },
    {
        if self.is_empty() {
            return None;
        }
        Some(self.peek_unchecked())
    }
}

impl<T: Copy, const CAPACITY: usize> Default for Fifo<T, CAPACITY> {
    fn default() -> (r: Self)
        ensures
            r@ == Seq::<T>::empty(),
    {
        Self::new()
    }
}

const LEN_FIELD: [u8; 3] = [108, 101, 110];

const BUFFER_FIELD: [u8; 6] = [98, 117, 102, 102, 101, 114];

/// The name of the length field, `len`.
pub open spec fn len_name() -> Seq<u8> {
    seq![108u8, 101u8, 110u8]
}

/// The name of the items field, `buffer`.
pub open spec fn buffer_name() -> Seq<u8> {
    seq![98u8, 117u8, 102u8, 102u8, 101u8, 114u8]
}

/// The directory of a buffer stored at `at`: the length right after the header, then the items.
pub open spec fn fifo_fields(at: nat) -> Seq<(Seq<u8>, nat)> {
    seq![(len_name(), at + 4), (buffer_name(), at + 8)]
}

/// Where the items of a buffer stored at `at` start.
pub open spec fn items_at(at: nat, fmt: Format) -> nat {
    if fmt.persistent {
        at + 8
    } else {
        at + 4
    }
}

/// The bytes of a buffer of `count` items, whose encodings are `items`, stored at `at`.
pub open spec fn fifo_bytes(at: nat, count: nat, items: Seq<u8>, fmt: Format) -> Seq<u8> {
    if fmt.persistent {
        le_bytes(at + 8 + items.len(), 4) + ordered_bytes(count, 4, fmt.little) + items + seq![2u8]
            + directory_bytes(fifo_fields(at))
    } else {
        ordered_bytes(count, 4, fmt.little) + items
    }
}

impl<T: Copy, const CAPACITY: usize> Fifo<T, CAPACITY> {
    /// The items, oldest first.
    fn items(&self) -> (r: Vec<T>)
        ensures
            r@ == self@,
    {
        proof {
            use_type_invariant(self);
        }
        let mut v: Vec<T> = Vec::new();
        let mut i: usize = 0;
        while i < self.len
            invariant
                self.wf(),
                i <= self.len,
                self.read_pos < CAPACITY || self.len == 0,
                v@ == self@.take(i as int),
            decreases self.len - i,
        {
            let pos = if i < CAPACITY - self.read_pos {
                self.read_pos + i
            } else {
                i - (CAPACITY - self.read_pos)
            };
            proof {
                assert(self.buffer@[wrap(self.read_pos as int, i as int, CAPACITY as int)] is Some);
            }
            v.push(self.buffer[pos].unwrap());
            i = i + 1;
            assert(v@ =~= self@.take(i as int));
        }
        assert(self@.take(self.len as int) =~= self@);
        v
    }

    /// A buffer holding `items`, oldest first, from slot 0.
    fn from_items(items: Vec<T>) -> (r: Self)
        requires
            items@.len() <= CAPACITY,
        ensures
            r@ == items@,
            r.spec_read_pos() == 0,
    {
        let mut buffer: [Option<T>; CAPACITY] = vstd::array::array_fill_for_copy_types(None);
        let len = items.len();
        let mut i: usize = 0;
        while i < len
            invariant
                len == items@.len(),
                len <= CAPACITY,
                i <= len,
                buffer@.len() == CAPACITY,
                forall|k: int| 0 <= k < i ==> #[trigger] buffer@[k] == Some(items@[k]),
            decreases len - i,
        {
            buffer[i] = Some(items[i]);
            i = i + 1;
        }
        let r = Fifo {
            buffer,
            len,
            read_pos: 0,
        };
        assert(r@ =~= items@);
        r
    }
}

impl<T: Copy + Storable, const CAPACITY: usize> Storable for Fifo<T, CAPACITY> {
    open spec fn encoding(&self, at: nat, fmt: Format) -> Seq<u8> {
        fifo_bytes(at, self@.len(), seq_encoding(self@, items_at(at, fmt), fmt), fmt)
    }

    open spec fn storable(&self) -> bool {
        self.wf() && self@.len() <= u32::MAX && seq_storable(self@)
    }

    fn store<S: WriteSavestate>(&self, save: &mut S) -> (r: Result<(), WriteError>) {
        proof {
            use_type_invariant(self);
        }
        let ghost m = old(save).model();
        let ghost at = m.bytes.len();
        let ghost fmt = write_format(m);
        let ghost enc = self.encoding(at, fmt);
        let ghost items_enc = seq_encoding(self@, items_at(at, fmt), fmt);
        let ghost owed = self.storable() && at + enc.len() <= u32::MAX;
        proof {
            lemma_ordered_bytes_len(self@.len() as nat, 4, fmt.little);
            lemma_le_bytes_len(at + 8 + items_enc.len(), 4);
        }
        let items = self.items();
        match save.start_struct() {
            Ok(()) => {},
            Err(e) => return Err(e),
        }
        let ghost m1 = save.model();
        match save.start_field(array_as_slice(&LEN_FIELD)) {
            Ok(()) => {},
            Err(e) => return Err(e),
        }
        let ghost m2 = save.model();
        match save.store_array_len(self.len) {
            Ok(()) => {},
            Err(e) => return Err(e),
        }
        let ghost m3 = save.model();
        match save.start_field(array_as_slice(&BUFFER_FIELD)) {
            Ok(()) => {},
            Err(e) => return Err(e),
        }
        let ghost m4 = save.model();
        assert(m4.bytes.len() == items_at(at, fmt));
        match store_slice(items.as_slice(), save) {
            Ok(()) => {},
            Err(e) => return Err(e),
        }
        let ghost m5 = save.model();
        let r = save.end_struct();
        proof {
            if r is Ok {
                if fmt.persistent {
                    let b5 = m5.bytes;
                    assert(m5.frames.last().fields =~= fifo_fields(at));
                    assert(m5.frames.last().start == at);
                    assert(m5.frames.drop_last() =~= m.frames);
                    assert(b5 =~= m.bytes + seq![0u8, 0u8, 0u8, 0u8] + ordered_bytes(
                        self@.len() as nat,
                        4,
                        fmt.little,
                    ) + items_enc);
                    assert(save.model().bytes =~= m.bytes + enc);
                } else {
                    assert(save.model().bytes =~= m.bytes + enc);
                }
            }
        }
        r
    }
}

/// A reader inside a buffer stored at `m.pos`: at `pos`, with the buffer's directory open, its
/// end at `end` and the next lookup from `cur`.
pub open spec fn fifo_stage(m: ReadModel, end: nat, pos: nat, cur: nat) -> ReadModel {
    ReadModel {
        persistent: m.persistent,
        little: m.little,
        data: m.data,
        pos,
        frames: m.frames.push(ReadFrame { fields: fifo_fields(m.pos), end, cur }),
    }
}

/// Inside a stored buffer, `len` is found first, then `buffer`.
proof fn lemma_fifo_lookups(m: ReadModel, end: nat)
    requires
        m.persistent,
    ensures
        fifo_stage(m, end, m.pos + 4, 0).start_field_result(len_name()) == Ok::<ReadModel, ReadError>(
            fifo_stage(m, end, m.pos + 4, 1),
        ),
        fifo_stage(m, end, m.pos + 8, 1).start_field_result(buffer_name()) == Ok::<
            ReadModel,
            ReadError,
        >(fifo_stage(m, end, m.pos + 8, 0)),
{
    let fields = fifo_fields(m.pos);
    assert(len_name() != buffer_name()) by {
        assert(len_name().len() != buffer_name().len());
    }
    assert(fields.len() == 2);
    assert(fields[0].0 == len_name() && fields[1].0 == buffer_name());
    assert((0nat + 0nat) % 2 == 0nat) by (nonlinear_arith);
    assert((1nat + 0nat) % 2 == 1nat) by (nonlinear_arith);
    assert((1nat + 1nat) % 2 == 0nat) by (nonlinear_arith);
    assert(search_from(fields, len_name(), 0, 0) == Some(0nat));
    assert(search_from(fields, buffer_name(), 1, 0) == Some(1nat));
    let a = fifo_stage(m, end, m.pos + 4, 0);
    assert(a.frames.update(a.frames.len() - 1, ReadFrame { fields, end, cur: 1 }) =~= fifo_stage(
        m,
        end,
        m.pos + 4,
        1,
    ).frames);
    let b = fifo_stage(m, end, m.pos + 8, 1);
    assert(b.frames.update(b.frames.len() - 1, ReadFrame { fields, end, cur: 0 }) =~= fifo_stage(
        m,
        end,
        m.pos + 8,
        0,
    ).frames);
}

/// Where the bytes at the cursor are a stored buffer, this is how they are laid out.
proof fn lemma_fifo_layout<T: Copy + Storable, const CAPACITY: usize>(
    x: Fifo<T, CAPACITY>,
    m: ReadModel,
)
    requires
        encoded_at(x, m),
        m.persistent ==> m.data.len() <= u32::MAX && m.little,
    ensures
        ({
            let at = m.pos;
            let fmt = read_format(m);
            let items = seq_encoding(x@, items_at(at, fmt), fmt);
            let enc = x.encoding(at, fmt);
            &&& m.data.subrange(items_at(at, fmt) - 4, items_at(at, fmt) as int) == ordered_bytes(
                x@.len(),
                4,
                m.little,
            )
            &&& ordered_value(ordered_bytes(x@.len(), 4, m.little), m.little) == x@.len()
            &&& seq_encoded_at(x@, m.at_pos(items_at(at, fmt)))
            &&& x@.len() <= CAPACITY
            &&& enc.len() >= items_at(at, fmt) - at + items.len()
            &&& m.persistent ==> {
                &&& m.can_take(4)
                &&& le_value(m.ahead(4)) == at + 8 + items.len()
                &&& at + 8 + items.len() < m.data.len()
                &&& m.data[at + 8 + items.len() as int] == 2
                &&& parse_entries(m.data, at + 9 + items.len(), 2) == Some(
                    (fifo_fields(at), at + enc.len()),
                )
            }
            &&& !m.persistent ==> enc.len() == 4 + items.len()
        }),
{
    let at = m.pos;
    let fmt = read_format(m);
    let ia = items_at(at, fmt);
    let items = seq_encoding(x@, ia, fmt);
    let enc = x.encoding(at, fmt);
    let whole = m.data.subrange(at as int, at + enc.len() as int);
    assert(whole == enc);
    lemma_ordered_bytes_len(x@.len(), 4, m.little);
    lemma_pow256_facts(0);
    lemma_ordered_round_trip(x@.len(), 4, m.little);
    if m.persistent {
        let dir_at = at + 8 + items.len();
        lemma_le_bytes_len(dir_at, 4);
        let lenb = ordered_bytes(x@.len(), 4, m.little);
        let dir = directory_bytes(fifo_fields(at));
        assert(enc == le_bytes(dir_at, 4) + lenb + items + seq![2u8] + dir);
        assert(m.ahead(4) =~= whole.subrange(0, 4));
        assert(whole.subrange(0, 4) =~= le_bytes(dir_at, 4));
        lemma_le_round_trip(dir_at, 4);
        assert(m.data.subrange(at + 4 as int, at + 8 as int) =~= whole.subrange(4, 8));
        assert(whole.subrange(4, 8) =~= lenb);
        assert(m.data.subrange(ia as int, ia + items.len() as int) =~= whole.subrange(
            8,
            8 + items.len() as int,
        ));
        assert(whole.subrange(8, 8 + items.len() as int) =~= items);
        assert(m.data[dir_at as int] == whole[8 + items.len() as int]);
        let dstart = dir_at + 1;
        assert(m.data.subrange(dstart as int, dstart + dir.len() as int) =~= whole.subrange(
            9 + items.len() as int,
            enc.len() as int,
        ));
        assert(whole.subrange(9 + items.len() as int, enc.len() as int) =~= dir);
        let fields = fifo_fields(at);
        assert forall|i: int| 0 <= i < fields.len() implies crate::write::valid_name(
            #[trigger] fields[i].0,
        ) by {}
        assert forall|i: int| 0 <= i < fields.len() implies #[trigger] fields[i].1 < crate::raw::pow256(4) by {}
        lemma_directory_round_trip(m.data, dstart, fields);
    } else {
        assert(m.data.subrange(at as int, at + 4 as int) =~= whole.subrange(0, 4));
        assert(m.data.subrange(ia as int, ia + items.len() as int) =~= whole.subrange(
            4,
            4 + items.len() as int,
        ));
        assert(whole.subrange(4, 4 + items.len() as int) =~= items);
    }
}

impl<T: Copy + Loadable, const CAPACITY: usize> Fifo<T, CAPACITY> {
    /// Loads a stored buffer. A stored length over the capacity is rejected with
    /// `InvalidEnum`, as an out-of-range discriminant is.
    #[verifier::rlimit(100)]
    fn load_from<S: ReadSavestate>(save: &mut S) -> (r: Result<Self, ReadError>)
        requires
            old(save).wf(),
        ensures
            final(save).wf(),
            crate::read::same_stream(old(save).model(), final(save).model()),
            crate::codec::loaded(r, old(save).model(), final(save).model()),
            loaded_fifo(r, old(save).model()),
    {
        let ghost m = old(save).model();
        let ghost at = m.pos;
        let ghost fmt = read_format(m);
        proof {
            save.lemma_format();
        }
        // The reader after each step, for a buffer `x` stored at the cursor.
        let ghost end_of = |x: Self| at + x.encoding(at, fmt).len();
        let ghost items_len = |x: Self| seq_encoding(x@, items_at(at, fmt), fmt).len();
        match save.start_struct() {
            Ok(()) => {},
            Err(e) => {
                proof {
                    assert forall|x: Self| #[trigger] encoded_at(x, m) implies false by {
                        lemma_fifo_layout(x, m);
                    }
                }
                return Err(e);
            },
        }
        proof {
            assert forall|x: Self| #[trigger] encoded_at(x, m) implies save.model() == if m.persistent {
                fifo_stage(m, end_of(x), at + 4, 0)
            } else {
                m
            } by {
                lemma_fifo_layout(x, m);
            }
        }
        let len_field = array_as_slice(&LEN_FIELD);
        assert(len_field@ == len_name());
        let ghost before_lf = save.model();
        proof {
            assert forall|x: Self| #[trigger] encoded_at(x, m) && m.persistent implies before_lf.start_field_result(
                len_name(),
            ) == Ok::<ReadModel, ReadError>(fifo_stage(m, end_of(x), at + 4, 1)) by {
                lemma_fifo_layout(x, m);
                assert(before_lf == fifo_stage(m, end_of(x), at + 4, 0));
                lemma_fifo_lookups(m, end_of(x));
            }
        }
        match save.start_field(len_field) {
            Ok(()) => {},
            Err(e) => {
                proof {
                    assert forall|x: Self| #[trigger] encoded_at(x, m) implies false by {
                        lemma_fifo_layout(x, m);
                    }
                }
                return Err(e);
            },
        }
        proof {
            assert forall|x: Self| #[trigger] encoded_at(x, m) implies save.model() == if m.persistent {
                fifo_stage(m, end_of(x), at + 4, 1)
            } else {
                m
            } by {
                lemma_fifo_layout(x, m);
            }
        }
        let ghost before_len = save.model();
        proof {
            let m1 = m.start_struct_result()->Ok_0;
            assert(m.start_struct_result() is Ok);
            assert(m1.start_field_result(len_name()) is Ok);
            assert(before_len == m1.start_field_result(len_name())->Ok_0);
        }
        let len = match save.load_raw::<u32>() {
            Ok(l) => l,
            Err(e) => {
                proof {
                    assert forall|x: Self| #[trigger] encoded_at(x, m) implies false by {
                        lemma_fifo_layout(x, m);
                    }
                }
                return Err(e);
            },
        };
        proof {
            assert forall|x: Self| #[trigger] encoded_at(x, m) implies len == x@.len() && save.model()
                == if m.persistent {
                fifo_stage(m, end_of(x), at + 8, 1)
            } else {
                m.at_pos(at + 4)
            } by {
                lemma_fifo_layout(x, m);
                assert(before_len.ahead(4) == m.data.subrange(
                    items_at(at, fmt) - 4,
                    items_at(at, fmt) as int,
                ));
            }
        }
        assert(fifo_stored_len(m) == Some(len as nat));
        if len as usize > CAPACITY {
            proof {
                assert forall|x: Self| #[trigger] encoded_at(x, m) implies false by {
                    lemma_fifo_layout(x, m);
                }
            }
            return Err(ReadError::InvalidEnum);
        }
        let buffer_field = array_as_slice(&BUFFER_FIELD);
        assert(buffer_field@ == buffer_name());
        let ghost before_bf = save.model();
        proof {
            assert forall|x: Self| #[trigger] encoded_at(x, m) && m.persistent implies before_bf.start_field_result(
                buffer_name(),
            ) == Ok::<ReadModel, ReadError>(fifo_stage(m, end_of(x), at + 8, 0)) by {
                lemma_fifo_layout(x, m);
                assert(before_bf == fifo_stage(m, end_of(x), at + 8, 1));
                lemma_fifo_lookups(m, end_of(x));
            }
        }
        match save.start_field(buffer_field) {
            Ok(()) => {},
            Err(e) => {
                proof {
                    assert forall|x: Self| #[trigger] encoded_at(x, m) implies false by {
                        lemma_fifo_layout(x, m);
                    }
                }
                return Err(e);
            },
        }
        let ghost before_items = save.model();
        proof {
            assert forall|x: Self| #[trigger] encoded_at(x, m) implies save.model() == if m.persistent {
                fifo_stage(m, end_of(x), at + 8, 0)
            } else {
                m.at_pos(at + 4)
            } by {
                lemma_fifo_layout(x, m);
            }
            assert forall|x: Self| #[trigger] encoded_at(x, m) implies seq_encoded_at(x@, before_items)
                && x@.len() == len as usize by {
                lemma_fifo_layout(x, m);
                assert(read_format(before_items) == fmt);
            }
        }
        let items = match load_vec::<S, T>(save, len as usize) {
            Ok(v) => v,
            Err(e) => {
                proof {
                    assert forall|x: Self| #[trigger] encoded_at(x, m) implies false by {
                        assert(seq_encoded_at(x@, before_items));
                    }
                }
                return Err(e);
            },
        };
        proof {
            assert forall|x: Self| #[trigger] encoded_at(x, m) implies seq_encoding(
                items@,
                items_at(at, fmt),
                fmt,
            ) == seq_encoding(x@, items_at(at, fmt), fmt) && items@.len() == x@.len() && save.model()
                == if m.persistent {
                fifo_stage(m, end_of(x), at + 8 + items_len(x), 0)
            } else {
                m.at_pos(at + 4 + items_len(x))
            } by {
                assert(seq_encoded_at(x@, before_items));
                lemma_fifo_layout(x, m);
            }
        }
        let ghost before_end = save.model();
        match save.end_struct() {
            Ok(()) => {},
            Err(e) => {
                proof {
                    assert forall|x: Self| #[trigger] encoded_at(x, m) implies false by {
                        lemma_fifo_layout(x, m);
                    }
                }
                return Err(e);
            },
        }
        let r = Self::from_items(items);
        proof {
            assert forall|x: Self| #[trigger] encoded_at(x, m) implies r.encoding(at, fmt) == x.encoding(
                at,
                fmt,
            ) && save.model() == m.at_pos(at + x.encoding(at, fmt).len()) by {
                lemma_fifo_layout(x, m);
                if m.persistent {
                    assert(before_end == fifo_stage(m, end_of(x), at + 8 + items_len(x), 0));
                    assert(before_end.frames.drop_last() =~= m.frames);
                }
            }
        }
        Ok(r)
    }
}

/// The length that a buffer stored at the reader's cursor declares, where the reader gets as
/// far as reading it.
pub open spec fn fifo_stored_len(m: ReadModel) -> Option<nat> {
    match m.start_struct_result() {
        Err(_) => None,
        Ok(m1) => match m1.start_field_result(len_name()) {
            Err(_) => None,
            Ok(m2) => if m2.can_take(4) {
                Some(ordered_value(m2.ahead(4), m2.little))
            } else {
                None
            },
        },
    }
}

/// A loaded buffer starts at slot 0, and a declared length over the capacity is refused with
/// `InvalidEnum`, as an out-of-range discriminant is.
pub open spec fn loaded_fifo<T: Copy, const CAPACITY: usize>(
    r: Result<Fifo<T, CAPACITY>, ReadError>,
    m: ReadModel,
) -> bool {
    &&& (r matches Ok(f) ==> f.spec_read_pos() == 0)
    &&& match fifo_stored_len(m) {
        Some(n) => n > CAPACITY ==> r == Err::<Fifo<T, CAPACITY>, ReadError>(ReadError::InvalidEnum),
        None => true,
    }
}

impl<T: Copy + Loadable, const CAPACITY: usize> Loadable for Fifo<T, CAPACITY> {
    fn load<S: ReadSavestate>(save: &mut S) -> (r: Result<Self, ReadError>)
        ensures
            loaded_fifo(r, old(save).model()),
    {
        Self::load_from(save)
    }
}

impl<T: Copy + Loadable, const CAPACITY: usize> LoadableInPlace for Fifo<T, CAPACITY> {
    fn load_in_place<S: ReadSavestate>(&mut self, save: &mut S) -> (r: Result<(), ReadError>)
        ensures
            r is Ok ==> final(self).spec_read_pos() == 0,
            match fifo_stored_len(old(save).model()) {
                Some(n) => n > CAPACITY ==> r == Err::<(), ReadError>(ReadError::InvalidEnum),
                None => true,
            },
    {
        match Self::load_from(save) {
            Ok(v) => {
                *self = v;
                Ok(())
            },
            Err(e) => Err(e),
        }
    }
}

} // verus!
