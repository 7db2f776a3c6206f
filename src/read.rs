//! The reading side of both channels. The persistent reader checks every read against the end of
//! the buffer and finds each field by name through the directory that follows its struct.
use crate::raw::{le_value, lemma_pow256_facts, lemma_le_value_bound, ordered_value};
use crate::value::{native_is_little, read_value, MemValue};
use vstd::prelude::*;
use vstd::slice::slice_subrange;

verus! {

#[derive(Clone, Copy, Debug, PartialEq, Eq, Structural)]
pub enum ReadError {
    FieldNotFound,
    UnexpectedEof,
    NoStructPresent,
    InvalidEnum,
}

/// The index of the first zero byte at or after `at`, if there is one.
pub open spec fn zero_from(data: Seq<u8>, at: nat) -> Option<nat>
    decreases data.len() - at,
{
    if at >= data.len() {
        None
    } else if data[at as int] == 0 {
        Some(at)
    } else {
        zero_from(data, at + 1)
    }
}

pub proof fn lemma_zero_from(data: Seq<u8>, at: nat)
    ensures
        match zero_from(data, at) {
            Some(z) => at <= z < data.len() && data[z as int] == 0 && forall|k: int|
                at <= k < z ==> data[k] != 0,
            None => forall|k: int| at <= k < data.len() ==> data[k] != 0,
        },
    decreases data.len() - at,
{
    if at < data.len() && data[at as int] != 0 {
        lemma_zero_from(data, at + 1);
    }
}

/// Parses `count` directory entries from `at`: the (name, offset) pairs in order, and the offset
/// just past the last one; `None` where an entry runs past the end of `data`.
pub open spec fn parse_entries(data: Seq<u8>, at: nat, count: nat) -> Option<
    (Seq<(Seq<u8>, nat)>, nat),
>
    decreases count,
{
    if count == 0 {
        Some((Seq::empty(), at))
    } else {
        match zero_from(data, at) {
            None => None,
            Some(z) => if z + 5 > data.len() {
                None
            } else {
                match parse_entries(data, z + 5, (count - 1) as nat) {
                    None => None,
                    Some(rest) => Some(
                        (
                            seq![
                                (
                                    data.subrange(at as int, z as int),
                                    le_value(data.subrange(z + 1 as int, z + 5 as int)),
                                ),
                            ] + rest.0,
                            rest.1,
                        ),
                    ),
                }
            },
        }
    }
}

/// `prefix` put before the entries of a parse result.
pub open spec fn prepend_entries(
    prefix: Seq<(Seq<u8>, nat)>,
    parsed: Option<(Seq<(Seq<u8>, nat)>, nat)>,
) -> Option<(Seq<(Seq<u8>, nat)>, nat)> {
    match parsed {
        None => None,
        Some(p) => Some((prefix + p.0, p.1)),
    }
}

/// The index of the entry named `name` met first when scanning `fields` cyclically from `cur`,
/// having looked at `k` entries already.
pub open spec fn search_from(fields: Seq<(Seq<u8>, nat)>, name: Seq<u8>, cur: nat, k: nat) -> Option<
    nat,
>
    decreases fields.len() - k,
{
    if k >= fields.len() {
        None
    } else if fields[((cur + k) % fields.len()) as int].0 == name {
        Some(((cur + k) % fields.len()) as nat)
    } else {
        search_from(fields, name, cur, k + 1)
    }
}

/// The entry named `name` that a lookup from the remembered index `cur` finds.
pub open spec fn find_field(fields: Seq<(Seq<u8>, nat)>, name: Seq<u8>, cur: nat) -> Option<nat> {
    search_from(fields, name, cur, 0)
}

/// A struct open on a persistent reader: its directory, the offset just past the directory, and
/// the index where the next lookup starts.
pub struct ReadFrame {
    pub fields: Seq<(Seq<u8>, nat)>,
    pub end: nat,
    pub cur: nat,
}

/// What a reader holds: its byte order, whether it reads structure, the bytes, the cursor and
/// the open structs, innermost last.
pub struct ReadModel {
    pub persistent: bool,
    pub little: bool,
    pub data: Seq<u8>,
    pub pos: nat,
    pub frames: Seq<ReadFrame>,
}

impl ReadModel {
    pub open spec fn at_pos(self, pos: nat) -> ReadModel {
        ReadModel {
            persistent: self.persistent,
            little: self.little,
            data: self.data,
            pos,
            frames: self.frames,
        }
    }

    /// Whether `size` bytes can be read at the cursor.
    pub open spec fn can_take(self, size: nat) -> bool {
        self.pos + size <= self.data.len()
    }

    /// The `size` bytes at the cursor.
    pub open spec fn ahead(self, size: nat) -> Seq<u8> {
        self.data.subrange(self.pos as int, self.pos + size as int)
    }

    pub open spec fn take_result(self, size: nat) -> Result<ReadModel, ReadError> {
        if self.can_take(size) {
            Ok(self.at_pos(self.pos + size))
        } else {
            Err(ReadError::UnexpectedEof)
        }
    }

    pub open spec fn start_struct_result(self) -> Result<ReadModel, ReadError> {
        if !self.persistent {
            Ok(self)
        } else if !self.can_take(4) {
            Err(ReadError::UnexpectedEof)
        } else {
            let dir = le_value(self.ahead(4));
            if dir >= self.data.len() {
                Err(ReadError::UnexpectedEof)
            } else {
                match parse_entries(self.data, dir + 1, self.data[dir as int] as nat) {
                    None => Err(ReadError::UnexpectedEof),
                    Some(p) => Ok(
                        ReadModel {
                            persistent: self.persistent,
                            little: self.little,
                            data: self.data,
                            pos: self.pos + 4,
                            frames: self.frames.push(ReadFrame { fields: p.0, end: p.1, cur: 0 }),
                        },
                    ),
                }
            }
        }
    }

    pub open spec fn start_field_result(self, name: Seq<u8>) -> Result<ReadModel, ReadError> {
        if !self.persistent {
            Ok(self)
        } else if self.frames.len() == 0 {
            Err(ReadError::NoStructPresent)
        } else {
            let top = self.frames.last();
            match find_field(top.fields, name, top.cur) {
                None => Err(ReadError::FieldNotFound),
                Some(j) => Ok(
                    ReadModel {
                        persistent: self.persistent,
                        little: self.little,
                        data: self.data,
                        pos: top.fields[j as int].1,
                        frames: self.frames.update(
                            self.frames.len() - 1,
                            ReadFrame {
                                fields: top.fields,
                                end: top.end,
                                cur: ((j + 1) % top.fields.len()) as nat,
                            },
                        ),
                    },
                ),
            }
        }
    }

    pub open spec fn end_struct_result(self) -> Result<ReadModel, ReadError> {
        if !self.persistent {
            Ok(self)
        } else if self.frames.len() == 0 {
            Err(ReadError::NoStructPresent)
        } else {
            Ok(
                ReadModel {
                    persistent: self.persistent,
                    little: self.little,
                    data: self.data,
                    pos: self.frames.last().end,
                    frames: self.frames.drop_last(),
                },
            )
        }
    }
}

/// Two reader states over the same bytes, in the same format.
pub open spec fn same_stream(a: ReadModel, b: ReadModel) -> bool {
    &&& a.data == b.data
    &&& a.persistent == b.persistent
    &&& a.little == b.little
}

/// `r` is what `expected` says, and on success the reader is in the state it gives.
pub open spec fn read_outcome(
    r: Result<(), ReadError>,
    expected: Result<ReadModel, ReadError>,
    after: ReadModel,
) -> bool {
    match expected {
        Ok(m) => r == Ok::<(), ReadError>(()) && after == m,
        Err(e) => r == Err::<(), ReadError>(e),
    }
}

/// A channel that values are loaded from.
pub trait ReadSavestate: Sized {
    spec fn model(&self) -> ReadModel;

    spec fn wf(&self) -> bool;

    /// Whether this channel is the transient one, which reads no structure.
    fn is_transient(&self) -> (r: bool)
        ensures
            r == !self.model().persistent,
    ;

    /// A persistent reader's buffer fits 4-byte offsets, and is little-endian.
    proof fn lemma_format(&self)
        requires
            self.wf(),
        ensures
            self.model().persistent ==> self.model().data.len() <= u32::MAX && self.model().little,
    ;

    fn load_raw<T: MemValue>(&mut self) -> (r: Result<T, ReadError>)
        requires
            old(self).wf(),
        ensures
            final(self).wf(),
            same_stream(old(self).model(), final(self).model()),
            match old(self).model().take_result(T::size()) {
                Ok(m) => match r {
                    Ok(v) => v.bits() == ordered_value(
                        old(self).model().ahead(T::size()),
                        old(self).model().little,
                    ) && final(self).model() == m,
                    Err(_) => false,
                },
                Err(e) => r == Err::<T, ReadError>(e),
            },
            r is Err ==> final(self).model() == old(self).model(),
    ;

    /// Reads an opaque region of `len` bytes verbatim.
    fn load_bytes(&mut self, len: usize) -> (r: Result<Vec<u8>, ReadError>)
        requires
            old(self).wf(),
        ensures
            final(self).wf(),
            same_stream(old(self).model(), final(self).model()),
            match old(self).model().take_result(len as nat) {
                Ok(m) => match r {
                    Ok(v) => v@ == old(self).model().ahead(len as nat) && final(self).model() == m,
                    Err(_) => false,
                },
                Err(e) => r is Err && r->Err_0 == e,
            },
            r is Err ==> final(self).model() == old(self).model(),
    ;

    fn start_struct(&mut self) -> (r: Result<(), ReadError>)
        requires
            old(self).wf(),
        ensures
            final(self).wf(),
            same_stream(old(self).model(), final(self).model()),
            read_outcome(r, old(self).model().start_struct_result(), final(self).model()),
            r is Err ==> final(self).model() == old(self).model(),
    ;

    fn end_struct(&mut self) -> (r: Result<(), ReadError>)
        requires
            old(self).wf(),
        ensures
            final(self).wf(),
            same_stream(old(self).model(), final(self).model()),
            read_outcome(r, old(self).model().end_struct_result(), final(self).model()),
            r is Err ==> final(self).model() == old(self).model(),
    ;

    fn start_field(&mut self, ident: &[u8]) -> (r: Result<(), ReadError>)
        requires
            old(self).wf(),
        ensures
            final(self).wf(),
            same_stream(old(self).model(), final(self).model()),
            read_outcome(r, old(self).model().start_field_result(ident@), final(self).model()),
            // A failed lookup leaves the reader as it was: for a missing field the caller can
            // supply a default and go on.
            r is Err ==> final(self).model() == old(self).model(),
    ;
}

/// The index of the first zero byte of `s` at or after `at`.
fn find_zero(s: &[u8], at: usize) -> (r: Option<usize>)
    ensures
        match zero_from(s@, at as nat) {
            None => r is None,
            Some(z) => r == Some(z as usize),
        },
{
    let len = s.len();
    let mut j: usize = at;
    while j < len
        invariant
            len == s@.len(),
            at <= j,
            zero_from(s@, at as nat) == zero_from(s@, j as nat),
        decreases len - j,
    {
        if s[j] == 0 {
            return Some(j);
        }
        j = j + 1;
    }
    None
}

/// Whether two byte strings are equal.
fn bytes_eq(a: &[u8], b: &[u8]) -> (r: bool)
    ensures
        r == (a@ == b@),
{
    let len = a.len();
    if len != b.len() {
        return false;
    }
    let mut i: usize = 0;
    while i < len
        invariant
            len == a@.len(),
            len == b@.len(),
            i <= len,
            forall|k: int| 0 <= k < i ==> a@[k] == b@[k],
        decreases len - i,
    {
        if a[i] != b[i] {
            return false;
        }
        i = i + 1;
    }
    assert(a@ =~= b@);
    true
}

/// Fast, unchecked in-memory savestates (rewinding): native byte order, no structure. Reads
/// past the end still fail with `UnexpectedEof` rather than touching memory outside the buffer.
pub struct TransientReadSavestate<'a> {
    save: &'a [u8],
    pos: usize,
    little: bool,
}

impl<'a> TransientReadSavestate<'a> {
    /// A reader at the start of `save`.
    pub fn new(save: &'a [u8]) -> (r: Self)
        ensures
            r.wf(),
            !r.model().persistent,
            r.model().data == save@,
            r.model().pos == 0,
            r.model().frames.len() == 0,
    {
        TransientReadSavestate { save, pos: 0, little: native_is_little() }
    }
}

impl<'a> ReadSavestate for TransientReadSavestate<'a> {
    closed spec fn model(&self) -> ReadModel {
        ReadModel {
            persistent: false,
            little: self.little,
            data: self.save@,
            pos: self.pos as nat,
            frames: Seq::empty(),
        }
    }

    closed spec fn wf(&self) -> bool {
        self.pos <= self.save@.len()
    }

    fn is_transient(&self) -> (r: bool) {
        true
    }

    proof fn lemma_format(&self) {
    }

    fn load_raw<T: MemValue>(&mut self) -> (r: Result<T, ReadError>) {
        let n = T::byte_size();
        if n > self.save.len() - self.pos {
            return Err(ReadError::UnexpectedEof);
        }
        let v = read_value::<T>(self.save, self.pos, self.little);
        self.pos = self.pos + n;
        Ok(v)
    }

    fn load_bytes(&mut self, len: usize) -> (r: Result<Vec<u8>, ReadError>) {
        if len > self.save.len() - self.pos {
            return Err(ReadError::UnexpectedEof);
        }
        let region = slice_subrange(self.save, self.pos, self.pos + len);
        let mut out: Vec<u8> = Vec::new();
        crate::value::push_all(&mut out, region);
        self.pos = self.pos + len;
        Ok(out)
    }

    fn start_struct(&mut self) -> (r: Result<(), ReadError>) {
        Ok(())
    }

    fn end_struct(&mut self) -> (r: Result<(), ReadError>) {
        Ok(())
    }

    fn start_field(&mut self, ident: &[u8]) -> (r: Result<(), ReadError>) {
        Ok(())
    }
}

struct StructInfo<'a> {
    fields: Vec<(&'a [u8], u32)>,
    end: u32,
    // Where the next lookup starts: lookups in the writer's order then take one step each.
    cur_field: u8,
}

impl<'a> StructInfo<'a> {
    spec fn view(&self) -> ReadFrame {
        ReadFrame {
            fields: self.fields@.map_values(|e: (&'a [u8], u32)| (e.0@, e.1 as nat)),
            end: self.end as nat,
            cur: self.cur_field as nat,
        }
    }

    spec fn wf(&self) -> bool {
        &&& self.fields@.len() <= 255
        &&& (self.cur_field < self.fields@.len() || self.cur_field == 0)
    }
}

/// Checked savestates read from disk: every read is checked against the end of the buffer, and
/// fields are found by name, so that saves stay loadable after fields are added, removed or
/// reordered.
pub struct PersistentReadSavestate<'a> {
    save: &'a [u8],
    pos: u32,
    structs: Vec<StructInfo<'a>>,
}

impl<'a> PersistentReadSavestate<'a> {
    /// A reader at the start of `save`; fails on buffers whose offsets do not fit 4 bytes.
    pub fn new(save: &'a [u8]) -> (r: Result<Self, ()>)
        ensures
            match r {
                Ok(s) => save@.len() <= u32::MAX && s.wf() && s.model().persistent
                    && s.model().data == save@ && s.model().pos == 0 && s.model().frames.len()
                    == 0,
                Err(_) => save@.len() > u32::MAX,
            },
    {
        if save.len() > u32::MAX as usize {
            return Err(());
        }
        let r = PersistentReadSavestate { save, pos: 0, structs: Vec::new() };
        assert(r.model().frames =~= Seq::<ReadFrame>::empty());
        Ok(r)
    }
}

impl<'a> PersistentReadSavestate<'a> {
    /// This reader is persistent and little-endian, over a buffer whose offsets fit 4 bytes.
    pub proof fn lemma_persistent(&self)
        requires
            self.wf(),
        ensures
            self.model().persistent,
            self.model().little,
            self.model().data.len() <= u32::MAX,
    {
    }
}

impl<'a> ReadSavestate for PersistentReadSavestate<'a> {
    closed spec fn model(&self) -> ReadModel {
        ReadModel {
            persistent: true,
            little: true,
            data: self.save@,
            pos: self.pos as nat,
            frames: self.structs@.map_values(|s: StructInfo<'a>| s.view()),
        }
    }

    closed spec fn wf(&self) -> bool {
        &&& self.save@.len() <= u32::MAX
        &&& forall|i: int| 0 <= i < self.structs@.len() ==> #[trigger] self.structs@[i].wf()
    }

    fn is_transient(&self) -> (r: bool) {
        false
    }

    proof fn lemma_format(&self) {
    }

    fn load_raw<T: MemValue>(&mut self) -> (r: Result<T, ReadError>) {
        let n = T::byte_size();
        if self.pos as u64 + n as u64 > self.save.len() as u64 {
            return Err(ReadError::UnexpectedEof);
        }
        let v = read_value::<T>(self.save, self.pos as usize, true);
        self.pos = self.pos + n as u32;
        Ok(v)
    }

    fn load_bytes(&mut self, len: usize) -> (r: Result<Vec<u8>, ReadError>) {
        let start = self.pos as usize;
        if start > self.save.len() || len > self.save.len() - start {
            return Err(ReadError::UnexpectedEof);
        }
        let region = slice_subrange(self.save, start, start + len);
        let mut out: Vec<u8> = Vec::new();
        crate::value::push_all(&mut out, region);
        self.pos = self.pos + len as u32;
        Ok(out)
    }

    fn start_struct(&mut self) -> (r: Result<(), ReadError>) {
        let ghost m = self.model();
        let len = self.save.len();
        if self.pos as u64 + 4 > len as u64 {
            return Err(ReadError::UnexpectedEof);
        }
        let dir = read_value::<u32>(self.save, self.pos as usize, true) as usize;
        if dir >= len {
            return Err(ReadError::UnexpectedEof);
        }
        let count = self.save[dir];
        let mut at: usize = dir + 1;
        let mut fields: Vec<(&'a [u8], u32)> = Vec::new();
        let mut i: u8 = 0;
        while i < count
            invariant
                len == self.save@.len(),
                len <= u32::MAX,
                self.wf(),
                m == self.model(),
                m == old(self).model(),
                m.persistent,
                m.can_take(4),
                dir as nat == le_value(m.ahead(4)),
                dir < len,
                count == self.save@[dir as int],
                i <= count,
                fields@.len() == i,
                at <= len,
                parse_entries(m.data, (dir + 1) as nat, count as nat) == prepend_entries(
                    fields@.map_values(|e: (&'a [u8], u32)| (e.0@, e.1 as nat)),
                    parse_entries(m.data, at as nat, (count - i) as nat),
                ),
            decreases count - i,
        {
            let ghost prefix = fields@.map_values(|e: (&'a [u8], u32)| (e.0@, e.1 as nat));
            proof {
                lemma_zero_from(m.data, at as nat);
            }
            let z = match find_zero(self.save, at) {
                Some(z) => z,
                None => {
                    assert(parse_entries(m.data, at as nat, (count - i) as nat) is None);
                    return Err(ReadError::UnexpectedEof);
                },
            };
            if z >= len || len - z < 5 {
                assert(parse_entries(m.data, at as nat, (count - i) as nat) is None);
                return Err(ReadError::UnexpectedEof);
            }
            let name = slice_subrange(self.save, at, z);
            let offset = read_value::<u32>(self.save, z + 1, true);
            fields.push((name, offset));
            proof {
                let entry = (m.data.subrange(at as int, z as int), le_value(
                    m.data.subrange(z + 1 as int, z + 5 as int),
                ));
                assert(fields@.map_values(|e: (&'a [u8], u32)| (e.0@, e.1 as nat)) =~= prefix.push(
                    entry,
                ));
                let rest = parse_entries(m.data, (z + 5) as nat, (count - i - 1) as nat);
                assert(parse_entries(m.data, at as nat, (count - i) as nat) == prepend_entries(
                    seq![entry],
                    rest,
                ));
                match rest {
                    None => {},
                    Some(p) => {
                        assert(prefix + (seq![entry] + p.0) =~= prefix.push(entry) + p.0);
                    },
                }
            }
            at = z + 5;
            i = i + 1;
        }
        proof {
            let prefix = fields@.map_values(|e: (&'a [u8], u32)| (e.0@, e.1 as nat));
            assert(prefix + Seq::<(Seq<u8>, nat)>::empty() =~= prefix);
        }
        let ghost old_structs = self.structs@;
        self.structs.push(StructInfo { fields, end: at as u32, cur_field: 0 });
        self.pos = self.pos + 4;
        proof {
            assert(self.model().frames =~= m.frames.push(self.structs@.last().view()));
            assert forall|k: int| 0 <= k < self.structs@.len() implies #[trigger] self.structs@[k].wf() by {
                if k < old_structs.len() {
                    assert(self.structs@[k] == old_structs[k]);
                }
            }
        }
        Ok(())
    }

    fn end_struct(&mut self) -> (r: Result<(), ReadError>) {
        let ghost m = self.model();
        let ghost old_structs = self.structs@;
        match self.structs.pop() {
            Some(info) => {
                self.pos = info.end;
                proof {
                    assert(self.structs@ =~= old_structs.drop_last());
                    assert(self.model().frames =~= m.frames.drop_last());
                    assert forall|k: int| 0 <= k < self.structs@.len() implies #[trigger] self.structs@[k].wf() by {
                        assert(self.structs@[k] == old_structs[k]);
                    }
                }
                Ok(())
            },
            None => Err(ReadError::NoStructPresent),
        }
    }

    fn start_field(&mut self, ident: &[u8]) -> (r: Result<(), ReadError>) {
        let ghost m = self.model();
        let ghost old_structs = self.structs@;
        let mut info = match self.structs.pop() {
            Some(info) => info,
            None => return Err(ReadError::NoStructPresent),
        };
        proof {
            assert(old_structs[old_structs.len() - 1] == info);
            assert(info.wf());
            assert(info.view() == m.frames.last());
        }
        let ghost top = info.view();
        let len = info.fields.len();
        let start = info.cur_field as usize;
        let mut k: usize = 0;
        let mut found: Option<usize> = None;
        while k < len
            invariant_except_break
                found is None,
            invariant
                len == info.fields@.len(),
                len <= 255,
                start < len || (start == 0 && len == 0),
                k <= len,
                top == info.view(),
                start == top.cur,
                found is None ==> find_field(top.fields, ident@, start as nat) == search_from(
                    top.fields,
                    ident@,
                    start as nat,
                    k as nat,
                ),
            ensures
                match found {
                    None => find_field(top.fields, ident@, start as nat) is None,
                    Some(idx) => idx < len && find_field(top.fields, ident@, start as nat) == Some(
                        idx as nat,
                    ),
                },
            decreases len - k,
        {
            let idx = if start + k >= len {
                start + k - len
            } else {
                start + k
            };
            assert(idx == (start + k) % (len as int)) by (nonlinear_arith)
                requires
                    start < len,
                    k < len,
                    idx == if start + k >= len {
                        start + k - len
                    } else {
                        start + k
                    },
            ;
            if bytes_eq(info.fields[idx].0, ident) {
                assert(top.fields[idx as int].0 == ident@);
                found = Some(idx);
                break;
            }
            k = k + 1;
        }
        match found {
            None => {
                self.structs.push(info);
                proof {
                    assert(self.structs@ =~= old_structs);
                }
                Err(ReadError::FieldNotFound)
            },
            Some(idx) => {
                let next = if idx + 1 == len {
                    0
                } else {
                    idx + 1
                };
                self.pos = info.fields[idx].1;
                info.cur_field = next as u8;
                assert(next == (idx + 1) % (len as int)) by (nonlinear_arith)
                    requires
                        idx < len,
                        next == if idx + 1 == len {
                            0
                        } else {
                            idx + 1
                        },
                ;
                self.structs.push(info);
                proof {
                    assert(self.structs@ =~= old_structs.update(old_structs.len() - 1, info));
                    assert(self.model().frames =~= m.frames.update(
                        m.frames.len() - 1,
                        ReadFrame { fields: top.fields, end: top.end, cur: next as nat },
                    ));
                    assert forall|j: int| 0 <= j < self.structs@.len() implies #[trigger] self.structs@[j].wf() by {
                        if j < old_structs.len() - 1 {
                            assert(self.structs@[j] == old_structs[j]);
                        }
                    }
                }
                Ok(())
            },
        }
    }
}

} // verus!
