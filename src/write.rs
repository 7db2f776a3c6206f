//! The writing side of both channels: the transient one appends raw native-order bytes and
//! ignores structure; the persistent one writes little-endian bytes and a field directory after
//! each struct.
use crate::raw::{le_bytes, ordered_bytes};
use crate::value::{native_is_little, patch_u32_le, push_all, push_value, MemValue};
use vstd::prelude::*;

verus! {

#[derive(Clone, Copy, Debug, PartialEq, Eq, Structural)]
pub enum WriteError {
    NoStructPresent,
    TooManyFields,
    SaveTooLarge,
}

/// A field name that a directory can hold: non-empty, and free of the zero byte that ends it.
pub open spec fn valid_name(name: Seq<u8>) -> bool {
    name.len() > 0 && forall|i: int| 0 <= i < name.len() ==> name[i] != 0u8
}

/// One directory entry: the name, a zero terminator, then the field's offset (little-endian).
pub open spec fn entry_bytes(name: Seq<u8>, offset: nat) -> Seq<u8> {
    name + seq![0u8] + le_bytes(offset, 4)
}

/// The entries of a directory, in the order given.
pub open spec fn directory_bytes(fields: Seq<(Seq<u8>, nat)>) -> Seq<u8>
    decreases fields.len(),
{
    if fields.len() == 0 {
        Seq::empty()
    } else {
        entry_bytes(fields[0].0, fields[0].1) + directory_bytes(fields.drop_first())
    }
}

pub proof fn lemma_directory_bytes_push(fields: Seq<(Seq<u8>, nat)>, name: Seq<u8>, offset: nat)
    ensures
        directory_bytes(fields.push((name, offset))) == directory_bytes(fields) + entry_bytes(
            name,
            offset,
        ),
    decreases fields.len(),
{
    let pushed = fields.push((name, offset));
    if fields.len() == 0 {
        assert(pushed.drop_first() =~= Seq::<(Seq<u8>, nat)>::empty());
        assert(directory_bytes(pushed.drop_first()) =~= Seq::<u8>::empty());
        assert(directory_bytes(pushed) =~= entry_bytes(name, offset));
    } else {
        assert(pushed.drop_first() =~= fields.drop_first().push((name, offset)));
        lemma_directory_bytes_push(fields.drop_first(), name, offset);
        assert(directory_bytes(pushed) =~= directory_bytes(fields) + entry_bytes(name, offset));
    }
}

/// A struct open on a persistent writer: the offset of its 4-byte header, and the fields named
/// so far, each with the offset where its payload starts.
pub struct WriteFrame {
    pub start: nat,
    pub fields: Seq<(Seq<u8>, nat)>,
}

/// What a writer holds: its byte order, whether it writes structure, the bytes so far and the
/// open structs, innermost last.
pub struct WriteModel {
    pub persistent: bool,
    pub little: bool,
    pub bytes: Seq<u8>,
    pub frames: Seq<WriteFrame>,
}

/// The bytes once the innermost struct is closed: its header holds the directory's offset,
/// which is the current length, and the field count and the entries follow.
pub open spec fn closed_struct_bytes(bytes: Seq<u8>, frame: WriteFrame) -> Seq<u8> {
    bytes.subrange(0, frame.start as int) + le_bytes(bytes.len(), 4) + bytes.subrange(
        frame.start + 4 as int,
        bytes.len() as int,
    ) + seq![frame.fields.len() as u8] + directory_bytes(frame.fields)
}

impl WriteModel {
    pub open spec fn appended(self, b: Seq<u8>) -> WriteModel {
        WriteModel {
            persistent: self.persistent,
            little: self.little,
            bytes: self.bytes + b,
            frames: self.frames,
        }
    }

    /// Every offset so far fits the format's 4 bytes.
    pub open spec fn fits(self) -> bool {
        self.bytes.len() <= u32::MAX
    }

    pub open spec fn raw_result(self, bits: nat, size: nat) -> WriteModel {
        self.appended(ordered_bytes(bits, size, self.little))
    }

    pub open spec fn array_len_result(self, len: nat) -> Result<WriteModel, WriteError> {
        if len > u32::MAX {
            Err(WriteError::TooManyFields)
        } else {
            Ok(self.appended(ordered_bytes(len, 4, self.little)))
        }
    }

    pub open spec fn start_struct_result(self) -> Result<WriteModel, WriteError> {
        if !self.persistent {
            Ok(self)
        } else if !self.fits() {
            Err(WriteError::SaveTooLarge)
        } else {
            Ok(
                WriteModel {
                    persistent: self.persistent,
                    little: self.little,
                    bytes: self.bytes + seq![0u8, 0u8, 0u8, 0u8],
                    frames: self.frames.push(
                        WriteFrame { start: self.bytes.len(), fields: Seq::empty() },
                    ),
                },
            )
        }
    }

    pub open spec fn start_field_result(self, name: Seq<u8>) -> Result<WriteModel, WriteError> {
        if !self.persistent {
            Ok(self)
        } else if self.frames.len() == 0 {
            Err(WriteError::NoStructPresent)
        } else if !self.fits() {
            Err(WriteError::SaveTooLarge)
        } else {
            let top = self.frames.last();
            Ok(
                WriteModel {
                    persistent: self.persistent,
                    little: self.little,
                    bytes: self.bytes,
                    frames: self.frames.update(
                        self.frames.len() - 1,
                        WriteFrame {
                            start: top.start,
                            fields: top.fields.push((name, self.bytes.len())),
                        },
                    ),
                },
            )
        }
    }

    pub open spec fn end_struct_result(self) -> Result<WriteModel, WriteError> {
        if !self.persistent {
            Ok(self)
        } else if self.frames.len() == 0 {
            Err(WriteError::NoStructPresent)
        } else if !self.fits() {
            Err(WriteError::SaveTooLarge)
        } else if self.frames.last().fields.len() > 255 {
            Err(WriteError::TooManyFields)
        } else {
            Ok(
                WriteModel {
                    persistent: self.persistent,
                    little: self.little,
                    bytes: closed_struct_bytes(self.bytes, self.frames.last()),
                    frames: self.frames.drop_last(),
                },
            )
        }
    }
}

/// `r` is what `expected` says, and on success the writer is in the state it gives.
pub open spec fn write_outcome(
    r: Result<(), WriteError>,
    expected: Result<WriteModel, WriteError>,
    after: WriteModel,
) -> bool {
    match expected {
        Ok(m) => r == Ok::<(), WriteError>(()) && after == m,
        Err(e) => r == Err::<(), WriteError>(e),
    }
}

/// A channel that values are stored into.
pub trait WriteSavestate: Sized {
    spec fn model(&self) -> WriteModel;

    spec fn wf(&self) -> bool;

    /// Whether this channel is the transient one, which writes no structure.
    fn is_transient(&self) -> (r: bool)
        ensures
            r == !self.model().persistent,
    ;

    /// A persistent writer is little-endian.
    proof fn lemma_format(&self)
        ensures
            self.model().persistent ==> self.model().little,
    ;

    fn store_raw<T: MemValue>(&mut self, value: T)
        requires
            old(self).wf(),
        ensures
            final(self).wf(),
            final(self).model() == old(self).model().raw_result(value.bits(), T::size()),
    ;

    /// Appends an opaque region verbatim.
    fn store_bytes(&mut self, bytes: &[u8])
        requires
            old(self).wf(),
        ensures
            final(self).wf(),
            final(self).model() == old(self).model().appended(bytes@),
    ;

    fn store_array_len(&mut self, len: usize) -> (r: Result<(), WriteError>)
        requires
            old(self).wf(),
        ensures
            final(self).wf(),
            write_outcome(r, old(self).model().array_len_result(len as nat), final(self).model()),
            r is Err ==> final(self).model() == old(self).model(),
    ;

    fn start_struct(&mut self) -> (r: Result<(), WriteError>)
        requires
            old(self).wf(),
        ensures
            final(self).wf(),
            write_outcome(r, old(self).model().start_struct_result(), final(self).model()),
            r is Err ==> final(self).model() == old(self).model(),
    ;

    fn end_struct(&mut self) -> (r: Result<(), WriteError>)
        requires
            old(self).wf(),
        ensures
            final(self).wf(),
            write_outcome(r, old(self).model().end_struct_result(), final(self).model()),
            r is Err ==> final(self).model() == old(self).model(),
    ;

    fn start_field(&mut self, ident: &'static [u8]) -> (r: Result<(), WriteError>)
        requires
            old(self).wf(),
            valid_name(ident@),
        ensures
            final(self).wf(),
            write_outcome(r, old(self).model().start_field_result(ident@), final(self).model()),
            r is Err ==> final(self).model() == old(self).model(),
    ;
}

/// Fast, unchecked in-memory savestates (rewinding): native byte order, no structure.
pub struct TransientWriteSavestate {
    save: Vec<u8>,
    little: bool,
}

impl TransientWriteSavestate {
    /// A writer that appends to `save`.
    pub fn new(save: Vec<u8>) -> (r: Self)
        ensures
            r.wf(),
            !r.model().persistent,
            r.model().bytes == save@,
            r.model().frames.len() == 0,
    {
        TransientWriteSavestate { save, little: native_is_little() }
    }

    /// The bytes written, the initial contents included.
    pub fn into_inner(self) -> (r: Vec<u8>)
        ensures
            r@ == self.model().bytes,
    {
        self.save
    }
}

impl WriteSavestate for TransientWriteSavestate {
    closed spec fn model(&self) -> WriteModel {
        WriteModel { persistent: false, little: self.little, bytes: self.save@, frames: Seq::empty() }
    }

    closed spec fn wf(&self) -> bool {
        true
    }

    fn is_transient(&self) -> (r: bool) {
        true
    }

    proof fn lemma_format(&self) {
    }

    fn store_raw<T: MemValue>(&mut self, value: T) {
        push_value(&mut self.save, value, self.little);
    }

    fn store_bytes(&mut self, bytes: &[u8]) {
        push_all(&mut self.save, bytes);
    }

    fn store_array_len(&mut self, len: usize) -> (r: Result<(), WriteError>) {
        if len > u32::MAX as usize {
            return Err(WriteError::TooManyFields);
        }
        push_value(&mut self.save, len as u32, self.little);
        Ok(())
    }

    fn start_struct(&mut self) -> (r: Result<(), WriteError>) {
        Ok(())
    }

    fn end_struct(&mut self) -> (r: Result<(), WriteError>) {
        Ok(())
    }

    fn start_field(&mut self, ident: &'static [u8]) -> (r: Result<(), WriteError>) {
        Ok(())
    }
}

struct StructInfo {
    start_pos: u32,
    fields: Vec<(&'static [u8], u32)>,
}

impl StructInfo {
    spec fn view(&self) -> WriteFrame {
        WriteFrame {
            start: self.start_pos as nat,
            fields: self.fields@.map_values(|e: (&'static [u8], u32)| (e.0@, e.1 as nat)),
        }
    }
}

/// Checked savestates for disk: little-endian, with a directory of field names after each
/// struct, so that fields can be added, removed and reordered between versions.
pub struct PersistentWriteSavestate {
    save: Vec<u8>,
    structs: Vec<StructInfo>,
}

impl PersistentWriteSavestate {
    /// A writer that appends to `save`, with no struct open.
    pub fn new(save: Vec<u8>) -> (r: Self)
        ensures
            r.wf(),
            r.model().persistent,
            r.model().little,
            r.model().bytes == save@,
            r.model().frames.len() == 0,
    {
        let r = PersistentWriteSavestate { save, structs: Vec::new() };
        assert(r.model().frames =~= Seq::<WriteFrame>::empty());
        r
    }

    /// The bytes written, the initial contents included.
    pub fn into_inner(self) -> (r: Vec<u8>)
        ensures
            r@ == self.model().bytes,
    {
        self.save
    }

    /// This writer is persistent and little-endian.
    pub proof fn lemma_persistent(&self)
        ensures
            self.model().persistent,
            self.model().little,
    {
    }
}

impl WriteSavestate for PersistentWriteSavestate {
    closed spec fn model(&self) -> WriteModel {
        WriteModel {
            persistent: true,
            little: true,
            bytes: self.save@,
            frames: self.structs@.map_values(|s: StructInfo| s.view()),
        }
    }

    closed spec fn wf(&self) -> bool {
        forall|i: int|
            0 <= i < self.structs@.len() ==> #[trigger] self.structs@[i].start_pos + 4
                <= self.save@.len()
    }

    fn is_transient(&self) -> (r: bool) {
        false
    }

    proof fn lemma_format(&self) {
    }

    fn store_raw<T: MemValue>(&mut self, value: T) {
        push_value(&mut self.save, value, true);
    }

    fn store_bytes(&mut self, bytes: &[u8]) {
        push_all(&mut self.save, bytes);
    }

    fn store_array_len(&mut self, len: usize) -> (r: Result<(), WriteError>) {
        if len > u32::MAX as usize {
            return Err(WriteError::TooManyFields);
        }
        push_value(&mut self.save, len as u32, true);
        Ok(())
    }

    fn start_struct(&mut self) -> (r: Result<(), WriteError>) {
        if self.save.len() > u32::MAX as usize {
            return Err(WriteError::SaveTooLarge);
        }
        let start_pos = self.save.len() as u32;
        let ghost before = self.model();
        push_all(&mut self.save, &[0u8, 0u8, 0u8, 0u8]);
        self.structs.push(StructInfo { start_pos, fields: Vec::new() });
        proof {
            assert(self.structs@.last().view().fields =~= Seq::<(Seq<u8>, nat)>::empty());
            assert(self.model().frames =~= before.frames.push(
                WriteFrame { start: before.bytes.len(), fields: Seq::empty() },
            ));
            assert(self.model().bytes =~= before.bytes + seq![0u8, 0u8, 0u8, 0u8]);
        }
        Ok(())
    }

    fn end_struct(&mut self) -> (r: Result<(), WriteError>) {
        let ghost before = self.model();
        let ghost old_structs = self.structs@;
        let n_structs = self.structs.len();
        if n_structs == 0 {
            return Err(WriteError::NoStructPresent);
        }
        if self.save.len() > u32::MAX as usize {
            return Err(WriteError::SaveTooLarge);
        }
        if self.structs[n_structs - 1].fields.len() > 255 {
            assert(self.structs@[n_structs - 1].view() == before.frames.last());
            return Err(WriteError::TooManyFields);
        }
        let cur = match self.structs.pop() {
            Some(c) => c,
            None => return Err(WriteError::NoStructPresent),
        };
        assert(old_structs.drop_last() =~= self.structs@);
        assert(before.frames.drop_last() =~= self.model().frames);
        let field_info_pos = self.save.len() as u32;
        let n = cur.fields.len();
        let ghost frame = cur.view();
        assert(frame == before.frames.last());
        assert(cur.start_pos + 4 <= self.save@.len()) by {
            assert(old_structs[old_structs.len() - 1] == cur);
        }
        patch_u32_le(&mut self.save, cur.start_pos as usize, field_info_pos);
        self.save.push(n as u8);
        let ghost base = self.save@;
        assert(base =~= before.bytes.subrange(0, frame.start as int) + le_bytes(
            before.bytes.len(),
            4,
        ) + before.bytes.subrange(frame.start + 4 as int, before.bytes.len() as int) + seq![
            frame.fields.len() as u8,
        ]);
        proof {
            crate::raw::lemma_le_bytes_len(before.bytes.len(), 4);
        }
        let mut i: usize = 0;
        while i < n
            invariant
                i <= n,
                n == cur.fields@.len(),
                frame == cur.view(),
                self.save@ == base + directory_bytes(frame.fields.take(i as int)),
                self.structs@ == old_structs.drop_last(),
                old_structs.len() >= 1,
                old_structs == old(self).structs@,
                before == old(self).model(),
                self.save@.len() >= before.bytes.len(),
            decreases n - i,
        {
            let (ident, pos) = cur.fields[i];
            let ghost prev = self.save@;
            push_all(&mut self.save, ident);
            self.save.push(0u8);
            push_value(&mut self.save, pos, true);
            proof {
                assert(frame.fields[i as int] == (ident@, pos as nat));
                assert(frame.fields.take(i + 1) =~= frame.fields.take(i as int).push(
                    (ident@, pos as nat),
                ));
                lemma_directory_bytes_push(frame.fields.take(i as int), ident@, pos as nat);
                assert(self.save@ =~= prev + entry_bytes(ident@, pos as nat));
            }
            i = i + 1;
        }
        assert(frame.fields.take(n as int) =~= frame.fields);
        proof {
            assert forall|k: int| 0 <= k < self.structs@.len() implies #[trigger] self.structs@[k].start_pos
                + 4 <= self.save@.len() by {
                assert(self.structs@[k] == old_structs[k]);
                assert(old(self).structs@[k].start_pos + 4 <= old(self).save@.len());
            }
        }
        Ok(())
    }

    fn start_field(&mut self, ident: &'static [u8]) -> (r: Result<(), WriteError>) {
        let ghost before = self.model();
        let ghost old_structs = self.structs@;
        if self.structs.len() == 0 {
            return Err(WriteError::NoStructPresent);
        }
        if self.save.len() > u32::MAX as usize {
            return Err(WriteError::SaveTooLarge);
        }
        let mut cur = match self.structs.pop() {
            Some(c) => c,
            None => return Err(WriteError::NoStructPresent),
        };
        let pos = self.save.len() as u32;
        let ghost top = cur.view();
        cur.fields.push((ident, pos));
        self.structs.push(cur);
        proof {
            assert(cur.view().fields =~= top.fields.push((ident@, pos as nat)));
            assert(self.structs@ =~= old_structs.update(old_structs.len() - 1, cur));
            assert(self.model().frames =~= before.frames.update(
                before.frames.len() - 1,
                WriteFrame { start: top.start, fields: top.fields.push((ident@, before.bytes.len())) },
            ));
        }
        Ok(())
    }
}

} // verus!
