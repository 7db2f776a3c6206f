//! Properties that relate the writer and the reader of the persistent format.
use crate::raw::{le_bytes, le_value, lemma_le_bytes_len, lemma_le_round_trip, pow256};
use crate::codec::{
    decodable, discriminant_width, encoded_at, int_encoding, is_prefix, lemma_prefixes,
    lemma_seq_decodable, loaded, read_format, seq_encoding, write_format, Format, Storable,
};
use crate::value::{lemma_value_round_trip, MemValue};
use crate::read::{find_field, parse_entries, search_from, zero_from, ReadError, ReadModel};
use crate::write::{directory_bytes, entry_bytes, valid_name, WriteError, WriteModel};
use vstd::prelude::*;

verus! {

/// A name followed by its terminator ends at the terminator.
proof fn lemma_zero_after_name(data: Seq<u8>, start: nat, name: Seq<u8>, k: nat)
    requires
        valid_name(name),
        k <= name.len(),
        start + name.len() < data.len(),
        data.subrange(start as int, start + name.len() as int) == name,
        data[start + name.len() as int] == 0,
    ensures
        zero_from(data, start + k) == Some(start + name.len()),
    decreases name.len() - k,
{
    if k < name.len() {
        assert(data[start + k as int] == name[k as int]);
        lemma_zero_after_name(data, start, name, k + 1);
    }
}

/// The directory entries that the writer puts after a struct are read back as written: every
/// name and offset, in the writer's order, ending where the entries end.
pub proof fn lemma_directory_round_trip(data: Seq<u8>, start: nat, fields: Seq<(Seq<u8>, nat)>)
    requires
        forall|i: int| 0 <= i < fields.len() ==> valid_name(#[trigger] fields[i].0),
        forall|i: int| 0 <= i < fields.len() ==> #[trigger] fields[i].1 < pow256(4),
        start + directory_bytes(fields).len() <= data.len(),
        data.subrange(start as int, start + directory_bytes(fields).len() as int) == directory_bytes(
            fields,
        ),
    ensures
        parse_entries(data, start, fields.len()) == Some((fields, start + directory_bytes(fields).len())),
    decreases fields.len(),
{
    if fields.len() == 0 {
        assert(fields =~= Seq::<(Seq<u8>, nat)>::empty());
    } else {
        let name = fields[0].0;
        let off = fields[0].1;
        let entry = entry_bytes(name, off);
        let rest = fields.drop_first();
        let dir = directory_bytes(fields);
        assert(valid_name(name));
        lemma_le_bytes_len(off, 4);
        assert(dir == entry + directory_bytes(rest));
        let whole = data.subrange(start as int, start + dir.len() as int);
        let z = start + name.len();
        assert(data.subrange(start as int, z as int) =~= whole.subrange(0, name.len() as int));
        assert(whole.subrange(0, name.len() as int) =~= name);
        assert(data[z as int] == whole[name.len() as int]);
        lemma_zero_after_name(data, start, name, 0);
        assert(data.subrange(z + 1 as int, z + 5 as int) =~= le_bytes(off, 4)) by {
            assert(data.subrange(z + 1 as int, z + 5 as int) =~= whole.subrange(
                name.len() + 1 as int,
                name.len() + 5 as int,
            ));
        }
        lemma_le_round_trip(off, 4);
        assert forall|i: int| 0 <= i < rest.len() implies valid_name(#[trigger] rest[i].0) by {
            assert(rest[i] == fields[i + 1]);
        }
        assert forall|i: int| 0 <= i < rest.len() implies #[trigger] rest[i].1 < pow256(4) by {
            assert(rest[i] == fields[i + 1]);
        }
        let next = (z + 5) as nat;
        assert(whole == dir);
        assert(entry.len() == name.len() + 5);
        assert(dir.subrange(entry.len() as int, dir.len() as int) =~= directory_bytes(rest));
        assert(data.subrange(next as int, next + directory_bytes(rest).len() as int) =~= whole.subrange(
            entry.len() as int,
            dir.len() as int,
        ));
        lemma_directory_round_trip(data, next, rest);
        assert(seq![(name, off)] + rest =~= fields);
    }
}

/// What a writer appends for a value is what a reader over those bytes, at the same offset and in
/// the same format, finds there; so by `Loadable::load`'s contract, loading right after storing
/// gives back a value with the same encoding.
pub proof fn law_store_then_load<T: Storable>(v: T, before: WriteModel, after: WriteModel, reader: ReadModel)
    requires
        v.storable(),
        after == before.appended(v.encoding(before.bytes.len(), write_format(before))),
        reader.data == after.bytes,
        reader.pos == before.bytes.len(),
        read_format(reader) == write_format(before),
    ensures
        encoded_at(v, reader),
{
    let enc = v.encoding(before.bytes.len(), write_format(before));
    assert(reader.data.subrange(reader.pos as int, reader.pos + enc.len() as int) =~= enc);
}

/// Directory names are distinct.
pub open spec fn distinct_names(fields: Seq<(Seq<u8>, nat)>) -> bool {
    forall|i: int, j: int|
        0 <= i < fields.len() && 0 <= j < fields.len() && i != j ==> #[trigger] fields[i].0
            != #[trigger] fields[j].0
}

/// The name `t` entries after `cur`, wrapping around the directory.
spec fn name_after(fields: Seq<(Seq<u8>, nat)>, cur: nat, t: nat) -> Seq<u8> {
    fields[((cur + t) % fields.len()) as int].0
}

proof fn lemma_search_matches(fields: Seq<(Seq<u8>, nat)>, name: Seq<u8>, cur: nat, k: nat)
    ensures
        match search_from(fields, name, cur, k) {
            Some(j) => j < fields.len() && fields[j as int].0 == name,
            None => forall|t: nat| k <= t < fields.len() ==> #[trigger] name_after(fields, cur, t) != name,
        },
    decreases fields.len() - k,
{
    if k < fields.len() {
        lemma_search_matches(fields, name, cur, k + 1);
    }
}

/// Looking a field up by name finds it wherever it stands in the directory and wherever the
/// lookup starts: a struct written with its fields in one order loads the same when the
/// loader asks for them in another.
pub proof fn law_lookup_finds_field(fields: Seq<(Seq<u8>, nat)>, i: int, cur: nat)
    requires
        distinct_names(fields),
        0 <= i < fields.len(),
        cur < fields.len(),
    ensures
        find_field(fields, fields[i].0, cur) == Some(i as nat),
{
    let n = fields.len() as int;
    let t: int = if i >= cur {
        i - cur
    } else {
        i + n - cur
    };
    assert((cur + t) % n == i) by (nonlinear_arith)
        requires
            0 <= i < n,
            0 <= cur < n,
            t == if i >= cur {
                i - cur
            } else {
                i + n - cur
            },
    ;
    lemma_search_matches(fields, fields[i].0, cur, 0);
    match search_from(fields, fields[i].0, cur, 0) {
        Some(j) => {
            if j != i {
                assert(fields[j as int].0 != fields[i].0);
            }
        },
        None => {
            assert(name_after(fields, cur, t as nat) != fields[i].0);
        },
    }
}

/// Looking up a name that the directory does not hold fails with `FieldNotFound`: a field added
/// since the save was written is not made up by the reader.
pub proof fn law_missing_field(m: ReadModel, name: Seq<u8>)
    requires
        m.persistent,
        m.frames.len() > 0,
        forall|i: int| 0 <= i < m.frames.last().fields.len() ==> #[trigger] m.frames.last().fields[i].0 != name,
    ensures
        m.start_field_result(name) == Err::<ReadModel, ReadError>(ReadError::FieldNotFound),
{
    let top = m.frames.last();
    lemma_search_matches(top.fields, name, top.cur, 0);
}

/// A field that the save holds and the loader no longer asks for is skipped: whatever the loader
/// read of the struct, closing it puts the cursor at the end of the struct's directory, and the
/// fields it does ask for are found.
pub proof fn law_removed_field_ignored(m: ReadModel, i: int)
    requires
        m.persistent,
        m.frames.len() > 0,
        distinct_names(m.frames.last().fields),
        0 <= i < m.frames.last().fields.len(),
        m.frames.last().cur < m.frames.last().fields.len(),
    ensures
        m.start_field_result(m.frames.last().fields[i].0) is Ok,
        ({
            let after = m.start_field_result(m.frames.last().fields[i].0)->Ok_0;
            &&& after.pos == m.frames.last().fields[i].1
            &&& after.end_struct_result() is Ok
            &&& after.end_struct_result()->Ok_0.pos == m.frames.last().end
            &&& after.end_struct_result()->Ok_0.frames == m.frames.drop_last()
        }),
{
    let top = m.frames.last();
    law_lookup_finds_field(top.fields, i, top.cur);
    let after = m.start_field_result(top.fields[i].0)->Ok_0;
    assert(after.frames.drop_last() =~= m.frames.drop_last());
}

/// A struct may have up to 255 fields: closing one with 255 succeeds, and one with 256 or more
/// fails with `TooManyFields`.
pub proof fn law_field_capacity(m: WriteModel)
    requires
        m.persistent,
        m.frames.len() > 0,
        m.fits(),
    ensures
        m.frames.last().fields.len() <= 255 ==> m.end_struct_result() is Ok,
        m.frames.last().fields.len() > 255 ==> m.end_struct_result() == Err::<WriteModel, WriteError>(
            WriteError::TooManyFields,
        ),
{
}

/// The transient format writes no structure: opening a struct, naming a field and closing a
/// struct append nothing, so no field name or directory reaches its output.
pub proof fn law_transient_writes_no_structure(m: WriteModel, name: Seq<u8>)
    requires
        !m.persistent,
    ensures
        m.start_struct_result() == Ok::<WriteModel, WriteError>(m),
        m.start_field_result(name) == Ok::<WriteModel, WriteError>(m),
        m.end_struct_result() == Ok::<WriteModel, WriteError>(m),
{
}

/// Reading past the end of the buffer fails with `UnexpectedEof` and reads nothing.
pub proof fn law_truncated_read_fails(m: ReadModel, size: nat)
    requires
        m.pos + size > m.data.len(),
    ensures
        m.take_result(size) == Err::<ReadModel, ReadError>(ReadError::UnexpectedEof),
{
}

/// Every declared variant's discriminant reads back as itself, in either byte order.
pub proof fn law_discriminant_round_trip(discriminant: nat, variant_count: nat, little: bool)
    requires
        discriminant < variant_count,
        variant_count <= u64::MAX,
    ensures
        crate::raw::ordered_value(
            crate::raw::ordered_bytes(discriminant, discriminant_width(variant_count), little),
            little,
        ) == discriminant,
{
    crate::raw::lemma_pow256_facts(0);
    crate::raw::lemma_ordered_round_trip(discriminant, discriminant_width(variant_count), little);
}

/// Integers are told apart by their encoding: a loaded integer whose encoding is the stored
/// one's is the stored integer, so for integers loading what was stored gives back the value
/// itself.
pub proof fn law_integer_round_trip<T: MemValue>(stored: T, loaded: T, fmt: Format)
    requires
        int_encoding(loaded, fmt) == int_encoding(stored, fmt),
    ensures
        loaded == stored,
{
    lemma_value_round_trip(stored, fmt.little);
    lemma_value_round_trip(loaded, fmt.little);
    T::lemma_bits_injective(loaded, stored);
}

/// Where items are told apart by their encoding, so are optional items.
pub proof fn law_optional_round_trip<T: Storable>(stored: Option<T>, loaded: Option<T>, at: nat, fmt: Format)
    requires
        forall|a: T, b: T| #[trigger] a.encoding(at + 1, fmt) == #[trigger] b.encoding(at + 1, fmt) ==> a == b,
        loaded.encoding(at, fmt) == stored.encoding(at, fmt),
    ensures
        loaded == stored,
{
    let enc = stored.encoding(at, fmt);
    match (stored, loaded) {
        (Some(s), Some(l)) => {
            assert(l.encoding(at + 1, fmt) =~= enc.subrange(1, enc.len() as int));
            assert(s.encoding(at + 1, fmt) =~= enc.subrange(1, enc.len() as int));
        },
        (Some(_), None) => {
            assert(enc[0] == 1u8);
        },
        (None, Some(_)) => {
            assert(loaded.encoding(at, fmt)[0] == 1u8);
        },
        (None, None) => {},
    }
}

/// Round trip: where a type is decodable, loading what was stored gives back the stored value
/// itself, not only one with the same bytes.
pub proof fn law_load_gives_value<T: Storable>(
    r: Result<T, ReadError>,
    before: ReadModel,
    after: ReadModel,
)
    requires
        loaded(r, before, after),
        decodable::<T>(read_format(before)),
    ensures
        forall|x: T| #[trigger] encoded_at(x, before) ==> r == Ok::<T, ReadError>(x),
{
    let fmt = read_format(before);
    assert forall|x: T| #[trigger] encoded_at(x, before) implies r == Ok::<T, ReadError>(x) by {
        if let Ok(v) = r {
            let e = x.encoding(before.pos, fmt);
            assert(e.subrange(0, e.len() as int) =~= e);
            assert(is_prefix(v.encoding(before.pos, fmt), x.encoding(before.pos, fmt)));
        }
    }
}

/// Integers are decodable.
pub proof fn law_integer_decodable<T: MemValue + Storable>(fmt: Format)
    requires
        forall|a: T, at: nat| #[trigger] a.encoding(at, fmt) == int_encoding(a, fmt),
    ensures
        decodable::<T>(fmt),
{
    assert forall|a: T, b: T, at: nat|
        is_prefix(#[trigger] a.encoding(at, fmt), #[trigger] b.encoding(at, fmt)) implies a == b by {
        lemma_value_round_trip(a, fmt.little);
        lemma_value_round_trip(b, fmt.little);
        let eb = b.encoding(at, fmt);
        assert(eb.subrange(0, eb.len() as int) =~= eb);
        law_integer_round_trip(b, a, fmt);
    }
}

/// Booleans are decodable.
pub proof fn law_bool_decodable(fmt: Format)
    ensures
        decodable::<bool>(fmt),
{
    assert forall|a: bool, b: bool, at: nat|
        is_prefix(#[trigger] a.encoding(at, fmt), #[trigger] b.encoding(at, fmt)) implies a == b by {
        assert(b.encoding(at, fmt).subrange(0, 1)[0] == b.encoding(at, fmt)[0]);
    }
}

/// Optional values of a decodable type are decodable.
pub proof fn law_option_decodable<T: Storable>(fmt: Format)
    requires
        decodable::<T>(fmt),
    ensures
        decodable::<Option<T>>(fmt),
{
    assert forall|a: Option<T>, b: Option<T>, at: nat|
        is_prefix(#[trigger] a.encoding(at, fmt), #[trigger] b.encoding(at, fmt)) implies a == b by {
        let ea = a.encoding(at, fmt);
        let eb = b.encoding(at, fmt);
        assert(eb.subrange(0, ea.len() as int)[0] == eb[0]);
        assert(ea[0] == eb[0]);
        if let (Some(x), Some(y)) = (a, b) {
            let xe = x.encoding(at + 1, fmt);
            let ye = y.encoding(at + 1, fmt);
            assert(ye.subrange(0, xe.len() as int) =~= eb.subrange(1, 1 + xe.len() as int));
            assert(eb.subrange(1, 1 + xe.len() as int) =~= ea.subrange(1, ea.len() as int));
            assert(ea.subrange(1, ea.len() as int) =~= xe);
            assert(is_prefix(xe, ye));
        }
    }
}

/// Pairs of decodable types are decodable.
pub proof fn law_pair_decodable<A: Storable, B: Storable>(fmt: Format)
    requires
        decodable::<A>(fmt),
        decodable::<B>(fmt),
    ensures
        decodable::<(A, B)>(fmt),
{
    assert forall|a: (A, B), b: (A, B), at: nat|
        is_prefix(#[trigger] a.encoding(at, fmt), #[trigger] b.encoding(at, fmt)) implies a == b by {
        let ea = a.encoding(at, fmt);
        let eb = b.encoding(at, fmt);
        let a0 = a.0.encoding(at, fmt);
        let b0 = b.0.encoding(at, fmt);
        assert(is_prefix(a0, eb)) by {
            assert(ea.subrange(0, a0.len() as int) =~= a0);
            assert(eb.subrange(0, a0.len() as int) =~= ea.subrange(0, a0.len() as int));
        }
        assert(is_prefix(b0, eb)) by {
            assert(eb.subrange(0, b0.len() as int) =~= b0);
        }
        if a0.len() <= b0.len() {
            lemma_prefixes(a0, b0, eb);
        } else {
            lemma_prefixes(b0, a0, eb);
        }
        assert(a.0 == b.0);
        let a1 = a.1.encoding(at + a0.len(), fmt);
        let b1 = b.1.encoding(at + a0.len(), fmt);
        assert(is_prefix(a1, b1)) by {
            assert(eb.subrange(0, ea.len() as int) == ea);
            assert(b1.subrange(0, a1.len() as int) =~= eb.subrange(
                a0.len() as int,
                ea.len() as int,
            ));
            assert(eb.subrange(a0.len() as int, ea.len() as int) =~= ea.subrange(
                a0.len() as int,
                ea.len() as int,
            ));
            assert(ea.subrange(a0.len() as int, ea.len() as int) =~= a1);
        }
        assert(a.1 == b.1);
    }
}

/// Arrays of a decodable type are decodable.
pub proof fn law_array_decodable<T: Storable, const N: usize>(fmt: Format)
    requires
        decodable::<T>(fmt),
    ensures
        decodable::<[T; N]>(fmt),
{
    assert forall|a: [T; N], b: [T; N], at: nat|
        is_prefix(#[trigger] a.encoding(at, fmt), #[trigger] b.encoding(at, fmt)) implies a == b by {
        lemma_seq_decodable(a@, b@, at, fmt);
        assert(a =~= b);
    }
}

/// Vectors of a decodable type hold the same items where their encodings begin one another.
pub proof fn law_vec_decodable<T: Storable>(a: Vec<T>, b: Vec<T>, at: nat, fmt: Format)
    requires
        decodable::<T>(fmt),
        a.storable(),
        b.storable(),
        is_prefix(a.encoding(at, fmt), b.encoding(at, fmt)),
    ensures
        a@ == b@,
{
    let ea = a.encoding(at, fmt);
    let eb = b.encoding(at, fmt);
    crate::raw::lemma_ordered_bytes_len(a@.len(), 4, fmt.little);
    crate::raw::lemma_ordered_bytes_len(b@.len(), 4, fmt.little);
    crate::raw::lemma_pow256_facts(0);
    crate::raw::lemma_ordered_round_trip(a@.len(), 4, fmt.little);
    crate::raw::lemma_ordered_round_trip(b@.len(), 4, fmt.little);
    assert(eb.subrange(0, 4) =~= ea.subrange(0, 4)) by {
        assert(eb.subrange(0, ea.len() as int) == ea);
        assert(eb.subrange(0, 4) =~= eb.subrange(0, ea.len() as int).subrange(0, 4));
    }
    assert(ea.subrange(0, 4) =~= crate::raw::ordered_bytes(a@.len(), 4, fmt.little));
    assert(eb.subrange(0, 4) =~= crate::raw::ordered_bytes(b@.len(), 4, fmt.little));
    assert(a@.len() == b@.len());
    let sa = seq_encoding(a@, at + 4, fmt);
    let sb = seq_encoding(b@, at + 4, fmt);
    assert(is_prefix(sa, sb)) by {
        assert(eb.subrange(0, ea.len() as int) == ea);
        assert(sb.subrange(0, sa.len() as int) =~= eb.subrange(4, ea.len() as int));
        assert(eb.subrange(4, ea.len() as int) =~= ea.subrange(4, ea.len() as int));
        assert(ea.subrange(4, ea.len() as int) =~= sa);
    }
    lemma_seq_decodable(a@, b@, at + 4, fmt);
}

} // verus!
