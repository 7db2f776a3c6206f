use emu_utils::codec::{
    discriminant_size, load_discriminant, load_slice_in_place, load_vec, store_discriminant,
    store_slice, Loadable, LoadableInPlace, Storable,
};
use emu_utils::mem::Bytes;
use emu_utils::read::{PersistentReadSavestate, ReadError, ReadSavestate, TransientReadSavestate};
use emu_utils::write::{
    PersistentWriteSavestate, TransientWriteSavestate, WriteError, WriteSavestate,
};

fn store_point(w: &mut PersistentWriteSavestate, x: i32, y: i32) {
    w.start_struct().unwrap();
    w.start_field(b"x").unwrap();
    x.store(w).unwrap();
    w.start_field(b"y").unwrap();
    y.store(w).unwrap();
    w.end_struct().unwrap();
}

fn point_bytes() -> Vec<u8> {
    let mut w = PersistentWriteSavestate::new(Vec::new());
    store_point(&mut w, 5, 7);
    w.into_inner()
}

#[test]
fn point_persistent_layout() {
    assert_eq!(
        point_bytes(),
        vec![12, 0, 0, 0, 5, 0, 0, 0, 7, 0, 0, 0, 2, b'x', 0, 4, 0, 0, 0, b'y', 0, 8, 0, 0, 0]
    );
}

#[test]
fn point_loads_back() {
    let bytes = point_bytes();
    let mut r = PersistentReadSavestate::new(&bytes).unwrap();
    r.start_struct().unwrap();
    r.start_field(b"x").unwrap();
    let x = i32::load(&mut r).unwrap();
    r.start_field(b"y").unwrap();
    let y = i32::load(&mut r).unwrap();
    r.end_struct().unwrap();
    assert_eq!((x, y), (5, 7));
}

#[test]
fn point_loads_into_newer_layout_with_default() {
    // A newer Point { y, x, z } with z defaulted to 0 when the save lacks it.
    let bytes = point_bytes();
    let mut r = PersistentReadSavestate::new(&bytes).unwrap();
    r.start_struct().unwrap();
    r.start_field(b"y").unwrap();
    let y = i32::load(&mut r).unwrap();
    r.start_field(b"x").unwrap();
    let x = i32::load(&mut r).unwrap();
    let z = match r.start_field(b"z") {
        Ok(()) => i32::load(&mut r).unwrap(),
        Err(ReadError::FieldNotFound) => 0,
        Err(e) => panic!("unexpected {:?}", e),
    };
    r.end_struct().unwrap();
    assert_eq!((x, y, z), (5, 7, 0));
}

#[test]
fn reordered_fields_load_identically() {
    let mut w = PersistentWriteSavestate::new(Vec::new());
    w.start_struct().unwrap();
    w.start_field(b"a").unwrap();
    1u16.store(&mut w).unwrap();
    w.start_field(b"b").unwrap();
    2u16.store(&mut w).unwrap();
    w.start_field(b"c").unwrap();
    3u16.store(&mut w).unwrap();
    w.end_struct().unwrap();
    let bytes = w.into_inner();
    let mut r = PersistentReadSavestate::new(&bytes).unwrap();
    r.start_struct().unwrap();
    let mut got = Vec::new();
    for name in [b"c", b"a", b"b"] {
        r.start_field(name).unwrap();
        got.push(u16::load(&mut r).unwrap());
    }
    r.end_struct().unwrap();
    assert_eq!(got, vec![3, 1, 2]);
}

#[test]
fn missing_field_fails_field_not_found() {
    let bytes = point_bytes();
    let mut r = PersistentReadSavestate::new(&bytes).unwrap();
    r.start_struct().unwrap();
    assert_eq!(r.start_field(b"w"), Err(ReadError::FieldNotFound));
}

#[test]
fn removed_field_is_skipped() {
    // Written with an extra field `old`, then a value after the struct.
    let mut w = PersistentWriteSavestate::new(Vec::new());
    w.start_struct().unwrap();
    w.start_field(b"x").unwrap();
    10u32.store(&mut w).unwrap();
    w.start_field(b"old").unwrap();
    vec![1u8, 2, 3].store(&mut w).unwrap();
    w.end_struct().unwrap();
    99u8.store(&mut w).unwrap();
    let bytes = w.into_inner();
    let mut r = PersistentReadSavestate::new(&bytes).unwrap();
    r.start_struct().unwrap();
    r.start_field(b"x").unwrap();
    assert_eq!(u32::load(&mut r).unwrap(), 10);
    r.end_struct().unwrap();
    assert_eq!(u8::load(&mut r).unwrap(), 99);
}

#[test]
fn structural_calls_without_struct_fail() {
    let mut w = PersistentWriteSavestate::new(Vec::new());
    assert_eq!(w.end_struct(), Err(WriteError::NoStructPresent));
    assert_eq!(w.start_field(b"x"), Err(WriteError::NoStructPresent));
    let bytes = point_bytes();
    let mut r = PersistentReadSavestate::new(&bytes).unwrap();
    assert_eq!(r.end_struct(), Err(ReadError::NoStructPresent));
    assert_eq!(r.start_field(b"x"), Err(ReadError::NoStructPresent));
}

fn leaked_name(i: usize) -> &'static [u8] {
    Box::leak(format!("f{}", i).into_boxed_str()).as_bytes()
}

fn struct_with_fields(n: usize) -> Result<(), WriteError> {
    let mut w = PersistentWriteSavestate::new(Vec::new());
    w.start_struct()?;
    for i in 0..n {
        w.start_field(leaked_name(i))?;
        (i as u8).store(&mut w)?;
    }
    w.end_struct()
}

#[test]
fn struct_with_255_fields_succeeds() {
    assert_eq!(struct_with_fields(255), Ok(()));
}

#[test]
fn struct_with_256_fields_fails() {
    assert_eq!(struct_with_fields(256), Err(WriteError::TooManyFields));
}

#[test]
fn field_count_255_round_trips() {
    let mut w = PersistentWriteSavestate::new(Vec::new());
    w.start_struct().unwrap();
    for i in 0..255usize {
        w.start_field(leaked_name(i)).unwrap();
        (i as u8).store(&mut w).unwrap();
    }
    w.end_struct().unwrap();
    let bytes = w.into_inner();
    let mut r = PersistentReadSavestate::new(&bytes).unwrap();
    r.start_struct().unwrap();
    r.start_field(leaked_name(200)).unwrap();
    assert_eq!(u8::load(&mut r).unwrap(), 200);
    r.start_field(leaked_name(3)).unwrap();
    assert_eq!(u8::load(&mut r).unwrap(), 3);
}

#[test]
fn transient_point_has_no_structure() {
    let mut w = TransientWriteSavestate::new(Vec::new());
    w.start_struct().unwrap();
    w.start_field(b"x").unwrap();
    5i32.store(&mut w).unwrap();
    w.start_field(b"y").unwrap();
    7i32.store(&mut w).unwrap();
    w.end_struct().unwrap();
    let bytes = w.into_inner();
    let mut expected = 5i32.to_ne_bytes().to_vec();
    expected.extend_from_slice(&7i32.to_ne_bytes());
    assert_eq!(bytes, expected);
    assert!(!bytes.contains(&b'x') && !bytes.contains(&b'y'));
}

#[test]
fn transient_round_trip() {
    let mut w = TransientWriteSavestate::new(Vec::new());
    0x0102u16.store(&mut w).unwrap();
    vec![Some(-3i64), None].store(&mut w).unwrap();
    let bytes = w.into_inner();
    assert_eq!(&bytes[..2], &0x0102u16.to_ne_bytes());
    let mut r = TransientReadSavestate::new(&bytes);
    assert_eq!(u16::load(&mut r), Ok(0x0102));
    assert_eq!(Vec::<Option<i64>>::load(&mut r), Ok(vec![Some(-3), None]));
    assert_eq!(u8::load(&mut r), Err(ReadError::UnexpectedEof));
}

#[test]
fn truncated_reads_fail_eof() {
    let bytes = [1u8, 2, 3];
    let mut r = PersistentReadSavestate::new(&bytes).unwrap();
    assert_eq!(u32::load(&mut r), Err(ReadError::UnexpectedEof));
    assert_eq!(u16::load(&mut r), Ok(0x0201));
    assert_eq!(r.load_bytes(2), Err(ReadError::UnexpectedEof));
    assert_eq!(r.load_bytes(1), Ok(vec![3]));
    // A length prefix that promises more items than the buffer holds.
    let bytes = [5u8, 0, 0, 0, 1, 2];
    let mut r = PersistentReadSavestate::new(&bytes).unwrap();
    assert_eq!(Vec::<u8>::load(&mut r), Err(ReadError::UnexpectedEof));
    // A struct header pointing past the end.
    let bytes = [200u8, 0, 0, 0];
    let mut r = PersistentReadSavestate::new(&bytes).unwrap();
    assert_eq!(r.start_struct(), Err(ReadError::UnexpectedEof));
    // Every truncation of a valid save fails rather than misreading.
    let full = point_bytes();
    for cut in 0..full.len() {
        let mut r = PersistentReadSavestate::new(&full[..cut]).unwrap();
        let result = r
            .start_struct()
            .and_then(|_| r.start_field(b"x"))
            .and_then(|_| i32::load(&mut r))
            .and_then(|_| r.start_field(b"y"))
            .and_then(|_| i32::load(&mut r))
            .and_then(|_| r.end_struct());
        assert_eq!(result, Err(ReadError::UnexpectedEof), "cut at {}", cut);
    }
}

#[test]
fn persistent_round_trip_of_composites() {
    let value: Vec<Option<u32>> = vec![Some(1), None, Some(0xdead_beef)];
    let mut w = PersistentWriteSavestate::new(Vec::new());
    value.store(&mut w).unwrap();
    true.store(&mut w).unwrap();
    Some(-5i8).store(&mut w).unwrap();
    0x1122_3344_5566_7788_99aa_bbcc_ddee_ff00u128.store(&mut w).unwrap();
    i128::MIN.store(&mut w).unwrap();
    ().store(&mut w).unwrap();
    Bytes::new([9u8, 8, 7]).store(&mut w).unwrap();
    let bytes = w.into_inner();
    let mut r = PersistentReadSavestate::new(&bytes).unwrap();
    assert_eq!(Vec::<Option<u32>>::load(&mut r), Ok(value));
    assert_eq!(bool::load(&mut r), Ok(true));
    assert_eq!(Option::<i8>::load(&mut r), Ok(Some(-5)));
    assert_eq!(u128::load(&mut r), Ok(0x1122_3344_5566_7788_99aa_bbcc_ddee_ff00));
    assert_eq!(i128::load(&mut r), Ok(i128::MIN));
    assert_eq!(<()>::load(&mut r), Ok(()));
    assert_eq!(Bytes::<3>::load(&mut r).unwrap().into_inner(), [9, 8, 7]);
    assert_eq!(u8::load(&mut r), Err(ReadError::UnexpectedEof));
}

#[test]
fn option_layout() {
    let mut w = PersistentWriteSavestate::new(Vec::new());
    Some(0x0201u16).store(&mut w).unwrap();
    None::<u16>.store(&mut w).unwrap();
    assert_eq!(w.into_inner(), vec![1, 1, 2, 0]);
    // Any nonzero tag means present.
    let bytes = [7u8, 4];
    let mut r = PersistentReadSavestate::new(&bytes).unwrap();
    assert_eq!(Option::<u8>::load(&mut r), Ok(Some(4)));
}

#[test]
fn vec_layout_and_length_prefix() {
    let mut w = PersistentWriteSavestate::new(Vec::new());
    vec![0x0102u16, 0x0304].store(&mut w).unwrap();
    assert_eq!(w.into_inner(), vec![2, 0, 0, 0, 2, 1, 4, 3]);
    let mut w = PersistentWriteSavestate::new(Vec::new());
    assert_eq!(w.store_array_len(u32::MAX as usize + 1), Err(WriteError::TooManyFields));
}

#[test]
fn slices_store_and_load_in_place() {
    let mut w = PersistentWriteSavestate::new(Vec::new());
    store_slice(&[1u32, 2, 3], &mut w).unwrap();
    let bytes = w.into_inner();
    assert_eq!(bytes.len(), 12);
    let mut target = [0u32; 3];
    let mut r = PersistentReadSavestate::new(&bytes).unwrap();
    load_slice_in_place(&mut target, &mut r).unwrap();
    assert_eq!(target, [1, 2, 3]);
    let mut r = PersistentReadSavestate::new(&bytes).unwrap();
    assert_eq!(load_vec::<_, u32>(&mut r, 2), Ok(vec![1, 2]));
    let mut short = [0u32; 4];
    let mut r = PersistentReadSavestate::new(&bytes).unwrap();
    assert_eq!(load_slice_in_place(&mut short, &mut r), Err(ReadError::UnexpectedEof));
}

#[test]
fn load_in_place_overwrites() {
    let mut w = PersistentWriteSavestate::new(Vec::new());
    42u64.store(&mut w).unwrap();
    false.store(&mut w).unwrap();
    let bytes = w.into_inner();
    let mut r = PersistentReadSavestate::new(&bytes).unwrap();
    let mut a = 0u64;
    let mut b = true;
    a.load_in_place(&mut r).unwrap();
    b.load_in_place(&mut r).unwrap();
    assert_eq!((a, b), (42, false));
}

#[test]
fn discriminant_widths() {
    assert_eq!(discriminant_size(1), 1);
    assert_eq!(discriminant_size(256), 1);
    assert_eq!(discriminant_size(257), 2);
    assert_eq!(discriminant_size(65536), 2);
    assert_eq!(discriminant_size(65537), 4);
    assert_eq!(discriminant_size(1 << 32), 4);
    assert_eq!(discriminant_size((1 << 32) + 1), 8);
}

#[test]
fn enum_variants_round_trip() {
    for &(count, d) in &[(3u64, 0u64), (3, 2), (300, 299), (70000, 69999)] {
        let mut w = PersistentWriteSavestate::new(Vec::new());
        store_discriminant(&mut w, d, count);
        let bytes = w.into_inner();
        assert_eq!(bytes.len(), discriminant_size(count));
        let mut r = PersistentReadSavestate::new(&bytes).unwrap();
        assert_eq!(load_discriminant(&mut r, count), Ok(d));
    }
}

#[test]
fn out_of_range_discriminant_fails_invalid_enum() {
    let bytes = [3u8];
    let mut r = PersistentReadSavestate::new(&bytes).unwrap();
    assert_eq!(load_discriminant(&mut r, 3), Err(ReadError::InvalidEnum));
    let bytes = [2u8];
    let mut r = PersistentReadSavestate::new(&bytes).unwrap();
    assert_eq!(load_discriminant(&mut r, 3), Ok(2));
    let bytes = [0x2cu8];
    let mut r = PersistentReadSavestate::new(&bytes).unwrap();
    assert_eq!(load_discriminant(&mut r, 300), Err(ReadError::UnexpectedEof));
}

#[test]
fn pairs_and_arrays_round_trip() {
    let mut w = PersistentWriteSavestate::new(Vec::new());
    (7u8, -9i32).store(&mut w).unwrap();
    [1u16, 2, 3].store(&mut w).unwrap();
    let bytes = w.into_inner();
    assert_eq!(bytes.len(), 5 + 6);
    let mut r = PersistentReadSavestate::new(&bytes).unwrap();
    assert_eq!(<(u8, i32)>::load(&mut r), Ok((7, -9)));
    let mut arr = [0u16; 3];
    arr.load_in_place(&mut r).unwrap();
    assert_eq!(arr, [1, 2, 3]);
}

#[test]
fn channels_report_their_kind() {
    let w = PersistentWriteSavestate::new(Vec::new());
    assert!(!w.is_transient());
    let t = TransientWriteSavestate::new(Vec::new());
    assert!(t.is_transient());
    let bytes = [0u8; 2];
    assert!(!PersistentReadSavestate::new(&bytes).unwrap().is_transient());
    assert!(TransientReadSavestate::new(&bytes).is_transient());
}

#[test]
fn boxed_values_are_transparent() {
    let mut w = PersistentWriteSavestate::new(Vec::new());
    Box::new(0x0102_0304u32).store(&mut w).unwrap();
    let bytes = w.into_inner();
    assert_eq!(bytes, vec![4, 3, 2, 1]);
    let mut r = PersistentReadSavestate::new(&bytes).unwrap();
    assert_eq!(Box::<u32>::load(&mut r), Ok(Box::new(0x0102_0304)));
    let mut b = Box::new(0u32);
    let mut r = PersistentReadSavestate::new(&bytes).unwrap();
    b.load_in_place(&mut r).unwrap();
    assert_eq!(*b, 0x0102_0304);
}

#[test]
fn sizes_are_stored_in_four_bytes() {
    let mut w = PersistentWriteSavestate::new(Vec::new());
    7usize.store(&mut w).unwrap();
    (-3isize).store(&mut w).unwrap();
    assert_eq!(w.into_inner(), vec![7, 0, 0, 0, 0xfd, 0xff, 0xff, 0xff]);
    let bytes = [7u8, 0, 0, 0, 0xfd, 0xff, 0xff, 0xff];
    let mut r = PersistentReadSavestate::new(&bytes).unwrap();
    assert_eq!(usize::load(&mut r), Ok(7));
    assert_eq!(isize::load(&mut r), Ok(-3));
    assert_eq!(usize::load(&mut r), Err(ReadError::UnexpectedEof));
}

#[test]
fn oversized_sizes_are_refused() {
    if usize::BITS > 32 {
        let mut w = PersistentWriteSavestate::new(Vec::new());
        let big = (u32::MAX as usize).wrapping_add(1);
        assert_eq!(big.store(&mut w), Err(WriteError::TooManyFields));
        let small = (i32::MIN as isize).wrapping_sub(1);
        assert_eq!(small.store(&mut w), Err(WriteError::TooManyFields));
        assert!(w.into_inner().is_empty());
    }
}

#[test]
fn pairs_load_in_place() {
    let mut w = PersistentWriteSavestate::new(Vec::new());
    (1u16, Some(2u8)).store(&mut w).unwrap();
    let bytes = w.into_inner();
    let mut pair = (0u16, None::<u8>);
    let mut r = PersistentReadSavestate::new(&bytes).unwrap();
    pair.load_in_place(&mut r).unwrap();
    assert_eq!(pair, (1, Some(2)));
}

#[test]
fn failed_reads_keep_the_cursor() {
    let bytes = [1u8, 2];
    let mut r = PersistentReadSavestate::new(&bytes).unwrap();
    assert_eq!(r.start_struct(), Err(ReadError::UnexpectedEof));
    assert_eq!(r.load_bytes(3), Err(ReadError::UnexpectedEof));
    assert_eq!(u32::load(&mut r), Err(ReadError::UnexpectedEof));
    assert_eq!(u16::load(&mut r), Ok(0x0201));
}
