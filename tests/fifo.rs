use emu_utils::codec::{Loadable, LoadableInPlace, Storable};
use emu_utils::fifo::Fifo;
use emu_utils::read::{PersistentReadSavestate, ReadError, ReadSavestate, TransientReadSavestate};
use emu_utils::write::{PersistentWriteSavestate, TransientWriteSavestate, WriteSavestate};

#[test]
fn fifo_reads_in_write_order() {
    let mut f: Fifo<u8, 3> = Fifo::new();
    assert!(f.is_empty());
    assert_eq!(f.write(1), Some(()));
    assert_eq!(f.write(2), Some(()));
    assert_eq!(f.write(3), Some(()));
    assert!(f.is_full());
    assert_eq!(f.write(4), None);
    assert_eq!(f.len(), 3);
    assert_eq!(f.peek(), Some(1));
    assert_eq!(f.read(), Some(1));
    assert_eq!(f.write(4), Some(()));
    assert_eq!(f.read_pos(), 1);
    assert_eq!(f.write_pos(), 1);
    assert_eq!(f.read(), Some(2));
    assert_eq!(f.read(), Some(3));
    assert_eq!(f.read(), Some(4));
    assert_eq!(f.read(), None);
    assert_eq!(f.peek(), None);
}

#[test]
fn fifo_clear_and_raw() {
    let mut f: Fifo<u16, 2> = Fifo::new();
    f.write_unchecked(7);
    assert_eq!(f.as_raw()[0], Some(7));
    assert_eq!(f.peek_unchecked(), 7);
    f.clear();
    assert!(f.is_empty());
    assert_eq!((f.read_pos(), f.write_pos()), (0, 0));
    f.write_unchecked(8);
    assert_eq!(f.read_unchecked(), 8);
    let raw = f.into_raw();
    assert_eq!(raw.len(), 2);
}

#[test]
fn zero_capacity_fifo_is_full_and_empty() {
    let mut f: Fifo<u8, 0> = Fifo::new();
    assert!(f.is_empty());
    assert!(f.is_full());
    assert_eq!(f.write(1), None);
    assert_eq!(f.read(), None);
}

fn wrapped_fifo() -> Fifo<u16, 4> {
    let mut f: Fifo<u16, 4> = Fifo::new();
    for v in [10, 11, 12, 13] {
        f.write(v).unwrap();
    }
    f.read().unwrap();
    f.read().unwrap();
    f.write(14).unwrap();
    f
}

#[test]
fn fifo_persistent_layout() {
    let f = wrapped_fifo();
    let mut w = PersistentWriteSavestate::new(Vec::new());
    f.store(&mut w).unwrap();
    let bytes = w.into_inner();
    let mut expected = vec![14, 0, 0, 0, 3, 0, 0, 0, 12, 0, 13, 0, 14, 0, 2];
    expected.extend_from_slice(b"len\0");
    expected.extend_from_slice(&[4, 0, 0, 0]);
    expected.extend_from_slice(b"buffer\0");
    expected.extend_from_slice(&[8, 0, 0, 0]);
    assert_eq!(bytes, expected);
}

#[test]
fn fifo_persistent_round_trip() {
    let f = wrapped_fifo();
    let mut w = PersistentWriteSavestate::new(vec![0xaa]);
    f.store(&mut w).unwrap();
    let bytes = w.into_inner();
    let mut r = PersistentReadSavestate::new(&bytes).unwrap();
    assert_eq!(u8::load(&mut r), Ok(0xaa));
    let mut g = Fifo::<u16, 4>::load(&mut r).unwrap();
    assert_eq!(g.len(), 3);
    assert_eq!(g.read(), Some(12));
    assert_eq!(g.read(), Some(13));
    assert_eq!(g.read(), Some(14));
    assert_eq!(g.read(), None);
}

#[test]
fn fifo_transient_round_trip_in_place() {
    let f = wrapped_fifo();
    let mut w = TransientWriteSavestate::new(Vec::new());
    f.store(&mut w).unwrap();
    let bytes = w.into_inner();
    assert_eq!(bytes.len(), 4 + 3 * 2);
    let mut g: Fifo<u16, 4> = Fifo::new();
    g.write(99).unwrap();
    let mut r = TransientReadSavestate::new(&bytes);
    g.load_in_place(&mut r).unwrap();
    assert_eq!(g.read(), Some(12));
    assert_eq!(g.read(), Some(13));
    assert_eq!(g.read(), Some(14));
    assert!(g.is_empty());
}

#[test]
fn fifo_length_over_capacity_is_rejected() {
    let mut big: Fifo<u8, 8> = Fifo::new();
    for v in 0..5 {
        big.write(v).unwrap();
    }
    let mut w = PersistentWriteSavestate::new(Vec::new());
    big.store(&mut w).unwrap();
    let bytes = w.into_inner();
    let mut r = PersistentReadSavestate::new(&bytes).unwrap();
    assert_eq!(Fifo::<u8, 4>::load(&mut r).err(), Some(ReadError::InvalidEnum));
}

#[test]
fn fifo_missing_field_fails() {
    let mut w = PersistentWriteSavestate::new(Vec::new());
    w.start_struct().unwrap();
    w.start_field(b"len").unwrap();
    0u32.store(&mut w).unwrap();
    w.end_struct().unwrap();
    let bytes = w.into_inner();
    let mut r = PersistentReadSavestate::new(&bytes).unwrap();
    assert_eq!(Fifo::<u8, 4>::load(&mut r).err(), Some(ReadError::FieldNotFound));
    let _ = r.end_struct();
}

#[test]
fn nested_fifos_round_trip() {
    let mut inner_a: Fifo<u8, 2> = Fifo::new();
    inner_a.write(1).unwrap();
    let mut inner_b: Fifo<u8, 2> = Fifo::new();
    inner_b.write(2).unwrap();
    inner_b.write(3).unwrap();
    let mut outer: Fifo<Fifo<u8, 2>, 3> = Fifo::new();
    outer.write(inner_a).unwrap();
    outer.write(inner_b).unwrap();
    let mut w = PersistentWriteSavestate::new(Vec::new());
    outer.store(&mut w).unwrap();
    let bytes = w.into_inner();
    let mut r = PersistentReadSavestate::new(&bytes).unwrap();
    let mut loaded = Fifo::<Fifo<u8, 2>, 3>::load(&mut r).unwrap();
    let mut a = loaded.read().unwrap();
    let mut b = loaded.read().unwrap();
    assert!(loaded.read().is_none());
    assert_eq!(a.read(), Some(1));
    assert_eq!(a.read(), None);
    assert_eq!(b.read(), Some(2));
    assert_eq!(b.read(), Some(3));
    assert_eq!(u8::load(&mut r), Err(ReadError::UnexpectedEof));
}

#[test]
fn fresh_and_cleared_fifos_write_at_slot_zero() {
    let mut f: Fifo<u8, 3> = Fifo::new();
    assert_eq!(f.write_pos(), 0);
    f.write(1).unwrap();
    f.write(2).unwrap();
    f.read().unwrap();
    f.clear();
    assert_eq!((f.read_pos(), f.write_pos(), f.len()), (0, 0, 0));
    assert_eq!(f.as_raw()[1], Some(2));
}
