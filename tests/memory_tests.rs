use nes_memory::snapshot::record_len_from_header;
use nes_memory::{Bankable, Banks, MemRead, MemWrite, Memory, SnapshotError};

#[test]
fn empty_store_reads_zero_and_ignores_writes() {
    let mut mem = Memory::new();
    assert_eq!(mem.read(5), 0);
    mem.write(5, 0xFF);
    assert_eq!(mem.read(5), 0);
    assert_eq!(mem.peek(5), 0);
    assert_eq!(mem.len(), 0);
    assert!(mem.is_empty());
}

#[test]
fn ram_read_mirrors_address() {
    let mut ram = Memory::ram_from_bytes(&[1, 2, 3, 4]);
    assert_eq!(ram.read(6), 3);
    assert_eq!(ram.peek(6), 3);
    assert_eq!(ram.readw(6), 3);
    assert_eq!(ram.peekw(4 * 1000 + 1), 2);
}

#[test]
fn rom_ignores_write() {
    let mut rom = Memory::rom_from_bytes(&[9, 9, 9, 9]);
    rom.write(0, 5);
    assert_eq!(rom.read(0), 9);
    rom.writew(7, 1);
    assert_eq!(rom.peek(3), 9);
    assert!(!rom.is_writable());
}

#[test]
fn rom_unchanged_after_many_writes() {
    let mut rom = Memory::rom_from_bytes(&[1, 2, 3]);
    for a in 0..20u16 {
        rom.write(a, 0xAA);
    }
    for a in 0..20u16 {
        assert_eq!(rom.peek(a), [1, 2, 3][(a % 3) as usize]);
    }
}

#[test]
fn write_then_read_round_trip() {
    let mut ram = Memory::ram_from_bytes(&[0; 8]);
    ram.write(13, 0x42);
    assert_eq!(ram.read(13), 0x42);
    assert_eq!(ram.read(5), 0x42);
    assert_eq!(ram.read(21), 0x42);
    assert_eq!(ram.read(4), 0);
}

#[test]
fn read_equals_byte_at_address_modulo_length() {
    let bytes = [10u8, 20, 30, 40, 50];
    let ram = Memory::from_bytes(&bytes);
    for a in 0..40u16 {
        assert_eq!(ram.peek(a), bytes[a as usize % 5]);
    }
    assert_eq!(ram.peek(u16::MAX), bytes[u16::MAX as usize % 5]);
}

#[test]
fn constructors_set_length_and_permission() {
    let ram = Memory::ram(16);
    assert_eq!(ram.len(), 16);
    assert!(ram.is_writable());
    let rom = Memory::rom(16);
    assert_eq!(rom.len(), 16);
    assert!(!rom.is_writable());
    let cap = Memory::with_capacity(3);
    assert_eq!(cap.len(), 3);
    assert!(cap.is_writable());
    let from = Memory::from_bytes(&[7, 8]);
    assert_eq!(from.peek(1), 8);
    assert!(from.is_writable());
}

#[test]
fn zero_fill_is_all_zero() {
    let mem = Memory::filled(32, false);
    assert_eq!(mem.len(), 32);
    for a in 0..32u16 {
        assert_eq!(mem.peek(a), 0);
    }
}

#[test]
fn random_fill_draws_bytes() {
    let mem = Memory::filled(4096, true);
    assert_eq!(mem.len(), 4096);
    assert!(mem.is_writable());
    let nonzero = (0..4096u16).filter(|a| mem.peek(*a) != 0).count();
    assert!(nonzero > 0);
}

#[test]
fn partition_ten_bytes_into_banks_of_four() {
    let bytes: Vec<u8> = (0..10).collect();
    let src = Memory::ram_from_bytes(&bytes);
    let banks = Banks::<Memory>::init(&src, 4);
    let lens: Vec<usize> = banks.iter().map(|b| b.len()).collect();
    assert_eq!(lens, vec![4, 4, 2]);
    assert!(banks.iter().all(|b| b.is_writable()));
    assert_eq!(banks[2].peek(1), 9);
}

#[test]
fn partition_joins_back_to_source() {
    let bytes: Vec<u8> = (0..23).map(|x| x * 3).collect();
    let src = Memory::rom_from_bytes(&bytes);
    for size in 1..30usize {
        let chunks = src.chunks(size);
        assert_eq!(chunks.len(), (23 + size - 1) / size);
        let mut joined = Vec::new();
        for c in &chunks {
            assert!(!c.is_writable());
            for a in 0..c.len() {
                joined.push(c.peekw(a));
            }
        }
        assert_eq!(joined, bytes);
    }
}

#[test]
fn partition_exact_multiple_has_no_partial_bank() {
    let src = Memory::ram_from_bytes(&[1; 8]);
    let banks = Banks::<Memory>::init(&src, 4);
    assert_eq!(banks.len(), 2);
    assert!(banks.iter().all(|b| b.len() == 4));
}

#[test]
fn partition_with_size_zero_gives_no_bank() {
    let src = Memory::ram_from_bytes(&[1, 2, 3]);
    assert_eq!(src.chunks(0).len(), 0);
    let banks = Banks::<Memory>::init(&src, 0);
    assert!(banks.is_empty());
}

#[test]
fn partition_of_empty_source_gives_no_bank() {
    let banks = Banks::<Memory>::init(&Memory::new(), 4);
    assert!(banks.is_empty());
    assert!(Banks::<Memory>::new().is_empty());
}

#[test]
fn banks_are_copies_of_source() {
    let src = Memory::ram_from_bytes(&[1, 2, 3, 4]);
    let mut banks = Banks::<Memory>::init(&src, 2);
    banks[0].write(0, 77);
    assert_eq!(banks[0].peek(0), 77);
    assert_eq!(src.peek(0), 1);
}

#[test]
fn save_writes_length_bytes_and_flag() {
    let ram = Memory::ram_from_bytes(&[0xAB, 0xCD]);
    let mut out = vec![0xEE];
    ram.save(&mut out).unwrap();
    assert_eq!(out, vec![0xEE, 0, 0, 0, 2, 0xAB, 0xCD, 1]);
    let rom = Memory::rom_from_bytes(&[]);
    let mut out = Vec::new();
    rom.save(&mut out).unwrap();
    assert_eq!(out, vec![0, 0, 0, 0, 0]);
}

#[test]
fn save_load_round_trip() {
    let bytes: Vec<u8> = (0..300).map(|x| (x % 251) as u8).collect();
    for src in [Memory::ram_from_bytes(&bytes), Memory::rom_from_bytes(&bytes)] {
        let mut out = Vec::new();
        src.save(&mut out).unwrap();
        out.push(0x55);
        let mut dst = Memory::ram_from_bytes(&[1, 2, 3]);
        let end = dst.load(&out, 0).unwrap();
        assert_eq!(end, out.len() - 1);
        assert_eq!(dst.len(), 300);
        assert_eq!(dst.is_writable(), src.is_writable());
        for a in 0..300u16 {
            assert_eq!(dst.peek(a), src.peek(a));
        }
    }
}

#[test]
fn load_nonzero_flag_reads_as_writable() {
    let mut mem = Memory::rom_from_bytes(&[]);
    let end = mem.load(&[0, 0, 0, 1, 7, 9], 0).unwrap();
    assert_eq!(end, 6);
    assert!(mem.is_writable());
    assert_eq!(mem.peek(0), 7);
}

#[test]
fn load_truncated_record_fails_and_keeps_store() {
    let mut mem = Memory::ram_from_bytes(&[4, 5]);
    assert_eq!(mem.load(&[0, 0, 0, 3, 1, 2, 3], 0), Err(SnapshotError::Truncated));
    assert_eq!(mem.load(&[0, 0], 0), Err(SnapshotError::Truncated));
    assert_eq!(mem.load(&[0, 0, 0, 0, 1], 6), Err(SnapshotError::Truncated));
    assert_eq!(mem.len(), 2);
    assert_eq!(mem.peek(1), 5);
    assert!(mem.is_writable());
}

#[test]
fn load_at_offset_reads_second_record() {
    let a = Memory::ram_from_bytes(&[1]);
    let b = Memory::rom_from_bytes(&[2, 3]);
    let mut out = Vec::new();
    a.save(&mut out).unwrap();
    b.save(&mut out).unwrap();
    let mut dst = Memory::new();
    let mid = dst.load(&out, 0).unwrap();
    assert_eq!(mid, 6);
    let end = dst.load(&out, mid).unwrap();
    assert_eq!(end, out.len());
    assert_eq!(dst.len(), 2);
    assert_eq!(dst.peek(1), 3);
    assert!(!dst.is_writable());
}

#[test]
fn banks_save_load_round_trip() {
    let src = Memory::rom_from_bytes(&[1, 2, 3, 4, 5]);
    let banks = Banks::<Memory>::init(&src, 2);
    let mut out = Vec::new();
    banks.save(&mut out).unwrap();
    assert_eq!(
        out,
        vec![0, 0, 0, 2, 1, 2, 0, 0, 0, 0, 2, 3, 4, 0, 0, 0, 0, 1, 5, 0]
    );
    let other = Memory::ram_from_bytes(&[0; 6]);
    let mut dst = Banks::<Memory>::init(&other, 2);
    assert_eq!(dst.load(&out, 0), Ok(out.len()));
    assert_eq!(dst.len(), 3);
    assert_eq!(dst[2].len(), 1);
    assert_eq!(dst[2].peek(0), 5);
    assert!(!dst[0].is_writable());
}

#[test]
fn banks_load_truncated_keeps_banks() {
    let src = Memory::ram_from_bytes(&[1, 2, 3, 4]);
    let mut banks = Banks::<Memory>::init(&src, 2);
    assert_eq!(banks.load(&[0, 0, 0, 1, 9, 1], 0), Err(SnapshotError::Truncated));
    assert_eq!(banks[0].peek(0), 1);
    assert_eq!(banks[1].peek(1), 4);
}

#[test]
fn header_gives_record_length() {
    assert_eq!(record_len_from_header(&[0, 0, 1, 2]), Some(258 + 5));
    assert_eq!(record_len_from_header(&[1, 0, 0, 0, 9]), Some(16777216 + 5));
    assert_eq!(record_len_from_header(&[0, 0, 1]), None);
}

#[test]
fn default_store_is_empty_rom() {
    let mut mem = Memory::default();
    assert!(mem.is_empty());
    assert!(!mem.is_writable());
    mem.write(0, 1);
    assert_eq!(mem.read(0), 0);
    assert!(Banks::<Memory>::default().is_empty());
}
