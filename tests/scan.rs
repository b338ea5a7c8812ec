use stratoneers::bits::{pop_count, sum_counts, BitTable};
use stratoneers::disks::{Disk, FlipEvent, ScanError, CHUNK_SIZE, MAX_CHUNK_SIZE};
use stratoneers::mounts::{check_mounts, is_mounted};
use stratoneers::size::parse_size;
use stratoneers::stats::ScanStatistics;

fn shift_and_mask(b: u8) -> u8 {
    let mut n = b;
    let mut c = 0u8;
    while n != 0 {
        c += n & 1;
        n >>= 1;
    }
    c
}

/// Reads the chunk the disk asks for from `content`.
fn read(disk: &Disk, content: &[u8]) -> Vec<u8> {
    let (offset, len) = disk.next_read();
    content[offset as usize..offset as usize + len].to_vec()
}

/// Runs `n` reads and returns the offsets of all flips reported.
fn run(disk: &mut Disk, table: &BitTable, content: &[u8], n: usize) -> Vec<u64> {
    let mut found = Vec::new();
    for _ in 0..n {
        let data = read(disk, content);
        let events = disk.get_bit_flips(table, &data).unwrap();
        found.extend(events.iter().map(|e| e.offset));
    }
    found
}

fn pattern(size: usize) -> Vec<u8> {
    (0..size).map(|i| (i * 37 + 11) as u8).collect()
}

#[test]
fn pop_count_matches_binary_ones_for_every_byte() {
    let table = BitTable::new();
    for b in 0..=255u8 {
        assert_eq!(pop_count(b), shift_and_mask(b));
        assert_eq!(table.count(b), b.count_ones() as u8);
    }
    assert_eq!(pop_count(0), 0);
    assert_eq!(pop_count(0xff), 8);
    assert_eq!(pop_count(0b1010_0001), 3);
}

#[test]
fn counts_and_sum_of_a_chunk() {
    let table = BitTable::new();
    let c = table.counts(&[0, 1, 3, 0xff]);
    assert_eq!(c, vec![0, 1, 2, 8]);
    assert_eq!(sum_counts(&c), 11);
}

#[test]
fn cursor_stays_inside_and_wraps_to_zero() {
    let table = BitTable::new();
    let content = pattern(12);
    let mut disk = Disk::with_chunk_size("/dev/test".to_string(), 12, 4).unwrap();
    let mut seen = Vec::new();
    for _ in 0..7 {
        let (offset, len) = disk.next_read();
        assert!(offset < disk.size_bytes());
        assert!(offset + len as u64 <= disk.size_bytes());
        seen.push(offset);
        let data = read(&disk, &content);
        disk.get_bit_flips(&table, &data).unwrap();
    }
    assert_eq!(seen, vec![0, 4, 8, 0, 4, 8, 0]);
    assert_eq!(disk.cursor(), 4);
}

#[test]
fn static_device_is_quiet_on_second_pass() {
    let table = BitTable::new();
    let content = pattern(64);
    let mut disk = Disk::with_chunk_size("/dev/a".to_string(), 64, 16).unwrap();
    assert!(run(&mut disk, &table, &content, 4).is_empty());
    assert!(run(&mut disk, &table, &content, 4).is_empty());
    assert_eq!(disk.bit_flips, 0);
}

#[test]
fn single_bit_flip_is_found_at_its_offset() {
    let table = BitTable::new();
    let mut content = pattern(64);
    let mut disk = Disk::with_chunk_size("/dev/a".to_string(), 64, 16).unwrap();
    assert!(run(&mut disk, &table, &content, 4).is_empty());
    content[37] ^= 1 << 5;
    assert_eq!(run(&mut disk, &table, &content, 4), vec![37]);
    assert_eq!(disk.bit_flips, 1);
    // the changed content is the new normal
    assert!(run(&mut disk, &table, &content, 4).is_empty());
    assert_eq!(disk.bit_flips, 1);
}

#[test]
fn flip_event_names_device_and_hex_offset() {
    let table = BitTable::new();
    let mut content = vec![0u8; 8192 * 2];
    let mut disk = Disk::new("/dev/sdz".to_string(), content.len() as u64).unwrap();
    assert!(run(&mut disk, &table, &content, 2).is_empty());
    content[0x1a2b] = 1;
    let data = read(&disk, &content);
    let events = disk.get_bit_flips(&table, &data).unwrap();
    assert_eq!(events.len(), 1);
    assert_eq!(events[0].device, "/dev/sdz");
    assert_eq!(events[0].offset, 0x1a2b);
    assert_eq!(events[0].offset_hex(), "1a2b");
}

#[test]
fn offset_hex_formats() {
    let e = FlipEvent { device: String::new(), offset: 0 };
    assert_eq!(e.offset_hex(), "0");
    let e = FlipEvent { device: String::new(), offset: 255 };
    assert_eq!(e.offset_hex(), "ff");
    let e = FlipEvent { device: String::new(), offset: u64::MAX };
    assert_eq!(e.offset_hex(), "ffffffffffffffff");
}

#[test]
fn mounted_device_stops_preflight() {
    let table = "/dev/sdb /mnt/data ext4 rw,relatime 0 0\nproc /proc proc rw 0 0\n";
    let devices = vec!["/dev/sda".to_string(), "/dev/sdb".to_string()];
    assert_eq!(
        check_mounts(table, &devices),
        Err(ScanError::MountConflict { index: 1 })
    );
    assert_eq!(check_mounts(table, &devices[..1].to_vec()), Ok(()));
}

#[test]
fn mount_source_must_be_a_whole_field_at_line_start() {
    let table = b"/dev/sda1 /boot vfat rw 0 0\ntmpfs /dev/sdc tmpfs rw 0 0\n/dev/sdd\t/x ext4 rw 0 0";
    assert!(!is_mounted(table, b"/dev/sda"));
    assert!(is_mounted(table, b"/dev/sda1"));
    assert!(!is_mounted(table, b"/dev/sdc"));
    assert!(is_mounted(table, b"/dev/sdd"));
    assert!(!is_mounted(table, b""));
    assert!(!is_mounted(b"", b"/dev/sda"));
}

#[test]
fn disks_count_apart() {
    let table = BitTable::new();
    let mut a_content = pattern(32);
    let b_content = pattern(48);
    let mut a = Disk::with_chunk_size("/dev/a".to_string(), 32, 8).unwrap();
    let mut b = Disk::with_chunk_size("/dev/b".to_string(), 48, 8).unwrap();
    let mut stats = ScanStatistics::new(2);
    run(&mut a, &table, &a_content, 4);
    run(&mut b, &table, &b_content, 6);
    a_content[3] ^= 1;
    a_content[20] ^= 0x80;
    let fa = run(&mut a, &table, &a_content, 4);
    let fb = run(&mut b, &table, &b_content, 6);
    stats.add(0, fa.len() as u64);
    stats.add(1, fb.len() as u64);
    assert_eq!(fa, vec![3, 20]);
    assert!(fb.is_empty());
    assert_eq!(a.bit_flips, 2);
    assert_eq!(b.bit_flips, 0);
    assert_eq!(stats.get(0), 2);
    assert_eq!(stats.get(1), 0);
    assert_eq!(stats.len(), 2);
    stats.add(1, u64::MAX);
    stats.add(1, 5);
    assert_eq!(stats.get(1), u64::MAX);
    assert_eq!(stats.get(0), 2);
}

#[test]
fn last_chunk_is_cut_at_device_end() {
    let table = BitTable::new();
    let mut disk = Disk::with_chunk_size("/dev/a".to_string(), 10, 4).unwrap();
    let content = pattern(10);
    assert_eq!(disk.next_read(), (0, 4));
    disk.get_bit_flips(&table, &content[0..4]).unwrap();
    assert_eq!(disk.next_read(), (4, 4));
    disk.get_bit_flips(&table, &content[4..8]).unwrap();
    assert_eq!(disk.next_read(), (8, 2));
    disk.get_bit_flips(&table, &content[8..10]).unwrap();
    assert_eq!(disk.next_read(), (0, 4));
}

#[test]
fn short_read_is_an_error_and_changes_nothing() {
    let table = BitTable::new();
    let mut disk = Disk::with_chunk_size("/dev/a".to_string(), 16, 8).unwrap();
    assert_eq!(disk.get_bit_flips(&table, &[1, 2, 3]).err(), Some(ScanError::Read));
    assert_eq!(disk.cursor(), 0);
    assert_eq!(disk.get_bit_flips(&table, &[0; 8]).unwrap().len(), 0);
    assert_eq!(disk.cursor(), 8);
}

#[test]
fn compensating_changes_in_one_chunk_go_unreported() {
    let table = BitTable::new();
    let mut content = vec![0u8; 8];
    let mut disk = Disk::with_chunk_size("/dev/a".to_string(), 8, 8).unwrap();
    assert!(run(&mut disk, &table, &content, 1).is_empty());
    content[1] = 1;
    content[2] = 0;
    content[5] = 2;
    assert_eq!(run(&mut disk, &table, &content, 1), vec![1, 5]);
    content[1] = 0;
    content[6] = 1;
    assert!(run(&mut disk, &table, &content, 1).is_empty());
}

#[test]
fn construction_checks_sizes() {
    assert_eq!(Disk::new("/dev/a".to_string(), 0).err(), Some(ScanError::Configuration));
    assert_eq!(
        Disk::with_chunk_size("/dev/a".to_string(), 10, 0).err(),
        Some(ScanError::Configuration)
    );
    assert_eq!(
        Disk::with_chunk_size("/dev/a".to_string(), 10, MAX_CHUNK_SIZE + 1).err(),
        Some(ScanError::Configuration)
    );
    let d = Disk::new("/dev/a".to_string(), 100).unwrap();
    assert_eq!(d.next_read(), (0, 100));
    assert_eq!(d.size_bytes(), 100);
    assert_eq!(d.bit_flips, 0);
    let d = Disk::new("/dev/a".to_string(), 3 * CHUNK_SIZE as u64).unwrap();
    assert_eq!(d.next_read(), (0, CHUNK_SIZE));
}

#[test]
fn progress_in_whole_percent() {
    let table = BitTable::new();
    let mut disk = Disk::with_chunk_size("/dev/a".to_string(), 300, 100).unwrap();
    let content = pattern(300);
    assert_eq!(disk.progress_percent(), 0);
    run(&mut disk, &table, &content, 1);
    assert_eq!(disk.progress_percent(), 33);
    run(&mut disk, &table, &content, 1);
    assert_eq!(disk.progress_percent(), 66);
}

#[test]
fn size_output_parses() {
    assert_eq!(parse_size(b"500107862016\n"), Ok(500107862016));
    assert_eq!(parse_size(b"  +42 \t\r\n"), Ok(42));
    assert_eq!(parse_size(b"0"), Ok(0));
    assert_eq!(parse_size(b"18446744073709551615"), Ok(u64::MAX));
    assert_eq!(parse_size(b"18446744073709551616"), Err(ScanError::Configuration));
    assert_eq!(parse_size(b""), Err(ScanError::Configuration));
    assert_eq!(parse_size(b"  \n"), Err(ScanError::Configuration));
    assert_eq!(parse_size(b"+"), Err(ScanError::Configuration));
    assert_eq!(parse_size(b"-5"), Err(ScanError::Configuration));
    assert_eq!(parse_size(b"12 34"), Err(ScanError::Configuration));
    assert_eq!(parse_size(b"blockdev: cannot open"), Err(ScanError::Configuration));
}
