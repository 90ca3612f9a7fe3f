use kernel_services::abi::TASK_INFO_BYTES;
use kernel_services::abi::TimeVal;
use kernel_services::abi::time_val_from_bytes;
use kernel_services::abi::TIME_VAL_BYTES;
use kernel_services::mem::AddrSpace;
use kernel_services::mem::Fragment;
use kernel_services::mem::PAGE_SIZE;
use kernel_services::mem::PageTableEntry;
use kernel_services::mem::PhysMem;
use kernel_services::mem::read_fragments;
use kernel_services::mem::translate_range;
use kernel_services::mem::write_fragments;
use kernel_services::process::sys_exit;
use kernel_services::process::sys_get_time;
use kernel_services::process::sys_mmap;
use kernel_services::process::sys_munmap;
use kernel_services::process::sys_sbrk;
use kernel_services::process::sys_task_info;
use kernel_services::process::sys_yield;

fn space_of(ppns: &[Option<usize>]) -> AddrSpace {
    let mut entries = Vec::new();
    for p in ppns {
        entries.push(p.map(|ppn| PageTableEntry { ppn, valid: true }));
    }
    AddrSpace { entries }
}

fn mem_of(pages: usize) -> PhysMem {
    PhysMem { bytes: vec![0u8; pages * PAGE_SIZE] }
}

fn u64_at(mem: &PhysMem, pa: usize) -> u64 {
    let mut b = [0u8; 8];
    b.copy_from_slice(&mem.bytes[pa..pa + 8]);
    u64::from_le_bytes(b)
}

#[test]
fn translate_single_page() {
    let space = space_of(&[Some(0)]);
    let frags = translate_range(&space, 8, 16).unwrap();
    assert_eq!(frags.len(), 1);
    assert_eq!(frags[0], Fragment { pa: 8, len: 16 });
}

#[test]
fn translate_zero_length_is_empty() {
    let space = space_of(&[Some(0)]);
    let frags = translate_range(&space, 100, 0).unwrap();
    assert_eq!(frags.len(), 0);
    // even over unmapped memory: a zero-length request touches no page
    let none_mapped = space_of(&[None]);
    assert_eq!(translate_range(&none_mapped, 100, 0).unwrap().len(), 0);
}

#[test]
fn translate_splits_at_page_boundary() {
    // virtual pages 0 and 1 back onto physical pages 1 and 0: the buffer
    // is contiguous in virtual addresses but not in physical memory
    let space = space_of(&[Some(1), Some(0)]);
    let frags = translate_range(&space, PAGE_SIZE - 6, 16).unwrap();
    assert_eq!(frags.len(), 2);
    assert_eq!(frags[0], Fragment { pa: PAGE_SIZE + PAGE_SIZE - 6, len: 6 });
    assert_eq!(frags[1], Fragment { pa: 0, len: 10 });
    // fragment lengths sum to the requested length
    assert_eq!(frags.iter().map(|f| f.len).sum::<usize>(), 16);
}

#[test]
fn translate_three_pages() {
    let space = space_of(&[Some(2), Some(0), Some(1)]);
    let frags = translate_range(&space, 4000, 2 * PAGE_SIZE).unwrap();
    assert_eq!(frags.len(), 3);
    assert_eq!(frags.iter().map(|f| f.len).sum::<usize>(), 2 * PAGE_SIZE);
    assert_eq!(frags[0].len, 96);
    assert_eq!(frags[1].len, PAGE_SIZE);
    assert_eq!(frags[2].len, PAGE_SIZE - 96);
}

#[test]
fn translate_fails_on_unmapped_page() {
    let space = space_of(&[Some(0), None, Some(1)]);
    // the middle page is unmapped: any range touching it fails whole
    assert!(translate_range(&space, PAGE_SIZE - 1, 2).is_none());
    assert!(translate_range(&space, 0, 2 * PAGE_SIZE).is_none());
    // a range beyond the table fails too
    assert!(translate_range(&space, 3 * PAGE_SIZE, 1).is_none());
    // ranges inside mapped pages still work
    assert!(translate_range(&space, 0, PAGE_SIZE).is_some());
}

#[test]
fn translate_fails_on_invalid_entry() {
    let space = AddrSpace {
        entries: vec![Some(PageTableEntry { ppn: 0, valid: false })],
    };
    assert!(translate_range(&space, 0, 1).is_none());
}

#[test]
fn round_trip_at_every_offset() {
    // writing a 16-byte value and reading it back reproduces the image
    // exactly, wherever it sits relative to the page boundary
    let space = space_of(&[Some(1), Some(0)]);
    let data: Vec<u8> = (0u8..16).collect();
    for offset in 0..PAGE_SIZE {
        let mut mem = mem_of(2);
        let frags = translate_range(&space, offset, 16).unwrap();
        write_fragments(&mut mem, &frags, &data);
        let back = read_fragments(&mem, &frags);
        assert_eq!(back, data);
    }
}

#[test]
fn get_time_writes_the_time_val_image() {
    let space = space_of(&[Some(0)]);
    let mut mem = mem_of(1);
    let r = sys_get_time(&mut mem, &space, 40, 0, 3_500_007);
    assert_eq!(r, 0);
    assert_eq!(u64_at(&mem, 40), 3);
    assert_eq!(u64_at(&mem, 48), 500_007);
}

#[test]
fn get_time_straddling_a_page_boundary() {
    let space = space_of(&[Some(1), Some(0)]);
    let mut mem = mem_of(2);
    let ptr = PAGE_SIZE - 8;
    let r = sys_get_time(&mut mem, &space, ptr, 0, 9_000_001);
    assert_eq!(r, 0);
    // seconds land at the end of physical page 1, microseconds at the
    // start of physical page 0
    assert_eq!(u64_at(&mem, 2 * PAGE_SIZE - 8), 9);
    assert_eq!(u64_at(&mem, 0), 1);
}

#[test]
fn get_time_fails_without_touching_memory() {
    let space = space_of(&[Some(0), None]);
    let mut mem = mem_of(1);
    let ptr = PAGE_SIZE - 8;  // straddles into the unmapped page
    let r = sys_get_time(&mut mem, &space, ptr, 0, 123_456);
    assert_eq!(r, -1);
    assert!(mem.bytes.iter().all(|b| *b == 0));
}

#[test]
fn get_time_is_strictly_increasing() {
    // two readings with a sleep between them: the decoded counts grow
    let space = space_of(&[Some(0)]);
    let mut mem = mem_of(1);
    assert_eq!(sys_get_time(&mut mem, &space, 0, 0, 1_999_999), 0);
    let first = (u64_at(&mem, 0), u64_at(&mem, 8));
    assert_eq!(sys_get_time(&mut mem, &space, 0, 0, 2_000_000), 0);
    let second = (u64_at(&mem, 0), u64_at(&mem, 8));
    assert!(first < second);
    assert_eq!(first, (1, 999_999));
    assert_eq!(second, (2, 0));
}

#[test]
fn task_info_writes_the_image() {
    let space = space_of(&[Some(0)]);
    let mut mem = mem_of(1);
    let mut times = [0u32; 500];
    times[64] = 7;
    times[499] = 90_000;
    let r = sys_task_info(&mut mem, &space, 0, times, Some(1_000), 251_999);
    assert_eq!(r, 0);
    assert_eq!(TASK_INFO_BYTES, 2016);
    // status Running is written as code 2
    assert_eq!(&mem.bytes[0..4], &[2, 0, 0, 0]);
    // each counter occupies 4 little-endian bytes after the status
    assert_eq!(&mem.bytes[4 + 64 * 4..4 + 64 * 4 + 4], &[7, 0, 0, 0]);
    assert_eq!(
        &mem.bytes[4 + 499 * 4..4 + 499 * 4 + 4],
        &90_000u32.to_le_bytes()
    );
    // padding, then the truncated elapsed milliseconds
    assert_eq!(&mem.bytes[2004..2008], &[0, 0, 0, 0]);
    assert_eq!(u64_at(&mem, 2008), 250);
}

#[test]
fn task_info_without_start_time_fails() {
    let space = space_of(&[Some(0)]);
    let mut mem = mem_of(1);
    let times = [0u32; 500];
    assert_eq!(sys_task_info(&mut mem, &space, 0, times, None, 5_000), -1);
    assert!(mem.bytes.iter().all(|b| *b == 0));
}

#[test]
fn task_info_elapsed_is_monotone() {
    let space = space_of(&[Some(0)]);
    let mut mem = mem_of(1);
    let times = [0u32; 500];
    assert_eq!(sys_task_info(&mut mem, &space, 0, times, Some(500), 10_500), 0);
    let t1 = u64_at(&mem, 2008);
    assert_eq!(sys_task_info(&mut mem, &space, 0, times, Some(500), 20_500), 0);
    let t2 = u64_at(&mem, 2008);
    assert_eq!(t1, 10);
    assert_eq!(t2, 20);
    assert!(t1 <= t2);
}

#[test]
fn task_info_straddles_a_page_boundary() {
    let space = space_of(&[Some(1), Some(0)]);
    let mut mem = mem_of(2);
    let times = [3u32; 500];
    let ptr = PAGE_SIZE - 100;
    assert_eq!(sys_task_info(&mut mem, &space, ptr, times, Some(0), 1_000), 0);
    // status at the start of the buffer, on physical page 1
    assert_eq!(&mem.bytes[PAGE_SIZE + ptr..PAGE_SIZE + ptr + 4], &[2, 0, 0, 0]);
    // the last counter lands on physical page 0
    let counter_off = 4 + 499 * 4;  // offset within the image
    let pa = counter_off - 100;  // continues at the start of page 0
    assert_eq!(&mem.bytes[pa..pa + 4], &[3, 0, 0, 0]);
}

#[test]
fn mmap_requires_page_alignment() {
    assert_eq!(sys_mmap(4096, 100, 3, true), 0);
    assert_eq!(sys_mmap(4096, 100, 3, false), -1);
    assert_eq!(sys_mmap(4097, 100, 3, true), -1);
    assert_eq!(sys_munmap(8192, 100, true), 0);
    assert_eq!(sys_munmap(8192, 100, false), -1);
    assert_eq!(sys_munmap(1, 100, true), -1);
}

#[test]
fn sbrk_reports_the_old_break() {
    assert_eq!(sys_sbrk(16, Some(0x10_000)), 0x10_000);
    assert_eq!(sys_sbrk(-16, Some(0x2_000)), 0x2_000);
    assert_eq!(sys_sbrk(1, None), -1);
}

#[test]
fn exit_and_yield_codes() {
    assert_eq!(sys_exit(42), 42);
    assert_eq!(sys_exit(-3), -3);
    assert_eq!(sys_yield(), 0);
}

#[test]
fn time_val_symmetric_read() {
    // deposit the time through fragments, then read the value back
    // through the symmetric typed read: the round trip is exact even
    // when the value straddles the page boundary
    let space = space_of(&[Some(1), Some(0)]);
    let mut mem = mem_of(2);
    let ptr = PAGE_SIZE - 4;
    assert_eq!(sys_get_time(&mut mem, &space, ptr, 0, 7_654_321), 0);
    let frags = translate_range(&space, ptr, 16).unwrap();
    let image = read_fragments(&mem, &frags);
    let tv = time_val_from_bytes(&image);
    assert_eq!(tv, TimeVal { sec: 7, usec: 654_321 });
}

#[test]
fn time_val_size_matches_the_abi() {
    assert_eq!(TIME_VAL_BYTES, 16);
}
