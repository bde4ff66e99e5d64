//! Behaviour of the single-block cached stream over the in-memory device.

use block_stream::device::DeviceError;
use block_stream::device::MemDevice;
use block_stream::stream::OffsetScsiDevice;
use block_stream::stream::SeekFrom;
use block_stream::stream::StreamError;

fn open_stream(
    block_size: usize,
    block_count: usize,
    partition_start: usize,
) -> OffsetScsiDevice<MemDevice> {
    let dev = MemDevice::new(block_size, block_count);
    OffsetScsiDevice::new(dev, partition_start)
}

fn read_one(s: &mut OffsetScsiDevice<MemDevice>) -> Option<u8> {
    let mut out: Vec<u8> = vec![0u8];
    let n = s.read(&mut out).unwrap();
    if n == 1 {
        Some(out[0])
    } else {
        None
    }
}

#[test]
fn new_stream_initial_state() {
    let s = open_stream(16, 4, 0);
    assert_eq!(s.position(), 0);
    assert!(!s.is_dirty());
    assert!(!s.has_resident_block());
}

#[test]
fn round_trip_within_block() {
    let mut s = open_stream(16, 4, 0);
    assert_eq!(s.seek(SeekFrom::Start(5)).unwrap(), 5);
    assert_eq!(s.write(&[0xABu8]).unwrap(), 1);
    assert_eq!(s.seek(SeekFrom::Start(5)).unwrap(), 5);
    assert_eq!(read_one(&mut s), Some(0xABu8));
}

#[test]
fn round_trip_across_flush_and_reload() {
    let mut s = open_stream(8, 8, 0);
    assert_eq!(s.seek(SeekFrom::Start(3)).unwrap(), 3);
    assert_eq!(s.write(&[0x5Au8]).unwrap(), 1);
    s.flush().unwrap();
    // Force the buffer onto a different block, then come back.
    assert_eq!(s.seek(SeekFrom::Start(40)).unwrap(), 40);
    assert_eq!(read_one(&mut s), Some(0u8));
    assert_eq!(s.seek(SeekFrom::Start(3)).unwrap(), 3);
    assert_eq!(read_one(&mut s), Some(0x5Au8));
}

#[test]
fn noop_write_stays_clean_and_flush_writes_nothing() {
    let mut s = open_stream(16, 4, 0);
    // A fresh device is zero-filled; writing zero changes nothing.
    assert_eq!(s.write(&[0u8, 0u8, 0u8]).unwrap(), 3);
    assert!(!s.is_dirty());
    s.flush().unwrap();
    // More writes inside the resident block issue no device command at all.
    assert_eq!(s.seek(SeekFrom::Start(1)).unwrap(), 1);
    assert_eq!(s.write(&[0u8]).unwrap(), 1);
    let (res, dev) = s.close();
    res.unwrap();
    assert_eq!(dev.write_count(), 0);
    assert_eq!(dev.read_count(), 1);
}

#[test]
fn boundary_crossing_flushes_dirty_block_once() {
    let mut s = open_stream(8, 4, 0);
    // Dirty a byte in block 0.
    assert_eq!(s.write(&[9u8]).unwrap(), 1);
    assert!(s.is_dirty());
    assert_eq!(s.buffered_block_number(), 0);
    // Seek into block 1 and write a byte equal to what is there: the fill
    // must flush block 0 first, and the write itself stays clean.
    assert_eq!(s.seek(SeekFrom::Start(10)).unwrap(), 10);
    assert_eq!(s.write(&[0u8]).unwrap(), 1);
    assert!(!s.is_dirty());
    assert_eq!(s.buffered_block_number(), 1);
    let (res, dev) = s.close();
    res.unwrap();
    assert_eq!(dev.write_count(), 1);
    assert_eq!(dev.peek(0, 0), Some(9u8));
}

#[test]
fn end_of_medium_reads_return_zero() {
    let mut s = open_stream(4, 2, 0);
    assert_eq!(s.seek(SeekFrom::Start(8)).unwrap(), 8);
    let mut out: Vec<u8> = vec![7u8, 7u8];
    assert_eq!(s.read(&mut out).unwrap(), 0);
    assert_eq!(out, vec![7u8, 7u8]);
    assert_eq!(s.read(&mut out).unwrap(), 0);
    assert_eq!(s.write(&[1u8]).unwrap(), 0);
}

#[test]
fn read_past_end_is_partial() {
    let mut s = open_stream(4, 2, 0);
    assert_eq!(s.seek(SeekFrom::Start(6)).unwrap(), 6);
    let mut out: Vec<u8> = vec![0xFFu8; 4];
    assert_eq!(s.read(&mut out).unwrap(), 2);
    assert_eq!(out, vec![0u8, 0u8, 0xFFu8, 0xFFu8]);
    assert_eq!(s.read(&mut out).unwrap(), 0);
}

#[test]
fn write_past_end_is_partial() {
    let mut s = open_stream(4, 2, 0);
    assert_eq!(s.seek(SeekFrom::Start(6)).unwrap(), 6);
    assert_eq!(s.write(&[1u8, 2u8, 3u8, 4u8]).unwrap(), 2);
    assert_eq!(s.write(&[5u8]).unwrap(), 0);
    assert_eq!(s.seek(SeekFrom::Start(6)).unwrap(), 6);
    assert_eq!(read_one(&mut s), Some(1u8));
    assert_eq!(read_one(&mut s), Some(2u8));
    assert_eq!(read_one(&mut s), None);
}

#[test]
fn disposal_flush_issues_one_write() {
    let mut s = open_stream(8, 2, 0);
    assert_eq!(s.write(&[0x42u8]).unwrap(), 1);
    assert!(s.is_dirty());
    let (res, dev) = s.close();
    res.unwrap();
    assert_eq!(dev.write_count(), 1);
    assert_eq!(dev.peek(0, 0), Some(0x42u8));
}

#[test]
fn clean_close_issues_no_write() {
    let mut s = open_stream(8, 2, 0);
    assert_eq!(read_one(&mut s), Some(0u8));
    let (res, dev) = s.close();
    res.unwrap();
    assert_eq!(dev.write_count(), 0);
}

#[test]
fn concrete_partition_scenario() {
    // Block size 512; the partition starts at device block 2, byte 1024.
    let mut s = open_stream(512, 4, 1024);
    assert_eq!(s.write(&[7u8]).unwrap(), 1);
    assert!(s.is_dirty());
    assert_eq!(s.buffered_block_number(), 2);
    // Partition offset 512 is device block 3; the byte there is already 0,
    // so the write triggers a flush of block 2 and stays clean.
    assert_eq!(s.seek(SeekFrom::Start(512)).unwrap(), 512);
    assert_eq!(s.write(&[0u8]).unwrap(), 1);
    assert!(!s.is_dirty());
    assert_eq!(s.buffered_block_number(), 3);
    s.flush().unwrap();
    let (res, dev) = s.close();
    res.unwrap();
    assert_eq!(dev.write_count(), 1);
    assert_eq!(dev.peek(2, 0), Some(7u8));
    assert_eq!(dev.read_count(), 2);
}

#[test]
fn data_survives_reopen() {
    let mut s = open_stream(4, 4, 4);
    assert_eq!(s.write(&[1u8, 2u8, 3u8, 4u8, 5u8, 6u8]).unwrap(), 6);
    let (res, dev) = s.close();
    res.unwrap();
    let mut s2 = OffsetScsiDevice::new(dev, 4);
    let mut out: Vec<u8> = vec![0u8; 6];
    assert_eq!(s2.read(&mut out).unwrap(), 6);
    assert_eq!(out, vec![1u8, 2u8, 3u8, 4u8, 5u8, 6u8]);
}

#[test]
fn seek_modes_and_invalid_backward_seek() {
    let mut s = open_stream(16, 4, 0);
    assert_eq!(s.seek(SeekFrom::Start(10)).unwrap(), 10);
    assert_eq!(s.position(), 10);
    assert_eq!(s.seek(SeekFrom::Current(5)).unwrap(), 15);
    assert_eq!(s.seek(SeekFrom::Current(-15)).unwrap(), 0);
    assert_eq!(s.seek(SeekFrom::Current(3)).unwrap(), 3);
    assert_eq!(s.seek(SeekFrom::Current(-4)), Err(StreamError::InvalidSeek));
    assert_eq!(s.position(), 3);
}

#[test]
fn device_fault_surfaces_as_device_error() {
    let mut dev = MemDevice::new(8, 2);
    dev.inject_fault(DeviceError::Other);
    let mut s = OffsetScsiDevice::new(dev, 0);
    let mut out: Vec<u8> = vec![0u8];
    assert_eq!(s.read(&mut out), Err(StreamError::Device));
    // The fault was consumed; the next read works.
    assert_eq!(s.read(&mut out).unwrap(), 1);
}

#[test]
fn buffer_too_small_fault_is_distinct() {
    let mut dev = MemDevice::new(8, 2);
    dev.inject_fault(DeviceError::BufferTooSmall { expected: 8, actual: 0 });
    let mut s = OffsetScsiDevice::new(dev, 0);
    let mut out: Vec<u8> = vec![0u8];
    assert_eq!(
        s.read(&mut out),
        Err(StreamError::BufferTooSmall { expected: 8, actual: 0 })
    );
}

#[test]
fn failed_flush_stays_dirty() {
    let mut dev = MemDevice::new(8, 2);
    // Let the fill's read pass and fail the flush's write.
    dev.inject_fault_after(DeviceError::Other, 1);
    let mut s = OffsetScsiDevice::new(dev, 0);
    assert_eq!(s.write(&[3u8]).unwrap(), 1);
    assert!(s.is_dirty());
    assert_eq!(s.flush(), Err(StreamError::Device));
    assert!(s.is_dirty());
    // The fault was consumed; the retried flush goes through.
    s.flush().unwrap();
    assert!(!s.is_dirty());
    let (res, dev) = s.close();
    res.unwrap();
    assert_eq!(dev.peek(0, 0), Some(3u8));
    assert_eq!(dev.write_count(), 2);
}

#[test]
fn empty_buffers_move_nothing() {
    let mut s = open_stream(8, 2, 0);
    let mut out: Vec<u8> = Vec::new();
    assert_eq!(s.read(&mut out).unwrap(), 0);
    assert_eq!(s.write(&[]).unwrap(), 0);
    assert_eq!(s.position(), 0);
}

#[test]
fn multi_block_read_crosses_boundaries() {
    let mut s = open_stream(4, 4, 0);
    let pattern: Vec<u8> = (1u8..=12u8).collect();
    assert_eq!(s.write(&pattern).unwrap(), 12);
    assert_eq!(s.seek(SeekFrom::Start(2)).unwrap(), 2);
    let mut out: Vec<u8> = vec![0u8; 8];
    assert_eq!(s.read(&mut out).unwrap(), 8);
    assert_eq!(out, vec![3u8, 4u8, 5u8, 6u8, 7u8, 8u8, 9u8, 10u8]);
    let (res, dev) = s.close();
    res.unwrap();
    // Blocks 0 and 1 were flushed as the writes crossed out of them, and
    // block 2 when the read seeked back into block 0.
    assert_eq!(dev.write_count(), 3);
    assert_eq!(dev.peek(2, 3), Some(12u8));
}

#[test]
fn close_surfaces_flush_failure() {
    let mut dev = MemDevice::new(8, 2);
    // Let the fill's read pass and fail the disposal flush.
    dev.inject_fault_after(DeviceError::Other, 1);
    let mut s = OffsetScsiDevice::new(dev, 0);
    assert_eq!(s.write(&[3u8]).unwrap(), 1);
    let (res, dev) = s.close();
    assert_eq!(res, Err(StreamError::Device));
    assert_eq!(dev.peek(0, 0), Some(0u8));
}

#[test]
fn translator_exact_values() {
    let mut s = open_stream(512, 8, 1024);
    assert_eq!(s.seek(SeekFrom::Start(520)).unwrap(), 520);
    assert_eq!(s.raw_idx(), 1544);
    assert_eq!(s.cur_block_raw_idx(), 1536);
    assert_eq!(s.cur_block_number(), 3);
    assert_eq!(s.offset_from_cur_block(), 8);
}

#[test]
fn fill_buf_and_consume() {
    let mut s = open_stream(16, 2, 0);
    assert_eq!(s.seek(SeekFrom::Start(5)).unwrap(), 5);
    // Eleven bytes of the first block lie at and beyond offset 5.
    assert_eq!(s.fill_buf().unwrap(), 11);
    assert!(s.has_resident_block());
    assert_eq!(s.buffered_block_number(), 0);
    s.consume(11);
    assert_eq!(s.position(), 16);
    assert_eq!(s.fill_buf().unwrap(), 16);
    assert_eq!(s.buffered_block_number(), 1);
    // Past the last block the fill reports end of medium.
    s.consume(16);
    assert_eq!(s.fill_buf().unwrap(), 0);
}

#[test]
fn buffered_block_start_address() {
    let mut s = open_stream(512, 8, 1024);
    assert_eq!(s.write(&[1u8]).unwrap(), 1);
    assert_eq!(s.buffered_block_number(), 2);
    assert_eq!(s.buffered_block_raw_idx(), 1024);
}
