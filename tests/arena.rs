use circular_buffer::codec::{decode_length, encode_header, fits_header, is_ready, mark_ready};
use circular_buffer::{
    align_ptr_to_usize, BufferAddValueError, BufferGetValueError, CircullarBuffer, BUFFER_SIZE,
};

fn put(buf: &mut CircullarBuffer, bytes: &[u8]) -> circular_buffer::ReservedMemory {
    let h = buf.reserve(bytes.len()).expect("reservation refused");
    h.write(buf, 0, bytes);
    h
}

fn take(buf: &mut CircullarBuffer) -> Vec<u8> {
    let v = buf.get_value().expect("nothing to read");
    let out = v.get_ref(buf).to_vec();
    assert_eq!(out.len(), v.get_size());
    v.finish(buf);
    out
}

#[test]
fn reverse_finish_keeps_reservation_order() {
    let mut buf = CircullarBuffer::with_capacity(64);
    let a = put(&mut buf, b"AAAAAAAAAA");
    let b = put(&mut buf, b"BBBBBBBBBBBBBBBBBBBB");
    b.finish(&mut buf);
    assert!(buf.isEmpty());
    assert!(matches!(buf.get_value(), Err(BufferGetValueError::NoValueInBuffer)));
    a.finish(&mut buf);
    assert_eq!(take(&mut buf), b"AAAAAAAAAA".to_vec());
    assert_eq!(take(&mut buf), b"BBBBBBBBBBBBBBBBBBBB".to_vec());
    assert!(buf.isEmpty());
}

#[test]
fn fresh_arena_is_empty() {
    let mut buf = CircullarBuffer::new();
    assert!(buf.isEmpty());
    assert_eq!(buf.get_value().err(), Some(BufferGetValueError::NoValueInBuffer));
    assert_eq!(buf.cursors(), (0, 0, 0, 0));
}

#[test]
fn empty_again_after_everything_is_consumed() {
    let mut buf = CircullarBuffer::with_capacity(128);
    for n in 1..4usize {
        let h = put(&mut buf, &vec![n as u8; n]);
        h.finish(&mut buf);
    }
    for n in 1..4usize {
        assert_eq!(take(&mut buf), vec![n as u8; n]);
    }
    assert_eq!(buf.get_value().err(), Some(BufferGetValueError::NoValueInBuffer));
}

#[test]
fn reservation_beyond_capacity_is_refused() {
    let mut buf = CircullarBuffer::with_capacity(64);
    // 8 header bytes and 40 payload bytes: 48 of 64.
    let a = buf.reserve(40).unwrap();
    // 8 + 16 more would need 72 bytes.
    assert_eq!(buf.reserve(9).err(), Some(BufferAddValueError::SizeTooBig));
    assert_eq!(buf.reserve(100).err(), Some(BufferAddValueError::SizeTooBig));
    // 8 + 8 more fill the lap exactly.
    let b = buf.reserve(8).unwrap();
    assert_eq!(b.get_size(), 8);
    assert_eq!(buf.reserve(0).err(), Some(BufferAddValueError::SizeTooBig));
    a.finish(&mut buf);
    b.finish(&mut buf);
    // Committed but unreclaimed records still hold their space.
    assert_eq!(buf.reserve(0).err(), Some(BufferAddValueError::SizeTooBig));
    let v = buf.get_value().unwrap();
    assert_eq!(v.get_size(), 40);
    assert_eq!(buf.reserve(0).err(), Some(BufferAddValueError::SizeTooBig));
    v.finish(&mut buf);
    // The 48 bytes freed take a 40-byte record, filling the lap again.
    assert!(buf.reserve(40).is_ok());
    assert_eq!(buf.reserve(0).err(), Some(BufferAddValueError::SizeTooBig));
}

#[test]
fn record_filling_the_whole_lap_is_admitted() {
    let mut buf = CircullarBuffer::with_capacity(64);
    let data: Vec<u8> = (100..156u8).collect();
    let h = put(&mut buf, &data);
    assert_eq!(buf.cursors(), (0, 0, 0, 0));
    assert!(buf.isEmpty());
    assert_eq!(buf.reserve(0).err(), Some(BufferAddValueError::SizeTooBig));
    h.finish(&mut buf);
    assert!(!buf.isEmpty());
    assert_eq!(take(&mut buf), data);
    assert!(buf.isEmpty());
    assert_eq!(buf.get_value().err(), Some(BufferGetValueError::NoValueInBuffer));
    // The lap is free again.
    let h = put(&mut buf, &data);
    h.finish(&mut buf);
    assert_eq!(take(&mut buf), data);
}

#[test]
fn full_lap_record_crossing_the_lap_end() {
    let mut buf = CircullarBuffer::with_capacity(64);
    let h = put(&mut buf, &[7u8; 8]);
    h.finish(&mut buf);
    assert_eq!(take(&mut buf), vec![7u8; 8]);
    assert_eq!(buf.cursors(), (16, 16, 16, 16));
    let data: Vec<u8> = (0..56u8).map(|x| x ^ 0x5a).collect();
    let h = put(&mut buf, &data);
    assert_eq!(h.payload_offset(), 24);
    assert_eq!(h.get_ref(&buf), &data[..]);
    h.finish(&mut buf);
    assert_eq!(take(&mut buf), data);
    assert_eq!(buf.cursors(), (16, 16, 16, 16));
}

#[test]
fn default_arena_round_trips_a_full_lap() {
    let mut buf = CircullarBuffer::new();
    let data: Vec<u8> = (0..BUFFER_SIZE - 8).map(|j| (j % 251) as u8).collect();
    let h = put(&mut buf, &data);
    h.finish(&mut buf);
    assert_eq!(take(&mut buf), data);
    assert_eq!(buf.get_value().err(), Some(BufferGetValueError::NoValueInBuffer));
}

#[test]
fn length_with_status_bit_is_refused() {
    let mut buf = CircullarBuffer::new();
    assert_eq!(buf.reserve(usize::MAX).err(), Some(BufferAddValueError::SizeTooBig));
    assert_eq!(buf.reserve(BUFFER_SIZE).err(), Some(BufferAddValueError::SizeTooBig));
    assert!(buf.isEmpty());
}

#[test]
fn payloads_are_word_aligned() {
    let mut buf = CircullarBuffer::with_capacity(256);
    for size in [1usize, 3, 8, 13, 0, 21] {
        let h = buf.reserve(size).unwrap();
        assert_eq!(h.payload_offset() % 8, 0);
        h.finish(&mut buf);
        let v = buf.get_value().unwrap();
        assert_eq!(v.payload_offset() % 8, 0);
        assert_eq!(v.get_size(), size);
        v.finish(&mut buf);
    }
}

#[test]
fn round_trip_over_many_laps() {
    let mut buf = CircullarBuffer::with_capacity(128);
    let mut expected = Vec::new();
    for round in 0..50usize {
        let mut batch = Vec::new();
        for k in 0..3usize {
            let len = (round * 7 + k * 5) % 23;
            let bytes: Vec<u8> = (0..len).map(|j| (round + k + j) as u8).collect();
            batch.push(put(&mut buf, &bytes));
            expected.push(bytes);
        }
        while let Some(h) = batch.pop() {
            h.finish(&mut buf);
        }
        while !buf.isEmpty() {
            let got = take(&mut buf);
            assert_eq!(got, expected.remove(0));
        }
    }
    assert!(expected.is_empty());
}

#[test]
fn record_crossing_the_lap_end_is_contiguous() {
    let mut buf = CircullarBuffer::with_capacity(64);
    // Move every cursor to offset 48.
    let h = put(&mut buf, &[9u8; 40]);
    h.finish(&mut buf);
    assert_eq!(take(&mut buf), vec![9u8; 40]);
    assert_eq!(buf.cursors(), (48, 48, 48, 48));
    // Header at 48, payload 56..80 runs past the end of the lap at 64.
    let data: Vec<u8> = (0..24u8).collect();
    let h = put(&mut buf, &data);
    assert_eq!(h.payload_offset(), 56);
    assert_eq!(h.get_ref(&buf), &data[..]);
    h.finish(&mut buf);
    assert_eq!(buf.cursors().3, 16);
    let v = buf.get_value().unwrap();
    assert_eq!(v.get_ref(&buf), &data[..]);
    v.finish(&mut buf);
    // The same record reserved without crossing the lap end reads the same.
    let mut plain = CircullarBuffer::with_capacity(64);
    let h = put(&mut plain, &data);
    h.finish(&mut plain);
    assert_eq!(take(&mut plain), data);
}


#[test]
fn space_is_reclaimed_in_consumption_order() {
    let mut buf = CircullarBuffer::with_capacity(64);
    let a = put(&mut buf, &[1u8; 16]);
    let b = put(&mut buf, &[2u8; 16]);
    a.finish(&mut buf);
    b.finish(&mut buf);
    let va = buf.get_value().unwrap();
    let vb = buf.get_value().unwrap();
    assert_eq!(vb.get_ref(&buf), &[2u8; 16][..]);
    // Releasing the later record first frees nothing.
    vb.finish(&mut buf);
    assert_eq!(buf.cursors().0, 0);
    assert_eq!(buf.reserve(24).err(), Some(BufferAddValueError::SizeTooBig));
    assert_eq!(va.get_ref(&buf), &[1u8; 16][..]);
    // Releasing the earlier one frees both.
    va.finish(&mut buf);
    assert_eq!(buf.cursors().0, 48);
    assert!(buf.reserve(24).is_ok());
}

#[test]
fn partial_writes_land_at_their_offsets() {
    let mut buf = CircullarBuffer::with_capacity(64);
    let h = buf.reserve(6).unwrap();
    h.write(&mut buf, 0, b"abcdef");
    h.write(&mut buf, 2, b"XY");
    assert_eq!(h.get_ref(&buf), b"abXYef");
    h.finish(&mut buf);
    assert_eq!(take(&mut buf), b"abXYef".to_vec());
}

#[test]
fn release_with_nothing_to_reclaim_changes_nothing() {
    let mut buf = CircullarBuffer::with_capacity(64);
    let h = put(&mut buf, b"xyz");
    h.finish(&mut buf);
    buf.release();
    assert_eq!(buf.cursors(), (0, 0, 16, 16));
    assert_eq!(take(&mut buf), b"xyz".to_vec());
    buf.release();
    assert_eq!(buf.cursors(), (16, 16, 16, 16));
}

#[test]
fn cursors_follow_the_records() {
    let mut buf = CircullarBuffer::with_capacity(64);
    let a = buf.reserve(10).unwrap();
    assert_eq!(buf.cursors(), (0, 0, 0, 24));
    let b = buf.reserve(20).unwrap();
    assert_eq!(buf.cursors(), (0, 0, 0, 56));
    b.finish(&mut buf);
    assert_eq!(buf.cursors(), (0, 0, 0, 56));
    a.finish(&mut buf);
    assert_eq!(buf.cursors(), (0, 0, 56, 56));
    let v = buf.get_value().unwrap();
    assert_eq!(buf.cursors(), (0, 24, 56, 56));
    v.finish(&mut buf);
    assert_eq!(buf.cursors(), (24, 24, 56, 56));
}

#[test]
fn alignment_rounds_up_to_words() {
    assert_eq!(align_ptr_to_usize(0), 0);
    assert_eq!(align_ptr_to_usize(1), 8);
    assert_eq!(align_ptr_to_usize(8), 8);
    assert_eq!(align_ptr_to_usize(13), 16);
}

#[test]
fn header_words_carry_length_and_status() {
    let w = encode_header(10);
    assert_eq!(decode_length(w), 10);
    assert!(!is_ready(w));
    let r = mark_ready(w);
    assert!(is_ready(r));
    assert_eq!(decode_length(r), 10);
    assert!(fits_header(1 << 62));
    assert!(!fits_header(1 << 63));
}

#[test]
fn finish_order_does_not_matter() {
    let mut one = CircullarBuffer::with_capacity(128);
    let mut two = CircullarBuffer::with_capacity(128);
    let a1 = put(&mut one, b"first");
    let b1 = put(&mut one, b"second record");
    let c1 = put(&mut one, b"3");
    let a2 = put(&mut two, b"first");
    let b2 = put(&mut two, b"second record");
    let c2 = put(&mut two, b"3");
    c1.finish(&mut one);
    a1.finish(&mut one);
    b1.finish(&mut one);
    b2.finish(&mut two);
    a2.finish(&mut two);
    c2.finish(&mut two);
    assert_eq!(one.cursors(), two.cursors());
    for expected in [&b"first"[..], &b"second record"[..], &b"3"[..]] {
        assert_eq!(take(&mut one), expected.to_vec());
        assert_eq!(take(&mut two), expected.to_vec());
    }
    assert_eq!(one.cursors(), two.cursors());
}

#[test]
fn alignment_near_the_top_of_the_address_range() {
    let top = usize::MAX - 7;
    assert_eq!(top % 8, 0);
    assert_eq!(align_ptr_to_usize(top), top);
    assert_eq!(align_ptr_to_usize(top - 5), top);
}

#[test]
fn fresh_record_reads_as_zeros() {
    let mut buf = CircullarBuffer::with_capacity(64);
    let h = buf.reserve(5).unwrap();
    assert_eq!(h.get_ref(&buf), &[0u8; 5][..]);
    h.finish(&mut buf);
    assert_eq!(take(&mut buf), vec![0u8; 5]);
}

#[test]
fn capacity_is_rounded_down_to_whole_words() {
    let mut buf = CircullarBuffer::with_capacity(70);
    let h = buf.reserve(56).unwrap();
    assert_eq!(buf.reserve(0).err(), Some(BufferAddValueError::SizeTooBig));
    h.finish(&mut buf);
    assert_eq!(take(&mut buf), vec![0u8; 56]);
    assert_eq!(buf.cursors(), (0, 0, 0, 0));
}
