use bao_fsm::padding::{
    base2_padded, padded_size, piece_size, ByteSource, ReadWithTrailingZeros, SliceSource,
    ZeroPaddingReader,
};

#[test]
fn three_bytes_are_padded_to_four() {
    let mut reader = base2_padded(SliceSource::new(vec![1, 2, 3]), 3);
    let mut buf = [9u8; 3];
    assert_eq!(reader.read(&mut buf), Ok(3));
    assert_eq!(buf, [1, 2, 3]);
    assert_eq!(reader.read(&mut buf), Ok(1));
    assert_eq!(buf[0], 0);
    assert_eq!(reader.read(&mut buf), Ok(0));
}

#[test]
fn base2_padding_crosses_buffers() {
    let mut reader = base2_padded(SliceSource::new(vec![7; 5]), 5);
    let mut out: Vec<u8> = Vec::new();
    let mut buf = [0u8; 2];
    let mut n = reader.read(&mut buf).unwrap();
    while n > 0 {
        out.extend_from_slice(&buf[..n]);
        n = reader.read(&mut buf).unwrap();
    }
    assert_eq!(out, vec![7, 7, 7, 7, 7, 0, 0, 0]);
}

#[test]
fn data_shorter_than_its_size_is_not_padded() {
    let mut reader = base2_padded(SliceSource::new(vec![7; 2]), 5);
    let mut buf = [0u8; 8];
    assert_eq!(reader.read(&mut buf), Ok(2));
    assert_eq!(reader.read(&mut buf), Ok(0));
    assert_eq!(reader.read(&mut buf), Ok(0));
}

#[test]
fn padded_sizes_are_the_next_powers_of_two() {
    assert_eq!(padded_size(0), 1);
    assert_eq!(padded_size(1), 2);
    assert_eq!(padded_size(2), 4);
    assert_eq!(padded_size(3), 4);
    assert_eq!(padded_size(4), 8);
    assert_eq!(padded_size(1023), 1024);
    assert_eq!(padded_size(1024), 2048);
    assert_eq!(padded_size(0x7fff_ffff_ffff_ffff), 0x8000_0000_0000_0000);
}

#[test]
fn piece_sizes() {
    assert_eq!(piece_size(5, false), 8);
    assert_eq!(piece_size(5, true), 16);
    assert_eq!(piece_size(0, true), 2);
}

#[test]
fn slice_source_gives_its_bytes() {
    let mut source = SliceSource::new(vec![1, 2, 3]);
    let mut buf = [0u8; 2];
    assert_eq!(source.read(&mut buf), Ok(2));
    assert_eq!(buf, [1, 2]);
    assert_eq!(source.read(&mut buf), Ok(1));
    assert_eq!(buf[0], 3);
    assert_eq!(source.read(&mut buf), Ok(0));
}

#[test]
fn zero_padding_appends_zeros() {
    let mut reader = ZeroPaddingReader::new(SliceSource::new(vec![1, 2, 3]), 4);
    let mut buf = [9u8; 3];
    assert_eq!(reader.read(&mut buf), Ok(3));
    assert_eq!(buf, [1, 2, 3]);
    buf = [9u8; 3];
    assert_eq!(reader.read(&mut buf), Ok(3));
    assert_eq!(buf, [0, 0, 0]);
    buf = [9u8; 3];
    assert_eq!(reader.read(&mut buf), Ok(1));
    assert_eq!(buf, [0, 9, 9]);
    assert_eq!(reader.read(&mut buf), Ok(0));
}

#[test]
fn zero_padding_loses_nothing_to_an_empty_buffer() {
    let mut reader = ZeroPaddingReader::new(SliceSource::new(vec![1, 2, 3]), 2);
    let mut none: [u8; 0] = [];
    assert_eq!(reader.read(&mut none), Ok(0));
    let mut buf = [9u8; 4];
    assert_eq!(reader.read(&mut buf), Ok(3));
    assert_eq!(buf, [1, 2, 3, 9]);
    assert_eq!(reader.read(&mut none), Ok(0));
    buf = [9u8; 4];
    assert_eq!(reader.read(&mut buf), Ok(2));
    assert_eq!(buf, [0, 0, 9, 9]);
    assert_eq!(reader.read(&mut none), Ok(0));
    assert_eq!(reader.read(&mut buf), Ok(0));
}

#[test]
fn trailing_zeros_lose_nothing_to_an_empty_buffer() {
    let mut reader = ReadWithTrailingZeros::new(SliceSource::new(vec![1, 2, 3]), 2);
    let mut none: [u8; 0] = [];
    assert_eq!(reader.read(&mut none), Ok(0));
    let mut buf = [9u8; 4];
    assert_eq!(reader.read(&mut buf), Ok(3));
    assert_eq!(buf, [1, 2, 3, 9]);
    assert_eq!(reader.read(&mut none), Ok(0));
    buf = [9u8; 4];
    assert_eq!(reader.read(&mut buf), Ok(2));
    assert_eq!(buf, [0, 0, 9, 9]);
}

#[test]
fn third_read_of_trailing_zeros() {
    let mut reader = ReadWithTrailingZeros::new(SliceSource::new(vec![1, 2, 3]), 5);
    let mut buf = [9u8; 3];
    assert_eq!(reader.read(&mut buf), Ok(3));
    assert_eq!(buf, [1, 2, 3]);
    assert_eq!(reader.read(&mut buf), Ok(3));
    assert_eq!(buf, [0, 0, 0]);
    buf = [9u8; 3];
    assert_eq!(reader.read(&mut buf), Ok(2));
    assert_eq!(buf, [0, 0, 9]);
    assert_eq!(reader.read(&mut buf), Ok(0));
}

#[test]
fn the_two_zero_readers_agree() {
    for count in [0usize, 1, 5] {
        let data: Vec<u8> = (1..8u8).collect();
        let mut a = ZeroPaddingReader::new(SliceSource::new(data.clone()), count);
        let mut b = ReadWithTrailingZeros::new(SliceSource::new(data), count);
        for len in [3usize, 1, 2, 4, 2, 1, 6, 1] {
            let mut x = vec![9u8; len];
            let mut y = vec![9u8; len];
            assert_eq!(a.read(&mut x), b.read(&mut y));
            assert_eq!(x, y);
        }
    }
}

#[test]
fn readers_can_be_nested() {
    let inner = ZeroPaddingReader::new(SliceSource::new(vec![1, 2]), 1);
    let mut reader = base2_padded(inner, 3);
    assert_eq!(reader.read_to_end(), Ok(vec![1, 2, 0, 0]));
}

#[test]
fn padded_data_is_read_to_the_end() {
    let data: Vec<u8> = (0..3000u32).map(|i| (i % 251) as u8).collect();
    let mut reader = base2_padded(SliceSource::new(data.clone()), 3000);
    let mut expected = data;
    expected.resize(4096, 0);
    assert_eq!(reader.read_to_end(), Ok(expected));
    assert_eq!(reader.read_to_end(), Ok(vec![]));
}

#[test]
fn trailing_zeros_are_appended() {
    let mut reader = ReadWithTrailingZeros::new(SliceSource::new(vec![1, 2]), 5);
    let mut buf = [9u8; 4];
    assert_eq!(reader.read(&mut buf), Ok(2));
    assert_eq!(buf, [1, 2, 9, 9]);
    buf = [9u8; 4];
    assert_eq!(reader.read(&mut buf), Ok(4));
    assert_eq!(buf, [0, 0, 0, 0]);
    buf = [9u8; 4];
    assert_eq!(reader.read(&mut buf), Ok(1));
    assert_eq!(buf, [0, 9, 9, 9]);
    assert_eq!(reader.read(&mut buf), Ok(0));
}

#[test]
fn no_trailing_zeros() {
    let mut reader = ReadWithTrailingZeros::new(SliceSource::new(vec![1]), 0);
    let mut buf = [9u8; 4];
    assert_eq!(reader.read(&mut buf), Ok(1));
    assert_eq!(reader.read(&mut buf), Ok(0));
}
