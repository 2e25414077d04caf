use read_buffer::ChunkedSource;
use read_buffer::ReadBuffer;
use read_buffer::ReadError;
use read_buffer::SliceSource;

#[test]
fn read_from_read() {
    let mut buffer: ReadBuffer<256> = ReadBuffer::new();
    let mut reader = SliceSource::new(vec![1, 1, 2, 3, 5, 8, 13, 21]);

    let result = buffer.read_from(&mut reader).unwrap();
    assert_eq!(result.len(), 8);
    assert_eq!(result, [1, 1, 2, 3, 5, 8, 13, 21]);
}

#[test]
fn read_from_read_partial() {
    let mut buffer: ReadBuffer<8> = ReadBuffer::new();
    let mut reader = SliceSource::new(vec![1, 2, 3, 4, 5, 6, 7, 8, 9, 10]);

    let result = buffer.read_from(&mut reader).unwrap();
    assert_eq!(result.len(), 8);
    assert_eq!(result, [1, 2, 3, 4, 5, 6, 7, 8]);

    let result = buffer.read_from(&mut reader).unwrap();
    assert_eq!(result.len(), 2);
    assert_eq!(result, [9, 10]);
}

#[test]
fn read_from_default_construction() {
    let buffer: Option<ReadBuffer<16>> = None;
    let mut buffer = buffer.unwrap_or_default();
    let mut reader = SliceSource::new(vec![4, 5, 45, 54]);

    let result = buffer.read_from(&mut reader).unwrap();
    assert_eq!(result.len(), 4);
    assert_eq!(result, [4, 5, 45, 54]);
}

#[test]
#[should_panic]
fn read_from_out_of_bounds_access() {
    let mut buffer: ReadBuffer<128> = ReadBuffer::new();
    let mut reader = SliceSource::new(vec![1, 2, 3, 4]);

    let Ok(result) = buffer.read_from(&mut reader) else {
        return; // don't panic so test will fail
    };
    result[4];
}

#[test]
#[should_panic]
fn read_from_out_of_bounds_with_empty_data() {
    let mut buffer: ReadBuffer<128> = ReadBuffer::new();
    let mut reader = SliceSource::new(Vec::new());

    let Ok(result) = buffer.read_from(&mut reader) else {
        return; // don't panic so test will fail
    };
    result[0];
}

#[test]
fn read_from_error_result() {
    let mut buffer: ReadBuffer<64> = ReadBuffer::new();
    let mut reader = ChunkedSource::new();
    reader.add_error(1);

    let error = buffer.read_from(&mut reader).err().unwrap();
    assert_eq!(error, ReadError::Other(1));
}
