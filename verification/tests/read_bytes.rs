use read_buffer::ChunkedSource;
use read_buffer::DynReadBuffer;
use read_buffer::ReadError;
use read_buffer::SliceSource;

#[test]
fn read_bytes_read() {
    let mut reader = SliceSource::new(vec![1, 2, 3, 4, 5, 6, 7, 8]);
    let mut buffer = DynReadBuffer::new();

    let result = buffer.read_bytes(&mut reader, 8).unwrap();
    assert_eq!(result.len(), 8);
    assert_eq!(result, [1, 2, 3, 4, 5, 6, 7, 8]);
}

#[test]
fn read_bytes_read_partial() {
    let mut reader = SliceSource::new(vec![5, 4, 3, 2, 1]);
    let mut buffer = DynReadBuffer::new();

    let result = buffer.read_bytes(&mut reader, 3).unwrap();
    assert_eq!(result.len(), 3);
    assert_eq!(result, [5, 4, 3]);

    let result = buffer.read_bytes(&mut reader, 2).unwrap();
    assert_eq!(result.len(), 2);
    assert_eq!(result, [2, 1]);
}

#[test]
fn read_nothing() {
    let mut reader = SliceSource::new(vec![1, 2, 3]);
    let mut buffer = DynReadBuffer::new();

    let result = buffer.read_bytes(&mut reader, 0).unwrap();
    assert!(result.is_empty());

    let result = buffer.read_bytes(&mut reader, 1).unwrap();
    assert_eq!(result, [1]);

    let result = buffer.read_bytes(&mut reader, 0).unwrap();
    assert!(result.is_empty());

    let result = buffer.read_bytes(&mut reader, 2).unwrap();
    assert_eq!(result, [2, 3]);

    let result = buffer.read_bytes(&mut reader, 0).unwrap();
    assert!(result.is_empty());
}

#[test]
fn with_capacity() {
    let mut reader = ChunkedSource::new();
    reader.add_chunk(vec![1]);
    reader.add_chunk(vec![5; 2048]);
    let mut buffer = DynReadBuffer::with_capacity(2048);

    let result = buffer.read_bytes(&mut reader, 1).unwrap();
    assert_eq!(result, [1]);

    let result = buffer.read_bytes(&mut reader, 2048).unwrap();
    assert_eq!(result, [5; 2048]);
}

#[test]
fn read_bytes_unexpected_eof() {
    let mut reader = SliceSource::new(vec![1, 2, 4, 8, 16]);
    let mut buffer = DynReadBuffer::new();

    let error = buffer.read_bytes(&mut reader, 8).unwrap_err();
    assert_eq!(error, ReadError::UnexpectedEof);

    let result = buffer.read_bytes(&mut reader, 5).unwrap();
    assert_eq!(result, [1, 2, 4, 8, 16]);

    let error = buffer.read_bytes(&mut reader, 1).unwrap_err();
    assert_eq!(error, ReadError::UnexpectedEof);
}

#[test]
fn read_bytes_error_result() {
    let mut reader = ChunkedSource::new();
    reader.add_error(1);
    let mut buffer = DynReadBuffer::new();

    let error = buffer.read_bytes(&mut reader, 1).unwrap_err();
    assert_eq!(error, ReadError::Other(1));
}
