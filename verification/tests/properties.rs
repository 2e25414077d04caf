use read_buffer::ChunkedSource;
use read_buffer::DynReadBuffer;
use read_buffer::KeepAll;
use read_buffer::ReadBuffer;
use read_buffer::ReadError;
use read_buffer::SliceSource;

#[test]
fn exactness_concatenation() {
    let data = vec![10, 20, 30, 40, 50, 60];
    let mut reader = SliceSource::new(data.clone());
    let mut buffer = DynReadBuffer::new();

    let mut collected: Vec<u8> = Vec::new();
    for _ in 0..3 {
        let part = buffer.read_bytes(&mut reader, 2).unwrap();
        assert_eq!(part.len(), 2);
        collected.extend_from_slice(&part);
    }
    assert_eq!(collected, data);
}

#[test]
fn zero_length_noop() {
    let mut reader = SliceSource::new(vec![9, 8, 7]);
    let mut buffer = DynReadBuffer::new();

    let result = buffer.read_bytes(&mut reader, 0).unwrap();
    assert!(result.is_empty());

    // the zero-length call consumed nothing from the source
    let result = buffer.read_bytes(&mut reader, 3).unwrap();
    assert_eq!(result, [9, 8, 7]);
}

#[test]
fn delimiter_as_first_byte() {
    let mut reader = SliceSource::new(vec![0, 1, 2]);
    let mut buffer = DynReadBuffer::new();

    let result = buffer.read_until(&mut reader, 0).unwrap();
    assert_eq!(result, [0]);

    let result = buffer.read_bytes(&mut reader, 2).unwrap();
    assert_eq!(result, [1, 2]);
}

#[test]
fn read_until_empty_source() {
    let mut reader = SliceSource::new(Vec::new());
    let mut buffer = DynReadBuffer::new();

    let error = buffer.read_until(&mut reader, 0).unwrap_err();
    assert_eq!(error, ReadError::UnexpectedEof);
}

#[test]
fn chunked_matches_single_shot() {
    let data = vec![7, 7, 3, 9, 2, 0, 4, 4];

    let mut single = SliceSource::new(data.clone());
    let mut buffer_a = DynReadBuffer::new();
    let expected = buffer_a.read_until(&mut single, 0).unwrap();

    let mut chunked = ChunkedSource::new();
    chunked.add_chunk(vec![7]);
    chunked.add_chunk(vec![7, 3]);
    chunked.add_chunk(vec![9, 2, 0]);
    chunked.add_chunk(vec![4, 4]);
    let mut buffer_b = DynReadBuffer::new();
    let result = buffer_b.read_until(&mut chunked, 0).unwrap();

    assert_eq!(result, expected);
    assert_eq!(result, [7, 7, 3, 9, 2, 0]);
}

#[test]
fn interrupt_transparency() {
    let mut plain = ChunkedSource::new();
    plain.add_chunk(vec![5, 6]);
    plain.add_chunk(vec![7, 0, 8]);
    let mut buffer_a = DynReadBuffer::new();
    let undisturbed = buffer_a.read_until(&mut plain, 0).unwrap();

    let mut interrupted = ChunkedSource::new();
    interrupted.add_chunk(vec![5, 6]);
    interrupted.add_interrupt();
    interrupted.add_chunk(vec![7, 0, 8]);
    let mut buffer_b = DynReadBuffer::new();
    let result = buffer_b.read_until(&mut interrupted, 0).unwrap();

    assert_eq!(result, undisturbed);
    assert_eq!(result, [5, 6, 7, 0]);
}

#[test]
fn read_bytes_continues_after_interrupt() {
    let mut reader = ChunkedSource::new();
    reader.add_chunk(vec![1, 2]);
    reader.add_interrupt();
    reader.add_chunk(vec![3, 4]);
    let mut buffer = DynReadBuffer::new();

    let result = buffer.read_bytes(&mut reader, 4).unwrap();
    assert_eq!(result, [1, 2, 3, 4]);
}

#[test]
fn mixed_mode_continuation() {
    let mut reader = SliceSource::new(vec![1, 2, 3, 4, 0, 5, 6, 7, 8]);
    let mut buffer = DynReadBuffer::new();

    let result = buffer.read_until(&mut reader, 0).unwrap();
    assert_eq!(result, [1, 2, 3, 4, 0]);

    let result = buffer.read_bytes(&mut reader, 4).unwrap();
    assert_eq!(result, [5, 6, 7, 8]);
}

#[test]
fn read_from_zero_capacity() {
    let mut buffer: ReadBuffer<0> = ReadBuffer::new();
    let mut reader = SliceSource::new(vec![1, 2, 3]);

    let result = buffer.read_from(&mut reader).unwrap();
    assert!(result.is_empty());

    // nothing was consumed: a sized buffer still sees all the data
    let mut sized: ReadBuffer<4> = ReadBuffer::new();
    let result = sized.read_from(&mut reader).unwrap();
    assert_eq!(result, [1, 2, 3]);
}

#[test]
fn read_from_passes_interrupt_through() {
    // the fixed buffer performs exactly one read and passes every error on,
    // the transient kind included
    let mut buffer: ReadBuffer<8> = ReadBuffer::new();
    let mut reader = ChunkedSource::new();
    reader.add_interrupt();
    reader.add_chunk(vec![1, 2]);

    let error = buffer.read_from(&mut reader).unwrap_err();
    assert_eq!(error, ReadError::Interrupted);

    let result = buffer.read_from(&mut reader).unwrap();
    assert_eq!(result, [1, 2]);
}

#[test]
fn read_while_stops_at_eos() {
    let mut buffer: ReadBuffer<16> = ReadBuffer::new();
    let mut reader = ChunkedSource::new();
    reader.add_chunk(vec![1, 2, 3]);

    let result = buffer.read_while(&mut reader, &mut KeepAll).unwrap();
    assert_eq!(result, [1, 2, 3]);
}

#[test]
fn queued_errors_come_in_order() {
    let mut reader = ChunkedSource::new();
    reader.add_error(5);
    reader.add_error(9);
    reader.add_chunk(vec![4]);
    let mut buffer = DynReadBuffer::new();

    let error = buffer.read_bytes(&mut reader, 1).unwrap_err();
    assert_eq!(error, ReadError::Other(5));

    let error = buffer.read_bytes(&mut reader, 1).unwrap_err();
    assert_eq!(error, ReadError::Other(9));

    let result = buffer.read_bytes(&mut reader, 1).unwrap();
    assert_eq!(result, [4]);
}
