use read_buffer::ChunkPredicate;
use read_buffer::ChunkedSource;
use read_buffer::KeepAll;
use read_buffer::ReadBuffer;
use read_buffer::ReadError;
use read_buffer::SliceSource;

struct Collector {
    received_chunks: Vec<Vec<u8>>,
}

impl ChunkPredicate for Collector {
    fn keep_reading(&mut self, chunk: &Vec<u8>) -> bool {
        self.received_chunks.push(chunk.clone());
        true
    }
}

struct StopAtZero {
    received_chunks: Vec<Vec<u8>>,
}

impl ChunkPredicate for StopAtZero {
    fn keep_reading(&mut self, chunk: &Vec<u8>) -> bool {
        self.received_chunks.push(chunk.clone());
        !chunk.contains(&0)
    }
}

#[test]
fn read_while_read() {
    let mut buffer: ReadBuffer<256> = ReadBuffer::new();
    let mut reader = SliceSource::new(vec![1, 1, 2, 3, 5, 8, 13, 21]);

    let result = buffer.read_while(&mut reader, &mut KeepAll).unwrap();
    assert_eq!(result.len(), 8);
    assert_eq!(result, [1, 1, 2, 3, 5, 8, 13, 21]);
}

#[test]
fn read_while_read_partial() {
    let mut buffer: ReadBuffer<8> = ReadBuffer::new();
    let mut reader = SliceSource::new(vec![1, 2, 3, 4, 5, 6, 7, 8, 9, 10]);

    let result = buffer.read_while(&mut reader, &mut KeepAll).unwrap();
    assert_eq!(result.len(), 8);
    assert_eq!(result, [1, 2, 3, 4, 5, 6, 7, 8]);

    let result = buffer.read_while(&mut reader, &mut KeepAll).unwrap();
    assert_eq!(result.len(), 2);
    assert_eq!(result, [9, 10]);
}

#[test]
fn read_while_read_chunks() {
    let mut buffer: ReadBuffer<64> = ReadBuffer::new();
    let mut reader = ChunkedSource::new();
    reader.add_chunk(vec![1]);
    reader.add_chunk(vec![2, 3]);
    reader.add_chunk(vec![3, 2, 1]);

    let mut collector = Collector { received_chunks: Vec::new() };

    let result = buffer.read_while(&mut reader, &mut collector).unwrap();

    assert_eq!(result.len(), 6);
    assert_eq!(result, [1, 2, 3, 3, 2, 1]);
    assert_eq!(collector.received_chunks, vec![vec![1], vec![2, 3], vec![3, 2, 1]]);
}

#[test]
fn read_chunks_conditional() {
    let mut buffer: ReadBuffer<64> = ReadBuffer::new();
    let mut reader = ChunkedSource::new();
    reader.add_chunk(vec![1, 2, 3]);
    reader.add_chunk(vec![4, 3, 2, 1]);
    reader.add_chunk(vec![1, 0, 1]);
    reader.add_chunk(vec![2, 3, 4, 5]);

    let mut collector = StopAtZero { received_chunks: Vec::new() };

    let result = buffer.read_while(&mut reader, &mut collector).unwrap();

    assert_eq!(result.len(), 10);
    assert_eq!(result, [1, 2, 3, 4, 3, 2, 1, 1, 0, 1]);
    assert_eq!(
        collector.received_chunks,
        vec![vec![1, 2, 3], vec![4, 3, 2, 1], vec![1, 0, 1]]
    );
}

#[test]
fn read_chunks_partial() {
    let mut buffer: ReadBuffer<8> = ReadBuffer::new();
    let mut reader = ChunkedSource::new();
    reader.add_chunk(vec![1, 2, 3]);
    reader.add_chunk(vec![4, 5, 6, 7, 8]);
    reader.add_chunk(vec![9, 10, 11, 12]);

    let mut collector = Collector { received_chunks: Vec::new() };

    let result = buffer.read_while(&mut reader, &mut collector).unwrap();

    assert_eq!(result.len(), 8);
    assert_eq!(result, [1, 2, 3, 4, 5, 6, 7, 8]);
    assert_eq!(collector.received_chunks, vec![vec![1, 2, 3], vec![4, 5, 6, 7, 8]]);

    collector.received_chunks.clear();

    let result = buffer.read_while(&mut reader, &mut collector).unwrap();

    assert_eq!(result.len(), 4);
    assert_eq!(result, [9, 10, 11, 12]);
    assert_eq!(collector.received_chunks, vec![vec![9, 10, 11, 12]]);
}

#[test]
fn read_while_error_result() {
    let mut buffer: ReadBuffer<64> = ReadBuffer::new();
    let mut reader = ChunkedSource::new();
    reader.add_error(1);

    let error = buffer.read_while(&mut reader, &mut KeepAll).err().unwrap();
    assert_eq!(error, ReadError::Other(1));
}
