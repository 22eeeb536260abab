use std::collections::HashMap;
use p2p_file_system::chunk_creator::ChunkCreator;
use p2p_file_system::chunker::{ChunkError, Chunker};

#[test]
fn test_chunker_reconstruction() {
    let original_content = b"Hello, this is a test file to be chunked and reconstructed!";
    let amount_of_chunks = 4;
    let chunker = Chunker::new(original_content.len() as u64, amount_of_chunks);

    let mut chunks = Vec::new();
    for i in 0..amount_of_chunks {
        chunks.push(chunker.get_chunk(original_content, i).unwrap());
    }

    let reconstructed_content = Chunker::construct_file(chunks);
    assert_eq!(
        reconstructed_content, original_content,
        "The reconstructed file content should match the original"
    );
}

#[test]
fn chunk_sizes_put_remainder_in_last_chunk() {
    let data: Vec<u8> = (0u8..10).collect();
    let chunker = Chunker::new(10, 3);
    assert_eq!(chunker.chunk_span(0), Ok((0, 3)));
    assert_eq!(chunker.chunk_span(1), Ok((3, 3)));
    assert_eq!(chunker.chunk_span(2), Ok((6, 4)));
    assert_eq!(chunker.get_chunk(&data, 2).unwrap(), vec![6, 7, 8, 9]);
    assert_eq!(chunker.get_chunk(&data, 1).unwrap(), vec![3, 4, 5]);
}

#[test]
fn chunk_position_out_of_bounds() {
    let data = vec![1u8, 2, 3];
    let chunker = Chunker::new(3, 2);
    assert_eq!(chunker.get_chunk(&data, 2), Err(ChunkError::OutOfBounds));
    let none = Chunker::new(3, 0);
    assert_eq!(none.get_chunk(&data, 0), Err(ChunkError::OutOfBounds));
}

#[test]
fn chunk_of_short_file() {
    let data = vec![1u8, 2, 3];
    let chunker = Chunker::new(10, 2);
    assert_eq!(chunker.get_chunk(&data, 0), Err(ChunkError::ShortFile));
}

#[test]
fn more_chunks_than_bytes() {
    let data = vec![7u8, 8];
    let chunker = Chunker::new(2, 5);
    let mut chunks = Vec::new();
    for i in 0..5 {
        chunks.push(chunker.get_chunk(&data, i).unwrap());
    }
    assert_eq!(chunks[0], Vec::<u8>::new());
    assert_eq!(chunks[4], vec![7, 8]);
    assert_eq!(Chunker::construct_file(chunks), data);
}

#[test]
fn create_chunks_rounds_chunk_size_up() {
    let data: Vec<u8> = (0u8..10).collect();
    let creator = ChunkCreator::new("files/a.txt".to_string(), 4);
    let pieces = creator.create_chunks(&data);
    assert_eq!(pieces, vec![vec![0, 1, 2], vec![3, 4, 5], vec![6, 7, 8], vec![9]]);
    let joined: Vec<u8> = pieces.concat();
    assert_eq!(joined, data);
}

#[test]
fn create_chunks_with_empty_last_pieces() {
    let data: Vec<u8> = (0u8..10).collect();
    let creator = ChunkCreator::new("f".to_string(), 6);
    let pieces = creator.create_chunks(&data);
    assert_eq!(pieces.len(), 6);
    assert_eq!(pieces[4], vec![8, 9]);
    assert_eq!(pieces[5], Vec::<u8>::new());
}

#[test]
fn create_no_chunks() {
    let creator = ChunkCreator::new("f".to_string(), 0);
    assert!(creator.create_chunks(&[1, 2, 3]).is_empty());
}

#[test]
fn read_chunks_orders_by_index() {
    let names: Vec<String> = vec![
        "a.txt.ch10".to_string(),
        "other.ch1".to_string(),
        "a.txt.ch2".to_string(),
        "a.txt.chx".to_string(),
        "a.txt.ch0".to_string(),
    ];
    let ordered = ChunkCreator::read_chunks("a.txt", &names);
    // "a.txt.chx" has no number after ".ch" and sorts as 0; it came before
    // "a.txt.ch0" in the listing, and the sort is stable.
    assert_eq!(
        ordered,
        vec![
            "a.txt.chx".to_string(),
            "a.txt.ch0".to_string(),
            "a.txt.ch2".to_string(),
            "a.txt.ch10".to_string()
        ]
    );
}

#[test]
fn chunks_fit_when_every_chunk_starts_in_the_file() {
    assert!(ChunkCreator::new("f".to_string(), 10).chunks_fit(100));
    assert!(ChunkCreator::new("f".to_string(), 6).chunks_fit(10));
    // One byte in ten chunks: chunk 2 would start past the end.
    assert!(!ChunkCreator::new("f".to_string(), 10).chunks_fit(1));
    assert!(ChunkCreator::new("f".to_string(), 0).chunks_fit(1));
    assert!(ChunkCreator::new("f".to_string(), 1).chunks_fit(0));
    assert!(ChunkCreator::new("f".to_string(), 2).chunks_fit(0));
}

#[test]
fn chunk_files_split_and_joined_back() {
    let data: Vec<u8> = (0u8..37).collect();
    let creator = ChunkCreator::new("files/data.bin".to_string(), 10);
    assert!(creator.chunks_fit(data.len()));
    let pieces = creator.create_chunks(&data);
    let mut folder: HashMap<String, Vec<u8>> = HashMap::new();
    for (i, p) in pieces.iter().enumerate() {
        folder.insert(
            p2p_file_system::file_utils::FileUtils::chunk_file_name("data.bin", i as u8),
            p.clone(),
        );
    }
    let mut listing: Vec<String> = folder.keys().cloned().collect();
    listing.push("notes.txt".to_string());
    let ordered = ChunkCreator::read_chunks("data.bin", &listing);
    let joined: Vec<u8> = ordered.iter().flat_map(|n| folder[n].clone()).collect();
    assert_eq!(joined, data);
}
