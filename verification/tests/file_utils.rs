use p2p_file_system::chunk_creator::ChunkCreator;
use p2p_file_system::file_utils::{ChunkData, FileUtils};

fn utils() -> FileUtils {
    FileUtils::new(3, "/tmp/nodes/3".to_string())
}

fn names(v: &[&str]) -> Vec<String> {
    v.iter().map(|s| s.to_string()).collect()
}

#[test]
fn names_of_folders_and_chunk_files() {
    assert_eq!(FileUtils::folder_name(0), "nodes/0");
    assert_eq!(FileUtils::folder_name(12345), "nodes/12345");
    assert_eq!(FileUtils::chunk_file_name("movie.mp4", 0), "movie.mp4.ch0");
    assert_eq!(FileUtils::chunk_file_name("movie.mp4", 255), "movie.mp4.ch255");
    let u = utils();
    assert_eq!(u.node_id, 3);
    assert_eq!(u.folder_path, "/tmp/nodes/3");
}

#[test]
fn chunks_in_folder_are_sorted_and_unique() {
    let u = utils();
    let entries = names(&[
        "movie.mp4.ch9",
        "movie.mp4.ch1",
        "movie.mp4.ch01",
        "movie.mp4.ch300",
        "movie.mp4.chx",
        "other.ch2",
        "movie.mp4",
        "movie.mp4.ch4.movie.mp4.ch5",
    ]);
    // The last entry splits into "", "4." and "5": its second piece is not a number.
    assert_eq!(u.get_chunks_from_folder("movie.mp4", &entries), vec![1, 9]);
    assert_eq!(u.get_chunks_from_folder("none", &entries), Vec::<u8>::new());
}

#[test]
fn chunk_data_keeps_readable_chunks() {
    let u = utils();
    let contents = vec![Some(vec![1, 2]), None, Some(vec![])];
    let got = u.get_chunks_data(&[4, 5, 6], &contents);
    assert_eq!(got.len(), 2);
    assert_eq!((got[0].chunk_id, got[0].data.clone()), (4, vec![1, 2]));
    assert_eq!((got[1].chunk_id, got[1].data.clone()), (6, vec![]));
}

#[test]
fn saved_chunks_are_joined_in_chunk_order() {
    let u = utils();
    let cs = vec![
        ChunkData { chunk_id: 2, data: vec![5, 6] },
        ChunkData { chunk_id: 0, data: vec![1] },
        ChunkData { chunk_id: 1, data: vec![2, 3] },
        ChunkData { chunk_id: 0, data: vec![9] },
    ];
    assert_eq!(u.save_chunks(&cs), vec![1, 9, 2, 3, 5, 6]);
    assert_eq!(u.save_chunks(&[]), Vec::<u8>::new());
}

#[test]
fn fetched_chunk_files_rebuild_the_file() {
    let data: Vec<u8> = (0u8..23).collect();
    let creator = ChunkCreator::new("f.bin".to_string(), 5);
    let pieces = creator.create_chunks(&data);
    // The chunks arrive from several nodes, out of order.
    let order = [3usize, 0, 4, 1, 2];
    let received: Vec<ChunkData> = order
        .iter()
        .map(|&i| ChunkData { chunk_id: i as u8, data: pieces[i].clone() })
        .collect();
    assert_eq!(utils().save_chunks(&received), data);
    // Every chunk file is listed under its number.
    let names: Vec<String> = (0u8..5).map(|i| FileUtils::chunk_file_name("f.bin", i)).collect();
    assert_eq!(utils().get_chunks_from_folder("f.bin", &names), vec![0, 1, 2, 3, 4]);
    let mut shuffled = names.clone();
    shuffled.reverse();
    assert_eq!(ChunkCreator::read_chunks("f.bin", &shuffled), names);
}
