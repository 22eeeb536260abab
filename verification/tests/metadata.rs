use p2p_file_system::metadata_parser::{MetadataError, MetadataParser};

fn lines(text: &[&str]) -> Vec<Option<String>> {
    text.iter().map(|l| Some(l.to_string())).collect()
}

#[test]
fn metadata_new_keeps_path() {
    let p = MetadataParser::new("files/movie.p2p");
    assert_eq!(p.metadata_file_path, "files/movie.p2p");
}

#[test]
fn metadata_is_read() {
    let p = MetadataParser::new("m.p2p");
    assert_eq!(
        p.parse(&lines(&["  movie.mp4 ", " 10", "5 ", "ignored"])),
        Ok(("movie.mp4".to_string(), 10, 5))
    );
}

#[test]
fn metadata_defaults() {
    let p = MetadataParser::new("m.p2p");
    assert_eq!(p.parse(&lines(&[])), Ok((String::new(), 0, 0)));
    assert_eq!(p.parse(&lines(&["a"])), Ok(("a".to_string(), 0, 0)));
    assert_eq!(p.parse(&vec![Some("a".to_string()), None, Some("3".to_string())]), Ok(("a".to_string(), 0, 3)));
}

#[test]
fn metadata_errors() {
    let p = MetadataParser::new("m.p2p");
    assert_eq!(p.parse(&lines(&["a", "256", "1"])), Err(MetadataError::BadChunkCount));
    assert_eq!(p.parse(&lines(&["a", "x", "y"])), Err(MetadataError::BadChunkCount));
    assert_eq!(p.parse(&lines(&["a", "2", "-1"])), Err(MetadataError::BadTtl));
}
