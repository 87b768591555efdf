use onebrc::split::split_map;

fn lengths(chunks: &[&[u8]]) -> Vec<usize> {
    chunks.iter().map(|chunk| chunk.len()).collect()
}

#[test]
fn the_ranges_follow_each_other_and_cover_the_file() {
    let file = b"Oslo;12.3\nBergen;4.0\nRome;30.1\nBerlin;-2.5\nParis;15.0\nLima;19.9\n";
    for count in 0..20 {
        let chunks = split_map(file, count);
        assert_eq!(chunks.len(), count.max(1));
        assert_eq!(chunks.concat(), file.to_vec());
    }
}

#[test]
fn every_range_ends_where_a_line_ends() {
    let file = b"Oslo;12.3\nBergen;4.0\nRome;30.1\nBerlin;-2.5\nParis;15.0\nLima;19.9\n";
    for count in 1..20 {
        for chunk in split_map(file, count) {
            assert!(chunk.is_empty() || chunk.ends_with(b"\n"));
        }
    }
}

#[test]
fn a_boundary_falls_behind_the_first_line_end_at_or_after_its_candidate() {
    // 43 bytes: the candidates for four ranges are 10, 21 and 32.
    let file = b"aaaa;1.0\nbbbbbbbbbbbbbb;2.0\ncccc;3.0\nd;4.0\n";
    assert_eq!(file.len(), 43);
    let chunks = split_map(file, 4);
    assert_eq!(chunks[0], b"aaaa;1.0\nbbbbbbbbbbbbbb;2.0\n");
    assert_eq!(chunks[1], b"");
    assert_eq!(chunks[2], b"cccc;3.0\n");
    assert_eq!(chunks[3], b"d;4.0\n");
    assert_eq!(lengths(&chunks), vec![28, 0, 9, 6]);
}

#[test]
fn a_candidate_on_a_terminator_ends_the_range_there() {
    let file = b"a;1\nb;2\nc;3\nd;4\n";
    let chunks = split_map(file, 2);
    assert_eq!(chunks, vec![&b"a;1\nb;2\nc;3\n"[..], &b"d;4\n"[..]]);
    let chunks = split_map(file, 4);
    assert_eq!(chunks, vec![&b"a;1\nb;2\n"[..], &b"c;3\n"[..], &b"d;4\n"[..], &b""[..]]);
}

#[test]
fn one_range_or_none_asked_for_is_the_whole_file() {
    let file = b"Oslo;12.3\nBergen;4.0\n";
    assert_eq!(split_map(file, 1), vec![&file[..]]);
    assert_eq!(split_map(file, 0), vec![&file[..]]);
}

#[test]
fn an_empty_file_splits_into_empty_ranges() {
    assert_eq!(split_map(b"", 3), vec![&b""[..], &b""[..], &b""[..]]);
    assert_eq!(split_map(b"", 0), vec![&b""[..]]);
}

#[test]
fn a_file_without_a_last_terminator_is_covered_too() {
    let file = b"Oslo;12.3\nBergen;4.0";
    let chunks = split_map(file, 3);
    assert_eq!(chunks, vec![&b"Oslo;12.3\n"[..], &b"Bergen;4.0"[..], &b""[..]]);
    let chunks = split_map(b"no line end at all", 4);
    assert_eq!(chunks, vec![&b"no line end at all"[..], &b""[..], &b""[..], &b""[..]]);
}

#[test]
fn more_ranges_than_bytes_leave_most_ranges_empty() {
    let file = b"a;1\n";
    let chunks = split_map(file, 72);
    assert_eq!(chunks.len(), 72);
    assert_eq!(chunks[0], file);
    assert!(chunks[1..].iter().all(|chunk| chunk.is_empty()));
}
