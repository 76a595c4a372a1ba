use causal_gossip::words::words_from_csv;

#[test]
fn words_from_clean_file() {
    let data = b"head0,head1,head2,head3\nw1,x1,y1,z1\nw2,x2,y2,z2\n";
    let words = words_from_csv(data).expect("clean file parses");
    assert_eq!(words, vec!["x1", "z1", "x2", "z2"]);
}

#[test]
fn words_skip_header_row() {
    // Only the header: no data rows, so no words.
    let data = b"head0,head1,head2,head3\n";
    let words = words_from_csv(data).expect("clean file parses");
    assert!(words.is_empty());
}

#[test]
fn malformed_file_refused() {
    // A data row with fewer fields than the header does not parse.
    let data = b"head0,head1,head2,head3\nw1,x1\n";
    assert!(words_from_csv(data).is_none());
}

#[test]
fn empty_file_gives_no_words() {
    let words = words_from_csv(b"").expect("an empty file parses");
    assert!(words.is_empty());
}
