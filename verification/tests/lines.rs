use raft::storage::lines::Expected;
use raft::storage::lines::LogReader;
use raft::storage::lines::join_lines;
use raft::storage::lines::split_lines;
use raft::types::LogEntry;
use raft::types::LogIndex;
use raft::types::LogPayload;
use raft::types::Term;

fn lines(texts: &[&str]) -> Vec<Vec<u8>> {
    texts.iter().map(|text| text.as_bytes().to_vec()).collect()
}

fn entry(term: u64) -> LogEntry<String> {
    LogEntry { term: Term::from(term), payload: LogPayload::NoOp }
}

#[test]
fn a_text_is_split_at_every_line_end() {
    assert_eq!(split_lines(&b"one\ntwo\n".to_vec()), lines(&["one", "two"]));
    assert_eq!(split_lines(&b"".to_vec()), lines(&[]));
    assert_eq!(split_lines(&b"\n".to_vec()), lines(&[""]));
    assert_eq!(split_lines(&b"one\n\ntwo\n".to_vec()), lines(&["one", "", "two"]));
}

#[test]
fn the_last_line_need_not_be_ended() {
    assert_eq!(split_lines(&b"one\ntwo".to_vec()), lines(&["one", "two"]));
    assert_eq!(split_lines(&b"one\r".to_vec()), lines(&["one\r"]));
}

#[test]
fn a_carriage_return_before_a_line_end_belongs_to_it() {
    assert_eq!(split_lines(&b"one\r\ntwo\r\n".to_vec()), lines(&["one", "two"]));
    assert_eq!(split_lines(&b"\r\r\n".to_vec()), lines(&["\r"]));
}

#[test]
fn joined_lines_read_back() {
    let written = lines(&["{\"first_index\":4}", "{\"term\":2}", "{\"term\":3}"]);
    let text = join_lines(&written);
    assert_eq!(text, b"{\"first_index\":4}\n{\"term\":2}\n{\"term\":3}\n".to_vec());
    assert_eq!(split_lines(&text), written);
}

#[test]
fn only_the_first_line_can_be_a_header() {
    let mut reader: LogReader<String> = LogReader::start();
    assert_eq!(reader.expects(&b"x".to_vec()), Expected::HeaderOrEntry);
    assert_eq!(reader.expects(&Vec::new()), Expected::Nothing);
    reader.header(LogIndex::from(4));
    assert_eq!(reader.expects(&b"x".to_vec()), Expected::Entry);
    reader.entry(entry(2));
    reader.skip();
    reader.entry(entry(3));
    let (first_index, entries) = reader.finish();
    assert_eq!(first_index, LogIndex::from(4));
    assert_eq!(entries, vec![entry(2), entry(3)]);
}

#[test]
fn a_file_without_a_header_starts_at_index_one() {
    let mut reader: LogReader<String> = LogReader::start();
    reader.entry(entry(1));
    assert_eq!(reader.expects(&b"x".to_vec()), Expected::Entry);
    let (first_index, entries) = reader.finish();
    assert_eq!(first_index, LogIndex::from(1));
    assert_eq!(entries, vec![entry(1)]);
}

#[test]
fn an_empty_first_line_leaves_no_place_for_a_header() {
    let mut reader: LogReader<String> = LogReader::start();
    reader.skip();
    assert_eq!(reader.expects(&b"x".to_vec()), Expected::Entry);
}
