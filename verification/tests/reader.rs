use path_parents::reader::MultiSourceReader;
use path_parents::reader::Source;
use path_parents::reader::SourceChoice;
use path_parents::reader::select_source;

fn buffer(text: &str) -> Source {
    Source::Buffer(text.as_bytes().to_vec())
}

fn read_to_end(reader: &mut MultiSourceReader<Source>, chunk: usize) -> Vec<u8> {
    let mut out: Vec<u8> = Vec::new();
    loop {
        let bytes = reader.read(chunk).expect("buffer reads do not fail");
        if bytes.is_empty() {
            return out;
        }
        out.extend_from_slice(&bytes);
    }
}

#[test]
fn concatenates_sources_without_boundary_bytes() {
    let first = "This is file 1.\n\nIt is not very interesting.\n";
    let second =
        "File 2 isn't really any better than file 1.\n\n\nIt has more blank lines.  Including a trailing blank line.\n";
    let mut reader = MultiSourceReader::new(vec![buffer(first), buffer(second)]);
    let bytes = read_to_end(&mut reader, 7);
    let mut expected = first.as_bytes().to_vec();
    expected.extend_from_slice(second.as_bytes());
    assert_eq!(expected, bytes);
    let text = String::from_utf8(bytes).expect("test input is valid text");
    let lines: Vec<&str> = text.split('\n').collect();
    assert_eq!(
        vec![
            "This is file 1.",
            "",
            "It is not very interesting.",
            "File 2 isn't really any better than file 1.",
            "",
            "",
            "It has more blank lines.  Including a trailing blank line.",
            "",
        ],
        lines
    );
}

#[test]
fn one_call_never_spans_two_sources() {
    let mut reader = MultiSourceReader::new(vec![buffer("ab"), buffer("cd")]);
    assert_eq!(b"ab".to_vec(), reader.read(10).unwrap());
    assert_eq!(b"cd".to_vec(), reader.read(10).unwrap());
    assert_eq!(Vec::<u8>::new(), reader.read(10).unwrap());
}

#[test]
fn partial_reads_stay_within_one_source() {
    let mut reader = MultiSourceReader::new(vec![buffer("abcdef")]);
    assert_eq!(b"abcd".to_vec(), reader.read(4).unwrap());
    assert_eq!(b"ef".to_vec(), reader.read(4).unwrap());
    assert_eq!(Vec::<u8>::new(), reader.read(4).unwrap());
}

#[test]
fn failing_source_stays_at_the_head() {
    let mut reader = MultiSourceReader::new(vec![Source::Failing, buffer("valid data")]);
    assert_eq!(2, reader.pending_sources());
    assert!(reader.read(8).is_err());
    assert!(reader.read(8).is_err());
    assert!(reader.read(8).is_err());
    // The failing source was never dropped, so the valid one is never reached.
    assert_eq!(2, reader.pending_sources());
}

#[test]
fn error_after_exhausting_earlier_sources() {
    let mut reader = MultiSourceReader::new(vec![buffer("ok"), Source::Failing]);
    assert_eq!(b"ok".to_vec(), reader.read(8).unwrap());
    assert!(reader.read(8).is_err());
    // The exhausted buffer was dropped; the failing source is retried.
    assert_eq!(1, reader.pending_sources());
    assert!(reader.read(8).is_err());
    assert_eq!(1, reader.pending_sources());
}

#[test]
fn exhausted_reader_keeps_reporting_end_of_stream() {
    let mut reader = MultiSourceReader::new(vec![buffer("xy"), buffer("z")]);
    assert_eq!(b"xyz".to_vec(), read_to_end(&mut reader, 3));
    assert_eq!(0, reader.pending_sources());
    assert_eq!(Vec::<u8>::new(), reader.read(5).unwrap());
    assert_eq!(Vec::<u8>::new(), reader.read(5).unwrap());
    assert_eq!(0, reader.pending_sources());
}

#[test]
fn reader_over_no_sources_is_at_end_of_stream() {
    let mut reader = MultiSourceReader::<Source>::new(Vec::new());
    assert_eq!(Vec::<u8>::new(), reader.read(8).unwrap());
}

#[test]
fn empty_sources_are_dropped_on_the_way() {
    let mut reader = MultiSourceReader::new(vec![buffer(""), buffer(""), buffer("data")]);
    assert_eq!(3, reader.pending_sources());
    assert_eq!(b"data".to_vec(), reader.read(8).unwrap());
    assert_eq!(1, reader.pending_sources());
}

#[test]
fn zero_byte_request_reads_nothing() {
    let mut reader = MultiSourceReader::new(vec![buffer("data")]);
    assert_eq!(Vec::<u8>::new(), reader.read(0).unwrap());
    assert_eq!(1, reader.pending_sources());
    assert_eq!(b"data".to_vec(), reader.read(8).unwrap());
}

#[test]
fn standard_input_is_selected_only_without_identifiers() {
    assert!(matches!(select_source(&Vec::new()), SourceChoice::StandardInput));
    assert!(matches!(
        select_source(&vec![String::from("file.txt")]),
        SourceChoice::NamedSources
    ));
}
