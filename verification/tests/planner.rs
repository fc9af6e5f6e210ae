use parcut::processor::CsvProcessor;

#[test]
fn chunk_boundaries_are_line_aligned() {
    let p = CsvProcessor::new(':');
    let data = b"aaa\nbbbb\ncc\nddddd\neee\n";
    let bounds = p.plan_chunks(data, 3);
    assert!(bounds.len() >= 2);
    assert_eq!(bounds[0], 0);
    assert_eq!(*bounds.last().unwrap(), data.len());
    for w in bounds.windows(2) {
        assert!(w[0] < w[1]);
    }
    for &b in &bounds[1..bounds.len() - 1] {
        assert_eq!(data[b - 1], b'\n');
    }
}

#[test]
fn plan_on_empty_input_is_one_empty_chunk() {
    let p = CsvProcessor::new(':');
    let bounds = p.plan_chunks(b"", 4);
    assert_eq!(bounds, vec![0, 0]);
}

#[test]
fn plan_single_thread_is_one_chunk() {
    let p = CsvProcessor::new(':');
    let data = b"a\nb\nc\n";
    let bounds = p.plan_chunks(data, 1);
    assert_eq!(bounds, vec![0, data.len()]);
}

#[test]
fn plan_without_newlines() {
    let p = CsvProcessor::new(':');
    let data = b"no terminator at all";
    let bounds = p.plan_chunks(data, 4);
    assert_eq!(bounds, vec![0, data.len()]);
}

#[test]
fn find_line_boundary_cases() {
    let p = CsvProcessor::new(':');
    let data = b"ab\ncd";
    assert_eq!(p.find_line_boundary(data, 0), 3);
    assert_eq!(p.find_line_boundary(data, 1), 3);
    assert_eq!(p.find_line_boundary(data, 3), 5);
    assert_eq!(p.find_line_boundary(data, 5), 5);
    assert_eq!(p.find_line_boundary(b"", 0), 0);
}

#[test]
fn extract_columns_cases() {
    let p = CsvProcessor::new(':');
    assert_eq!(
        p.extract_columns(b"1:a@x.com:alice"),
        Some((&b"a@x.com"[..], &b"alice"[..]))
    );
    assert_eq!(p.extract_columns(b"1:a@x.com"), None);
    assert_eq!(p.extract_columns(b""), None);
    assert_eq!(
        p.extract_columns(b"1:a:b:extra:more"),
        Some((&b"a"[..], &b"b"[..]))
    );
}

#[test]
fn extract_and_filter_cases() {
    let p = CsvProcessor::new(':');
    assert_eq!(
        p.extract_and_filter(b"1:a:b", &[1, 2], None),
        Some(b"a,b".to_vec())
    );
    assert_eq!(p.extract_and_filter(b"1:a:b", &[1, 2], Some((1, 2))), Some(b"a,b".to_vec()));
    assert_eq!(p.extract_and_filter(b"1:a:a", &[1, 2], Some((1, 2))), None);
    assert_eq!(p.extract_and_filter(b"1:a", &[1, 2], None), None);
    assert_eq!(p.extract_and_filter(b"1::", &[1, 2], None), None);
}

#[test]
fn process_chunk_header_handling() {
    let p = CsvProcessor::new(':');
    let chunk = b"1:a:b\n2:c:d\n";
    assert_eq!(p.process_chunk(chunk, false), b"a,b\nc,d\n".to_vec());
    // the first chunk drops its first line as the header
    assert_eq!(p.process_chunk(chunk, true), b"c,d\n".to_vec());
}

#[test]
fn process_chunk_with_filter_header_handling() {
    let p = CsvProcessor::new(':');
    let chunk = b"1:a:b\n2:c:c\n3:e:f\n";
    assert_eq!(
        p.process_chunk_with_filter(chunk, false, &[1, 2], Some((1, 2))),
        b"a,b\ne,f\n".to_vec()
    );
    assert_eq!(
        p.process_chunk_with_filter(chunk, true, &[1, 2], Some((1, 2))),
        b"e,f\n".to_vec()
    );
}
