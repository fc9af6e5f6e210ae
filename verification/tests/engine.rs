use parcut::processor::CsvProcessor;
use std::sync::atomic::{AtomicUsize, Ordering};

#[test]
fn selected_example() {
    let p = CsvProcessor::new(':');
    let counter = AtomicUsize::new(0);
    let data = b"id:email:name\n1:a@x.com:alice\n2:b@x.com:bob\n";
    let (out, cnt) = p.process_data_with_filter(data, &[1, 2], None, &counter);
    assert_eq!(out, b"a@x.com,alice\nb@x.com,bob\n".to_vec());
    assert_eq!(cnt, 2);
    assert_eq!(counter.load(Ordering::Relaxed), 2);
}

#[test]
fn selected_example_with_filter() {
    let p = CsvProcessor::new(':');
    let counter = AtomicUsize::new(0);
    let data = b"id:email:name\n1:a@x.com:alice\n2:b@x.com:bob\n";
    let (out, cnt) = p.process_data_with_filter(data, &[1, 2], Some((1, 2)), &counter);
    assert_eq!(out, b"a@x.com,alice\nb@x.com,bob\n".to_vec());
    assert_eq!(cnt, 2);
}

#[test]
fn filter_drops_equal_columns() {
    let p = CsvProcessor::new(':');
    let counter = AtomicUsize::new(0);
    let data = b"id:email:name\n1:same:same\n2:a:b\n";
    let (out, cnt) = p.process_data_with_filter(data, &[1, 2], Some((1, 2)), &counter);
    assert_eq!(out, b"a,b\n".to_vec());
    assert_eq!(cnt, 1);
}

#[test]
fn filter_out_of_range_never_drops() {
    let p = CsvProcessor::new(':');
    let counter = AtomicUsize::new(0);
    let data = b"h:h:h\n1:x:x\n";
    let (out, _) = p.process_data_with_filter(data, &[1, 2], Some((7, 8)), &counter);
    assert_eq!(out, b"x,x\n".to_vec());
}

#[test]
fn empty_input() {
    let p = CsvProcessor::new(':');
    let counter = AtomicUsize::new(0);
    let (out, cnt) = p.process_data_with_filter(b"", &[1, 2], None, &counter);
    assert!(out.is_empty());
    assert_eq!(cnt, 0);
}

#[test]
fn header_only_unterminated() {
    let p = CsvProcessor::new(':');
    let counter = AtomicUsize::new(0);
    let (out, cnt) = p.process_data_with_filter(b"id:email:name", &[1, 2], None, &counter);
    assert!(out.is_empty());
    assert_eq!(cnt, 0);
}

#[test]
fn header_only_terminated() {
    let p = CsvProcessor::new(':');
    let counter = AtomicUsize::new(0);
    let (out, cnt) = p.process_data_with_filter(b"id:email:name\n", &[1, 2], None, &counter);
    assert!(out.is_empty());
    assert_eq!(cnt, 0);
}

#[test]
fn short_rows_dropped() {
    let p = CsvProcessor::new(':');
    let counter = AtomicUsize::new(0);
    let data = b"id:email:name\n1:a@x.com\n2:b@x.com:bob\n";
    let (out, cnt) = p.process_data_with_filter(data, &[1, 2], None, &counter);
    assert_eq!(out, b"b@x.com,bob\n".to_vec());
    assert_eq!(cnt, 1);
}

#[test]
fn empty_field_omitted_with_separator_shift() {
    // An empty selected field contributes neither its bytes nor its own
    // comma; a later nonempty field still brings its leading comma.
    let p = CsvProcessor::new(':');
    let counter = AtomicUsize::new(0);
    let data = b"h:h:h\n1::x\n";
    let (out, _) = p.process_data_with_filter(data, &[1, 2], None, &counter);
    assert_eq!(out, b",x\n".to_vec());
}

#[test]
fn all_selected_fields_empty_drops_row() {
    let p = CsvProcessor::new(':');
    let counter = AtomicUsize::new(0);
    let data = b"h:h:h\n1::\n";
    let (out, cnt) = p.process_data_with_filter(data, &[1, 2], None, &counter);
    assert!(out.is_empty());
    assert_eq!(cnt, 0);
}

#[test]
fn empty_selector_emits_nothing() {
    let p = CsvProcessor::new(':');
    let counter = AtomicUsize::new(0);
    let data = b"h:h:h\n1:a:b\n";
    let (out, cnt) = p.process_data_with_filter(data, &[], None, &counter);
    assert!(out.is_empty());
    assert_eq!(cnt, 0);
}

#[test]
fn selector_duplicates_and_reordering() {
    let p = CsvProcessor::new(':');
    let counter = AtomicUsize::new(0);
    let data = b"h:h:h\n0:a:b\n";
    let (out, _) = p.process_data_with_filter(data, &[2, 1, 1], None, &counter);
    assert_eq!(out, b"b,a,a\n".to_vec());
}

#[test]
fn deterministic_across_runs() {
    let p = CsvProcessor::new(':');
    let mut data: Vec<u8> = b"id:email:name\n".to_vec();
    for i in 0..200 {
        data.extend_from_slice(format!("{}:user{}@x.com:name{}\n", i, i, i).as_bytes());
    }
    let c1 = AtomicUsize::new(0);
    let c2 = AtomicUsize::new(0);
    let r1 = p.process_data_with_filter(&data, &[1, 2], None, &c1);
    let r2 = p.process_data_with_filter(&data, &[1, 2], None, &c2);
    assert_eq!(r1.0, r2.0);
    assert_eq!(r1.1, r2.1);
    assert_eq!(r1.1, 200);
}

#[test]
fn large_input_matches_expected() {
    let p = CsvProcessor::new(':');
    let mut data: Vec<u8> = b"id:email:name\n".to_vec();
    let mut expected: Vec<u8> = Vec::new();
    for i in 0..500 {
        data.extend_from_slice(format!("{}:u{}@x:n{}\n", i, i, i).as_bytes());
        expected.extend_from_slice(format!("u{}@x,n{}\n", i, i).as_bytes());
    }
    let counter = AtomicUsize::new(0);
    let (out, cnt) = p.process_data_with_filter(&data, &[1, 2], None, &counter);
    assert_eq!(out, expected);
    assert_eq!(cnt, 500);
    assert_eq!(counter.load(Ordering::Relaxed), 500);
}

#[test]
fn fixed_pipeline_example() {
    let p = CsvProcessor::new(':');
    let data = b"id:email:name\n1:a@x.com:alice\n2:b@x.com:bob\n";
    let (out, cnt) = p.process_data(data);
    assert_eq!(out, b"a@x.com,alice\nb@x.com,bob\n".to_vec());
    assert_eq!(cnt, 2);
}

#[test]
fn fixed_pipeline_emits_empty_fields() {
    // The fixed rule keeps empty fields (unlike the selector rule) and
    // ignores any fields past the third.
    let p = CsvProcessor::new(':');
    let data = b"h:h:h\n1::\n2:a:b:extra\n";
    let (out, cnt) = p.process_data(data);
    assert_eq!(out, b",\na,b\n".to_vec());
    assert_eq!(cnt, 2);
}

#[test]
fn fixed_pipeline_drops_short_rows() {
    let p = CsvProcessor::new(':');
    let data = b"h:h:h\n1:a\n2:a:b\n";
    let (out, cnt) = p.process_data(data);
    assert_eq!(out, b"a,b\n".to_vec());
    assert_eq!(cnt, 1);
}

#[test]
fn other_delimiter() {
    let p = CsvProcessor::new(',');
    let counter = AtomicUsize::new(0);
    let data = b"id,email,name\n1,a@x.com,alice\n";
    let (out, _) = p.process_data_with_filter(data, &[1, 2], None, &counter);
    assert_eq!(out, b"a@x.com,alice\n".to_vec());
}
