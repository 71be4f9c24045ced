use kvs::keydir::Pointer;
use kvs::naming::{parse_segment_name, segment_file_name};
use kvs::segment::SegmentLog;
use kvs::KvsError;

#[test]
fn segment_file_names() {
    assert_eq!(segment_file_name(0), "0.log");
    assert_eq!(segment_file_name(7), "7.log");
    assert_eq!(segment_file_name(10), "10.log");
    assert_eq!(segment_file_name(1234567890), "1234567890.log");
    assert_eq!(segment_file_name(u64::MAX), "18446744073709551615.log");
}

#[test]
fn new_log_has_no_segments() {
    let log = SegmentLog::new();
    assert_eq!(log.len(), 0);
    assert_eq!(log.active_generation(), None);
    assert_eq!(log.total_len(), 0);
}

#[test]
fn add_segment_keeps_generation_order() {
    let mut log = SegmentLog::new();
    assert!(log.add_segment(5, vec![5]));
    assert!(log.add_segment(1, vec![1, 1]));
    assert!(log.add_segment(9, vec![]));
    assert!(log.add_segment(3, vec![3, 3, 3]));
    assert_eq!(log.len(), 4);
    let generations: Vec<u64> = (0..log.len()).map(|i| log.generation_at(i)).collect();
    assert_eq!(generations, vec![1, 3, 5, 9]);
    assert_eq!(log.bytes_at(1), &vec![3, 3, 3]);
    assert_eq!(log.active_generation(), Some(9));
    assert_eq!(log.total_len(), 6);
}

#[test]
fn add_segment_refuses_a_generation_twice() {
    let mut log = SegmentLog::new();
    assert!(log.add_segment(2, vec![1]));
    assert!(!log.add_segment(2, vec![9, 9]));
    assert_eq!(log.len(), 1);
    assert_eq!(log.bytes_at(0), &vec![1]);
}

#[test]
fn append_to_an_empty_log_starts_generation_zero() {
    let mut log = SegmentLog::new();
    let pointer = log.append(&[1, 2, 3]);
    assert_eq!(pointer, Pointer { generation: 0, offset: 0, length: 3 });
    assert_eq!(log.len(), 1);
    assert_eq!(log.generation_at(0), 0);
    assert_eq!(log.bytes_at(0), &vec![1, 2, 3]);
}

#[test]
fn append_goes_to_the_end_of_the_active_segment() {
    let mut log = SegmentLog::new();
    log.add_segment(4, vec![9, 9]);
    log.add_segment(2, vec![7]);
    let first = log.append(&[1, 2, 3]);
    let second = log.append(&[4]);
    let third = log.append(&[]);
    assert_eq!(first, Pointer { generation: 4, offset: 2, length: 3 });
    assert_eq!(second, Pointer { generation: 4, offset: 5, length: 1 });
    assert_eq!(third, Pointer { generation: 4, offset: 6, length: 0 });
    assert_eq!(log.bytes_at(0), &vec![7]);
    assert_eq!(log.bytes_at(1), &vec![9, 9, 1, 2, 3, 4]);
}

#[test]
fn read_at_gives_the_bytes_of_the_pointer() {
    let mut log = SegmentLog::new();
    log.add_segment(1, vec![10, 11, 12, 13]);
    log.add_segment(2, vec![20, 21]);
    let bytes = log.read_at(Pointer { generation: 1, offset: 1, length: 2 });
    assert_eq!(bytes, Ok(&[11u8, 12][..]));
    let all = log.read_at(Pointer { generation: 2, offset: 0, length: 2 });
    assert_eq!(all, Ok(&[20u8, 21][..]));
    let none = log.read_at(Pointer { generation: 2, offset: 2, length: 0 });
    assert_eq!(none, Ok(&[][..]));
}

#[test]
fn read_at_names_the_missing_segment() {
    let mut log = SegmentLog::new();
    log.add_segment(1, vec![10]);
    assert_eq!(
        log.read_at(Pointer { generation: 7, offset: 0, length: 1 }),
        Err(KvsError::FileNotFound { name: "7.log".to_string() })
    );
}

#[test]
fn read_at_beyond_the_segment_is_an_io_error() {
    let mut log = SegmentLog::new();
    log.add_segment(1, vec![10, 11]);
    for pointer in [
        Pointer { generation: 1, offset: 1, length: 2 },
        Pointer { generation: 1, offset: 3, length: 0 },
        Pointer { generation: 1, offset: 0, length: usize::MAX },
        Pointer { generation: 1, offset: usize::MAX, length: usize::MAX },
    ] {
        let result = log.read_at(pointer);
        assert!(matches!(result, Err(KvsError::Io { .. })));
    }
}

#[test]
fn seal_starts_the_next_generation() {
    let mut log = SegmentLog::new();
    assert_eq!(log.seal_active_and_start_new(), Ok(0));
    log.append(&[1]);
    assert_eq!(log.seal_active_and_start_new(), Ok(1));
    assert_eq!(log.len(), 2);
    assert_eq!(log.active_generation(), Some(1));
    assert_eq!(log.bytes_at(0), &vec![1]);
    assert_eq!(log.bytes_at(1), &Vec::<u8>::new());
    let pointer = log.append(&[2, 3]);
    assert_eq!(pointer, Pointer { generation: 1, offset: 0, length: 2 });
}

#[test]
fn seal_fails_when_generations_are_used_up() {
    let mut log = SegmentLog::new();
    log.add_segment(u64::MAX, vec![1]);
    let result = log.seal_active_and_start_new();
    assert!(matches!(result, Err(KvsError::Io { .. })));
    assert_eq!(log.len(), 1);
    assert_eq!(log.active_generation(), Some(u64::MAX));
}

#[test]
fn delete_removes_a_sealed_segment_only() {
    let mut log = SegmentLog::new();
    log.add_segment(1, vec![1]);
    log.add_segment(2, vec![2]);
    log.add_segment(3, vec![3]);
    assert!(!log.delete(3));
    assert!(!log.delete(8));
    assert_eq!(log.len(), 3);
    assert!(log.delete(1));
    assert_eq!(log.len(), 2);
    assert_eq!(log.generation_at(0), 2);
    assert_eq!(log.generation_at(1), 3);
    assert!(!log.delete(1));
}

#[test]
fn delete_on_an_empty_log_does_nothing() {
    let mut log = SegmentLog::new();
    assert!(!log.delete(0));
    assert_eq!(log.len(), 0);
}

#[test]
fn parse_segment_name_inverts_segment_file_name() {
    for generation in [0, 1, 9, 10, 99, 100, 12345, u64::MAX - 1, u64::MAX] {
        assert_eq!(parse_segment_name(&segment_file_name(generation)), Some(generation));
    }
}

#[test]
fn parse_segment_name_refuses_other_names() {
    for name in [
        "",
        ".log",
        "log",
        "1",
        "1.lo",
        "1.logs",
        "1.LOG",
        "01.log",
        "00.log",
        "000001.log",
        "-1.log",
        "+1.log",
        " 1.log",
        "1 .log",
        "1a.log",
        "a.log",
        "1.5.log",
        "18446744073709551616.log",
        "99999999999999999999999.log",
        "１.log",
        "1.log.tmp",
    ] {
        assert_eq!(parse_segment_name(name), None);
    }
}

#[test]
fn error_messages() {
    assert_eq!(
        KvsError::FileNotFound { name: "7.log".to_string() }.message(),
        "file not found: 7.log"
    );
    assert_eq!(KvsError::Io { reason: "disk full".to_string() }.message(), "disk full");
    assert_eq!(
        KvsError::Serialization { cause: "EOF while parsing a value".to_string() }.message(),
        "Serialize errorEOF while parsing a value"
    );
    assert_eq!(KvsError::Serialization { cause: String::new() }.message(), "Serialize error");
    assert_eq!(KvsError::KeyNotFound.message(), "Key not found");
    assert_eq!(KvsError::UnexpectedCommandType.message(), "Unexpected command type");
}
