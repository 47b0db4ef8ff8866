use memdump::cmdline::program_name;
use memdump::error::Error;
use memdump::memmem::search_no_case;
use memdump::memory::parse_region;
use memdump::ptrace::ptrace_outcome;
use memdump::ptrace::Ptrace;

fn region_of_size(size: u64) -> memdump::memory::Region {
    let line = format!("0-{:x} r--p 0 00:00 0", size);
    parse_region(&line).unwrap()
}

#[test]
fn attach_success_and_failure() {
    let session = Ptrace::new(1234, 0, 0).unwrap();
    assert_eq!(session.pid(), 1234);
    assert!(!session.mem_is_open());
    match Ptrace::new(1234, u64::MAX, 1) {
        Err(Error::Ptrace(code)) => assert_eq!(code, 1),
        other => panic!("expected ptrace error, got {:?}", other),
    }
}

#[test]
fn ptrace_outcome_classification() {
    assert_eq!(ptrace_outcome(0, 0).unwrap(), 0);
    // a return of all ones with errno still clear is a plain value
    assert_eq!(ptrace_outcome(u64::MAX, 0).unwrap(), u64::MAX);
    match ptrace_outcome(u64::MAX, 3) {
        Err(Error::Ptrace(code)) => assert_eq!(code, 3),
        other => panic!("expected ptrace error, got {:?}", other),
    }
}

#[test]
fn mem_open_is_recorded() {
    let mut session = Ptrace::new(1, 0, 0).unwrap();
    assert!(!session.mem_is_open());
    session.set_mem_open();
    assert!(session.mem_is_open());
    assert_eq!(session.pid(), 1);
}

#[test]
fn dump_success_appends_exact_bytes() {
    let session = Ptrace::new(1, 0, 0).unwrap();
    let region = region_of_size(4);
    let mut buffer: Vec<u8> = vec![9, 9];
    let data = vec![1, 2, 3, 4];
    session.dump(&region, Ok(data), &mut buffer).unwrap();
    assert_eq!(buffer, vec![9, 9, 1, 2, 3, 4]);
}

#[test]
fn dump_short_read_leaves_buffer_untouched() {
    let session = Ptrace::new(1, 0, 0).unwrap();
    let region = region_of_size(16);
    let mut buffer: Vec<u8> = vec![7; 5];
    // the stream yields only 10 of the requested 16 bytes
    let outcome = session.dump(&region, Ok(vec![0; 10]), &mut buffer);
    match outcome {
        Err(Error::IO(None)) => {}
        other => panic!("expected I/O error on short read, got {:?}", other),
    }
    assert_eq!(buffer.len(), 5);
    assert_eq!(buffer, vec![7; 5]);
}

#[test]
fn dump_read_error_leaves_buffer_untouched() {
    let session = Ptrace::new(1, 0, 0).unwrap();
    let region = region_of_size(8);
    let mut buffer: Vec<u8> = vec![1, 2, 3];
    match session.dump(&region, Err(5), &mut buffer) {
        Err(Error::IO(Some(code))) => assert_eq!(code, 5),
        other => panic!("expected I/O error with code, got {:?}", other),
    }
    assert_eq!(buffer, vec![1, 2, 3]);
}

#[test]
fn program_name_stops_at_first_nul() {
    assert_eq!(program_name(&b"nvim\0--embed\0".to_vec()), b"nvim".to_vec());
    assert_eq!(program_name(&b"bash".to_vec()), b"bash".to_vec());
    assert_eq!(program_name(&b"\0x".to_vec()), b"".to_vec());
    assert_eq!(program_name(&Vec::new()), Vec::<u8>::new());
}

#[test]
fn search_no_case_finds_first_occurrence() {
    assert_eq!(search_no_case(b"Hello World", b"WORLD"), Some(6));
    assert_eq!(search_no_case(b"abcABCabc", b"Abc"), Some(0));
    assert_eq!(search_no_case(b"xxabYab", b"AB"), Some(2));
    assert_eq!(search_no_case(b"hello", b"xyz"), None);
    assert_eq!(search_no_case(b"hay", b""), Some(0));
    assert_eq!(search_no_case(b"", b"needle"), None);
    assert_eq!(search_no_case(b"short", b"much longer needle"), None);
}
