use minimal_pdf_converter::bridge::{
    admit_job, admit_request, admit_worker_path, parse_command, parse_config, BridgeCommand,
    FrameReader, MAX_ID_BYTES, MAX_PENDING_JOBS, MAX_REQUEST_BYTES,
};

/// Reads the next frame the way a buffered reader does.
fn read_frame(input: &mut &[u8], chunk: usize, reader: &mut FrameReader) -> Option<bool> {
    reader.start();
    while !input.is_empty() {
        let available = &input[..chunk.min(input.len())];
        let (used, outcome) = reader.accept(available);
        *input = &input[used..];
        if outcome.is_some() {
            return outcome;
        }
    }
    reader.finish()
}

#[test]
fn bounded_jsonl_reader_recovers_after_oversized_frame() {
    let input = format!("{}\n{{\"id\":\"next\"}}\n", "x".repeat(MAX_REQUEST_BYTES));
    let mut input = input.as_bytes();
    let mut reader = FrameReader::new();
    assert_eq!(read_frame(&mut input, 8192, &mut reader), Some(false));
    assert_eq!(read_frame(&mut input, 8192, &mut reader), Some(true));
    assert_eq!(reader.frame(), b"{\"id\":\"next\"}\n");
    assert_eq!(read_frame(&mut input, 8192, &mut reader), None);
}

#[test]
fn frames_are_found_whatever_the_chunks() {
    for chunk in 1..8 {
        let mut input = b"first\nsecond\nlast".as_slice();
        let mut reader = FrameReader::new();
        assert_eq!(read_frame(&mut input, chunk, &mut reader), Some(true));
        assert_eq!(reader.frame(), b"first\n");
        assert_eq!(read_frame(&mut input, chunk, &mut reader), Some(true));
        assert_eq!(reader.frame(), b"second\n");
        assert_eq!(read_frame(&mut input, chunk, &mut reader), Some(true));
        assert_eq!(reader.frame(), b"last");
        assert_eq!(read_frame(&mut input, chunk, &mut reader), None);
    }
}

#[test]
fn commands_have_names() {
    assert!(matches!(
        parse_command("start_job"),
        Ok(BridgeCommand::StartJob)
    ));
    assert!(matches!(
        parse_command("cancel_job"),
        Ok(BridgeCommand::CancelJob)
    ));
    assert!(parse_command("format_disk").is_err());
}

#[test]
fn requests_and_jobs_are_bounded() {
    assert!(admit_request(true, Some(b"r1")).is_ok());
    assert!(admit_request(false, Some(b"r1")).is_err());
    assert!(admit_request(true, None).is_err());
    assert!(admit_request(true, Some(b"")).is_err());
    assert!(admit_request(true, Some(&[b'x'; MAX_ID_BYTES + 1])).is_err());
    assert!(admit_job(MAX_PENDING_JOBS - 1).is_ok());
    assert!(admit_job(MAX_PENDING_JOBS).is_err());
}

#[test]
fn worker_arguments_are_checked() {
    assert!(admit_worker_path(true).is_ok());
    assert!(admit_worker_path(false).is_err());
    assert!(parse_config(&vec![false]).is_err());
    assert_eq!(parse_config(&Vec::new()), Ok(None));
}
