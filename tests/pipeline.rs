use body_filter::chain::{concatenate, is_empty_link, plan_chain, plan_link, BodyError, Link, SegmentSource};
use body_filter::inspect::{segment_contains, segments_contain, FORBIDDEN_PATTERN};
use body_filter::stage::{
    access_code, filter_output, inspect_segments, output_action, read_result_is_final, redaction_verdict,
    AccessCode, OutputAction, Verdict, HTTP_FORBIDDEN,
};
use body_filter::writer::{rebuild, OutputFraming};

fn memory(pos: usize, last: usize) -> Link {
    Link { in_memory: true, pos, last, has_file: false, fd: -1, file_pos: 0, file_last: 0 }
}

fn file(fd: i32, file_pos: u64, file_last: u64) -> Link {
    Link { in_memory: false, pos: 0, last: 0, has_file: true, fd, file_pos, file_last }
}

#[test]
fn plan_mixes_memory_and_file_segments_in_order() {
    let links = vec![memory(0, 4), file(7, 10, 30), memory(2, 5)];
    let plan = plan_chain(true, &links).expect("plan");
    assert_eq!(
        plan,
        vec![
            SegmentSource::Memory { pos: 0, last: 4 },
            SegmentSource::File { fd: 7, offset: 10, len: 20 },
            SegmentSource::Memory { pos: 2, last: 5 },
        ]
    );
}

#[test]
fn plan_skips_empty_links() {
    let links = vec![memory(3, 3), file(4, 8, 8), memory(0, 1)];
    let plan = plan_chain(true, &links).expect("plan");
    assert_eq!(plan, vec![SegmentSource::Memory { pos: 0, last: 1 }]);
}

#[test]
fn missing_body_is_an_error() {
    assert_eq!(plan_chain(false, &vec![memory(0, 1)]), Err(BodyError::MissingBody));
}

#[test]
fn file_link_without_file_is_an_error() {
    let broken = Link { in_memory: false, pos: 0, last: 0, has_file: false, fd: -1, file_pos: 0, file_last: 9 };
    assert_eq!(plan_link(&broken), Err(BodyError::MissingBody));
    assert_eq!(plan_chain(true, &vec![memory(0, 2), broken]), Err(BodyError::MissingBody));
}

#[test]
fn empty_chain_has_no_segments() {
    assert_eq!(plan_chain(true, &Vec::new()), Ok(Vec::new()));
}

#[test]
fn concatenation_restores_the_payload() {
    let a: &[u8] = b"hello ";
    let b: &[u8] = b"";
    let c: &[u8] = b"world";
    assert_eq!(concatenate(&vec![a, b, c]), b"hello world".to_vec());
    assert_eq!(concatenate(&Vec::new()), Vec::<u8>::new());
}

#[test]
fn pattern_inside_one_segment_is_rejected() {
    let a: &[u8] = b"xxDEADBEEFyy";
    let b: &[u8] = b"tail";
    let segs = vec![b, a];
    assert!(segment_contains(a, &FORBIDDEN_PATTERN));
    assert!(matches!(inspect_segments(&segs, &FORBIDDEN_PATTERN), Verdict::Rejected));
    assert_eq!(access_code(&Verdict::Rejected), AccessCode::Status(HTTP_FORBIDDEN));
}

#[test]
fn pattern_split_across_segments_is_not_rejected() {
    let a: &[u8] = b"xxDEAD";
    let b: &[u8] = b"BEEFyy";
    let segs = vec![a, b];
    assert!(!segments_contain(&segs, &FORBIDDEN_PATTERN));
    assert!(matches!(inspect_segments(&segs, &FORBIDDEN_PATTERN), Verdict::Unchanged));
    assert!(segment_contains(&concatenate(&segs), &FORBIDDEN_PATTERN));
}

#[test]
fn pattern_at_segment_edges() {
    assert!(segment_contains(b"DEADBEEF", &FORBIDDEN_PATTERN));
    assert!(segment_contains(b"..DEADBEEF", &FORBIDDEN_PATTERN));
    assert!(!segment_contains(b"DEADBEE", &FORBIDDEN_PATTERN));
    assert!(!segment_contains(b"", &FORBIDDEN_PATTERN));
}

#[test]
fn access_codes() {
    assert_eq!(access_code(&Verdict::Unchanged), AccessCode::Declined);
    assert_eq!(access_code(&Verdict::InternalError(BodyError::MapFailed)), AccessCode::Error);
}

#[test]
fn final_read_results() {
    assert!(read_result_is_final(300));
    assert!(read_result_is_final(413));
    assert!(!read_result_is_final(0));
    assert!(!read_result_is_final(-2));
}

#[test]
fn rebuild_sets_length_before_headers_are_sent() {
    let mut framing = OutputFraming { content_length: 99 };
    let chain = rebuild(b"abcd".to_vec(), false, &mut framing);
    assert_eq!(chain.data, b"abcd".to_vec());
    assert!(chain.in_memory);
    assert_eq!(framing.content_length, 4);
    assert_eq!(framing.content_length as usize, chain.data.len());
}

#[test]
fn rebuild_leaves_length_once_headers_are_sent() {
    let mut framing = OutputFraming { content_length: 99 };
    let chain = rebuild(b"abcd".to_vec(), true, &mut framing);
    assert_eq!(chain.data, b"abcd".to_vec());
    assert_eq!(framing.content_length, 99);
}

#[test]
fn output_stage_forwards_untouched_body() {
    let mut framing = OutputFraming { content_length: 12 };
    let action = filter_output(b"nothing here", false, &mut framing);
    assert!(matches!(action, OutputAction::ForwardOriginal));
    assert_eq!(framing.content_length, 12);
}

#[test]
fn output_stage_rebuilds_redacted_body() {
    let mut framing = OutputFraming { content_length: -1 };
    let action = filter_output("\u{e9} a@bc.de".as_bytes(), false, &mut framing);
    match action {
        OutputAction::ForwardRebuilt(c) => {
            assert_eq!(c.data, "\u{e9} *@**.**".as_bytes().to_vec());
            assert_eq!(framing.content_length, c.data.len() as i64);
        }
        _ => panic!("expected a rebuilt chain"),
    }
}

#[test]
fn output_stage_after_headers_sent() {
    let mut framing = OutputFraming { content_length: 7 };
    let action = filter_output(b"me@x.yz", true, &mut framing);
    assert!(matches!(action, OutputAction::ForwardRebuilt(_)));
    assert_eq!(framing.content_length, 7);
}

#[test]
fn output_stage_reports_errors() {
    let mut framing = OutputFraming { content_length: 7 };
    let action = output_action(Verdict::InternalError(BodyError::AllocFailed), false, &mut framing);
    assert!(matches!(action, OutputAction::Fail(BodyError::AllocFailed)));
    assert_eq!(framing.content_length, 7);
}

#[test]
fn redaction_verdicts() {
    assert!(matches!(redaction_verdict(b"plain"), Verdict::Unchanged));
    match redaction_verdict(b"id: z@q.io") {
        Verdict::Transformed(o) => assert_eq!(o, b"id: *@*.**".to_vec()),
        _ => panic!("expected a transformed body"),
    }
}

#[test]
fn empty_links_are_recognized() {
    assert!(is_empty_link(&memory(5, 5)));
    assert!(!is_empty_link(&memory(5, 6)));
    assert!(is_empty_link(&file(3, 9, 9)));
    assert!(!is_empty_link(&file(3, 0, 9)));
}
