use tktts::assemble::complete_segment;
use tktts::assemble::decode_segment;
use tktts::assemble::new_results_table;
use tktts::assemble::reassemble;
use tktts::assemble::record_result;
use tktts::errors::TtsError;
use tktts::request::RemoteReply;

#[test]
fn reassembly_orders_by_index_not_completion() {
    // Completions arrive in reverse index order; the buffer still comes
    // out in ascending index order.
    let mut table = new_results_table(3);
    record_result(&mut table, 2, Some(vec![5, 6]));
    record_result(&mut table, 1, Some(vec![3, 4]));
    record_result(&mut table, 0, Some(vec![1, 2]));
    assert_eq!(reassemble(table), Ok(vec![1, 2, 3, 4, 5, 6]));
}

#[test]
fn one_failed_segment_fails_the_whole_operation() {
    let mut table = new_results_table(2);
    record_result(&mut table, 0, None);
    record_result(&mut table, 1, Some(vec![7, 8, 9]));
    assert_eq!(reassemble(table), Err(TtsError::PartialFailure));
}

#[test]
fn reassembling_zero_segments_is_an_empty_buffer() {
    let table = new_results_table(0);
    assert_eq!(reassemble(table), Ok(Vec::new()));
}

#[test]
fn decode_segment_decodes_standard_base64() {
    assert_eq!(decode_segment("aGVsbG8="), Ok(b"hello".to_vec()));
}

#[test]
fn decode_segment_rejects_bad_encoding() {
    assert_eq!(decode_segment("%%%"), Err(TtsError::DecodeFailure));
}

#[test]
fn missing_reply_is_a_transport_failure() {
    assert_eq!(complete_segment(None), Err(TtsError::TransportFailure));
}

#[test]
fn rejection_message_is_an_invalid_credential() {
    let reply = RemoteReply {
        message: Some("Couldn't load speech. Try again.".to_string()),
        v_str: Some("aGVsbG8=".to_string()),
    };
    assert_eq!(complete_segment(Some(reply)), Err(TtsError::InvalidCredential));
}

#[test]
fn missing_payload_field_is_malformed() {
    let reply = RemoteReply { message: None, v_str: None };
    assert_eq!(complete_segment(Some(reply)), Err(TtsError::MalformedResponse));
}

#[test]
fn present_payload_is_decoded() {
    let reply = RemoteReply {
        message: Some("success".to_string()),
        v_str: Some("aGVsbG8=".to_string()),
    };
    assert_eq!(complete_segment(Some(reply)), Ok(b"hello".to_vec()));
}

#[test]
fn error_descriptions_are_stable() {
    assert_eq!(
        TtsError::PartialFailure.describe(),
        "some audio segments failed to generate"
    );
    assert_eq!(
        TtsError::InvalidCredential.describe(),
        "invalid session credential or API error"
    );
}
