use tktts::request::generate_tts_url;

#[test]
fn url_descriptor_encodes_query_pairs() {
    assert_eq!(
        generate_tts_url("Hello world", "en_us_002"),
        "/media/api/text/speech/invoke/?text_speaker=en_us_002&req_text=Hello+world&speaker_map_type=0&aid=1233"
    );
}

#[test]
fn url_descriptor_sanitizes_before_encoding() {
    assert_eq!(
        generate_tts_url("a+b", "en_us_002"),
        "/media/api/text/speech/invoke/?text_speaker=en_us_002&req_text=aplusb&speaker_map_type=0&aid=1233"
    );
}

#[test]
fn url_descriptor_percent_encodes_reserved_bytes() {
    assert_eq!(
        generate_tts_url("a=b", "voice"),
        "/media/api/text/speech/invoke/?text_speaker=voice&req_text=a%3Db&speaker_map_type=0&aid=1233"
    );
}
