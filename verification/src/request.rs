//! Outbound request descriptors and interpretation of remote replies.
//!
//! The remote synthesis call itself (transport, headers, credentials) is
//! a collaborator's concern; this module builds the deterministic
//! request path/query descriptor for a segment, and classifies what came
//! back once the transport has delivered it as plain values.

use crate::errors::TtsError;
use crate::sanitize::sanitize_spec;
use crate::sanitize::sanitize_text;
use vstd::prelude::*;
use vstd::string::StringExecFns;

verus! {

/// What `application/x-www-form-urlencoded` serialization makes of one
/// key/value pair (`key=value`, percent-encoded).
pub uninterp spec fn form_encoded(key: Seq<char>, value: Seq<char>) -> Seq<char>;

/// Relies on the `form_urlencoded` serializer re-exported by the `url`
/// crate: serializes one key/value pair as
/// `application/x-www-form-urlencoded`; the output depends on the pair
/// alone.
#[verifier::external_body]
fn encode_pair(key: &str, value: &str) -> (r: String)
    ensures
        r@ == form_encoded(key@, value@),
{
    let mut serializer = url::form_urlencoded::Serializer::new(String::new());
    serializer.append_pair(key, value);
    serializer.finish()
}

/// The request descriptor for one segment: the endpoint path followed by
/// the query pairs for voice, sanitized text, speaker map type and app id.
pub open spec fn tts_url_spec(text: Seq<char>, speaker: Seq<char>) -> Seq<char> {
    "/media/api/text/speech/invoke/?"@ + form_encoded("text_speaker"@, speaker) + "&"@
        + form_encoded("req_text"@, sanitize_spec(text)) + "&"@ + form_encoded(
        "speaker_map_type"@,
        "0"@,
    ) + "&"@ + form_encoded("aid"@, "1233"@)
}

/// Build the deterministic request path/query descriptor for one segment
/// and voice, without any network activity.
pub fn generate_tts_url(text: &str, speaker: &str) -> (r: String)
    ensures
        r@ == tts_url_spec(text@, speaker@),
{
    let sanitized = sanitize_text(text);
    let mut url = String::from_str("/media/api/text/speech/invoke/?");
    let speaker_pair = encode_pair("text_speaker", speaker);
    url.append(speaker_pair.as_str());
    url.append("&");
    let text_pair = encode_pair("req_text", sanitized.as_str());
    url.append(text_pair.as_str());
    url.append("&");
    let map_pair = encode_pair("speaker_map_type", "0");
    url.append(map_pair.as_str());
    url.append("&");
    let aid_pair = encode_pair("aid", "1233");
    url.append(aid_pair.as_str());
    proof {
        assert(url@ =~= tts_url_spec(text@, speaker@));
    }
    url
}

/// A remote reply reduced to the plain values the pipeline reads: the
/// optional application-level message, and the optional encoded payload
/// field.
pub struct RemoteReply {
    /// The `message` field of the reply, when present.
    pub message: Option<String>,
    /// The `data.v_str` field of the reply: the text-safe encoded audio.
    pub v_str: Option<String>,
}

/// The distinguished application-level message with which the remote
/// endpoint rejects a bad session credential.
pub open spec fn credential_rejection_text() -> Seq<char> {
    "Couldn't load speech. Try again."@
}

/// What `interpret_reply` makes of a reply: a rejected credential wins,
/// then a present payload, then a malformed-response failure.
pub open spec fn interpret_reply_spec(reply: RemoteReply) -> Result<String, TtsError> {
    if reply.message matches Some(m) && m@ == credential_rejection_text() {
        Err(TtsError::InvalidCredential)
    } else {
        match reply.v_str {
            Some(v) => Ok(v),
            None => Err(TtsError::MalformedResponse),
        }
    }
}

/// Classify a remote reply: the distinguished rejection message means the
/// credential was refused; otherwise the encoded payload is returned when
/// present, and its absence is a malformed response.
pub fn interpret_reply(reply: RemoteReply) -> (r: Result<String, TtsError>)
    ensures
        r == interpret_reply_spec(reply),
{
    let rejected = match &reply.message {
        Some(m) => {
            let expected = String::from_str("Couldn't load speech. Try again.");
            *m == expected
        },
        None => false,
    };
    if rejected {
        Err(TtsError::InvalidCredential)
    } else {
        match reply.v_str {
            Some(v) => Ok(v),
            None => Err(TtsError::MalformedResponse),
        }
    }
}

} // verus!
