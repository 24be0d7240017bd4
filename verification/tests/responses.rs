use futures::{Future, Stream};
use hap_wire::response::{
    json_response, json_response_from, response, tlv_response, HapContentType, ResponseError,
};
use std::collections::HashMap;

fn status_object(code: i64) -> serde_json::Value {
    let mut fields = serde_json::Map::new();
    fields.insert("status".to_string(), serde_json::Value::from(code));
    serde_json::Value::Object(fields)
}

fn body_of(sent: hyper::server::Response) -> Vec<u8> {
    sent.body().concat2().wait().unwrap().to_vec()
}

#[test]
fn designations_are_the_fixed_strings() {
    assert_eq!(HapContentType::PairingTLV8.as_str(), "application/pairing+tlv8");
    assert_eq!(HapContentType::HapJson.as_str(), "application/hap+json");
}

#[test]
fn tlv_response_of_one_byte() {
    let mut answer = HashMap::new();
    answer.insert(1u8, vec![0x02u8]);
    let built = tlv_response(answer);
    assert_eq!(built.body(), &[0x01, 0x01, 0x02]);
    assert_eq!(built.content_type(), HapContentType::PairingTLV8);
    assert_eq!(built.content_type().as_str(), "application/pairing+tlv8");
    assert_eq!(built.content_length(), 3);
}

#[test]
fn tlv_response_of_260_bytes() {
    let mut answer = HashMap::new();
    answer.insert(9u8, vec![0xAAu8; 260]);
    let built = tlv_response(answer);
    let mut expected = vec![0x09, 0xFF];
    expected.extend(vec![0xAAu8; 255]);
    expected.extend(vec![0x09, 0x05]);
    expected.extend(vec![0xAAu8; 5]);
    assert_eq!(built.body(), &expected[..]);
    assert_eq!(built.content_length(), 264);
    assert_eq!(built.content_type(), HapContentType::PairingTLV8);
}

#[test]
fn tlv_response_of_nothing() {
    let built = tlv_response(HashMap::new());
    assert_eq!(built.body(), &[] as &[u8]);
    assert_eq!(built.content_length(), 0);
}

#[test]
fn response_length_is_body_length() {
    for len in [0usize, 1, 255, 1000] {
        let built = response(vec![7u8; len], HapContentType::HapJson);
        assert_eq!(built.content_length(), len as u64);
        assert_eq!(built.body().len(), len);
        assert_eq!(built.content_type(), HapContentType::HapJson);
    }
}

#[test]
fn json_response_carries_the_json_text() {
    let built = json_response(status_object(-70403)).unwrap();
    assert_eq!(built.body(), b"{\"status\":-70403}");
    assert_eq!(built.content_length(), 17);
    assert_eq!(built.content_type(), HapContentType::HapJson);
}

#[test]
fn json_response_of_null() {
    let built = json_response(serde_json::Value::Null).unwrap();
    assert_eq!(built.body(), b"null");
    assert_eq!(built.content_length(), 4);
}

#[test]
fn json_response_from_text() {
    let built = json_response_from(Ok(b"[1,2]".to_vec())).unwrap();
    assert_eq!(built.body(), b"[1,2]");
    assert_eq!(built.content_length(), 5);
    assert_eq!(built.content_type(), HapContentType::HapJson);
}

#[test]
fn json_response_from_failure() {
    let failure = serde_json::from_str::<serde_json::Value>("{").unwrap_err();
    let built = json_response_from(Err(failure));
    assert_eq!(built.unwrap_err(), ResponseError::SerializationFailure);
}

#[test]
fn for_hyper_is_the_parsed_media_type() {
    let pairing = HapContentType::PairingTLV8.for_hyper();
    let json = HapContentType::HapJson.for_hyper();
    assert_eq!(format!("{}", pairing), "application/pairing+tlv8");
    assert_eq!(format!("{}", json), "application/hap+json");
    assert_eq!(
        pairing,
        hyper::header::ContentType("application/pairing+tlv8".parse().unwrap())
    );
}

#[test]
fn into_hyper_carries_headers_and_body() {
    let mut answer = HashMap::new();
    answer.insert(1u8, vec![0x02u8]);
    let sent = tlv_response(answer).into_hyper();
    assert_eq!(sent.status(), hyper::StatusCode::Ok);
    assert_eq!(
        sent.headers().get::<hyper::header::ContentLength>(),
        Some(&hyper::header::ContentLength(3))
    );
    assert_eq!(
        sent.headers().get::<hyper::header::ContentType>().map(|h| format!("{}", h)),
        Some("application/pairing+tlv8".to_string())
    );
    assert_eq!(sent.headers().len(), 2);
    assert_eq!(body_of(sent), vec![0x01, 0x01, 0x02]);
}

#[test]
fn into_hyper_of_json() {
    let sent = json_response(status_object(0)).unwrap().into_hyper();
    assert_eq!(
        sent.headers().get::<hyper::header::ContentLength>(),
        Some(&hyper::header::ContentLength(12))
    );
    assert_eq!(
        sent.headers().get::<hyper::header::ContentType>().map(|h| format!("{}", h)),
        Some("application/hap+json".to_string())
    );
    assert_eq!(body_of(sent), b"{\"status\":0}".to_vec());
}
