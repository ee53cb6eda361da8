//! Wire-codec tests: request decoding, response encoding and decoding, and
//! the concrete round trips.

use channelgate::codec::{
    decode_request, decode_request_payload, decode_response, encode_request, encode_response,
    RequestMessage, RequestPayload, Response,
};
use channelgate::json::JsonValue;

#[test]
fn test_request_json_heartbeat() {
    let msg: RequestMessage =
        decode_request(r#"["1", "ref1", "room123", "heartbeat", {}]"#).unwrap();

    assert_eq!(msg.join_ref, Some("1".to_string()));
    assert_eq!(msg.event_ref, "ref1");
    assert_eq!(msg.topic, "room123");
    assert_eq!(msg.event, "heartbeat");
    assert_eq!(msg.payload, RequestPayload::JsonValue(JsonValue::Obj(vec![])));
}

#[test]
fn test_request_json_join() {
    let msg: RequestMessage =
        decode_request(r#"["1", "ref1", "room123", "phx_join", {"token": "secret_token"}]"#)
            .unwrap();

    assert_eq!(msg.join_ref, Some("1".to_string()));
    assert_eq!(msg.event_ref, "ref1");
    assert_eq!(msg.topic, "room123");
    assert_eq!(msg.event, "phx_join");
    assert_eq!(
        msg.payload,
        RequestPayload::Join {
            token: "secret_token".to_string()
        }
    );
}

#[test]
fn test_request_json_message() {
    let json = r#"["1", "ref4", "room123", "message", {"message": "Hello, World!"}]"#;

    let msg: RequestMessage = decode_request(json).unwrap();
    assert_eq!(msg.event, "message");
    assert_eq!(
        msg.payload,
        RequestPayload::Message {
            message: "Hello, World!".to_string()
        }
    );
}

#[test]
fn test_request_json_message_payload() {
    let payload: RequestPayload = decode_request_payload("{}").unwrap();
    assert_eq!(payload, RequestPayload::JsonValue(JsonValue::Obj(vec![])));

    let payload: RequestPayload = decode_request_payload(r#"{"token": "another_token"}"#).unwrap();
    assert_eq!(
        payload,
        RequestPayload::Join {
            token: "another_token".to_string()
        }
    );

    let payload: RequestPayload =
        decode_request_payload(r#"{ "message": "test message" }"#).unwrap();
    assert_eq!(
        payload,
        RequestPayload::Message {
            message: "test message".to_string()
        }
    );
}

#[test]
fn test_request_json_invalid() {
    // Invalid array length
    assert!(decode_request(r#"["1", "ref1", "room123"]"#).is_none());
    assert!(decode_request(r#"["1", "ref1", "room123", "phx_join"]"#).is_none());

    // Any JSON value is tolerated as a payload
    assert!(decode_request(r#"["1", "ref1", "room123", "phx_join", null]"#).is_some());
    assert!(decode_request(r#"["1", "ref1", "room123", "phx_join", 23]"#).is_some());
    assert!(decode_request(r#"["1", "ref1", "room123", "phx_join", 12.4]"#).is_some());
    assert!(decode_request(r#"["1", "ref1", "room123", "phx_join", "nulldirect_token"]"#).is_some());
    assert!(decode_request(r#"["1", "ref1", "room123", "phx_join", [1, null, "foobar"]]"#).is_some());

    // Invalid type for the join reference
    assert!(decode_request(r#"[123, "ref1", "room123", "phx_join", {"token": "secret"}]"#).is_none());
}

#[test]
fn test_response_deserialize() {
    // Empty with null type
    let json = r#"{"type": "null"}"#;
    let response: Response = decode_response(json).unwrap();
    assert!(matches!(response, Response::Empty {}));

    // Join type
    let json = r#"{"type": "join"}"#;
    let response: Response = decode_response(json).unwrap();
    assert!(matches!(response, Response::Join {}));

    // Heartbeat type
    let json = r#"{"type": "heartbeat"}"#;
    let response: Response = decode_response(json).unwrap();
    assert!(matches!(response, Response::Heartbeat {}));

    // Message with payload
    let json = r#"{"type": "message", "message": "hello world"}"#;
    let response: Response = decode_response(json).unwrap();
    assert!(matches!(response, Response::Message { message } if message == "hello world"));

    // Datetime with fields
    let json = r#"{"type": "datetime", "datetime": "2024-01-01", "counter": 42}"#;
    let response: Response = decode_response(json).unwrap();
    assert!(matches!(response, Response::Datetime { datetime, counter }
        if datetime == "2024-01-01" && counter == 42));
}

#[test]
fn test_response_serialize() {
    // Empty serializes with null type
    let response = Response::Empty {};
    assert_eq!(encode_response(&response), r#"{"type":"null"}"#);

    // Join with join type
    let response = Response::Join {};
    assert_eq!(encode_response(&response), r#"{"type":"join"}"#);

    // Heartbeat with heartbeat type
    let response = Response::Heartbeat {};
    assert_eq!(encode_response(&response), r#"{"type":"heartbeat"}"#);

    // Message includes payload
    let response = Response::Message {
        message: "hello".to_string(),
    };
    assert_eq!(
        encode_response(&response),
        r#"{"type":"message","message":"hello"}"#
    );

    // Datetime includes all fields
    let response = Response::Datetime {
        datetime: "2024-01-01".to_string(),
        counter: 42,
    };
    assert_eq!(
        encode_response(&response),
        r#"{"type":"datetime","datetime":"2024-01-01","counter":42}"#
    );
}

#[test]
fn test_response_invalid_json() {
    // Missing type field
    let json = r#"{"message": "hello"}"#;
    assert!(decode_response(json).is_none());

    // Invalid type value
    let json = r#"{"type": "invalid"}"#;
    assert!(decode_response(json).is_none());

    // Missing required fields
    let json = r#"{"type": "datetime", "datetime": "2024-01-01"}"#;
    assert!(decode_response(json).is_none());
}

#[test]
fn test_response_round_trip() {
    let responses = vec![
        Response::Empty {},
        Response::Join {},
        Response::Heartbeat {},
        Response::Datetime {
            datetime: "2024-01-01T00:00:00.000+00:00".to_string(),
            counter: 4294967295,
        },
        Response::Message {
            message: "with \"quotes\", back\\slash, tab\t and newline\n".to_string(),
        },
    ];
    for response in responses {
        let text = encode_response(&response);
        assert_eq!(decode_response(&text), Some(response));
    }
}

#[test]
fn test_request_round_trip() {
    let requests = vec![
        RequestMessage {
            join_ref: Some("1".to_string()),
            event_ref: "ref1".to_string(),
            topic: "system".to_string(),
            event: "phx_join".to_string(),
            payload: RequestPayload::Join {
                token: "secret".to_string(),
            },
        },
        RequestMessage {
            join_ref: None,
            event_ref: "2".to_string(),
            topic: "phoenix".to_string(),
            event: "heartbeat".to_string(),
            payload: RequestPayload::JsonValue(JsonValue::Obj(vec![])),
        },
        RequestMessage {
            join_ref: Some("a".to_string()),
            event_ref: "r".to_string(),
            topic: "t".to_string(),
            event: "message".to_string(),
            payload: RequestPayload::Message {
                message: "hi there".to_string(),
            },
        },
        RequestMessage {
            join_ref: Some("b".to_string()),
            event_ref: "r2".to_string(),
            topic: "t".to_string(),
            event: "custom".to_string(),
            payload: RequestPayload::JsonValue(JsonValue::Arr(vec![
                JsonValue::Num("12.4".to_string()),
                JsonValue::Null,
                JsonValue::Bool(true),
                JsonValue::Str("x".to_string()),
            ])),
        },
    ];
    for request in requests {
        let text = encode_request(&request);
        assert_eq!(decode_request(&text), Some(request));
    }
}

#[test]
fn test_decode_tolerates_escapes_and_whitespace() {
    let msg = decode_request(
        " [ null , \"1\" , \"topic \\\"x\\\"\" , \"ev\\u0041\" , {\"k\": [1e3, -2.5]} ] ",
    )
    .unwrap();
    assert_eq!(msg.join_ref, None);
    assert_eq!(msg.topic, "topic \"x\"");
    assert_eq!(msg.event, "evA");
}
