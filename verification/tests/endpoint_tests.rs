use endpoint_bindings::descriptor::{AuthStrategy, Method, EndpointDescriptor, AuthKind, PathSegment};
use endpoint_bindings::endpoints::{
    get_server_keys_endpoint, register_account_endpoint, get_account_information_endpoint,
    Request, Response, ServerSigningKey, encode_key, decode_key,
};
use endpoint_bindings::marshal::{serialize_request, serialize_response, parse_request, parse_response, HttpRequest, ParseError};
use endpoint_bindings::placement::{resolve_placements, FieldDecl, FieldKind, Placement};
use endpoint_bindings::wire::{percent_encode, percent_decode};

#[test]
fn server_keys_request_wire_shape() {
    let ep = get_server_keys_endpoint().unwrap();
    let _req = Request::new();
    let values: Vec<Vec<u8>> = Vec::new();
    let msg = serialize_request(&ep.desc, &ep.request_fields, &values, &AuthStrategy::NoAuth)
        .unwrap();
    assert_eq!(msg.path, b"/_matrix/key/v2/server".to_vec());
    assert!(msg.query.is_empty());
    assert!(msg.body.is_empty());
    assert!(matches!(msg.method, Method::Get));
    let parsed = parse_request(&ep.desc, &ep.request_fields, &msg).unwrap();
    assert!(parsed.values.is_empty());
    assert!(parsed.credential.is_none());
}

#[test]
fn server_key_body_round_trip() {
    let ep = get_server_keys_endpoint().unwrap();
    let key = ServerSigningKey {
        server_name: b"example.org".to_vec(),
        verify_key: b"ed25519 abc XYZ+key/material".to_vec(),
    };
    let resp = Response::new(key);
    let values = resp.to_values();
    let msg = serialize_response(&ep.response_fields, &values).unwrap();
    assert_eq!(msg.status, 200);
    assert_eq!(msg.body, encode_key(&resp.server_key));
    let parsed = parse_response(&ep.response_fields, &msg).unwrap();
    assert_eq!(parsed.len(), 1);
    let back = decode_key(&parsed[0]).unwrap();
    assert_eq!(back.server_name, b"example.org".to_vec());
    assert_eq!(back.verify_key, b"ed25519 abc XYZ+key/material".to_vec());
    let resp2 = Response::from(back);
    assert_eq!(resp2.server_key.server_name, resp.server_key.server_name);
}

#[test]
fn register_account_round_trip() {
    let ep = register_account_endpoint().unwrap();
    let values: Vec<Vec<u8>> = vec![
        b"tok&en= value".to_vec(),
        b"Bearer".to_vec(),
        b"example.org".to_vec(),
        b"3600".to_vec(),
    ];
    let msg = serialize_request(&ep.desc, &ep.request_fields, &values, &AuthStrategy::NoAuth)
        .unwrap();
    assert_eq!(msg.path, b"/_matrix/identity/v2/account/register".to_vec());
    let parsed = parse_request(&ep.desc, &ep.request_fields, &msg).unwrap();
    assert_eq!(parsed.values, values);
    let msg2 = serialize_request(&ep.desc, &ep.request_fields, &parsed.values, &AuthStrategy::NoAuth)
        .unwrap();
    assert_eq!(msg2.body, msg.body);
    let parsed2 = parse_request(&ep.desc, &ep.request_fields, &msg2).unwrap();
    assert_eq!(parsed2.values, values);
}

#[test]
fn missing_access_token_header_is_unauthorized() {
    let ep = get_account_information_endpoint().unwrap();
    let values: Vec<Vec<u8>> = Vec::new();
    let auth = AuthStrategy::AccessToken { token: b"sekrit123".to_vec() };
    let msg = serialize_request(&ep.desc, &ep.request_fields, &values, &auth).unwrap();
    let parsed = parse_request(&ep.desc, &ep.request_fields, &msg).unwrap();
    assert_eq!(parsed.credential, Some(b"sekrit123".to_vec()));
    let stripped = HttpRequest {
        method: msg.method,
        path: msg.path.clone(),
        query: msg.query.clone(),
        headers: Vec::new(),
        body: msg.body.clone(),
    };
    assert!(matches!(
        parse_request(&ep.desc, &ep.request_fields, &stripped),
        Err(ParseError::Unauthorized)
    ));
}

#[test]
fn wrong_method_and_malformed_path_are_rejected() {
    let ep = get_server_keys_endpoint().unwrap();
    let values: Vec<Vec<u8>> = Vec::new();
    let good = serialize_request(&ep.desc, &ep.request_fields, &values, &AuthStrategy::NoAuth)
        .unwrap();
    let wrong_method = HttpRequest {
        method: Method::Post,
        path: good.path.clone(),
        query: good.query.clone(),
        headers: Vec::new(),
        body: Vec::new(),
    };
    assert!(matches!(
        parse_request(&ep.desc, &ep.request_fields, &wrong_method),
        Err(ParseError::MethodNotAllowed)
    ));
    let bad_path = HttpRequest {
        method: Method::Get,
        path: b"/_matrix/key/v2".to_vec(),
        query: Vec::new(),
        headers: Vec::new(),
        body: Vec::new(),
    };
    assert!(matches!(
        parse_request(&ep.desc, &ep.request_fields, &bad_path),
        Err(ParseError::MalformedPath)
    ));
}

#[test]
fn non_success_status_short_circuits() {
    let ep = get_server_keys_endpoint().unwrap();
    let msg = endpoint_bindings::marshal::HttpResponse {
        status: 404,
        headers: Vec::new(),
        body: b"gone".to_vec(),
    };
    match parse_response(&ep.response_fields, &msg) {
        Err(ParseError::TransportStatus { code, payload }) => {
            assert_eq!(code, 404);
            assert_eq!(payload, b"gone".to_vec());
        },
        other => panic!("unexpected: {:?}", other),
    }
}

#[test]
fn resolver_rejects_bad_shapes() {
    let ep = get_server_keys_endpoint().unwrap();
    let dup = vec![
        FieldDecl { name: b"f".to_vec(), tag: Some(Placement::Query), kind: FieldKind::Text },
        FieldDecl { name: b"f".to_vec(), tag: Some(Placement::Body), kind: FieldKind::Text },
    ];
    assert!(resolve_placements(&ep.desc, dup, true).is_err());
    let unclaimed = vec![FieldDecl {
        name: b"who".to_vec(),
        tag: Some(Placement::Path),
        kind: FieldKind::Text,
    }];
    assert!(resolve_placements(&ep.desc, unclaimed, true).is_err());
    let untagged_get = vec![FieldDecl { name: b"x".to_vec(), tag: None, kind: FieldKind::Text }];
    assert!(resolve_placements(&ep.desc, untagged_get, true).is_err());
    let ok = vec![FieldDecl {
        name: b"x".to_vec(),
        tag: Some(Placement::Query),
        kind: FieldKind::Text,
    }];
    assert!(resolve_placements(&ep.desc, ok, true).is_ok());
}

#[test]
fn path_placeholder_round_trip_with_encoding() {
    let desc = EndpointDescriptor {
        method: Method::Get,
        path: vec![
            PathSegment::Lit(b"_matrix".to_vec()),
            PathSegment::Param(b"room_id".to_vec()),
        ],
        auth: AuthKind::NoAuth,
        token_in_query: false,
        rate_limited: true,
        name: b"probe".to_vec(),
        description: b"A placeholder-bearing endpoint.".to_vec(),
    };
    let decls = vec![FieldDecl {
        name: b"room_id".to_vec(),
        tag: Some(Placement::Path),
        kind: FieldKind::Identifier,
    }];
    let fields = resolve_placements(&desc, decls, true).unwrap();
    let values = vec![b"!room:example.org".to_vec()];
    let msg = serialize_request(&desc, &fields, &values, &AuthStrategy::NoAuth).unwrap();
    assert_eq!(msg.path, b"/_matrix/%21room%3Aexample.org".to_vec());
    let parsed = parse_request(&desc, &fields, &msg).unwrap();
    assert_eq!(parsed.values, values);
}

#[test]
fn percent_coding_is_exact() {
    assert_eq!(percent_encode(b"a b/c~"), b"a%20b%2Fc~".to_vec());
    assert_eq!(percent_decode(b"a%20b%2Fc~").unwrap(), b"a b/c~".to_vec());
    assert!(percent_decode(b"%2").is_none());
    assert!(percent_decode(b"%zz").is_none());
}

#[test]
fn request_default_is_empty() {
    assert!(Request::default() == Request::new());
}
