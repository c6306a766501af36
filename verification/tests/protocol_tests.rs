use kvs::client::{get_outcome, remove_outcome, set_outcome};
use kvs::codec::str_to_chars;
use kvs::common::{
    decode_get_response, decode_remove_response, decode_request, decode_set_response,
    encode_get_response, encode_remove_response, encode_request, encode_set_response, GetResponse,
    RemoveResponse, Request, SetResponse,
};
use kvs::server::KvsServer;
use kvs::store::KvStore;
use kvs::KvsEngine;
use kvs::KvsError;

#[test]
fn request_round_trip() {
    let frames = vec![
        Request::Get { key: "a key".to_string() },
        Request::Put { key: "k;".to_string(), value: "v\\".to_string() },
        Request::Remove { key: "gone".to_string() },
    ];
    for req in frames {
        let text = encode_request(&req);
        let data = str_to_chars(text.as_str());
        let (decoded, end) = decode_request(&data, 0).unwrap();
        assert_eq!(end, data.len());
        match (req, decoded) {
            (Request::Get { key: a }, Request::Get { key: b }) => assert_eq!(a, b),
            (
                Request::Put { key: a, value: av },
                Request::Put { key: b, value: bv },
            ) => {
                assert_eq!(a, b);
                assert_eq!(av, bv);
            },
            (Request::Remove { key: a }, Request::Remove { key: b }) => assert_eq!(a, b),
            _ => panic!("request changed shape over the wire"),
        }
    }
}

#[test]
fn get_response_round_trip() {
    let some = GetResponse::Success(Some("v;1".to_string()));
    let data = str_to_chars(encode_get_response(&some).as_str());
    let (d, end) = decode_get_response(&data, 0).unwrap();
    assert_eq!(end, data.len());
    assert!(matches!(d, GetResponse::Success(Some(v)) if v == "v;1"));

    let none = GetResponse::Success(None);
    let data = str_to_chars(encode_get_response(&none).as_str());
    let (d, end) = decode_get_response(&data, 0).unwrap();
    assert_eq!(end, data.len());
    assert!(matches!(d, GetResponse::Success(None)));

    let fail = GetResponse::Failure("oh no".to_string());
    let data = str_to_chars(encode_get_response(&fail).as_str());
    let (d, end) = decode_get_response(&data, 0).unwrap();
    assert_eq!(end, data.len());
    assert!(matches!(d, GetResponse::Failure(m) if m == "oh no"));
}

#[test]
fn set_and_remove_response_round_trip() {
    let data = str_to_chars(encode_set_response(&SetResponse::Success).as_str());
    let (d, end) = decode_set_response(&data, 0).unwrap();
    assert_eq!(end, data.len());
    assert!(matches!(d, SetResponse::Success));

    let data = str_to_chars(encode_set_response(&SetResponse::Failure("x".to_string())).as_str());
    let (d, _) = decode_set_response(&data, 0).unwrap();
    assert!(matches!(d, SetResponse::Failure(m) if m == "x"));

    let data = str_to_chars(encode_remove_response(&RemoveResponse::Success).as_str());
    let (d, end) = decode_remove_response(&data, 0).unwrap();
    assert_eq!(end, data.len());
    assert!(matches!(d, RemoveResponse::Success));

    let data = str_to_chars(
        encode_remove_response(&RemoveResponse::Failure("Key not found".to_string())).as_str(),
    );
    let (d, _) = decode_remove_response(&data, 0).unwrap();
    assert!(matches!(d, RemoveResponse::Failure(m) if m == "Key not found"));
}

#[test]
fn client_outcomes() {
    let r = get_outcome(GetResponse::Success(Some("1".to_string())));
    assert_eq!(r.unwrap(), Some("1".to_string()));
    let r = get_outcome(GetResponse::Failure("remote broke".to_string()));
    assert!(matches!(r, Err(KvsError::StringError(m)) if m == "remote broke"));
    assert!(set_outcome(SetResponse::Success).is_ok());
    assert!(matches!(
        set_outcome(SetResponse::Failure("e".to_string())),
        Err(KvsError::StringError(_))
    ));
    assert!(remove_outcome(RemoveResponse::Success).is_ok());
    assert!(matches!(
        remove_outcome(RemoveResponse::Failure("e".to_string())),
        Err(KvsError::StringError(_))
    ));
}

#[test]
fn client_server_session() {
    let store = KvStore::open(Vec::new()).unwrap();
    let mut server = KvsServer::new(store);

    // set "a" "1"
    let frame = server.serve_request(Request::Put { key: "a".to_string(), value: "1".to_string() });
    let data = str_to_chars(frame.as_str());
    let (resp, end) = decode_set_response(&data, 0).unwrap();
    assert_eq!(end, data.len());
    assert!(set_outcome(resp).is_ok());

    // get "a" -> Ok(Some("1"))
    let frame = server.serve_request(Request::Get { key: "a".to_string() });
    let data = str_to_chars(frame.as_str());
    let (resp, _) = decode_get_response(&data, 0).unwrap();
    assert_eq!(get_outcome(resp).unwrap(), Some("1".to_string()));

    // remove "a" -> Ok
    let frame = server.serve_request(Request::Remove { key: "a".to_string() });
    let data = str_to_chars(frame.as_str());
    let (resp, _) = decode_remove_response(&data, 0).unwrap();
    assert!(remove_outcome(resp).is_ok());

    // get "a" -> Ok(None)
    let frame = server.serve_request(Request::Get { key: "a".to_string() });
    let data = str_to_chars(frame.as_str());
    let (resp, _) = decode_get_response(&data, 0).unwrap();
    assert_eq!(get_outcome(resp).unwrap(), None);

    // remove "a" -> Err carrying the engine's message
    let frame = server.serve_request(Request::Remove { key: "a".to_string() });
    let data = str_to_chars(frame.as_str());
    let (resp, _) = decode_remove_response(&data, 0).unwrap();
    let r = remove_outcome(resp);
    assert!(matches!(r, Err(KvsError::StringError(m)) if m == "Key not found"));
}

fn run_engine<E: KvsEngine>(engine: &mut E) {
    engine.set("t".to_string(), "u".to_string()).unwrap();
    assert_eq!(engine.get("t".to_string()).unwrap(), Some("u".to_string()));
    engine.remove("t".to_string()).unwrap();
    assert_eq!(engine.get("t".to_string()).unwrap(), None);
}

#[test]
fn engine_trait_dispatch() {
    let mut store = KvStore::open(Vec::new()).unwrap();
    run_engine(&mut store);
}
