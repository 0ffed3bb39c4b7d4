use kvs::endian::{push_be, read_be};
use kvs::record::{decode, encode_put, encode_tombstone, LogRecord};
use kvs::wire::{
    decode_request, decode_response, encode_request, encode_response, frame, handle_request,
    payload_len, Request, Response, ERR_KEY_NOT_FOUND,
};
use kvs::{Command, KvStore, KvsEngine};

#[test]
fn big_endian_round_trip() {
    let mut buf: Vec<u8> = Vec::new();
    push_be(&mut buf, 0x0102030405060708);
    assert_eq!(buf, vec![1, 2, 3, 4, 5, 6, 7, 8]);
    assert_eq!(read_be(&buf, 0), 0x0102030405060708);
}

#[test]
fn record_round_trip() {
    let put = encode_put(b"key1", b"value1");
    // tag, two 8-byte lengths, key, value
    assert_eq!(put.len(), 1 + 8 + 8 + 4 + 6);
    assert_eq!(put[0], 1);
    let (rec, used) = decode(&put, 0).unwrap();
    assert_eq!(used, put.len());
    assert_eq!(
        rec,
        LogRecord::Put { key: b"key1".to_vec(), value: b"value1".to_vec() }
    );

    let tomb = encode_tombstone(b"key1");
    assert_eq!(tomb.len(), 1 + 8 + 4);
    assert_eq!(tomb[0], 0);
    let (rec, used) = decode(&tomb, 0).unwrap();
    assert_eq!(used, tomb.len());
    assert_eq!(rec, LogRecord::Tombstone { key: b"key1".to_vec() });

    // an unknown tag does not decode
    assert!(decode(&[9u8, 0, 0, 0, 0, 0, 0, 0, 1, 65], 0).is_err());
    // a truncated tail does not decode
    assert!(decode(&put[..put.len() - 1], 0).is_err());
}

#[test]
fn request_round_trip() {
    let reqs = vec![
        Request::Put { key: b"key1".to_vec(), value: b"value1".to_vec() },
        Request::Get { key: b"key1".to_vec() },
        Request::Remove { key: b"key1".to_vec() },
    ];
    for req in reqs {
        let payload = encode_request(&req);
        assert_eq!(decode_request(&payload).unwrap(), req);
    }
    assert!(decode_request(b"").is_err());
}

#[test]
fn response_round_trip() {
    let resps = vec![
        Response::Value(None),
        Response::Value(Some(b"value1".to_vec())),
        Response::Error(vec![ERR_KEY_NOT_FOUND]),
    ];
    for resp in resps {
        let payload = encode_response(&resp);
        assert_eq!(decode_response(&payload).unwrap(), resp);
    }
}

#[test]
fn framing_round_trip() {
    let framed = frame(b"value1");
    assert_eq!(framed.len(), 8 + 6);
    assert_eq!(payload_len(&framed[..8]).unwrap(), 6);
    assert_eq!(&framed[8..], b"value1");
}

#[test]
fn command_becomes_request() {
    let cmd = Command::Put { key: String::from("key1"), value: String::from("value1") };
    assert_eq!(
        kvs::command::request_of(&cmd),
        Request::Put { key: b"key1".to_vec(), value: b"value1".to_vec() }
    );
    let cmd = Command::Rm { key: String::from("key1") };
    assert_eq!(
        kvs::command::request_of(&cmd),
        Request::Remove { key: b"key1".to_vec() }
    );
}

#[test]
fn serve_requests() {
    let mut store = KvStore::open(Vec::new()).unwrap();
    let (resp, _) = handle_request(
        &mut store,
        Request::Put { key: b"key1".to_vec(), value: b"value1".to_vec() },
    );
    assert_eq!(resp, Response::Value(None));
    let (resp, ops) = handle_request(&mut store, Request::Get { key: b"key1".to_vec() });
    assert_eq!(resp, Response::Value(Some(b"value1".to_vec())));
    assert!(ops.is_empty());
    let (resp, _) = handle_request(&mut store, Request::Remove { key: b"key1".to_vec() });
    assert_eq!(resp, Response::Value(None));
    let (resp, _) = handle_request(&mut store, Request::Remove { key: b"key1".to_vec() });
    assert_eq!(resp, Response::Error(vec![ERR_KEY_NOT_FOUND]));
}

// Replaying the returned file operations against a shadow directory keeps it
// identical to the store's own files.
#[test]
fn file_ops_mirror_the_files() {
    fn apply(shadow: &mut Vec<kvs::GenFile>, ops: Vec<kvs::FileOp>) {
        for op in ops {
            match op {
                kvs::FileOp::Append { gen, bytes } => {
                    if let Some(f) = shadow.iter_mut().find(|f| f.gen == gen) {
                        f.data.extend_from_slice(&bytes);
                    } else {
                        shadow.push(kvs::GenFile { gen, data: bytes });
                    }
                },
                kvs::FileOp::Delete { gen } => {
                    shadow.retain(|f| f.gen != gen);
                },
            }
        }
    }
    fn same(shadow: &Vec<kvs::GenFile>, files: &Vec<kvs::GenFile>) -> bool {
        shadow.len() == files.len()
            && shadow
                .iter()
                .zip(files.iter())
                .all(|(a, b)| a.gen == b.gen && a.data == b.data)
    }

    let mut store = KvStore::open_with_limits(Vec::new(), 128, 64).unwrap();
    let mut shadow: Vec<kvs::GenFile> = Vec::new();
    for i in 0..100usize {
        let ops = store
            .set(format!("key{}", i % 7).as_bytes(), format!("value{}", i).as_bytes())
            .unwrap();
        apply(&mut shadow, ops);
        assert!(same(&shadow, store.files()));
    }
    let ops = store.remove(b"key1").unwrap();
    // the removal's first operation appends the encoded tombstone
    match &ops[0] {
        kvs::FileOp::Append { bytes, .. } => {
            assert_eq!(bytes, &encode_tombstone(b"key1"));
        },
        other => panic!("expected an append, got {:?}", other),
    }
    apply(&mut shadow, ops);
    assert!(same(&shadow, store.files()));

    // the shadow directory reopens to the same data
    let reopened = KvStore::open_with_limits(shadow, 128, 64).unwrap();
    for i in 0..7usize {
        assert_eq!(
            reopened.get(format!("key{}", i).as_bytes()).unwrap(),
            store.get(format!("key{}", i).as_bytes()).unwrap()
        );
    }
}

// The sled-backed engine against a real on-disk tree.
#[test]
fn sled_engine() {
    let mut engine = kvs::Sled::open("/tmp/kvs_sled_engine_test_dir").unwrap();
    engine.set(b"key1", b"value1").unwrap();
    assert_eq!(engine.get(b"key1").unwrap(), Some(b"value1".to_vec()));
    engine.remove(b"key1").unwrap();
    assert_eq!(engine.get(b"key1").unwrap(), None);
    assert!(engine.remove(b"key1").is_err());
}
