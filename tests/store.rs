use bytes::Bytes;
use simple_redis::dispatch::{dispatch, Command};
use simple_redis::frame::Frame;
use simple_redis::store::Store;

fn get(store: &mut Store, key: &str) -> Frame {
    dispatch(store, Command::Get(key.to_string()))
}

fn set(store: &mut Store, key: &str, value: &[u8]) -> Frame {
    dispatch(store, Command::SetKey(key.to_string(), Bytes::from(value.to_vec())))
}

#[test]
fn set_then_get_and_overwrite() {
    let mut store = Store::new();
    assert_eq!(set(&mut store, "a", b"1"), Frame::Simple("OK".to_string()));
    assert_eq!(get(&mut store, "a"), Frame::Bulk(Bytes::from(b"1".to_vec())));
    assert_eq!(get(&mut store, "missing"), Frame::Null);
    assert_eq!(set(&mut store, "a", b"2"), Frame::Simple("OK".to_string()));
    assert_eq!(get(&mut store, "a"), Frame::Bulk(Bytes::from(b"2".to_vec())));
}

#[test]
fn distinct_keys_are_independent() {
    let mut store = Store::new();
    for i in 0..100u32 {
        assert_eq!(
            set(&mut store, &format!("key{}", i), format!("value{}", i).as_bytes()),
            Frame::Simple("OK".to_string())
        );
    }
    for i in 0..100u32 {
        assert_eq!(
            get(&mut store, &format!("key{}", i)),
            Frame::Bulk(Bytes::from(format!("value{}", i).into_bytes()))
        );
    }
}

#[test]
fn store_get_and_set_directly() {
    let mut store = Store::new();
    assert_eq!(store.get(&"k".to_string()), None);
    store.set("k".to_string(), Bytes::from(vec![0u8, 255]));
    store.set("j".to_string(), Bytes::new());
    assert_eq!(store.get(&"k".to_string()), Some(Bytes::from(vec![0u8, 255])));
    assert_eq!(store.get(&"j".to_string()), Some(Bytes::new()));
}

#[test]
fn unknown_command_gets_error_frame() {
    let mut store = Store::new();
    assert_eq!(
        dispatch(&mut store, Command::Unknown),
        Frame::Error("ERR unknown command".to_string())
    );
    assert_eq!(get(&mut store, "a"), Frame::Null);
}

fn bulk(b: &[u8]) -> Frame {
    Frame::Bulk(Bytes::from(b.to_vec()))
}

#[test]
fn from_frame_reads_get_and_set() {
    let get = Command::from_frame(Frame::Array(vec![bulk(b"GET"), bulk(b"a")]));
    assert!(matches!(get, Command::Get(ref k) if k == "a"));
    let set = Command::from_frame(Frame::Array(vec![bulk(b"sEt"), bulk(b"k"), bulk(b"v\r\n")]));
    match set {
        Command::SetKey(k, v) => {
            assert_eq!(k, "k");
            assert_eq!(&v[..], b"v\r\n");
        }
        _ => panic!("expected SET"),
    }
}

#[test]
fn from_frame_refuses_other_shapes() {
    let cases = vec![
        Frame::Simple("GET a".to_string()),
        Frame::Array(vec![]),
        Frame::Array(vec![bulk(b"get")]),
        Frame::Array(vec![bulk(b"get"), bulk(b"a"), bulk(b"b")]),
        Frame::Array(vec![bulk(b"set"), bulk(b"a")]),
        Frame::Array(vec![bulk(b"del"), bulk(b"a")]),
        Frame::Array(vec![bulk(b"gets"), bulk(b"a")]),
        Frame::Array(vec![bulk(b"get"), Frame::Integer(1)]),
        Frame::Array(vec![bulk(b"get"), bulk(b"\xff")]),
    ];
    for frame in cases {
        assert!(matches!(Command::from_frame(frame), Command::Unknown));
    }
}

#[test]
fn request_frames_drive_the_store() {
    let mut store = Store::new();
    let set = Frame::Array(vec![bulk(b"SET"), bulk(b"hello"), bulk(b"world")]);
    assert_eq!(dispatch(&mut store, Command::from_frame(set)), Frame::Simple("OK".to_string()));
    let get = Frame::Array(vec![bulk(b"GET"), bulk(b"hello")]);
    assert_eq!(dispatch(&mut store, Command::from_frame(get)), bulk(b"world"));
}
