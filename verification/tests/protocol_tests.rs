// Tests of the share store and the custodian protocol surface: round trips,
// isolation between ceremonies, and the wire encoding of scalars.

use quorum::{
    bytes_to_scalar, scalar_to_bytes, CustodianService, FragmentError, Scalar, Share,
    ShareStore,
};

fn service() -> CustodianService {
    CustodianService::new(ShareStore::new(), String::from("node-test"))
}

#[test]
fn protocol_round_trip() {
    let mut svc = service();
    let x = scalar_to_bytes(&Scalar::from_u64(1));
    let y = scalar_to_bytes(&Scalar::from_u64(49));

    let outcome = svc.store_share(String::from("ceremony-001"), x.clone(), y.clone());
    assert!(outcome.success);

    let data = svc.retrieve_share(String::from("ceremony-001")).unwrap();
    assert_eq!(data.ceremony_id, "ceremony-001");
    assert_eq!(data.x, x);
    assert_eq!(data.y, y);
}

#[test]
fn retrieve_unknown_ceremony_is_not_found() {
    let svc = service();
    assert!(matches!(
        svc.retrieve_share(String::from("no-such-ceremony")),
        Err(FragmentError::ShareNotFound)
    ));
}

#[test]
fn stores_under_distinct_ceremonies_are_isolated() {
    let mut svc = service();
    let x1 = scalar_to_bytes(&Scalar::from_u64(1));
    let y1 = scalar_to_bytes(&Scalar::from_u64(11));
    let x2 = scalar_to_bytes(&Scalar::from_u64(2));
    let y2 = scalar_to_bytes(&Scalar::from_u64(22));

    assert!(svc.store_share(String::from("ceremony-a"), x1.clone(), y1.clone()).success);
    assert!(svc.store_share(String::from("ceremony-b"), x2.clone(), y2.clone()).success);

    let a = svc.retrieve_share(String::from("ceremony-a")).unwrap();
    assert_eq!((a.x, a.y), (x1, y1));
    let b = svc.retrieve_share(String::from("ceremony-b")).unwrap();
    assert_eq!((b.x, b.y), (x2, y2));
}

#[test]
fn later_store_overwrites_same_ceremony() {
    let mut svc = service();
    let x = scalar_to_bytes(&Scalar::from_u64(1));
    let y1 = scalar_to_bytes(&Scalar::from_u64(100));
    let y2 = scalar_to_bytes(&Scalar::from_u64(200));

    assert!(svc.store_share(String::from("ceremony-r"), x.clone(), y1).success);
    assert!(svc.store_share(String::from("ceremony-r"), x.clone(), y2.clone()).success);

    let data = svc.retrieve_share(String::from("ceremony-r")).unwrap();
    assert_eq!(data.y, y2);
}

#[test]
fn malformed_lengths_are_refused() {
    let mut svc = service();
    let short = vec![1u8, 2, 3];
    let y = scalar_to_bytes(&Scalar::from_u64(5));
    let outcome = svc.store_share(String::from("ceremony-bad"), short, y);
    assert!(!outcome.success);
    assert!(matches!(
        svc.retrieve_share(String::from("ceremony-bad")),
        Err(FragmentError::ShareNotFound)
    ));
}

#[test]
fn join_ceremony_acknowledges() {
    let svc = service();
    let outcome = svc.join_ceremony("node-7");
    assert!(outcome.success);
    assert_eq!(outcome.assigned_index, 0);
    assert_eq!(outcome.message, "welcome to the ceremony, node-7");
}

#[test]
fn share_store_basic_operations() {
    let mut store = ShareStore::new();
    assert!(!store.contains("c1"));
    assert!(store.retrieve("c1").is_none());

    let share = Share { x: Scalar::from_u64(1), y: Scalar::from_u64(49) };
    store.store(String::from("c1"), share.clone());
    assert!(store.contains("c1"));
    let held = store.retrieve("c1").unwrap();
    assert_eq!(held, share);
    assert!(!store.contains("c2"));
}

#[test]
fn scalar_byte_encoding_round_trip() {
    let s = Scalar::from_u64(123456789);
    let bytes = scalar_to_bytes(&s);
    assert_eq!(bytes.len(), 32);
    assert_eq!(bytes_to_scalar(&bytes), s);
}

#[test]
fn out_of_range_bytes_are_reduced() {
    // the field order plus one, big-endian: reduces to 1
    let mut bytes = vec![
        0xFF, 0xFF, 0xFF, 0xFF, 0xFF, 0xFF, 0xFF, 0xFF, 0xFF, 0xFF, 0xFF, 0xFF, 0xFF, 0xFF,
        0xFF, 0xFE, 0xBA, 0xAE, 0xDC, 0xE6, 0xAF, 0x48, 0xA0, 0x3B, 0xBF, 0xD2, 0x5E, 0x8C,
        0xD0, 0x36, 0x41, 0x41,
    ];
    let last = bytes.len() - 1;
    bytes[last] = 0x42;
    assert_eq!(bytes_to_scalar(&bytes), Scalar::from_u64(1));
}
