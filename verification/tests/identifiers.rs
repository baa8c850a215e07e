use status_feed::identifier::{
    compose, node, sequence, timestamp, unix_millis, EPOCH_UNIX_MILLIS, NODE_LIMIT,
    SEQUENCE_LIMIT, TIMESTAMP_LIMIT, TIMESTAMP_STRIDE,
};

#[test]
fn limits_fill_sixty_four_bits() {
    assert_eq!(TIMESTAMP_LIMIT, 1u64 << 42);
    assert_eq!(NODE_LIMIT, 1u64 << 10);
    assert_eq!(SEQUENCE_LIMIT, 1u64 << 12);
    assert_eq!(TIMESTAMP_STRIDE, NODE_LIMIT * SEQUENCE_LIMIT);
    assert_eq!(EPOCH_UNIX_MILLIS, 1_483_228_800_000);
}

#[test]
fn compose_places_each_field() {
    assert_eq!(compose(0, 0, 0), Some(0));
    assert_eq!(compose(0, 0, 1), Some(1));
    assert_eq!(compose(0, 1, 0), Some(4_096));
    assert_eq!(compose(1, 0, 0), Some(4_194_304));
    assert_eq!(compose(5, 3, 7), Some(20_983_815));
    assert_eq!(compose(5, 3, 7), Some((5 << 22) | (3 << 12) | 7));
}

#[test]
fn compose_reaches_the_greatest_number() {
    let id = compose(TIMESTAMP_LIMIT - 1, NODE_LIMIT - 1, SEQUENCE_LIMIT - 1);
    assert_eq!(id, Some(u64::MAX));
}

#[test]
fn compose_refuses_a_field_that_does_not_fit() {
    assert_eq!(compose(TIMESTAMP_LIMIT, 0, 0), None);
    assert_eq!(compose(0, NODE_LIMIT, 0), None);
    assert_eq!(compose(0, 0, SEQUENCE_LIMIT), None);
    assert_eq!(compose(u64::MAX, u64::MAX, u64::MAX), None);
}

#[test]
fn fields_come_back_out() {
    let id = compose(123_456_789, 1_000, 4_000).unwrap();
    assert_eq!(timestamp(id), 123_456_789);
    assert_eq!(node(id), 1_000);
    assert_eq!(sequence(id), 4_000);
    assert_eq!(unix_millis(id), EPOCH_UNIX_MILLIS + 123_456_789);
}

#[test]
fn fields_of_the_extremes() {
    assert_eq!((timestamp(0), node(0), sequence(0)), (0, 0, 0));
    assert_eq!(unix_millis(0), EPOCH_UNIX_MILLIS);
    assert_eq!(timestamp(u64::MAX), TIMESTAMP_LIMIT - 1);
    assert_eq!(node(u64::MAX), NODE_LIMIT - 1);
    assert_eq!(sequence(u64::MAX), SEQUENCE_LIMIT - 1);
    assert_eq!(unix_millis(u64::MAX), 1_483_228_800_000 + 4_398_046_511_103);
}

#[test]
fn identifiers_order_by_timestamp_then_node_then_sequence() {
    let a = compose(10, 1_023, 4_095).unwrap();
    let b = compose(11, 0, 0).unwrap();
    assert!(a < b);
    let c = compose(10, 5, 4_095).unwrap();
    let d = compose(10, 6, 0).unwrap();
    assert!(c < d);
    let e = compose(10, 5, 8).unwrap();
    let f = compose(10, 5, 9).unwrap();
    assert!(e < f);
}
