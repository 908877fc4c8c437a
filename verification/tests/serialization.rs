use raylet_rs::serialization::{split_buffer, MessagePackSerializedObject, MESSAGE_PACK_OFFSET};

#[test]
fn to_bytes_lays_out_length_payload_and_nested() {
    let obj = MessagePackSerializedObject { msgpack_data: vec![7, 8, 9], nested_bytes: Some(vec![1, 2]) };
    assert_eq!(obj.total_bytes(), MESSAGE_PACK_OFFSET + 5);
    assert_eq!(obj.to_bytes(), vec![3, 0, 0, 0, 0, 0, 0, 0, 0, 7, 8, 9, 1, 2]);
}

#[test]
fn split_buffer_undoes_to_bytes() {
    let obj = MessagePackSerializedObject { msgpack_data: vec![0xaa; 300], nested_bytes: Some(vec![5, 6, 7]) };
    let bytes = obj.to_bytes();
    assert_eq!(&bytes[..2], &[44, 1]);
    let (msgpack, nested) = split_buffer(&bytes);
    assert_eq!(msgpack, vec![0xaa; 300]);
    assert_eq!(nested, vec![5, 6, 7]);
}

#[test]
fn split_buffer_of_short_input_is_empty() {
    assert_eq!(split_buffer(&[1, 2, 3]), (vec![], vec![]));
}

#[test]
fn split_buffer_stops_at_end_of_input() {
    let data = [200, 0, 0, 0, 0, 0, 0, 0, 0, 1, 2];
    assert_eq!(split_buffer(&data), (vec![1, 2], vec![]));
}

#[test]
fn to_bytes_without_nested_object() {
    let obj = MessagePackSerializedObject { msgpack_data: vec![], nested_bytes: None };
    assert_eq!(obj.to_bytes(), vec![0; 9]);
}
