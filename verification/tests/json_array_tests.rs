use arweave_dumper::json_array::ArrayWriter;

#[test]
fn test_array_writer() {
    let mut writer: Vec<u8> = Vec::with_capacity(100);
    let mut array_writer = ArrayWriter::new(&mut writer);

    array_writer.write_open_bracket();
    array_writer.write_item(&b"\"abc\"".to_vec());
    array_writer.write_item(&b"\"123\"".to_vec());
    array_writer.write_item(&b"\"last\"".to_vec());
    array_writer.write_close_bracket();

    let out = array_writer.take_pending();
    assert_eq!(
        String::from_utf8_lossy(&out),
        "[\n\"abc\",\n\"123\",\n\"last\"\n]\n"
    );
}

#[test]
fn draining_between_writes_loses_nothing() {
    let mut all = Vec::new();
    let mut array_writer = ArrayWriter::new(());
    array_writer.write_open_bracket();
    all.extend_from_slice(&array_writer.take_pending());
    array_writer.write_item(&b"1".to_vec());
    all.extend_from_slice(&array_writer.take_pending());
    array_writer.write_item(&b"2".to_vec());
    array_writer.write_close_bracket();
    all.extend_from_slice(&array_writer.take_pending());
    assert_eq!(array_writer.take_pending(), Vec::<u8>::new());
    assert_eq!(String::from_utf8_lossy(&all), "[\n1,\n2\n]\n");
}
