use rimrs::serialization::ini::INIReader;

#[test]
fn ini_empty() {
    let text = "".as_bytes();
    let mut reader = INIReader::from_bytes(text.to_vec());
    assert!(reader.next().is_none());
}

#[test]
fn min_nonempty() {
    let text = "a = b".as_bytes();
    let mut reader = INIReader::from_bytes(text.to_vec());

    let first = reader.next().unwrap().unwrap();
    assert!(first.section.is_none());
    assert_eq!(first.key, "a");
    assert_eq!(first.value, "b");

    assert!(reader.next().is_none());
}
