static TEXT: &str = r#"
        <root>
            <li>abc</li>
            <li>123</li>
        </root>"#;

#[test]
fn parse_lis() {
    let lis = rimrs::mods::regex::parse_lis(TEXT);
    assert_eq!(lis, vec!["abc", "123"]);
}

#[test]
fn parse_lis_hashset() {
    let lis = rimrs::mods::regex::parse_lis_hashset(TEXT);
    assert!(lis.contains(&String::from("abc")));
    assert!(lis.contains(&String::from("123")));
}
