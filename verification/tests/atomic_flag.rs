use rimrs::helpers::AtomicFlag;

#[test]
fn mostly_trivial() {
    let flag = AtomicFlag::new();
    assert!(!flag.check());
    flag.set();
    assert!(flag.check());
    flag.reset();
    assert!(!flag.check());
}
