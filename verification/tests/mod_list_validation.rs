use rimrs::{Dependency, MetaMap, ModListValidator, ModMetaData};

fn generate_mod_meta_data() -> MetaMap {
    let mut mmd = MetaMap::new();

    mmd.insert(
        String::from("a"),
        ModMetaData {
            loadBefore: Some(vec![String::from("c")]),
            ..Default::default()
        },
    );
    mmd.insert(
        String::from("b"),
        ModMetaData {
            modDependencies: Some(vec![Dependency {
                packageId: Some(String::from("a")),
                ..Default::default()
            }]),
            ..Default::default()
        },
    );
    mmd.insert(String::from("c"), ModMetaData::default());
    mmd.insert(
        String::from("d"),
        ModMetaData {
            loadAfter: Some(vec![String::from("c")]),
            ..Default::default()
        },
    );
    mmd.insert(
        String::from("e"),
        ModMetaData {
            incompatibleWith: Some(vec![String::from("b")]),
            ..Default::default()
        },
    );

    mmd
}

fn validate(list: &[&str]) -> rimrs::ModListValidationResult {
    let mmd = generate_mod_meta_data();
    let validator = ModListValidator::new(&mmd);
    let owned: Vec<String> = list.iter().map(|s| String::from(*s)).collect();
    validator.validate(&owned)
}

#[test]
fn mod_list_validation_empty() {
    let res = validate(&[]);
    assert!(res.is_ok());
}

#[test]
fn no_mod_metadata() {
    let res = validate(&["z"]);
    assert!(res.is_warn());
    assert_eq!(
        res.warnings().unwrap(),
        &vec![String::from("Couldn't find metadata for z")]
    );
}

#[test]
fn all_in_order() {
    let res = validate(&["a", "b", "c", "d"]);
    assert!(res.is_ok());
}

#[test]
fn hard_dependency_missing() {
    let res = validate(&["b", "c"]);
    assert!(res.is_err());
    assert_eq!(res.errors().unwrap(), &vec![String::from("b requires a")]);
}

#[test]
fn load_after_wrong_order() {
    let res = validate(&["d", "c"]);
    assert!(res.is_warn());
    assert_eq!(
        res.warnings().unwrap(),
        &vec![String::from("d should be loaded after c")]
    );
}

#[test]
fn load_before_wrong_order() {
    let res = validate(&["c", "a"]);
    assert!(res.is_warn());
    assert_eq!(
        res.warnings().unwrap(),
        &vec![String::from("a should be loaded before c")]
    );
}

#[test]
fn incompatible() {
    let res = validate(&["e", "b"]);
    assert!(res.is_err());
    assert_eq!(
        res.errors().unwrap(),
        &vec![
            String::from("b requires a"),
            String::from("e is incompatible with b")
        ]
    );
}
