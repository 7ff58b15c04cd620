use rimrs::helpers::config::{get_config_dir, get_config_ini_path};
use rimrs::helpers::{fold_lis, strip_bom};
use rimrs::serialization::about::parse_about;
use rimrs::serialization::ini::{INIKeyValuePair, INIReader};
use rimrs::{sort, Dependency, MetaMap, ModList, ModMetaData, ModListValidator, RimPyConfig, SortError};

fn plain(id: &str) -> ModMetaData {
    ModMetaData {
        packageId: Some(String::from(id)),
        ..Default::default()
    }
}

fn store(ids: &[&str]) -> MetaMap {
    let mut mmd = MetaMap::new();
    for id in ids {
        mmd.insert(String::from(*id), plain(id));
    }
    mmd
}

fn owned(list: &[&str]) -> Vec<String> {
    list.iter().map(|s| String::from(*s)).collect()
}

#[test]
fn sort_missing_data() {
    let mods = owned(&["a"]);
    let mmd = MetaMap::new();
    assert_eq!(sort(&mods, &mmd), Err(SortError::MissingData));
}

#[test]
fn sort_is_order_insensitive() {
    let mut mmd = store(&["a", "b", "d"]);
    mmd.insert(
        String::from("c"),
        ModMetaData {
            packageId: Some(String::from("c")),
            loadAfter: Some(vec![String::from("d")]),
            ..Default::default()
        },
    );
    let one = sort(&owned(&["a", "b", "c", "d"]), &mmd).unwrap();
    let two = sort(&owned(&["d", "c", "b", "a"]), &mmd).unwrap();
    assert_eq!(one, two);
}

#[test]
fn sort_keeps_duplicates() {
    let mmd = store(&["a", "b"]);
    let sorted = sort(&owned(&["b", "a", "b"]), &mmd).unwrap();
    assert_eq!(sorted, owned(&["a", "b", "b"]));
}

#[test]
fn sort_respects_hard_dependency_edge() {
    let mut mmd = store(&["aaa"]);
    mmd.insert(
        String::from("aa"),
        ModMetaData {
            packageId: Some(String::from("aa")),
            modDependencies: Some(vec![Dependency {
                packageId: Some(String::from("aaa")),
                ..Default::default()
            }]),
            ..Default::default()
        },
    );
    let sorted = sort(&owned(&["aa", "aaa"]), &mmd).unwrap();
    assert_eq!(sorted, owned(&["aaa", "aa"]));
}

#[test]
fn sort_self_cycle() {
    let mut mmd = MetaMap::new();
    mmd.insert(
        String::from("a"),
        ModMetaData {
            packageId: Some(String::from("a")),
            loadAfter: Some(vec![String::from("a")]),
            ..Default::default()
        },
    );
    assert_eq!(sort(&owned(&["a"]), &mmd), Err(SortError::CyclicError));
}

#[test]
fn validator_errors_dominate_warnings() {
    let mut mmd = MetaMap::new();
    mmd.insert(
        String::from("b"),
        ModMetaData {
            modDependencies: Some(vec![Dependency {
                packageId: Some(String::from("a")),
                ..Default::default()
            }]),
            ..Default::default()
        },
    );
    let validator = ModListValidator::new(&mmd);
    let res = validator.validate(&owned(&["z", "b"]));
    assert!(res.is_err());
    assert_eq!(
        res.warnings().unwrap(),
        &vec![String::from("Couldn't find metadata for z")]
    );
    assert_eq!(res.errors().unwrap(), &vec![String::from("b requires a")]);
}

#[test]
fn validator_lowercases_identifiers() {
    let mmd = store(&["a"]);
    let validator = ModListValidator::new(&mmd);
    let res = validator.validate(&owned(&["A"]));
    assert!(res.is_ok());
}

#[test]
fn validation_result_flattens() {
    let mut mmd = MetaMap::new();
    mmd.insert(
        String::from("b"),
        ModMetaData {
            modDependencies: Some(vec![Dependency {
                packageId: Some(String::from("a")),
                ..Default::default()
            }]),
            ..Default::default()
        },
    );
    let validator = ModListValidator::new(&mmd);
    let res = validator.validate(&owned(&["z", "b"]));
    let flat = res.to_result().unwrap_err();
    assert_eq!(
        flat,
        vec![
            String::from("Couldn't find metadata for z"),
            String::from("b requires a"),
        ]
    );
}

#[test]
fn fold_lis_wraps_items() {
    let lis = owned(&["a", "b"]);
    let folded = fold_lis(&lis, 1);
    assert_eq!(&folded, "    <li>a</li>\n    <li>b</li>\n");
}

#[test]
fn strip_bom_removes_marker() {
    let with_bom: Vec<u8> = vec![239, 187, 191, b'<', b'a', b'>'];
    assert_eq!(strip_bom(&with_bom), b"<a>");
    let without: Vec<u8> = vec![b'<', b'a', b'>'];
    assert_eq!(strip_bom(&without), b"<a>");
}

#[test]
fn config_dir_from_appdata() {
    let dir = get_config_dir("C:\\Users\\someone\\AppData\\Roaming");
    assert_eq!(dir, "C:\\Users\\someone\\AppData\\LocalLow\\RimPy Mod Manager");
    let ini = get_config_ini_path("C:\\Users\\someone\\AppData\\Roaming");
    assert_eq!(
        ini,
        "C:\\Users\\someone\\AppData\\LocalLow\\RimPy Mod Manager\\config.ini"
    );
}

#[test]
fn parse_about_collects_fields() {
    let text = r#"<?xml version="1.0" encoding="utf-8"?>
<ModMetaData>
    <name>Example</name>
    <author>someone</author>
    <packageId>some.example</packageId>
    <supportedVersions>
        <li>1.3</li>
        <li>1.4</li>
    </supportedVersions>
    <modDependencies>
        <li>
            <packageId>base.game</packageId>
            <displayName>Base</displayName>
        </li>
    </modDependencies>
    <loadAfter>
        <li>other.mod</li>
    </loadAfter>
</ModMetaData>"#;
    let mmd = parse_about(text.as_bytes()).unwrap();
    assert_eq!(mmd.name.unwrap(), "Example");
    assert_eq!(mmd.author.unwrap(), "someone");
    assert_eq!(mmd.packageId.unwrap(), "some.example");
    let versions = mmd.supportedVersions.unwrap();
    assert!(versions.contains(&String::from("1.3")));
    assert!(versions.contains(&String::from("1.4")));
    let deps = mmd.modDependencies.unwrap();
    assert_eq!(deps.len(), 1);
    assert_eq!(deps[0].packageId.as_deref(), Some("base.game"));
    assert_eq!(deps[0].displayName.as_deref(), Some("Base"));
    assert_eq!(mmd.loadAfter.unwrap(), owned(&["other.mod"]));
}

#[test]
fn mod_list_keys_by_lowercased_id() {
    let list = ModList::from_mods(vec![plain("Some.Mod")]);
    assert!(list.mods.get("some.mod").is_some());
    assert!(list.mods.get("Some.Mod").is_none());
}

#[test]
fn ini_sections_and_rimpy_config() {
    let text = b"; comment\n[Folders]\nGame folder = C:\\Games\\RimWorld\n\
Config folder = C:\\Conf\n[StartupParams]\nargs = -quicktest\n"
        .to_vec();
    let mut reader = INIReader::from_bytes(text);
    let mut pairs: Vec<INIKeyValuePair> = Vec::new();
    while let Some(entry) = reader.next() {
        pairs.push(entry.unwrap());
    }
    assert_eq!(pairs.len(), 3);
    assert_eq!(pairs[0].section.as_deref(), Some("Folders"));
    assert_eq!(pairs[0].key, "Game folder");
    assert_eq!(pairs[0].value, "C:\\Games\\RimWorld");

    let conf = RimPyConfig::from_pairs(pairs);
    assert_eq!(conf.folders.game_folder.as_deref(), Some("C:\\Games\\RimWorld"));
    assert_eq!(conf.folders.config_folder.as_deref(), Some("C:\\Conf"));
    assert_eq!(conf.startup_params.as_deref(), Some("-quicktest"));
    assert!(conf.colors.is_none());
    assert!(conf.folders.steam_mods.is_none());
}

#[test]
fn ini_value_keeps_non_ascii() {
    let text = "name = caf\u{e9}\n".as_bytes().to_vec();
    let mut reader = INIReader::from_bytes(text);
    let first = reader.next().unwrap().unwrap();
    assert_eq!(first.value, "caf\u{e9}");
}

#[test]
fn regex_tag_captures() {
    let text = "<name>Example Mod</name>";
    assert_eq!(rimrs::mods::regex::parse_name(text).unwrap(), "Example Mod");
    assert!(rimrs::mods::regex::parse_url(text).is_none());
    let la = rimrs::mods::regex::parse_loadAfter(
        "<loadAfter><li>x</li><li>y</li><li>x</li></loadAfter>",
    )
    .unwrap();
    assert_eq!(la, owned(&["x", "y"]));
}

#[test]
fn ini_rejects_invalid_utf8() {
    let text: Vec<u8> = vec![b'a', b' ', b'=', b' ', 0xff, 0xfe, b'\n'];
    let mut reader = INIReader::from_bytes(text);
    let entry = reader.next().unwrap();
    assert!(entry.is_err());
}

#[test]
fn ini_rejects_shapeless_line() {
    let text = b"no equals sign here\n".to_vec();
    let mut reader = INIReader::from_bytes(text);
    let entry = reader.next().unwrap();
    assert!(entry.is_err());
}

#[test]
fn mods_config_rejects_broken_xml() {
    let bytes = b"<ModsConfigData><unclosed".to_vec();
    assert!(rimrs::ModsConfig::parse(&bytes).is_err());
}

#[test]
fn sort_determinism_under_duplicates() {
    let mmd = store(&["a", "b", "c"]);
    let one = sort(&owned(&["c", "a", "b", "a"]), &mmd).unwrap();
    let two = sort(&owned(&["a", "b", "a", "c"]), &mmd).unwrap();
    assert_eq!(one, two);
    assert_eq!(one, owned(&["a", "a", "b", "c"]));
}
