use rimrs::ModsConfig;

#[test]
fn parse_mods_config_from_bytes() {
    let bytes: &[u8] = r#"
<?xml version="1.0" encoding="utf-8"?>
<ModsConfigData>
    <version>1.4.3613 rev641</version>
    <activeMods>
        <li>brrainz.harmony</li>
        <li>me.samboycoding.betterloading.dev</li>
        <li>ludeon.rimworld</li>
        <li>ludeon.rimworld.royalty</li>
        <li>ludeon.rimworld.ideology</li>
        <li>ludeon.rimworld.biotech</li>
        <li>vanillaexpanded.backgrounds</li>
        <li>unlimitedhugs.hugslib</li>
        <li>brrainz.achtung</li>
        <li>unlimitedhugs.allowtool</li>
    </activeMods>
    <knownExpansions>
        <li>ludeon.rimworld</li>
        <li>ludeon.rimworld.royalty</li>
        <li>ludeon.rimworld.ideology</li>
        <li>ludeon.rimworld.biotech</li>
    </knownExpansions>
</ModsConfigData>
    "#.as_bytes();
    let mods_config = ModsConfig::parse(bytes).unwrap();

    assert_eq!(mods_config.version.unwrap(), "1.4.3613 rev641");

    assert_eq!(mods_config.activeMods.len(), 10);
    assert_eq!(mods_config.activeMods, vec![
        "brrainz.harmony",
        "me.samboycoding.betterloading.dev",
        "ludeon.rimworld",
        "ludeon.rimworld.royalty",
        "ludeon.rimworld.ideology",
        "ludeon.rimworld.biotech",
        "vanillaexpanded.backgrounds",
        "unlimitedhugs.hugslib",
        "brrainz.achtung",
        "unlimitedhugs.allowtool",
    ]);

    assert_eq!(mods_config.knownExpansions.len(), 4);
    assert_eq!(mods_config.knownExpansions, vec![
       "ludeon.rimworld",
       "ludeon.rimworld.royalty",
       "ludeon.rimworld.ideology",
       "ludeon.rimworld.biotech",
    ]);
}

#[test]
fn serialize_mods_config() {
    let mods_config = ModsConfig {
        version: Some(String::from("1.4.3613 rev641")),
        activeMods: vec![
            String::from("brrainz.harmony"),
            String::from("me.samboycoding.betterloading.dev"),
            String::from("ludeon.rimworld"),
            String::from("ludeon.rimworld.royalty"),
            String::from("ludeon.rimworld.ideology"),
            String::from("ludeon.rimworld.biotech"),
            String::from("vanillaexpanded.backgrounds"),
            String::from("unlimitedhugs.hugslib"),
            String::from("brrainz.achtung"),
            String::from("unlimitedhugs.allowtool"),
        ],
        knownExpansions: vec![
           String::from("ludeon.rimworld"),
           String::from("ludeon.rimworld.royalty"),
           String::from("ludeon.rimworld.ideology"),
           String::from("ludeon.rimworld.biotech"),
        ],
    };
    let serialized = mods_config.to_xml_string();

    assert_eq!(serialized, r#"<?xml version="1.0" encoding="utf-8"?>
<ModsConfigData>
    <version>1.4.3613 rev641</version>
    <activeMods>
        <li>brrainz.harmony</li>
        <li>me.samboycoding.betterloading.dev</li>
        <li>ludeon.rimworld</li>
        <li>ludeon.rimworld.royalty</li>
        <li>ludeon.rimworld.ideology</li>
        <li>ludeon.rimworld.biotech</li>
        <li>vanillaexpanded.backgrounds</li>
        <li>unlimitedhugs.hugslib</li>
        <li>brrainz.achtung</li>
        <li>unlimitedhugs.allowtool</li>
    </activeMods>
    <knownExpansions>
        <li>ludeon.rimworld</li>
        <li>ludeon.rimworld.royalty</li>
        <li>ludeon.rimworld.ideology</li>
        <li>ludeon.rimworld.biotech</li>
    </knownExpansions>
</ModsConfigData>"#);
}

#[test]
fn deserialize_serialize_mods_config() {
     let data = r#"<?xml version="1.0" encoding="utf-8"?>
<ModsConfigData>
    <version>1.4.3613 rev641</version>
    <activeMods>
        <li>brrainz.harmony</li>
        <li>me.samboycoding.betterloading.dev</li>
        <li>ludeon.rimworld</li>
        <li>ludeon.rimworld.royalty</li>
        <li>ludeon.rimworld.ideology</li>
        <li>ludeon.rimworld.biotech</li>
        <li>vanillaexpanded.backgrounds</li>
        <li>unlimitedhugs.hugslib</li>
        <li>brrainz.achtung</li>
        <li>unlimitedhugs.allowtool</li>
    </activeMods>
    <knownExpansions>
        <li>ludeon.rimworld</li>
        <li>ludeon.rimworld.royalty</li>
        <li>ludeon.rimworld.ideology</li>
        <li>ludeon.rimworld.biotech</li>
    </knownExpansions>
</ModsConfigData>"#;

     let deserialized = ModsConfig::parse(data.as_bytes()).unwrap();
     let reserialized = deserialized.to_xml_string();

     assert_eq!(data, reserialized);
}
