use gaal::directory_config::{
    GaalDirectoryConfig, GaalDirectoryConfigSection, GaalDirectoryConfigSectionItem,
};

#[test]
fn directory_config_test_get_section() {
    let mut section = GaalDirectoryConfigSection::new();
    let new_section = GaalDirectoryConfigSection::new();
    section.insert_section(&["section1"], new_section.clone(), false);
    let section = section.get_section(&["section1"]);
    assert_eq!(section, Some(new_section).as_ref());
}

#[test]
fn directory_config_test_get_multipath_section() {
    let mut section = GaalDirectoryConfigSection::new();
    let new_section = GaalDirectoryConfigSection::new();
    section.insert_section(&["section1", "section2", "section3"], new_section.clone(), true);
    let retrieved_section = section.get_section(&["section1", "section2", "section3"]);
    assert_eq!(retrieved_section, Some(new_section).as_ref());
}

#[test]
fn directory_config_test_insert_section() {
    let mut section = GaalDirectoryConfigSection::new();
    let new_section = GaalDirectoryConfigSection::new();
    section.insert_section(&["section1"], new_section.clone(), false);
    let section = section.get_section(&["section1"]);
    assert_eq!(section, Some(new_section).as_ref());
}

#[test]
fn directory_config_test_delete_section() {
    let mut section = GaalDirectoryConfigSection::new();
    let new_section = GaalDirectoryConfigSection::new();
    section.insert_section(&["section1"], new_section.clone(), false);
    section.delete_section(&["section1"]);
    let section = section.get_section(&["section1"]);
    assert_eq!(section, None);
}

#[test]
fn directory_config_test_get_item() {
    let mut section = GaalDirectoryConfigSection::new();
    let item = GaalDirectoryConfigSectionItem::new(&"value".to_string());
    let item_name = "item1";
    section.insert_item(&[item_name], item.clone(), false);
    let new_item = section.get_item(&[item_name]);
    assert_eq!(new_item, Some(item).as_ref());
}

#[test]
fn directory_config_test_get_multipath_item() {
    let mut section = GaalDirectoryConfigSection::new();
    let item = GaalDirectoryConfigSectionItem::new(&"value".to_string());
    let item_name = "item1";
    section.insert_item(&["section1", "section2", item_name], item.clone(), true);
    let new_item = section.get_item(&["section1", "section2", item_name]);
    assert_eq!(new_item, Some(item).as_ref());
}

#[test]
fn directory_config_test_delete_item() {
    let mut section = GaalDirectoryConfigSection::new();
    let item = GaalDirectoryConfigSectionItem::new(&"value".to_string());
    let item_name = "item1";
    section.insert_item(&[item_name], item.clone(), false);
    section.delete_item(&[item_name]);
    let item = section.get_item(&[item_name]);
    assert_eq!(item, None);
}

#[test]
fn test_get_section() {
    let mut config = GaalDirectoryConfig::new("config1");
    let section = GaalDirectoryConfigSection::new();
    config.insert_section(&["config_section1"], section.clone(), false);
    let retrieved_section = config.get_section(&["config_section1"]);
    assert_eq!(retrieved_section, Some(section).as_ref());
}

#[test]
fn test_get_multipath_section() {
    let mut config = GaalDirectoryConfig::new("config1");
    let section = GaalDirectoryConfigSection::new();
    config.insert_section(
        &["config_section1", "section2", "section3", "section4"],
        section.clone(),
        true,
    );
    let retrieved_section =
        config.get_section(&["config_section1", "section2", "section3", "section4"]);
    assert_eq!(retrieved_section, Some(section).as_ref());
}

#[test]
fn test_insert_section() {
    let mut config = GaalDirectoryConfig::new("config1");
    let section = GaalDirectoryConfigSection::new();
    config.insert_section(&["config_section1"], section.clone(), false);
    let retrieved_section = config.get_section(&["config_section1"]);
    assert_eq!(retrieved_section, Some(section).as_ref());
}

#[test]
fn test_delete_section() {
    let mut config = GaalDirectoryConfig::new("config1");
    let section = GaalDirectoryConfigSection::new();
    config.insert_section(&["config_section1"], section.clone(), false);
    config.delete_section(&["config_section1"]);
    let section = config.get_section(&["config_section1"]);
    assert_eq!(section, None);
}

#[test]
fn test_get_item() {
    let mut config = GaalDirectoryConfig::new("config1");
    let item = GaalDirectoryConfigSectionItem::new(&"value".to_string());
    let item_name = "item1";
    config.insert_item(&["config_section1", item_name], item.clone(), true);
    let new_item = config.get_item(&["config_section1", item_name]);
    assert_eq!(new_item, Some(item).as_ref());
}

#[test]
fn test_get_multipath_item() {
    let mut config = GaalDirectoryConfig::new("config1");
    let item = GaalDirectoryConfigSectionItem::new(&"value".to_string());
    let item_name = "item1";
    config.insert_item(
        &["config_section1", "section2", "section3", "section4", item_name],
        item.clone(),
        true,
    );
    let new_item =
        config.get_item(&["config_section1", "section2", "section3", "section4", item_name]);
    assert_eq!(new_item, Some(item).as_ref());
}

#[test]
fn test_delete_item() {
    let mut config = GaalDirectoryConfig::new("config1");
    let item = GaalDirectoryConfigSectionItem::new(&"value".to_string());
    let item_name = "item1";
    config.insert_item(&["config_section1", item_name], item.clone(), true);
    config.delete_item(&["config_section1", item_name]);
    let item = config.get_item(&["config_section1", item_name]);
    assert_eq!(item, None);
}

#[test]
fn test_insert_item() {
    let mut config = GaalDirectoryConfig::new("config1");
    let item = GaalDirectoryConfigSectionItem::new(&"value".to_string());
    let item_name = "item1";
    config.insert_item(&["config_section1", item_name], item.clone(), true);
    let new_item = config.get_item(&["config_section1", item_name]);
    assert_eq!(new_item, Some(item).as_ref());
}

#[test]
fn config_forced_item_round_trip() {
    let mut config = GaalDirectoryConfig::new("config1");
    let item = GaalDirectoryConfigSectionItem::new(&"v".to_string());
    config.insert_item(&["s1", "s2", "k"], item.clone(), true);
    assert_eq!(config.get_item(&["s1", "s2", "k"]), Some(item).as_ref());
    config.delete_item(&["s1", "s2", "k"]);
    assert_eq!(config.get_item(&["s1", "s2", "k"]), None);
}

#[test]
fn config_default_holds_core_items() {
    let config = GaalDirectoryConfig::default();
    assert_eq!(
        config.get_item(&["core", "repositoryformatversion"]).unwrap().get_value(),
        "0"
    );
    assert_eq!(config.get_item(&["core", "filemode"]).unwrap().get_value(), "false");
    assert_eq!(config.get_item(&["core", "bare"]).unwrap().get_value(), "false");
    assert_eq!(config.id(), "gal_config");
}

#[test]
fn config_unforced_insert_needs_parents() {
    let mut config = GaalDirectoryConfig::new("config1");
    let item = GaalDirectoryConfigSectionItem::new(&"v".to_string());
    config.insert_item(&["absent", "k"], item, false);
    assert_eq!(config.get_item(&["absent", "k"]), None);
}
