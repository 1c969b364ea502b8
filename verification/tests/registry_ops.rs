use nl_core::ident::derive_identifier;
use nl_core::json::encode_instance;
use nl_core::listing::list_instances;
use nl_core::record::InstanceConfig;
use nl_core::registry::{add_game_to_config, remove_game_from_config, Config, RemoveOutcome};

#[test]
fn create_then_list_single_entry() {
    let id = derive_identifier("Test Game");
    assert_eq!(id, "test_game");
    let mut config = Config::new();
    let existed = add_game_to_config(
        &mut config,
        id.clone(),
        "Test Game".to_string(),
        "/games/test".to_string(),
    );
    assert!(!existed);
    assert_eq!(config.instances.len(), 1);
    assert_eq!(config.instances[0].0, "test_game");
    assert_eq!(config.instances[0].1.game_name, "Test Game");
    assert_eq!(config.instances[0].1.game_path, "/games/test");
}

#[test]
fn create_twice_same_name_overwrites() {
    let id = derive_identifier("Test Game");
    let mut config = Config::new();
    let first = add_game_to_config(
        &mut config,
        id.clone(),
        "Test Game".to_string(),
        "/old/path".to_string(),
    );
    let second = add_game_to_config(
        &mut config,
        id.clone(),
        "Test Game".to_string(),
        "/new/path".to_string(),
    );
    assert!(!first);
    assert!(second);
    assert_eq!(config.instances.len(), 1);
    assert_eq!(config.instances[0].1.game_path, "/new/path");
}

#[test]
fn remove_nonexistent_is_not_found() {
    let mut empty = Config::new();
    match remove_game_from_config(&mut empty, &"nope".to_string()) {
        RemoveOutcome::NotFound => {}
        RemoveOutcome::Removed(_) => panic!("nothing should be removed from an empty registry"),
    }
    assert_eq!(empty.instances.len(), 0);

    let mut other = Config::new();
    add_game_to_config(
        &mut other,
        "foo".to_string(),
        "Foo".to_string(),
        "/f".to_string(),
    );
    match remove_game_from_config(&mut other, &"nope".to_string()) {
        RemoveOutcome::NotFound => {}
        RemoveOutcome::Removed(_) => panic!("a non-matching identifier must not remove anything"),
    }
    assert_eq!(other.instances.len(), 1);
    assert_eq!(other.instances[0].0, "foo");
    assert_eq!(other.instances[0].1.game_name, "Foo");
}

#[test]
fn remove_existing_returns_record_and_empties_registry() {
    let mut config = Config::new();
    let id = derive_identifier("Foo");
    add_game_to_config(&mut config, id, "Foo".to_string(), "/foo".to_string());
    match remove_game_from_config(&mut config, &"foo".to_string()) {
        RemoveOutcome::Removed(game) => {
            assert_eq!(game.game_name, "Foo");
            assert_eq!(game.game_path, "/foo");
        }
        RemoveOutcome::NotFound => panic!("foo was just created"),
    }
    assert_eq!(config.instances.len(), 0);
}

fn stored(name: &str, path: &str) -> String {
    encode_instance(&InstanceConfig::new(
        name.to_string(),
        path.to_string(),
        "linux-native".to_string(),
        String::new(),
    ))
}

#[test]
fn listing_empty_store_is_empty() {
    let (entries, corrupt) = list_instances(&Vec::new());
    assert!(entries.is_empty());
    assert!(corrupt.is_empty());
}

#[test]
fn listing_after_create_yields_the_entry() {
    let files = vec![("test_game".to_string(), stored("Test Game", "/g"))];
    let (entries, corrupt) = list_instances(&files);
    assert_eq!(entries.len(), 1);
    assert!(corrupt.is_empty());
    assert_eq!(entries[0].0, "test_game");
    assert_eq!(entries[0].1.instance_name, "Test Game");
}

#[test]
fn listing_skips_and_reports_corrupt_entry() {
    let files = vec![
        ("alpha".to_string(), stored("Alpha", "/a")),
        ("broken".to_string(), "{ not valid json".to_string()),
        ("beta".to_string(), stored("Beta", "/b")),
    ];
    let (entries, corrupt) = list_instances(&files);
    assert_eq!(entries.len(), 2);
    assert_eq!(entries[0].0, "alpha");
    assert_eq!(entries[0].1.instance_name, "Alpha");
    assert_eq!(entries[1].0, "beta");
    assert_eq!(entries[1].1.instance_name, "Beta");
    assert_eq!(corrupt, vec!["broken".to_string()]);
}
