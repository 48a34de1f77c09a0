use acli::config::{merge_configs, ConfigFile};

#[test]
fn test_merge_project_overrides_user() {
    let user = ConfigFile {
        deck: Some("UserDeck".into()),
        collection: Some("/user/col".into()),
        media_dir: Some("/user/media".into()),
        recursive: Some(false),
    };
    let project = ConfigFile {
        deck: Some("ProjectDeck".into()),
        collection: None,
        media_dir: None,
        recursive: None,
    };
    let merged = merge_configs(&user, &project);
    assert_eq!(merged.deck.as_deref(), Some("ProjectDeck"));
    assert_eq!(merged.collection, Some("/user/col".into()));
    assert_eq!(merged.media_dir, Some("/user/media".into()));
    assert_eq!(merged.recursive, Some(false));
}

#[test]
fn test_merge_user_fills_gaps() {
    let user = ConfigFile {
        deck: None,
        collection: Some("/user/col".into()),
        media_dir: None,
        recursive: None,
    };
    let project = ConfigFile {
        deck: Some("MyDeck".into()),
        collection: None,
        media_dir: None,
        recursive: None,
    };
    let merged = merge_configs(&user, &project);
    assert_eq!(merged.deck.as_deref(), Some("MyDeck"));
    assert_eq!(merged.collection, Some("/user/col".into()));
    assert!(merged.media_dir.is_none());
    assert!(merged.recursive.is_none());
}

#[test]
fn test_merge_both_empty() {
    let merged = merge_configs(&ConfigFile::default(), &ConfigFile::default());
    assert_eq!(merged, ConfigFile::default());
}

