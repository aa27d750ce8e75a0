use rpg_combat::utils::{check_for_save_file, save_file_path, validate_yaml_extension};

#[test]
fn test_save_file_path() {
    assert_eq!(save_file_path(&"combat.yaml".to_string()), ".combat.yaml.bkp");
    assert_eq!(
        save_file_path(&"some/dir/combat.yaml".to_string()),
        "some/dir/.combat.yaml.bkp"
    );
}

#[test]
fn test_check_for_save_file() {
    let found = check_for_save_file(&"combat.yaml".to_string(), true);
    assert_eq!(found, Some(".combat.yaml.bkp".to_string()));
    let missing = check_for_save_file(&"combat.yaml".to_string(), false);
    assert_eq!(missing, None);
}

#[test]
fn test_validate_yaml_extension() {
    assert_eq!(validate_yaml_extension(&"combat.yaml".to_string()), Ok(true));
    assert_eq!(validate_yaml_extension(&"combat.YML".to_string()), Ok(true));
    assert_eq!(validate_yaml_extension(&"dir/combat.YaMl".to_string()), Ok(true));
    assert_eq!(validate_yaml_extension(&"combat.txt".to_string()), Ok(false));
    // no extension at all is an error
    assert!(validate_yaml_extension(&"combat".to_string()).is_err());
    // a hidden file's leading dot is no extension separator
    assert!(validate_yaml_extension(&"dir/.yaml".to_string()).is_err());
}
