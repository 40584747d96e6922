use hookmaster::config::{ConfigError, GitHooksConfig};

#[test]
fn test_parse_toml() {
    let content = "\n# Comment\npre-commit = \"cargo fmt --check\"\npre-push = \"cargo test\"\ncommit-msg = \"\"\n";

    let config = GitHooksConfig::parse_toml(content).unwrap();

    assert_eq!(config.get_hook_command("pre-commit"), Some("cargo fmt --check"));
    assert_eq!(config.get_hook_command("pre-push"), Some("cargo test"));
    assert_eq!(config.get_hook_command("commit-msg"), Some(""));
}

#[test]
fn test_parse_escaped_quotes() {
    let content = "test-hook = \"echo \\\"Hello World\\\"\"";
    let config = GitHooksConfig::parse_toml(content).unwrap();
    assert_eq!(config.get_hook_command("test-hook"), Some("echo \"Hello World\""));
}

#[test]
fn test_parse_single_quotes() {
    let content = "test-hook = 'echo \"Hello World\"'";
    let config = GitHooksConfig::parse_toml(content).unwrap();
    assert_eq!(config.get_hook_command("test-hook"), Some("echo \"Hello World\""));
}

#[test]
fn test_parse_invalid_key() {
    let content = "invalid key = \"value\"";
    let result = GitHooksConfig::parse_toml(content);
    assert!(result.is_err());
    assert!(result.unwrap_err().message().contains("Invalid key"));
}

#[test]
fn test_to_toml_string() {
    let hooks = vec![
        ("pre-commit".to_string(), "test command".to_string()),
        ("pre-push".to_string(), "test2".to_string()),
    ];

    let config = GitHooksConfig { hooks };
    let toml_str = config.to_toml_string();

    assert!(toml_str.contains("pre-commit = \"test command\""));
    assert!(toml_str.contains("pre-push = \"test2\""));
}

#[test]
fn test_serialize_sorts_and_escapes() {
    let hooks = vec![
        ("zeta".to_string(), "b \\ c".to_string()),
        ("alpha".to_string(), "say \"hi\"".to_string()),
    ];
    let config = GitHooksConfig { hooks };
    let text = config.to_toml_string();
    assert_eq!(text, "alpha = \"say \\\"hi\\\"\"\nzeta = \"b \\\\ c\"\n");
}

#[test]
fn test_round_trip_mapping() {
    let hooks = vec![
        ("pre-commit".to_string(), "echo \"quoted\" and \\ slash".to_string()),
        ("commit-msg".to_string(), "".to_string()),
        ("pre-push".to_string(), "cargo test".to_string()),
    ];
    let config = GitHooksConfig { hooks };
    let text = config.to_toml_string();
    let back = GitHooksConfig::parse_toml(&text).unwrap();
    assert_eq!(back.get_hook_command("pre-commit"), Some("echo \"quoted\" and \\ slash"));
    assert_eq!(back.get_hook_command("commit-msg"), Some(""));
    assert_eq!(back.get_hook_command("pre-push"), Some("cargo test"));
    assert_eq!(back.hooks.len(), 3);
}

#[test]
fn test_parse_line_without_equals() {
    let result = GitHooksConfig::parse_toml("just some words\n");
    assert!(result.is_err());
    match result.unwrap_err() {
        ConfigError::InvalidLine { line, content } => {
            assert_eq!(line, 1);
            assert_eq!(content, "just some words");
        }
        _ => panic!("expected an invalid line error"),
    }
    let err = GitHooksConfig::parse_toml("just some words\n").unwrap_err();
    assert_eq!(
        err.message(),
        "Invalid TOML syntax on line 1: 'just some words'. Expected 'key = value' format."
    );
}

#[test]
fn test_parse_invalid_key_line_number() {
    let result = GitHooksConfig::parse_toml("# header\n\nok-key = \"x\"\nbad key = \"y\"\n");
    match result.unwrap_err() {
        ConfigError::InvalidKey { line, key } => {
            assert_eq!(line, 4);
            assert_eq!(key, "bad key");
            let msg = GitHooksConfig::parse_toml("# header\n\nok-key = \"x\"\nbad key = \"y\"\n")
                .unwrap_err()
                .message();
            assert_eq!(
                msg,
                "Invalid key 'bad key' on line 4. Keys cannot be empty or contain spaces."
            );
        }
        _ => panic!("expected an invalid key error"),
    }
}

#[test]
fn test_parse_unquoted_and_empty_values() {
    let config = GitHooksConfig::parse_toml("a = plain words\nb =\n").unwrap();
    assert_eq!(config.get_hook_command("a"), Some("plain words"));
    assert_eq!(config.get_hook_command("b"), Some(""));
}

#[test]
fn test_has_active_hook() {
    let config =
        GitHooksConfig::parse_toml("run = \"cargo test\"\nempty = \"\"\nblank = \"   \"\n")
            .unwrap();
    assert!(config.has_active_hook("run"));
    assert!(!config.has_active_hook("empty"));
    assert!(!config.has_active_hook("blank"));
    assert!(!config.has_active_hook("absent"));
}

#[test]
fn test_duplicate_keys_last_wins() {
    let config = GitHooksConfig::parse_toml("k = \"first\"\nk = \"second\"\n").unwrap();
    assert_eq!(config.get_hook_command("k"), Some("second"));
    assert_eq!(config.hooks.len(), 1);
}

#[test]
fn test_create_sample() {
    let sample = GitHooksConfig::create_sample();
    assert_eq!(
        sample.get_hook_command("pre-commit"),
        Some("cargo fmt --check && cargo clippy -- -D warnings")
    );
    assert_eq!(sample.get_hook_command("pre-push"), Some("cargo test"));
    assert_eq!(sample.get_hook_command("commit-msg"), Some(""));
    assert!(!sample.has_active_hook("commit-msg"));
}

#[test]
fn test_load_without_file() {
    let config = GitHooksConfig::load(None).unwrap();
    assert_eq!(config.hooks.len(), 0);
    assert_eq!(config.get_hook_command("anything"), None);
}

#[test]
fn test_load_with_content() {
    let config = GitHooksConfig::load(Some("pre-commit = \"make lint\"\n")).unwrap();
    assert_eq!(config.get_hook_command("pre-commit"), Some("make lint"));
}

#[test]
fn test_serialize_empty_config() {
    let config = GitHooksConfig { hooks: vec![] };
    assert_eq!(config.to_toml_string(), "\n");
    let back = GitHooksConfig::parse_toml(&config.to_toml_string()).unwrap();
    assert_eq!(back.hooks.len(), 0);
}
