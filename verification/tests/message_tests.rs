use hookmaster::commit_msg::CommitMessageProcessor;
use hookmaster::config::GitHooksConfig;
use hookmaster::hook_manager::HookManager;

#[test]
fn test_format_commit_message_from_branch() {
    let processor = CommitMessageProcessor::new();

    assert_eq!(
        processor.format_commit_message_from_branch("feature/JIRA-123-add-new-feature"),
        Some("JIRA-123: Add New Feature".to_string())
    );

    assert_eq!(
        processor.format_commit_message_from_branch("bugfix/TICKET-456-fix-important-bug"),
        Some("TICKET-456: Fix Important Bug".to_string())
    );

    assert_eq!(
        processor.format_commit_message_from_branch("hotfix/ABC-789-urgent_fix"),
        Some("ABC-789: Urgent Fix".to_string())
    );

    assert_eq!(
        processor.format_commit_message_from_branch("feature/JIRA-123"),
        Some("JIRA-123: ".to_string())
    );

    assert_eq!(processor.format_commit_message_from_branch("main"), None);

    assert_eq!(processor.format_commit_message_from_branch("feature/some-feature"), None);
}

#[test]
fn test_to_title_case() {
    let processor = CommitMessageProcessor::new();

    assert_eq!(processor.to_title_case("hello world"), "Hello World");
    assert_eq!(processor.to_title_case("HELLO WORLD"), "Hello World");
    assert_eq!(processor.to_title_case("hELLo WoRLd"), "Hello World");
    assert_eq!(processor.to_title_case("single"), "Single");
    assert_eq!(processor.to_title_case(""), "");
}

#[test]
fn test_format_prefix_is_ticket() {
    let processor = CommitMessageProcessor::new();
    let formatted = processor.format_commit_message_from_branch("mywork/XY9-42-things").unwrap();
    assert!(formatted.starts_with("XY9-42: "));
}

#[test]
fn test_format_without_known_prefix() {
    let processor = CommitMessageProcessor::new();
    // The ticket is found anywhere, but only an anchored match yields a
    // description.
    assert_eq!(
        processor.format_commit_message_from_branch("mywork/XY9-42-things"),
        Some("XY9-42: ".to_string())
    );
}

#[test]
fn test_updated_message_prepends() {
    let processor = CommitMessageProcessor::new();
    let updated = processor
        .updated_message("# comment only\n", "feature/JIRA-123-add-new-feature")
        .unwrap();
    assert_eq!(updated, "JIRA-123: Add New Feature\n\n# comment only\n");
}

#[test]
fn test_updated_message_respects_content() {
    let processor = CommitMessageProcessor::new();
    assert_eq!(
        processor.updated_message("my own message\n", "feature/JIRA-123-add-new-feature"),
        None
    );
}

#[test]
fn test_updated_message_idempotent() {
    let processor = CommitMessageProcessor::new();
    let first = processor.updated_message("", "feature/JIRA-123-add-new-feature").unwrap();
    assert_eq!(processor.updated_message(&first, "feature/OTHER-9-x"), None);
}

#[test]
fn test_needs_formatting() {
    let processor = CommitMessageProcessor::new();
    assert!(processor.needs_formatting(""));
    assert!(processor.needs_formatting("\n# comment\n\n"));
    assert!(!processor.needs_formatting("real message\n# comment\n"));
}

#[test]
fn test_run_hook_plan() {
    let manager = HookManager::new();
    let config =
        GitHooksConfig::parse_toml("pre-commit = \"cargo fmt\"\ncommit-msg = \"\"\n").unwrap();
    assert_eq!(manager.run_hook_plan(&config, "pre-commit"), Some("cargo fmt".to_string()));
    assert_eq!(manager.run_hook_plan(&config, "commit-msg"), None);
    assert_eq!(manager.run_hook_plan(&config, "non-existent"), None);
}

#[test]
fn test_prepare_commit_msg_update() {
    let manager = HookManager::new();
    let updated = manager.prepare_commit_msg_update("", "fix/AB-1-oops").unwrap();
    assert_eq!(updated, "AB-1: Oops\n\n");
    assert!(manager.commit_msg_needs_formatting("# still empty\n"));
}
