use hookmaster::git_hooks::{find_git_repositories, is_git_repository, FsEntry, GitHook};

#[test]
fn test_git_hook_filename() {
    assert_eq!(GitHook::PreCommit.to_filename(), "pre-commit");
    assert_eq!(GitHook::PrepareCommitMsg.to_filename(), "prepare-commit-msg");
    assert_eq!(GitHook::Custom("custom-hook".to_string()).to_filename(), "custom-hook");
}

#[test]
fn test_git_hook_from_str() {
    assert_eq!(GitHook::from_str("pre-commit"), GitHook::PreCommit);
    assert_eq!(GitHook::from_str("prepare-commit-msg"), GitHook::PrepareCommitMsg);
    assert_eq!(GitHook::from_str("custom"), GitHook::Custom("custom".to_string()));
}

#[test]
fn test_script_content_generation() {
    let pre_commit = GitHook::PreCommit;
    let content = pre_commit.generate_script_content();
    assert!(content.contains("#!/bin/sh"));
    assert!(content.contains("hookmaster run pre-commit"));

    let prepare_commit = GitHook::PrepareCommitMsg;
    let content = prepare_commit.generate_script_content();
    assert!(content.contains("hookmaster prepare-commit-msg"));
}

#[test]
fn test_script_content_exact() {
    assert_eq!(
        GitHook::PostCommit.generate_script_content(),
        "#!/bin/sh\nhookmaster run post-commit \"$@\"\n"
    );
    assert_eq!(
        GitHook::PrepareCommitMsg.generate_script_content(),
        "#!/bin/sh\nhookmaster prepare-commit-msg \"$@\"\n"
    );
}

#[test]
fn test_standard_hooks() {
    let hooks = GitHook::standard_hooks();
    let names: Vec<String> = hooks.iter().map(|h| h.to_filename()).collect();
    assert_eq!(
        names,
        vec!["pre-commit", "prepare-commit-msg", "commit-msg", "post-commit", "pre-push"]
    );
}

fn dir(name: &str, entries: Vec<FsEntry>) -> FsEntry {
    FsEntry { name: name.to_string(), is_dir: true, entries }
}

fn file(name: &str) -> FsEntry {
    FsEntry { name: name.to_string(), is_dir: false, entries: vec![] }
}

#[test]
fn test_is_git_repository() {
    let repo = dir("proj", vec![dir(".git", vec![]), file("README.md")]);
    let plain = dir("proj", vec![file("README.md")]);
    let git_file = dir("worktree", vec![file(".git")]);
    assert!(is_git_repository(&repo));
    assert!(!is_git_repository(&plain));
    assert!(is_git_repository(&git_file));
}

#[test]
fn test_find_repositories_tree() {
    let tree = dir(
        "root",
        vec![
            dir("a", vec![dir(".git", vec![])]),
            dir("b", vec![dir("c", vec![dir(".git", vec![])])]),
            dir(".cache", vec![dir("third", vec![dir(".git", vec![])])]),
        ],
    );
    let repos = find_git_repositories(&tree, "root");
    assert_eq!(repos, vec!["root/a".to_string(), "root/b/c".to_string()]);
}

#[test]
fn test_find_repositories_includes_root() {
    let tree = dir("root", vec![dir(".git", vec![]), dir("sub", vec![dir(".git", vec![])])]);
    let repos = find_git_repositories(&tree, "/work/root");
    assert_eq!(repos, vec!["/work/root".to_string(), "/work/root/sub".to_string()]);
}

#[test]
fn test_find_repositories_none() {
    let tree = dir("root", vec![dir("a", vec![file("x.txt")]), file("y.txt")]);
    let repos = find_git_repositories(&tree, "root");
    assert!(repos.is_empty());
}
