//! The hook catalog and repository discovery.
//!
//! `GitHook` enumerates the known hook kinds plus a custom variant; each
//! maps to its canonical file name and to the trampoline script that
//! re-invokes the orchestrator binary. Discovery walks a directory tree,
//! handed in as data by the caller, and collects every directory that
//! holds a `.git` entry, never descending into hidden directories.

use vstd::prelude::*;
use vstd::string::*;

use crate::text::{append_chars, chars_to_string, str_eq, str_to_chars};

verus! {

/// A Git hook kind.
#[derive(Debug, Clone)]
pub enum GitHook {
    PreCommit,
    PrepareCommitMsg,
    CommitMsg,
    PostCommit,
    PrePush,
    PostReceive,
    PreReceive,
    Update,
    /// A hook under a name outside the fixed catalog.
    Custom(String),
}

impl GitHook {
    /// The canonical file name of this hook.
    pub open spec fn spec_filename(self) -> Seq<char> {
        match self {
            GitHook::PreCommit => "pre-commit"@,
            GitHook::PrepareCommitMsg => "prepare-commit-msg"@,
            GitHook::CommitMsg => "commit-msg"@,
            GitHook::PostCommit => "post-commit"@,
            GitHook::PrePush => "pre-push"@,
            GitHook::PostReceive => "post-receive"@,
            GitHook::PreReceive => "pre-receive"@,
            GitHook::Update => "update"@,
            GitHook::Custom(name) => name@,
        }
    }

    /// The canonical file name of this hook.
    pub fn to_filename(&self) -> (r: String)
        ensures
            r@ == self.spec_filename(),
    {
        match self {
            GitHook::PreCommit => String::from_str("pre-commit"),
            GitHook::PrepareCommitMsg => String::from_str("prepare-commit-msg"),
            GitHook::CommitMsg => String::from_str("commit-msg"),
            GitHook::PostCommit => String::from_str("post-commit"),
            GitHook::PrePush => String::from_str("pre-push"),
            GitHook::PostReceive => String::from_str("post-receive"),
            GitHook::PreReceive => String::from_str("pre-receive"),
            GitHook::Update => String::from_str("update"),
            GitHook::Custom(name) => name.clone(),
        }
    }

    /// Reads a hook kind from its name; an unknown name yields the
    /// custom variant carrying that name, so no name is refused.
    pub fn from_str(s: &str) -> (r: GitHook)
        ensures
            s@ == "pre-commit"@ ==> r == GitHook::PreCommit,
            s@ == "prepare-commit-msg"@ ==> r == GitHook::PrepareCommitMsg,
            s@ == "commit-msg"@ ==> r == GitHook::CommitMsg,
            s@ == "post-commit"@ ==> r == GitHook::PostCommit,
            s@ == "pre-push"@ ==> r == GitHook::PrePush,
            s@ == "post-receive"@ ==> r == GitHook::PostReceive,
            s@ == "pre-receive"@ ==> r == GitHook::PreReceive,
            s@ == "update"@ ==> r == GitHook::Update,
            r.spec_filename() == s@,
    {
        proof {
            reveal_strlit("pre-commit");
            reveal_strlit("prepare-commit-msg");
            reveal_strlit("commit-msg");
            reveal_strlit("post-commit");
            reveal_strlit("pre-push");
            reveal_strlit("post-receive");
            reveal_strlit("pre-receive");
            reveal_strlit("update");
            assert("pre-commit"@.len() == 10);
            assert("prepare-commit-msg"@.len() == 18);
            assert("commit-msg"@.len() == 10);
            assert("post-commit"@.len() == 11);
            assert("pre-push"@.len() == 8);
            assert("post-receive"@.len() == 12);
            assert("pre-receive"@.len() == 11);
            assert("update"@.len() == 6);
            assert("pre-commit"@[0] == 'p' && "commit-msg"@[0] == 'c');
            assert("post-commit"@[1] == 'o' && "pre-receive"@[1] == 'r');
        }
        if str_eq(s, "pre-commit") {
            GitHook::PreCommit
        } else if str_eq(s, "prepare-commit-msg") {
            GitHook::PrepareCommitMsg
        } else if str_eq(s, "commit-msg") {
            GitHook::CommitMsg
        } else if str_eq(s, "post-commit") {
            GitHook::PostCommit
        } else if str_eq(s, "pre-push") {
            GitHook::PrePush
        } else if str_eq(s, "post-receive") {
            GitHook::PostReceive
        } else if str_eq(s, "pre-receive") {
            GitHook::PreReceive
        } else if str_eq(s, "update") {
            GitHook::Update
        } else {
            GitHook::Custom(String::from_str(s))
        }
    }

    /// The trampoline script installed for this hook: it re-invokes the
    /// orchestrator binary, forwarding all hook arguments.
    pub open spec fn spec_script(self) -> Seq<char> {
        match self {
            GitHook::PrepareCommitMsg => "#!/bin/sh\nhookmaster prepare-commit-msg \"$@\"\n"@,
            _ => "#!/bin/sh\nhookmaster run "@ + self.spec_filename() + " \"$@\"\n"@,
        }
    }

    /// Generates the trampoline script text for this hook.
    pub fn generate_script_content(&self) -> (r: String)
        ensures
            r@ == self.spec_script(),
    {
        match self {
            GitHook::PrepareCommitMsg => String::from_str(
                "#!/bin/sh\nhookmaster prepare-commit-msg \"$@\"\n",
            ),
            _ => {
                let mut out = String::from_str("#!/bin/sh\nhookmaster run ");
                let name = self.to_filename();
                out.append(name.as_str());
                out.append(" \"$@\"\n");
                out
            },
        }
    }

    /// The five hook kinds installed during bulk installation.
    pub fn standard_hooks() -> (r: Vec<GitHook>)
        ensures
            r@ == seq![
                GitHook::PreCommit,
                GitHook::PrepareCommitMsg,
                GitHook::CommitMsg,
                GitHook::PostCommit,
                GitHook::PrePush,
            ],
    {
        let mut r: Vec<GitHook> = Vec::new();
        r.push(GitHook::PreCommit);
        r.push(GitHook::PrepareCommitMsg);
        r.push(GitHook::CommitMsg);
        r.push(GitHook::PostCommit);
        r.push(GitHook::PrePush);
        proof {
            assert(r@ =~= seq![
                GitHook::PreCommit,
                GitHook::PrepareCommitMsg,
                GitHook::CommitMsg,
                GitHook::PostCommit,
                GitHook::PrePush,
            ]);
        }
        r
    }
}

impl PartialEq for GitHook {
    /// Two hooks are equal when they are the same kind, and for custom
    /// hooks carry the same name.
    fn eq(&self, other: &Self) -> (r: bool) {
        match (self, other) {
            (GitHook::PreCommit, GitHook::PreCommit) => true,
            (GitHook::PrepareCommitMsg, GitHook::PrepareCommitMsg) => true,
            (GitHook::CommitMsg, GitHook::CommitMsg) => true,
            (GitHook::PostCommit, GitHook::PostCommit) => true,
            (GitHook::PrePush, GitHook::PrePush) => true,
            (GitHook::PostReceive, GitHook::PostReceive) => true,
            (GitHook::PreReceive, GitHook::PreReceive) => true,
            (GitHook::Update, GitHook::Update) => true,
            (GitHook::Custom(a), GitHook::Custom(b)) => str_eq(a.as_str(), b.as_str()),
            _ => false,
        }
    }
}

impl vstd::std_specs::cmp::PartialEqSpecImpl for GitHook {
    open spec fn obeys_eq_spec() -> bool {
        true
    }

    open spec fn eq_spec(&self, other: &Self) -> bool {
        match (self, other) {
            (GitHook::PreCommit, GitHook::PreCommit) => true,
            (GitHook::PrepareCommitMsg, GitHook::PrepareCommitMsg) => true,
            (GitHook::CommitMsg, GitHook::CommitMsg) => true,
            (GitHook::PostCommit, GitHook::PostCommit) => true,
            (GitHook::PrePush, GitHook::PrePush) => true,
            (GitHook::PostReceive, GitHook::PostReceive) => true,
            (GitHook::PreReceive, GitHook::PreReceive) => true,
            (GitHook::Update, GitHook::Update) => true,
            (GitHook::Custom(a), GitHook::Custom(b)) => a@ == b@,
            _ => false,
        }
    }
}

/// One node of a directory tree: a file or directory with its name and,
/// for a directory, its entries. The application layer reads the real
/// filesystem into this shape before discovery runs.
pub struct FsEntry {
    /// The entry's own name, without any directory prefix.
    pub name: String,
    /// Whether the entry is a directory.
    pub is_dir: bool,
    /// The entries of a directory, in the order the listing gave them.
    pub entries: Vec<FsEntry>,
}

/// A directory with a `.git` entry (file or directory) is a repository.
pub open spec fn has_git_entry(e: FsEntry) -> bool {
    exists|i: int| 0 <= i < e.entries@.len() && (#[trigger] e.entries@[i]).name@ == ".git"@
}

/// Names starting with a dot mark hidden entries.
pub open spec fn hidden_name(n: Seq<char>) -> bool {
    n.len() > 0 && n[0] == '.'
}

/// The path of a child entry under a directory path.
pub open spec fn child_path(dir: Seq<char>, name: Seq<char>) -> Seq<char> {
    dir + seq!['/'] + name
}

/// The repository paths found under the children of a directory at
/// `dir`, depth first: a child directory holding `.git` is reported, and
/// every non-hidden child directory is scanned in turn, whether or not
/// it is itself a repository.
pub open spec fn repos_under(children: Seq<FsEntry>, dir: Seq<char>) -> Seq<Seq<char>>
    decreases children,
{
    if children.len() == 0 {
        Seq::empty()
    } else {
        let c = children[0];
        (if c.is_dir && has_git_entry(c) {
            seq![child_path(dir, c.name@)]
        } else {
            Seq::empty()
        }) + (if c.is_dir && !hidden_name(c.name@) {
            repos_under(c.entries@, child_path(dir, c.name@))
        } else {
            Seq::empty()
        }) + repos_under(children.skip(1), dir)
    }
}

/// Every repository path that discovery yields for `root` at
/// `root_path`: the root itself when it holds `.git`, then everything
/// under its children.
pub open spec fn spec_find_repos(root: FsEntry, root_path: Seq<char>) -> Seq<Seq<char>> {
    (if has_git_entry(root) {
        seq![root_path]
    } else {
        Seq::empty()
    }) + (if root.is_dir {
        repos_under(root.entries@, root_path)
    } else {
        Seq::empty()
    })
}

/// The views of a vector of path strings.
pub open spec fn path_views(ps: Seq<String>) -> Seq<Seq<char>> {
    ps.map_values(|s: String| s@)
}

/// Whether `e` holds a `.git` entry.
pub fn is_git_repository(e: &FsEntry) -> (r: bool)
    ensures
        r == has_git_entry(*e),
{
    let n = e.entries.len();
    let mut i: usize = 0;
    while i < n
        invariant
            n == e.entries@.len(),
            i <= n,
            forall|j: int| 0 <= j < i ==> (#[trigger] e.entries@[j]).name@ != ".git"@,
        decreases n - i,
    {
        if str_eq(e.entries[i].name.as_str(), ".git") {
            return true;
        }
        i = i + 1;
    }
    false
}

/// Walks the children of `dir` depth first and appends every discovered
/// repository path to `out`.
fn visit_dirs(dir: &FsEntry, path: &Vec<char>, out: &mut Vec<String>)
    ensures
        path_views(final(out)@) == path_views(old(out)@) + (if dir.is_dir {
            repos_under(dir.entries@, path@)
        } else {
            Seq::<Seq<char>>::empty()
        }),
    decreases *dir,
{
    if !dir.is_dir {
        proof {
            assert(path_views(out@) =~= path_views(out@) + Seq::<Seq<char>>::empty());
        }
        return ;
    }
    let n = dir.entries.len();
    let mut i: usize = 0;
    proof {
        assert(dir.entries@.skip(0) =~= dir.entries@);
        assert(path_views(out@) + Seq::<Seq<char>>::empty() =~= path_views(out@));
    }
    while i < n
        invariant
            n == dir.entries@.len(),
            i <= n,
            path_views(out@) + repos_under(dir.entries@.skip(i as int), path@) == path_views(
                old(out)@,
            ) + repos_under(dir.entries@, path@),
        decreases n - i,
    {
        let child = &dir.entries[i];
        let mut cp: Vec<char> = Vec::new();
        append_chars(&mut cp, path);
        cp.push('/');
        let name_chars = str_to_chars(child.name.as_str());
        append_chars(&mut cp, &name_chars);
        proof {
            assert(cp@ =~= child_path(path@, child.name@));
            assert(dir.entries@.skip(i as int)[0] == dir.entries@[i as int]);
            assert(dir.entries@.skip(i as int).skip(1) =~= dir.entries@.skip(i as int + 1));
        }
        let ghost before = path_views(out@);
        if child.is_dir && is_git_repository(child) {
            out.push(chars_to_string(&cp));
            proof {
                assert(path_views(out@) =~= before + seq![child_path(path@, child.name@)]);
            }
        }
        let ghost mid = path_views(out@);
        let hidden = name_chars.len() > 0 && name_chars[0] == '.';
        if child.is_dir && !hidden {
            visit_dirs(child, &cp, out);
        }
        proof {
            let c = dir.entries@[i as int];
            let part1: Seq<Seq<char>> = if c.is_dir && has_git_entry(c) {
                seq![child_path(path@, c.name@)]
            } else {
                Seq::empty()
            };
            let part2: Seq<Seq<char>> = if c.is_dir && !hidden_name(c.name@) {
                repos_under(c.entries@, child_path(path@, c.name@))
            } else {
                Seq::empty()
            };
            assert(mid =~= before + part1);
            assert(path_views(out@) =~= before + part1 + part2);
            assert(repos_under(dir.entries@.skip(i as int), path@) == part1 + part2 + repos_under(
                dir.entries@.skip(i as int + 1),
                path@,
            ));
            assert(path_views(out@) + repos_under(dir.entries@.skip(i as int + 1), path@)
                =~= before + repos_under(dir.entries@.skip(i as int), path@));
        }
        i = i + 1;
    }
    proof {
        assert(dir.entries@.skip(n as int) =~= Seq::<FsEntry>::empty());
        assert(path_views(out@) + Seq::<Seq<char>>::empty() =~= path_views(out@));
    }
}

/// Discovers every repository under `root`, whose path is `root_path`:
/// the root itself when it holds a `.git` entry, and each directory
/// below it that does, skipping hidden directories during descent.
pub fn find_git_repositories(root: &FsEntry, root_path: &str) -> (r: Vec<String>)
    ensures
        path_views(r@) == spec_find_repos(*root, root_path@),
{
    let mut out: Vec<String> = Vec::new();
    if is_git_repository(root) {
        out.push(String::from_str(root_path));
        proof {
            assert(path_views(out@) =~= seq![root_path@]);
        }
    } else {
        proof {
            assert(path_views(out@) =~= Seq::<Seq<char>>::empty());
        }
    }
    let path = str_to_chars(root_path);
    visit_dirs(root, &path, &mut out);
    proof {
        assert(path_views(out@) =~= spec_find_repos(*root, root_path@));
    }
    out
}

} // verus!
