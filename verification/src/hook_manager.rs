//! The orchestrator's decisions.
//!
//! The application layer around this crate performs the filesystem and
//! process work; the decisions — which command a named hook runs, and
//! what a prepare-commit-msg invocation writes — are taken here against
//! the verified configuration and formatter.

use vstd::prelude::*;
use vstd::string::*;

use crate::commit_msg::{has_real_content, spec_updated, CommitMessageProcessor};
use crate::config::GitHooksConfig;
use crate::text::spec_trim;

verus! {

/// Orchestrates hook installation, configuration and execution.
pub struct HookManager {
    commit_processor: CommitMessageProcessor,
}

impl HookManager {
    /// A new hook manager.
    pub fn new() -> (r: Self) {
        HookManager { commit_processor: CommitMessageProcessor::new() }
    }

    /// The command to execute for a named hook, or nothing when the
    /// hook is absent or its command is blank: an inactive hook must
    /// not block the surrounding Git operation.
    pub fn run_hook_plan(&self, config: &GitHooksConfig, hook_name: &str) -> (r: Option<String>)
        requires
            config.wf(),
        ensures
            match r {
                Some(c) => config.as_map().contains_key(hook_name@) && spec_trim(
                    config.as_map()[hook_name@],
                ).len() > 0 && c@ == config.as_map()[hook_name@],
                None => !(config.as_map().contains_key(hook_name@) && spec_trim(
                    config.as_map()[hook_name@],
                ).len() > 0),
            },
    {
        if config.has_active_hook(hook_name) {
            match config.get_hook_command(hook_name) {
                Some(c) => Some(String::from_str(c)),
                None => None,
            }
        } else {
            None
        }
    }

    /// The new content for a commit message file, or nothing when the
    /// file already has real content or the branch yields no message.
    pub fn prepare_commit_msg_update(&self, current_msg: &str, branch_name: &str) -> (r: Option<
        String,
    >)
        ensures
            match r {
                Some(m) => spec_updated(current_msg@, branch_name@) == Option::Some(m@),
                None => spec_updated(current_msg@, branch_name@) == Option::<Seq<char>>::None,
            },
    {
        self.commit_processor.updated_message(current_msg, branch_name)
    }

    /// Whether a commit message file still needs formatting, so that
    /// the caller knows whether to look up the branch name at all.
    pub fn commit_msg_needs_formatting(&self, current_msg: &str) -> (r: bool)
        ensures
            r == !has_real_content(current_msg@),
    {
        self.commit_processor.needs_formatting(current_msg)
    }
}

impl Default for HookManager {
    /// A new hook manager.
    fn default() -> (r: Self) {
        HookManager::new()
    }
}

} // verus!
