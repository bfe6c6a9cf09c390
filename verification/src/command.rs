//! The `xcode` subcommands: argument dispatch, and what each subcommand
//! decides and prints once the configuration and the launch agent have
//! answered.

use vstd::prelude::*;
use vstd::string::*;
use crate::path::{law_path_within_by_components, path_within, same_path};
use crate::text::{decimal, decimal_string, str_equal};
use crate::watch::{
    contains_path, copy_paths, count_paths_within, count_within, find_root, first_root, has_path,
    covered_by, independent, law_normalize_keeps_independent, law_normalized_covers_all,
    law_normalized_roots_independent, lemma_appended_root_kept, lemma_count_within_zero,
    lemma_first_root, lemma_within_reflexive, lemma_without_path_len, lemma_without_path_members,
    lemma_without_path_removes, law_normalized_only_inputs, lemma_count_within_filter,
    lemma_first_root_index,
    normalize_watch_paths, normalized, remove_watch_path, texts, without_path,
};

verus! {

/// What a subcommand prints: lines for standard output and warnings for
/// standard error.
pub struct CommandOutput {
    pub lines: Vec<String>,
    pub warnings: Vec<String>,
}

impl CommandOutput {
    /// The printed lines.
    pub open spec fn line_texts(&self) -> Seq<Seq<char>> {
        texts(self.lines@)
    }

    /// The printed warnings.
    pub open spec fn warning_texts(&self) -> Seq<Seq<char>> {
        texts(self.warnings@)
    }

    /// An output with nothing in it.
    pub fn new() -> (res: Self)
        ensures
            res.line_texts() == Seq::<Seq<char>>::empty(),
            res.warning_texts() == Seq::<Seq<char>>::empty(),
    {
        let res = CommandOutput { lines: Vec::new(), warnings: Vec::new() };
        assert(res.line_texts() =~= Seq::<Seq<char>>::empty());
        assert(res.warning_texts() =~= Seq::<Seq<char>>::empty());
        res
    }

    /// Appends a line.
    pub fn push_line(&mut self, line: String)
        ensures
            final(self).line_texts() == old(self).line_texts().push(line@),
            final(self).warning_texts() == old(self).warning_texts(),
    {
        let ghost pre = self.lines@;
        self.lines.push(line);
        assert(texts(self.lines@) =~= texts(pre).push(line@));
    }

    /// Appends a warning.
    pub fn push_warning(&mut self, warning: String)
        ensures
            final(self).warning_texts() == old(self).warning_texts().push(warning@),
            final(self).line_texts() == old(self).line_texts(),
    {
        let ghost pre = self.warnings@;
        self.warnings.push(warning);
        assert(texts(self.warnings@) =~= texts(pre).push(warning@));
    }
}

/// What installing or refreshing the watcher's launch agent reported: a
/// message for the user and, possibly, a warning.
pub struct LaunchAgentResult {
    pub message: String,
    pub warning: Option<String>,
}

/// A subcommand of `xcode` with its argument.
pub enum XcodeCommand {
    AddPath(String),
    RemovePath(String),
    ListPaths,
    Reload,
}

/// What a path-changing subcommand decided: what it prints so far, the list
/// to store in the configuration (if it changes), and the list to install the
/// launch agent with (if it is to be refreshed).
pub struct PathUpdate {
    pub output: CommandOutput,
    pub save_paths: Option<Vec<String>>,
    pub agent_paths: Option<Vec<String>>,
}

/// The texts of an optional list of strings.
pub open spec fn opt_texts(v: Option<Vec<String>>) -> Option<Seq<Seq<char>>> {
    match v {
        Some(v) => Some(texts(v@)),
        None => None,
    }
}

pub open spec fn unsupported_message() -> Seq<char> {
    "Xcode watcher configuration is only supported on macOS"@
}

pub open spec fn add_usage_message() -> Seq<char> {
    "Usage: git-ai xcode add-path <path>"@
}

pub open spec fn remove_usage_message() -> Seq<char> {
    "Usage: git-ai xcode remove-path <path>"@
}

pub open spec fn unknown_message(sub: Seq<char>) -> Seq<char> {
    "Unknown xcode subcommand: "@ + sub
}

pub open spec fn already_configured_line(p: Seq<char>) -> Seq<char> {
    "Xcode: Watch path already configured: "@ + p
}

pub open spec fn covered_line(p: Seq<char>, root: Seq<char>) -> Seq<char> {
    "Xcode: "@ + p + " is already covered by existing watch root "@ + root
}

pub open spec fn added_line(p: Seq<char>) -> Seq<char> {
    "Xcode: Added watch path "@ + p
}

pub open spec fn collapsed_line(n: nat, p: Seq<char>) -> Seq<char> {
    "Xcode: Collapsed "@ + decimal(n) + " narrower path(s) under "@ + p
}

pub open spec fn not_configured_line(p: Seq<char>) -> Seq<char> {
    "Xcode: Watch path not configured: "@ + p
}

pub open spec fn removed_line(p: Seq<char>) -> Seq<char> {
    "Xcode: Removed watch path "@ + p
}

pub open spec fn no_paths_line() -> Seq<char> {
    "Xcode: No watch paths configured"@
}

pub open spec fn warning_line(w: Seq<char>) -> Seq<char> {
    "Xcode: "@ + w
}

/// The arguments ask for help: there are none, or the first is `help`,
/// `--help` or `-h`.
pub open spec fn asks_for_help(args: Seq<Seq<char>>) -> bool {
    args.len() == 0 || args[0] == "help"@ || args[0] == "--help"@ || args[0] == "-h"@
}

/// Whether the arguments ask for the help text rather than a subcommand.
pub fn is_help_request(args: &Vec<String>) -> (res: bool)
    ensures
        res == asks_for_help(texts(args@)),
{
    if args.len() == 0 {
        return true;
    }
    let first = args[0].as_str();
    str_equal(first, "help") || str_equal(first, "--help") || str_equal(first, "-h")
}

/// Reads the subcommand from the arguments. Where the watcher is not
/// supported every request fails with the same message; elsewhere the first
/// argument names the subcommand, and `add-path` and `remove-path` need a
/// second one.
pub fn run_xcode(args: &Vec<String>, platform_supported: bool) -> (res: Result<XcodeCommand, String>)
    requires
        platform_supported ==> args.len() > 0,
    ensures
        !platform_supported ==> (res matches Err(e) && e@ == unsupported_message()),
        platform_supported ==> {
            let sub = args[0]@;
            if sub == "add-path"@ {
                if args.len() > 1 {
                    res matches Ok(XcodeCommand::AddPath(p)) && p@ == args[1]@
                } else {
                    res matches Err(e) && e@ == add_usage_message()
                }
            } else if sub == "remove-path"@ {
                if args.len() > 1 {
                    res matches Ok(XcodeCommand::RemovePath(p)) && p@ == args[1]@
                } else {
                    res matches Err(e) && e@ == remove_usage_message()
                }
            } else if sub == "list-paths"@ {
                res matches Ok(XcodeCommand::ListPaths)
            } else if sub == "reload"@ {
                res matches Ok(XcodeCommand::Reload)
            } else {
                res matches Err(e) && e@ == unknown_message(sub)
            }
        },
{
    if !platform_supported {
        return Err(String::from_str("Xcode watcher configuration is only supported on macOS"));
    }
    let sub = args[0].as_str();
    if str_equal(sub, "add-path") {
        if args.len() > 1 {
            Ok(XcodeCommand::AddPath(args[1].clone()))
        } else {
            Err(String::from_str("Usage: git-ai xcode add-path <path>"))
        }
    } else if str_equal(sub, "remove-path") {
        if args.len() > 1 {
            Ok(XcodeCommand::RemovePath(args[1].clone()))
        } else {
            Err(String::from_str("Usage: git-ai xcode remove-path <path>"))
        }
    } else if str_equal(sub, "list-paths") {
        Ok(XcodeCommand::ListPaths)
    } else if str_equal(sub, "reload") {
        Ok(XcodeCommand::Reload)
    } else {
        Err(String::from_str("Unknown xcode subcommand: ").concat(sub))
    }
}

/// The list stored after `add-path` of `new` onto `existing`: none when the
/// path is already watched (itself or through a root above it), otherwise the
/// normalised list with the new path appended.
pub open spec fn add_path_saved(existing: Seq<Seq<char>>, new: Seq<char>) -> Option<Seq<Seq<char>>> {
    if contains_path(existing, new) || first_root(existing, new) is Some {
        None
    } else {
        Some(normalized(existing.push(new)))
    }
}

/// The list the launch agent is refreshed with after `add-path`.
pub open spec fn add_path_agent(existing: Seq<Seq<char>>, new: Seq<char>) -> Seq<Seq<char>> {
    match add_path_saved(existing, new) {
        Some(updated) => updated,
        None => existing,
    }
}

/// The lines `add-path` prints before the launch agent's report.
pub open spec fn add_path_lines(existing: Seq<Seq<char>>, new: Seq<char>) -> Seq<Seq<char>> {
    if contains_path(existing, new) {
        seq![already_configured_line(new)]
    } else if first_root(existing, new) is Some {
        seq![covered_line(new, first_root(existing, new)->0)]
    } else if count_within(existing, new) > 0 {
        seq![added_line(new), collapsed_line(count_within(existing, new), new)]
    } else {
        seq![added_line(new)]
    }
}

/// The list stored after `remove-path` of `target`: none when no entry names
/// it, otherwise the list without those entries.
pub open spec fn remove_path_saved(existing: Seq<Seq<char>>, target: Seq<char>) -> Option<Seq<Seq<char>>> {
    if contains_path(existing, target) {
        Some(without_path(existing, target))
    } else {
        None
    }
}

/// The line `remove-path` prints before the launch agent's report.
pub open spec fn remove_path_line(existing: Seq<Seq<char>>, target: Seq<char>) -> Seq<char> {
    if contains_path(existing, target) {
        removed_line(target)
    } else {
        not_configured_line(target)
    }
}

/// Decides `add-path`, given the configured watch roots and the new path as
/// validated. A path that is already configured, or lies below a configured
/// root, changes nothing; otherwise it is added, the roots below it are
/// folded into it, and the list is stored. The launch agent is refreshed in
/// every case.
pub fn run_add_path(existing: &Vec<String>, new_path: &str) -> (res: PathUpdate)
    ensures
        res.output.line_texts() == add_path_lines(texts(existing@), new_path@),
        res.output.warning_texts() == Seq::<Seq<char>>::empty(),
        opt_texts(res.save_paths) == add_path_saved(texts(existing@), new_path@),
        opt_texts(res.agent_paths) == Some(add_path_agent(texts(existing@), new_path@)),
{
    let ghost e = texts(existing@);
    let mut output = CommandOutput::new();
    if has_path(existing, new_path) {
        output.push_line(String::from_str("Xcode: Watch path already configured: ").concat(new_path));
        return PathUpdate { output, save_paths: None, agent_paths: Some(copy_paths(existing)) };
    }
    match find_root(existing, new_path) {
        Some(root) => {
            let line = String::from_str("Xcode: ").concat(new_path).concat(
                " is already covered by existing watch root ",
            ).concat(root.as_str());
            output.push_line(line);
            return PathUpdate { output, save_paths: None, agent_paths: Some(copy_paths(existing)) };
        },
        None => {},
    }
    let removed = count_paths_within(existing, new_path);
    let mut joined = copy_paths(existing);
    let ghost pre = joined@;
    joined.push(String::from_str(new_path));
    assert(texts(joined@) =~= e.push(new_path@));
    let updated = normalize_watch_paths(&joined);
    output.push_line(String::from_str("Xcode: Added watch path ").concat(new_path));
    if removed > 0 {
        let line = String::from_str("Xcode: Collapsed ").concat(decimal_string(removed).as_str()).concat(
            " narrower path(s) under ",
        ).concat(new_path);
        output.push_line(line);
    }
    let agent = copy_paths(&updated);
    PathUpdate { output, save_paths: Some(updated), agent_paths: Some(agent) }
}

/// Decides `remove-path`, given the configured watch roots and the target as
/// resolved. Every entry naming the target is dropped; when there is none,
/// nothing is stored and the launch agent is left alone.
pub fn run_remove_path(existing: &Vec<String>, target: &str) -> (res: PathUpdate)
    ensures
        res.output.line_texts() == seq![remove_path_line(texts(existing@), target@)],
        res.output.warning_texts() == Seq::<Seq<char>>::empty(),
        opt_texts(res.save_paths) == remove_path_saved(texts(existing@), target@),
        opt_texts(res.agent_paths) == remove_path_saved(texts(existing@), target@),
{
    proof {
        lemma_without_path_len(texts(existing@), target@);
    }
    let updated = remove_watch_path(existing, target);
    let mut output = CommandOutput::new();
    if updated.len() == existing.len() {
        output.push_line(String::from_str("Xcode: Watch path not configured: ").concat(target));
        return PathUpdate { output, save_paths: None, agent_paths: None };
    }
    output.push_line(String::from_str("Xcode: Removed watch path ").concat(target));
    let agent = copy_paths(&updated);
    PathUpdate { output, save_paths: Some(updated), agent_paths: Some(agent) }
}

/// Decides `list-paths`: one line per configured root, or a note that there
/// is none.
pub fn run_list_paths(paths: &Vec<String>) -> (res: CommandOutput)
    ensures
        res.line_texts() == (if paths.len() == 0 {
            seq![no_paths_line()]
        } else {
            texts(paths@)
        }),
        res.warning_texts() == Seq::<Seq<char>>::empty(),
{
    let mut output = CommandOutput::new();
    if paths.len() == 0 {
        output.push_line(String::from_str("Xcode: No watch paths configured"));
        return output;
    }
    let mut i: usize = 0;
    while i < paths.len()
        invariant
            i <= paths.len(),
            output.line_texts() == texts(paths@).take(i as int),
            output.warning_texts() == Seq::<Seq<char>>::empty(),
        decreases paths.len() - i,
    {
        output.push_line(paths[i].clone());
        assert(texts(paths@).take(i + 1) =~= texts(paths@).take(i as int).push(paths[i as int]@));
        i = i + 1;
    }
    assert(texts(paths@).take(paths.len() as int) =~= texts(paths@));
    output
}

/// Adds the launch agent's report to the output: its message as a line and
/// its warning, if any, as a warning. A failure is handed on and the output
/// is left as it was.
pub fn apply_launch_agent_output(
    result: Result<LaunchAgentResult, String>,
    output: &mut CommandOutput,
) -> (res: Result<(), String>)
    ensures
        match result {
            Err(e) => {
                &&& res matches Err(f) && f@ == e@
                &&& final(output).line_texts() == old(output).line_texts()
                &&& final(output).warning_texts() == old(output).warning_texts()
            },
            Ok(r) => {
                &&& res is Ok
                &&& final(output).line_texts() == old(output).line_texts().push(r.message@)
                &&& final(output).warning_texts() == match r.warning {
                    Some(w) => old(output).warning_texts().push(warning_line(w@)),
                    None => old(output).warning_texts(),
                }
            },
        },
{
    match result {
        Err(e) => Err(e),
        Ok(r) => {
            output.push_line(r.message);
            match r.warning {
                Some(w) => {
                    output.push_warning(String::from_str("Xcode: ").concat(w.as_str()));
                },
                None => {},
            }
            Ok(())
        },
    }
}

/// Decides `reload`: the launch agent's report, or its failure.
pub fn run_reload(result: Result<LaunchAgentResult, String>) -> (res: Result<CommandOutput, String>)
    ensures
        match result {
            Err(e) => res matches Err(f) && f@ == e@,
            Ok(r) => res matches Ok(o) && o.line_texts() == seq![r.message@] && o.warning_texts() == (
            match r.warning {
                Some(w) => seq![warning_line(w@)],
                None => Seq::<Seq<char>>::empty(),
            }),
        },
{
    let mut output = CommandOutput::new();
    match apply_launch_agent_output(result, &mut output) {
        Ok(()) => Ok(output),
        Err(e) => Err(e),
    }
}

proof fn lemma_not_below_any(existing: Seq<Seq<char>>, new: Seq<char>)
    requires
        first_root(existing, new) is None,
    ensures
        forall|j: int| 0 <= j < existing.len() ==> !#[trigger] path_within(new, existing[j]),
{
    lemma_first_root(existing, new);
}

/// Adding a path that was just added changes nothing: the second `add-path`
/// reports it as already configured and stores nothing.
pub proof fn law_add_path_idempotent(existing: Seq<Seq<char>>, new: Seq<char>)
    ensures
        add_path_saved(existing, new) matches Some(updated) ==> {
            &&& add_path_saved(updated, new) is None
            &&& add_path_lines(updated, new) == seq![already_configured_line(new)]
        },
{
    if add_path_saved(existing, new) is Some {
        let updated = normalized(existing.push(new));
        lemma_not_below_any(existing, new);
        lemma_appended_root_kept(existing, new);
        let i = choose|i: int| 0 <= i < updated.len() && updated[i] == new;
        assert(same_path(updated[i], new));
        assert(contains_path(updated, new));
    }
}

/// `add-path` never stops watching anything: every configured path, and the
/// new path, is a root of the resulting list or lies below one.
pub proof fn law_add_path_keeps_watching(existing: Seq<Seq<char>>, new: Seq<char>)
    ensures
        forall|i: int|
            0 <= i < existing.len() ==> covered_by(add_path_agent(existing, new), #[trigger] existing[i]),
        covered_by(add_path_agent(existing, new), new),
{
    let agent = add_path_agent(existing, new);
    if add_path_saved(existing, new) is Some {
        let all = existing.push(new);
        law_normalized_covers_all(all);
        assert forall|i: int| 0 <= i < existing.len() implies covered_by(agent, #[trigger] existing[i]) by {
            assert(all[i] == existing[i]);
        }
        assert(all[existing.len() as int] == new);
    } else {
        assert forall|i: int| 0 <= i < existing.len() implies covered_by(agent, #[trigger] existing[i]) by {
            lemma_within_reflexive(existing[i]);
            assert(path_within(existing[i], agent[i]));
        }
        if contains_path(existing, new) {
            let i = choose|i: int| 0 <= i < existing.len() && #[trigger] same_path(existing[i], new);
            lemma_within_reflexive(new);
            assert(path_within(new, agent[i]));
        } else {
            lemma_first_root(existing, new);
            let i = choose|i: int| 0 <= i < existing.len() && #[trigger] path_within(new, existing[i]);
            assert(path_within(new, agent[i]));
        }
    }
}

/// The list `add-path` stores holds no path within another.
pub proof fn law_add_path_stores_independent_roots(existing: Seq<Seq<char>>, new: Seq<char>)
    ensures
        add_path_saved(existing, new) matches Some(updated) ==> independent(updated),
{
    law_normalized_roots_independent(existing.push(new));
}

/// On a list of independent roots, removing a path that was just added
/// without folding anything into it gives the list back as it was.
pub proof fn law_remove_path_undoes_add_path(existing: Seq<Seq<char>>, new: Seq<char>)
    requires
        independent(existing),
        add_path_saved(existing, new) is Some,
        count_within(existing, new) == 0,
    ensures
        remove_path_saved(add_path_saved(existing, new)->0, new) == Some(existing),
{
    let all = existing.push(new);
    let n = existing.len() as int;
    lemma_not_below_any(existing, new);
    lemma_count_within_zero(existing, new);
    assert(independent(all)) by {
        assert forall|a: int, b: int|
            0 <= a < all.len() && 0 <= b < all.len() && a != b implies !#[trigger] path_within(
            all[a],
            all[b],
        ) by {
            if a < n && b < n {
                assert(all[a] == existing[a] && all[b] == existing[b]);
            } else if a < n {
                assert(all[a] == existing[a] && all[b] == new);
            } else {
                assert(all[a] == new && all[b] == existing[b]);
            }
        }
    }
    law_normalize_keeps_independent(all);
    assert(all[n] == new);
    lemma_within_reflexive(new);
    assert(same_path(all[n], new));
    assert(contains_path(all, new));
    assert(all.drop_last() =~= existing);
    lemma_without_path_len(existing, new);
}

/// After `remove-path` changes the list, no entry names the target any more
/// and the list is shorter.
pub proof fn law_remove_path_forgets(existing: Seq<Seq<char>>, target: Seq<char>)
    ensures
        remove_path_saved(existing, target) matches Some(updated) ==> {
            &&& !contains_path(updated, target)
            &&& updated.len() < existing.len()
        },
{
    lemma_without_path_removes(existing, target);
    lemma_without_path_len(existing, target);
}

/// What `add-path` stores and refreshes, over all inputs. It leaves the list
/// alone exactly when the new path is a configured root or lies below one;
/// otherwise the stored list holds the new path, holds only the new path and
/// configured paths, still covers every configured path (each is a stored
/// root or lies below one), has no root within
/// another, and is exactly the list the launch agent is refreshed with. When
/// nothing is stored the launch agent is refreshed with the configured list.
pub proof fn law_add_path_outcome(existing: Seq<Seq<char>>, new: Seq<char>)
    ensures
        add_path_saved(existing, new) is None <==> exists|i: int|
            0 <= i < existing.len() && #[trigger] path_within(new, existing[i]),
        add_path_saved(existing, new) is None ==> add_path_agent(existing, new) == existing,
        add_path_saved(existing, new) matches Some(stored) ==> {
            &&& add_path_agent(existing, new) == stored
            &&& exists|k: int| 0 <= k < stored.len() && stored[k] == new
            &&& forall|k: int|
                0 <= k < stored.len() ==> #[trigger] stored[k] == new || existing.contains(stored[k])
            &&& forall|i: int| 0 <= i < existing.len() ==> covered_by(stored, #[trigger] existing[i])
            &&& forall|a: int, b: int|
                0 <= a < stored.len() && 0 <= b < stored.len() && a != b ==> !#[trigger] path_within(
                    stored[a],
                    stored[b],
                )
        },
{
    lemma_first_root(existing, new);
    if contains_path(existing, new) {
        let i = choose|i: int| 0 <= i < existing.len() && #[trigger] same_path(existing[i], new);
        law_path_within_by_components(existing[i], new);
        assert(path_within(new, existing[i]));
    }
    if add_path_saved(existing, new) is Some {
        let all = existing.push(new);
        let stored = normalized(all);
        lemma_not_below_any(existing, new);
        lemma_appended_root_kept(existing, new);
        law_normalized_only_inputs(all);
        law_normalized_covers_all(all);
        law_normalized_roots_independent(all);
        assert forall|k: int| 0 <= k < stored.len() implies #[trigger] stored[k] == new || existing.contains(
            stored[k],
        ) by {
            assert(all.contains(stored[k]));
            let j = choose|j: int| 0 <= j < all.len() && all[j] == stored[k];
            if j < existing.len() {
                assert(existing[j] == all[j]);
            }
        }
        assert forall|i: int| 0 <= i < existing.len() implies covered_by(stored, #[trigger] existing[i]) by {
            assert(all[i] == existing[i]);
        }
        assert(stored.contains(new));
        assert(independent(stored));
    }
}

/// What `remove-path` decides, over all inputs: it reports the removal, and
/// stores and refreshes a changed list, exactly when some configured entry
/// names the target; otherwise it reports that the path is not configured.
/// The stored list holds every configured entry that does not name the target
/// and nothing else.
pub proof fn law_remove_path_outcome(existing: Seq<Seq<char>>, target: Seq<char>)
    ensures
        remove_path_saved(existing, target) is Some <==> exists|i: int|
            0 <= i < existing.len() && #[trigger] same_path(existing[i], target),
        remove_path_line(existing, target) == (if exists|i: int|
            0 <= i < existing.len() && #[trigger] same_path(existing[i], target) {
            "Xcode: Removed watch path "@ + target
        } else {
            "Xcode: Watch path not configured: "@ + target
        }),
        remove_path_saved(existing, target) matches Some(stored) ==> {
            &&& forall|k: int|
                0 <= k < stored.len() ==> existing.contains(#[trigger] stored[k]) && !same_path(
                    stored[k],
                    target,
                )
            &&& forall|i: int|
                0 <= i < existing.len() && !same_path(#[trigger] existing[i], target)
                    ==> stored.contains(existing[i])
            &&& stored.len() < existing.len()
        },
{
    lemma_without_path_members(existing, target);
    lemma_without_path_len(existing, target);
}

/// What `add-path` prints, over all inputs. A path already configured is
/// reported so; a path below a configured root is reported as covered by the
/// first configured root that holds it; any other path is reported as added,
/// followed, when configured paths lie at or below it, by their number.
pub proof fn law_add_path_messages(existing: Seq<Seq<char>>, new: Seq<char>)
    ensures
        (exists|i: int| 0 <= i < existing.len() && #[trigger] same_path(existing[i], new))
            ==> add_path_lines(existing, new) == seq!["Xcode: Watch path already configured: "@ + new],
        !(exists|i: int| 0 <= i < existing.len() && #[trigger] same_path(existing[i], new)) && (exists|
            i: int,
        | 0 <= i < existing.len() && #[trigger] path_within(new, existing[i])) ==> exists|r: int|
            0 <= r < existing.len() && path_within(new, #[trigger] existing[r]) && (forall|j: int|
                0 <= j < r ==> !#[trigger] path_within(new, existing[j])) && add_path_lines(existing, new)
                == seq![
                "Xcode: "@ + new + " is already covered by existing watch root "@ + existing[r],
            ],
        !(exists|i: int| 0 <= i < existing.len() && #[trigger] path_within(new, existing[i])) ==> {
            let below = existing.filter(|e: Seq<char>| path_within(e, new));
            &&& add_path_lines(existing, new)[0] == "Xcode: Added watch path "@ + new
            &&& below.len() == 0 ==> add_path_lines(existing, new).len() == 1
            &&& below.len() > 0 ==> add_path_lines(existing, new) == seq![
                "Xcode: Added watch path "@ + new,
                "Xcode: Collapsed "@ + decimal(below.len()) + " narrower path(s) under "@ + new,
            ]
        },
{
    lemma_first_root(existing, new);
    lemma_count_within_filter(existing, new);
    if contains_path(existing, new) {
        let i = choose|i: int| 0 <= i < existing.len() && #[trigger] same_path(existing[i], new);
        law_path_within_by_components(existing[i], new);
        assert(path_within(new, existing[i]));
    }
    if !contains_path(existing, new) && first_root(existing, new) is Some {
        lemma_first_root_index(existing, new);
    }
}

} // verus!
