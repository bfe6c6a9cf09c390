use git_ai_xcode::command::{
    apply_launch_agent_output, is_help_request, run_add_path, run_list_paths, run_reload,
    run_remove_path, run_xcode, CommandOutput, LaunchAgentResult, XcodeCommand,
};
use git_ai_xcode::path::{
    classify_remove_target, components, expand_remove_target, join_path, path_starts_with,
    paths_equal, TargetBase,
};
use git_ai_xcode::text::{decimal_string, str_equal};
use git_ai_xcode::watch::{
    count_paths_within, normalize_watch_paths, remove_watch_path, serialize_watch_paths,
};
use std::path::{Path, PathBuf};

fn strings(items: &[&str]) -> Vec<String> {
    items.iter().map(|s| s.to_string()).collect()
}

fn args(items: &[&str]) -> Vec<String> {
    strings(items)
}

fn agent(message: &str, warning: Option<&str>) -> LaunchAgentResult {
    LaunchAgentResult { message: message.to_string(), warning: warning.map(|w| w.to_string()) }
}

const SAMPLE_PATHS: &[&str] = &[
    "", "/", "//", "/a", "/a/", "/a//b", "/a/./b", "/a/b/.", "/a/b", "/a/bc", "/ab", "a", "./a",
    ".", "./", "a/.", "a/..", "../a", "/a/../b", "~", "~/", "~/a", "~foo", "a/b/c", "/a/b/c/",
    "./a/./b", ".a", "a.", "/..", "~//x/./", "x/y", "/a b/c",
];

fn component_texts(p: &str) -> Vec<String> {
    components(p).into_iter().map(|c| c.into_iter().collect()).collect()
}

fn std_component_texts(p: &str) -> Vec<String> {
    Path::new(p)
        .components()
        .map(|c| c.as_os_str().to_string_lossy().into_owned())
        .collect()
}

#[test]
fn test_add_path_collapse_is_visible_in_saved_config() {
    let home = "/tmp/home";
    let parent = format!("{home}/ios");
    let child = format!("{parent}/AppA");
    let existing = strings(&[child.as_str()]);
    let update = run_add_path(&existing, &parent);
    assert!(update.output.lines.iter().any(|line| line.contains("Collapsed 1")));
    let saved = serialize_watch_paths(&update.save_paths.unwrap());
    assert_eq!(saved, Some(vec![parent.clone()]));
}

/// A relative target resolves under the current directory. This checks the
/// resolution that precedes canonicalisation; canonicalisation itself reads
/// the disk and happens outside the library.
#[test]
fn test_normalize_remove_target_resolves_relative_paths() {
    let home = "/tmp/home";
    let resolved = expand_remove_target("workspace", home, Ok(home.to_string()));
    assert_eq!(resolved, Ok("/tmp/home/workspace".to_string()));
}

#[test]
fn expand_remove_target_cases() {
    let home = "/Users/me";
    let cwd = || Ok::<String, String>("/work/dir".to_string());
    assert_eq!(expand_remove_target("~/ios", home, cwd()), Ok("/Users/me/ios".to_string()));
    assert_eq!(expand_remove_target("/abs/x", home, cwd()), Ok("/abs/x".to_string()));
    assert_eq!(expand_remove_target("rel/x", home, cwd()), Ok("/work/dir/rel/x".to_string()));
    assert_eq!(
        expand_remove_target("rel/x", home, Err("gone".to_string())),
        Err("Unable to resolve current directory: gone".to_string())
    );
    assert_eq!(
        expand_remove_target("~/ios", home, Err("gone".to_string())),
        Ok("/Users/me/ios".to_string())
    );
    for raw in SAMPLE_PATHS {
        let once = expand_remove_target(raw, home, cwd()).unwrap();
        assert!(once.starts_with('/'));
        assert_eq!(expand_remove_target(&once, home, cwd()), Ok(once.clone()));
    }
}

#[test]
fn components_agree_with_std() {
    for p in SAMPLE_PATHS {
        assert_eq!(component_texts(p), std_component_texts(p), "components of {p:?}");
    }
}

#[test]
fn path_comparisons_agree_with_std() {
    for a in SAMPLE_PATHS {
        for b in SAMPLE_PATHS {
            assert_eq!(paths_equal(a, b), Path::new(a) == Path::new(b), "{a:?} == {b:?}");
            assert_eq!(
                path_starts_with(a, b),
                Path::new(a).starts_with(Path::new(b)),
                "{a:?} starts with {b:?}"
            );
        }
    }
}

#[test]
fn starts_with_matches_whole_components_only() {
    assert!(path_starts_with("/a/b/c", "/a/b"));
    assert!(path_starts_with("/a/b", "/a/b/"));
    assert!(!path_starts_with("/a/bc", "/a/b"));
    assert!(!path_starts_with("/a", "/a/b"));
    assert!(paths_equal("/a//b/", "/a/b"));
    assert!(!paths_equal("/a/b", "a/b"));
}

#[test]
fn remove_target_expansion_agrees_with_std() {
    let home = "/Users/me";
    let cwd = "/work/dir";
    for raw in SAMPLE_PATHS {
        let ours = match classify_remove_target(raw) {
            TargetBase::Home { rest } => join_path(home, &rest),
            TargetBase::Absolute => raw.to_string(),
            TargetBase::CurrentDir => join_path(cwd, raw),
        };
        let p = Path::new(raw);
        let theirs: PathBuf = if let Ok(stripped) = p.strip_prefix("~") {
            Path::new(home).join(stripped)
        } else if p.is_absolute() {
            p.to_path_buf()
        } else {
            Path::new(cwd).join(p)
        };
        assert_eq!(ours, theirs.to_string_lossy(), "expansion of {raw:?}");
    }
}

#[test]
fn tilde_targets_resolve_under_home() {
    match classify_remove_target("~/work/ios/") {
        TargetBase::Home { rest } => {
            assert_eq!(rest, "work/ios");
            assert_eq!(join_path("/Users/me", &rest), "/Users/me/work/ios");
        }
        _ => panic!("expected a home-relative target"),
    }
    match classify_remove_target("~") {
        TargetBase::Home { rest } => assert_eq!(join_path("/Users/me", &rest), "/Users/me/"),
        _ => panic!("expected a home-relative target"),
    }
    assert!(matches!(classify_remove_target("~foo"), TargetBase::CurrentDir));
    assert!(matches!(classify_remove_target("/abs/path"), TargetBase::Absolute));
}

#[test]
fn join_path_replaces_with_absolute_and_adds_separator() {
    assert_eq!(join_path("/a", "b"), "/a/b");
    assert_eq!(join_path("/a/", "b"), "/a/b");
    assert_eq!(join_path("/a", "/b"), "/b");
    assert_eq!(join_path("", "b"), "b");
}

#[test]
fn decimal_formatting() {
    assert_eq!(decimal_string(0), "0");
    assert_eq!(decimal_string(7), "7");
    assert_eq!(decimal_string(10), "10");
    assert_eq!(decimal_string(12345), "12345");
    assert_eq!(decimal_string(usize::MAX), usize::MAX.to_string());
}

#[test]
fn string_equality() {
    assert!(str_equal("add-path", "add-path"));
    assert!(!str_equal("add-path", "add-paths"));
    assert!(str_equal("", ""));
    assert!(str_equal("é/ü", "é/ü"));
}

#[test]
fn help_requests() {
    assert!(is_help_request(&args(&[])));
    assert!(is_help_request(&args(&["help"])));
    assert!(is_help_request(&args(&["--help", "x"])));
    assert!(is_help_request(&args(&["-h"])));
    assert!(!is_help_request(&args(&["list-paths"])));
    assert!(!is_help_request(&args(&["-help"])));
}

#[test]
fn xcode_dispatch() {
    assert!(matches!(
        run_xcode(&args(&["add-path", "/x"]), true),
        Ok(XcodeCommand::AddPath(p)) if p == "/x"
    ));
    assert!(matches!(
        run_xcode(&args(&["remove-path", "~/x"]), true),
        Ok(XcodeCommand::RemovePath(p)) if p == "~/x"
    ));
    assert!(matches!(run_xcode(&args(&["list-paths"]), true), Ok(XcodeCommand::ListPaths)));
    assert!(matches!(run_xcode(&args(&["reload", "extra"]), true), Ok(XcodeCommand::Reload)));
    assert!(matches!(
        run_xcode(&args(&["add-path"]), true),
        Err(e) if e == "Usage: git-ai xcode add-path <path>"
    ));
    assert!(matches!(
        run_xcode(&args(&["remove-path"]), true),
        Err(e) if e == "Usage: git-ai xcode remove-path <path>"
    ));
    assert!(matches!(
        run_xcode(&args(&["frobnicate"]), true),
        Err(e) if e == "Unknown xcode subcommand: frobnicate"
    ));
    assert!(matches!(
        run_xcode(&args(&["add-path", "/x"]), false),
        Err(e) if e == "Xcode watcher configuration is only supported on macOS"
    ));
    assert!(matches!(
        run_xcode(&args(&[]), false),
        Err(e) if e == "Xcode watcher configuration is only supported on macOS"
    ));
}

#[test]
fn add_path_already_configured() {
    let existing = strings(&["/w/ios", "/w/mac"]);
    let update = run_add_path(&existing, "/w/mac/");
    assert_eq!(update.output.lines, vec!["Xcode: Watch path already configured: /w/mac/"]);
    assert!(update.output.warnings.is_empty());
    assert!(update.save_paths.is_none());
    assert_eq!(update.agent_paths, Some(existing.clone()));
}

#[test]
fn add_path_covered_by_root() {
    let existing = strings(&["/w/other", "/w/ios", "/w"]);
    let update = run_add_path(&existing, "/w/ios/App");
    assert_eq!(
        update.output.lines,
        vec!["Xcode: /w/ios/App is already covered by existing watch root /w/ios"]
    );
    assert!(update.save_paths.is_none());
    assert_eq!(update.agent_paths, Some(existing.clone()));
}

#[test]
fn add_path_new_root() {
    let existing = strings(&["/w/ios"]);
    let update = run_add_path(&existing, "/w/mac");
    assert_eq!(update.output.lines, vec!["Xcode: Added watch path /w/mac"]);
    let expected = strings(&["/w/ios", "/w/mac"]);
    assert_eq!(update.save_paths, Some(expected.clone()));
    assert_eq!(update.agent_paths, Some(expected));
}

#[test]
fn add_path_collapses_several() {
    let existing = strings(&["/w/a/x", "/q", "/w/a/y/z"]);
    let update = run_add_path(&existing, "/w/a");
    assert_eq!(
        update.output.lines,
        vec!["Xcode: Added watch path /w/a", "Xcode: Collapsed 2 narrower path(s) under /w/a"]
    );
    assert_eq!(update.save_paths, Some(strings(&["/q", "/w/a"])));
}

#[test]
fn add_path_twice_reports_already_configured() {
    let existing = strings(&["/w/a/x"]);
    let first = run_add_path(&existing, "/w/a");
    let saved = first.save_paths.unwrap();
    let second = run_add_path(&saved, "/w/a");
    assert_eq!(second.output.lines, vec!["Xcode: Watch path already configured: /w/a"]);
    assert!(second.save_paths.is_none());
}

#[test]
fn remove_undoes_add() {
    let existing = strings(&["/w/ios", "/w/mac"]);
    let added = run_add_path(&existing, "/w/tv").save_paths.unwrap();
    let removed = run_remove_path(&added, "/w/tv");
    assert_eq!(removed.save_paths, Some(existing));
}

#[test]
fn remove_path_cases() {
    let existing = strings(&["/w/ios", "/w/mac", "/w/ios/"]);
    let update = run_remove_path(&existing, "/w/ios");
    assert_eq!(update.output.lines, vec!["Xcode: Removed watch path /w/ios"]);
    assert_eq!(update.save_paths, Some(strings(&["/w/mac"])));
    assert_eq!(update.agent_paths, Some(strings(&["/w/mac"])));

    let missing = run_remove_path(&existing, "/w/tv");
    assert_eq!(missing.output.lines, vec!["Xcode: Watch path not configured: /w/tv"]);
    assert!(missing.save_paths.is_none());
    assert!(missing.agent_paths.is_none());

    let last = run_remove_path(&strings(&["/w/ios"]), "/w/ios");
    assert_eq!(serialize_watch_paths(&last.save_paths.unwrap()), None);
}

#[test]
fn list_paths_cases() {
    let empty = run_list_paths(&Vec::new());
    assert_eq!(empty.lines, vec!["Xcode: No watch paths configured"]);
    let listed = run_list_paths(&strings(&["/a", "/b"]));
    assert_eq!(listed.lines, vec!["/a", "/b"]);
    assert!(listed.warnings.is_empty());
}

#[test]
fn launch_agent_output() {
    let mut output = CommandOutput::new();
    output.push_line("first".to_string());
    assert!(apply_launch_agent_output(Ok(agent("LaunchAgent updated", Some("slow"))), &mut output)
        .is_ok());
    assert_eq!(output.lines, vec!["first", "LaunchAgent updated"]);
    assert_eq!(output.warnings, vec!["Xcode: slow"]);

    let mut untouched = CommandOutput::new();
    let err = apply_launch_agent_output(Err("launchctl failed".to_string()), &mut untouched);
    assert_eq!(err, Err("launchctl failed".to_string()));
    assert!(untouched.lines.is_empty() && untouched.warnings.is_empty());

    let reloaded = run_reload(Ok(agent("Watcher LaunchAgent removed", None))).unwrap();
    assert_eq!(reloaded.lines, vec!["Watcher LaunchAgent removed"]);
    assert!(reloaded.warnings.is_empty());
    assert!(matches!(run_reload(Err("boom".to_string())), Err(e) if e == "boom"));
}

#[test]
fn command_output_push() {
    let mut output = CommandOutput::new();
    output.push_warning("w".to_string());
    output.push_line("l".to_string());
    assert_eq!(output.lines, vec!["l"]);
    assert_eq!(output.warnings, vec!["w"]);
}

#[test]
fn normalization() {
    let paths = strings(&["/a/b", "/a", "/a/", "/c", "/c/d/e", "/ab"]);
    let normalized = normalize_watch_paths(&paths);
    assert_eq!(normalized, strings(&["/a", "/c", "/ab"]));
    assert_eq!(normalize_watch_paths(&normalized), normalized);
    assert_eq!(normalize_watch_paths(&Vec::new()), Vec::<String>::new());
}

#[test]
fn removal_and_counting() {
    let paths = strings(&["/a/b", "/a", "/a/", "/c"]);
    assert_eq!(remove_watch_path(&paths, "/a"), strings(&["/a/b", "/c"]));
    assert_eq!(count_paths_within(&paths, "/a"), 3);
    assert_eq!(count_paths_within(&paths, "/z"), 0);
    assert_eq!(serialize_watch_paths(&paths), Some(paths.clone()));
}
