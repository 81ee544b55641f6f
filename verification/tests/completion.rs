//! What completes a command: help texts, what is remembered of them, and the
//! providers.

use quill::completion::bootstrap::{
    choose_binaries, worker_count as index_workers, Binary, BootstrapConfig, BootstrapErr, BootstrapState,
    Bootstrapper, Candidate, Step,
};
use quill::completion::cache::{
    cache_file_name, default_base_dir, same_key, system_time_from_parts, CacheEntry, CacheKey,
    CompletionCache, DiskCacheKey, Timestamp,
};
use quill::completion::help_indexer::{
    append_capped, command_token, is_denied, locate, parse_help_suggestions, query_signature,
    simple_regex_parse, HelpIndexerConfig, HelpIndexerProvider, HelpOutcome, HelpRun, Location, RunNext,
};
use quill::completion::negative::NegativeCache;
use quill::completion::parser::{
    detect_format, parse, parse_argparse, parse_clap, parse_docopt, strip_ansi, to_suggestions, try_parse,
    validate_parsed_help, FlagSpec, HelpFormat, ParsedHelp,
};
use quill::completion::path_binaries::{ordered_names, PathBinariesProvider, REFRESH_TTL};
use quill::completion::worker::{worker_count, WorkerPool};
use quill::completion::{GenerationId, ProviderErr, QueryCtx, Suggestion, SuggestionGroup};
use quill::paths::path_is_allowed;

fn texts(suggestions: &[Suggestion]) -> Vec<&str> {
    suggestions.iter().map(|s| s.text.as_str()).collect()
}

fn at(secs: i64) -> Timestamp {
    Timestamp { secs, nanos: 0 }
}

fn key(path: &str, mtime_secs: i64, signature: &str) -> CacheKey {
    CacheKey {
        binary_path: path.as_bytes().to_vec(),
        binary_mtime: at(mtime_secs),
        query_signature: signature.to_string(),
    }
}

fn suggestion(text: &str) -> Suggestion {
    Suggestion {
        text: text.to_string(),
        display: text.to_string(),
        description: format!("{text} description"),
        group: SuggestionGroup::Flag,
    }
}

fn ctx(command: &str, current: &str, previous: &[&str]) -> QueryCtx {
    QueryCtx {
        command: command.to_string(),
        current_token: current.to_string(),
        previous_tokens: previous.iter().map(|s| s.to_string()).collect(),
        working_dir: "/work".to_string(),
    }
}

#[test]
fn test_detect_clap_format() {
    assert_eq!(
        detect_format("Usage: git [OPTIONS] [COMMAND]\n\nOptions:\n  -h, --help  Print help\n"),
        HelpFormat::Clap
    );
}

#[test]
fn test_detect_argparse_format() {
    assert_eq!(
        detect_format("usage: pip [-h]\n\noptional arguments:\n  -h, --help  show help\n"),
        HelpFormat::Argparse
    );
}

#[test]
fn test_detect_docopt_format() {
    assert_eq!(
        detect_format("Usage:\n  prog ship new <name>\n\nOptions:\n  -h --help  Show help.\n"),
        HelpFormat::Docopt
    );
}

#[test]
fn test_detect_unknown_falls_back_to_heuristic() {
    let parsed = parse("flags:\n  --json <FILE>  Emit json\n");
    assert_eq!(
        (parsed.format, parsed.flags[0].long.as_deref()),
        (HelpFormat::Unknown, Some("--json"))
    );
}

#[test]
fn test_parse_clap_flags() {
    let parsed = parse_clap("Options:\n  -h, --help          Print help\n      --color <WHEN>  Color mode\n");
    assert_eq!(parsed.flags.len(), 2);
    assert_eq!(
        (parsed.flags[0].short.as_deref(), parsed.flags[0].long.as_deref()),
        (Some("-h"), Some("--help"))
    );
    assert_eq!(
        (parsed.flags[1].long.as_deref(), parsed.flags[1].value_name.as_deref()),
        (Some("--color"), Some("<WHEN>"))
    );
}

#[test]
fn test_parse_clap_subcommands() {
    let parsed = parse_clap(
        "Commands:\n  build    Compile\n  check    Check package\n\nOptions:\n  -h, --help  Print help\n",
    );
    assert!(parsed.subcommands.iter().any(|cmd| cmd.name == "build"));
    assert_eq!(parsed.subcommands[0].description, "Compile");
}

#[test]
fn test_parse_argparse_optional_args() {
    let parsed = parse_argparse("usage: demo [-h] [-o OUT]\n\npositional arguments:\n  file        input file\n\noptional arguments:\n  -h, --help  show help\n  -o OUT, --output OUT  write output\n");
    assert_eq!(parsed.positional_args[0].name, "file");
    assert_eq!(
        (parsed.flags[1].short.as_deref(), parsed.flags[1].value_name.as_deref()),
        (Some("-o"), Some("OUT"))
    );
}

#[test]
fn test_parse_docopt_usage_block() {
    let parsed = parse_docopt("Usage:\n  prog ship new <name>\n  prog ship move <name> <x> <y>\n\nOptions:\n  -h --help     Show help.\n  --speed=<kn>  Speed.\n");
    assert!(parsed.subcommands.iter().any(|cmd| cmd.name == "ship"));
    assert!(parsed.positional_args.iter().any(|arg| arg.name == "<name>"));
    assert_eq!(parsed.flags[1].long.as_deref(), Some("--speed"));
}

#[test]
fn test_to_suggestions_filters_by_prefix() {
    let parsed = parse_clap("Options:\n  --help     Print help\n  --version  Print version\n");
    assert_eq!(texts(&to_suggestions(&parsed, "--ver")), vec!["--version"]);
}

#[test]
fn escape_sequences_are_no_part_of_a_help_text() {
    let help = "Options:\n  \x1b[1m-a\x1b[0m, \x1b]8;;https://x\x1b\\--all\x1b]8;;\x1b\\  Show all\n";
    let parsed = parse(help);
    assert_eq!(parsed.flags[0].long.as_deref(), Some("--all"));
    assert_eq!(parsed.flags[0].description, "Show all");
}

#[test]
fn a_description_that_breaks_the_rules_is_refused() {
    let flag = |short: Option<&str>, takes_value: bool, value_name: Option<&str>| FlagSpec {
        short: short.map(String::from),
        long: None,
        takes_value,
        value_name: value_name.map(String::from),
        description: String::new(),
    };
    let with = |f: FlagSpec| {
        let mut h: ParsedHelp = parse_clap("");
        h.flags.push(f);
        validate_parsed_help(&h)
    };
    assert!(with(flag(Some("-h"), false, None)).is_ok());
    assert_eq!(
        with(flag(None, false, None)).unwrap_err().message,
        "flag must have short or long name"
    );
    assert_eq!(
        with(flag(Some("-h"), true, None)).unwrap_err().message,
        "flag takes_value must match value_name"
    );
    let mut h = parse_clap("Commands:\n  build    Compile\n");
    h.subcommands[0].name = String::new();
    assert_eq!(
        validate_parsed_help(&h).unwrap_err().message,
        "parsed names must not be empty"
    );
}

#[test]
fn a_help_text_that_is_read_can_be_read() {
    let help = "Usage: demo [OPTIONS]\n\nOptions:\n  -h, --help  Print help\n";
    assert_eq!(try_parse(help), Some(parse(help)));
    assert!(validate_parsed_help(&parse(help)).is_ok());
    assert_eq!(texts(&parse_help_suggestions(help)), vec!["-h", "--help"]);
}

#[test]
fn test_simple_regex_parse_clap_flags() {
    let help = "\
Usage: demo [OPTIONS]
  -h, --help          Print help
  -V, --version       Print version
      --color <WHEN>  Color mode
";
    let suggestions = simple_regex_parse(help, "");
    let texts: Vec<_> = texts(&suggestions);
    assert!(texts.contains(&"-h"));
    assert!(texts.contains(&"--help"));
    assert!(texts.contains(&"-V"));
    assert!(texts.contains(&"--version"));
    assert!(texts.contains(&"--color"));
    assert!(suggestions
        .iter()
        .filter(|suggestion| suggestion.text == "--help")
        .all(|suggestion| suggestion.group == SuggestionGroup::Flag));
}

#[test]
fn test_simple_regex_parse_subcommands() {
    let help = "\
Commands:
  checkout    Switch branches or restore files
  commit      Record changes
";
    let suggestions = simple_regex_parse(help, "");
    let checkout = suggestions.iter().find(|s| s.text == "checkout").unwrap();
    assert_eq!(checkout.group, SuggestionGroup::Subcommand);
    assert_eq!(checkout.description, "Switch branches or restore files");
    assert!(suggestions.iter().any(|s| s.text == "commit"));
}

#[test]
fn test_simple_regex_parse_filter_by_prefix() {
    let help = "\
  --help       Print help
  --version    Print version
  checkout     Switch branches
";
    let suggestions = simple_regex_parse(help, "--ver");
    assert_eq!(suggestions.len(), 1);
    assert_eq!(suggestions[0].text, "--version");
}

fn provider() -> HelpIndexerProvider {
    HelpIndexerProvider::new(HelpIndexerConfig::with_paths(vec![b"/bin".to_vec()]))
}

#[test]
fn test_inflight_dedup_returns_cancelled() {
    let mut p = provider();
    let mut cache = CompletionCache::new("/cache".to_string(), 100);
    let k = key("/bin/slow-help", 1, "help:slow-help");
    assert_eq!(p.lookup(&mut cache, &k, ""), Ok(None));
    assert_eq!(p.lookup(&mut cache, &k, ""), Err(ProviderErr::Cancelled));
    let first = p
        .finish(
            &mut cache,
            k.clone(),
            HelpOutcome::Output("  --slow  slow flag\n".to_string()),
            "",
            5,
            at(9),
        )
        .unwrap();
    assert!(first.iter().any(|s| s.text == "--slow"));
    assert_eq!(p.lookup(&mut cache, &k, "--sl"), Ok(Some(first)));
    assert_eq!(p.lookup(&mut cache, &k, "--x"), Ok(Some(vec![])));
}

#[test]
fn test_negative_cache_blocks_24h() {
    let mut p = provider();
    let mut cache = CompletionCache::new("/cache".to_string(), 100);
    let k = key("/bin/negative-help", 1, "help:negative-help");
    let allow = vec![b"/bin".to_vec()];
    let day: u64 = 24 * 60 * 60 * 1_000_000_000;
    let mut ask = |p: &mut HelpIndexerProvider, now: u64| {
        p.may_ask(b"/bin/negative-help", "/bin/negative-help", "negative-help", &allow, now)
    };
    assert_eq!(ask(&mut p, 100), Ok(()));
    assert_eq!(p.lookup(&mut cache, &k, ""), Ok(None));
    assert_eq!(
        p.finish(&mut cache, k.clone(), HelpOutcome::Output(String::new()), "", 100, at(0)),
        Err(ProviderErr::NotFound)
    );
    assert_eq!(ask(&mut p, 100 + day - 1), Err(ProviderErr::NotFound));
    assert_eq!(ask(&mut p, 100 + day), Ok(()));
}

#[test]
fn test_output_cap_truncates() {
    let first_line = "  --first  first flag\n";
    let mut run = HelpRun::new(0, 1_000, first_line.len());
    run.took(b"  --first  first ");
    run.took(b"flag\n  --second  second flag\n");
    assert_eq!(run.finish(), first_line);
    let suggestions = parse_help_suggestions(&run.finish());
    assert!(suggestions.iter().any(|s| s.text == "--first"));
    assert!(!suggestions.iter().any(|s| s.text == "--second"));
}

#[test]
fn a_program_that_takes_too_long_is_ended() {
    let mut run = HelpRun::new(1_000, 25_000_000, 10);
    assert_eq!(run.next(1_000), RunNext::WaitOutput(10_000_000));
    assert_eq!(run.next(20_001_000), RunNext::WaitOutput(5_000_000));
    run.output_closed();
    assert_eq!(run.next(20_001_000), RunNext::WaitDone(5_000_000));
    assert_eq!(run.next(25_001_000), RunNext::Kill);
    let mut p = provider();
    let mut cache = CompletionCache::new("/cache".to_string(), 100);
    let k = key("/bin/x", 1, "help:x");
    p.lookup(&mut cache, &k, "").unwrap();
    assert_eq!(
        p.finish(&mut cache, k.clone(), HelpOutcome::Timeout, "", 7, at(0)),
        Err(ProviderErr::Timeout)
    );
    let allow = vec![b"/bin".to_vec()];
    assert_eq!(p.may_ask(b"/bin/x", "/bin/x", "x", &allow, 8), Err(ProviderErr::NotFound));
    p.lookup(&mut cache, &k, "").unwrap();
    assert_eq!(
        p.finish(&mut cache, k, HelpOutcome::Io("gone".to_string()), "", 7, at(0)),
        Err(ProviderErr::Io("gone".to_string()))
    );
}

#[test]
fn help_that_is_no_text_is_read_with_replacements() {
    let mut run = HelpRun::new(0, 1, 10);
    run.took(&[b'a', 0xff]);
    assert_eq!(run.finish(), "a\u{fffd}");
    let mut out = vec![1, 2];
    append_capped(&mut out, &[3, 4, 5], 4);
    assert_eq!(out, vec![1, 2, 3, 4]);
}

#[test]
fn only_listed_directories_hold_programs_to_be_asked() {
    let mut p = HelpIndexerProvider::with_deny_list(
        HelpIndexerConfig::with_paths(vec![]),
        vec!["rm".to_string(), "/bin/halt".to_string()],
    );
    let allow = vec![b"/usr/bin".to_vec(), b"/bin/".to_vec()];
    let mut ask = |path: &str, name: &str| p.may_ask(path.as_bytes(), path, name, &allow, 0);
    assert_eq!(ask("/bin/ls", "ls"), Ok(()));
    assert_eq!(ask("/usr/bin/x", "x"), Ok(()));
    assert_eq!(ask("/usr/binx/x", "x"), Err(ProviderErr::NotFound));
    assert_eq!(ask("/bin/rm", "rm"), Err(ProviderErr::NotFound));
    assert_eq!(ask("/bin/halt", "halt"), Err(ProviderErr::NotFound));
    assert!(path_is_allowed(b"/a/./b//c", &vec![b"/a/b".to_vec()]));
    assert!(path_is_allowed(b"/a", &vec![b"".to_vec()]));
    assert!(!path_is_allowed(b"/a", &vec![b"a".to_vec()]));
    assert!(is_denied("/x/y", "y", &vec!["y".to_string()]));
}

#[test]
fn the_program_of_a_question() {
    assert_eq!(command_token(&ctx(" git  status", "", &[])).as_deref(), Some("git"));
    assert_eq!(command_token(&ctx("", "", &["", "ls"])).as_deref(), Some("ls"));
    assert_eq!(command_token(&ctx("", "", &[])), None);
    assert_eq!(query_signature(&ctx("git", "", &[])), "help:git");
    assert_eq!(query_signature(&ctx("", "", &[])), "help:");
    assert!(matches!(locate(&ctx("git", "", &[])), Ok(Location::Named(n)) if n == "git"));
    assert!(matches!(locate(&ctx("./x", "", &[])), Ok(Location::At(p)) if p == "/work/./x"));
    assert!(matches!(locate(&ctx("/bin/x", "", &[])), Ok(Location::At(p)) if p == "/bin/x"));
    assert!(matches!(locate(&ctx("", "", &[])), Err(ProviderErr::NotFound)));
}

#[test]
fn test_cache_put_get() {
    let mut cache = CompletionCache::new("put-get".to_string(), 100);
    let key = key("/usr/bin/git", 1, "git:");
    let suggestions = vec![suggestion("--help")];
    cache.put(key.clone(), suggestions.clone(), at(5));
    assert_eq!(cache.get(&key), Some(suggestions));
}

#[test]
fn test_cache_lru_evicts_oldest_when_full() {
    let mut cache = CompletionCache::new("lru".to_string(), 2);
    let first = key("/bin/a", 1, "a");
    let second = key("/bin/b", 1, "b");
    let third = key("/bin/c", 1, "c");
    cache.put(first.clone(), vec![suggestion("a")], at(0));
    cache.put(second.clone(), vec![suggestion("b")], at(0));
    assert!(cache.get(&first).is_some());
    cache.put(third.clone(), vec![suggestion("c")], at(0));
    assert!(cache.get(&first).is_some());
    assert!(cache.get(&second).is_none());
    assert!(cache.get(&third).is_some());
}

#[test]
fn test_cache_ignores_entry_age() {
    let mut cache = CompletionCache::new("mtime-only".to_string(), 100);
    let key = key("/usr/bin/git", 1, "old-but-valid");
    let suggestions = vec![suggestion("--still-valid")];
    cache.put_entry(
        key.clone(),
        CacheEntry {
            suggestions: suggestions.clone(),
            stored_at: at(-10 * 24 * 60 * 60),
        },
    );
    assert_eq!(cache.get(&key), Some(suggestions));
}

#[test]
fn test_cache_save_load_disk() {
    let key = key("/usr/bin/git", 1, "disk");
    let suggestions = vec![suggestion("checkout"), suggestion("commit")];
    let mut writer = CompletionCache::new("disk".to_string(), 100);
    writer.put(key.clone(), suggestions.clone(), at(77));
    let saved = writer.to_disk(&key).unwrap();
    assert_eq!(saved.format_version, 1);
    assert_eq!(saved.stored_at_secs, 77);
    let mut reader = CompletionCache::new("disk".to_string(), 100);
    assert_eq!(reader.take_from_disk(&key, saved), Some(suggestions.clone()));
    assert_eq!(reader.get(&key), Some(suggestions));
}

#[test]
fn test_cache_key_binary_mtime_change_invalidates() {
    let old_key = key("/usr/bin/git", 1, "same-query");
    let new_key = key("/usr/bin/git", 2, "same-query");
    let mut writer = CompletionCache::new("mtime".to_string(), 100);
    writer.put(old_key.clone(), vec![suggestion("old")], at(0));
    let saved = writer.to_disk(&old_key).unwrap();
    assert!(writer.to_disk(&new_key).is_none());
    let mut reader = CompletionCache::new("mtime".to_string(), 100);
    assert!(reader.take_from_disk(&new_key, saved).is_none());
    assert_ne!(cache_file_name(&old_key), cache_file_name(&new_key));
}

#[test]
fn the_file_of_a_key() {
    let k = key("/a", 0, "help:a");
    let cache = CompletionCache::new("/c".to_string(), 0);
    assert_eq!(cache.cache_path(&k), format!("/c/{}", cache_file_name(&k)));
    assert_eq!(cache_file_name(&k).len(), 16 + 5);
    assert!(cache_file_name(&k).ends_with(".json"));
    assert_eq!(DiskCacheKey::from_cache_key(&k).binary_path_hex, "2f61");
    assert_eq!(default_base_dir(Some("/x"), Some("/h")), "/x/quill/completions");
    assert_eq!(default_base_dir(None, Some("/h/")), "/h/.cache/quill/completions");
    assert_eq!(default_base_dir(None, None), ".cache/quill/completions");
    assert_eq!(default_base_dir(Some(""), None), "quill/completions");
    assert_eq!(
        system_time_from_parts(3, 2_000_000_000),
        Timestamp { secs: 3, nanos: 999_999_999 }
    );
}

#[test]
fn test_worker_pool_submit_returns_result() {
    let mut pool = WorkerPool::new();
    pool.submit(GenerationId(1), 0);
    assert!(pool.is_active(GenerationId(1)));
    let result = pool.answered(GenerationId(1), Ok(vec![suggestion("checkout")]));
    assert_eq!(result, Some(vec![suggestion("checkout")]));
    assert!(!pool.is_active(GenerationId(1)));
}

#[test]
fn test_worker_pool_cancel_drops_result() {
    let mut pool = WorkerPool::new();
    pool.submit(GenerationId(2), 7);
    let told = pool.cancel(GenerationId(2));
    assert_eq!(told, vec![7]);
    assert!(pool.answered(GenerationId(2), Ok(vec![suggestion("commit")])).is_none());
}

#[test]
fn a_generation_ends_with_its_last_question() {
    let mut pool = WorkerPool::new();
    pool.submit(GenerationId(3), 0);
    pool.submit(GenerationId(3), 1);
    pool.submit(GenerationId(4), 0);
    assert_eq!(pool.answered(GenerationId(3), Err(ProviderErr::NotFound)), Some(vec![]));
    assert!(pool.is_active(GenerationId(3)));
    pool.finish_generation(GenerationId(3));
    assert!(!pool.is_active(GenerationId(3)));
    assert!(pool.is_active(GenerationId(4)));
    assert_eq!(pool.cancel(GenerationId(9)), Vec::<usize>::new());
    assert_eq!((worker_count(0), worker_count(4)), (1, 4));
}

#[test]
fn empty_prefix_returns_nothing() {
    let mut provider = PathBinariesProvider::new();
    provider.refresh(&vec!["ls".to_string()], 0);
    assert!(provider.query(&ctx("", "", &[])).is_empty());
}

#[test]
fn second_token_returns_nothing() {
    let mut provider = PathBinariesProvider::new();
    provider.refresh(&vec!["foo".to_string()], 0);
    assert!(provider.query(&ctx("foo", "foo", &["ls"])).is_empty());
}

#[test]
fn ls_prefix_finds_ls() {
    let mut provider = PathBinariesProvider::new();
    let c = ctx("ls", "ls", &[]);
    assert!(provider.needs_refresh(&c, 0));
    provider.refresh(&vec!["lsof".to_string(), "cat".to_string(), "ls".to_string(), "ls".to_string()], 5);
    assert!(!provider.needs_refresh(&c, 5 + REFRESH_TTL));
    assert!(provider.needs_refresh(&c, 6 + REFRESH_TTL));
    let found = provider.query(&c);
    assert_eq!(texts(&found), vec!["ls", "lsof"]);
    assert_eq!(found[0].group, SuggestionGroup::Subcommand);
}

#[test]
fn at_most_twenty_programs_are_offered() {
    let mut provider = PathBinariesProvider::new();
    let names: Vec<String> = (0..50).map(|i| format!("p{i:02}")).collect();
    provider.refresh(&names, 0);
    let found = provider.query(&ctx("p", "p", &[]));
    assert_eq!(found.len(), 20);
    assert_eq!(found[0].text, "p00");
    assert_eq!(found[19].text, "p19");
    let mut sorted = names.clone();
    sorted.sort();
    let mut shuffled = names;
    shuffled.reverse();
    assert_eq!(ordered_names(&shuffled), sorted);
}

fn candidate(name: &str, path: &str, mtime: Option<i64>) -> Candidate {
    Candidate {
        name: name.to_string(),
        path: path.as_bytes().to_vec(),
        text: path.to_string(),
        file_name: path.rsplit('/').next().unwrap().to_string(),
        mtime: mtime.map(at),
    }
}

fn names(bins: &[Binary]) -> Vec<&str> {
    bins.iter().map(|b| b.name.as_str()).collect()
}

#[test]
fn test_scan_path_collects_executables() {
    let found = vec![candidate("zz", "/a/zz", Some(1)), candidate("ok", "/a/ok", Some(1))];
    assert_eq!(names(&choose_binaries(&found, &vec![])), vec!["ok", "zz"]);
}

#[test]
fn test_dedup_keeps_first_in_path() {
    let found = vec![candidate("dup", "/a/dup", Some(1)), candidate("dup", "/b/dup", Some(1))];
    let bins = choose_binaries(&found, &vec![]);
    assert_eq!(bins.len(), 1);
    assert!(bins[0].path.starts_with(b"/a"));
}

#[test]
fn test_skip_deny_list() {
    let found = vec![candidate("skip", "/a/skip", Some(1))];
    assert!(choose_binaries(&found, &vec!["skip".to_string()]).is_empty());
}

#[test]
fn a_program_without_a_time_still_takes_its_name() {
    let found = vec![candidate("x", "/a/x", None), candidate("x", "/b/x", Some(1))];
    assert!(choose_binaries(&found, &vec![]).is_empty());
}

fn boot() -> Bootstrapper {
    Bootstrapper::new(BootstrapConfig::with_paths(vec![b"/a".to_vec()]))
}

#[test]
fn test_progress_updates_during_indexing() {
    let mut b = boot();
    let mut cache = CompletionCache::new("c".to_string(), 10);
    b.begin_delayed(1);
    assert_eq!(b.progress().state, BootstrapState::Delayed);
    b.begin_scan(2);
    assert_eq!(b.progress().state, BootstrapState::Scanning);
    let bins = b.scanned(&vec![candidate("slow", "/a/slow", Some(1)), candidate("slower", "/a/slower", Some(1))]);
    assert_eq!(b.progress().state, BootstrapState::Indexing);
    assert_eq!(b.progress().total, 2);
    for bin in &bins {
        match b.begin_one(bin, &mut cache, 3) {
            Step::Look(k) => {
                assert_eq!(b.progress().current_binary.as_deref(), Some(bin.name.as_str()));
                assert!(b.remember(&mut cache, &k, vec![suggestion("--x")], at(1)));
                b.end_one(&bin.path, true, 4);
            }
            Step::Done => panic!(),
        }
    }
    let stats = b.complete(2, 10).unwrap();
    assert_eq!(stats.indexed, 2);
    assert_eq!(stats.total_scanned, 2);
    assert_eq!(stats.elapsed, 8);
    assert_eq!(b.progress().state, BootstrapState::Completed);
    assert_eq!(b.progress().current_binary, None);
}

#[test]
fn test_already_cached_skipped() {
    let mut b = boot();
    let mut cache = CompletionCache::new("c".to_string(), 10);
    cache.put(key("/a/cached", 1, "help:cached"), vec![suggestion("--old")], at(0));
    b.begin_scan(0);
    let bins = b.scanned(&vec![candidate("cached", "/a/cached", Some(1))]);
    assert!(matches!(b.begin_one(&bins[0], &mut cache, 0), Step::Done));
    let stats = b.complete(0, 0).unwrap();
    assert_eq!((stats.already_cached, stats.indexed, stats.failed), (1, 0, 0));
}

#[test]
fn what_is_found_on_disk_counts_as_cached() {
    let mut b = boot();
    let mut cache = CompletionCache::new("c".to_string(), 10);
    b.begin_scan(0);
    let bins = b.scanned(&vec![candidate("disk", "/a/disk", Some(1))]);
    assert!(matches!(b.begin_one(&bins[0], &mut cache, 0), Step::Look(_)));
    b.found_on_disk();
    let stats = b.complete(0, 0).unwrap();
    assert_eq!((stats.already_cached, stats.indexed, stats.failed), (1, 0, 0));
}

#[test]
fn test_failed_binary_marked_in_negative_cache() {
    let mut b = boot();
    let mut cache = CompletionCache::new("c".to_string(), 10);
    b.begin_scan(0);
    let bins = b.scanned(&vec![candidate("bad", "/a/bad", Some(1))]);
    let k = match b.begin_one(&bins[0], &mut cache, 0) {
        Step::Look(k) => k,
        Step::Done => panic!(),
    };
    assert!(!b.remember(&mut cache, &k, vec![], at(0)));
    b.end_one(&bins[0].path, false, 0);
    let stats = b.complete(0, 0).unwrap();
    assert_eq!(stats.failed, 1);
    assert!(b.is_negative_cached(b"/a/bad", 1));
    assert!(matches!(b.begin_one(&bins[0], &mut cache, 1), Step::Done));
}

#[test]
fn test_max_concurrent_respected() {
    assert_eq!(index_workers(2, 6), 2);
    assert_eq!(index_workers(4, 3), 3);
    assert_eq!(index_workers(0, 3), 1);
    assert_eq!(index_workers(4, 0), 1);
}

#[test]
fn test_cancel_stops_indexing() {
    let mut b = boot();
    b.begin_scan(0);
    let _ = b.scanned(&vec![candidate("x", "/a/x", Some(1))]);
    b.cancel();
    assert!(b.is_cancelled());
    assert!(matches!(b.complete(0, 5), Err(BootstrapErr::CancelledByUser)));
    assert_eq!(b.progress().state, BootstrapState::Failed("cancelled".to_string()));
    assert_eq!(b.progress().finished_at, Some(5));
    assert!(b.progress().completed < b.progress().total);
    b.rearm();
    assert!(!b.is_cancelled());
    b.fail("NoPath", 6);
    assert_eq!(b.progress().state, BootstrapState::Failed("NoPath".to_string()));
    let config = b.help_config(vec![]);
    assert_eq!(config.timeout, 2_000_000_000);
}

#[test]
fn programs_without_an_answer_are_forgotten_in_time() {
    let mut n = NegativeCache::new();
    n.mark_negative(b"/x", 10);
    assert!(n.is_negative_cached(b"/x", 19, 10));
    assert!(!n.is_negative_cached(b"/y", 19, 10));
    assert!(!n.is_negative_cached(b"/x", 20, 10));
    assert!(!n.is_negative_cached(b"/x", 10, 10));
    n.mark_negative(b"/x", 30);
    n.mark_negative(b"/x", 40);
    assert!(n.is_negative_cached(b"/x", 45, 10));
}

#[test]
fn a_path_is_known_by_its_parts() {
    let mut cache = CompletionCache::new("c".to_string(), 10);
    cache.put(key("/bin//a/./b", 1, "q"), vec![suggestion("x")], at(0));
    assert!(same_key(&key("/bin/a/b/", 1, "q"), &key("/bin//a/./b", 1, "q")));
    assert_eq!(cache.get(&key("/bin/a/b", 1, "q")), Some(vec![suggestion("x")]));
    assert_eq!(cache.get(&key("bin/a/b", 1, "q")), None);
    assert_eq!(cache.get(&key("/bin/b", 1, "q")), None);
    cache.put(key("./a", 1, "q"), vec![suggestion("y")], at(0));
    assert_eq!(cache.get(&key("a", 1, "q")), None);
    assert_eq!(cache.get(&key(".//a", 1, "q")), Some(vec![suggestion("y")]));
    let mut n = NegativeCache::new();
    n.mark_negative(b"/bin//a", 0);
    assert!(n.is_negative_cached(b"/bin/a", 1, 10));
    assert!(!n.is_negative_cached(b"/bin/../bin/a", 1, 10));
}

#[test]
fn a_full_cache_forgets_the_oldest() {
    let mut cache = CompletionCache::new("c".to_string(), 2);
    for name in ["a", "b"] {
        cache.put(key(name, 1, "q"), vec![suggestion(name)], at(0));
    }
    assert!(cache.get(&key("a", 1, "q")).is_some());
    cache.put(key("c", 1, "q"), vec![suggestion("c")], at(0));
    assert_eq!(cache.get(&key("b", 1, "q")), None);
    assert!(cache.get(&key("a", 1, "q")).is_some());
    assert!(cache.get(&key("c", 1, "q")).is_some());
}

#[test]
fn a_limit_of_none_keeps_a_hundred() {
    let mut cache = CompletionCache::new("c".to_string(), 0);
    for i in 0..=100 {
        cache.put(key("/a", i, "q"), vec![suggestion("x")], at(0));
    }
    assert_eq!(cache.get(&key("/a", 0, "q")), None);
    for i in 1..=100 {
        assert!(cache.get(&key("/a", i, "q")).is_some());
    }
}

#[test]
fn a_second_run_asks_no_program() {
    let mut b = boot();
    let mut cache = CompletionCache::new("c".to_string(), 10);
    let found = vec![candidate("bad", "/a/bad", Some(1)), candidate("good", "/a/good", Some(1))];
    b.begin_scan(0);
    let bins = b.scanned(&found);
    for bin in &bins {
        match b.begin_one(bin, &mut cache, 0) {
            Step::Look(k) => {
                let saved = bin.name == "good" && b.remember(&mut cache, &k, vec![suggestion("--x")], at(1));
                b.end_one(&bin.path, saved, 0);
            }
            Step::Done => panic!(),
        }
    }
    let stats = b.complete(0, 1).unwrap();
    assert_eq!((stats.total_scanned, stats.indexed, stats.already_cached, stats.failed), (2, 1, 0, 1));
    b.begin_scan(2);
    let again = b.scanned(&found);
    for bin in &again {
        assert!(matches!(b.begin_one(bin, &mut cache, 2), Step::Done));
    }
    let stats = b.complete(2, 3).unwrap();
    assert_eq!((stats.total_scanned, stats.indexed, stats.already_cached, stats.failed), (2, 0, 1, 1));
}

#[test]
fn colors_do_not_change_what_is_read() {
    let plain = "Usage: x [OPTIONS]\n\nOptions:\n  -a, --all  Show all\n";
    let colored = "\x1b[1mUsage:\x1b[0m x [OPTIONS]\n\nOptions:\n  \x1b[32m-a\x1b[0m, --all  Show all\n";
    assert_eq!(parse(plain), parse(colored));
    assert_eq!(parse(plain).format, HelpFormat::Clap);
}

#[test]
fn escape_sequences_are_taken_out() {
    for (text, left) in [
        ("\x1b[1;32mgreen\x1b[0m é", "green é"),
        ("\x1b[?25l\x1b[mx", "x"),
        ("a\x1b]8;;http://é\x1b\\b\x1b]0;t\nu\x07c", "abc"),
        ("\x1b(Bx\x1b)0y\x1b(\n", "xy\x1b(\n"),
        ("\x1b[12 m", "\x1b[12 m"),
        ("\x1b]8;;x", "\x1b]8;;x"),
        ("\x1b]a\x1b[mb", "\x1b]ab"),
        ("\x1b\x1b[mz\x1b", "\x1bz\x1b"),
        ("\x1b[\x1b[1m[1m", "\x1b[[1m"),
        ("plain", "plain"),
        ("", ""),
    ] {
        assert_eq!(strip_ansi(text), left);
    }
}

#[test]
fn a_second_run_counts_as_the_first() {
    let mut b = boot();
    let mut cache = CompletionCache::new("c".to_string(), 3);
    cache.put(key("/a/known", 1, "help:known"), vec![suggestion("--k")], at(0));
    let found = vec![
        candidate("bad", "/a/bad", Some(1)),
        candidate("known", "/a/known", Some(1)),
        candidate("new", "/a/new", Some(1)),
    ];
    let mut runs = Vec::new();
    for now in [5, 6] {
        b.begin_scan(now);
        for bin in &b.scanned(&found) {
            if let Step::Look(k) = b.begin_one(bin, &mut cache, now) {
                let saved = bin.name == "new" && b.remember(&mut cache, &k, vec![suggestion("--x")], at(1));
                b.end_one(&bin.path, saved, now);
            }
        }
        let stats = b.complete(now, now).unwrap();
        assert_eq!(stats.total_scanned, stats.already_cached + stats.indexed + stats.failed);
        runs.push((stats.already_cached, stats.indexed, stats.failed));
    }
    assert_eq!(runs, vec![(1, 1, 1), (2, 0, 1)]);
}
