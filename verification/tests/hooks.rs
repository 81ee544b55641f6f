//! The completions that depend on the machine.

use quill::completion::dynamic_hooks::cd::CdProvider;
use quill::completion::dynamic_hooks::docker::{
    container_suggestions, parse_docker_containers, DockerProvider,
};
use quill::completion::dynamic_hooks::git_branch::{branch_suggestions, parse_git_branches, GitBranchProvider};
use quill::completion::dynamic_hooks::git_status::{
    parse_git_status_paths, path_suggestions, GitStatusProvider,
};
use quill::completion::dynamic_hooks::kill_proc::{parse_processes, process_suggestions, KillProvider};
use quill::completion::dynamic_hooks::kubectl::{name_suggestions, parse_kubectl_names, KubectlProvider};
use quill::completion::dynamic_hooks::listing::DirEntry;
use quill::completion::dynamic_hooks::pacman::{package_suggestions, parse_packages, PacmanProvider};
use quill::completion::dynamic_hooks::readdir::ReaddirProvider;
use quill::completion::dynamic_hooks::ssh::{parse_hosts, SshProvider, SshStep};
use quill::completion::dynamic_hooks::systemctl::{parse_services, service_suggestions, SystemctlProvider};
use quill::completion::dynamic_hooks::{
    append_capped_external_output, ctx_tokens, default_ssh_config_path, external_cache_signature,
    external_hooks, local_hooks, matching_cache_values, path_prefix, values_with_signature, Hook, HookStep,
    PathPrefix, Request, EXTERNAL_OUTPUT_CAP,
};
use quill::completion::{QueryCtx, Suggestion, SuggestionGroup};

fn ctx(command: &str, current: &str) -> QueryCtx {
    QueryCtx {
        command: command.to_string(),
        current_token: current.to_string(),
        previous_tokens: vec![command.to_string()],
        working_dir: "/work".to_string(),
    }
}

fn typed(command: &str, current: &str, previous: &[&str]) -> QueryCtx {
    QueryCtx {
        command: command.to_string(),
        current_token: current.to_string(),
        previous_tokens: previous.iter().map(|s| s.to_string()).collect(),
        working_dir: "/work".to_string(),
    }
}

fn texts(suggestions: &[Suggestion]) -> Vec<&str> {
    suggestions.iter().map(|s| s.text.as_str()).collect()
}

fn entry(name: &str, is_dir: bool) -> DirEntry {
    DirEntry {
        name: name.to_string(),
        is_dir,
    }
}

fn prefix(token: &str) -> PathPrefix {
    path_prefix("/work", token, Some("/home/u"))
}

fn asked(step: HookStep) -> Request {
    match step {
        HookStep::Run(r) => r,
        HookStep::Answer(a) => panic!("{a:?}"),
    }
}

fn answer(step: HookStep) -> Vec<Suggestion> {
    match step {
        HookStep::Answer(a) => a,
        HookStep::Run(r) => panic!("{r:?}"),
    }
}

#[test]
fn test_cd_lists_subdirs() {
    let entries = vec![entry("beta", true), entry("plain-file", false), entry("alpha", true)];
    assert!(CdProvider.answers(&ctx("cd", "")));
    assert!(!CdProvider.answers(&ctx("ls", "")));
    let suggestions = CdProvider.suggestions(&prefix(""), entries);
    assert_eq!(texts(&suggestions), vec!["alpha/", "beta/"]);
    assert!(suggestions.iter().all(|s| s.group == SuggestionGroup::File));
}

#[test]
fn test_cd_filters_by_prefix() {
    let entries = vec![entry("src", true), entry("target", true)];
    let suggestions = CdProvider.suggestions(&prefix("s"), entries);
    assert_eq!(suggestions.len(), 1);
    assert_eq!(suggestions[0].text, "src/");
    assert_eq!(suggestions[0].display, "src");
}

#[test]
fn test_readdir_lists_files_and_dirs() {
    let provider = ReaddirProvider::new_default();
    assert!(provider.answers(&ctx("ls", "")));
    let entries = vec![entry("note.txt", false), entry("folder", true)];
    let suggestions = provider.suggestions(&prefix(""), entries);
    assert_eq!(texts(&suggestions), vec!["folder/", "note.txt"]);
}

#[test]
fn test_readdir_hides_dotfiles_unless_prefix_dot() {
    let provider = ReaddirProvider::new_default();
    let entries = || vec![entry(".env", false), entry("visible", false)];
    let visible = provider.suggestions(&prefix(""), entries());
    assert!(!visible.iter().any(|s| s.text == ".env"));
    let hidden = provider.suggestions(&prefix("."), entries());
    assert!(hidden.iter().any(|s| s.text == ".env"));
}

#[test]
fn test_readdir_handles_relative_path() {
    let provider = ReaddirProvider::new_default();
    let path = prefix("nested/a");
    assert_eq!(path.read_dir, "/work/nested");
    let suggestions = provider.suggestions(&path, vec![entry("alpha.txt", false), entry("beta.txt", false)]);
    assert_eq!(suggestions.len(), 1);
    assert_eq!(suggestions[0].text, "nested/alpha.txt");
    assert_eq!(suggestions[0].display, "alpha.txt");
    assert!(!provider.answers(&ctx("vim", "-x")));
    assert!(!provider.answers(&ctx("make", "")));
}

#[test]
fn directories_that_a_token_names() {
    let dir = |token: &str| prefix(token).read_dir;
    assert_eq!(dir("x"), "/work/.");
    assert_eq!(dir("/x"), "/");
    assert_eq!(dir("/usr/b"), "/usr");
    assert_eq!(dir("~/x"), "/home/u");
    assert_eq!(dir("~/a/x"), "/home/u/a");
    assert_eq!(path_prefix("/work", "~/x", None).read_dir, "/work");
    assert_eq!(path_prefix("/work", "~/a/x", None).read_dir, "/work/~/a");
    assert_eq!(prefix("a/b/c").text_prefix, "a/b/");
    assert_eq!(prefix("a/b/c").prefix, "c");
    assert_eq!(default_ssh_config_path(Some("/home/u")), "/home/u/.ssh/config");
    assert_eq!(default_ssh_config_path(None), ".ssh/config");
}

#[test]
fn test_docker_parses_name_image_rows() {
    let containers = parse_docker_containers("api\talpine:3\n\npostgres\tpostgres:16\n");
    assert_eq!(containers, vec!["api\talpine:3", "postgres\tpostgres:16"]);
    let suggestions = container_suggestions(&containers, "api");
    assert_eq!(suggestions.len(), 1);
    assert_eq!(suggestions[0].text, "api");
    assert_eq!(suggestions[0].description, "alpine:3");
}

#[test]
fn test_git_branch_parses_and_filters_branches() {
    let branches = parse_git_branches("main\n feature/login \n\nrelease\n");
    assert_eq!(branches, vec!["main", "feature/login", "release"]);
    let suggestions = branch_suggestions(&branches, "fea");
    assert_eq!(suggestions.len(), 1);
    assert_eq!(suggestions[0].text, "feature/login");
}

#[test]
fn test_git_status_parses_tracked_paths_and_skips_untracked() {
    let paths = parse_git_status_paths(
        " M src/main.rs\n?? scratch.txt\nR  old.rs -> src/new.rs\nA  \"quoted.rs\"\n",
    );
    assert_eq!(paths, vec!["src/main.rs", "src/new.rs", "quoted.rs"]);
    let suggestions = path_suggestions(&paths, "src/");
    assert_eq!(suggestions.len(), 2);
}

#[test]
fn lines_of_git_status_that_name_no_file() {
    assert_eq!(parse_git_status_paths("M\n M \nab你y\n"), Vec::<String>::new());
    assert_eq!(parse_git_status_paths("你y\n"), vec!["y"]);
    assert_eq!(parse_git_status_paths("R  a -> b -> c\nA  \"\n"), vec!["c", "\""]);
}

#[test]
fn test_kill_parses_processes_and_formats_display() {
    let processes = parse_processes(" 123 zsh\n456 rust-analyzer\n");
    assert_eq!(processes, vec!["123\tzsh", "456\trust-analyzer"]);
    let suggestions = process_suggestions(&processes, "12");
    assert_eq!(suggestions.len(), 1);
    assert_eq!(suggestions[0].text, "123");
    assert_eq!(suggestions[0].display, "123(zsh)");
}

#[test]
fn test_kubectl_strips_kind_prefix() {
    let names = parse_kubectl_names("pod/api-0\nservice/api\ndeployment.apps/web\n");
    assert_eq!(names, vec!["api-0", "api", "web"]);
    let suggestions = name_suggestions(&names, "api");
    assert_eq!(suggestions.len(), 2);
}

#[test]
fn test_pacman_parses_package_list() {
    let packages = parse_packages("ripgrep\n fd \n\nlinux\n");
    assert_eq!(packages, vec!["ripgrep", "fd", "linux"]);
    let suggestions = package_suggestions(&packages, "r");
    assert_eq!(suggestions.len(), 1);
    assert_eq!(suggestions[0].text, "ripgrep");
}

#[test]
fn test_systemctl_parses_first_column() {
    let services = parse_services(
        "ssh.service loaded active running OpenSSH daemon\ncron.service loaded active running\n",
    );
    assert_eq!(services, vec!["ssh.service", "cron.service"]);
    let suggestions = service_suggestions(&services, "ssh");
    assert_eq!(suggestions.len(), 1);
    assert_eq!(suggestions[0].text, "ssh.service");
}

#[test]
fn test_ssh_parses_host_lines() {
    let hosts = parse_hosts("Host prod\n    HostName prod.example.com\nHost staging\n");
    assert_eq!(hosts, vec!["prod", "staging"]);
}

#[test]
fn test_ssh_skips_wildcard_and_comments() {
    let hosts = parse_hosts("# Host ignored\nHost *\nHost real\nHost test-* test?\n");
    assert_eq!(hosts, vec!["real"]);
}

#[test]
fn test_ssh_handles_multiple_hosts_per_line() {
    let hosts = parse_hosts("Host alpha beta gamma\n");
    assert_eq!(hosts, vec!["alpha", "beta", "gamma"]);
}

#[test]
fn hosts_are_read_again_after_a_minute() {
    let mut p = SshProvider::new("/h/.ssh/config".to_string());
    assert_eq!(p.config_path(), "/h/.ssh/config");
    assert!(matches!(p.query(&ctx("ls", ""), 0), SshStep::Answer(a) if a.is_empty()));
    assert!(matches!(p.query(&ctx("ssh", "a"), 0), SshStep::Read));
    let found = p.take_config("HOST alpha beta # gamma\n", &ctx("ssh", "a"), 5);
    assert_eq!(texts(&found), vec!["alpha"]);
    let minute = 60_000_000_000;
    assert!(matches!(p.query(&ctx("ssh", "b"), 5 + minute - 1), SshStep::Answer(a) if texts(&a) == vec!["beta"]));
    assert!(matches!(p.query(&ctx("ssh", "b"), 5 + minute), SshStep::Read));
}

#[test]
fn a_hook_asks_once_and_answers_from_what_it_remembers() {
    let mut p = GitBranchProvider::new();
    let c = typed("git checkout fea", "fea", &["git", "checkout"]);
    let r = asked(p.query(&c, 100));
    assert_eq!(r.program, "git");
    assert_eq!(
        r.args,
        vec!["branch", "--list", "--sort=-committerdate", "--format=%(refname:short)"]
    );
    assert_eq!(r.signature, "git_branch:/work:branches");
    assert!(answer(p.query(&c, 101)).is_empty());
    p.take_output(&r.signature, Some("main\nfeature\n"), 102);
    assert_eq!(texts(&answer(p.query(&c, 103))), vec!["feature"]);
    let mut elsewhere = typed("git checkout fea", "fea", &["git", "checkout"]);
    elsewhere.working_dir = "/other".to_string();
    assert_eq!(asked(p.query(&elsewhere, 103)).signature, "git_branch:/other:branches");
    p.take_output("git_branch:/other:branches", None, 104);
    assert!(answer(p.query(&elsewhere, 105)).is_empty());
    let _ = asked(p.query(&elsewhere, 104 + 5_000_000_000));
    assert!(answer(p.query(&typed("git log", "", &["git"]), 0)).is_empty());
}

#[test]
fn what_each_hook_runs() {
    let mut docker = DockerProvider::new();
    let r = asked(docker.query(&typed("docker stop x", "x", &["docker", "stop"]), 0));
    assert_eq!((r.program.as_str(), r.args.len()), ("docker", 3));
    assert_eq!(r.args[2], "{{.Names}}\t{{.Image}}");
    assert_eq!(r.signature, "docker:/work:containers");
    docker.take_output(&r.signature, Some("xy\timg\n"), 0);
    let found = answer(docker.query(&typed("docker stop x", "x", &["docker", "stop"]), 0));
    assert_eq!(found[0].description, "img");
    assert!(answer(docker.query(&typed("docker ps", "", &["docker"]), 0)).is_empty());

    let mut status = GitStatusProvider::new();
    let r = asked(status.query(&typed("git add s", "s", &["git", "add"]), 0));
    assert_eq!(r.args, vec!["status", "--porcelain", "--short"]);
    assert_eq!(r.signature, "git_status:/work:paths");
    status.take_output(&r.signature, Some(" M src\n"), 0);
    assert_eq!(texts(&answer(status.query(&typed("git add s", "s", &["git", "add"]), 1))), vec!["src"]);

    let mut kill = KillProvider::new();
    let r = asked(kill.query(&typed("kill 1", "1", &["kill"]), 0));
    assert_eq!(r.program, "ps");
    assert_eq!(r.args, vec!["-eo", "pid,comm", "--no-headers"]);
    kill.take_output(&r.signature, Some("12 a\n34\n"), 0);
    assert_eq!(answer(kill.query(&typed("kill 3", "3", &["kill"]), 0))[0].display, "34()");

    let mut kube = KubectlProvider::new();
    let r = asked(kube.query(&typed("kubectl get pods", "", &["kubectl", "get"]), 0));
    assert_eq!(r.args, vec!["get", "pods", "-o", "name"]);
    assert_eq!(r.signature, "kubectl:/work:pods");
    kube.take_output(&r.signature, Some("pod/a\n"), 0);
    assert_eq!(
        texts(&answer(kube.query(&typed("kubectl get pods", "", &["kubectl", "get"]), 0))),
        vec!["a"]
    );
    assert!(answer(kube.query(&typed("kubectl get", "", &["kubectl"]), 0)).is_empty());

    let mut pacman = PacmanProvider::new();
    let r = asked(pacman.query(&typed("yay -S rip", "rip", &["yay", "-S"]), 0));
    assert_eq!((r.program.as_str(), r.signature.as_str()), ("yay", "pacman:/work:yay"));
    assert_eq!(r.args, vec!["-Slq"]);
    pacman.take_output(&r.signature, Some("ripgrep\n"), 0);
    let _ = asked(pacman.query(&typed("pacman -S rip", "rip", &["pacman", "-S"]), 0));
    assert!(answer(pacman.query(&typed("pacman -Q", "", &["pacman"]), 0)).is_empty());

    let mut systemctl = SystemctlProvider::new();
    let r = asked(systemctl.query(&typed("systemctl restart s", "s", &["systemctl", "restart"]), 0));
    assert_eq!(r.program, "systemctl");
    assert_eq!(r.args, vec!["list-units", "--no-legend", "--no-pager", "--type=service"]);
    systemctl.take_output(&r.signature, Some("ssh.service x\n\n"), 0);
    assert_eq!(
        texts(&answer(systemctl.query(&typed("systemctl stop s", "s", &["systemctl", "stop"]), 0))),
        vec!["ssh.service"]
    );
}

#[test]
fn values_come_back_under_their_own_name_only() {
    let c = ctx("git", "");
    let sig = external_cache_signature(&c, "p", "x");
    assert_eq!(sig, "p:/work:x");
    let kept = values_with_signature(&sig, vec!["a".to_string()]);
    assert_eq!(kept[0], "\0quill-external-hook:p:/work:x");
    assert_eq!(matching_cache_values(kept.clone(), &sig), Some(vec!["a".to_string()]));
    assert_eq!(matching_cache_values(kept, "p:/work:y"), None);
    assert_eq!(matching_cache_values(vec![], &sig), None);
}

#[test]
fn the_tokens_of_a_question() {
    assert_eq!(ctx_tokens(&typed("git add x", "x", &["git", "add"])), vec!["git", "add", "x"]);
    assert_eq!(ctx_tokens(&typed("git", "", &["git", "add"])), vec!["git", "add"]);
    assert_eq!(ctx_tokens(&typed("", "", &[])), Vec::<String>::new());
}

#[test]
fn output_beyond_the_limit_is_dropped() {
    let mut out = vec![0u8; EXTERNAL_OUTPUT_CAP - 1];
    append_capped_external_output(&mut out, &[1, 2, 3]);
    assert_eq!(out.len(), EXTERNAL_OUTPUT_CAP);
    assert_eq!(out.last(), Some(&1));
}

#[test]
fn hooks_are_asked_in_order() {
    assert_eq!(local_hooks(), vec![Hook::Cd, Hook::Ssh, Hook::Readdir]);
    assert_eq!(
        external_hooks(),
        vec![
            Hook::GitBranch,
            Hook::GitStatus,
            Hook::Kill,
            Hook::Docker,
            Hook::Kubectl,
            Hook::Pacman,
            Hook::Systemctl,
        ]
    );
}
