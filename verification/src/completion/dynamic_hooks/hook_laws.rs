//! What the providers offer, said by how the output of programs, directories
//! and configurations are written.

use crate::completion::dynamic_hooks::cd::{dir_offer, dir_offers, wanted_dir};
use crate::completion::dynamic_hooks::docker::{container_offer, is_about_containers};
use crate::completion::dynamic_hooks::git_branch::is_about_branches;
use crate::completion::dynamic_hooks::git_status::{
    after_bytes, behind_arrow, changed_file, is_about_changes, last_at, unquoted,
};
use crate::completion::dynamic_hooks::kill_proc::{is_about_processes, process_in, process_offer};
use crate::completion::dynamic_hooks::kubectl::{resource_kind, resource_name};
use crate::completion::dynamic_hooks::listing::{arranged, goes_before, law_arranged, Entry};
use crate::completion::dynamic_hooks::pacman::package_program;
use crate::completion::dynamic_hooks::readdir::{
    default_commands, entry_offer, entry_offers, wanted_file,
};
use crate::completion::dynamic_hooks::ssh::{
    configured, hosts_in, hosts_of, single_host,
};
use crate::completion::dynamic_hooks::systemctl::{first_column, is_about_services};
use crate::completion::dynamic_hooks::{
    asked_tokens, dir_token, expanded, hook_held, hook_step, last_slash, law_signed_values, law_token_in_two,
    plain_offer, signature_of, signed, tokens_of, trimmed_line, Stepped,
};
use crate::completion::{QueryCtx, SuggestionGroup, SuggestionView};
use crate::seqs::{kept, law_kept_goes_along, lemma_kept_contains};
use crate::text::{begins, joined, lowered, occurs_at, text_lt};
use crate::text_laws::{
    all_blank, firm, law_halves, law_lines, law_trimmed, law_words, none_blank, with_blanks,
    with_ends,
};
use vstd::prelude::*;
use vstd::utf8::encode_scalar;

verus! {

/// A token that names a file has its directory in front of the last slash and
/// the beginning of the name behind it. Without a slash the directory is the
/// current one; where nothing stands in front of it, the root.
pub proof fn law_token_names_a_directory(dir: Seq<char>, name: Seq<char>)
    requires
        !name.contains('/'),
    ensures
        last_slash(dir + seq!['/'] + name) == dir.len(),
        last_slash(name) == -1,
        dir.len() > 0 ==> dir_token(dir + seq!['/'] + name) == dir,
        dir.len() == 0 ==> dir_token(dir + seq!['/'] + name) == "/"@,
        dir_token(name) == "."@,
{
    let t = dir + seq!['/'] + name;
    law_token_in_two(t);
    law_token_in_two(name);
    let k = last_slash(t);
    let n = dir.len() as int;
    assert(t[n] == '/');
    if k < n {
        assert(t.skip(k + 1)[n - k - 1] == '/');
        assert(t.skip(k + 1).contains('/'));
    }
    if k > n {
        assert(name.contains(name[k - n - 1]));
        assert(t[k] == name[k - n - 1]);
        assert(last_slash(t) == k);
        lemma_slash_there(t);
    }
    let m = last_slash(name);
    if m >= 0 {
        lemma_slash_there(name);
        assert(name.contains(name[m]));
    }
    assert(t.take(n) =~= dir);
}

proof fn lemma_slash_there(s: Seq<char>)
    ensures
        last_slash(s) < s.len(),
        last_slash(s) >= 0 ==> s[last_slash(s)] == '/',
    decreases s.len(),
{
    if s.len() > 0 && s.last() != '/' {
        lemma_slash_there(s.drop_last());
    }
}

/// A tilde stands for the home directory; what else is not absolute is in the
/// directory in which the command would run.
pub proof fn law_paths_are_expanded(
    dir: Seq<char>,
    rest: Seq<char>,
    home: Seq<char>,
    path: Seq<char>,
)
    ensures
        expanded(dir, seq!['~'], Some(home)) == home,
        expanded(dir, seq!['~'], None) == dir,
        expanded(dir, seq!['~', '/'] + rest, Some(home)) == joined(home, rest),
        path.len() == 0 || path[0] != '~' ==> expanded(dir, path, Some(home)) == joined(dir, path)
            && expanded(dir, path, None) == joined(dir, path),
{
    reveal_strlit("~");
    reveal_strlit("~/");
    assert("~"@ =~= seq!['~']);
    assert("~/"@ =~= seq!['~', '/']);
    let p = seq!['~', '/'] + rest;
    assert(p.subrange(0, 2) =~= "~/"@);
    assert(p.skip(2) =~= rest);
    assert(p.len() >= 2);
    if path.len() == 0 || path[0] != '~' {
        if begins(path, "~/"@) {
            assert(path.subrange(0, 2)[0] == path[0]);
        }
    }
}

/// The tokens of a question are the words of its command where there are more of
/// them than tokens before the current one, and else these.
pub proof fn law_tokens_of_a_question(
    gaps: Seq<Seq<char>>,
    ws: Seq<Seq<char>>,
    behind: Seq<char>,
    previous: Seq<Seq<char>>,
)
    requires
        gaps.len() == ws.len(),
        forall|i: int| 0 <= i < ws.len() ==> none_blank(#[trigger] ws[i]) && ws[i].len() > 0,
        forall|i: int| 0 <= i < gaps.len() ==> all_blank(#[trigger] gaps[i]),
        forall|i: int| 0 < i < gaps.len() ==> (#[trigger] gaps[i]).len() > 0,
        all_blank(behind),
    ensures
        ws.len() > previous.len() ==> tokens_of(with_blanks(gaps, ws, behind), previous) == ws,
        previous.len() >= ws.len() && previous.len() > 0 ==> tokens_of(
            with_blanks(gaps, ws, behind),
            previous,
        ) == previous,
{
    law_words(gaps, ws, behind);
}

/// Files in a directory as they are offered to a command that wants
/// directories: those whose names begin as the token does, each once for each
/// time it is there, in the order of their names, with a slash behind.
pub proof fn law_directories_are_offered(
    prefix: Seq<char>,
    text_prefix: Seq<char>,
    entries: Seq<Entry>,
    i: int,
    j: int,
)
    ensures
        ({
            let offers = dir_offers(prefix, text_prefix, entries);
            &&& 0 <= i < entries.len() && entries[i].is_dir && begins(entries[i].name, prefix)
                ==> exists|k: int|
                0 <= k < offers.len() && #[trigger] offers[k] == (SuggestionView {
                    text: text_prefix + entries[i].name + "/"@,
                    display: entries[i].name,
                    description: seq![],
                    group: SuggestionGroup::File,
                })
            &&& 0 <= i < offers.len() ==> exists|k: int|
                0 <= k < entries.len() && (#[trigger] entries[k]).is_dir && begins(
                    entries[k].name,
                    prefix,
                ) && offers[i] == (SuggestionView {
                    text: text_prefix + entries[k].name + "/"@,
                    display: entries[k].name,
                    description: seq![],
                    group: SuggestionGroup::File,
                })
            &&& 0 <= i < j < offers.len() ==> !text_lt(offers[j].display, offers[i].display)
        }),
{
    let rule = wanted_dir(prefix);
    let chosen = kept(entries, rule);
    let es = arranged(chosen);
    let offers = dir_offers(prefix, text_prefix, entries);
    lemma_kept_contains(entries, rule);
    law_arranged(chosen);
    assert forall|x: Entry| es.contains(x) <==> chosen.contains(x) by {
        lemma_same_members(es, chosen, x);
    }
    assert forall|k: int| 0 <= k < es.len() implies (#[trigger] es[k]).is_dir by {
        assert(chosen.contains(es[k]));
        let c = choose|c: int| 0 <= c < chosen.len() && chosen[c] == es[k];
        let m = choose|m: int| 0 <= m < entries.len() && rule(#[trigger] entries[m]) == Some(chosen[c]);
        assert(rule(entries[m]) == Some(es[k]));
    }
    if 0 <= i < entries.len() && entries[i].is_dir && begins(entries[i].name, prefix) {
        assert(rule(entries[i]) == Some(entries[i]));
        assert(es.contains(entries[i]));
        let k = choose|k: int| 0 <= k < es.len() && es[k] == entries[i];
        assert(offers[k] == dir_offer(text_prefix)(es[k]));
    }
    if 0 <= i < offers.len() {
        let e = es[i];
        assert(chosen.contains(e));
        let c = choose|c: int| 0 <= c < chosen.len() && chosen[c] == e;
        let k = choose|k: int| 0 <= k < entries.len() && rule(#[trigger] entries[k]) == Some(chosen[c]);
        assert(rule(entries[k]) == Some(e));
        assert(entries[k].is_dir && entries[k] == e);
        assert(offers[i] == dir_offer(text_prefix)(e));
    }
    if 0 <= i < j < offers.len() {
        assert(!goes_before(es[j], es[i]));
        assert(es[i].is_dir && es[j].is_dir);
        assert(offers[i] == dir_offer(text_prefix)(es[i]));
        assert(offers[j] == dir_offer(text_prefix)(es[j]));
    }
}

proof fn lemma_same_members(a: Seq<Entry>, b: Seq<Entry>, x: Entry)
    requires
        a.to_multiset() == b.to_multiset(),
    ensures
        a.contains(x) <==> b.contains(x),
{
    a.to_multiset_ensures();
    b.to_multiset_ensures();
    assert(a.contains(x) <==> a.to_multiset().count(x) > 0);
    assert(b.contains(x) <==> b.to_multiset().count(x) > 0);
}

/// Whether a name is offered: it begins as the token does, and is not hidden by
/// a dot that the token does not have.
pub open spec fn is_shown(name: Seq<char>, prefix: Seq<char>) -> bool {
    &&& prefix.len() <= name.len() && name.take(prefix.len() as int) == prefix
    &&& name.len() > 0 && name[0] == '.' ==> prefix.len() > 0 && prefix[0] == '.'
}

/// Files as they are offered to a command that takes them: those that are shown,
/// directories in front and each kind in the order of the names, a directory
/// with a slash behind.
pub proof fn law_files_are_offered(
    prefix: Seq<char>,
    text_prefix: Seq<char>,
    entries: Seq<Entry>,
    i: int,
    j: int,
)
    ensures
        ({
            let offers = entry_offers(prefix, text_prefix, entries);
            let es = arranged(kept(entries, wanted_file(prefix)));
            &&& offers.len() == es.len()
            &&& 0 <= i < es.len() ==> {
                let behind = if es[i].is_dir {
                    seq!['/']
                } else {
                    seq![]
                };
                &&& offers[i].text == text_prefix + es[i].name + behind
                &&& offers[i].display == es[i].name + behind
                &&& offers[i].description.len() == 0 && offers[i].group == SuggestionGroup::File
                &&& entries.contains(es[i]) && is_shown(es[i].name, prefix)
            }
            &&& 0 <= i < entries.len() && is_shown(entries[i].name, prefix) ==> es.contains(
                entries[i],
            )
            &&& 0 <= i < j < es.len() && es[j].is_dir ==> es[i].is_dir
            &&& 0 <= i < j < es.len() && es[i].is_dir == es[j].is_dir ==> !text_lt(
                es[j].name,
                es[i].name,
            )
        }),
{
    let rule = wanted_file(prefix);
    let chosen = kept(entries, rule);
    let es = arranged(chosen);
    let offers = entry_offers(prefix, text_prefix, entries);
    lemma_kept_contains(entries, rule);
    law_arranged(chosen);
    reveal_strlit("/");
    reveal_strlit("");
    reveal_strlit(".");
    assert("/"@ =~= seq!['/']);
    assert(""@ =~= seq![]);
    assert("."@ =~= seq!['.']);
    assert forall|name: Seq<char>|
        #![trigger is_shown(name, prefix)]
        is_shown(name, prefix) <==> begins(name, prefix) && (begins(name, "."@) ==> begins(
            prefix,
            "."@,
        )) by {
        lemma_dot(name);
        lemma_dot(prefix);
        if prefix.len() <= name.len() {
            assert(name.subrange(0, prefix.len() as int) =~= name.take(prefix.len() as int));
        }
    }
    if 0 <= i < es.len() {
        let e = es[i];
        lemma_same_members(es, chosen, e);
        assert(es.contains(e));
        let c = choose|c: int| 0 <= c < chosen.len() && chosen[c] == e;
        let k = choose|k: int| 0 <= k < entries.len() && rule(#[trigger] entries[k]) == Some(chosen[c]);
        assert(rule(entries[k]) == Some(e));
        assert(entries[k] == e);
        assert(is_shown(e.name, prefix));
        assert(offers[i] == entry_offer(text_prefix)(e));
    }
    if 0 <= i < entries.len() && is_shown(entries[i].name, prefix) {
        assert(rule(entries[i]) == Some(entries[i]));
        lemma_same_members(es, chosen, entries[i]);
    }
    if 0 <= i < j < es.len() {
        assert(!goes_before(es[j], es[i]));
    }
}

proof fn lemma_dot(s: Seq<char>)
    requires
        "."@ == seq!['.'],
    ensures
        begins(s, "."@) <==> s.len() > 0 && s[0] == '.',
{
    if s.len() > 0 {
        assert(s.subrange(0, 1)[0] == s[0]);
        assert(s[0] == '.' ==> s.subrange(0, 1) =~= seq!['.']);
    }
}

/// The commands to which files are offered.
pub proof fn law_commands_for_files(c: Seq<char>)
    ensures
        default_commands().contains(c) <==> c == "ls"@ || c == "cat"@ || c == "bat"@ || c
            == "less"@ || c == "vim"@ || c == "nvim"@ || c == "nano"@ || c == "rm"@ || c == "cp"@
            || c == "mv"@,
{
    let d = default_commands();
    assert(d[0] == "ls"@ && d[1] == "cat"@ && d[2] == "bat"@ && d[3] == "less"@ && d[4] == "vim"@
        && d[5] == "nvim"@ && d[6] == "nano"@ && d[7] == "rm"@ && d[8] == "cp"@ && d[9] == "mv"@);
    if d.contains(c) {
        let i = choose|i: int| 0 <= i < d.len() && d[i] == c;
        assert(0 <= i < 10);
    }
}

/// One of the tokens behind the first is this word.
pub open spec fn says_later(tokens: Seq<Seq<char>>, w: Seq<char>) -> bool {
    exists|i: int| 0 < i < tokens.len() && #[trigger] tokens[i] == w
}

/// What the providers that ask programs are asked about: the command and a word
/// behind it.
pub proof fn law_what_questions_are_about(t: Seq<Seq<char>>)
    ensures
        is_about_branches(t) <==> t.len() > 0 && t[0] == "git"@ && (says_later(t, "checkout"@)
            || says_later(t, "switch"@)),
        is_about_changes(t) <==> t.len() > 0 && t[0] == "git"@ && says_later(t, "add"@),
        is_about_processes(t) <==> t.len() > 0 && t[0] == "kill"@,
        is_about_containers(t) <==> t.len() > 0 && t[0] == "docker"@ && (says_later(t, "run"@)
            || says_later(t, "exec"@) || says_later(t, "stop"@) || says_later(t, "logs"@)
            || says_later(t, "inspect"@)),
        is_about_services(t) <==> t.len() > 0 && t[0] == "systemctl"@ && (says_later(t, "start"@)
            || says_later(t, "stop"@) || says_later(t, "restart"@) || says_later(t, "status"@)
            || says_later(t, "enable"@) || says_later(t, "disable"@)),
        resource_kind(t) is Some <==> t.len() > 2 && t[0] == "kubectl"@ && t[1] == "get"@,
        resource_kind(t) is Some ==> resource_kind(t)->0 == t[2],
        package_program(t) is Some <==> t.len() > 0 && (t[0] == "pacman"@ || t[0] == "yay"@)
            && says_later(t, "-S"@),
        package_program(t) is Some ==> package_program(t)->0 == t[0],
{
}

/// Values as they are offered: those that begin as the token does. A container
/// has its image as description; a process is offered by its number, and shown
/// with its name.
pub proof fn law_values_are_offered(prefix: Seq<char>, name: Seq<char>, more: Seq<char>)
    requires
        !name.contains('\t'),
    ensures
        ({
            let fits = prefix.len() <= name.len() && name.take(prefix.len() as int) == prefix;
            let tabbed = name + seq!['\t'] + more;
            &&& !fits ==> plain_offer(prefix)(name) is None && container_offer(prefix)(tabbed)
                is None && process_offer(prefix)(tabbed) is None
            &&& fits ==> plain_offer(prefix)(name) == Some(
                SuggestionView {
                    text: name,
                    display: name,
                    description: seq![],
                    group: SuggestionGroup::Dynamic,
                },
            )
            &&& fits ==> container_offer(prefix)(tabbed) == Some(
                SuggestionView {
                    text: name,
                    display: name,
                    description: more,
                    group: SuggestionGroup::Dynamic,
                },
            )
            &&& fits ==> process_offer(prefix)(tabbed) == Some(
                SuggestionView {
                    text: name,
                    display: name + seq!['('] + more + seq![')'],
                    description: more,
                    group: SuggestionGroup::Dynamic,
                },
            )
        }),
{
    law_halves(name, '\t', more);
    reveal_strlit("(");
    reveal_strlit(")");
    assert("("@ =~= seq!['(']);
    assert(")"@ =~= seq![')']);
    if prefix.len() <= name.len() {
        assert(name.subrange(0, prefix.len() as int) =~= name.take(prefix.len() as int));
    }
}

/// Lines as they are read: the blanks at the ends do not count and blank lines
/// are none; a resource is named behind its kind; a service is the first word; a
/// process is its number and its name.
pub proof fn law_lines_of_programs(
    a: Seq<char>,
    x: Seq<char>,
    b: Seq<char>,
    kind: Seq<char>,
    gaps: Seq<Seq<char>>,
    ws: Seq<Seq<char>>,
)
    requires
        all_blank(a),
        all_blank(b),
        firm(x),
        firm(kind) && kind.len() > 0 && !kind.contains('/'),
        gaps.len() == ws.len(),
        forall|i: int| 0 <= i < ws.len() ==> none_blank(#[trigger] ws[i]) && ws[i].len() > 0,
        forall|i: int| 0 <= i < gaps.len() ==> all_blank(#[trigger] gaps[i]),
        forall|i: int| 0 < i < gaps.len() ==> (#[trigger] gaps[i]).len() > 0,
    ensures
        x.len() > 0 ==> trimmed_line()(a + x + b) == Some(x),
        x.len() == 0 ==> trimmed_line()(a + x + b) is None && resource_name()(a + x + b) is None,
        resource_name()(a + kind + b) == Some(kind),
        x.len() > 0 ==> resource_name()(a + (kind + seq!['/'] + x) + b) == Some(x),
        ws.len() == 0 ==> first_column()(with_blanks(gaps, ws, b)) is None && process_in()(
            with_blanks(gaps, ws, b),
        ) is None,
        ws.len() > 0 ==> first_column()(with_blanks(gaps, ws, b)) == Some(ws[0]),
        ws.len() > 1 ==> process_in()(with_blanks(gaps, ws, b)) == Some(
            ws[0] + seq!['\t'] + ws[1],
        ),
{
    law_trimmed(a, x, b);
    law_trimmed(a, kind, b);
    law_halves(kind, '/', x);
    let named = kind + seq!['/'] + x;
    if x.len() > 0 {
        assert(named[0] == kind[0] && named.last() == x.last());
        law_trimmed(a, named, b);
    }
    law_words(gaps, ws, b);
}

/// A name as it is written in a line about a change: in quotes or not.
pub open spec fn in_quotes(path: Seq<char>, quoted: bool) -> Seq<char> {
    if quoted {
        seq!['"'] + path + seq!['"']
    } else {
        path
    }
}

proof fn lemma_after_three(x: char, y: char, z: char, rest: Seq<char>)
    requires
        (x as u32) < 0x80,
        (y as u32) < 0x80,
        (z as u32) < 0x80,
    ensures
        after_bytes(seq![x, y, z] + rest, 3) == Some(rest),
{
    let s = seq![x, y, z] + rest;
    assert(encode_scalar(x as u32).len() == 1);
    assert(encode_scalar(y as u32).len() == 1);
    assert(encode_scalar(z as u32).len() == 1);
    assert(s[0] == x && s.skip(1)[0] == y && s.skip(1).skip(1)[0] == z);
    assert(s.skip(1).skip(1).skip(1) =~= rest);
    reveal_with_fuel(after_bytes, 4);
}

proof fn lemma_last_at(s: Seq<char>, t: Seq<char>, i: int, k: int)
    requires
        0 <= k <= i,
        occurs_at(s, t, k),
        forall|j: int| k < j <= i ==> !#[trigger] occurs_at(s, t, j),
    ensures
        last_at(s, t, i) == Some(k),
    decreases i - k,
{
    if k < i {
        assert(!occurs_at(s, t, i));
        lemma_last_at(s, t, i - 1, k);
    }
}

proof fn lemma_last_at_none(s: Seq<char>, t: Seq<char>, i: int)
    requires
        forall|j: int| 0 <= j <= i ==> !#[trigger] occurs_at(s, t, j),
    ensures
        last_at(s, t, i) is None,
    decreases i + 1,
{
    if i >= 0 {
        assert(!occurs_at(s, t, i));
        lemma_last_at_none(s, t, i - 1);
    }
}

/// A line about a change is two marks, a blank and the file's name, in quotes or
/// not; of a renamed file the new name counts. A file that is not tracked is
/// none.
pub proof fn law_changed_files(
    x: char,
    y: char,
    was: Seq<char>,
    path: Seq<char>,
    quoted: bool,
)
    requires
        (x as u32) < 0x80,
        (y as u32) < 0x80,
        x != '?' || y != '?',
        path.len() > 0,
        firm(path),
        !quoted ==> path[0] != '"' || path.last() != '"' || path.len() < 2,
    ensures
        ({
            let arrow = seq![' ', '-', '>', ' '];
            let name = in_quotes(path, quoted);
            let moved = was + arrow + name;
            let marks = seq![x, y, ' '];
            &&& (forall|j: int| !#[trigger] occurs_at(name, arrow, j)) ==> changed_file()(
                marks + name,
            ) == Some(path)
            &&& was.len() > 0 && firm(was) && (forall|j: int|
                j > was.len() ==> !#[trigger] occurs_at(moved, arrow, j)) ==> changed_file()(
                marks + moved,
            ) == Some(path)
        }),
        changed_file()(seq!['?', '?', ' '] + path) is None,
{
    let arrow = seq![' ', '-', '>', ' '];
    let name = in_quotes(path, quoted);
    let moved = was + arrow + name;
    let marks = seq![x, y, ' '];
    reveal_strlit("??");
    reveal_strlit(" -> ");
    assert("??"@ =~= seq!['?', '?']);
    assert(" -> "@ =~= arrow);
    let none = Seq::<char>::empty();
    lemma_after_three(x, y, ' ', name);
    lemma_after_three(x, y, ' ', moved);
    assert(!begins(marks + name, "??"@)) by {
        if begins(marks + name, "??"@) {
            let s = marks + name;
            assert(s.subrange(0, 2)[0] == x && s.subrange(0, 2)[1] == y);
        }
    }
    assert(!begins(marks + moved, "??"@)) by {
        if begins(marks + moved, "??"@) {
            let s = marks + moved;
            assert(s.subrange(0, 2)[0] == x && s.subrange(0, 2)[1] == y);
        }
    }
    assert(firm(name)) by {
        if quoted {
            assert(name[0] == '"' && name.last() == '"');
        }
    }
    law_trimmed(none, name, none);
    assert(none + name + none =~= name);
    assert(unquoted(name) =~= path);
    if forall|j: int| !#[trigger] occurs_at(name, arrow, j) {
        lemma_last_at_none(name, arrow, name.len() as int);
    }
    if was.len() > 0 && firm(was) && (forall|j: int|
        j > was.len() ==> !#[trigger] occurs_at(moved, arrow, j)) {
        assert(moved[0] == was[0] && moved.last() == name.last());
        law_trimmed(none, moved, none);
        assert(none + moved + none =~= moved);
        let k = was.len() as int;
        assert(moved.subrange(k, k + 4) =~= arrow);
        assert(occurs_at(moved, arrow, k));
        lemma_last_at(moved, arrow, moved.len() as int, k);
        assert(moved.skip(k + 4) =~= name);
        assert(behind_arrow(moved) == name);
    }
    let untracked = seq!['?', '?', ' '] + path;
    assert(untracked.subrange(0, 2) =~= "??"@);
}

/// The hosts that are no patterns.
pub open spec fn plain_hosts(hosts: Seq<Seq<char>>) -> Seq<Seq<char>>
    decreases hosts.len(),
{
    if hosts.len() == 0 {
        seq![]
    } else if hosts[0].contains('*') || hosts[0].contains('?') {
        plain_hosts(hosts.skip(1))
    } else {
        seq![hosts[0]] + plain_hosts(hosts.skip(1))
    }
}

proof fn lemma_plain_hosts(hosts: Seq<Seq<char>>)
    ensures
        kept(hosts, single_host()) == plain_hosts(hosts),
    decreases hosts.len(),
{
    if hosts.len() > 0 {
        let h = hosts[0];
        let rest = hosts.skip(1);
        lemma_plain_hosts(rest);
        law_kept_goes_along(seq![h], rest, h, single_host());
        assert(seq![h] + rest =~= hosts);
        assert(kept(hosts, single_host()) =~= plain_hosts(hosts));
    }
}

/// A line of a configuration that begins with `Host`, in whatever case, names
/// the hosts behind it, but for patterns; what follows a `#` does not count. Any
/// other line names none.
pub proof fn law_hosts_of_a_line(
    gaps: Seq<Seq<char>>,
    ws: Seq<Seq<char>>,
    behind: Seq<char>,
    comment: Seq<char>,
)
    requires
        ws.len() > 0,
        gaps.len() == ws.len(),
        forall|i: int| 0 <= i < ws.len() ==> none_blank(#[trigger] ws[i]) && ws[i].len() > 0,
        forall|i: int| 0 <= i < gaps.len() ==> all_blank(#[trigger] gaps[i]),
        forall|i: int| 0 < i < gaps.len() ==> (#[trigger] gaps[i]).len() > 0,
        all_blank(behind),
        !with_blanks(gaps, ws, behind).contains('#'),
    ensures
        ({
            let line = with_blanks(gaps, ws, behind);
            let named = if lowered(ws[0]) == seq!['h', 'o', 's', 't'] {
                plain_hosts(ws.skip(1))
            } else {
                seq![]
            };
            hosts_in(line) == named && hosts_in(line + seq!['#'] + comment) == named
        }),
{
    let line = with_blanks(gaps, ws, behind);
    law_words(gaps, ws, behind);
    law_halves(line, '#', comment);
    lemma_plain_hosts(ws.skip(1));
    reveal_strlit("Host");
    assert(lowered("Host"@) =~= seq!['h', 'o', 's', 't']);
}

/// The hosts of a configuration are those of its lines, one behind the other.
pub proof fn law_hosts_of_a_configuration(ls: Seq<Seq<char>>, crs: Seq<bool>)
    requires
        crs.len() == ls.len(),
        ls.len() > 0,
        forall|i: int| 0 <= i < ls.len() ==> !(#[trigger] ls[i]).contains('\n'),
        forall|i: int|
            0 <= i < ls.len() && (#[trigger] ls[i]).len() > 0 ==> ls[i].last() != '\r' || crs[i],
    ensures
        configured(with_ends(ls, crs)) == configured(with_ends(ls.drop_last(), crs.drop_last()))
            + hosts_in(ls.last()),
        configured(seq![]).len() == 0,
{
    let none = Seq::<char>::empty();
    let (front, f) = (ls.drop_last(), crs.drop_last());
    assert forall|i: int| 0 <= i < front.len() implies !(#[trigger] front[i]).contains('\n') && (
    front[i].len() > 0 ==> front[i].last() != '\r' || f[i]) by {
        assert(front[i] == ls[i]);
    }
    law_lines(ls, crs, none);
    law_lines(front, f, none);
    assert(with_ends(ls, crs) + none =~= with_ends(ls, crs));
    assert(with_ends(front, f) + none =~= with_ends(front, f));
    lemma_hosts_front(ls, front.len() as int);
}

proof fn lemma_hosts_front(ls: Seq<Seq<char>>, n: int)
    requires
        ls.len() > 0,
        n <= ls.len() - 1,
    ensures
        hosts_of(ls, n) == hosts_of(ls.drop_last(), n),
    decreases n,
{
    if n > 0 {
        lemma_hosts_front(ls, n - 1);
    }
}

/// What a program has listed is offered while its time is not up, to the
/// question that it was listed for. In all other cases the program is asked, and
/// it is noted that it has been.
pub proof fn law_answers_are_used_for_a_time(
    signature: Seq<char>,
    other: Seq<char>,
    values: Seq<Seq<char>>,
    at: u64,
    ttl: u64,
    now: u64,
    program: Seq<char>,
    args: Seq<Seq<char>>,
    rule: spec_fn(Seq<char>) -> Option<SuggestionView>,
)
    requires
        at <= now,
    ensures
        ({
            let held = Some((signed(signature, values), at));
            let asked = Some((signed(signature, seq![]), now));
            let run = Stepped::Run(program, args, signature);
            &&& now - at < ttl ==> hook_step(held, ttl, now, signature, program, args, rule)
                == Stepped::Answer(kept(values, rule)) && hook_held(held, ttl, now, signature)
                == held
            &&& now - at >= ttl ==> hook_step(held, ttl, now, signature, program, args, rule)
                == run && hook_held(held, ttl, now, signature) == asked
            &&& hook_step(None, ttl, now, signature, program, args, rule) == run && hook_held(
                None,
                ttl,
                now,
                signature,
            ) == asked
            &&& other != signature ==> hook_step(held, ttl, now, other, program, args, rule)
                == Stepped::Run(program, args, other)
        }),
{
    law_signed_values(signature, other, values);
}

/// The name of a question tells whom it is for, where and about what: questions
/// that differ in one of these have different names.
pub proof fn law_questions_are_told_apart(
    provider: Seq<char>,
    other: Seq<char>,
    dir: Seq<char>,
    elsewhere: Seq<char>,
    extra: Seq<char>,
    more: Seq<char>,
)
    ensures
        provider != other ==> signature_of(provider, dir, extra) != signature_of(other, dir, extra),
        dir != elsewhere ==> signature_of(provider, dir, extra) != signature_of(
            provider,
            elsewhere,
            extra,
        ),
        extra != more ==> signature_of(provider, dir, extra) != signature_of(provider, dir, more),
{
    let s = signature_of(provider, dir, extra);
    reveal_strlit(":");
    let n = s.len() as int;
    let p = provider.len() as int;
    let d = dir.len() as int;
    let e = extra.len() as int;
    assert(":"@.len() == 1);
    assert(s.take(n - d - e - 2) =~= provider);
    assert(s.subrange(p + 1, n - e - 1) =~= dir);
    assert(s.skip(p + d + 2) =~= extra);
    let a = signature_of(other, dir, extra);
    assert(a.take(a.len() - d - e - 2) =~= other);
    let b = signature_of(provider, elsewhere, extra);
    assert(b.subrange(p + 1, b.len() - e - 1) =~= elsewhere);
    let c = signature_of(provider, dir, more);
    assert(c.skip(p + d + 2) =~= more);
}

/// The tokens of a question are those of its command and of what stands before.
pub proof fn law_tokens_come_from_the_question(ctx: QueryCtx, ps: Seq<Seq<char>>)
    requires
        ps.len() == ctx.previous_tokens@.len(),
        forall|i: int| 0 <= i < ps.len() ==> #[trigger] ps[i] == ctx.previous_tokens@[i]@,
    ensures
        asked_tokens(ctx) == tokens_of(ctx.command@, ps),
{
    assert(crate::text::views(ctx.previous_tokens@) =~= ps);
}

} // verus!
