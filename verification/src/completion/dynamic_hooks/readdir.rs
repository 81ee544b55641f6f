//! Offers the files to the commands that read or write them.

use crate::completion::dynamic_hooks::listing::{
    arranged, entry_views, insert_entry, DirEntry, Entry,
};
use crate::completion::dynamic_hooks::{file_offer, file_suggestion, PathPrefix};
use crate::completion::{suggestion_views, QueryCtx, Suggestion, SuggestionView};
use crate::seqs::{kept, lemma_kept_take};
use crate::text::{begins, str_starts_with, views};
use vstd::prelude::*;
use vstd::string::StringExecFns;

verus! {

/// Offers files to certain commands.
pub struct ReaddirProvider {
    target_commands: Vec<String>,
}

/// A name that begins as it should. One that begins with a dot is hidden
/// unless the dot has been typed.
pub open spec fn wanted_file(prefix: Seq<char>) -> spec_fn(Entry) -> Option<Entry> {
    |e: Entry|
        if begins(e.name, prefix) && (begins(e.name, "."@) ==> begins(prefix, "."@)) {
            Some(e)
        } else {
            None
        }
}

/// What stands behind a name.
pub open spec fn suffix(e: Entry) -> Seq<char> {
    if e.is_dir {
        "/"@
    } else {
        ""@
    }
}

/// A file as it is offered: behind what stands before its name.
pub open spec fn entry_offer(text_prefix: Seq<char>) -> spec_fn(Entry) -> SuggestionView {
    |e: Entry| file_offer(text_prefix + e.name + suffix(e), e.name + suffix(e))
}

/// What is offered of the directory that the token names.
pub open spec fn entry_offers(
    prefix: Seq<char>,
    text_prefix: Seq<char>,
    entries: Seq<Entry>,
) -> Seq<SuggestionView> {
    arranged(kept(entries, wanted_file(prefix))).map_values(entry_offer(text_prefix))
}

/// The commands that files are offered to.
pub open spec fn default_commands() -> Seq<Seq<char>> {
    seq![
        "ls"@,
        "cat"@,
        "bat"@,
        "less"@,
        "vim"@,
        "nvim"@,
        "nano"@,
        "rm"@,
        "cp"@,
        "mv"@,
    ]
}

impl View for ReaddirProvider {
    type V = Seq<Seq<char>>;

    /// The commands that files are offered to.
    closed spec fn view(&self) -> Seq<Seq<char>> {
        views(self.target_commands@)
    }
}

impl ReaddirProvider {
    pub fn new_default() -> (r: Self)
        ensures
            r@ == default_commands(),
    {
        let mut target_commands: Vec<String> = Vec::new();
        target_commands.push("ls".to_owned());
        target_commands.push("cat".to_owned());
        target_commands.push("bat".to_owned());
        target_commands.push("less".to_owned());
        target_commands.push("vim".to_owned());
        target_commands.push("nvim".to_owned());
        target_commands.push("nano".to_owned());
        target_commands.push("rm".to_owned());
        target_commands.push("cp".to_owned());
        target_commands.push("mv".to_owned());
        let r = ReaddirProvider { target_commands };
        assert(r@ =~= default_commands());
        r
    }

    pub fn name(&self) -> (r: &'static str)
        ensures
            r@ == "readdir"@,
    {
        "readdir"
    }

    /// Whether a question is one about files: the command takes some, and the
    /// token is no flag.
    pub fn answers(&self, ctx: &QueryCtx) -> (b: bool)
        ensures
            b == (self@.contains(ctx.command@) && !begins(ctx.current_token@, "-"@)),
    {
        if str_starts_with(ctx.current_token.as_str(), "-") {
            return false;
        }
        let ghost all = self@;
        let mut i: usize = 0;
        while i < self.target_commands.len()
            invariant
                all == self@,
                !begins(ctx.current_token@, "-"@),
                i <= self.target_commands@.len() == all.len(),
                forall|j: int| 0 <= j < i ==> #[trigger] all[j] != ctx.command@,
            decreases self.target_commands@.len() - i,
        {
            assert(all[i as int] == self.target_commands@[i as int]@);
            if self.target_commands[i] == ctx.command {
                assert(all.contains(ctx.command@));
                return true;
            }
            i = i + 1;
        }
        false
    }

    /// What is offered of the directory that the token names.
    pub fn suggestions(&self, path: &PathPrefix, entries: Vec<DirEntry>) -> (r: Vec<Suggestion>)
        ensures
            suggestion_views(r@) == entry_offers(
                path.prefix@,
                path.text_prefix@,
                entry_views(entries@),
            ),
    {
        let ghost all = entry_views(entries@);
        let ghost rule = wanted_file(path.prefix@);
        let dotted: bool = str_starts_with(path.prefix.as_str(), ".");
        let mut files: Vec<DirEntry> = Vec::new();
        let mut i: usize = 0;
        assert(all.take(0) =~= seq![]);
        assert(entry_views(files@) =~= arranged(kept(all.take(0), rule)));
        while i < entries.len()
            invariant
                all == entry_views(entries@),
                rule == wanted_file(path.prefix@),
                dotted == begins(path.prefix@, "."@),
                i <= entries@.len() == all.len(),
                entry_views(files@) == arranged(kept(all.take(i as int), rule)),
            decreases entries@.len() - i,
        {
            let e: &DirEntry = &entries[i];
            assert(all[i as int] == e@);
            let ghost before = kept(all.take(i as int), rule);
            proof {
                lemma_kept_take(all, rule, i as int);
            }
            if str_starts_with(e.name.as_str(), path.prefix.as_str()) && (dotted
                || !str_starts_with(e.name.as_str(), ".")) {
                assert(before.push(e@).drop_last() =~= before);
                insert_entry(&mut files, DirEntry { name: e.name.clone(), is_dir: e.is_dir });
            }
            i = i + 1;
        }
        assert(all.take(all.len() as int) =~= all);
        let ghost order = entry_views(files@);
        let ghost f = entry_offer(path.text_prefix@);
        let mut out: Vec<Suggestion> = Vec::new();
        let mut k: usize = 0;
        while k < files.len()
            invariant
                order == entry_views(files@),
                f == entry_offer(path.text_prefix@),
                k <= files@.len() == order.len(),
                out@.len() == k,
                forall|j: int| 0 <= j < k ==> (#[trigger] out@[j])@ == f(order[j]),
            decreases files@.len() - k,
        {
            assert(order[k as int] == files@[k as int]@);
            let end: &str = if files[k].is_dir {
                "/"
            } else {
                ""
            };
            let mut text: String = path.text_prefix.clone();
            text.append(files[k].name.as_str());
            text.append(end);
            let mut display: String = files[k].name.clone();
            display.append(end);
            out.push(file_suggestion(text, display));
            k = k + 1;
        }
        assert(suggestion_views(out@) =~= order.map_values(f));
        out
    }
}

} // verus!
