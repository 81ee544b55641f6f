//! Offers the directories to `cd`.

use crate::completion::dynamic_hooks::listing::{
    arranged, entry_views, insert_entry, DirEntry, Entry,
};
use crate::completion::dynamic_hooks::{file_offer, file_suggestion, PathPrefix};
use crate::completion::{suggestion_views, QueryCtx, Suggestion, SuggestionView};
use crate::seqs::{kept, lemma_kept_take};
use crate::text::{begins, same_str, str_starts_with};
use vstd::prelude::*;
use vstd::string::StringExecFns;

verus! {

/// Offers directories.
pub struct CdProvider;

/// A directory whose name begins as it should.
pub open spec fn wanted_dir(prefix: Seq<char>) -> spec_fn(Entry) -> Option<Entry> {
    |e: Entry|
        if e.is_dir && begins(e.name, prefix) {
            Some(e)
        } else {
            None
        }
}

/// A directory as it is offered: behind what stands before its name.
pub open spec fn dir_offer(text_prefix: Seq<char>) -> spec_fn(Entry) -> SuggestionView {
    |e: Entry| file_offer(text_prefix + e.name + "/"@, e.name)
}

/// What is offered of the directory that the token names.
pub open spec fn dir_offers(
    prefix: Seq<char>,
    text_prefix: Seq<char>,
    entries: Seq<Entry>,
) -> Seq<SuggestionView> {
    arranged(kept(entries, wanted_dir(prefix))).map_values(dir_offer(text_prefix))
}

impl CdProvider {
    pub fn name(&self) -> (r: &'static str)
        ensures
            r@ == "cd"@,
    {
        "cd"
    }

    /// Whether a question is one about directories.
    pub fn answers(&self, ctx: &QueryCtx) -> (b: bool)
        ensures
            b == (ctx.command@ == "cd"@),
    {
        same_str(ctx.command.as_str(), "cd")
    }

    /// What is offered of the directory that the token names.
    pub fn suggestions(&self, path: &PathPrefix, entries: Vec<DirEntry>) -> (r: Vec<Suggestion>)
        ensures
            suggestion_views(r@) == dir_offers(
                path.prefix@,
                path.text_prefix@,
                entry_views(entries@),
            ),
    {
        let ghost all = entry_views(entries@);
        let ghost rule = wanted_dir(path.prefix@);
        let mut dirs: Vec<DirEntry> = Vec::new();
        let mut i: usize = 0;
        assert(all.take(0) =~= seq![]);
        assert(entry_views(dirs@) =~= arranged(kept(all.take(0), rule)));
        while i < entries.len()
            invariant
                all == entry_views(entries@),
                rule == wanted_dir(path.prefix@),
                i <= entries@.len() == all.len(),
                entry_views(dirs@) == arranged(kept(all.take(i as int), rule)),
            decreases entries@.len() - i,
        {
            let e: &DirEntry = &entries[i];
            assert(all[i as int] == e@);
            let ghost before = kept(all.take(i as int), rule);
            proof {
                lemma_kept_take(all, rule, i as int);
            }
            if e.is_dir && str_starts_with(e.name.as_str(), path.prefix.as_str()) {
                assert(before.push(e@).drop_last() =~= before);
                insert_entry(&mut dirs, DirEntry { name: e.name.clone(), is_dir: true });
            }
            i = i + 1;
        }
        assert(all.take(all.len() as int) =~= all);
        let ghost order = entry_views(dirs@);
        let ghost f = dir_offer(path.text_prefix@);
        let mut out: Vec<Suggestion> = Vec::new();
        let mut k: usize = 0;
        while k < dirs.len()
            invariant
                order == entry_views(dirs@),
                f == dir_offer(path.text_prefix@),
                k <= dirs@.len() == order.len(),
                out@.len() == k,
                forall|j: int| 0 <= j < k ==> (#[trigger] out@[j])@ == f(order[j]),
            decreases dirs@.len() - k,
        {
            assert(order[k as int] == dirs@[k as int]@);
            let mut text: String = path.text_prefix.clone();
            text.append(dirs[k].name.as_str());
            text.append("/");
            out.push(file_suggestion(text, dirs[k].name.clone()));
            k = k + 1;
        }
        assert(suggestion_views(out@) =~= order.map_values(f));
        out
    }
}

} // verus!
