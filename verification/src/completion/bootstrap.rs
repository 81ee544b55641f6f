//! Indexes all the programs of the search path.
//!
//! The threads, the directories and the programs themselves are not touched
//! here: this says which programs are indexed, what is left to do for each,
//! and how far it all is.

use crate::completion::cache::{
    among_last, item_at, lemma_among_last_found, lemma_stored_among_last, lemma_used_among_last, stored,
    used, CacheKey, CompletionCache, Ident, Item, Key, Timestamp,
};
use crate::completion::help_indexer::{
    is_denied, DEFAULT_NEGATIVE_TTL, DEFAULT_OUTPUT_CAP, HelpIndexerConfig,
};
use crate::clock::{elapsed, elapsed_since};
use crate::completion::negative::NegativeCache;
use crate::completion::parser::opt_view;
use crate::completion::Suggestion;
use crate::paths::{place, Place};
use crate::text::{lemma_text_lt_total, lemma_text_lt_transitive, str_precedes, text_lt, views};
use vstd::prelude::*;
use vstd::string::StringExecFns;

verus! {

pub const DEFAULT_MAX_CONCURRENT: usize = 4;

/// How long to wait before the start, in nanoseconds.
pub const DEFAULT_START_DELAY: u64 = 5_000_000_000;

/// How long a program may take, in nanoseconds.
pub const DEFAULT_BINARY_TIMEOUT: u64 = 2_000_000_000;

/// What is indexed, and how.
#[derive(Debug, Clone)]
pub struct BootstrapConfig {
    pub max_concurrent: usize,
    pub start_delay: u64,
    pub binary_timeout: u64,
    pub allow_paths: Vec<Vec<u8>>,
    pub deny_list: Vec<String>,
}

impl BootstrapConfig {
    /// The usual settings, with the directories of the search path.
    pub fn with_paths(allow_paths: Vec<Vec<u8>>) -> (r: Self)
        ensures
            r.max_concurrent == DEFAULT_MAX_CONCURRENT,
            r.start_delay == DEFAULT_START_DELAY,
            r.binary_timeout == DEFAULT_BINARY_TIMEOUT,
            r.allow_paths == allow_paths,
            r.deny_list@.len() == 0,
    {
        BootstrapConfig {
            max_concurrent: DEFAULT_MAX_CONCURRENT,
            start_delay: DEFAULT_START_DELAY,
            binary_timeout: DEFAULT_BINARY_TIMEOUT,
            allow_paths,
            deny_list: Vec::new(),
        }
    }
}

/// How far it is.
#[derive(Debug, Clone, PartialEq)]
pub enum BootstrapState {
    NotStarted,
    Delayed,
    Scanning,
    Indexing,
    Completed,
    Failed(String),
}

/// How far it is, as plain values.
pub ghost enum Stage {
    NotStarted,
    Delayed,
    Scanning,
    Indexing,
    Completed,
    Failed(Seq<char>),
}

impl View for BootstrapState {
    type V = Stage;

    open spec fn view(&self) -> Stage {
        match self {
            BootstrapState::NotStarted => Stage::NotStarted,
            BootstrapState::Delayed => Stage::Delayed,
            BootstrapState::Scanning => Stage::Scanning,
            BootstrapState::Indexing => Stage::Indexing,
            BootstrapState::Completed => Stage::Completed,
            BootstrapState::Failed(reason) => Stage::Failed(reason@),
        }
    }
}

/// How far it is, in numbers.
#[derive(Debug, Clone)]
pub struct BootstrapProgress {
    pub total: usize,
    pub completed: usize,
    pub succeeded: usize,
    pub failed: usize,
    pub current_binary: Option<String>,
    pub started_at: Option<u64>,
    pub finished_at: Option<u64>,
    pub state: BootstrapState,
}

/// How far it is, as plain values.
#[verifier::ext_equal]
pub ghost struct Progress {
    pub total: nat,
    pub completed: nat,
    pub succeeded: nat,
    pub failed: nat,
    pub current: Option<Seq<char>>,
    pub started_at: Option<u64>,
    pub finished_at: Option<u64>,
    pub stage: Stage,
}

impl View for BootstrapProgress {
    type V = Progress;

    open spec fn view(&self) -> Progress {
        Progress {
            total: self.total as nat,
            completed: self.completed as nat,
            succeeded: self.succeeded as nat,
            failed: self.failed as nat,
            current: opt_view(self.current_binary),
            started_at: self.started_at,
            finished_at: self.finished_at,
            stage: self.state@,
        }
    }
}

/// Nothing has been done.
pub open spec fn no_progress() -> Progress {
    Progress {
        total: 0,
        completed: 0,
        succeeded: 0,
        failed: 0,
        current: None,
        started_at: None,
        finished_at: None,
        stage: Stage::NotStarted,
    }
}

impl Default for BootstrapProgress {
    fn default() -> (r: Self)
        ensures
            r@ == no_progress(),
    {
        BootstrapProgress {
            total: 0,
            completed: 0,
            succeeded: 0,
            failed: 0,
            current_binary: None,
            started_at: None,
            finished_at: None,
            state: BootstrapState::NotStarted,
        }
    }
}

/// Why nothing was indexed.
#[derive(Debug)]
pub enum BootstrapErr {
    NoPath,
    PermissionDenied(Vec<u8>),
    CancelledByUser,
}

/// What came of it all.
#[derive(Debug, Clone, Copy, PartialEq, Eq, Structural)]
pub struct BootstrapStats {
    pub total_scanned: usize,
    pub already_cached: usize,
    pub indexed: usize,
    pub failed: usize,
    /// In nanoseconds.
    pub elapsed: u64,
}

/// What came of one program.
#[derive(Debug, Clone, Copy, PartialEq, Eq, Structural)]
pub enum Outcome {
    Cached,
    Indexed,
    Failed,
}

/// A program that was found in a directory.
#[derive(Debug)]
pub struct Candidate {
    pub name: String,
    /// Its path, without links.
    pub path: Vec<u8>,
    /// How the path and its last part are displayed.
    pub text: String,
    pub file_name: String,
    /// When it was last changed, where that is known.
    pub mtime: Option<Timestamp>,
}

/// A program that is indexed.
#[derive(Debug)]
pub struct Binary {
    pub name: String,
    pub path: Vec<u8>,
    pub mtime: Timestamp,
}

/// A program that is indexed, as plain values.
#[verifier::ext_equal]
pub ghost struct Program {
    pub name: Seq<char>,
    pub path: Seq<u8>,
    pub mtime: Timestamp,
}

impl View for Binary {
    type V = Program;

    open spec fn view(&self) -> Program {
        Program { name: self.name@, path: self.path@, mtime: self.mtime }
    }
}

/// The views of programs.
pub open spec fn program_views(s: Seq<Binary>) -> Seq<Program> {
    s.map_values(|b: Binary| b@)
}

/// Whether a program that was found must not be indexed.
pub open spec fn unwanted(c: Candidate, denied: Seq<Seq<char>>) -> bool {
    denied.contains(c.text@) || denied.contains(c.file_name@)
}

/// Whether the program at `i` is the first of its name that may be indexed.
pub open spec fn is_first(found: Seq<Candidate>, denied: Seq<Seq<char>>, i: int) -> bool {
    !unwanted(found[i], denied) && forall|j: int|
        0 <= j < i && !unwanted(found[j], denied) ==> (#[trigger] found[j]).name@ != found[i].name@
}

/// The programs that are indexed, in the order in which they were found: of
/// each name the first, where it is known when it was changed.
pub open spec fn chosen(found: Seq<Candidate>, denied: Seq<Seq<char>>, n: int) -> Seq<Program>
    decreases n,
{
    if n <= 0 {
        seq![]
    } else {
        let rest = chosen(found, denied, n - 1);
        match found[n - 1].mtime {
            Some(mtime) if is_first(found, denied, n - 1) => rest.push(
                Program { name: found[n - 1].name@, path: found[n - 1].path@, mtime },
            ),
            _ => rest,
        }
    }
}

/// Whether the programs are in the order of their names, none twice.
pub open spec fn by_name(s: Seq<Program>) -> bool {
    forall|i: int, j: int|
        0 <= i < j < s.len() ==> text_lt((#[trigger] s[i]).name, (#[trigger] s[j]).name)
}

/// Adds a program where it belongs.
fn insert_binary(bins: &mut Vec<Binary>, b: Binary)
    requires
        by_name(program_views(old(bins)@)),
        forall|i: int|
            0 <= i < old(bins)@.len() ==> (#[trigger] program_views(old(bins)@)[i]).name != b.name@,
    ensures
        by_name(program_views(final(bins)@)),
        program_views(final(bins)@).to_multiset() == program_views(
            old(bins)@,
        ).to_multiset().insert(b@),
{
    let ghost all = program_views(bins@);
    let mut k: usize = 0;
    while k < bins.len() && str_precedes(bins[k].name.as_str(), b.name.as_str())
        invariant
            *bins == *old(bins),
            all == program_views(bins@),
            k <= bins@.len() == all.len(),
            forall|j: int| 0 <= j < k ==> text_lt((#[trigger] all[j]).name, b.name@),
        decreases bins@.len() - k,
    {
        assert(all[k as int] == bins@[k as int]@);
        k = k + 1;
    }
    let ghost p = b@;
    bins.insert(k, b);
    proof {
        let now = program_views(bins@);
        assert(now =~= all.insert(k as int, p));
        if k < all.len() {
            assert(all[k as int] == old(bins)@[k as int]@);
            assert(!text_lt(all[k as int].name, p.name));
            lemma_text_lt_total(p.name, all[k as int].name);
        }
        assert forall|i: int, j: int| 0 <= i < j < now.len() implies text_lt(
            (#[trigger] now[i]).name,
            (#[trigger] now[j]).name,
        ) by {
            if i == k {
                assert(now[j] == all[j - 1]);
                if j - 1 > k {
                    lemma_text_lt_transitive(p.name, all[k as int].name, all[j - 1].name);
                }
            } else if j == k {
                assert(now[i] == all[i]);
            } else {
                let x = if i < k {
                    i
                } else {
                    i - 1
                };
                let y = if j < k {
                    j
                } else {
                    j - 1
                };
                assert(now[i] == all[x] && now[j] == all[y]);
            }
        }
        all.to_multiset_ensures();
        vstd::seq_lib::to_multiset_insert(all, k as int, p);
    }
}

proof fn lemma_chosen_names(found: Seq<Candidate>, denied: Seq<Seq<char>>, n: int)
    requires
        0 <= n <= found.len(),
    ensures
        forall|k: int|
            0 <= k < chosen(found, denied, n).len() ==> exists|j: int|
                0 <= j < n && !unwanted(#[trigger] found[j], denied) && found[j].name@ == (
                #[trigger] chosen(found, denied, n)[k]).name,
    decreases n,
{
    if n > 0 {
        lemma_chosen_names(found, denied, n - 1);
        let rest = chosen(found, denied, n - 1);
        let all = chosen(found, denied, n);
        assert forall|k: int| 0 <= k < all.len() implies exists|j: int|
            0 <= j < n && !unwanted(#[trigger] found[j], denied) && found[j].name@ == (
            #[trigger] all[k]).name by {
            if k < rest.len() {
                assert(all[k] == rest[k]);
                let j = choose|j: int|
                    0 <= j < n - 1 && !unwanted(#[trigger] found[j], denied) && found[j].name@
                        == rest[k].name;
                assert(!unwanted(found[j], denied));
            } else {
                assert(!unwanted(found[n - 1], denied));
            }
        }
    }
}

/// Whether the program at `i` is the first of its name that may be indexed.
fn first_of_name(found: &Vec<Candidate>, deny_list: &Vec<String>, i: usize) -> (b: bool)
    requires
        i < found@.len(),
    ensures
        b == is_first(found@, views(deny_list@), i as int),
{
    let c: &Candidate = &found[i];
    if is_denied(c.text.as_str(), c.file_name.as_str(), deny_list) {
        return false;
    }
    let mut j: usize = 0;
    while j < i
        invariant
            j <= i < found@.len(),
            *c == found@[i as int],
            forall|k: int|
                0 <= k < j && !unwanted(found@[k], views(deny_list@)) ==> (
                #[trigger] found@[k]).name@ != c.name@,
            !unwanted(*c, views(deny_list@)),
        decreases i - j,
    {
        if found[j].name == c.name && !is_denied(
            found[j].text.as_str(),
            found[j].file_name.as_str(),
            deny_list,
        ) {
            assert(!unwanted(found@[j as int], views(deny_list@)));
            return false;
        }
        j = j + 1;
    }
    true
}

/// The programs that are indexed of those that were found, in the order of
/// their names.
pub fn choose_binaries(found: &Vec<Candidate>, deny_list: &Vec<String>) -> (r: Vec<Binary>)
    ensures
        by_name(program_views(r@)),
        program_views(r@).to_multiset() == chosen(
            found@,
            views(deny_list@),
            found@.len() as int,
        ).to_multiset(),
{
    let ghost denied = views(deny_list@);
    let mut out: Vec<Binary> = Vec::new();
    let mut i: usize = 0;
    assert(program_views(out@) =~= chosen(found@, denied, 0));
    while i < found.len()
        invariant
            denied == views(deny_list@),
            i <= found@.len(),
            by_name(program_views(out@)),
            program_views(out@).to_multiset() == chosen(found@, denied, i as int).to_multiset(),
        decreases found@.len() - i,
    {
        let ghost picked = chosen(found@, denied, i as int);
        let ghost held = program_views(out@);
        if first_of_name(found, deny_list, i) {
            if let Some(mtime) = found[i].mtime {
                let mut path: Vec<u8> = Vec::new();
                path.extend_from_slice(found[i].path.as_slice());
                assert(path@ =~= found@[i as int].path@);
                let b: Binary = Binary { name: found[i].name.clone(), path, mtime };
                let ghost p = b@;
                proof {
                    lemma_chosen_names(found@, denied, i as int);
                    picked.to_multiset_ensures();
                    held.to_multiset_ensures();
                    assert forall|k: int| 0 <= k < held.len() implies (#[trigger] held[k]).name
                        != b.name@ by {
                        assert(held.contains(held[k]));
                        assert(held.to_multiset().contains(held[k]));
                        assert(picked.to_multiset().contains(held[k]));
                        assert(picked.contains(held[k]));
                        let m = choose|m: int| 0 <= m < picked.len() && picked[m] == held[k];
                        assert(picked[m].name == held[k].name);
                    }
                }
                insert_binary(&mut out, b);
                proof {
                    assert(chosen(found@, denied, i + 1) == picked.push(p));
                    picked.to_multiset_ensures();
                }
            }
        }
        i = i + 1;
    }
    out
}

/// How many programs are asked at a time.
pub fn worker_count(max_concurrent: usize, binaries: usize) -> (r: usize)
    ensures
        ({
            let most = if max_concurrent < 1 {
                1
            } else {
                max_concurrent
            };
            let work = if binaries < 1 {
                1
            } else {
                binaries
            };
            r == (if most < work {
                most
            } else {
                work
            })
        }),
{
    let most: usize = if max_concurrent < 1 {
        1
    } else {
        max_concurrent
    };
    let work: usize = if binaries < 1 {
        1
    } else {
        binaries
    };
    if most < work {
        most
    } else {
        work
    }
}

/// What is to be done about a program.
#[derive(Debug)]
pub enum Step {
    /// Nothing more.
    Done,
    /// Look for this key on disk, and ask the program where it is not there.
    Look(CacheKey),
}

/// Indexes programs.
pub struct Bootstrapper {
    config: BootstrapConfig,
    progress: BootstrapProgress,
    cancelled: bool,
    negative: NegativeCache,
    already_cached: usize,
    indexed: usize,
}

/// What is known about a run.
#[verifier::ext_equal]
pub ghost struct Run {
    pub progress: Progress,
    pub cancelled: bool,
    pub negative: Map<Place, u64>,
    /// The programs that were in the cache, and those that were indexed.
    pub cached: nat,
    pub indexed: nat,
}

impl View for Bootstrapper {
    type V = Run;

    closed spec fn view(&self) -> Run {
        Run {
            progress: self.progress@,
            cancelled: self.cancelled,
            negative: self.negative@,
            cached: self.already_cached as nat,
            indexed: self.indexed as nat,
        }
    }
}

/// The numbers of a run add up: each program that is done was in the cache,
/// was indexed, or failed.
pub open spec fn adds_up(r: Run) -> bool {
    &&& r.progress.succeeded == r.cached + r.indexed
    &&& r.progress.completed == r.progress.succeeded + r.progress.failed
}

/// One more program is done.
pub open spec fn counted(r: Run, outcome: Outcome) -> Run {
    Run {
        progress: Progress {
            completed: r.progress.completed + 1,
            succeeded: r.progress.succeeded + if outcome == Outcome::Failed {
                0nat
            } else {
                1nat
            },
            failed: r.progress.failed + if outcome == Outcome::Failed {
                1nat
            } else {
                0nat
            },
            ..r.progress
        },
        cached: r.cached + if outcome == Outcome::Cached {
            1nat
        } else {
            0nat
        },
        indexed: r.indexed + if outcome == Outcome::Indexed {
            1nat
        } else {
            0nat
        },
        ..r
    }
}

/// A run as it begins.
pub open spec fn begun(r: Run, now: u64, stage: Stage) -> Run {
    Run {
        progress: Progress { started_at: Some(now), stage, ..no_progress() },
        cached: 0,
        indexed: 0,
        ..r
    }
}

/// A run that ends without a result.
pub open spec fn failed_run(r: Run, reason: Seq<char>, now: u64) -> Run {
    Run {
        progress: Progress {
            current: None,
            finished_at: Some(now),
            stage: Stage::Failed(reason),
            ..r.progress
        },
        ..r
    }
}

/// A run in which a program is being indexed.
pub open spec fn at_work(r: Run, name: Seq<char>) -> Run {
    Run { progress: Progress { current: Some(name), ..r.progress }, ..r }
}

/// A run in which a program had no answer.
pub open spec fn without_answer(r: Run, path: Seq<u8>, now: u64) -> Run {
    Run { negative: r.negative.insert(place(path), now), ..r }
}

/// Whether a program had no answer less than a day ago.
pub open spec fn recently_failed(r: Run, path: Seq<u8>, now: u64) -> bool {
    r.negative.contains_key(place(path)) && elapsed(r.negative[place(path)], now) < DEFAULT_NEGATIVE_TTL
}

/// What the suggestions of a program are remembered for.
pub open spec fn program_key(p: Program) -> Key {
    Key { path: p.path, mtime: p.mtime, signature: "help:"@ + p.name }
}

impl Bootstrapper {
    /// What every run keeps.
    pub closed spec fn inv(&self) -> bool {
        self.negative.inv() && adds_up(self@)
    }

    /// The configuration.
    pub closed spec fn configuration(&self) -> BootstrapConfig {
        self.config
    }

    pub fn new(config: BootstrapConfig) -> (r: Self)
        ensures
            r.inv(),
            r.configuration() == config,
            r@ == (Run {
                progress: no_progress(),
                cancelled: false,
                negative: Map::empty(),
                cached: 0,
                indexed: 0,
            }),
    {
        Bootstrapper {
            config,
            progress: BootstrapProgress::default(),
            cancelled: false,
            negative: NegativeCache::new(),
            already_cached: 0,
            indexed: 0,
        }
    }

    pub fn config(&self) -> (r: &BootstrapConfig)
        ensures
            *r == self.configuration(),
    {
        &self.config
    }

    pub fn progress(&self) -> (r: &BootstrapProgress)
        ensures
            r@ == self@.progress,
    {
        &self.progress
    }

    /// Asks for the run to end.
    pub fn cancel(&mut self)
        requires
            old(self).inv(),
        ensures
            final(self).inv(),
            final(self).configuration() == old(self).configuration(),
            final(self)@ == (Run { cancelled: true, ..old(self)@ }),
    {
        self.cancelled = true;
    }

    pub fn is_cancelled(&self) -> (b: bool)
        ensures
            b == self@.cancelled,
    {
        self.cancelled
    }

    /// Whether a program had no answer and its path is held for it.
    pub fn is_negative_cached(&mut self, path: &[u8], now: u64) -> (b: bool)
        requires
            old(self).inv(),
        ensures
            final(self).inv(),
            final(self).configuration() == old(self).configuration(),
            b == recently_failed(old(self)@, path@, now),
            final(self)@ == (if b {
                old(self)@
            } else {
                Run { negative: old(self)@.negative.remove(place(path@)), ..old(self)@ }
            }),
    {
        self.negative.is_negative_cached(path, now, DEFAULT_NEGATIVE_TTL)
    }

    /// Begins a run that is to wait first.
    pub fn begin_delayed(&mut self, now: u64)
        requires
            old(self).inv(),
        ensures
            final(self).inv(),
            final(self).configuration() == old(self).configuration(),
            final(self)@ == begun(Run { cancelled: false, ..old(self)@ }, now, Stage::Delayed),
    {
        self.cancelled = false;
        self.begin(now, BootstrapState::Delayed);
    }

    fn begin(&mut self, now: u64, state: BootstrapState)
        requires
            old(self).inv(),
        ensures
            final(self).inv(),
            final(self).configuration() == old(self).configuration(),
            final(self)@ == begun(old(self)@, now, state@),
    {
        let mut p: BootstrapProgress = BootstrapProgress::default();
        p.started_at = Some(now);
        p.state = state;
        self.progress = p;
        self.already_cached = 0;
        self.indexed = 0;
        assert(self@ =~= begun(old(self)@, now, state@));
    }

    /// Takes back that the run was to end.
    pub fn rearm(&mut self)
        requires
            old(self).inv(),
        ensures
            final(self).inv(),
            final(self).configuration() == old(self).configuration(),
            final(self)@ == (Run { cancelled: false, ..old(self)@ }),
    {
        self.cancelled = false;
    }

    /// Begins to look for programs.
    pub fn begin_scan(&mut self, now: u64)
        requires
            old(self).inv(),
        ensures
            final(self).inv(),
            final(self).configuration() == old(self).configuration(),
            final(self)@ == begun(old(self)@, now, Stage::Scanning),
    {
        self.begin(now, BootstrapState::Scanning);
    }

    /// Takes what was found, and says which programs are indexed, in the order
    /// of their names.
    pub fn scanned(&mut self, found: &Vec<Candidate>) -> (r: Vec<Binary>)
        requires
            old(self).inv(),
        ensures
            final(self).inv(),
            final(self).configuration() == old(self).configuration(),
            by_name(program_views(r@)),
            program_views(r@).to_multiset() == chosen(
                found@,
                views(old(self).configuration().deny_list@),
                found@.len() as int,
            ).to_multiset(),
            final(self)@ == (Run {
                progress: Progress {
                    total: r@.len(),
                    stage: Stage::Indexing,
                    ..old(self)@.progress
                },
                ..old(self)@
            }),
    {
        let r: Vec<Binary> = choose_binaries(found, &self.config.deny_list);
        self.progress.total = r.len();
        self.progress.state = BootstrapState::Indexing;
        r
    }

    /// Ends the run without a result.
    pub fn fail(&mut self, reason: &str, now: u64)
        requires
            old(self).inv(),
        ensures
            final(self).inv(),
            final(self).configuration() == old(self).configuration(),
            final(self)@ == failed_run(old(self)@, reason@, now),
    {
        self.progress.current_binary = None;
        self.progress.finished_at = Some(now);
        self.progress.state = BootstrapState::Failed(reason.to_owned());
    }

    fn finish(&mut self, outcome: Outcome)
        requires
            old(self).inv(),
            old(self)@.progress.completed < usize::MAX,
        ensures
            final(self).inv(),
            final(self).configuration() == old(self).configuration(),
            final(self)@ == counted(old(self)@, outcome),
    {
        match outcome {
            Outcome::Cached => {
                self.already_cached = self.already_cached + 1;
                self.progress.succeeded = self.progress.succeeded + 1;
            },
            Outcome::Indexed => {
                self.indexed = self.indexed + 1;
                self.progress.succeeded = self.progress.succeeded + 1;
            },
            Outcome::Failed => {
                self.progress.failed = self.progress.failed + 1;
            },
        }
        self.progress.completed = self.progress.completed + 1;
        assert(self@ =~= counted(old(self)@, outcome));
    }

    /// Begins with a program: one that had no answer of late fails, and one
    /// that is remembered is done.
    pub fn begin_one(&mut self, binary: &Binary, cache: &mut CompletionCache, now: u64) -> (r: Step)
        requires
            old(self).inv(),
            old(cache).inv(),
            old(self)@.progress.completed < usize::MAX,
        ensures
            final(self).inv(),
            final(cache).inv(),
            final(self).configuration() == old(self).configuration(),
            final(cache).limit() == old(cache).limit(),
            final(cache).dir() == old(cache).dir(),
            ({
                let before = at_work(old(self)@, binary@.name);
                let free = Run { negative: before.negative.remove(place(binary@.path)), ..before };
                if recently_failed(before, binary@.path, now) {
                    &&& r is Done
                    &&& final(self)@ == counted(before, Outcome::Failed)
                    &&& final(cache)@ == old(cache)@
                } else {
                    match item_at(old(cache)@, program_key(binary@).ident()) {
                        Some(i) => {
                            &&& r is Done
                            &&& final(self)@ == counted(free, Outcome::Cached)
                            &&& final(cache)@ == used(old(cache)@, i)
                        },
                        None => {
                            &&& r matches Step::Look(key) && key@ == program_key(binary@)
                            &&& final(self)@ == free
                            &&& final(cache)@ == old(cache)@
                        },
                    }
                }
            }),
    {
        self.progress.current_binary = Some(binary.name.clone());
        assert(self@ =~= at_work(old(self)@, binary@.name));
        let ghost before = self@;
        if self.negative.is_negative_cached(binary.path.as_slice(), now, DEFAULT_NEGATIVE_TTL) {
            assert(self@ =~= before);
            self.finish(Outcome::Failed);
            return Step::Done;
        }
        assert(self@ =~= Run { negative: before.negative.remove(place(binary@.path)), ..before });
        let mut path: Vec<u8> = Vec::new();
        path.extend_from_slice(binary.path.as_slice());
        assert(path@ =~= binary.path@);
        let mut query_signature: String = "help:".to_owned();
        query_signature.append(binary.name.as_str());
        let key: CacheKey = CacheKey { binary_path: path, binary_mtime: binary.mtime, query_signature };
        assert(key@ =~= program_key(binary@));
        if cache.get(&key).is_some() {
            self.finish(Outcome::Cached);
            return Step::Done;
        }
        Step::Look(key)
    }

    /// Takes that a program was found on disk.
    pub fn found_on_disk(&mut self)
        requires
            old(self).inv(),
            old(self)@.progress.completed < usize::MAX,
        ensures
            final(self).inv(),
            final(self).configuration() == old(self).configuration(),
            final(self)@ == counted(old(self)@, Outcome::Cached),
    {
        self.finish(Outcome::Cached);
    }

    /// Remembers what a program offers, if anything. Returns whether there is
    /// something to be saved to disk.
    pub fn remember(
        &self,
        cache: &mut CompletionCache,
        key: &CacheKey,
        suggestions: Vec<Suggestion>,
        stored_at: Timestamp,
    ) -> (b: bool)
        requires
            old(cache).inv(),
        ensures
            final(cache).inv(),
            final(cache).limit() == old(cache).limit(),
            final(cache).dir() == old(cache).dir(),
            b == (suggestions@.len() > 0),
            final(cache)@ == (if b {
                stored(
                    old(cache)@,
                    Item { key: key@.ident(), suggestions: suggestions@, stored_at },
                    old(cache).limit(),
                )
            } else {
                old(cache)@
            }),
    {
        if suggestions.len() == 0 {
            return false;
        }
        cache.put(key.clone(), suggestions, stored_at);
        true
    }

    /// Ends with a program that was asked: it is indexed where what it offers
    /// was saved, and had no answer otherwise.
    pub fn end_one(&mut self, path: &[u8], saved: bool, now: u64)
        requires
            old(self).inv(),
            old(self)@.progress.completed < usize::MAX,
        ensures
            final(self).inv(),
            final(self).configuration() == old(self).configuration(),
            final(self)@ == (if saved {
                counted(old(self)@, Outcome::Indexed)
            } else {
                counted(without_answer(old(self)@, path@, now), Outcome::Failed)
            }),
    {
        if saved {
            self.finish(Outcome::Indexed);
        } else {
            self.negative.mark_negative(path, now);
            assert(self@ =~= without_answer(old(self)@, path@, now));
            self.finish(Outcome::Failed);
        }
    }

    /// Ends the run.
    pub fn complete(&mut self, started_at: u64, now: u64) -> (r: Result<BootstrapStats, BootstrapErr>)
        requires
            old(self).inv(),
        ensures
            final(self).inv(),
            final(self).configuration() == old(self).configuration(),
            if old(self)@.cancelled {
                &&& r matches Err(BootstrapErr::CancelledByUser)
                &&& final(self)@ == failed_run(old(self)@, "cancelled"@, now)
            } else {
                &&& r matches Ok(s) && s.total_scanned == old(self)@.progress.total
                    && s.already_cached == old(self)@.cached && s.indexed == old(self)@.indexed
                    && s.failed == old(self)@.progress.failed && s.elapsed == elapsed(
                    started_at,
                    now,
                )
                &&& final(self)@ == (Run {
                    progress: Progress {
                        current: None,
                        finished_at: Some(now),
                        stage: Stage::Completed,
                        ..old(self)@.progress
                    },
                    ..old(self)@
                })
            },
    {
        if self.cancelled {
            self.fail("cancelled", now);
            return Err(BootstrapErr::CancelledByUser);
        }
        let stats: BootstrapStats = BootstrapStats {
            total_scanned: self.progress.total,
            already_cached: self.already_cached,
            indexed: self.indexed,
            failed: self.progress.failed,
            elapsed: elapsed_since(started_at, now),
        };
        self.progress.current_binary = None;
        self.progress.finished_at = Some(now);
        self.progress.state = BootstrapState::Completed;
        Ok(stats)
    }

    /// How a program is asked.
    pub fn help_config(&self, allow_paths: Vec<Vec<u8>>) -> (r: HelpIndexerConfig)
        ensures
            r.timeout == self.configuration().binary_timeout,
            r.output_cap == DEFAULT_OUTPUT_CAP,
            r.negative_ttl == DEFAULT_NEGATIVE_TTL,
            r.allow_paths == allow_paths,
    {
        let mut r: HelpIndexerConfig = HelpIndexerConfig::with_paths(allow_paths);
        r.timeout = self.config.binary_timeout;
        r
    }
}

/// Of two programs with one name only the first that was found is indexed, and
/// one that is denied never is.
pub proof fn law_first_of_name(found: Seq<Candidate>, denied: Seq<Seq<char>>, k: int)
    requires
        0 <= k < chosen(found, denied, found.len() as int).len(),
    ensures
        ({
            let p = chosen(found, denied, found.len() as int)[k];
            exists|j: int|
                {
                    &&& 0 <= j < found.len()
                    &&& #[trigger] is_first(found, denied, j)
                    &&& found[j].name@ == p.name
                    &&& found[j].path@ == p.path
                    &&& found[j].mtime == Some(p.mtime)
                }
        }),
{
    lemma_chosen_is_first(found, denied, found.len() as int, k);
}

proof fn lemma_chosen_is_first(found: Seq<Candidate>, denied: Seq<Seq<char>>, n: int, k: int)
    requires
        0 <= n <= found.len(),
        0 <= k < chosen(found, denied, n).len(),
    ensures
        exists|j: int|
            {
                &&& 0 <= j < n
                &&& #[trigger] is_first(found, denied, j)
                &&& found[j].name@ == chosen(found, denied, n)[k].name
                &&& found[j].path@ == chosen(found, denied, n)[k].path
                &&& found[j].mtime == Some(chosen(found, denied, n)[k].mtime)
            },
    decreases n,
{
    if n > 0 {
        let rest = chosen(found, denied, n - 1);
        if k < rest.len() {
            lemma_chosen_is_first(found, denied, n - 1, k);
            assert(chosen(found, denied, n)[k] == rest[k]);
        } else {
            assert(is_first(found, denied, n - 1));
        }
    }
}

/// Each outcome keeps the numbers of a run adding up.
pub proof fn law_numbers_add_up(r: Run, outcome: Outcome)
    requires
        adds_up(r),
    ensures
        adds_up(counted(r, outcome)),
        counted(r, outcome).progress.completed == r.progress.completed + 1,
{
}

/// What comes back of a program that is not remembered: it is found on disk,
/// or it is asked, offers something or nothing, and that is saved or not.
pub ghost enum Reply {
    OnDisk { suggestions: Seq<Suggestion>, stored_at: Timestamp },
    Asked { suggestions: Seq<Suggestion>, stored_at: Timestamp, saved: bool },
}

/// What becomes of a program.
pub open spec fn outcome_of(r: Run, cache: Seq<Item>, p: Program, reply: Reply, now: u64) -> Outcome {
    if recently_failed(r, p.path, now) {
        Outcome::Failed
    } else if item_at(cache, program_key(p).ident()) is Some {
        Outcome::Cached
    } else {
        match reply {
            Reply::OnDisk { .. } => Outcome::Cached,
            Reply::Asked { suggestions, saved, .. } => if suggestions.len() > 0 && saved {
                Outcome::Indexed
            } else {
                Outcome::Failed
            },
        }
    }
}

/// The run and the cache once a program is done: begun with, looked for on
/// disk, remembered and ended with, one behind the other.
#[verifier::opaque]
pub open spec fn one_done(
    r: Run,
    cache: Seq<Item>,
    limit: nat,
    p: Program,
    reply: Reply,
    now: u64,
) -> (Run, Seq<Item>) {
    let before = at_work(r, p.name);
    let free = Run { negative: before.negative.remove(place(p.path)), ..before };
    let outcome = outcome_of(r, cache, p, reply, now);
    let key = program_key(p).ident();
    if recently_failed(before, p.path, now) {
        (counted(before, outcome), cache)
    } else {
        match item_at(cache, key) {
            Some(i) => (counted(free, outcome), used(cache, i)),
            None => match reply {
                Reply::OnDisk { suggestions, stored_at } => (
                    counted(free, outcome),
                    stored(cache, Item { key, suggestions, stored_at }, limit),
                ),
                Reply::Asked { suggestions, stored_at, saved } => (
                    if outcome == Outcome::Indexed {
                        counted(free, outcome)
                    } else {
                        counted(without_answer(free, p.path, now), outcome)
                    },
                    if suggestions.len() > 0 {
                        stored(cache, Item { key, suggestions, stored_at }, limit)
                    } else {
                        cache
                    },
                ),
            },
        }
    }
}

/// A program, what comes back of it, and when.
pub ghost struct Turn {
    pub program: Program,
    pub reply: Reply,
    pub now: u64,
}

/// The run and the cache once the first `n` programs are done.
pub open spec fn all_done(r: Run, cache: Seq<Item>, limit: nat, turns: Seq<Turn>, n: int) -> (
    Run,
    Seq<Item>,
)
    decreases n,
{
    if n <= 0 {
        (r, cache)
    } else {
        let (r1, c1) = all_done(r, cache, limit, turns, n - 1);
        one_done(r1, c1, limit, turns[n - 1].program, turns[n - 1].reply, turns[n - 1].now)
    }
}

/// What becomes of program `i` of a run.
pub open spec fn outcome_at(r: Run, cache: Seq<Item>, limit: nat, turns: Seq<Turn>, i: int) -> Outcome {
    let (r1, c1) = all_done(r, cache, limit, turns, i);
    outcome_of(r1, c1, turns[i].program, turns[i].reply, turns[i].now)
}

/// Once all programs of a run are done, each has been counted once: in the
/// cache, indexed or failed.
pub proof fn law_total_is_the_sum(
    r: Run,
    cache: Seq<Item>,
    limit: nat,
    turns: Seq<Turn>,
    now: u64,
    stage: Stage,
)
    ensures
        ({
            let start = begun(r, now, stage);
            let scanned = Run {
                progress: Progress { total: turns.len(), ..start.progress },
                ..start
            };
            let done = all_done(scanned, cache, limit, turns, turns.len() as int).0;
            &&& done.progress.total == turns.len()
            &&& done.progress.completed == done.progress.total
            &&& done.progress.total == done.cached + done.indexed + done.progress.failed
        }),
{
    let start = begun(r, now, stage);
    let scanned = Run { progress: Progress { total: turns.len(), ..start.progress }, ..start };
    lemma_each_counts(scanned, cache, limit, turns, turns.len() as int);
}

proof fn lemma_each_counts(r: Run, cache: Seq<Item>, limit: nat, turns: Seq<Turn>, n: int)
    requires
        adds_up(r),
        0 <= n <= turns.len(),
    ensures
        ({
            let d = all_done(r, cache, limit, turns, n).0;
            &&& adds_up(d)
            &&& d.progress.completed == r.progress.completed + n
            &&& d.progress.total == r.progress.total
        }),
    decreases n,
{
    if n > 0 {
        reveal(one_done);
        lemma_each_counts(r, cache, limit, turns, n - 1);
    }
}

/// All marks against programs were made at these times.
spec fn marked_within(r: Run, from: u64, to: u64) -> bool {
    forall|p: Place| #[trigger]
        r.negative.contains_key(p) ==> from <= r.negative[p] <= to
}

proof fn lemma_mark_step(r: Run, cache: Seq<Item>, limit: nat, t: Turn, from: u64, to: u64)
    requires
        to - from < DEFAULT_NEGATIVE_TTL,
        marked_within(r, from, to),
        from <= t.now <= to,
    ensures
        ({
            let d = one_done(r, cache, limit, t.program, t.reply, t.now).0;
            &&& marked_within(d, from, to)
            &&& forall|p: Place| #[trigger]
                r.negative.contains_key(p) ==> d.negative.contains_key(p)
            &&& outcome_of(r, cache, t.program, t.reply, t.now) == Outcome::Failed
                ==> d.negative.contains_key(place(t.program.path))
        }),
{
    reveal(one_done);
    let d = one_done(r, cache, limit, t.program, t.reply, t.now).0;
    let here = place(t.program.path);
    assert(recently_failed(r, t.program.path, t.now) == r.negative.contains_key(here));
    if r.negative.contains_key(here) {
        assert(d.negative == r.negative);
    } else {
        assert(r.negative.remove(here) =~= r.negative);
        assert(d.negative == r.negative || d.negative == r.negative.insert(here, t.now));
    }
}

proof fn lemma_marks_stay(
    r: Run,
    cache: Seq<Item>,
    limit: nat,
    turns: Seq<Turn>,
    n: int,
    from: u64,
    to: u64,
)
    requires
        from <= to,
        to - from < DEFAULT_NEGATIVE_TTL,
        marked_within(r, from, to),
        forall|i: int| 0 <= i < turns.len() ==> from <= (#[trigger] turns[i]).now <= to,
        0 <= n <= turns.len(),
    ensures
        ({
            let d = all_done(r, cache, limit, turns, n).0;
            &&& marked_within(d, from, to)
            &&& forall|p: Place| #[trigger]
                r.negative.contains_key(p) ==> d.negative.contains_key(p)
            &&& forall|i: int|
                0 <= i < n && outcome_at(r, cache, limit, turns, i) == Outcome::Failed
                    ==> d.negative.contains_key(place((#[trigger] turns[i]).program.path))
        }),
    decreases n,
{
    if n > 0 {
        lemma_marks_stay(r, cache, limit, turns, n - 1, from, to);
        let (r1, c1) = all_done(r, cache, limit, turns, n - 1);
        let t = turns[n - 1];
        lemma_mark_step(r1, c1, limit, t, from, to);
        let d = all_done(r, cache, limit, turns, n).0;
        assert(d == one_done(r1, c1, limit, t.program, t.reply, t.now).0);
        assert forall|i: int|
            0 <= i < n && outcome_at(r, cache, limit, turns, i)
                == Outcome::Failed implies d.negative.contains_key(
            place((#[trigger] turns[i]).program.path),
        ) by {
            if i < n - 1 {
                assert(r1.negative.contains_key(place(turns[i].program.path)));
            }
        }
    }
}

/// The same program comes again in a second run; where it has not failed in the
/// first, it is found on disk.
pub open spec fn comes_again(outcome: Outcome, first: Turn, second: Turn) -> bool {
    &&& second.program == first.program
    &&& outcome != Outcome::Failed ==> second.reply is OnDisk
}

/// A second run indexes nothing anew, as long as what has failed is not asked
/// again yet and what has not failed is found on disk if it is not remembered:
/// all that is left to it is in the cache or fails.
pub proof fn law_second_run_indexes_nothing(
    r: Run,
    cache: Seq<Item>,
    limit: nat,
    first: Seq<Turn>,
    second: Seq<Turn>,
    between: u64,
    from: u64,
    to: u64,
)
    requires
        r.negative == Map::<Place, u64>::empty(),
        first.len() == second.len(),
        from <= to,
        to - from < DEFAULT_NEGATIVE_TTL,
        forall|i: int| 0 <= i < first.len() ==> from <= (#[trigger] first[i]).now <= to,
        forall|i: int| 0 <= i < first.len() ==> from <= (#[trigger] second[i]).now <= to,
        forall|i: int|
            0 <= i < first.len() ==> #[trigger] comes_again(
                outcome_at(r, cache, limit, first, i),
                first[i],
                second[i],
            ),
    ensures
        ({
            let n = first.len() as int;
            let (r1, c1) = all_done(r, cache, limit, first, n);
            let d = all_done(begun(r1, between, Stage::Scanning), c1, limit, second, n).0;
            d.indexed == 0 && d.cached + d.progress.failed == n
        }),
{
    let n = first.len() as int;
    let (r1, c1) = all_done(r, cache, limit, first, n);
    let start = begun(r1, between, Stage::Scanning);
    lemma_marks_stay(r, cache, limit, first, n, from, to);
    lemma_each_counts(start, c1, limit, second, n);
    lemma_nothing_anew(r, cache, limit, first, second, start, c1, n, from, to);
}

proof fn lemma_nothing_anew(
    r: Run,
    cache: Seq<Item>,
    limit: nat,
    first: Seq<Turn>,
    second: Seq<Turn>,
    start: Run,
    c1: Seq<Item>,
    n: int,
    from: u64,
    to: u64,
)
    requires
        first.len() == second.len(),
        from <= to,
        to - from < DEFAULT_NEGATIVE_TTL,
        start.indexed == 0,
        marked_within(start, from, to),
        forall|i: int|
            0 <= i < first.len() && outcome_at(r, cache, limit, first, i) == Outcome::Failed
                ==> start.negative.contains_key(place((#[trigger] first[i]).program.path)),
        forall|i: int| 0 <= i < first.len() ==> from <= (#[trigger] second[i]).now <= to,
        forall|i: int|
            0 <= i < first.len() ==> #[trigger] comes_again(
                outcome_at(r, cache, limit, first, i),
                first[i],
                second[i],
            ),
        0 <= n <= first.len(),
    ensures
        all_done(start, c1, limit, second, n).0.indexed == 0,
    decreases n,
{
    if n > 0 {
        reveal(one_done);
        lemma_nothing_anew(r, cache, limit, first, second, start, c1, n - 1, from, to);
        lemma_marks_stay(start, c1, limit, second, n - 1, from, to);
        let (r2, c2) = all_done(start, c1, limit, second, n - 1);
        let t = second[n - 1];
        let same = first[n - 1];
        let here = place(t.program.path);
        assert(comes_again(outcome_at(r, cache, limit, first, n - 1), same, t));
        if outcome_at(r, cache, limit, first, n - 1) == Outcome::Failed {
            assert(start.negative.contains_key(place(same.program.path)));
            assert(r2.negative.contains_key(here));
            assert(recently_failed(r2, t.program.path, t.now));
        }
    }
}

/// All marks against programs were made at these times, or so long before that
/// they do not count any more.
pub open spec fn marks_fit(r: Run, from: u64, to: u64) -> bool {
    forall|p: Place| #[trigger]
        r.negative.contains_key(p) ==> from <= r.negative[p] <= to || elapsed(r.negative[p], from)
            >= DEFAULT_NEGATIVE_TTL
}

/// A mark against a program was made since then.
spec fn held(r: Run, p: Place, from: u64) -> bool {
    r.negative.contains_key(p) && r.negative[p] >= from
}

/// What one turn does to the marks, to the numbers, and to what is remembered.
proof fn lemma_turn(r: Run, cache: Seq<Item>, limit: nat, t: Turn, from: u64, to: u64)
    requires
        to - from < DEFAULT_NEGATIVE_TTL,
        marks_fit(r, from, to),
        from <= t.now <= to,
    ensures
        ({
            let (d, c) = one_done(r, cache, limit, t.program, t.reply, t.now);
            let outcome = outcome_of(r, cache, t.program, t.reply, t.now);
            let here = place(t.program.path);
            &&& marks_fit(d, from, to)
            &&& held(r, here, from) ==> outcome == Outcome::Failed
            &&& held(d, here, from) == (outcome == Outcome::Failed)
            &&& forall|p: Place| p != here ==> #[trigger] held(d, p, from) == held(r, p, from)
            &&& d.progress.failed == r.progress.failed + if outcome == Outcome::Failed {
                1nat
            } else {
                0nat
            }
            &&& d.indexed == r.indexed + if outcome == Outcome::Indexed {
                1nat
            } else {
                0nat
            }
            &&& outcome != Outcome::Failed && limit >= 1 ==> among_last(
                c,
                program_key(t.program).ident(),
                1,
            )
        }),
{
    reveal(one_done);
    let (d, c) = one_done(r, cache, limit, t.program, t.reply, t.now);
    let outcome = outcome_of(r, cache, t.program, t.reply, t.now);
    let here = place(t.program.path);
    let key = program_key(t.program).ident();
    assert(recently_failed(r, t.program.path, t.now) == held(r, here, from));
    if held(r, here, from) {
        assert(d.negative == r.negative);
    } else if outcome == Outcome::Failed {
        assert(d.negative == r.negative.remove(here).insert(here, t.now));
    } else {
        assert(d.negative == r.negative.remove(here));
    }
    assert forall|p: Place| p != here implies #[trigger] held(d, p, from) == held(r, p, from) by {
        assert(d.negative.contains_key(p) == r.negative.contains_key(p));
    }
    if outcome != Outcome::Failed && limit >= 1 {
        match item_at(cache, key) {
            Some(i) => {
                crate::seqs::lemma_first_where_is(cache, |x: Item| x.key == key);
                lemma_used_among_last(cache, i, key, 0);
            },
            None => {
                let item = match t.reply {
                    Reply::OnDisk { suggestions, stored_at } => Item { key, suggestions, stored_at },
                    Reply::Asked { suggestions, stored_at, .. } => Item {
                        key,
                        suggestions,
                        stored_at,
                    },
                };
                assert(c == stored(cache, item, limit));
                lemma_stored_among_last(cache, item, limit, key, 0);
            },
        }
    }
}

proof fn lemma_turn_keeps(r: Run, cache: Seq<Item>, limit: nat, t: Turn, key: Ident, n: int)
    requires
        among_last(cache, key, n),
        n < limit,
    ensures
        among_last(one_done(r, cache, limit, t.program, t.reply, t.now).1, key, n + 1),
{
    reveal(one_done);
    let own = program_key(t.program).ident();
    crate::seqs::lemma_first_where_is(cache, |x: Item| x.key == own);
    assert(among_last(cache, key, n + 1));
    match item_at(cache, own) {
        Some(i) => {
            lemma_used_among_last(cache, i, key, n);
        },
        None => match t.reply {
            Reply::OnDisk { suggestions, stored_at } | Reply::Asked { suggestions, stored_at, .. } => {
                let item = Item { key: own, suggestions, stored_at };
                lemma_stored_among_last(cache, item, limit, key, n);
            },
        },
    }
}

/// As long as the limit reaches, turns do not drop what is remembered.
proof fn lemma_turns_keep(
    r: Run,
    cache: Seq<Item>,
    limit: nat,
    turns: Seq<Turn>,
    a: int,
    b: int,
    key: Ident,
    n: int,
)
    requires
        0 <= a <= b,
        among_last(all_done(r, cache, limit, turns, a).1, key, n),
        n + (b - a) <= limit,
    ensures
        among_last(all_done(r, cache, limit, turns, b).1, key, n + (b - a)),
    decreases b - a,
{
    if a < b {
        lemma_turns_keep(r, cache, limit, turns, a, b - 1, key, n);
        let (r1, c1) = all_done(r, cache, limit, turns, b - 1);
        lemma_turn_keeps(r1, c1, limit, turns[b - 1], key, n + (b - 1 - a));
    }
}

/// Two programs of a run that are one file both fail or both do not.
pub open spec fn fail_alike(
    r: Run,
    cache: Seq<Item>,
    limit: nat,
    turns: Seq<Turn>,
    i: int,
    j: int,
) -> bool {
    place(turns[i].program.path) == place(turns[j].program.path) ==> (outcome_at(
        r,
        cache,
        limit,
        turns,
        i,
    ) == Outcome::Failed) == (outcome_at(r, cache, limit, turns, j) == Outcome::Failed)
}

proof fn lemma_first_marks(
    r: Run,
    cache: Seq<Item>,
    limit: nat,
    turns: Seq<Turn>,
    n: int,
    from: u64,
    to: u64,
)
    requires
        to - from < DEFAULT_NEGATIVE_TTL,
        marks_fit(r, from, to),
        forall|i: int| 0 <= i < turns.len() ==> from <= (#[trigger] turns[i]).now <= to,
        forall|i: int, j: int|
            0 <= i < turns.len() && 0 <= j < turns.len() ==> #[trigger] fail_alike(
                r,
                cache,
                limit,
                turns,
                i,
                j,
            ),
        0 <= n <= turns.len(),
    ensures
        ({
            let (d, c) = all_done(r, cache, limit, turns, n);
            &&& marks_fit(d, from, to)
            &&& forall|i: int|
                0 <= i < n ==> held(d, place((#[trigger] turns[i]).program.path), from) == (outcome_at(
                    r,
                    cache,
                    limit,
                    turns,
                    i,
                ) == Outcome::Failed)
        }),
    decreases n,
{
    if n > 0 {
        lemma_first_marks(r, cache, limit, turns, n - 1, from, to);
        let (r1, c1) = all_done(r, cache, limit, turns, n - 1);
        let t = turns[n - 1];
        lemma_turn(r1, c1, limit, t, from, to);
        let d = all_done(r, cache, limit, turns, n).0;
        assert(d == one_done(r1, c1, limit, t.program, t.reply, t.now).0);
        assert forall|i: int| 0 <= i < n implies held(
            d,
            place((#[trigger] turns[i]).program.path),
            from,
        ) == (outcome_at(r, cache, limit, turns, i) == Outcome::Failed) by {
            assert(fail_alike(r, cache, limit, turns, i, n - 1));
        }
    }
}

/// What the first turns of a first run have left of each program that did not
/// fail: it is remembered, if the limit reaches so far.
proof fn lemma_first_remembers(
    r: Run,
    cache: Seq<Item>,
    limit: nat,
    turns: Seq<Turn>,
    i: int,
    from: u64,
    to: u64,
)
    requires
        to - from < DEFAULT_NEGATIVE_TTL,
        marks_fit(all_done(r, cache, limit, turns, i).0, from, to),
        from <= turns[i].now <= to,
        0 <= i < turns.len() <= limit,
        outcome_at(r, cache, limit, turns, i) != Outcome::Failed,
    ensures
        among_last(
            all_done(r, cache, limit, turns, turns.len() as int).1,
            program_key(turns[i].program).ident(),
            turns.len() - i,
        ),
{
    let (r1, c1) = all_done(r, cache, limit, turns, i);
    let key = program_key(turns[i].program).ident();
    lemma_turn(r1, c1, limit, turns[i], from, to);
    assert(all_done(r, cache, limit, turns, i + 1) == one_done(
        r1,
        c1,
        limit,
        turns[i].program,
        turns[i].reply,
        turns[i].now,
    ));
    lemma_turns_keep(r, cache, limit, turns, i + 1, turns.len() as int, key, 1);
}

/// The program that comes again is the same, and where it has not failed in the
/// first run, it is found on disk or the cache has room for all programs.
pub open spec fn comes_unchanged(
    outcome: Outcome,
    first: Turn,
    second: Turn,
    programs: nat,
    limit: nat,
) -> bool {
    &&& second.program == first.program
    &&& outcome == Outcome::Failed || programs <= limit || second.reply is OnDisk
}

/// A second run finds in the cache what the first one has found there or
/// indexed, and fails where that has failed. For that nothing may change between
/// the two: the same programs come in the same order before what has failed may
/// be asked again, and the cache has room for all of them, or else what has not
/// failed is found on disk. And of two programs that are one file not only one
/// may have failed, since a failure is held against the file.
pub proof fn law_second_run_counts_alike(
    r: Run,
    cache: Seq<Item>,
    limit: nat,
    first: Seq<Turn>,
    second: Seq<Turn>,
    began: u64,
    between: u64,
    from: u64,
    to: u64,
)
    requires
        to - from < DEFAULT_NEGATIVE_TTL,
        marks_fit(r, from, to),
        first.len() == second.len(),
        forall|i: int| 0 <= i < first.len() ==> from <= (#[trigger] first[i]).now <= to,
        forall|i: int| 0 <= i < first.len() ==> from <= (#[trigger] second[i]).now <= to,
        forall|i: int, j: int|
            0 <= i < first.len() && 0 <= j < first.len() ==> #[trigger] fail_alike(
                begun(r, began, Stage::Scanning),
                cache,
                limit,
                first,
                i,
                j,
            ),
        forall|i: int|
            0 <= i < first.len() ==> #[trigger] comes_unchanged(
                outcome_at(begun(r, began, Stage::Scanning), cache, limit, first, i),
                first[i],
                second[i],
                first.len(),
                limit,
            ),
    ensures
        ({
            let n = first.len() as int;
            let (r1, c1) = all_done(begun(r, began, Stage::Scanning), cache, limit, first, n);
            let r2 = all_done(begun(r1, between, Stage::Scanning), c1, limit, second, n).0;
            &&& r2.indexed == 0
            &&& r2.cached == r1.cached + r1.indexed
            &&& r2.progress.failed == r1.progress.failed
        }),
{
    let n = first.len() as int;
    let start = begun(r, began, Stage::Scanning);
    let (r1, c1) = all_done(start, cache, limit, first, n);
    lemma_each_counts(start, cache, limit, first, n);
    lemma_each_counts(begun(r1, between, Stage::Scanning), c1, limit, second, n);
    lemma_second_turns(start, cache, limit, first, second, between, n, from, to);
}

proof fn lemma_second_turns(
    start: Run,
    cache: Seq<Item>,
    limit: nat,
    first: Seq<Turn>,
    second: Seq<Turn>,
    between: u64,
    n: int,
    from: u64,
    to: u64,
)
    requires
        to - from < DEFAULT_NEGATIVE_TTL,
        marks_fit(start, from, to),
        start.progress.failed == 0,
        first.len() == second.len(),
        forall|i: int| 0 <= i < first.len() ==> from <= (#[trigger] first[i]).now <= to,
        forall|i: int| 0 <= i < first.len() ==> from <= (#[trigger] second[i]).now <= to,
        forall|i: int, j: int|
            0 <= i < first.len() && 0 <= j < first.len() ==> #[trigger] fail_alike(
                start,
                cache,
                limit,
                first,
                i,
                j,
            ),
        forall|i: int|
            0 <= i < first.len() ==> #[trigger] comes_unchanged(
                outcome_at(start, cache, limit, first, i),
                first[i],
                second[i],
                first.len(),
                limit,
            ),
        0 <= n <= first.len(),
    ensures
        ({
            let (r1, c1) = all_done(start, cache, limit, first, first.len() as int);
            let d = all_done(begun(r1, between, Stage::Scanning), c1, limit, second, n).0;
            &&& marks_fit(d, from, to)
            &&& forall|i: int|
                0 <= i < first.len() ==> held(d, place((#[trigger] first[i]).program.path), from) == (
                outcome_at(start, cache, limit, first, i) == Outcome::Failed)
            &&& d.indexed == 0
            &&& d.progress.failed == all_done(start, cache, limit, first, n).0.progress.failed
        }),
    decreases n,
{
    let (r1, c1) = all_done(start, cache, limit, first, first.len() as int);
    let again = begun(r1, between, Stage::Scanning);
    if n == 0 {
        lemma_first_marks(start, cache, limit, first, first.len() as int, from, to);
        assert(again.negative == r1.negative);
        assert forall|i: int| 0 <= i < first.len() implies held(
            again,
            place((#[trigger] first[i]).program.path),
            from,
        ) == (outcome_at(start, cache, limit, first, i) == Outcome::Failed) by {
            assert(held(r1, place(first[i].program.path), from) == held(
                again,
                place(first[i].program.path),
                from,
            ));
        }
    } else {
        let i = n - 1;
        lemma_second_turns(start, cache, limit, first, second, between, i, from, to);
        lemma_first_marks(start, cache, limit, first, i, from, to);
        let (a, b) = all_done(start, cache, limit, first, i);
        lemma_turn(a, b, limit, first[i], from, to);
        let (r2, c2) = all_done(again, c1, limit, second, i);
        lemma_turn(r2, c2, limit, second[i], from, to);
        let before = outcome_at(start, cache, limit, first, i);
        let outcome = outcome_of(r2, c2, second[i].program, second[i].reply, second[i].now);
        let here = place(second[i].program.path);
        assert(comes_unchanged(before, first[i], second[i], first.len(), limit));
        assert(held(r2, here, from) == (before == Outcome::Failed));
        if before != Outcome::Failed {
            if first.len() <= limit {
                let key = program_key(first[i].program).ident();
                lemma_first_remembers(start, cache, limit, first, i, from, to);
                lemma_turns_keep(again, c1, limit, second, 0, i, key, first.len() - i);
                lemma_among_last_found(c2, key, first.len() as int);
            }
            assert(!recently_failed(r2, second[i].program.path, second[i].now));
            assert(outcome == Outcome::Cached);
        }
        let d = all_done(again, c1, limit, second, n).0;
        assert forall|k: int| 0 <= k < first.len() implies held(
            d,
            place((#[trigger] first[k]).program.path),
            from,
        ) == (outcome_at(start, cache, limit, first, k) == Outcome::Failed) by {
            assert(fail_alike(start, cache, limit, first, k, i));
            let p = place(first[k].program.path);
            assert(held(r2, p, from) == (outcome_at(start, cache, limit, first, k)
                == Outcome::Failed));
        }
    }
}

} // verus!
