//! Keeps count of the questions that workers are answering.
//!
//! The threads and the queue are not kept here: this says whether a question
//! still matters, and what of it is left to do.

use crate::completion::{GenerationId, ProviderErr, Suggestion};
use std::collections::HashMap;
use vstd::prelude::*;

verus! {

broadcast use vstd::std_specs::hash::group_hash_axioms;

/// What is left of a generation of questions.
struct Work {
    left: usize,
    providers: Vec<usize>,
}

impl Work {
    /// No more questions are left than providers were asked.
    #[verifier::type_invariant]
    spec fn counted(&self) -> bool {
        self.left <= self.providers@.len()
    }
}

/// The generations of questions that are being answered.
pub struct WorkerPool {
    work: HashMap<u64, Work>,
}

/// What is left of a generation: how many questions, and the providers that
/// were asked.
#[verifier::ext_equal]
pub ghost struct Left {
    pub left: nat,
    pub providers: Seq<usize>,
}

impl View for Work {
    type V = Left;

    closed spec fn view(&self) -> Left {
        Left { left: self.left as nat, providers: self.providers@ }
    }
}

impl View for WorkerPool {
    type V = Map<u64, Left>;

    closed spec fn view(&self) -> Map<u64, Left> {
        self.work@.map_values(|w: Work| w@)
    }
}

/// One more question of a generation.
pub open spec fn submitted(m: Map<u64, Left>, g: u64, provider: usize) -> Map<u64, Left> {
    if m.contains_key(g) {
        m.insert(
            g,
            Left { left: m[g].left + 1, providers: m[g].providers.push(provider) },
        )
    } else {
        m.insert(g, Left { left: 1, providers: seq![provider] })
    }
}

/// One question less of a generation, which is over with its last one.
pub open spec fn finished(m: Map<u64, Left>, g: u64) -> Map<u64, Left> {
    if m.contains_key(g) && m[g].left > 1 {
        m.insert(g, Left { left: (m[g].left - 1) as nat, providers: m[g].providers })
    } else {
        m.remove(g)
    }
}

/// How many threads are started.
pub fn worker_count(num_workers: usize) -> (r: usize)
    ensures
        r == (if num_workers < 1 {
            1
        } else {
            num_workers
        }),
{
    if num_workers < 1 {
        1
    } else {
        num_workers
    }
}

impl WorkerPool {
    pub fn new() -> (r: Self)
        ensures
            r@ == Map::<u64, Left>::empty(),
    {
        let r = WorkerPool { work: HashMap::new() };
        assert(r@ =~= Map::<u64, Left>::empty());
        r
    }

    /// Takes one more question, for the provider with this number.
    pub fn submit(&mut self, gen_id: GenerationId, provider: usize)
        ensures
            final(self)@ == submitted(old(self)@, gen_id.0, provider),
    {
        let ghost before = self.work@;
        match self.work.remove(&gen_id.0) {
            Some(w) => {
                proof {
                    use_type_invariant(&w);
                }
                assert(old(self)@[gen_id.0] == w@);
                let mut providers: Vec<usize> = w.providers;
                let left: usize = w.left;
                providers.push(provider);
                let asked: usize = providers.len();
                assert(left < asked);
                self.work.insert(gen_id.0, Work { left: left + 1, providers });
            },
            None => {
                let mut providers: Vec<usize> = Vec::new();
                providers.push(provider);
                assert(providers@ =~= seq![provider]);
                self.work.insert(gen_id.0, Work { left: 1, providers });
            },
        }
        assert(self@ =~= submitted(old(self)@, gen_id.0, provider));
    }

    /// Gives a generation up. Returns the providers that were asked, to be
    /// told of it.
    pub fn cancel(&mut self, gen_id: GenerationId) -> (r: Vec<usize>)
        ensures
            final(self)@ == old(self)@.remove(gen_id.0),
            r@ == (if old(self)@.contains_key(gen_id.0) {
                old(self)@[gen_id.0].providers
            } else {
                seq![]
            }),
    {
        let r: Vec<usize> = match self.work.remove(&gen_id.0) {
            Some(w) => {
                assert(old(self)@[gen_id.0] == w@);
                w.providers
            },
            None => Vec::new(),
        };
        assert(self@ =~= old(self)@.remove(gen_id.0));
        r
    }

    /// Whether the answers of a generation are still wanted.
    pub fn is_active(&self, gen_id: GenerationId) -> (b: bool)
        ensures
            b == self@.contains_key(gen_id.0),
    {
        self.work.contains_key(&gen_id.0)
    }

    /// Takes that one question of a generation is done.
    pub fn finish_generation(&mut self, gen_id: GenerationId)
        ensures
            final(self)@ == finished(old(self)@, gen_id.0),
    {
        if let Some(w) = self.work.remove(&gen_id.0) {
            proof {
                use_type_invariant(&w);
            }
            assert(old(self)@[gen_id.0] == w@);
            if w.left > 1 {
                self.work.insert(gen_id.0, Work { left: w.left - 1, providers: w.providers });
            }
        }
        assert(self@ =~= finished(old(self)@, gen_id.0));
    }

    /// What is handed on of a provider's answer: an error is an empty answer,
    /// and one that is not wanted any more is none at all. The question is
    /// done either way.
    pub fn answered(
        &mut self,
        gen_id: GenerationId,
        result: Result<Vec<Suggestion>, ProviderErr>,
    ) -> (r: Option<Vec<Suggestion>>)
        ensures
            final(self)@ == finished(old(self)@, gen_id.0),
            if old(self)@.contains_key(gen_id.0) {
                r is Some && r->0@ == (match result {
                    Ok(s) => s@,
                    Err(_) => seq![],
                })
            } else {
                r is None
            },
    {
        let active: bool = self.is_active(gen_id);
        self.finish_generation(gen_id);
        if !active {
            return None;
        }
        match result {
            Ok(s) => Some(s),
            Err(_) => Some(Vec::new()),
        }
    }
}

/// What one generation does leaves the others alone.
pub proof fn law_generations_apart(m: Map<u64, Left>, g: u64, other: u64, provider: usize)
    requires
        g != other,
    ensures
        submitted(m, g, provider).contains_key(other) == m.contains_key(other),
        finished(m, g).contains_key(other) == m.contains_key(other),
        m.remove(g).contains_key(other) == m.contains_key(other),
        m.contains_key(other) ==> submitted(m, g, provider)[other] == m[other] && finished(
            m,
            g,
        )[other] == m[other],
{
}

/// A generation with `n` questions: `submitted`, one after the other.
pub open spec fn all_submitted(m: Map<u64, Left>, g: u64, providers: Seq<usize>) -> Map<u64, Left>
    decreases providers.len(),
{
    if providers.len() == 0 {
        m
    } else {
        submitted(all_submitted(m, g, providers.drop_last()), g, providers.last())
    }
}

/// `finished`, `n` times.
pub open spec fn all_finished(m: Map<u64, Left>, g: u64, n: nat) -> Map<u64, Left>
    decreases n,
{
    if n == 0 {
        m
    } else {
        all_finished(finished(m, g), g, (n - 1) as nat)
    }
}

proof fn lemma_all_submitted(m: Map<u64, Left>, g: u64, providers: Seq<usize>)
    requires
        !m.contains_key(g),
        providers.len() > 0,
    ensures
        all_submitted(m, g, providers) == m.insert(
            g,
            Left { left: providers.len(), providers },
        ),
    decreases providers.len(),
{
    let rest = providers.drop_last();
    if rest.len() == 0 {
        assert(all_submitted(m, g, rest) == m);
        assert(providers =~= seq![providers.last()]);
    } else {
        lemma_all_submitted(m, g, rest);
        assert(rest.push(providers.last()) =~= providers);
        assert(all_submitted(m, g, providers) =~= m.insert(
            g,
            Left { left: providers.len(), providers },
        ));
    }
}

proof fn lemma_all_finished(m: Map<u64, Left>, g: u64, n: nat)
    requires
        m.contains_key(g),
        m[g].left >= n,
        m[g].left >= 1,
    ensures
        all_finished(m, g, n).contains_key(g) == (n < m[g].left),
        all_finished(m, g, n).remove(g) == m.remove(g),
    decreases n,
{
    if n > 0 {
        let next = finished(m, g);
        assert(next.remove(g) =~= m.remove(g));
        if m[g].left > 1 {
            lemma_all_finished(next, g, (n - 1) as nat);
        } else {
            assert(n == 1);
            assert(all_finished(next, g, 0) == next);
        }
    }
}

/// The answers of a generation are wanted until each of its questions is done,
/// and not after that.
pub proof fn law_active_until_done(m: Map<u64, Left>, g: u64, providers: Seq<usize>, n: nat)
    requires
        !m.contains_key(g),
        n <= providers.len(),
        providers.len() > 0,
    ensures
        all_finished(all_submitted(m, g, providers), g, n).contains_key(g) == (n
            < providers.len()),
        n == providers.len() ==> all_finished(all_submitted(m, g, providers), g, n) == m,
{
    lemma_all_submitted(m, g, providers);
    let full = all_submitted(m, g, providers);
    lemma_all_finished(full, g, n);
    if n == providers.len() {
        let end = all_finished(full, g, n);
        assert(end =~= end.remove(g));
        assert(full.remove(g) =~= m);
    }
}

} // verus!
