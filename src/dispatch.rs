//! The decisions of a bounded-concurrency probe run. The caller performs
//! the requests: it asks for the next step, starts the request that a step
//! names, and hands back each outcome as it completes.
use vstd::prelude::*;

use crate::classify::{accept, accepted};
use crate::filters::{ResponseFilters, RuleSet};
use crate::fuzz::{create_fuzzlist, target_of, FuzzResponse, FuzzlistError};
use crate::text::contains;

verus! {

/// What the caller does next.
#[derive(Debug)]
pub enum DispatchStep {
    /// Start the request for the target at `index`, whose URL is `url`.
    Start { index: usize, url: String },
    /// The budget is spent: wait for a request in flight to complete.
    Wait,
    /// Every target has been probed and every outcome handed back.
    Finished,
}

/// Bounded-concurrency dispatch over a list of target URLs, keeping the
/// outcomes that the rules accept.
pub struct Dispatcher {
    urls: Vec<String>,
    rules: ResponseFilters,
    budget: usize,
    next: usize,
    in_flight: usize,
    kept: Vec<FuzzResponse>,
    completed: Ghost<Seq<FuzzResponse>>,
    pending: Ghost<Set<usize>>,
    done: Ghost<Set<usize>>,
    order: Ghost<Seq<usize>>,
}

impl Dispatcher {
    /// The target URLs, in order.
    pub closed spec fn urls(&self) -> Seq<Seq<char>> {
        self.urls@.map_values(|u: String| u@)
    }

    pub closed spec fn rules(&self) -> RuleSet {
        self.rules@
    }

    /// Most requests in flight at once.
    pub closed spec fn budget(&self) -> nat {
        self.budget as nat
    }

    /// Number of targets whose request has been started.
    pub closed spec fn started(&self) -> nat {
        self.next as nat
    }

    /// Number of requests started and not yet completed.
    pub closed spec fn in_flight(&self) -> nat {
        self.in_flight as nat
    }

    /// Outcomes handed back so far, in completion order.
    pub closed spec fn completed(&self) -> Seq<FuzzResponse> {
        self.completed@
    }

    /// Indices of the targets whose request is in flight.
    pub closed spec fn pending(&self) -> Set<usize> {
        self.pending@
    }

    /// Indices of the targets whose outcome has been handed back.
    pub closed spec fn done(&self) -> Set<usize> {
        self.done@
    }

    /// Index of the target of each completed outcome, in completion order.
    pub closed spec fn order(&self) -> Seq<usize> {
        self.order@
    }

    /// Outcomes kept so far.
    pub closed spec fn kept(&self) -> Seq<FuzzResponse> {
        self.kept@
    }

    /// The run's invariant: never more requests in flight than the budget;
    /// every started request is in flight or completed; the kept outcomes
    /// are the accepted ones among the completed, in completion order.
    pub open spec fn wf(&self) -> bool {
        &&& self.budget() > 0
        &&& self.in_flight() <= self.budget()
        &&& self.started() <= self.urls().len()
        &&& self.completed().len() + self.in_flight() == self.started()
        &&& self.order().len() == self.completed().len()
        &&& forall|k: int|
            0 <= k < self.order().len() ==> {
                &&& (#[trigger] self.order()[k]) < self.urls().len()
                &&& self.done().contains(self.order()[k])
                &&& self.completed()[k].wf()
                &&& self.completed()[k].url@ == self.urls()[self.order()[k] as int]
            }
        &&& forall|k1: int, k2: int|
            0 <= k1 < k2 < self.order().len() ==> #[trigger] self.order()[k1] != #[trigger] self.order()[k2]
        &&& self.pending().finite()
        &&& self.pending().len() == self.in_flight()
        &&& forall|i: usize| #[trigger] self.pending().contains(i) ==> i < self.started()
        &&& forall|i: usize| #[trigger] self.done().contains(i) ==> i < self.started()
        &&& forall|i: usize|
            i < self.started() ==> (#[trigger] self.pending().contains(i) <==> !self.done().contains(
                i,
            ))
        &&& self.kept() == self.completed().filter(|o: FuzzResponse| accepted(o, self.rules()))
    }

    /// A run over `urls` with at most `concurrency` requests in flight.
    pub fn new(urls: Vec<String>, concurrency: usize, rules: ResponseFilters) -> (r: Dispatcher)
        requires
            concurrency > 0,
        ensures
            r.wf(),
            r.urls() == urls@.map_values(|u: String| u@),
            r.rules() == rules@,
            r.budget() == concurrency,
            r.started() == 0,
            r.in_flight() == 0,
            r.completed() == Seq::<FuzzResponse>::empty(),
            r.pending() == Set::<usize>::empty(),
            r.done() == Set::<usize>::empty(),
    {
        let r = Dispatcher {
            urls,
            rules,
            budget: concurrency,
            next: 0,
            in_flight: 0,
            kept: Vec::new(),
            completed: Ghost(Seq::empty()),
            pending: Ghost(Set::empty()),
            done: Ghost(Set::empty()),
            order: Ghost(Seq::empty()),
        };
        proof {
            reveal(Seq::filter);
            assert(r.kept@ =~= r.completed@.filter(|o: FuzzResponse| accepted(o, r.rules@)));
        }
        r
    }

    /// A run over the targets of `template`, one per word in order; a
    /// template without `FUZZ` is refused before anything is started.
    pub fn for_template(
        template: &str,
        words: Vec<String>,
        concurrency: usize,
        rules: ResponseFilters,
    ) -> (r: Result<Dispatcher, FuzzlistError>)
        requires
            concurrency > 0,
        ensures
            r is Err <==> !contains(template@, crate::fuzz::placeholder()),
            r matches Ok(d) ==> {
                &&& d.wf()
                &&& d.urls().len() == words@.len()
                &&& forall|i: int|
                    0 <= i < words@.len() ==> #[trigger] d.urls()[i] == target_of(
                        template@,
                        words@[i]@,
                    )
                &&& d.rules() == rules@
                &&& d.budget() == concurrency
                &&& d.started() == 0
                &&& d.in_flight() == 0
                &&& d.completed() == Seq::<FuzzResponse>::empty()
            },
    {
        match create_fuzzlist(template, words) {
            Ok(urls) => Ok(Dispatcher::new(urls, concurrency, rules)),
            Err(e) => Err(e),
        }
    }

    /// Whether requests must read the body for the rules to classify it.
    pub fn needs_body(&self) -> (r: bool)
        ensures
            r == (self.rules().line_matches is Some || self.rules().line_filters is Some),
    {
        self.rules.needs_body()
    }

    /// The next step. A request starts as soon as the budget allows and a
    /// target is left; the run is finished once every target is started and
    /// nothing is in flight; otherwise the caller waits.
    pub fn step(&mut self) -> (r: DispatchStep)
        requires
            old(self).wf(),
        ensures
            final(self).wf(),
            final(self).urls() == old(self).urls(),
            final(self).rules() == old(self).rules(),
            final(self).budget() == old(self).budget(),
            final(self).completed() == old(self).completed(),
            final(self).kept() == old(self).kept(),
            final(self).done() == old(self).done(),
            final(self).order() == old(self).order(),
            if old(self).in_flight() < old(self).budget() && old(self).started() < old(
                self,
            ).urls().len() {
                &&& r matches DispatchStep::Start { index, url }
                &&& index == old(self).started()
                &&& url@ == old(self).urls()[index as int]
                &&& final(self).started() == old(self).started() + 1
                &&& final(self).in_flight() == old(self).in_flight() + 1
                &&& final(self).pending() == old(self).pending().insert(index)
            } else {
                &&& final(self).started() == old(self).started()
                &&& final(self).in_flight() == old(self).in_flight()
                &&& final(self).pending() == old(self).pending()
                &&& if old(self).in_flight() == 0 {
                    r is Finished
                } else {
                    r is Wait
                }
            },
    {
        if self.in_flight < self.budget && self.next < self.urls.len() {
            let index: usize = self.next;
            let url = self.urls[index].clone();
            proof {
                assert(!self.pending@.contains(index));
            }
            self.next = self.next + 1;
            self.in_flight = self.in_flight + 1;
            self.pending = Ghost(self.pending@.insert(index));
            proof {
                assert forall|i: usize| i < self.next implies (#[trigger] self.pending@.contains(i)
                    <==> !self.done@.contains(i)) by {
                    if i < index {
                        assert(old(self).pending@.contains(i) <==> !old(self).done@.contains(i));
                    }
                }
                assert(self.urls() == old(self).urls());
                assert forall|i: usize| #[trigger] self.done().contains(i) implies i
                    < self.started() by {
                    assert(old(self).done().contains(i));
                }
                assert forall|k: int| 0 <= k < self.order().len() implies {
                    &&& (#[trigger] self.order()[k]) < self.urls().len()
                    &&& self.done().contains(self.order()[k])
                    &&& self.completed()[k].wf()
                    &&& self.completed()[k].url@ == self.urls()[self.order()[k] as int]
                } by {
                    assert(old(self).order()[k] < old(self).urls().len());
                }
            }
            DispatchStep::Start { index, url }
        } else if self.in_flight == 0 {
            DispatchStep::Finished
        } else {
            DispatchStep::Wait
        }
    }

    /// Hands back the outcome of the request in flight for the target at
    /// `index`; it is kept if the rules accept it. Each target is handed
    /// back once.
    pub fn complete(&mut self, index: usize, outcome: FuzzResponse)
        requires
            old(self).wf(),
            old(self).pending().contains(index),
            outcome.wf(),
            outcome.url@ == old(self).urls()[index as int],
        ensures
            final(self).order() == old(self).order().push(index),
            final(self).pending() == old(self).pending().remove(index),
            final(self).done() == old(self).done().insert(index),
            final(self).wf(),
            final(self).urls() == old(self).urls(),
            final(self).rules() == old(self).rules(),
            final(self).budget() == old(self).budget(),
            final(self).started() == old(self).started(),
            final(self).in_flight() == old(self).in_flight() - 1,
            final(self).completed() == old(self).completed().push(outcome),
            final(self).kept() == if accepted(outcome, old(self).rules()) {
                old(self).kept().push(outcome)
            } else {
                old(self).kept()
            },
    {
        let ghost before = self.completed@;
        let ghost rules = self.rules@;
        let keep = accept(&outcome, &self.rules);
        proof {
            assert(self.pending@.len() > 0) by {
                if self.pending@.len() == 0 {
                    self.pending@.lemma_len0_is_empty();
                }
            }
        }
        self.in_flight = self.in_flight - 1;
        self.pending = Ghost(self.pending@.remove(index));
        self.done = Ghost(self.done@.insert(index));
        self.order = Ghost(self.order@.push(index));
        self.completed = Ghost(self.completed@.push(outcome));
        if keep {
            self.kept.push(outcome);
        }
        proof {
            reveal(Seq::filter);
            let p = |o: FuzzResponse| accepted(o, rules);
            assert(before.push(outcome).drop_last() =~= before);
            assert(before.push(outcome).filter(p) == if p(outcome) {
                before.filter(p).push(outcome)
            } else {
                before.filter(p)
            });
        }
    }

    /// The kept outcomes: those the rules accept, in completion order.
    pub fn into_results(self) -> (r: Vec<FuzzResponse>)
        requires
            self.wf(),
        ensures
            r@ == self.completed().filter(|o: FuzzResponse| accepted(o, self.rules())),
            forall|k: int|
                0 <= k < r@.len() ==> {
                    &&& accepted(#[trigger] r@[k], self.rules())
                    &&& r@[k].wf()
                    &&& exists|i: int| 0 <= i < self.urls().len() && r@[k].url@ == self.urls()[i]
                },
    {
        proof {
            let p = |o: FuzzResponse| accepted(o, self.rules());
            assert forall|k: int| 0 <= k < self.kept@.len() implies {
                &&& accepted(#[trigger] self.kept@[k], self.rules())
                &&& self.kept@[k].wf()
                &&& exists|i: int| 0 <= i < self.urls().len() && self.kept@[k].url@ == self.urls()[i]
            } by {
                let o = self.kept@[k];
                assert(self.completed@.filter(p).contains(o));
                self.completed@.lemma_filter_contains_rev(p, o);
                self.completed@.lemma_filter_pred(p, k);
                let j = choose|j: int| 0 <= j < self.completed@.len() && self.completed@[j] == o;
                assert(self.order@[j] < self.urls().len());
            }
        }
        self.kept
    }
}

/// Once a run is finished, every target has been handed back exactly once:
/// none is still in flight and each index is done.
pub proof fn lemma_finished_run_is_complete(d: Dispatcher)
    requires
        d.wf(),
        d.started() == d.urls().len(),
        d.in_flight() == 0,
    ensures
        d.pending() == Set::<usize>::empty(),
        forall|i: usize| i < d.urls().len() <==> #[trigger] d.done().contains(i),
{
    d.pending().lemma_len0_is_empty();
    assert forall|i: usize| i < d.urls().len() <==> #[trigger] d.done().contains(i) by {
        if i < d.urls().len() {
            assert(!d.pending().contains(i));
        }
    }
}

/// A finished run over two distinct targets `a` and `b`, under the rules
/// that only filter out status 404, in which the outcome for `a` has status
/// 200 and length 10 and the outcome for `b` has status 404, reports exactly
/// the outcome for `a`, whatever the budget and the order of completion.
pub proof fn lemma_filter_status_run(d: Dispatcher)
    requires
        d.wf(),
        d.urls().len() == 2,
        d.urls()[0] != d.urls()[1],
        d.started() == 2,
        d.in_flight() == 0,
        d.rules() == (RuleSet {
            status_matches: None,
            size_matches: None,
            line_matches: None,
            status_filters: Some(seq![404u16]),
            size_filters: None,
            line_filters: None,
        }),
        forall|k: int|
            0 <= k < d.completed().len() && (#[trigger] d.completed()[k]).url@ == d.urls()[0] ==> {
                &&& d.completed()[k].status_code == Some(200u16)
                &&& d.completed()[k].content_length == Some(10u64)
            },
        forall|k: int|
            0 <= k < d.completed().len() && (#[trigger] d.completed()[k]).url@ == d.urls()[1]
                ==> d.completed()[k].status_code == Some(404u16),
    ensures
        ({
            let out = d.completed().filter(|o: FuzzResponse| accepted(o, d.rules()));
            &&& out.len() == 1
            &&& out[0].url@ == d.urls()[0]
            &&& out[0].status_code == Some(200u16)
            &&& out[0].content_length == Some(10u64)
            &&& !out[0].request_error
        }),
{
    let c = d.completed();
    let p = |o: FuzzResponse| accepted(o, d.rules());
    assert(c.len() == 2);
    let o = d.order();
    assert(o[0] != o[1]);
    let (ia, ib) = if o[0] == 0 {
        (0int, 1int)
    } else {
        (1int, 0int)
    };
    assert(o[ia] == 0 && o[ib] == 1);
    let a = c[ia];
    let b = c[ib];
    assert(a.url@ == d.urls()[0]);
    assert(b.url@ == d.urls()[1]);
    assert(a.status_code == Some(200u16));
    assert(b.status_code == Some(404u16));
    assert(!seq![404u16].contains(200u16)) by {
        if seq![404u16].contains(200u16) {
            let j = choose|j: int| 0 <= j < 1 && seq![404u16][j] == 200u16;
        }
    }
    assert(seq![404u16][0] == 404u16);
    assert(!p(b));
    assert(p(a));
    reveal_with_fuel(Seq::filter, 3);
    assert(c.drop_last().drop_last() =~= Seq::<FuzzResponse>::empty());
    if ia == 0 {
        assert(c.filter(p) =~= seq![a]) by {
            assert(c.drop_last() =~= seq![a]);
            assert(seq![a].drop_last() =~= Seq::<FuzzResponse>::empty());
        }
    } else {
        assert(c.filter(p) =~= seq![a]) by {
            assert(c.drop_last() =~= seq![b]);
            assert(seq![b].drop_last() =~= Seq::<FuzzResponse>::empty());
        }
    }
}

/// At every state of a run, no more requests are in flight than the
/// budget allows.
pub proof fn lemma_in_flight_within_budget(d: Dispatcher)
    requires
        d.wf(),
    ensures
        d.in_flight() <= d.budget(),
{
}

} // verus!
