//! One pass that brings the providers to where they are desired to be.

use crate::coexistence;
use crate::coexistence::{Bins, ResolverStep};
use crate::dns::DnsBackend;
use crate::provider;
use crate::provider::{AnyProvider, Availability, AvailabilityView, Provider, ProviderStatusView};
use crate::runner;
use crate::runner::{Reply, Request, Run, Runner};
use crate::types;
use crate::types::{Error, ErrorView, ProviderId, ProviderSet};
use vstd::prelude::*;

verus! {

/// What was being done when an error came up.
#[derive(Debug, Clone, Copy, PartialEq, Eq, Structural)]
pub enum Action {
    Activate(ProviderId),
    Deactivate(ProviderId),
    Coexistence,
}

/// An error that did not stop the pass.
#[derive(Debug, Clone, PartialEq)]
pub struct Failure {
    pub action: Action,
    pub error: Error,
}

#[derive(Debug, Clone, PartialEq)]
pub struct Outcome {
    pub active: ProviderSet,
    /// Every provider that could be engaged right now, desired or not.
    pub available: ProviderSet,
    /// The desired providers that could not be engaged, with the reason.
    pub unavailable: Vec<(ProviderId, String)>,
    /// The active providers that were not active in the pass before.
    pub newly_active: ProviderSet,
    /// What is left to do about `resolv.conf`.
    pub resolver: ResolverStep,
    /// The errors of this pass, in order.
    pub failures: Vec<Failure>,
}

pub struct OutcomeView {
    pub active: Set<ProviderId>,
    pub available: Set<ProviderId>,
    pub unavailable: Seq<(ProviderId, Seq<char>)>,
    pub newly_active: Set<ProviderId>,
    pub resolver: ResolverStep,
    pub failures: Seq<(Action, ErrorView)>,
}

pub open spec fn reasons(v: Seq<(ProviderId, String)>) -> Seq<(ProviderId, Seq<char>)> {
    v.map_values(|x: (ProviderId, String)| (x.0, x.1@))
}

pub open spec fn failed(v: Seq<Failure>) -> Seq<(Action, ErrorView)> {
    v.map_values(|x: Failure| (x.action, x.error@))
}

impl View for Outcome {
    type V = OutcomeView;

    open spec fn view(&self) -> OutcomeView {
        OutcomeView {
            active: self.active@,
            available: self.available@,
            unavailable: reasons(self.unavailable@),
            newly_active: self.newly_active@,
            resolver: self.resolver,
            failures: failed(self.failures@),
        }
    }
}

/// What one provider contributes to a pass.
pub struct Visit {
    pub active: bool,
    pub available: bool,
    pub unavailable: Option<Seq<char>>,
    pub failure: Option<(Action, ErrorView)>,
}

pub open spec fn failure_of(action: Action, out: Result<(), ErrorView>) -> Option<
    (Action, ErrorView),
> {
    match out {
        Ok(_) => None,
        Err(e) => Some((action, e)),
    }
}

/// What is done with one provider. Its state is read once; it is read again only after an
/// activation.
pub open spec fn visit_run<P: Provider>(p: P, want: bool, replies: Seq<Reply>) -> Run<Visit> {
    let probe = p.status_run(replies);
    let after_probe = replies.skip(probe.requests.len() as int);
    let available = probe.out.availability is Available;
    if want {
        match probe.out.availability {
            AvailabilityView::Unavailable(reason) => Run {
                requests: probe.requests,
                out: Visit { active: false, available, unavailable: Some(reason), failure: None },
            },
            AvailabilityView::Available => if probe.out.active {
                Run {
                    requests: probe.requests,
                    out: Visit { active: true, available, unavailable: None, failure: None },
                }
            } else {
                let act = p.activate_run(after_probe);
                let again = p.status_run(after_probe.skip(act.requests.len() as int));
                Run {
                    requests: probe.requests + act.requests + again.requests,
                    out: Visit {
                        active: again.out.active,
                        available,
                        unavailable: None,
                        failure: failure_of(Action::Activate(p.ident()), act.out),
                    },
                }
            },
        }
    } else if probe.out.active {
        let act = p.deactivate_run(after_probe);
        Run {
            requests: probe.requests + act.requests,
            out: Visit {
                active: false,
                available,
                unavailable: None,
                failure: failure_of(Action::Deactivate(p.ident()), act.out),
            },
        }
    } else {
        Run {
            requests: probe.requests,
            out: Visit { active: false, available, unavailable: None, failure: None },
        }
    }
}

/// What the visits of all providers come to.
pub struct Pass {
    pub active: Set<ProviderId>,
    pub available: Set<ProviderId>,
    pub unavailable: Seq<(ProviderId, Seq<char>)>,
    pub failures: Seq<(Action, ErrorView)>,
}

pub open spec fn with_visit(pass: Pass, id: ProviderId, visit: Visit) -> Pass {
    Pass {
        active: if visit.active {
            pass.active.insert(id)
        } else {
            pass.active
        },
        available: if visit.available {
            pass.available.insert(id)
        } else {
            pass.available
        },
        unavailable: match visit.unavailable {
            Some(reason) => pass.unavailable.push((id, reason)),
            None => pass.unavailable,
        },
        failures: match visit.failure {
            Some(f) => pass.failures.push(f),
            None => pass.failures,
        },
    }
}

/// The visits of all providers, in order.
pub open spec fn pass_run<P: Provider>(
    desired: Set<ProviderId>,
    providers: Seq<P>,
    replies: Seq<Reply>,
) -> Run<Pass>
    decreases providers.len(),
{
    if providers.len() == 0 {
        Run {
            requests: Seq::empty(),
            out: Pass {
                active: Set::empty(),
                available: Set::empty(),
                unavailable: Seq::empty(),
                failures: Seq::empty(),
            },
        }
    } else {
        let p = providers.last();
        let a = pass_run(desired, providers.drop_last(), replies);
        let b = visit_run(
            p,
            desired.contains(p.ident()),
            replies.skip(a.requests.len() as int),
        );
        Run { requests: a.requests + b.requests, out: with_visit(a.out, p.ident(), b.out) }
    }
}

/// What `reconcile` does: all visits, then what the active providers ask for.
pub open spec fn reconcile_run<P: Provider>(
    desired: Set<ProviderId>,
    providers: Seq<P>,
    prev_active: Set<ProviderId>,
    bins: Bins,
    backend: DnsBackend,
    replies: Seq<Reply>,
) -> Run<OutcomeView> {
    let pass = pass_run(desired, providers, replies);
    let newly_active = pass.out.active.difference(prev_active);
    let applied = coexistence::apply_run(
        pass.out.active,
        newly_active,
        bins,
        backend,
        replies.skip(pass.requests.len() as int),
    );
    Run {
        requests: pass.requests + applied.requests,
        out: OutcomeView {
            active: pass.out.active,
            available: pass.out.available,
            unavailable: pass.out.unavailable,
            newly_active,
            resolver: match applied.out {
                Ok(step) => step,
                Err(_) => ResolverStep::Leave,
            },
            failures: match applied.out {
                Ok(_) => pass.out.failures,
                Err(e) => pass.out.failures.push((Action::Coexistence, e)),
            },
        },
    }
}

/// Only the replies to a visit's own commands matter to it.
proof fn lemma_visit_is_local<P: Provider>(
    p: P,
    want: bool,
    replies: Seq<Reply>,
    more: Seq<Reply>,
)
    requires
        visit_run(p, want, replies).requests.len() <= replies.len(),
    ensures
        visit_run(p, want, replies + more) == visit_run(p, want, replies),
{
    let probe = p.status_run(replies);
    let n = probe.requests.len() as int;
    p.replies_are_own(replies, more);
    let rest = replies.skip(n);
    assert((replies + more).skip(n) == rest + more);
    p.replies_are_own(rest, more);
    if want && probe.out.availability is Available && !probe.out.active {
        let act = p.activate_run(rest);
        let m = act.requests.len() as int;
        assert((rest + more).skip(m) == rest.skip(m) + more);
        p.replies_are_own(rest.skip(m), more);
    }
}

/// Only the replies to a pass's own commands matter to it.
proof fn lemma_pass_is_local<P: Provider>(
    desired: Set<ProviderId>,
    providers: Seq<P>,
    replies: Seq<Reply>,
    more: Seq<Reply>,
)
    requires
        pass_run(desired, providers, replies).requests.len() <= replies.len(),
    ensures
        pass_run(desired, providers, replies + more) == pass_run(desired, providers, replies),
    decreases providers.len(),
{
    if providers.len() > 0 {
        let p = providers.last();
        let a = pass_run(desired, providers.drop_last(), replies);
        let n = a.requests.len() as int;
        lemma_pass_is_local(desired, providers.drop_last(), replies, more);
        assert((replies + more).skip(n) == replies.skip(n) + more);
        lemma_visit_is_local(p, desired.contains(p.ident()), replies.skip(n), more);
    }
}

struct Visited {
    active: bool,
    available: bool,
    unavailable: Option<String>,
    failure: Option<Failure>,
}

impl View for Visited {
    type V = Visit;

    closed spec fn view(&self) -> Visit {
        Visit {
            active: self.active,
            available: self.available,
            unavailable: match self.unavailable {
                Some(reason) => Some(reason@),
                None => None,
            },
            failure: match self.failure {
                Some(f) => Some((f.action, f.error@)),
                None => None,
            },
        }
    }
}

fn failure_for(action: Action, res: Result<(), Error>) -> (out: Option<Failure>)
    ensures
        match out {
            Some(f) => failure_of(action, provider::done(res)) == Some((f.action, f.error@)),
            None => failure_of(action, provider::done(res)) is None,
        },
{
    match res {
        Ok(()) => None,
        Err(error) => Some(Failure { action, error }),
    }
}

/// Looks at one provider and engages or disengages it where it is not where it should be.
fn visit<P: Provider, R: Runner>(p: &P, want: bool, r: &mut R) -> (res: Visited)
    ensures
        runner::did(
            *old(r),
            *final(r),
            visit_run(*p, want, runner::told(old(r).history(), final(r).history())),
            res@,
        ),
{
    let ghost r0 = *r;
    let ghost h0 = r.history();
    let probe = p.status(r);
    let ghost r1 = *r;
    let ghost h1 = r.history();
    let ghost t1 = runner::told(h0, h1);
    if want {
        match probe.availability {
            Availability::Unavailable(reason) => {
                return Visited {
                    active: false,
                    available: false,
                    unavailable: Some(reason),
                    failure: None,
                };
            },
            Availability::Available => {},
        }
        if probe.active {
            return Visited { active: true, available: true, unavailable: None, failure: None };
        }
        let acted = p.activate(r);
        let ghost r2 = *r;
        let ghost h2 = r.history();
        let ghost t2 = runner::told(h1, h2);
        let active = p.is_active(r);
        let ghost r3 = *r;
        let ghost h3 = r.history();
        let ghost t3 = runner::told(h2, h3);
        proof {
            runner::lemma_chain(h0, h1, h2);
            runner::lemma_obeyed(r0, r1, r2);
            runner::lemma_chain(h0, h2, h3);
            runner::lemma_obeyed(r0, r2, r3);
            runner::lemma_chain(h1, h2, h3);
            runner::lemma_obeyed(r1, r2, r3);
            let all = runner::told(h0, h3);
            p.replies_are_own(t1, t2 + t3);
            p.replies_are_own(t2, t3);
            assert(all == t1 + (t2 + t3));
            assert(all.skip(t1.len() as int) == t2 + t3);
            assert((t2 + t3).skip(t2.len() as int) == t3);
        }
        return Visited {
            active,
            available: true,
            unavailable: None,
            failure: failure_for(Action::Activate(p.id()), acted),
        };
    }
    let available = match probe.availability {
        Availability::Available => true,
        Availability::Unavailable(_) => false,
    };
    if probe.active {
        let acted = p.deactivate(r);
        let ghost r2 = *r;
        let ghost h2 = r.history();
        let ghost t2 = runner::told(h1, h2);
        proof {
            runner::lemma_chain(h0, h1, h2);
            runner::lemma_obeyed(r0, r1, r2);
            p.replies_are_own(t1, t2);
            assert(runner::told(h0, h2).skip(t1.len() as int) == t2);
        }
        return Visited {
            active: false,
            available,
            unavailable: None,
            failure: failure_for(Action::Deactivate(p.id()), acted),
        };
    }
    Visited { active: false, available, unavailable: None, failure: None }
}

/// One convergence pass. Every provider's state is read once; a provider is engaged or
/// disengaged only where its state and the desired set differ, and an error with one
/// provider does not stop the others.
pub fn reconcile<P: Provider, R: Runner>(
    desired: &ProviderSet,
    providers: &Vec<P>,
    prev_active: &ProviderSet,
    bins: &Bins,
    backend: DnsBackend,
    r: &mut R,
) -> (res: Outcome)
    ensures
        runner::did(
            *old(r),
            *final(r),
            reconcile_run(
                desired@,
                providers@,
                prev_active@,
                *bins,
                backend,
                runner::told(old(r).history(), final(r).history()),
            ),
            res@,
        ),
{
    let ghost r0 = *r;
    let ghost h0 = r.history();
    let mut active = ProviderSet::new();
    let mut available = ProviderSet::new();
    let mut unavailable: Vec<(ProviderId, String)> = Vec::new();
    let mut failures: Vec<Failure> = Vec::new();
    let mut i: usize = 0;
    proof {
        runner::lemma_none(h0);
        assert(reasons(unavailable@) == Seq::<(ProviderId, Seq<char>)>::empty());
        assert(failed(failures@) == Seq::<(Action, ErrorView)>::empty());
    }
    while i < providers.len()
        invariant
            i <= providers.len(),
            h0 == r0.history(),
            h0.is_prefix_of(r.history()),
            runner::obeyed(r0, *r),
            pass_run(desired@, providers@.take(i as int), runner::told(h0, r.history())).requests
                == runner::asked(h0, r.history()),
            pass_run(desired@, providers@.take(i as int), runner::told(h0, r.history())).out == (
            Pass {
                active: active@,
                available: available@,
                unavailable: reasons(unavailable@),
                failures: failed(failures@),
            }),
        decreases providers.len() - i,
    {
        let ghost r1 = *r;
        let ghost h1 = r.history();
        let ghost before = Pass {
            active: active@,
            available: available@,
            unavailable: reasons(unavailable@),
            failures: failed(failures@),
        };
        let p = &providers[i];
        let id = p.id();
        let visited = visit(p, desired.contains(&id), r);
        let ghost v = visited@;
        let ghost r2 = *r;
        let ghost h2 = r.history();
        proof {
            runner::lemma_chain(h0, h1, h2);
            runner::lemma_obeyed(r0, r1, r2);
            let t1 = runner::told(h0, h1);
            let t2 = runner::told(h1, h2);
            let seen = providers@.take(i + 1);
            assert(seen.drop_last() == providers@.take(i as int));
            assert(seen.last() == *p);
            lemma_pass_is_local(desired@, seen.drop_last(), t1, t2);
            assert((t1 + t2).skip(t1.len() as int) == t2);
            assert(pass_run(desired@, seen, t1 + t2).out == with_visit(before, id, v));
        }
        if visited.available {
            available.insert(id);
        }
        if visited.active {
            active.insert(id);
        }
        let ghost unavailable_before = unavailable@;
        if let Some(reason) = visited.unavailable {
            unavailable.push((id, reason));
            assert(reasons(unavailable@) == reasons(unavailable_before).push((id, reason@)));
        }
        let ghost failures_before = failures@;
        if let Some(f) = visited.failure {
            failures.push(f);
            assert(failed(failures@) == failed(failures_before).push((f.action, f.error@)));
        }
        assert(with_visit(before, id, v) == (Pass {
            active: active@,
            available: available@,
            unavailable: reasons(unavailable@),
            failures: failed(failures@),
        }));
        i = i + 1;
    }
    let ghost r1 = *r;
    let ghost h1 = r.history();
    let ghost pass = Pass {
        active: active@,
        available: available@,
        unavailable: reasons(unavailable@),
        failures: failed(failures@),
    };
    assert(providers@.take(providers@.len() as int) == providers@);
    let newly_active = active.difference(prev_active);
    let applied = coexistence::apply(&active, &newly_active, bins, backend, r);
    let ghost r2 = *r;
    let ghost h2 = r.history();
    proof {
        runner::lemma_chain(h0, h1, h2);
        runner::lemma_obeyed(r0, r1, r2);
        let t1 = runner::told(h0, h1);
        let t2 = runner::told(h1, h2);
        lemma_pass_is_local(desired@, providers@, t1, t2);
        assert((t1 + t2).skip(t1.len() as int) == t2);
    }
    let resolver = match applied {
        Ok(step) => step,
        Err(error) => {
            let ghost failures_before = failures@;
            failures.push(Failure { action: Action::Coexistence, error });
            assert(failed(failures@) == failed(failures_before).push(
                (Action::Coexistence, error@),
            ));
            ResolverStep::Leave
        },
    };
    Outcome { active, available, unavailable, newly_active, resolver, failures }
}

/// Whether the providers have pairwise different ids.
pub open spec fn distinct_ids<P: Provider>(providers: Seq<P>) -> bool {
    forall|i: int, j: int|
        0 <= i < j < providers.len() ==> (#[trigger] providers[i]).ident() != (
        #[trigger] providers[j]).ident()
}

pub open spec fn has_id<P: Provider>(providers: Seq<P>, id: ProviderId) -> bool {
    exists|i: int| 0 <= i < providers.len() && (#[trigger] providers[i]).ident() == id
}

pub open spec fn reported(unavailable: Seq<(ProviderId, Seq<char>)>, id: ProviderId) -> bool {
    exists|i: int| 0 <= i < unavailable.len() && (#[trigger] unavailable[i]).0 == id
}

/// What a pass reports is about the providers that were visited; only desired ones come
/// out active or are reported as unavailable.
proof fn lemma_pass_reports_desired<P: Provider>(
    desired: Set<ProviderId>,
    providers: Seq<P>,
    replies: Seq<Reply>,
)
    ensures
        ({
            let out = pass_run(desired, providers, replies).out;
            &&& forall|id: ProviderId|
                #[trigger] out.active.contains(id) ==> desired.contains(id) && has_id(providers, id)
            &&& forall|id: ProviderId| #[trigger]
                out.available.contains(id) ==> has_id(providers, id)
            &&& forall|id: ProviderId| #[trigger]
                reported(out.unavailable, id) ==> desired.contains(id) && has_id(providers, id)
        }),
    decreases providers.len(),
{
    if providers.len() > 0 {
        let p = providers.last();
        let init = providers.drop_last();
        let a = pass_run(desired, init, replies);
        lemma_pass_reports_desired(desired, init, replies);
        let b = visit_run(
            p,
            desired.contains(p.ident()),
            replies.skip(a.requests.len() as int),
        );
        let out = pass_run(desired, providers, replies).out;
        assert(providers[providers.len() - 1].ident() == p.ident());
        assert forall|id: ProviderId| has_id(init, id) implies has_id(providers, id) by {
            let i = choose|i: int| 0 <= i < init.len() && (#[trigger] init[i]).ident() == id;
            assert(providers[i].ident() == id);
        }
        assert forall|id: ProviderId| #[trigger] reported(out.unavailable, id) implies
            desired.contains(id) && has_id(providers, id) by {
            let i = choose|i: int|
                0 <= i < out.unavailable.len() && (#[trigger] out.unavailable[i]).0 == id;
            if i < a.out.unavailable.len() {
                assert(a.out.unavailable[i].0 == id);
                assert(reported(a.out.unavailable, id));
            } else {
                assert(id == p.ident());
            }
        }
    }
}

/// The active set never holds a provider that is not desired, and only desired providers
/// are reported as unavailable.
pub proof fn lemma_only_desired_is_reported<P: Provider>(
    desired: Set<ProviderId>,
    providers: Seq<P>,
    prev_active: Set<ProviderId>,
    bins: Bins,
    backend: DnsBackend,
    replies: Seq<Reply>,
)
    ensures
        ({
            let out = reconcile_run(desired, providers, prev_active, bins, backend, replies).out;
            &&& out.active.subset_of(desired)
            &&& out.newly_active.subset_of(out.active)
            &&& out.newly_active.disjoint(prev_active)
            &&& forall|i: int|
                0 <= i < out.unavailable.len() ==> desired.contains(
                    (#[trigger] out.unavailable[i]).0,
                )
        }),
{
    lemma_pass_reports_desired(desired, providers, replies);
    let out = reconcile_run(desired, providers, prev_active, bins, backend, replies).out;
    assert forall|i: int| 0 <= i < out.unavailable.len() implies desired.contains(
        (#[trigger] out.unavailable[i]).0,
    ) by {
        assert(reported(out.unavailable, out.unavailable[i].0));
    }
}

proof fn lemma_pass_keeps_apart<P: Provider>(
    desired: Set<ProviderId>,
    providers: Seq<P>,
    replies: Seq<Reply>,
)
    requires
        distinct_ids(providers),
    ensures
        ({
            let out = pass_run(desired, providers, replies).out;
            &&& out.active.subset_of(out.available)
            &&& forall|id: ProviderId| #[trigger]
                reported(out.unavailable, id) ==> !out.available.contains(id)
            &&& forall|id: ProviderId|
                has_id(providers, id) && desired.contains(id) && !out.available.contains(id)
                    ==> #[trigger] reported(out.unavailable, id)
        }),
    decreases providers.len(),
{
    if providers.len() > 0 {
        let p = providers.last();
        let init = providers.drop_last();
        let a = pass_run(desired, init, replies);
        let out = pass_run(desired, providers, replies).out;
        assert forall|i: int, j: int| 0 <= i < j < init.len() implies (
        #[trigger] init[i]).ident() != (#[trigger] init[j]).ident() by {
            assert(init[i] == providers[i] && init[j] == providers[j]);
        }
        lemma_pass_keeps_apart(desired, init, replies);
        lemma_pass_reports_desired(desired, init, replies);
        assert(!has_id(init, p.ident())) by {
            if has_id(init, p.ident()) {
                let i = choose|i: int|
                    0 <= i < init.len() && (#[trigger] init[i]).ident() == p.ident();
                assert(providers[i].ident() != providers[providers.len() - 1].ident());
            }
        }
        assert(!a.out.available.contains(p.ident()));
        assert(!reported(a.out.unavailable, p.ident()));
        assert forall|id: ProviderId| #[trigger] reported(out.unavailable, id) implies
            !out.available.contains(id) by {
            let i = choose|i: int|
                0 <= i < out.unavailable.len() && (#[trigger] out.unavailable[i]).0 == id;
            if i < a.out.unavailable.len() {
                assert(a.out.unavailable[i].0 == id);
                assert(reported(a.out.unavailable, id));
            }
        }
        assert forall|id: ProviderId|
            has_id(providers, id) && desired.contains(id) && !out.available.contains(
                id,
            ) implies #[trigger] reported(out.unavailable, id) by {
            let i = choose|i: int| 0 <= i < providers.len() && (#[trigger] providers[i]).ident() == id;
            if i < init.len() {
                assert(init[i].ident() == id);
                assert(reported(a.out.unavailable, id));
                let k = choose|k: int|
                    0 <= k < a.out.unavailable.len() && (#[trigger] a.out.unavailable[k]).0 == id;
                assert(out.unavailable[k].0 == id);
            } else {
                assert(out.unavailable.last().0 == id);
                assert(out.unavailable[out.unavailable.len() - 1].0 == id);
            }
        }
    }
}

/// A provider that is active was found available, and the desired providers that were not
/// available are exactly those that are reported as unavailable.
pub proof fn lemma_unavailable_is_what_is_missing<P: Provider>(
    desired: Set<ProviderId>,
    providers: Seq<P>,
    prev_active: Set<ProviderId>,
    bins: Bins,
    backend: DnsBackend,
    replies: Seq<Reply>,
)
    requires
        distinct_ids(providers),
    ensures
        ({
            let out = reconcile_run(desired, providers, prev_active, bins, backend, replies).out;
            &&& out.active.subset_of(out.available)
            &&& forall|id: ProviderId| #[trigger]
                reported(out.unavailable, id) <==> has_id(providers, id) && desired.contains(id)
                    && !out.available.contains(id)
        }),
{
    lemma_pass_keeps_apart(desired, providers, replies);
    lemma_pass_reports_desired(desired, providers, replies);
}

/// Whether a provider counts as available does not depend on whether it is desired.
pub proof fn lemma_availability_ignores_desire<P: Provider>(p: P, replies: Seq<Reply>)
    ensures
        visit_run(p, true, replies).out.available == visit_run(p, false, replies).out.available,
        visit_run(p, true, replies).out.available == (p.status_run(
            replies,
        ).out.availability is Available),
{
}

/// The state of every provider, read one after the other.
pub open spec fn probes_run<P: Provider>(providers: Seq<P>, replies: Seq<Reply>) -> Run<
    Seq<ProviderStatusView>,
>
    decreases providers.len(),
{
    if providers.len() == 0 {
        Run { requests: Seq::empty(), out: Seq::empty() }
    } else {
        let a = probes_run(providers.drop_last(), replies);
        let b = providers.last().status_run(replies.skip(a.requests.len() as int));
        Run { requests: a.requests + b.requests, out: a.out.push(b.out) }
    }
}

/// Whether every provider is where it is desired to be: active where desired, inactive
/// where not.
pub open spec fn settled<P: Provider>(
    desired: Set<ProviderId>,
    providers: Seq<P>,
    states: Seq<ProviderStatusView>,
) -> bool {
    forall|i: int|
        0 <= i < providers.len() ==> {
            let wanted = desired.contains((#[trigger] providers[i]).ident());
            &&& states[i].active == wanted
            &&& wanted ==> states[i].availability is Available
        }
}

proof fn lemma_settled_pass<P: Provider>(
    desired: Set<ProviderId>,
    providers: Seq<P>,
    replies: Seq<Reply>,
)
    requires
        settled(desired, providers, probes_run(providers, replies).out),
    ensures
        pass_run(desired, providers, replies).requests == probes_run(providers, replies).requests,
        probes_run(providers, replies).out.len() == providers.len(),
        forall|id: ProviderId| #[trigger]
            pass_run(desired, providers, replies).out.active.contains(id) <==> desired.contains(id)
                && has_id(providers, id),
    decreases providers.len(),
{
    if providers.len() > 0 {
        let init = providers.drop_last();
        let p = providers.last();
        let states = probes_run(providers, replies).out;
        let first = probes_run(init, replies);
        lemma_probes_len(init, replies);
        assert forall|i: int| 0 <= i < init.len() implies {
            let wanted = desired.contains((#[trigger] init[i]).ident());
            &&& first.out[i].active == wanted
            &&& wanted ==> first.out[i].availability is Available
        } by {
            assert(init[i] == providers[i]);
            assert(first.out[i] == states[i]);
        }
        lemma_settled_pass(desired, init, replies);
        let n = providers.len() - 1;
        assert(states[n] == p.status_run(replies.skip(first.requests.len() as int)).out);
        assert(states[n].active == desired.contains(providers[n].ident()));
        assert forall|id: ProviderId| #[trigger]
            pass_run(desired, providers, replies).out.active.contains(id) <==> desired.contains(id)
                && has_id(providers, id) by {
            if has_id(init, id) {
                let i = choose|i: int| 0 <= i < init.len() && (#[trigger] init[i]).ident() == id;
                assert(providers[i].ident() == id);
            }
            if has_id(providers, id) {
                let i = choose|i: int|
                    0 <= i < providers.len() && (#[trigger] providers[i]).ident() == id;
                if i < n {
                    assert(init[i].ident() == id);
                }
            }
            assert(providers[n].ident() == p.ident());
        }
    }
}

proof fn lemma_probes_len<P: Provider>(providers: Seq<P>, replies: Seq<Reply>)
    ensures
        probes_run(providers, replies).out.len() == providers.len(),
    decreases providers.len(),
{
    if providers.len() > 0 {
        lemma_probes_len(providers.drop_last(), replies);
    }
}

/// Where every provider is already where it should be, a pass engages and disengages
/// nothing: beyond reading each state once, it only does what the active providers ask
/// for. And they are then exactly the desired ones.
pub proof fn lemma_settled_is_quiet<P: Provider>(
    desired: Set<ProviderId>,
    providers: Seq<P>,
    prev_active: Set<ProviderId>,
    bins: Bins,
    backend: DnsBackend,
    replies: Seq<Reply>,
)
    requires
        settled(desired, providers, probes_run(providers, replies).out),
    ensures
        ({
            let run = reconcile_run(desired, providers, prev_active, bins, backend, replies);
            let probes = probes_run(providers, replies).requests;
            &&& run.requests == probes + coexistence::apply_run(
                run.out.active,
                run.out.newly_active,
                bins,
                backend,
                replies.skip(probes.len() as int),
            ).requests
            &&& forall|id: ProviderId| #[trigger]
                run.out.active.contains(id) <==> desired.contains(id) && has_id(providers, id)
        }),
{
    lemma_settled_pass(desired, providers, replies);
}

/// The registry holds every provider once.
pub proof fn lemma_registry_is_complete(
    providers: Seq<AnyProvider>,
    mullvad_bin: Seq<char>,
    tailscale_bin: Seq<char>,
    nft: Seq<char>,
)
    requires
        providers.len() == types::every_id().len(),
        forall|i: int|
            0 <= i < providers.len() ==> types::is_provider(
                #[trigger] providers[i],
                types::every_id()[i],
                mullvad_bin,
                tailscale_bin,
                nft,
            ),
    ensures
        distinct_ids(providers),
        forall|id: ProviderId| has_id(providers, id),
{
    assert(providers[0].ident() == ProviderId::Mullvad);
    assert(providers[1].ident() == ProviderId::Tailscale);
}

/// What is run for one provider: its state is read; where it is desired, could be engaged
/// and is not up, it is activated and its state is read again; where it is not desired and
/// is up, it is deactivated; else nothing more is run.
spec fn commands_for<P: Provider>(p: P, want: bool, own: Seq<Reply>) -> Seq<Request> {
    let first = p.status_run(own);
    let rest = own.skip(first.requests.len() as int);
    if want && first.out.availability is Available && !first.out.active {
        let act = p.activate_run(rest);
        first.requests + act.requests + p.status_run(
            rest.skip(act.requests.len() as int),
        ).requests
    } else if !want && first.out.active {
        first.requests + p.deactivate_run(rest).requests
    } else {
        first.requests
    }
}

/// What the last reading of a provider's state says: the one after the activation where
/// there was one, else the first.
spec fn last_reading<P: Provider>(p: P, want: bool, own: Seq<Reply>) -> ProviderStatusView {
    let first = p.status_run(own);
    let rest = own.skip(first.requests.len() as int);
    if want && first.out.availability is Available && !first.out.active {
        let act = p.activate_run(rest);
        p.status_run(rest.skip(act.requests.len() as int)).out
    } else {
        first.out
    }
}

/// A desired provider that could be engaged and is not up is activated, its state is read
/// again, and it is active exactly where that second reading says so.
pub proof fn lemma_activation_is_read_back<P: Provider>(p: P, replies: Seq<Reply>)
    requires
        p.status_run(replies).out.availability is Available,
        !p.status_run(replies).out.active,
    ensures
        ({
            let first = p.status_run(replies);
            let rest = replies.skip(first.requests.len() as int);
            let act = p.activate_run(rest);
            let second = p.status_run(rest.skip(act.requests.len() as int));
            let visit = visit_run(p, true, replies);
            &&& visit.requests == first.requests + act.requests + second.requests
            &&& visit.out.active <==> second.out.active
            &&& visit.out.available
            &&& visit.out.unavailable is None
            &&& act.out matches Ok(_) ==> visit.out.failure is None
            &&& act.out matches Err(e) ==> visit.out.failure == Some(
                (Action::Activate(p.ident()), e),
            )
        }),
{
}

/// A provider that is not desired never comes out active; it is deactivated exactly where
/// it is up.
pub proof fn lemma_undesired_is_taken_down<P: Provider>(p: P, replies: Seq<Reply>)
    ensures
        ({
            let first = p.status_run(replies);
            let down = p.deactivate_run(replies.skip(first.requests.len() as int));
            let visit = visit_run(p, false, replies);
            &&& !visit.out.active
            &&& visit.out.unavailable is None
            &&& visit.requests == (if first.out.active {
                first.requests + down.requests
            } else {
                first.requests
            })
            &&& !first.out.active || down.out is Ok ==> visit.out.failure is None
            &&& first.out.active && down.out is Err ==> visit.out.failure == Some(
                (Action::Deactivate(p.ident()), down.out->Err_0),
            )
        }),
{
}

proof fn lemma_pass_by_provider<P: Provider>(
    desired: Set<ProviderId>,
    providers: Seq<P>,
    replies: Seq<Reply>,
    i: int,
)
    requires
        distinct_ids(providers),
        0 <= i < providers.len(),
    ensures
        ({
            let p = providers[i];
            let want = desired.contains(p.ident());
            let before = pass_run(desired, providers.take(i), replies).requests;
            let own = replies.skip(before.len() as int);
            let first = p.status_run(own).out;
            let out = pass_run(desired, providers, replies).out;
            &&& pass_run(desired, providers.take(i + 1), replies).requests == before + commands_for(
                p,
                want,
                own,
            )
            &&& out.available.contains(p.ident()) <==> first.availability is Available
            &&& out.active.contains(p.ident()) <==> want && first.availability is Available
                && last_reading(p, want, own).active
            &&& forall|reason: Seq<char>| #[trigger]
                out.unavailable.contains((p.ident(), reason)) <==> want && first.availability
                    == AvailabilityView::Unavailable(reason)
        }),
    decreases providers.len(),
{
    let p = providers[i];
    let want = desired.contains(p.ident());
    let n = providers.len() - 1;
    let init = providers.drop_last();
    let last = providers.last();
    let a = pass_run(desired, init, replies);
    let v = visit_run(last, desired.contains(last.ident()), replies.skip(a.requests.len() as int));
    let out = pass_run(desired, providers, replies).out;
    assert(out == with_visit(a.out, last.ident(), v.out));
    assert forall|k: int, j: int| 0 <= k < j < init.len() implies (#[trigger] init[k]).ident() != (
    #[trigger] init[j]).ident() by {
        assert(init[k] == providers[k] && init[j] == providers[j]);
    }
    lemma_pass_reports_desired(desired, init, replies);
    assert(!has_id(init, last.ident())) by {
        if has_id(init, last.ident()) {
            let k = choose|k: int| 0 <= k < init.len() && (#[trigger] init[k]).ident()
                == last.ident();
            assert(providers[k].ident() != providers[n].ident());
        }
    }
    assert forall|reason: Seq<char>| !#[trigger] a.out.unavailable.contains(
        (last.ident(), reason),
    ) by {
        if a.out.unavailable.contains((last.ident(), reason)) {
            let k = choose|k: int|
                0 <= k < a.out.unavailable.len() && a.out.unavailable[k] == (last.ident(), reason);
            assert(a.out.unavailable[k].0 == last.ident());
            assert(reported(a.out.unavailable, last.ident()));
        }
    }
    if i == n {
        assert(providers.take(i) == init);
        assert(providers.take(i + 1) == providers);
        assert forall|reason: Seq<char>| #[trigger]
            out.unavailable.contains((p.ident(), reason)) <==> want && p.status_run(
            replies.skip(a.requests.len() as int),
        ).out.availability == AvailabilityView::Unavailable(reason) by {
            if let Some(why) = v.out.unavailable {
                let all = a.out.unavailable.push((p.ident(), why));
                assert(all[all.len() - 1] == (p.ident(), why));
                if all.contains((p.ident(), reason)) {
                    let k = choose|k: int| 0 <= k < all.len() && all[k] == (p.ident(), reason);
                    if k < a.out.unavailable.len() {
                        assert(a.out.unavailable[k] == (p.ident(), reason));
                        assert(a.out.unavailable.contains((p.ident(), reason)));
                    }
                }
            }
        }
    } else {
        assert(init[i] == p);
        assert(init.take(i) == providers.take(i));
        assert(init.take(i + 1) == providers.take(i + 1));
        lemma_pass_by_provider(desired, init, replies, i);
        assert(p.ident() != last.ident()) by {
            assert(providers[i].ident() != providers[n].ident());
        }
        assert forall|reason: Seq<char>| #[trigger]
            out.unavailable.contains((p.ident(), reason)) == a.out.unavailable.contains(
            (p.ident(), reason),
        ) by {
            let x = (p.ident(), reason);
            if let Some(why) = v.out.unavailable {
                let all = a.out.unavailable.push((last.ident(), why));
                if a.out.unavailable.contains(x) {
                    let k = choose|k: int|
                        0 <= k < a.out.unavailable.len() && a.out.unavailable[k] == x;
                    assert(all[k] == x);
                }
                if all.contains(x) {
                    let k = choose|k: int| 0 <= k < all.len() && all[k] == x;
                    assert(k < a.out.unavailable.len());
                    assert(a.out.unavailable[k] == x);
                }
            }
        }
    }
}

/// What a pass reports of each provider, given the replies to that provider's own commands,
/// which follow those of the providers before it. It is available exactly where the first
/// reading says so. It is active exactly where it is desired, available, and up by the last
/// reading. It is reported with a reason exactly where it is desired and the first reading
/// gives that reason.
pub proof fn lemma_outcome_by_provider<P: Provider>(
    desired: Set<ProviderId>,
    providers: Seq<P>,
    prev_active: Set<ProviderId>,
    bins: Bins,
    backend: DnsBackend,
    replies: Seq<Reply>,
    i: int,
)
    requires
        distinct_ids(providers),
        0 <= i < providers.len(),
    ensures
        ({
            let p = providers[i];
            let want = desired.contains(p.ident());
            let before = pass_run(desired, providers.take(i), replies).requests;
            let own = replies.skip(before.len() as int);
            let first = p.status_run(own);
            let rest = own.skip(first.requests.len() as int);
            let again = p.status_run(rest.skip(p.activate_run(rest).requests.len() as int)).out;
            let out = reconcile_run(desired, providers, prev_active, bins, backend, replies).out;
            &&& out.available.contains(p.ident()) <==> first.out.availability is Available
            &&& out.active.contains(p.ident()) <==> want && first.out.availability is Available && (
            first.out.active || again.active)
            &&& out.newly_active.contains(p.ident()) <==> out.active.contains(p.ident())
                && !prev_active.contains(p.ident())
            &&& forall|reason: Seq<char>| #[trigger]
                out.unavailable.contains((p.ident(), reason)) <==> want && first.out.availability
                    == AvailabilityView::Unavailable(reason)
        }),
{
    lemma_pass_by_provider(desired, providers, replies, i);
}

/// What a pass runs, provider after provider: for each, the reading of its state, then what
/// takes it where it should be; and after the last provider what the active ones ask for.
pub proof fn lemma_commands_by_provider<P: Provider>(
    desired: Set<ProviderId>,
    providers: Seq<P>,
    prev_active: Set<ProviderId>,
    bins: Bins,
    backend: DnsBackend,
    replies: Seq<Reply>,
    i: int,
)
    requires
        distinct_ids(providers),
        0 <= i < providers.len(),
    ensures
        pass_run(desired, providers.take(0), replies).requests == Seq::<Request>::empty(),
        ({
            let p = providers[i];
            let before = pass_run(desired, providers.take(i), replies).requests;
            let own = replies.skip(before.len() as int);
            let first = p.status_run(own);
            let rest = own.skip(first.requests.len() as int);
            let act = p.activate_run(rest);
            let again = p.status_run(rest.skip(act.requests.len() as int));
            let down = p.deactivate_run(rest);
            let want = desired.contains(p.ident());
            pass_run(desired, providers.take(i + 1), replies).requests == before + (if want
                && first.out.availability is Available && !first.out.active {
                first.requests + act.requests + again.requests
            } else if !want && first.out.active {
                first.requests + down.requests
            } else {
                first.requests
            })
        }),
        ({
            let run = reconcile_run(desired, providers, prev_active, bins, backend, replies);
            let visits = pass_run(desired, providers.take(providers.len() as int), replies).requests;
            let truce = coexistence::apply_run(
                run.out.active,
                run.out.newly_active,
                bins,
                backend,
                replies.skip(visits.len() as int),
            );
            &&& run.requests == visits + truce.requests
            &&& truce.out matches Ok(step) ==> run.out.resolver == step
            &&& truce.out is Err ==> run.out.resolver == ResolverStep::Leave
            &&& truce.out is Err ==> run.out.failures.len() > 0 && run.out.failures.last() == (
                Action::Coexistence,
                truce.out->Err_0,
            )
        }),
{
    lemma_pass_by_provider(desired, providers, replies, i);
    assert(providers.take(providers.len() as int) == providers);
    assert(providers.take(0) == Seq::<P>::empty());
}

/// A pass reports nothing about a provider that it did not visit.
pub proof fn lemma_strangers_are_not_reported<P: Provider>(
    desired: Set<ProviderId>,
    providers: Seq<P>,
    prev_active: Set<ProviderId>,
    bins: Bins,
    backend: DnsBackend,
    replies: Seq<Reply>,
    id: ProviderId,
)
    requires
        forall|i: int| 0 <= i < providers.len() ==> (#[trigger] providers[i]).ident() != id,
    ensures
        ({
            let out = reconcile_run(desired, providers, prev_active, bins, backend, replies).out;
            &&& !out.active.contains(id)
            &&& !out.available.contains(id)
            &&& forall|k: int|
                0 <= k < out.unavailable.len() ==> (#[trigger] out.unavailable[k]).0 != id
        }),
{
    lemma_pass_reports_desired(desired, providers, replies);
    assert(!has_id(providers, id));
    let out = reconcile_run(desired, providers, prev_active, bins, backend, replies).out;
    assert forall|k: int| 0 <= k < out.unavailable.len() implies (#[trigger] out.unavailable[k]).0
        != id by {
        assert(reported(out.unavailable, out.unavailable[k].0));
    }
}

/// What a pass adds to its report with one more provider, in order: a failure exactly where
/// the provider had to be activated or deactivated and that failed, with the error; a reason
/// exactly where it is desired and cannot be engaged. A failure of what follows the visits
/// comes after all of theirs, and nothing else is a failure.
pub proof fn lemma_failures_in_order<P: Provider>(
    desired: Set<ProviderId>,
    providers: Seq<P>,
    p: P,
    replies: Seq<Reply>,
    prev_active: Set<ProviderId>,
    bins: Bins,
    backend: DnsBackend,
)
    ensures
        pass_run(desired, Seq::<P>::empty(), replies).out.failures.len() == 0,
        pass_run(desired, Seq::<P>::empty(), replies).out.unavailable.len() == 0,
        ({
            let before = pass_run(desired, providers, replies);
            let after = pass_run(desired, providers.push(p), replies);
            let own = replies.skip(before.requests.len() as int);
            let first = p.status_run(own);
            let rest = own.skip(first.requests.len() as int);
            let want = desired.contains(p.ident());
            let up = p.activate_run(rest).out;
            let down = p.deactivate_run(rest).out;
            let raised = want && first.out.availability is Available && !first.out.active;
            let lowered = !want && first.out.active;
            &&& raised && up is Err ==> after.out.failures == before.out.failures.push(
                (Action::Activate(p.ident()), up->Err_0),
            )
            &&& lowered && down is Err ==> after.out.failures == before.out.failures.push(
                (Action::Deactivate(p.ident()), down->Err_0),
            )
            &&& !(raised && up is Err) && !(lowered && down is Err) ==> after.out.failures
                == before.out.failures
            &&& !want || first.out.availability is Available ==> after.out.unavailable
                == before.out.unavailable
            &&& want ==> (first.out.availability matches AvailabilityView::Unavailable(reason)
                ==> after.out.unavailable == before.out.unavailable.push((p.ident(), reason)))
        }),
        ({
            let visits = pass_run(desired, providers, replies);
            let run = reconcile_run(desired, providers, prev_active, bins, backend, replies);
            let truce = coexistence::apply_run(
                run.out.active,
                run.out.newly_active,
                bins,
                backend,
                replies.skip(visits.requests.len() as int),
            ).out;
            &&& truce is Ok ==> run.out.failures == visits.out.failures
            &&& truce matches Err(e) ==> run.out.failures == visits.out.failures.push(
                (Action::Coexistence, e),
            )
            &&& run.out.unavailable == visits.out.unavailable
        }),
{
    assert(providers.push(p).drop_last() == providers);
    assert(providers.push(p).last() == p);
}

} // verus!
