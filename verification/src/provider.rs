//! What vpnmux needs of a network provider.

use crate::mullvad::Mullvad;
use crate::runner;
use crate::runner::{Reply, Run, Runner};
use crate::tailscale::Tailscale;
use crate::types::{Error, ErrorView, ProviderId};
use vstd::prelude::*;

verus! {

#[derive(Debug, Clone, PartialEq)]
pub enum Availability {
    Available,
    /// With the reason, for people to read.
    Unavailable(String),
}

pub enum AvailabilityView {
    Available,
    Unavailable(Seq<char>),
}

impl View for Availability {
    type V = AvailabilityView;

    open spec fn view(&self) -> AvailabilityView {
        match self {
            Availability::Available => AvailabilityView::Available,
            Availability::Unavailable(reason) => AvailabilityView::Unavailable(reason@),
        }
    }
}

/// One read of a provider's state. Whether the provider can be activated and whether it
/// is up now both come from the same command.
#[derive(Debug, Clone, PartialEq)]
pub struct ProviderStatus {
    pub availability: Availability,
    pub active: bool,
}

pub struct ProviderStatusView {
    pub availability: AvailabilityView,
    pub active: bool,
}

impl View for ProviderStatus {
    type V = ProviderStatusView;

    open spec fn view(&self) -> ProviderStatusView {
        ProviderStatusView { availability: self.availability@, active: self.active }
    }
}

/// A provider that can be engaged, and whether it is up.
pub open spec fn engageable(active: bool) -> ProviderStatusView {
    ProviderStatusView { availability: AvailabilityView::Available, active }
}

/// A provider that cannot be engaged, and why.
pub open spec fn unengageable(reason: Seq<char>) -> ProviderStatusView {
    ProviderStatusView { availability: AvailabilityView::Unavailable(reason), active: false }
}

impl ProviderStatus {
    pub(crate) fn up(active: bool) -> (res: ProviderStatus)
        ensures
            res@ == engageable(active),
    {
        ProviderStatus { availability: Availability::Available, active }
    }

    pub(crate) fn down(reason: &str) -> (res: ProviderStatus)
        ensures
            res@ == unengageable(reason@),
    {
        ProviderStatus { availability: Availability::Unavailable(reason.to_string()), active: false }
    }
}

pub open spec fn done(res: Result<(), Error>) -> Result<(), ErrorView> {
    match res {
        Ok(()) => Ok(()),
        Err(e) => Err(e@),
    }
}

/// What a procedure returns that runs one command and looks only at whether it ran.
pub open spec fn unless_failed(reply: Reply) -> Result<(), ErrorView> {
    match reply {
        Ok(_) => Ok(()),
        Err(e) => Err(e),
    }
}

/// Runs one command and reports only whether it could be run.
pub(crate) fn run_only<R: Runner>(bin: &str, args: &[&str], r: &mut R) -> (res: Result<(), Error>)
    ensures
        runner::did(
            *old(r),
            *final(r),
            Run {
                requests: seq![runner::plain(runner::words(bin@, args@))],
                out: unless_failed(runner::told(old(r).history(), final(r).history())[0]),
            },
            done(res),
        ),
{
    let ghost h = r.history();
    let out = r.run(bin, args);
    proof {
        runner::lemma_one(
            h,
            runner::Exchange {
                request: runner::plain(runner::words(bin@, args@)),
                reply: runner::reply_of(out),
            },
        );
    }
    match out {
        Ok(_) => Ok(()),
        Err(e) => Err(e),
    }
}

/// A network provider that vpnmux can drive. All methods are idempotent.
pub trait Provider {
    spec fn ident(&self) -> ProviderId;

    /// What `status` does, given the replies to its commands.
    spec fn status_run(&self, replies: Seq<Reply>) -> Run<ProviderStatusView>;

    /// What `activate` does, given the replies to its commands.
    spec fn activate_run(&self, replies: Seq<Reply>) -> Run<Result<(), ErrorView>>;

    /// What `deactivate` does, given the replies to its commands.
    spec fn deactivate_run(&self, replies: Seq<Reply>) -> Run<Result<(), ErrorView>>;

    /// Only the replies to a procedure's own commands matter to it.
    proof fn replies_are_own(&self, replies: Seq<Reply>, more: Seq<Reply>)
        ensures
            self.status_run(replies).requests.len() <= replies.len() ==> self.status_run(
                replies + more,
            ) == self.status_run(replies),
            self.activate_run(replies).requests.len() <= replies.len() ==> self.activate_run(
                replies + more,
            ) == self.activate_run(replies),
            self.deactivate_run(replies).requests.len() <= replies.len() ==> self.deactivate_run(
                replies + more,
            ) == self.deactivate_run(replies),
    ;

    fn id(&self) -> (res: ProviderId)
        ensures
            res == self.ident(),
    ;

    /// Reads, from one command, whether the provider is available and whether it is
    /// active.
    fn status<R: Runner>(&self, r: &mut R) -> (res: ProviderStatus)
        ensures
            runner::did(
                *old(r),
                *final(r),
                self.status_run(runner::told(old(r).history(), final(r).history())),
                res@,
            ),
    ;

    fn activate<R: Runner>(&self, r: &mut R) -> (res: Result<(), Error>)
        ensures
            runner::did(
                *old(r),
                *final(r),
                self.activate_run(runner::told(old(r).history(), final(r).history())),
                done(res),
            ),
    ;

    fn deactivate<R: Runner>(&self, r: &mut R) -> (res: Result<(), Error>)
        ensures
            runner::did(
                *old(r),
                *final(r),
                self.deactivate_run(runner::told(old(r).history(), final(r).history())),
                done(res),
            ),
    ;

    /// Whether it can be activated right now: installed, its daemon up, logged in.
    fn check<R: Runner>(&self, r: &mut R) -> (res: Availability)
        ensures
            ({
                let run = self.status_run(runner::told(old(r).history(), final(r).history()));
                runner::did(
                    *old(r),
                    *final(r),
                    Run { requests: run.requests, out: run.out.availability },
                    res@,
                )
            }),
    {
        self.status(r).availability
    }

    /// Whether it is connected right now.
    fn is_active<R: Runner>(&self, r: &mut R) -> (res: bool)
        ensures
            ({
                let run = self.status_run(runner::told(old(r).history(), final(r).history()));
                runner::did(
                    *old(r),
                    *final(r),
                    Run { requests: run.requests, out: run.out.active },
                    res,
                )
            }),
    {
        self.status(r).active
    }
}

/// Any provider that vpnmux knows about.
pub enum AnyProvider {
    Mullvad(Mullvad),
    Tailscale(Tailscale),
}

impl Provider for AnyProvider {
    open spec fn ident(&self) -> ProviderId {
        match self {
            AnyProvider::Mullvad(p) => p.ident(),
            AnyProvider::Tailscale(p) => p.ident(),
        }
    }

    open spec fn status_run(&self, replies: Seq<Reply>) -> Run<ProviderStatusView> {
        match self {
            AnyProvider::Mullvad(p) => p.status_run(replies),
            AnyProvider::Tailscale(p) => p.status_run(replies),
        }
    }

    open spec fn activate_run(&self, replies: Seq<Reply>) -> Run<Result<(), ErrorView>> {
        match self {
            AnyProvider::Mullvad(p) => p.activate_run(replies),
            AnyProvider::Tailscale(p) => p.activate_run(replies),
        }
    }

    open spec fn deactivate_run(&self, replies: Seq<Reply>) -> Run<Result<(), ErrorView>> {
        match self {
            AnyProvider::Mullvad(p) => p.deactivate_run(replies),
            AnyProvider::Tailscale(p) => p.deactivate_run(replies),
        }
    }

    proof fn replies_are_own(&self, replies: Seq<Reply>, more: Seq<Reply>) {
        match self {
            AnyProvider::Mullvad(p) => p.replies_are_own(replies, more),
            AnyProvider::Tailscale(p) => p.replies_are_own(replies, more),
        }
    }

    fn id(&self) -> (res: ProviderId) {
        match self {
            AnyProvider::Mullvad(p) => p.id(),
            AnyProvider::Tailscale(p) => p.id(),
        }
    }

    fn status<R: Runner>(&self, r: &mut R) -> (res: ProviderStatus) {
        match self {
            AnyProvider::Mullvad(p) => p.status(r),
            AnyProvider::Tailscale(p) => p.status(r),
        }
    }

    fn activate<R: Runner>(&self, r: &mut R) -> (res: Result<(), Error>) {
        match self {
            AnyProvider::Mullvad(p) => p.activate(r),
            AnyProvider::Tailscale(p) => p.activate(r),
        }
    }

    fn deactivate<R: Runner>(&self, r: &mut R) -> (res: Result<(), Error>) {
        match self {
            AnyProvider::Mullvad(p) => p.deactivate(r),
            AnyProvider::Tailscale(p) => p.deactivate(r),
        }
    }
}

/// Whether a provider can be activated and whether it is up come from one command.
pub proof fn lemma_status_is_one_command(p: AnyProvider, replies: Seq<Reply>)
    ensures
        p.status_run(replies).requests.len() == 1,
{
}

/// A provider that cannot be engaged does not count as active.
pub proof fn lemma_unavailable_is_inactive(p: AnyProvider, replies: Seq<Reply>)
    ensures
        p.status_run(replies).out.availability is Unavailable ==> !p.status_run(replies).out.active,
{
}

/// What the two readings of a provider say: one that can be engaged is up or down, one that
/// cannot is down and has a reason. A command that could not be run is an error, whatever it
/// would have printed.
pub proof fn lemma_readings(active: bool, reason: Seq<char>, reply: Reply)
    ensures
        engageable(active).availability is Available,
        engageable(active).active == active,
        unengageable(reason).availability == AvailabilityView::Unavailable(reason),
        !unengageable(reason).active,
        unless_failed(reply) is Ok <==> reply is Ok,
        reply matches Err(e) ==> unless_failed(reply) == Err::<(), ErrorView>(e),
{
}

} // verus!
