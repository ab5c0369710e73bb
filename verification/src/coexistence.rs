//! What it takes for the active providers to leave each other alone.

use crate::dns;
use crate::dns::DnsBackend;
use crate::fsutil::FileWrite;
use crate::nft;
use crate::provider;
use crate::resolver;
use crate::resolver::ResolvConf;
use crate::runner;
use crate::runner::{Reply, Request, Run, Runner};
use crate::types::{Error, ErrorView, ProviderId, ProviderSet};
use vstd::prelude::*;

verus! {

pub struct Bins {
    pub nft: String,
    pub tailscale: String,
    /// The `resolv.conf` to repair while Mullvad is not active; empty to leave it alone.
    pub resolv_conf: String,
}

/// What is left to do about `resolv.conf`.
#[derive(Debug, Clone, Copy, PartialEq, Eq, Structural)]
pub enum ResolverStep {
    /// Nothing.
    Leave,
    /// Take out the resolver that was added earlier: Mullvad has DNS again.
    Remove,
    /// Make sure that there is a resolver: Mullvad is gone.
    Fill,
}

/// `tailscale set --accept-dns=<accept>`.
pub open spec fn accept_dns_request(tailscale: Seq<char>, accept: bool) -> Request {
    runner::plain(
        seq![
            tailscale,
            "set"@,
            if accept {
                "--accept-dns=true"@
            } else {
                "--accept-dns=false"@
            },
        ],
    )
}

/// Whether vpnmux may touch `resolv.conf` under this backend.
pub open spec fn is_repairable(backend: DnsBackend) -> bool {
    backend == DnsBackend::Static || backend == DnsBackend::Resolvconf
}

/// Whether vpnmux may touch `resolv.conf` under this backend.
pub fn repairable(backend: DnsBackend) -> (res: bool)
    ensures
        res == is_repairable(backend),
{
    backend == DnsBackend::Static || backend == DnsBackend::Resolvconf
}

/// What is left to do about `resolv.conf` for a set of active providers, of which some
/// became active just now.
pub open spec fn resolver_step(
    active: Set<ProviderId>,
    newly_active: Set<ProviderId>,
    resolv_conf: Seq<char>,
    backend: DnsBackend,
) -> ResolverStep {
    if resolv_conf.len() == 0 || !is_repairable(backend) {
        ResolverStep::Leave
    } else if !active.contains(ProviderId::Mullvad) {
        ResolverStep::Fill
    } else if newly_active.contains(ProviderId::Mullvad) {
        ResolverStep::Remove
    } else {
        ResolverStep::Leave
    }
}

/// What happens to Tailscale's DNS: it is turned off when Tailscale becomes active.
pub open spec fn magic_dns_run(
    active: Set<ProviderId>,
    newly_active: Set<ProviderId>,
    tailscale: Seq<char>,
    replies: Seq<Reply>,
) -> Run<Result<(), ErrorView>> {
    if active.contains(ProviderId::Tailscale) && newly_active.contains(ProviderId::Tailscale) {
        Run {
            requests: seq![accept_dns_request(tailscale, false)],
            out: provider::unless_failed(replies[0]),
        }
    } else {
        Run { requests: Seq::empty(), out: Ok(()) }
    }
}

/// What happens to Mullvad's table: while both are active it lets Tailscale through.
pub open spec fn table_run(active: Set<ProviderId>, nft: Seq<char>, replies: Seq<Reply>) -> Run<
    Result<(), ErrorView>,
> {
    if active.contains(ProviderId::Mullvad) && active.contains(ProviderId::Tailscale) {
        nft::whitelist_run(nft, replies)
    } else {
        Run { requests: Seq::empty(), out: Ok(()) }
    }
}

/// What `apply` does.
pub open spec fn apply_run(
    active: Set<ProviderId>,
    newly_active: Set<ProviderId>,
    bins: Bins,
    backend: DnsBackend,
    replies: Seq<Reply>,
) -> Run<Result<ResolverStep, ErrorView>> {
    let a = magic_dns_run(active, newly_active, bins.tailscale@, replies);
    match a.out {
        Err(e) => Run { requests: a.requests, out: Err(e) },
        Ok(_) => {
            let b = table_run(active, bins.nft@, replies.skip(a.requests.len() as int));
            Run {
                requests: a.requests + b.requests,
                out: match b.out {
                    Err(e) => Err(e),
                    Ok(_) => Ok(
                        resolver_step(active, newly_active, bins.resolv_conf@, backend),
                    ),
                },
            }
        },
    }
}

pub open spec fn stepped(res: Result<ResolverStep, Error>) -> Result<ResolverStep, ErrorView> {
    match res {
        Ok(step) => Ok(step),
        Err(e) => Err(e@),
    }
}

fn set_accept_dns<R: Runner>(tailscale: &str, accept: bool, r: &mut R) -> (res: Result<(), Error>)
    ensures
        runner::did(
            *old(r),
            *final(r),
            Run {
                requests: seq![accept_dns_request(tailscale@, accept)],
                out: provider::unless_failed(
                    runner::told(old(r).history(), final(r).history())[0],
                ),
            },
            provider::done(res),
        ),
{
    let flag = if accept {
        "--accept-dns=true"
    } else {
        "--accept-dns=false"
    };
    let args = ["set", flag];
    assert(runner::words(tailscale@, args@) == accept_dns_request(tailscale@, accept).words);
    provider::run_only(tailscale, &args, r)
}

/// Applies what the set of active providers asks for. `newly_active` names those that
/// became active in this pass, so that Tailscale's DNS is turned off once, at the
/// transition. The rules in Mullvad's table are looked after in every pass, because
/// Mullvad rebuilds its table at every change of state. Returns what is left to do about
/// `resolv.conf`.
pub fn apply<R: Runner>(
    active: &ProviderSet,
    newly_active: &ProviderSet,
    bins: &Bins,
    backend: DnsBackend,
    r: &mut R,
) -> (res: Result<ResolverStep, Error>)
    ensures
        runner::did(
            *old(r),
            *final(r),
            apply_run(
                active@,
                newly_active@,
                *bins,
                backend,
                runner::told(old(r).history(), final(r).history()),
            ),
            stepped(res),
        ),
{
    let ghost r0 = *r;
    let ghost h0 = r.history();
    proof {
        runner::lemma_none(h0);
    }
    let mullvad = active.contains(&ProviderId::Mullvad);
    let tailscale = active.contains(&ProviderId::Tailscale);
    if tailscale && newly_active.contains(&ProviderId::Tailscale) {
        if let Err(e) = set_accept_dns(bins.tailscale.as_str(), false, r) {
            return Err(e);
        }
    }
    let ghost r1 = *r;
    let ghost h1 = r.history();
    proof {
        runner::lemma_none(h1);
    }
    let mut table = Ok(());
    if mullvad && tailscale {
        table = nft::ensure_whitelist(bins.nft.as_str(), r);
    }
    let ghost r2 = *r;
    let ghost h2 = r.history();
    proof {
        runner::lemma_chain(h0, h1, h2);
        runner::lemma_obeyed(r0, r1, r2);
        let a = runner::asked(h0, h1);
        assert(runner::told(h0, h2).skip(a.len() as int) == runner::told(h1, h2));
        assert(a.len() > 0 ==> runner::told(h0, h2)[0] == runner::told(h0, h1)[0]);
    }
    if let Err(e) = table {
        return Err(e);
    }
    if bins.resolv_conf.as_str().is_empty() || !repairable(backend) {
        Ok(ResolverStep::Leave)
    } else if !mullvad {
        Ok(ResolverStep::Fill)
    } else if newly_active.contains(&ProviderId::Mullvad) {
        Ok(ResolverStep::Remove)
    } else {
        Ok(ResolverStep::Leave)
    }
}

/// What `settle_resolver` does.
pub open spec fn settle_run(
    step: ResolverStep,
    conf: resolver::ResolvConfView,
    backend: DnsBackend,
    preferred: Option<Seq<char>>,
    replies: Seq<Reply>,
) -> Run<resolver::Repair> {
    match step {
        ResolverStep::Leave => resolver::idle(Ok(None)),
        ResolverStep::Remove => resolver::remove_run(conf, backend, replies),
        ResolverStep::Fill => resolver::ensure_run(conf, backend, preferred, replies),
    }
}

/// Carries out a step on `resolv.conf` as it is found now, with the resolver to prefer.
/// Returns what is to be written, if anything.
pub fn settle_resolver<R: Runner>(
    step: ResolverStep,
    conf: &ResolvConf,
    backend: DnsBackend,
    preferred: Option<&str>,
    r: &mut R,
) -> (res: Result<Option<FileWrite>, Error>)
    ensures
        runner::did(
            *old(r),
            *final(r),
            settle_run(
                step,
                conf@,
                backend,
                dns::view_of(preferred),
                runner::told(old(r).history(), final(r).history()),
            ),
            resolver::repair(res),
        ),
{
    proof {
        runner::lemma_none(r.history());
    }
    match step {
        ResolverStep::Leave => Ok(None),
        ResolverStep::Remove => resolver::remove_injected_resolver(conf, backend, r),
        ResolverStep::Fill => resolver::ensure_resolver(conf, backend, preferred, r),
    }
}

/// While Tailscale is not active no command is run: Mullvad alone needs none.
pub proof fn lemma_quiet_without_tailscale(
    active: Set<ProviderId>,
    newly_active: Set<ProviderId>,
    bins: Bins,
    backend: DnsBackend,
    replies: Seq<Reply>,
)
    requires
        !active.contains(ProviderId::Tailscale),
    ensures
        apply_run(active, newly_active, bins, backend, replies).requests == Seq::<Request>::empty(),
{
}

/// Tailscale's DNS is turned off at the transition and not again: while Tailscale alone
/// stays active no command is run.
pub proof fn lemma_quiet_while_tailscale_stays(
    active: Set<ProviderId>,
    newly_active: Set<ProviderId>,
    bins: Bins,
    backend: DnsBackend,
    replies: Seq<Reply>,
)
    requires
        !active.contains(ProviderId::Mullvad),
        !newly_active.contains(ProviderId::Tailscale),
    ensures
        apply_run(active, newly_active, bins, backend, replies).requests == Seq::<Request>::empty(),
{
}

/// Tailscale is never told to take over DNS.
pub proof fn lemma_never_accepts_dns(
    active: Set<ProviderId>,
    newly_active: Set<ProviderId>,
    bins: Bins,
    backend: DnsBackend,
    replies: Seq<Reply>,
)
    ensures
        !apply_run(active, newly_active, bins, backend, replies).requests.contains(
            accept_dns_request(bins.tailscale@, true),
        ),
{
    let bad = accept_dns_request(bins.tailscale@, true);
    let requests = apply_run(active, newly_active, bins, backend, replies).requests;
    reveal_strlit("--accept-dns=true");
    reveal_strlit("--accept-dns=false");
    assert("--accept-dns=true"@.len() != "--accept-dns=false"@.len());
    assert(bad.words[2] == "--accept-dns=true"@);
    assert(accept_dns_request(bins.tailscale@, false).words[2] == "--accept-dns=false"@);
    assert forall|i: int| 0 <= i < requests.len() implies requests[i] != bad by {
        assert(bad.words.len() == 3);
        let a = magic_dns_run(active, newly_active, bins.tailscale@, replies);
        if i >= a.requests.len() {
            nft::lemma_whitelist_requests(bins.nft@, replies.skip(a.requests.len() as int));
        }
    }
}

/// Where another subsystem manages `resolv.conf`, nothing is left to do about it.
pub proof fn lemma_managed_needs_no_step(
    active: Set<ProviderId>,
    newly_active: Set<ProviderId>,
    resolv_conf: Seq<char>,
    backend: DnsBackend,
)
    requires
        !is_repairable(backend),
    ensures
        resolver_step(active, newly_active, resolv_conf, backend) == ResolverStep::Leave,
{
}

/// While both are active the rules in Mullvad's table are looked after in every pass, not
/// only when something became active, unless turning off Tailscale's DNS failed before.
pub proof fn lemma_rules_are_looked_after(
    active: Set<ProviderId>,
    newly_active: Set<ProviderId>,
    bins: Bins,
    backend: DnsBackend,
    replies: Seq<Reply>,
)
    requires
        active.contains(ProviderId::Mullvad),
        active.contains(ProviderId::Tailscale),
        magic_dns_run(active, newly_active, bins.tailscale@, replies).out is Ok,
    ensures
        apply_run(active, newly_active, bins, backend, replies).requests.contains(
            nft::list_request(bins.nft@),
        ),
{
    let a = magic_dns_run(active, newly_active, bins.tailscale@, replies);
    let requests = apply_run(active, newly_active, bins, backend, replies).requests;
    assert(requests[a.requests.len() as int] == nft::list_request(bins.nft@));
}

/// Where vpnmux may touch `resolv.conf`, a pass without errors fills it while Mullvad is
/// not active, takes the filling out when Mullvad becomes active, and leaves it alone
/// while Mullvad stays active.
pub proof fn lemma_step_follows_mullvad(
    active: Set<ProviderId>,
    newly_active: Set<ProviderId>,
    bins: Bins,
    backend: DnsBackend,
    replies: Seq<Reply>,
)
    requires
        bins.resolv_conf@.len() > 0,
        is_repairable(backend),
        apply_run(active, newly_active, bins, backend, replies).out is Ok,
    ensures
        ({
            let step = apply_run(active, newly_active, bins, backend, replies).out->Ok_0;
            &&& step == ResolverStep::Fill <==> !active.contains(ProviderId::Mullvad)
            &&& step == ResolverStep::Remove <==> active.contains(ProviderId::Mullvad)
                && newly_active.contains(ProviderId::Mullvad)
        }),
{
}

/// The commands of a pass, word for word. Where Tailscale is active and became so just now,
/// it is told once to leave DNS alone, before anything else; if that cannot be run, it is
/// the error and nothing else is run. Then, exactly where both are active, Mullvad's table
/// is looked after. No other command is run.
pub proof fn lemma_apply_word_for_word(
    active: Set<ProviderId>,
    newly_active: Set<ProviderId>,
    bins: Bins,
    backend: DnsBackend,
    replies: Seq<Reply>,
)
    ensures
        ({
            let run = apply_run(active, newly_active, bins, backend, replies);
            let quiet = Request {
                words: seq![bins.tailscale@, "set"@, "--accept-dns=false"@],
                input: None,
            };
            let both = active.contains(ProviderId::Mullvad) && active.contains(
                ProviderId::Tailscale,
            );
            if active.contains(ProviderId::Tailscale) && newly_active.contains(
                ProviderId::Tailscale,
            ) {
                match replies[0] {
                    Err(e) => run.requests == seq![quiet] && run.out == Err::<
                        ResolverStep,
                        ErrorView,
                    >(e),
                    Ok(_) => if both {
                        let table = nft::whitelist_run(bins.nft@, replies.skip(1));
                        &&& run.requests == seq![quiet] + table.requests
                        &&& run.out is Ok <==> table.out is Ok
                        &&& table.out matches Err(e) ==> run.out == Err::<ResolverStep, ErrorView>(
                            e,
                        )
                    } else {
                        run.requests == seq![quiet] && run.out is Ok
                    },
                }
            } else if both {
                let table = nft::whitelist_run(bins.nft@, replies);
                &&& run.requests == table.requests
                &&& run.out is Ok <==> table.out is Ok
                &&& table.out matches Err(e) ==> run.out == Err::<ResolverStep, ErrorView>(e)
            } else {
                run.requests == Seq::<Request>::empty() && run.out is Ok
            }
        }),
{
    let quiet = accept_dns_request(bins.tailscale@, false);
    assert(seq![quiet] + Seq::<Request>::empty() == seq![quiet]);
    assert(replies.skip(0) == replies);
    let table = nft::whitelist_run(bins.nft@, replies);
    assert(Seq::<Request>::empty() + table.requests == table.requests);
}

/// What a pass without errors leaves to do about `resolv.conf`, for every backend: nothing
/// where the path is empty or another subsystem manages the file; else a resolver is put
/// in while Mullvad is not active, taken out when it became active just now, and left
/// alone while it stays active.
pub proof fn lemma_step_for_every_backend(
    active: Set<ProviderId>,
    newly_active: Set<ProviderId>,
    bins: Bins,
    backend: DnsBackend,
    replies: Seq<Reply>,
)
    requires
        apply_run(active, newly_active, bins, backend, replies).out is Ok,
    ensures
        ({
            let step = apply_run(active, newly_active, bins, backend, replies).out->Ok_0;
            let ours = bins.resolv_conf@.len() > 0 && (backend == DnsBackend::Static || backend
                == DnsBackend::Resolvconf);
            let mullvad = active.contains(ProviderId::Mullvad);
            &&& step == ResolverStep::Fill <==> ours && !mullvad
            &&& step == ResolverStep::Remove <==> ours && mullvad && newly_active.contains(
                ProviderId::Mullvad,
            )
        }),
{
}

/// A step is carried out by what it is called.
pub proof fn lemma_settle_does_the_step(
    conf: resolver::ResolvConfView,
    backend: DnsBackend,
    preferred: Option<Seq<char>>,
    replies: Seq<Reply>,
)
    ensures
        settle_run(ResolverStep::Leave, conf, backend, preferred, replies).requests.len() == 0,
        settle_run(ResolverStep::Leave, conf, backend, preferred, replies).out matches Ok(None),
        settle_run(ResolverStep::Fill, conf, backend, preferred, replies) == resolver::ensure_run(
            conf,
            backend,
            preferred,
            replies,
        ),
        settle_run(ResolverStep::Remove, conf, backend, preferred, replies)
            == resolver::remove_run(conf, backend, replies),
{
}

} // verus!
