//! What the `set` and `status` commands decide.

use crate::dns;
use crate::json;
use crate::mullvad;
use crate::mullvad::Mullvad;
use crate::number;
use crate::provider;
use crate::provider::{AnyProvider, Availability, AvailabilityView, Provider};
use crate::runner;
use crate::runner::{Reply, Request, Run, Runner};
use crate::state::{Desired, DesiredView, Status, StatusView};
use crate::tailscale;
use crate::text;
use crate::types;
use crate::types::{Error, ErrorView, ProviderId, ProviderSet};
use vstd::prelude::*;

verus! {

/// How long `set` waits for the daemon, in seconds.
pub const PATIENCE_SECONDS: u64 = 8;

/// How long `set` waits between two looks at the status, in milliseconds.
pub const POLL_MILLIS: u64 = 250;

pub open spec fn is_yes_flag(arg: Seq<char>) -> bool {
    arg == "--yes"@ || arg == "-y"@
}

/// The set of providers and the `--yes` flag in the arguments of `set`; the first unknown
/// name is the error.
pub open spec fn arguments_of(args: Seq<Seq<char>>) -> Result<(Set<ProviderId>, bool), ErrorView>
    decreases args.len(),
{
    if args.len() == 0 {
        Ok((Set::empty(), false))
    } else {
        match arguments_of(args.drop_last()) {
            Err(e) => Err(e),
            Ok((want, yes)) => if is_yes_flag(args.last()) {
                Ok((want, true))
            } else {
                match types::set_of(args.last()) {
                    Ok(set) => Ok((want.union(set), yes)),
                    Err(e) => Err(e),
                }
            },
        }
    }
}

/// The error is that of the first bad argument, whatever follows it.
proof fn lemma_arguments_fail_early(args: Seq<Seq<char>>, i: int)
    requires
        0 <= i <= args.len(),
        arguments_of(args.take(i)) is Err,
    ensures
        arguments_of(args) == arguments_of(args.take(i)),
    decreases args.len() - i,
{
    if i == args.len() {
        assert(args.take(i) == args);
    } else {
        assert(args.take(i + 1).drop_last() == args.take(i));
        lemma_arguments_fail_early(args, i + 1);
    }
}

/// Parses the arguments of `set`. Takes both `mullvad,tailscale` in one argument and
/// `mullvad tailscale` in two, since either is natural to type.
pub fn parse_args(args: &[String]) -> (res: Result<(ProviderSet, bool), Error>)
    ensures
        match res {
            Ok((want, yes)) => arguments_of(text::texts(args@)) == Ok::<
                (Set<ProviderId>, bool),
                ErrorView,
            >((want@, yes)),
            Err(e) => arguments_of(text::texts(args@)) == Err::<(Set<ProviderId>, bool), ErrorView>(
                e@,
            ),
        },
{
    let ghost all = text::texts(args@);
    let mut yes = false;
    let mut want = ProviderSet::new();
    let mut i: usize = 0;
    assert(all.take(0) == Seq::<Seq<char>>::empty());
    while i < args.len()
        invariant
            i <= args.len(),
            all == text::texts(args@),
            arguments_of(all.take(i as int)) == Ok::<(Set<ProviderId>, bool), ErrorView>(
                (want@, yes),
            ),
        decreases args.len() - i,
    {
        proof {
            assert(all[i as int] == args@[i as int]@);
            assert(all.take(i + 1).drop_last() == all.take(i as int));
            assert(all.take(i + 1).last() == all[i as int]);
            if arguments_of(all.take(i + 1)) is Err {
                lemma_arguments_fail_early(all, i + 1);
            }
        }
        let arg = text::chars_of(args[i].as_str());
        if text::is(&arg, "--yes") || text::is(&arg, "-y") {
            yes = true;
        } else {
            match types::parse_set(args[i].as_str()) {
                Ok(set) => {
                    want.extend(set);
                },
                Err(e) => {
                    return Err(e);
                },
            }
        }
        i = i + 1;
    }
    assert(all.take(all.len() as int) == all);
    Ok((want, yes))
}

/// Names joined by a comma in one argument and the same names in two arguments mean the
/// same, also among other arguments.
pub proof fn lemma_comma_and_space_are_equivalent(
    before: Seq<Seq<char>>,
    a: Seq<char>,
    b: Seq<char>,
)
    requires
        !is_yes_flag(a),
        !is_yes_flag(b),
    ensures
        arguments_of(before.push(a + seq![','] + b)) == arguments_of(before.push(a).push(b)),
{
    let joined = a + seq![','] + b;
    assert(!is_yes_flag(joined)) by {
        reveal_strlit("--yes");
        reveal_strlit("-y");
        assert(joined[a.len() as int] == ',');
    }
    types::lemma_comma_is_union(a, b);
    assert(before.push(joined).drop_last() == before);
    assert(before.push(a).push(b).drop_last() == before.push(a));
    assert(before.push(a).drop_last() == before);
    reveal_with_fuel(arguments_of, 3);
    if let Ok((want, yes)) = arguments_of(before) {
        if let (Ok(x), Ok(y)) = (types::set_of(a), types::set_of(b)) {
            assert(want.union(x).union(y) =~= want.union(x.union(y)));
        }
    }
}

/// A set for people to read.
pub open spec fn set_or_none(set: Set<ProviderId>) -> Seq<char> {
    if set == Set::<ProviderId>::empty() {
        "none"@
    } else {
        types::set_text(set)
    }
}

fn shown(set: &ProviderSet) -> (res: String)
    ensures
        res@ == set_or_none(set@),
{
    if set.is_empty() {
        "none".to_string()
    } else {
        types::format_set(set)
    }
}

/// What is said of a provider that was asked for and cannot be engaged right now.
pub open spec fn notice(id: ProviderId, reason: Seq<char>) -> Seq<char> {
    "vpnmux: "@ + types::id_name(id) + ": unavailable — "@ + reason
        + " (may be transient; will retry)"@
}

/// The question that is asked before Mullvad is left while lockdown is on.
pub open spec fn lockdown_question(want: Set<ProviderId>) -> Seq<char> {
    "Mullvad lockdown is active — switching to '"@ + set_or_none(want)
        + "' will block ALL connectivity (incl. the tailnet) until you reconnect Mullvad or disable lockdown. Continue? [y/N] "@
}

/// Asks every provider in the set whether it can be engaged; the result is the notices of
/// those that cannot.
pub open spec fn notices_run<P: Provider>(
    want: Set<ProviderId>,
    providers: Seq<P>,
    replies: Seq<Reply>,
) -> Run<Seq<Seq<char>>>
    decreases providers.len(),
{
    if providers.len() == 0 {
        Run { requests: Seq::empty(), out: Seq::empty() }
    } else {
        let p = providers.last();
        let a = notices_run(want, providers.drop_last(), replies);
        if want.contains(p.ident()) {
            let b = p.status_run(replies.skip(a.requests.len() as int));
            Run {
                requests: a.requests + b.requests,
                out: match b.out.availability {
                    AvailabilityView::Available => a.out,
                    AvailabilityView::Unavailable(reason) => a.out.push(notice(p.ident(), reason)),
                },
            }
        } else {
            a
        }
    }
}

/// Only the replies to its own commands matter.
proof fn lemma_notices_are_local<P: Provider>(
    want: Set<ProviderId>,
    providers: Seq<P>,
    replies: Seq<Reply>,
    more: Seq<Reply>,
)
    requires
        notices_run(want, providers, replies).requests.len() <= replies.len(),
    ensures
        notices_run(want, providers, replies + more) == notices_run(want, providers, replies),
    decreases providers.len(),
{
    if providers.len() > 0 {
        let p = providers.last();
        let a = notices_run(want, providers.drop_last(), replies);
        let n = a.requests.len() as int;
        lemma_notices_are_local(want, providers.drop_last(), replies, more);
        if want.contains(p.ident()) {
            assert((replies + more).skip(n) == replies.skip(n) + more);
            p.replies_are_own(replies.skip(n), more);
        }
    }
}

/// What is to be said and asked before a set is recorded.
pub struct Precheck {
    pub notices: Vec<String>,
    /// The question that must be answered first, if any.
    pub question: Option<String>,
}

pub struct PrecheckView {
    pub notices: Seq<Seq<char>>,
    pub question: Option<Seq<char>>,
}

impl View for Precheck {
    type V = PrecheckView;

    open spec fn view(&self) -> PrecheckView {
        PrecheckView {
            notices: text::texts(self.notices@),
            question: match self.question {
                Some(q) => Some(q@),
                None => None,
            },
        }
    }
}

/// What `precheck` does: the question comes up when Mullvad is left while lockdown is on,
/// unless it was answered in advance.
pub open spec fn precheck_run<P: Provider>(
    want: Set<ProviderId>,
    yes: bool,
    providers: Seq<P>,
    mullvad_bin: Seq<char>,
    replies: Seq<Reply>,
) -> Run<PrecheckView> {
    let a = notices_run(want, providers, replies);
    if want.contains(ProviderId::Mullvad) {
        Run { requests: a.requests, out: PrecheckView { notices: a.out, question: None } }
    } else {
        let b = mullvad::lockdown_run(mullvad_bin, replies.skip(a.requests.len() as int));
        Run {
            requests: a.requests + b.requests,
            out: PrecheckView {
                notices: a.out,
                question: if b.out && !yes {
                    Some(lockdown_question(want))
                } else {
                    None
                },
            },
        }
    }
}

fn notice_of(id: ProviderId, reason: &String) -> (res: String)
    ensures
        res@ == notice(id, reason@),
{
    let mut out = "vpnmux: ".to_string();
    out.append(id.as_str());
    out.append(": unavailable — ");
    out.append(reason.as_str());
    out.append(" (may be transient; will retry)");
    out
}

fn notices<P: Provider, R: Runner>(want: &ProviderSet, providers: &Vec<P>, r: &mut R) -> (res: Vec<
    String,
>)
    ensures
        runner::did(
            *old(r),
            *final(r),
            notices_run(
                want@,
                providers@,
                runner::told(old(r).history(), final(r).history()),
            ),
            text::texts(res@),
        ),
{
    let ghost r0 = *r;
    let ghost h0 = r.history();
    let mut out: Vec<String> = Vec::new();
    let mut i: usize = 0;
    proof {
        runner::lemma_none(h0);
        assert(text::texts(out@) == Seq::<Seq<char>>::empty());
    }
    while i < providers.len()
        invariant
            i <= providers.len(),
            h0 == r0.history(),
            h0.is_prefix_of(r.history()),
            runner::obeyed(r0, *r),
            notices_run(want@, providers@.take(i as int), runner::told(h0, r.history())).requests
                == runner::asked(h0, r.history()),
            notices_run(want@, providers@.take(i as int), runner::told(h0, r.history())).out
                == text::texts(out@),
        decreases providers.len() - i,
    {
        let ghost r1 = *r;
        let ghost h1 = r.history();
        let p = &providers[i];
        let id = p.id();
        let ghost seen = providers@.take(i + 1);
        proof {
            assert(seen.drop_last() == providers@.take(i as int));
            assert(seen.last() == *p);
        }
        if want.contains(&id) {
            let availability = p.check(r);
            let ghost r2 = *r;
            let ghost h2 = r.history();
            proof {
                runner::lemma_chain(h0, h1, h2);
                runner::lemma_obeyed(r0, r1, r2);
                let t1 = runner::told(h0, h1);
                let t2 = runner::told(h1, h2);
                lemma_notices_are_local(want@, seen.drop_last(), t1, t2);
                assert((t1 + t2).skip(t1.len() as int) == t2);
            }
            let ghost before = out@;
            if let Availability::Unavailable(reason) = availability {
                out.push(notice_of(id, &reason));
                assert(text::texts(out@) == text::texts(before).push(notice(id, reason@)));
            }
        }
        i = i + 1;
    }
    assert(providers@.take(providers@.len() as int) == providers@);
    out
}

/// What is to be said and asked before `want` is recorded: which of its providers cannot
/// be engaged right now, and, where Mullvad is left while lockdown is on, whether to go
/// on, since that cuts all connectivity.
pub fn precheck<P: Provider, R: Runner>(
    want: &ProviderSet,
    yes: bool,
    providers: &Vec<P>,
    mullvad: &Mullvad,
    r: &mut R,
) -> (res: Precheck)
    ensures
        runner::did(
            *old(r),
            *final(r),
            precheck_run(
                want@,
                yes,
                providers@,
                mullvad.bin@,
                runner::told(old(r).history(), final(r).history()),
            ),
            res@,
        ),
{
    let ghost r0 = *r;
    let ghost h0 = r.history();
    let notices = notices(want, providers, r);
    let ghost r1 = *r;
    let ghost h1 = r.history();
    if want.contains(&ProviderId::Mullvad) {
        return Precheck { notices, question: None };
    }
    let lockdown = mullvad.lockdown_on(r);
    let ghost r2 = *r;
    let ghost h2 = r.history();
    proof {
        runner::lemma_chain(h0, h1, h2);
        runner::lemma_obeyed(r0, r1, r2);
        let t1 = runner::told(h0, h1);
        let t2 = runner::told(h1, h2);
        lemma_notices_are_local(want@, providers@, t1, t2);
        assert((t1 + t2).skip(t1.len() as int) == t2);
    }
    if !lockdown || yes {
        return Precheck { notices, question: None };
    }
    let mut question = "Mullvad lockdown is active — switching to '".to_string();
    question.append(shown(want).as_str());
    question.append(
        "' will block ALL connectivity (incl. the tailnet) until you reconnect Mullvad or disable lockdown. Continue? [y/N] ",
    );
    Precheck { notices, question: Some(question) }
}

/// Mullvad is never left unasked while lockdown is on, unless the answer was given in
/// advance; and where Mullvad stays, lockdown is not even looked at.
pub proof fn lemma_lockdown_is_asked_about<P: Provider>(
    want: Set<ProviderId>,
    yes: bool,
    providers: Seq<P>,
    mullvad_bin: Seq<char>,
    replies: Seq<Reply>,
)
    ensures
        ({
            let a = notices_run(want, providers, replies);
            let n = a.requests.len() as int;
            let run = precheck_run(want, yes, providers, mullvad_bin, replies);
            let lockdown = mullvad::lockdown_run(mullvad_bin, replies.skip(n)).out;
            &&& run.out.question is Some <==> !want.contains(ProviderId::Mullvad) && lockdown
                && !yes
            &&& want.contains(ProviderId::Mullvad) ==> run.requests == a.requests
        }),
{
}

/// Whether a command only reads the state of the provider.
pub open spec fn reads_state(p: AnyProvider, request: Request) -> bool {
    match p {
        AnyProvider::Mullvad(m) => request == mullvad::status_request(m.bin@),
        AnyProvider::Tailscale(t) => request == tailscale::status_request(t.bin@),
    }
}

pub open spec fn reads_any(providers: Seq<AnyProvider>, request: Request) -> bool {
    exists|k: int| 0 <= k < providers.len() && #[trigger] reads_state(providers[k], request)
}

proof fn lemma_notices_only_read(
    want: Set<ProviderId>,
    providers: Seq<AnyProvider>,
    replies: Seq<Reply>,
)
    ensures
        ({
            let requests = notices_run(want, providers, replies).requests;
            forall|i: int|
                0 <= i < requests.len() ==> reads_any(providers, #[trigger] requests[i])
        }),
    decreases providers.len(),
{
    if providers.len() > 0 {
        let p = providers.last();
        let init = providers.drop_last();
        let a = notices_run(want, init, replies);
        let requests = notices_run(want, providers, replies).requests;
        lemma_notices_only_read(want, init, replies);
        assert forall|i: int| 0 <= i < requests.len() implies reads_any(
            providers,
            #[trigger] requests[i],
        ) by {
            if i < a.requests.len() {
                assert(requests[i] == a.requests[i]);
                let k = choose|k: int|
                    0 <= k < init.len() && #[trigger] reads_state(init[k], requests[i]);
                assert(reads_state(providers[k], requests[i]));
            } else {
                provider::lemma_status_is_one_command(p, replies.skip(a.requests.len() as int));
                assert(reads_state(providers[providers.len() - 1], requests[i]));
            }
        }
    }
}

/// Before a set is recorded nothing is changed: the commands that are run only read the
/// state of a provider or the lockdown mode.
pub proof fn lemma_precheck_only_reads(
    want: Set<ProviderId>,
    yes: bool,
    providers: Seq<AnyProvider>,
    mullvad_bin: Seq<char>,
    replies: Seq<Reply>,
)
    ensures
        ({
            let requests = precheck_run(want, yes, providers, mullvad_bin, replies).requests;
            forall|i: int|
                0 <= i < requests.len() ==> reads_any(providers, #[trigger] requests[i])
                    || requests[i] == mullvad::lockdown_request(mullvad_bin)
        }),
{
    lemma_notices_only_read(want, providers, replies);
    let a = notices_run(want, providers, replies);
    let requests = precheck_run(want, yes, providers, mullvad_bin, replies).requests;
    assert forall|i: int| 0 <= i < requests.len() implies reads_any(
        providers,
        #[trigger] requests[i],
    ) || requests[i] == mullvad::lockdown_request(mullvad_bin) by {
        if i < a.requests.len() {
            assert(requests[i] == a.requests[i]);
        }
    }
}

/// Whether the answer to a question is a yes.
pub fn confirmed(line: &str) -> (res: bool)
    ensures
        res == is_yes(line@),
        res == (text::trim(line@) == "y"@ || text::trim(line@) == "Y"@ || text::trim(line@)
            == "yes"@),
{
    let answer = text::trimmed(&text::chars_of(line));
    text::is(&answer, "y") || text::is(&answer, "Y") || text::is(&answer, "yes")
}

pub open spec fn last_generation(prev: Option<DesiredView>) -> u64 {
    match prev {
        Some(d) => d.generation,
        None => 0,
    }
}

pub open spec fn desired_view(prev: Option<Desired>) -> Option<DesiredView> {
    match prev {
        Some(d) => Some(d@),
        None => None,
    }
}

/// The desired state that follows another.
pub open spec fn next_state(prev: Option<DesiredView>, want: Set<ProviderId>) -> DesiredView {
    DesiredView { generation: (last_generation(prev) + 1) as u64, providers: want }
}

/// The desired state after the one that is recorded.
pub fn next_desired(prev: Option<Desired>, want: &ProviderSet) -> (res: Desired)
    requires
        last_generation(desired_view(prev)) < u64::MAX,
    ensures
        res.generation == last_generation(desired_view(prev)) + 1,
        res.providers == *want,
        res@ == next_state(desired_view(prev), want@),
{
    let generation: u64 = match prev {
        Some(d) => d.generation,
        None => 0,
    };
    Desired { generation: generation + 1, providers: *want }
}

/// How far the daemon has come with what was asked of it.
pub enum Progress {
    /// It has not reached the generation yet.
    Pending,
    /// It has, and all is as asked; what to say.
    Done(String),
    /// It has, and something is missing; what to say, and what to complain of.
    Partial(String, String),
    /// It has not, and there is no time left; what to complain of.
    TimedOut(String),
}

pub enum ProgressView {
    Pending,
    Done(Seq<char>),
    Partial(Seq<char>, Seq<char>),
    TimedOut(Seq<char>),
}

impl View for Progress {
    type V = ProgressView;

    open spec fn view(&self) -> ProgressView {
        match self {
            Progress::Pending => ProgressView::Pending,
            Progress::Done(a) => ProgressView::Done(a@),
            Progress::Partial(a, b) => ProgressView::Partial(a@, b@),
            Progress::TimedOut(a) => ProgressView::TimedOut(a@),
        }
    }
}

/// How far the daemon has come: it is there once the status has the generation or a later
/// one. A status that cannot be read counts as none.
pub open spec fn progress_of(
    generation: u64,
    want: Set<ProviderId>,
    status: Option<StatusView>,
    late: bool,
) -> ProgressView {
    match status {
        Some(s) if s.generation >= generation => {
            let said = "vpnmux: active = "@ + set_or_none(s.active);
            if want.subset_of(s.active) {
                ProgressView::Done(said)
            } else {
                ProgressView::Partial(
                    said,
                    "vpnmux: not yet active: "@ + types::set_text(want.difference(s.active)),
                )
            }
        },
        _ => if late {
            ProgressView::TimedOut(
                "vpnmux: timed out waiting for daemon (is the vpnmux service running?)"@,
            )
        } else {
            ProgressView::Pending
        },
    }
}

/// Looks at the status while waiting for the daemon to take up a generation.
pub fn progress(generation: u64, want: &ProviderSet, status: Option<&Status>, late: bool) -> (res:
    Progress)
    ensures
        res@ == progress_of(generation, want@, json::status_view(status), late),
{
    if let Some(s) = status {
        if s.generation >= generation {
            let mut said = "vpnmux: active = ".to_string();
            said.append(shown(&s.active).as_str());
            let unmet = want.difference(&s.active);
            proof {
                if unmet@ == Set::<ProviderId>::empty() {
                    assert forall|id: ProviderId| want@.contains(id) implies s.active@.contains(
                        id,
                    ) by {
                        assert(!unmet@.contains(id));
                    }
                } else if want@.subset_of(s.active@) {
                    assert(unmet@ =~= Set::<ProviderId>::empty());
                }
            }
            if unmet.is_empty() {
                return Progress::Done(said);
            }
            let mut missing = "vpnmux: not yet active: ".to_string();
            missing.append(types::format_set(&unmet).as_str());
            return Progress::Partial(said, missing);
        }
    }
    if late {
        Progress::TimedOut(
            "vpnmux: timed out waiting for daemon (is the vpnmux service running?)".to_string(),
        )
    } else {
        Progress::Pending
    }
}

/// Whether one of the arguments asks for JSON.
pub open spec fn asks_for_json(args: Seq<Seq<char>>) -> bool {
    args.contains("--json"@)
}

/// Whether the arguments of `status` ask for JSON.
pub fn wants_json(args: &[String]) -> (res: bool)
    ensures
        res == asks_for_json(text::texts(args@)),
        res == text::texts(args@).contains("--json"@),
{
    let mut i: usize = 0;
    while i < args.len()
        invariant
            i <= args.len(),
            forall|k: int| 0 <= k < i ==> (#[trigger] args@[k])@ != "--json"@,
        decreases args.len() - i,
    {
        if text::is(&text::chars_of(args[i].as_str()), "--json") {
            assert(text::texts(args@)[i as int] == "--json"@);
            return true;
        }
        i = i + 1;
    }
    false
}

/// The status for people to read.
pub open spec fn status_text(s: Option<StatusView>) -> Seq<char> {
    match s {
        Some(s) => "generation: "@ + number::decimal(s.generation as nat) + "\nactive: "@
            + set_or_none(s.active) + "\ndns: "@ + dns::backend_name(s.dns),
        None => "vpnmux: no status yet (daemon not running, or never reconciled)"@,
    }
}

/// What is printed of a status.
pub open spec fn printed(s: Option<StatusView>, json: bool) -> Seq<char> {
    if json {
        json::status_object(s)
    } else {
        status_text(s)
    }
}

/// What `status` prints.
pub fn status(s: Option<&Status>, json: bool) -> (res: String)
    ensures
        res@ == printed(json::status_view(s), json),
        res@ == if json {
            json::status_object(json::status_view(s))
        } else {
            status_text(json::status_view(s))
        },
{
    if json {
        return json::status_json(s);
    }
    match s {
        Some(s) => {
            let mut out = "generation: ".to_string();
            out.append(number::decimal_of(s.generation as u128).as_str());
            out.append("\nactive: ");
            out.append(shown(&s.active).as_str());
            out.append("\ndns: ");
            out.append(s.dns.as_str());
            out
        },
        None => "vpnmux: no status yet (daemon not running, or never reconciled)".to_string(),
    }
}

/// An error message, with advice where access was denied.
pub open spec fn hinted(msg: Seq<char>) -> Seq<char> {
    if text::occurs(msg, "Permission denied"@) || text::occurs(msg, "(os error 13)"@) {
        msg
            + "\nhint: add your user to the 'vpnmux' group (and re-login), or run this command with sudo"@
    } else {
        msg
    }
}

/// Adds advice to a permission-denied error: the directories are for root only unless the
/// daemon has given them to the configured group.
pub fn hint_on_eacces(msg: &str) -> (res: String)
    ensures
        res@ == hinted(msg@),
{
    let v = text::chars_of(msg);
    let mut out = msg.to_string();
    if text::contains(&v, "Permission denied") || text::contains(&v, "(os error 13)") {
        out.append(
            "\nhint: add your user to the 'vpnmux' group (and re-login), or run this command with sudo",
        );
    }
    out
}

/// The arguments without the flags.
pub open spec fn without_flags(args: Seq<Seq<char>>) -> Seq<Seq<char>> {
    args.filter(|arg: Seq<char>| arg != "--yes"@ && arg != "-y"@)
}

/// The set that is read from the arguments is that of the arguments without the flags,
/// wherever these stand, and so is the error; the flag is set exactly where one of the two
/// is among the arguments.
pub proof fn lemma_flags_stand_anywhere(args: Seq<Seq<char>>)
    ensures
        match arguments_of(args) {
            Ok((want, yes)) => {
                &&& arguments_of(without_flags(args)) == Ok::<(Set<ProviderId>, bool), ErrorView>(
                    (want, false),
                )
                &&& yes <==> args.contains("--yes"@) || args.contains("-y"@)
            },
            Err(e) => arguments_of(without_flags(args)) == Err::<
                (Set<ProviderId>, bool),
                ErrorView,
            >(e),
        },
    decreases args.len(),
{
    reveal(Seq::filter);
    if args.len() > 0 {
        let init = args.drop_last();
        let last = args.last();
        let rest = without_flags(init);
        lemma_flags_stand_anywhere(init);
        assert(args == init.push(last));
        assert(args[args.len() - 1] == last);
        assert(rest.push(last).drop_last() == rest);
        assert(rest.push(last).last() == last);
        let (a, b) = ("--yes"@, "-y"@);
        if init.contains(a) {
            let i = choose|i: int| 0 <= i < init.len() && init[i] == a;
            assert(args[i] == a);
        }
        if init.contains(b) {
            let i = choose|i: int| 0 <= i < init.len() && init[i] == b;
            assert(args[i] == b);
        }
        if args.contains(a) && last != a {
            let i = choose|i: int| 0 <= i < args.len() && args[i] == a;
            assert(init[i] == a);
        }
        if args.contains(b) && last != b {
            let i = choose|i: int| 0 <= i < args.len() && args[i] == b;
            assert(init[i] == b);
        }
    }
}

/// Whether an argument is not a flag and names the provider.
pub open spec fn asks_for(arg: Seq<char>, id: ProviderId) -> bool {
    &&& arg != "--yes"@ && arg != "-y"@
    &&& types::set_of(arg) matches Ok(set) && set.contains(id)
}

/// Whether an argument is not a flag and names something that is no provider.
pub open spec fn is_bad(arg: Seq<char>) -> bool {
    arg != "--yes"@ && arg != "-y"@ && types::set_of(arg) is Err
}

/// A provider is wanted exactly where an argument other than a flag names it; the first
/// argument that names something else is the error.
pub proof fn lemma_every_argument_counts(args: Seq<Seq<char>>, id: ProviderId)
    ensures
        match arguments_of(args) {
            Ok((want, _)) => {
                &&& want.contains(id) <==> exists|i: int|
                    0 <= i < args.len() && asks_for(#[trigger] args[i], id)
                &&& forall|i: int| 0 <= i < args.len() ==> !is_bad(#[trigger] args[i])
            },
            Err(e) => exists|i: int|
                {
                    &&& 0 <= i < args.len()
                    &&& is_bad(#[trigger] args[i])
                    &&& types::set_of(args[i]) == Err::<Set<ProviderId>, ErrorView>(e)
                    &&& forall|k: int| 0 <= k < i ==> !is_bad(#[trigger] args[k])
                },
        },
    decreases args.len(),
{
    if args.len() > 0 {
        let init = args.drop_last();
        let last = args.last();
        let n = args.len() - 1;
        lemma_every_argument_counts(init, id);
        assert(args[n] == last);
        match arguments_of(init) {
            Err(e) => {
                let i = choose|i: int|
                    {
                        &&& 0 <= i < init.len()
                        &&& is_bad(#[trigger] init[i])
                        &&& types::set_of(init[i]) == Err::<Set<ProviderId>, ErrorView>(e)
                        &&& forall|k: int| 0 <= k < i ==> !is_bad(#[trigger] init[k])
                    };
                assert(is_bad(args[i]));
                assert forall|k: int| 0 <= k < i implies !is_bad(#[trigger] args[k]) by {
                    assert(args[k] == init[k]);
                }
            },
            Ok(_) => {
                assert forall|k: int| 0 <= k < n implies !is_bad(#[trigger] args[k]) by {
                    assert(args[k] == init[k]);
                }
                if exists|i: int| 0 <= i < init.len() && asks_for(#[trigger] init[i], id) {
                    let i = choose|i: int| 0 <= i < init.len() && asks_for(#[trigger] init[i], id);
                    assert(asks_for(args[i], id));
                }
                if exists|i: int| 0 <= i < args.len() && asks_for(#[trigger] args[i], id) {
                    let i = choose|i: int| 0 <= i < args.len() && asks_for(#[trigger] args[i], id);
                    if i < n {
                        assert(asks_for(init[i], id));
                    }
                }
                if asks_for(last, id) {
                    assert(asks_for(args[n], id));
                }
            },
        }
    }
}

/// A set in messages is its list, or "none".
pub proof fn lemma_sets_in_messages()
    ensures
        set_or_none(Set::<ProviderId>::empty()) == "none"@,
        set_or_none(set![ProviderId::Mullvad]) == "mullvad"@,
        set_or_none(set![ProviderId::Tailscale]) == "tailscale"@,
        set_or_none(set![ProviderId::Mullvad, ProviderId::Tailscale]) == "mullvad,tailscale"@,
{
    types::lemma_names_in_text();
    assert(set![ProviderId::Mullvad].contains(ProviderId::Mullvad));
    assert(set![ProviderId::Tailscale].contains(ProviderId::Tailscale));
    assert(set![ProviderId::Mullvad, ProviderId::Tailscale].contains(ProviderId::Mullvad));
}

/// Of each provider that is asked for and cannot be engaged there is one notice, in order,
/// word for word; the others are not even asked.
pub proof fn lemma_notices_word_for_word<P: Provider>(
    want: Set<ProviderId>,
    providers: Seq<P>,
    p: P,
    replies: Seq<Reply>,
)
    ensures
        notices_run(want, Seq::<P>::empty(), replies).requests.len() == 0,
        notices_run(want, Seq::<P>::empty(), replies).out.len() == 0,
        ({
            let before = notices_run(want, providers, replies);
            let after = notices_run(want, providers.push(p), replies);
            let status = p.status_run(replies.skip(before.requests.len() as int));
            if !want.contains(p.ident()) {
                after == before
            } else {
                &&& after.requests == before.requests + status.requests
                &&& status.out.availability is Available ==> after.out == before.out
                &&& status.out.availability matches AvailabilityView::Unavailable(reason)
                    ==> after.out == before.out.push(
                    "vpnmux: "@ + types::id_name(p.ident()) + ": unavailable — "@ + reason
                        + " (may be transient; will retry)"@,
                )
            }
        }),
{
    assert(providers.push(p).drop_last() == providers);
    assert(providers.push(p).last() == p);
}

/// The question names the set that is switched to, and what is at stake, word for word.
pub proof fn lemma_question_word_for_word<P: Provider>(
    want: Set<ProviderId>,
    yes: bool,
    providers: Seq<P>,
    mullvad_bin: Seq<char>,
    replies: Seq<Reply>,
)
    ensures
        ({
            let a = notices_run(want, providers, replies);
            let ask = mullvad::lockdown_run(
                mullvad_bin,
                replies.skip(a.requests.len() as int),
            );
            let run = precheck_run(want, yes, providers, mullvad_bin, replies);
            &&& run.out.notices == a.out
            &&& run.requests == (if want.contains(ProviderId::Mullvad) {
                a.requests
            } else {
                a.requests + ask.requests
            })
            &&& run.out.question is Some <==> !want.contains(ProviderId::Mullvad) && ask.out && !yes
            &&& run.out.question matches Some(q) ==> q
                == "Mullvad lockdown is active — switching to '"@ + (if want.contains(
                ProviderId::Tailscale,
            ) {
                "tailscale"@
            } else {
                "none"@
            })
                + "' will block ALL connectivity (incl. the tailnet) until you reconnect Mullvad or disable lockdown. Continue? [y/N] "@
        }),
{
    lemma_sets_in_messages();
    if !want.contains(ProviderId::Mullvad) {
        if want.contains(ProviderId::Tailscale) {
            assert forall|id: ProviderId| want.contains(id) == set![ProviderId::Tailscale].contains(
                id,
            ) by {
                match id {
                    ProviderId::Mullvad => {},
                    ProviderId::Tailscale => {},
                }
            }
            assert(want =~= set![ProviderId::Tailscale]);
        } else {
            assert forall|id: ProviderId| !want.contains(id) by {
                match id {
                    ProviderId::Mullvad => {},
                    ProviderId::Tailscale => {},
                }
            }
            assert(want =~= Set::<ProviderId>::empty());
        }
    }
}

/// The wait is over exactly where the status has the awaited generation or a later one, or
/// time is up; it is a success exactly where every wanted provider is active. The messages,
/// word for word, name what is active and what is still missing.
pub proof fn lemma_progress_word_for_word(
    generation: u64,
    want: Set<ProviderId>,
    status: Option<StatusView>,
    late: bool,
)
    ensures
        ({
            let answer = progress_of(generation, want, status, late);
            let there = status is Some && status->0.generation >= generation;
            let met = forall|id: ProviderId|
                want.contains(id) ==> #[trigger] status->0.active.contains(id);
            let said = "vpnmux: active = "@ + set_or_none(status->0.active);
            &&& answer is Pending <==> !there && !late
            &&& answer is TimedOut <==> !there && late
            &&& answer is Done <==> there && met
            &&& answer is Partial <==> there && !met
            &&& answer matches ProgressView::Done(message) ==> message == said
            &&& answer matches ProgressView::Partial(message, missing) ==> message == said
                && missing == "vpnmux: not yet active: "@ + types::set_text(
                Set::new(|id: ProviderId| want.contains(id) && !status->0.active.contains(id)),
            )
            &&& answer matches ProgressView::TimedOut(message) ==> message
                == "vpnmux: timed out waiting for daemon (is the vpnmux service running?)"@
        }),
{
    if let Some(s) = status {
        assert(want.difference(s.active) =~= Set::new(
            |id: ProviderId| want.contains(id) && !s.active.contains(id),
        ));
    }
}

/// The status for people, word for word.
pub proof fn lemma_status_word_for_word(s: StatusView)
    ensures
        status_text(Some(s)) == "generation: "@ + number::decimal(s.generation as nat)
            + "\nactive: "@ + set_or_none(s.active) + "\ndns: "@ + dns::backend_name(s.dns),
        status_text(None) == "vpnmux: no status yet (daemon not running, or never reconciled)"@,
{
}

/// Advice is added exactly where the message says that access was denied; the message
/// itself stays.
pub proof fn lemma_advice_is_added(front: Seq<char>, back: Seq<char>, msg: Seq<char>)
    ensures
        ({
            let advice =
                "\nhint: add your user to the 'vpnmux' group (and re-login), or run this command with sudo"@;
            let denied = front + "Permission denied"@ + back;
            let code = front + "(os error 13)"@ + back;
            &&& hinted(denied) == denied + advice
            &&& hinted(code) == code + advice
            &&& hinted(msg) == msg || hinted(msg) == msg + advice
            &&& hinted(msg) != msg ==> text::occurs(msg, "Permission denied"@) || text::occurs(
                msg,
                "(os error 13)"@,
            )
        }),
{
    text::lemma_occurs_between(front, "Permission denied"@, back);
    text::lemma_occurs_between(front, "(os error 13)"@, back);
}

/// Whether the answer to a question is a yes.
pub open spec fn is_yes(line: Seq<char>) -> bool {
    text::trim(line) == "y"@ || text::trim(line) == "Y"@ || text::trim(line) == "yes"@
}

/// A yes is "y", "Y" or "yes" with nothing but blanks around it; all else is a no.
pub proof fn lemma_only_a_yes_counts(front: Seq<char>, word: Seq<char>, back: Seq<char>)
    requires
        text::is_blank(front),
        text::is_blank(back),
        word.len() > 0,
        !text::is_white(word[0]),
        !text::is_white(word.last()),
    ensures
        is_yes(front + word + back) <==> word == seq!['y'] || word == seq!['Y'] || word == seq![
            'y',
            'e',
            's',
        ],
        !is_yes(front),
{
    reveal_strlit("y");
    reveal_strlit("Y");
    reveal_strlit("yes");
    assert("y"@ == seq!['y'] && "Y"@ == seq!['Y'] && "yes"@ == seq!['y', 'e', 's']);
    text::lemma_trim_of_padded(front, word, back);
    text::lemma_trim_of_blank(front);
}

/// The first desired state has generation 1, and each that follows has one more than the
/// last; its providers are those that are wanted, whatever they were.
pub proof fn lemma_generations(d: DesiredView, want: Set<ProviderId>)
    ensures
        last_generation(None) == 0,
        last_generation(Some(d)) == d.generation,
        next_state(None, want).generation == 1,
        d.generation < u64::MAX ==> next_state(Some(d), want).generation == d.generation + 1,
        next_state(Some(d), want).providers == want,
        next_state(None, want).providers == want,
{
}

/// How long `set` waits: eight seconds at most, with four looks a second.
pub proof fn lemma_patience()
    ensures
        PATIENCE_SECONDS == 8,
        POLL_MILLIS == 250,
{
}

/// The flag for JSON may stand anywhere, other arguments do not ask for it, and with it the
/// JSON object is printed in place of the text for people.
pub proof fn lemma_json_where_asked_for(
    args: Seq<Seq<char>>,
    arg: Seq<char>,
    s: Option<StatusView>,
)
    ensures
        !asks_for_json(Seq::empty()),
        asks_for_json(args.push(arg)) <==> asks_for_json(args) || arg == "--json"@,
        printed(s, true) == json::status_object(s),
        printed(s, false) == status_text(s),
{
    let all = args.push(arg);
    let flag = "--json"@;
    assert(all[args.len() as int] == arg);
    if args.contains(flag) {
        let k = choose|k: int| 0 <= k < args.len() && args[k] == flag;
        assert(all[k] == flag);
    }
    if all.contains(flag) && arg != flag {
        let k = choose|k: int| 0 <= k < all.len() && all[k] == flag;
        assert(args[k] == flag);
    }
}

} // verus!
