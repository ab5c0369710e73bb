//! What the daemon decides, tick by tick.

use crate::cli;
use crate::coexistence::{Bins, ResolverStep};
use crate::dns::DnsBackend;
use crate::log;
use crate::log::{Line, LineView};
use crate::number;
use crate::provider::{AnyProvider, AvailabilityView, Provider};
use crate::reconcile;
use crate::reconcile::{Action, Failure, OutcomeView};
use crate::runner;
use crate::runner::{Reply, Request, Run, Runner};
use crate::state;
use crate::state::{Desired, DesiredView, Status, StatusView};
use crate::text;
use crate::types;
use crate::types::{ErrorView, ProviderId, ProviderSet};
use vstd::prelude::*;

verus! {

/// Seconds between two ticks.
pub const TICK_SECONDS: u64 = 2;

/// Set-group-id and full access for the group: new files get the directory's group, so
/// that what one member of the group writes the daemon and the other members can still
/// read and replace.
pub const DIR_MODE_GROUP: u32 = 0o2770;

/// For root only: no group is configured, or it does not exist yet.
pub const DIR_MODE_ROOT_ONLY: u32 = 0o0700;

/// The permission bits for a group, or for none.
pub open spec fn mode_for(gid: Option<u32>) -> u32 {
    if gid is Some {
        DIR_MODE_GROUP
    } else {
        DIR_MODE_ROOT_ONLY
    }
}

/// The permission bits of the state directories, given the id of the configured group.
pub fn dir_mode(gid: Option<u32>) -> (res: u32)
    ensures
        res == mode_for(gid),
        res == if gid is Some {
            DIR_MODE_GROUP
        } else {
            DIR_MODE_ROOT_ONLY
        },
{
    match gid {
        Some(_) => DIR_MODE_GROUP,
        None => DIR_MODE_ROOT_ONLY,
    }
}

/// Whether the permission bits among `current` are not `mode`, or not known.
pub open spec fn mode_differs(current: Option<u32>, mode: u32) -> bool {
    match current {
        Some(bits) => bits & 0o7777 != mode,
        None => true,
    }
}

/// Whether a directory with these mode bits has to be given `mode`. Under systemd's
/// `RestrictSUIDSGID` the attempt fails even where it would change nothing, so it is made
/// only where the permission bits differ; `current` is `None` where they are not known.
pub fn needs_chmod(current: Option<u32>, mode: u32) -> (res: bool)
    ensures
        res == mode_differs(current, mode),
        res == match current {
            Some(bits) => bits & 0o7777 != mode,
            None => true,
        },
{
    match current {
        Some(bits) => bits & 0o7777 != mode,
        None => true,
    }
}

/// What is logged about who may use the state directories.
pub open spec fn access_text(group: Option<&str>, gid: Option<u32>) -> Seq<char> {
    match group {
        Some(g) => if gid is Some {
            "state dirs group-writable by '"@ + g@ + "' (mode 02770)"@
        } else {
            "group '"@ + g@ + "' not present; CLI will require sudo (create the group to enable)"@
        },
        None => "VPNMUX_GROUP unset — state dirs root-only; CLI requires sudo"@,
    }
}

/// Tells who may use the state directories, given the configured group and its id.
pub fn access_line(group: Option<&str>, gid: Option<u32>) -> (res: Line)
    ensures
        res@ == (LineView { level: log::INFO, text: access_text(group, gid) }),
{
    match (group, gid) {
        (Some(g), Some(_)) => {
            let mut text = "state dirs group-writable by '".to_string();
            text.append(g);
            text.append("' (mode 02770)");
            info(text)
        },
        (Some(g), None) => {
            let mut text = "group '".to_string();
            text.append(g);
            text.append("' not present; CLI will require sudo (create the group to enable)");
            info(text)
        },
        (None, _) => info(
            "VPNMUX_GROUP unset — state dirs root-only; CLI requires sudo".to_string(),
        ),
    }
}

fn info(text: String) -> (res: Line)
    ensures
        res@ == (LineView { level: log::INFO, text: text@ }),
{
    Line { level: log::INFO, text }
}

/// What is logged about an error that did not stop a pass, with the error's message.
pub open spec fn failure_text(action: Action, message: Seq<char>) -> Seq<char> {
    match action {
        Action::Activate(id) => "provider "@ + types::id_name(id) + " activate failed: "@ + message,
        Action::Deactivate(id) => "provider "@ + types::id_name(id) + " deactivate failed: "@
            + message,
        Action::Coexistence => "coexistence apply failed: "@ + message,
    }
}

/// Tells of an error that did not stop a pass.
pub fn failure_line(action: Action, message: &str) -> (res: Line)
    ensures
        res@ == (LineView { level: log::ERROR, text: failure_text(action, message@) }),
{
    let mut text = match action {
        Action::Activate(id) => {
            let mut text = "provider ".to_string();
            text.append(id.as_str());
            text.append(" activate failed: ");
            text
        },
        Action::Deactivate(id) => {
            let mut text = "provider ".to_string();
            text.append(id.as_str());
            text.append(" deactivate failed: ");
            text
        },
        Action::Coexistence => "coexistence apply failed: ".to_string(),
    };
    text.append(message);
    Line { level: log::ERROR, text }
}

/// What one tick leaves for the next.
pub struct Prev {
    pub generation: u64,
    pub active: ProviderSet,
    /// The desired providers that could not be engaged.
    pub unavailable: Vec<ProviderId>,
}

pub struct PrevView {
    pub generation: u64,
    pub active: Set<ProviderId>,
    pub unavailable: Seq<ProviderId>,
}

impl View for Prev {
    type V = PrevView;

    open spec fn view(&self) -> PrevView {
        PrevView {
            generation: self.generation,
            active: self.active@,
            unavailable: self.unavailable@,
        }
    }
}

pub open spec fn prev_view(prev: Option<Prev>) -> Option<PrevView> {
    match prev {
        Some(p) => Some(p@),
        None => None,
    }
}

/// What a tick comes to.
pub struct Tick {
    pub prev: Option<Prev>,
    /// The status to write, if any.
    pub status: Option<Status>,
    /// What is left to do about `resolv.conf`.
    pub resolver: ResolverStep,
    /// The errors on the way, in order.
    pub failures: Vec<Failure>,
    /// What to log after that, in order.
    pub lines: Vec<Line>,
}

pub struct TickView {
    pub prev: Option<PrevView>,
    pub status: Option<StatusView>,
    pub resolver: ResolverStep,
    pub failures: Seq<(Action, ErrorView)>,
    pub lines: Seq<LineView>,
}

impl View for Tick {
    type V = TickView;

    open spec fn view(&self) -> TickView {
        TickView {
            prev: prev_view(self.prev),
            status: match self.status {
                Some(s) => Some(s@),
                None => None,
            },
            resolver: self.resolver,
            failures: reconcile::failed(self.failures@),
            lines: log::lines(self.lines@),
        }
    }
}

pub open spec fn info_line(text: Seq<char>) -> LineView {
    LineView { level: log::INFO, text }
}

/// The active set that a tick left behind; nothing where there was none.
pub open spec fn active_before(prev: Option<PrevView>) -> Set<ProviderId> {
    match prev {
        Some(p) => p.active,
        None => Set::empty(),
    }
}

pub open spec fn unavailable_before(prev: Option<PrevView>) -> Seq<ProviderId> {
    match prev {
        Some(p) => p.unavailable,
        None => Seq::empty(),
    }
}

/// Whether the desired state is another one than that of the tick before.
pub open spec fn is_new(prev: Option<PrevView>, generation: u64) -> bool {
    match prev {
        Some(p) => p.generation != generation,
        None => true,
    }
}

/// A new desired state is logged.
pub open spec fn desired_lines(prev: Option<PrevView>, d: DesiredView) -> Seq<LineView> {
    if is_new(prev, d.generation) {
        seq![
            info_line(
                "desired set gen "@ + number::decimal(d.generation as nat) + ": providers ["@
                    + types::set_text(d.providers) + "]"@,
            ),
        ]
    } else {
        Seq::empty()
    }
}

/// A change of the active set is logged, with a remark where nobody asked for it.
pub open spec fn active_lines(
    prev: Option<PrevView>,
    generation: u64,
    active: Set<ProviderId>,
) -> Seq<LineView> {
    if prev matches Some(p) && p.active == active {
        Seq::empty()
    } else {
        seq![
            info_line(
                "active: ["@ + types::set_text(active_before(prev)) + "] -> ["@ + types::set_text(
                    active,
                ) + "]"@ + (if is_new(prev, generation) {
                    Seq::<char>::empty()
                } else {
                    " (external)"@
                }),
            ),
        ]
    }
}

pub open spec fn unavailable_line(x: (ProviderId, Seq<char>)) -> LineView {
    info_line("provider "@ + types::id_name(x.0) + " unavailable: "@ + x.1)
}

pub open spec fn again_line(id: ProviderId) -> LineView {
    info_line("provider "@ + types::id_name(id) + " available again"@)
}

/// What stands in the list of unavailable providers, without the reasons.
pub open spec fn ids(unavailable: Seq<(ProviderId, Seq<char>)>) -> Seq<ProviderId> {
    unavailable.map_values(|x: (ProviderId, Seq<char>)| x.0)
}

/// Every provider that is unavailable and was not before is logged with the reason.
pub open spec fn lost_lines(
    before: Seq<ProviderId>,
    unavailable: Seq<(ProviderId, Seq<char>)>,
) -> Seq<LineView> {
    unavailable.filter(|x: (ProviderId, Seq<char>)| !before.contains(x.0)).map_values(
        |x: (ProviderId, Seq<char>)| unavailable_line(x),
    )
}

/// Every provider that was unavailable and is not any more is logged.
pub open spec fn again_lines(
    before: Seq<ProviderId>,
    unavailable: Seq<(ProviderId, Seq<char>)>,
) -> Seq<LineView> {
    before.filter(|id: ProviderId| !ids(unavailable).contains(id)).map_values(
        |id: ProviderId| again_line(id),
    )
}

/// What a tick logs about the changes since the tick before.
pub open spec fn change_lines(
    prev: Option<PrevView>,
    d: DesiredView,
    out: OutcomeView,
) -> Seq<LineView> {
    desired_lines(prev, d) + active_lines(prev, d.generation, out.active) + lost_lines(
        unavailable_before(prev),
        out.unavailable,
    ) + again_lines(unavailable_before(prev), out.unavailable)
}

/// What comes of a pass over the providers.
pub open spec fn ticked(
    prev: Option<PrevView>,
    d: DesiredView,
    backend: DnsBackend,
    out: OutcomeView,
) -> TickView {
    TickView {
        prev: Some(
            PrevView {
                generation: d.generation,
                active: out.active,
                unavailable: ids(out.unavailable),
            },
        ),
        status: Some(
            StatusView {
                generation: d.generation,
                active: out.active,
                available: out.available,
                unavailable: out.unavailable,
                dns: backend,
            },
        ),
        resolver: out.resolver,
        failures: out.failures,
        lines: change_lines(prev, d, out),
    }
}

/// What was found where the desired state should be: a state, nothing, or an error with
/// its message.
pub type Reading = Result<Option<Desired>, String>;

pub open spec fn reading(r: Reading) -> Result<Option<DesiredView>, Seq<char>> {
    match r {
        Ok(Some(d)) => Ok(Some(d@)),
        Ok(None) => Ok(None),
        Err(e) => Err(e@),
    }
}

/// A tick that touches nothing.
pub open spec fn resting(prev: Option<PrevView>, lines: Seq<LineView>) -> TickView {
    TickView {
        prev,
        status: None,
        resolver: ResolverStep::Leave,
        failures: Seq::empty(),
        lines,
    }
}

/// What `tick` does. Without a desired state nothing is managed; while it cannot be read,
/// nothing is done and nothing is forgotten.
pub open spec fn tick_run<P: Provider>(
    prev: Option<PrevView>,
    desired: Result<Option<DesiredView>, Seq<char>>,
    providers: Seq<P>,
    bins: Bins,
    backend: DnsBackend,
    replies: Seq<Reply>,
) -> Run<TickView> {
    match desired {
        Ok(Some(d)) => {
            let run = reconcile::reconcile_run(
                d.providers,
                providers,
                active_before(prev),
                bins,
                backend,
                replies,
            );
            Run { requests: run.requests, out: ticked(prev, d, backend, run.out) }
        },
        Ok(None) => Run {
            requests: Seq::empty(),
            out: resting(
                None,
                if prev is Some {
                    seq![info_line("desired file absent — going idle (managing nothing)"@)]
                } else {
                    Seq::empty()
                },
            ),
        },
        Err(e) => Run {
            requests: Seq::empty(),
            out: resting(
                prev,
                seq![LineView { level: log::ERROR, text: "read desired failed: "@ + e }],
            ),
        },
    }
}

fn desired_line(d: &Desired) -> (res: Line)
    ensures
        seq![res@] == desired_lines(None, d@),
{
    let mut text = "desired set gen ".to_string();
    text.append(number::decimal_of(d.generation as u128).as_str());
    text.append(": providers [");
    text.append(types::format_set(&d.providers).as_str());
    text.append("]");
    info(text)
}

fn active_line(before: &ProviderSet, active: &ProviderSet, asked: bool) -> (res: Line)
    ensures
        res@ == info_line(
            "active: ["@ + types::set_text(before@) + "] -> ["@ + types::set_text(active@) + "]"@
                + (if asked {
                Seq::<char>::empty()
            } else {
                " (external)"@
            }),
        ),
{
    let mut text = "active: [".to_string();
    text.append(types::format_set(before).as_str());
    text.append("] -> [");
    text.append(types::format_set(active).as_str());
    text.append("]");
    let ghost so_far = text@;
    if !asked {
        text.append(" (external)");
    } else {
        assert(so_far + Seq::<char>::empty() == so_far);
    }
    info(text)
}

fn lost_line(id: ProviderId, reason: &String) -> (res: Line)
    ensures
        res@ == unavailable_line((id, reason@)),
{
    let mut text = "provider ".to_string();
    text.append(id.as_str());
    text.append(" unavailable: ");
    text.append(reason.as_str());
    info(text)
}

fn found_line(id: ProviderId) -> (res: Line)
    ensures
        res@ == again_line(id),
{
    let mut text = "provider ".to_string();
    text.append(id.as_str());
    text.append(" available again");
    info(text)
}

fn lists(v: &Vec<ProviderId>, id: ProviderId) -> (res: bool)
    ensures
        res == v@.contains(id),
{
    let mut i: usize = 0;
    while i < v.len()
        invariant
            i <= v.len(),
            forall|k: int| 0 <= k < i ==> v@[k] != id,
        decreases v.len() - i,
    {
        if v[i] == id {
            assert(v@[i as int] == id);
            return true;
        }
        i = i + 1;
    }
    false
}

/// Appends a line.
fn log_line(lines: &mut Vec<Line>, line: Line)
    ensures
        log::lines(final(lines)@) == log::lines(old(lines)@).push(line@),
{
    lines.push(line);
    assert(log::lines(lines@) == log::lines(old(lines)@).push(line@));
}

/// Logs the providers that became unavailable.
fn log_lost(lines: &mut Vec<Line>, before: &Vec<ProviderId>, unavailable: &Vec<(ProviderId, String)>)
    ensures
        log::lines(final(lines)@) == log::lines(old(lines)@) + lost_lines(
            before@,
            reconcile::reasons(unavailable@),
        ),
{
    let ghost all = reconcile::reasons(unavailable@);
    let ghost keep = |x: (ProviderId, Seq<char>)| !before@.contains(x.0);
    let ghost shown = |x: (ProviderId, Seq<char>)| unavailable_line(x);
    let ghost start = log::lines(lines@);
    let mut i: usize = 0;
    proof {
        reveal(Seq::filter);
        assert(start == start + all.take(0).filter(keep).map_values(shown));
    }
    while i < unavailable.len()
        invariant
            i <= unavailable.len(),
            all == reconcile::reasons(unavailable@),
            keep == (|x: (ProviderId, Seq<char>)| !before@.contains(x.0)),
            shown == (|x: (ProviderId, Seq<char>)| unavailable_line(x)),
            log::lines(lines@) == start + all.take(i as int).filter(keep).map_values(shown),
        decreases unavailable.len() - i,
    {
        let ghost so_far = all.take(i as int).filter(keep);
        proof {
            reveal(Seq::filter);
            assert(all.take(i + 1).drop_last() == all.take(i as int));
            assert(all.take(i + 1).last() == all[i as int]);
            assert(so_far.push(all[i as int]).map_values(shown) == so_far.map_values(shown).push(
                shown(all[i as int]),
            ));
        }
        let id = unavailable[i].0;
        assert(all[i as int] == (id, unavailable@[i as int].1@));
        if !lists(before, id) {
            log_line(lines, lost_line(id, &unavailable[i].1));
            assert(log::lines(lines@) == start + so_far.map_values(shown).push(
                shown(all[i as int]),
            ));
        }
        i = i + 1;
    }
    assert(all.take(all.len() as int) == all);
}

/// Logs the providers that are not unavailable any more.
fn log_again(lines: &mut Vec<Line>, before: &Vec<ProviderId>, now: &Vec<ProviderId>)
    ensures
        log::lines(final(lines)@) == log::lines(old(lines)@) + before@.filter(
            |id: ProviderId| !now@.contains(id),
        ).map_values(|id: ProviderId| again_line(id)),
{
    let ghost keep = |id: ProviderId| !now@.contains(id);
    let ghost shown = |id: ProviderId| again_line(id);
    let ghost start = log::lines(lines@);
    let mut i: usize = 0;
    proof {
        reveal(Seq::filter);
        assert(start == start + before@.take(0).filter(keep).map_values(shown));
    }
    while i < before.len()
        invariant
            i <= before.len(),
            keep == (|id: ProviderId| !now@.contains(id)),
            shown == (|id: ProviderId| again_line(id)),
            log::lines(lines@) == start + before@.take(i as int).filter(keep).map_values(shown),
        decreases before.len() - i,
    {
        let ghost so_far = before@.take(i as int).filter(keep);
        let id = before[i];
        proof {
            reveal(Seq::filter);
            assert(before@.take(i + 1).drop_last() == before@.take(i as int));
            assert(before@.take(i + 1).last() == id);
            assert(so_far.push(id).map_values(shown) == so_far.map_values(shown).push(shown(id)));
        }
        if !lists(now, id) {
            log_line(lines, found_line(id));
            assert(log::lines(lines@) == start + so_far.map_values(shown).push(shown(id)));
        }
        i = i + 1;
    }
    assert(before@.take(before@.len() as int) == before@);
}

fn ids_of(unavailable: &Vec<(ProviderId, String)>) -> (res: Vec<ProviderId>)
    ensures
        res@ == ids(reconcile::reasons(unavailable@)),
{
    let mut out: Vec<ProviderId> = Vec::new();
    let mut i: usize = 0;
    while i < unavailable.len()
        invariant
            i <= unavailable.len(),
            out@ == ids(reconcile::reasons(unavailable@)).take(i as int),
        decreases unavailable.len() - i,
    {
        out.push(unavailable[i].0);
        i = i + 1;
    }
    out
}

fn rest(prev: Option<Prev>, lines: Vec<Line>) -> (res: Tick)
    ensures
        res@ == resting(prev_view(prev), log::lines(lines@)),
{
    let failures: Vec<Failure> = Vec::new();
    assert(reconcile::failed(failures@) == Seq::<(Action, ErrorView)>::empty());
    Tick { prev, status: None, resolver: ResolverStep::Leave, failures, lines }
}

/// One iteration. What the last one left is carried along, so that changes are logged
/// once. Without a desired state vpnmux is idle and manages nothing.
pub fn tick<P: Provider, R: Runner>(
    prev: Option<Prev>,
    desired: Reading,
    providers: &Vec<P>,
    bins: &Bins,
    backend: DnsBackend,
    r: &mut R,
) -> (res: Tick)
    ensures
        runner::did(
            *old(r),
            *final(r),
            tick_run(
                prev_view(prev),
                reading(desired),
                providers@,
                *bins,
                backend,
                runner::told(old(r).history(), final(r).history()),
            ),
            res@,
        ),
{
    proof {
        runner::lemma_none(r.history());
    }
    let mut lines: Vec<Line> = Vec::new();
    assert(log::lines(lines@) == Seq::<LineView>::empty());
    let d = match desired {
        Ok(Some(d)) => d,
        Ok(None) => {
            if prev.is_some() {
                log_line(
                    &mut lines,
                    info("desired file absent — going idle (managing nothing)".to_string()),
                );
            }
            assert(prev is Some ==> log::lines(lines@) == seq![
                info_line("desired file absent — going idle (managing nothing)"@),
            ]);
            return rest(None, lines);
        },
        Err(e) => {
            let mut text = "read desired failed: ".to_string();
            text.append(e.as_str());
            log_line(&mut lines, Line { level: log::ERROR, text });
            assert(log::lines(lines@) == seq![LineView { level: log::ERROR, text: text@ }]);
            return rest(prev, lines);
        },
    };
    let ghost before = prev_view(prev);
    let mut prev_active = ProviderSet::new();
    let mut prev_unavailable: Vec<ProviderId> = Vec::new();
    let mut desired_changed = true;
    let mut first = true;
    if let Some(p) = prev {
        prev_active = p.active;
        prev_unavailable = p.unavailable;
        desired_changed = p.generation != d.generation;
        first = false;
    }
    let outcome = reconcile::reconcile(&d.providers, providers, &prev_active, bins, backend, r);
    let ghost out = outcome@;
    if desired_changed {
        log_line(&mut lines, desired_line(&d));
    }
    assert(log::lines(lines@) == desired_lines(before, d@));
    proof {
        types::lemma_set_is_its_members(prev_active, outcome.active);
    }
    if first || prev_active != outcome.active {
        log_line(&mut lines, active_line(&prev_active, &outcome.active, desired_changed));
    }
    assert(log::lines(lines@) == desired_lines(before, d@) + active_lines(
        before,
        d.generation,
        out.active,
    ));
    log_lost(&mut lines, &prev_unavailable, &outcome.unavailable);
    let unavailable = ids_of(&outcome.unavailable);
    log_again(&mut lines, &prev_unavailable, &unavailable);
    let status = Status {
        generation: d.generation,
        active: outcome.active,
        available: outcome.available,
        unavailable: outcome.unavailable,
        dns: backend,
    };
    Tick {
        prev: Some(Prev { generation: d.generation, active: status.active, unavailable }),
        status: Some(status),
        resolver: outcome.resolver,
        failures: outcome.failures,
        lines,
    }
}

/// Without a desired state nothing is touched: no command is run, no file is written, and
/// nothing is remembered. While the desired state cannot be read, what was remembered is
/// kept, and nothing is touched either.
pub proof fn lemma_idle_touches_nothing<P: Provider>(
    prev: Option<PrevView>,
    desired: Result<Option<DesiredView>, Seq<char>>,
    providers: Seq<P>,
    bins: Bins,
    backend: DnsBackend,
    replies: Seq<Reply>,
)
    requires
        !(desired matches Ok(Some(_))),
    ensures
        ({
            let run = tick_run(prev, desired, providers, bins, backend, replies);
            &&& run.requests == Seq::<Request>::empty()
            &&& run.out.status is None
            &&& run.out.resolver == ResolverStep::Leave
            &&& run.out.prev == (if desired is Ok {
                None
            } else {
                prev
            })
        }),
{
}

/// A filter that nothing passes leaves nothing.
proof fn lemma_filter_none<A>(s: Seq<A>, keep: spec_fn(A) -> bool)
    requires
        forall|i: int| 0 <= i < s.len() ==> !keep(#[trigger] s[i]),
    ensures
        s.filter(keep) == Seq::<A>::empty(),
    decreases s.len(),
{
    reveal(Seq::filter);
    if s.len() > 0 {
        assert(!keep(s[s.len() - 1]));
        assert forall|i: int| 0 <= i < s.drop_last().len() implies !keep(
            #[trigger] s.drop_last()[i],
        ) by {
            assert(s.drop_last()[i] == s[i]);
        }
        lemma_filter_none(s.drop_last(), keep);
    }
}

/// A pass that finds everything as the tick before left it is not worth a line.
pub proof fn lemma_steady_tick_is_silent(
    prev: PrevView,
    d: DesiredView,
    out: OutcomeView,
)
    requires
        prev.generation == d.generation,
        prev.active == out.active,
        prev.unavailable == ids(out.unavailable),
    ensures
        change_lines(Some(prev), d, out) == Seq::<LineView>::empty(),
{
    let lost = |x: (ProviderId, Seq<char>)| !prev.unavailable.contains(x.0);
    let again = |id: ProviderId| !ids(out.unavailable).contains(id);
    assert forall|i: int| 0 <= i < out.unavailable.len() implies !lost(
        #[trigger] out.unavailable[i],
    ) by {
        assert(ids(out.unavailable)[i] == out.unavailable[i].0);
    }
    lemma_filter_none(out.unavailable, lost);
    lemma_filter_none(prev.unavailable, again);
}

/// After a pass the next one starts from what this one reported: a pass that finds the
/// same again logs nothing.
pub proof fn lemma_same_outcome_is_silent(
    prev: Option<PrevView>,
    d: DesiredView,
    backend: DnsBackend,
    out: OutcomeView,
    again: OutcomeView,
)
    requires
        again.active == out.active,
        again.unavailable == out.unavailable,
    ensures
        ticked(ticked(prev, d, backend, out).prev, d, backend, again).lines
            == Seq::<LineView>::empty(),
{
    lemma_steady_tick_is_silent(ticked(prev, d, backend, out).prev->0, d, again);
}

/// The reasons that the providers give are single lines without a blank at the end.
proof fn lemma_reason_is_plain(p: AnyProvider, replies: Seq<Reply>)
    ensures
        p.status_run(replies).out.availability matches AvailabilityView::Unavailable(reason)
            ==> state::is_reason(reason),
{
    reveal_strlit("mullvad daemon not reachable");
    reveal_strlit("tailscaled not running");
    reveal_strlit("not logged in (run: tailscale login)");
    reveal_strlit("tailscale in unknown state");
    reveal_strlit("tailscale CLI failed");
}

proof fn lemma_reasons_are_plain(
    desired: Set<ProviderId>,
    providers: Seq<AnyProvider>,
    replies: Seq<Reply>,
)
    ensures
        ({
            let unavailable = reconcile::pass_run(desired, providers, replies).out.unavailable;
            forall|k: int|
                0 <= k < unavailable.len() ==> state::is_reason((#[trigger] unavailable[k]).1)
        }),
    decreases providers.len(),
{
    if providers.len() > 0 {
        let p = providers.last();
        let a = reconcile::pass_run(desired, providers.drop_last(), replies);
        lemma_reasons_are_plain(desired, providers.drop_last(), replies);
        lemma_reason_is_plain(p, replies.skip(a.requests.len() as int));
        let all = reconcile::pass_run(desired, providers, replies).out.unavailable;
        assert forall|k: int| 0 <= k < all.len() implies state::is_reason(
            (#[trigger] all[k]).1,
        ) by {
            if k < a.out.unavailable.len() {
                assert(all[k] == a.out.unavailable[k]);
            }
        }
    }
}

/// What the daemon writes as its status is read back as it was: the generation of the
/// desired state, the active and the available providers, and the reasons.
pub proof fn lemma_report_reads_back(
    prev: Option<PrevView>,
    d: DesiredView,
    providers: Seq<AnyProvider>,
    bins: Bins,
    backend: DnsBackend,
    replies: Seq<Reply>,
)
    ensures
        ({
            let out = tick_run(prev, Ok(Some(d)), providers, bins, backend, replies).out;
            &&& out.status matches Some(s)
            &&& s.generation == d.generation
            &&& s.active.subset_of(d.providers)
            &&& s.dns == backend
            &&& state::status_from(text::lines(text::unlines(state::status_lines(s)))) == Ok::<
                StatusView,
                ErrorView,
            >(s)
        }),
{
    let out = tick_run(prev, Ok(Some(d)), providers, bins, backend, replies).out;
    reconcile::lemma_only_desired_is_reported(
        d.providers,
        providers,
        active_before(prev),
        bins,
        backend,
        replies,
    );
    lemma_reasons_are_plain(d.providers, providers, replies);
    state::lemma_status_reads_back(out.status->0);
}

/// Whoever waits for a desired state is answered by the tick that took it up: with all
/// that was asked for exactly where all of it is active, and never that time is up.
pub proof fn lemma_tick_answers<P: Provider>(
    prev: Option<PrevView>,
    d: DesiredView,
    providers: Seq<P>,
    bins: Bins,
    backend: DnsBackend,
    replies: Seq<Reply>,
    late: bool,
)
    ensures
        ({
            let out = tick_run(prev, Ok(Some(d)), providers, bins, backend, replies).out;
            let answer = cli::progress_of(d.generation, d.providers, out.status, late);
            if out.status->0.active == d.providers {
                answer is Done
            } else {
                answer is Partial
            }
        }),
{
    let out = tick_run(prev, Ok(Some(d)), providers, bins, backend, replies).out;
    reconcile::lemma_only_desired_is_reported(
        d.providers,
        providers,
        active_before(prev),
        bins,
        backend,
        replies,
    );
    let active = out.status->0.active;
    if d.providers.subset_of(active) {
        assert(active =~= d.providers);
    }
}

/// The permission bits: the group's directories keep the group for new files and are open
/// to it alone; the others are root's.
pub proof fn lemma_modes(gid: u32)
    ensures
        mode_for(Some(gid)) == 0o2770,
        mode_for(None) == 0o700,
{
}

/// Twelve bits are permissions: a directory that has them needs nothing, whatever its other
/// bits say; one that differs in them does, and so does one of which nothing is known.
pub proof fn lemma_modes_that_differ(bits: u32, mode: u32)
    requires
        mode < 0o10000,
    ensures
        mode_differs(None, mode),
        mode_differs(Some(bits), mode) <==> bits % 0o10000 != mode,
{
    assert(bits & 0o7777 == bits % 0o10000) by (bit_vector);
}

/// What is logged about access and errors, word for word.
#[verifier::rlimit(40)]
pub proof fn lemma_remarks_word_for_word(group: &str, gid: u32, message: Seq<char>)
    ensures
        access_text(Some(group), Some(gid)) == "state dirs group-writable by '"@ + group@
            + "' (mode 02770)"@,
        access_text(Some(group), None) == "group '"@ + group@
            + "' not present; CLI will require sudo (create the group to enable)"@,
        access_text(None, None) == "VPNMUX_GROUP unset — state dirs root-only; CLI requires sudo"@,
        access_text(None, Some(gid))
            == "VPNMUX_GROUP unset — state dirs root-only; CLI requires sudo"@,
        failure_text(Action::Coexistence, message) == "coexistence apply failed: "@ + message,
        failure_text(Action::Activate(ProviderId::Mullvad), message)
            == "provider mullvad activate failed: "@ + message,
        failure_text(Action::Activate(ProviderId::Tailscale), message)
            == "provider tailscale activate failed: "@ + message,
        failure_text(Action::Deactivate(ProviderId::Mullvad), message)
            == "provider mullvad deactivate failed: "@ + message,
        failure_text(Action::Deactivate(ProviderId::Tailscale), message)
            == "provider tailscale deactivate failed: "@ + message,
{
    types::lemma_names_in_text();
    reveal_strlit("provider ");
    reveal_strlit("mullvad");
    reveal_strlit("tailscale");
    reveal_strlit(" activate failed: ");
    reveal_strlit(" deactivate failed: ");
    reveal_strlit("provider mullvad activate failed: ");
    reveal_strlit("provider tailscale activate failed: ");
    reveal_strlit("provider mullvad deactivate failed: ");
    reveal_strlit("provider tailscale deactivate failed: ");
    assert("provider "@ + "mullvad"@ + " activate failed: "@
        == "provider mullvad activate failed: "@);
    assert("provider "@ + "tailscale"@ + " activate failed: "@
        == "provider tailscale activate failed: "@);
    assert("provider "@ + "mullvad"@ + " deactivate failed: "@
        == "provider mullvad deactivate failed: "@);
    assert("provider "@ + "tailscale"@ + " deactivate failed: "@
        == "provider tailscale deactivate failed: "@);
}

/// Whether a list of unavailable providers has one of them.
pub open spec fn has_lost(unavailable: Seq<(ProviderId, Seq<char>)>, id: ProviderId) -> bool {
    exists|k: int| 0 <= k < unavailable.len() && (#[trigger] unavailable[k]).0 == id
}

/// A provider is logged as unavailable, with the reason, exactly where it was not
/// unavailable before; one line each, in the order of the report.
pub proof fn lemma_loss_is_logged_once(
    before: Seq<ProviderId>,
    unavailable: Seq<(ProviderId, Seq<char>)>,
    id: ProviderId,
    reason: Seq<char>,
)
    ensures
        lost_lines(before, Seq::empty()) == Seq::<LineView>::empty(),
        before.contains(id) ==> lost_lines(before, unavailable.push((id, reason))) == lost_lines(
            before,
            unavailable,
        ),
        !before.contains(id) ==> lost_lines(before, unavailable.push((id, reason))) == lost_lines(
            before,
            unavailable,
        ).push(
            LineView {
                level: log::INFO,
                text: "provider "@ + types::id_name(id) + " unavailable: "@ + reason,
            },
        ),
{
    reveal(Seq::filter);
    let x = (id, reason);
    let keep = |x: (ProviderId, Seq<char>)| !before.contains(x.0);
    let shown = |x: (ProviderId, Seq<char>)| unavailable_line(x);
    let none = Seq::<(ProviderId, Seq<char>)>::empty();
    assert(none.filter(keep) == none);
    assert(none.map_values(shown) == Seq::<LineView>::empty());
    assert(unavailable.push(x).drop_last() == unavailable);
    assert(unavailable.push(x).last() == x);
    let kept = unavailable.filter(keep);
    assert(kept.push(x).map_values(shown) == kept.map_values(shown).push(shown(x)));
}

/// A provider is logged as available again exactly where it was unavailable before and is
/// not reported as unavailable now.
pub proof fn lemma_return_is_logged_once(
    before: Seq<ProviderId>,
    id: ProviderId,
    unavailable: Seq<(ProviderId, Seq<char>)>,
)
    ensures
        again_lines(Seq::empty(), unavailable) == Seq::<LineView>::empty(),
        has_lost(unavailable, id) ==> again_lines(before.push(id), unavailable) == again_lines(
            before,
            unavailable,
        ),
        !has_lost(unavailable, id) ==> again_lines(before.push(id), unavailable) == again_lines(
            before,
            unavailable,
        ).push(
            LineView {
                level: log::INFO,
                text: "provider "@ + types::id_name(id) + " available again"@,
            },
        ),
{
    reveal(Seq::filter);
    let now = ids(unavailable);
    let keep = |id: ProviderId| !ids(unavailable).contains(id);
    let shown = |id: ProviderId| again_line(id);
    let none = Seq::<ProviderId>::empty();
    assert(none.filter(keep) == none);
    assert(none.map_values(shown) == Seq::<LineView>::empty());
    assert(before.push(id).drop_last() == before);
    assert(before.push(id).last() == id);
    let kept = before.filter(keep);
    assert(kept.push(id).map_values(shown) == kept.map_values(shown).push(shown(id)));
    if has_lost(unavailable, id) {
        let k = choose|k: int| 0 <= k < unavailable.len() && (#[trigger] unavailable[k]).0 == id;
        assert(now[k] == id);
    }
    if now.contains(id) {
        let k = choose|k: int| 0 <= k < now.len() && now[k] == id;
        assert(unavailable[k].0 == id);
    }
}

/// What a tick that took up a desired state logs, in order: the desired set where its
/// generation is new; the active set where it changed, with a remark where the generation
/// did not; then the losses and the returns.
pub proof fn lemma_tick_log_word_for_word<P: Provider>(
    prev: Option<PrevView>,
    d: DesiredView,
    providers: Seq<P>,
    bins: Bins,
    backend: DnsBackend,
    replies: Seq<Reply>,
)
    ensures
        ({
            let out = tick_run(prev, Ok(Some(d)), providers, bins, backend, replies).out;
            let s = out.status->0;
            let fresh = prev is None || prev->0.generation != d.generation;
            let moved = prev is None || prev->0.active != s.active;
            let wanted = LineView {
                level: log::INFO,
                text: "desired set gen "@ + number::decimal(d.generation as nat) + ": providers ["@
                    + types::set_text(d.providers) + "]"@,
            };
            let was = if prev is None {
                Set::empty()
            } else {
                prev->0.active
            };
            let change = "active: ["@ + types::set_text(was) + "] -> ["@ + types::set_text(s.active)
                + "]"@;
            let active = LineView {
                level: log::INFO,
                text: if fresh {
                    change
                } else {
                    change + " (external)"@
                },
            };
            let lost = if prev is None {
                Seq::empty()
            } else {
                prev->0.unavailable
            };
            &&& out.lines == (if fresh {
                seq![wanted]
            } else {
                Seq::empty()
            }) + (if moved {
                seq![active]
            } else {
                Seq::empty()
            }) + lost_lines(lost, s.unavailable) + again_lines(lost, s.unavailable)
        }),
{
    let out = tick_run(prev, Ok(Some(d)), providers, bins, backend, replies).out;
    let s = out.status->0;
    let change = "active: ["@ + types::set_text(active_before(prev)) + "] -> ["@ + types::set_text(
        s.active,
    ) + "]"@;
    assert(change + Seq::<char>::empty() == change);
}

/// What a tick that took up a desired state hands on: the report of the pass over the
/// providers as the status, with the state's generation and the resolver's backend, and for
/// the next tick what the status says.
pub proof fn lemma_tick_hands_on_the_report<P: Provider>(
    prev: Option<PrevView>,
    d: DesiredView,
    providers: Seq<P>,
    bins: Bins,
    backend: DnsBackend,
    replies: Seq<Reply>,
)
    ensures
        ({
            let was = if prev is None {
                Set::empty()
            } else {
                prev->0.active
            };
            let pass = reconcile::reconcile_run(
                d.providers,
                providers,
                was,
                bins,
                backend,
                replies,
            );
            let run = tick_run(prev, Ok(Some(d)), providers, bins, backend, replies);
            &&& run.requests == pass.requests
            &&& run.out.resolver == pass.out.resolver
            &&& run.out.failures == pass.out.failures
            &&& run.out.status matches Some(s)
            &&& s.generation == d.generation
            &&& s.active == pass.out.active
            &&& s.available == pass.out.available
            &&& s.unavailable == pass.out.unavailable
            &&& s.dns == backend
            &&& run.out.prev matches Some(p)
            &&& p.generation == s.generation
            &&& p.active == s.active
            &&& p.unavailable.len() == s.unavailable.len()
            &&& forall|k: int|
                0 <= k < s.unavailable.len() ==> #[trigger] p.unavailable[k] == s.unavailable[k].0
        }),
{
}

/// What a tick without a desired state logs: that vpnmux goes idle, once; or the error that
/// kept it from reading the state, each time.
pub proof fn lemma_idle_log_word_for_word<P: Provider>(
    prev: PrevView,
    before: Option<PrevView>,
    message: Seq<char>,
    providers: Seq<P>,
    bins: Bins,
    backend: DnsBackend,
    replies: Seq<Reply>,
)
    ensures
        tick_run(Some(prev), Ok(None), providers, bins, backend, replies).out.lines == seq![
            LineView {
                level: log::INFO,
                text: "desired file absent — going idle (managing nothing)"@,
            },
        ],
        tick_run(None, Ok(None), providers, bins, backend, replies).out.lines == Seq::<
            LineView,
        >::empty(),
        tick_run(before, Err(message), providers, bins, backend, replies).out.lines == seq![
            LineView { level: log::ERROR, text: "read desired failed: "@ + message },
        ],
        tick_run(before, Ok(None), providers, bins, backend, replies).out.failures == Seq::<
            (Action, ErrorView),
        >::empty(),
        tick_run(before, Err(message), providers, bins, backend, replies).out.failures == Seq::<
            (Action, ErrorView),
        >::empty(),
{
}

} // verus!
