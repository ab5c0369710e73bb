//! The Tailscale provider.

use crate::provider;
use crate::provider::{AvailabilityView, Provider, ProviderStatus, ProviderStatusView};
use crate::runner;
use crate::runner::{Reply, Request, Run, Runner};
use crate::text;
use crate::types::{Error, ErrorView, ProviderId};
use vstd::prelude::*;

verus! {

pub struct Tailscale {
    pub bin: String,
}

/// The text between the first two double quotes.
pub open spec fn first_quoted(s: Seq<char>) -> Option<Seq<char>> {
    match text::split_once(s, '"') {
        None => None,
        Some((_, opened)) => match text::split_once(opened, '"') {
            None => None,
            Some((inside, _)) => Some(inside),
        },
    }
}

/// The value of the `BackendState` key: the first quoted text after the key and a colon.
pub open spec fn state_of(json: Seq<char>) -> Option<Seq<char>> {
    let key = "\"BackendState\""@;
    match text::find(json, key) {
        None => None,
        Some(i) => match text::split_once(json.skip(i + key.len()), ':') {
            None => None,
            Some((_, rest)) => first_quoted(rest),
        },
    }
}

/// What is learned of Tailscale from the state that its daemon reports.
pub open spec fn state_status(state: Option<Seq<char>>) -> ProviderStatusView {
    match state {
        None => provider::unengageable("tailscaled not running"@),
        Some(name) => if name == "Running"@ {
            provider::engageable(true)
        } else if name == "Stopped"@ || name == "Starting"@ {
            provider::engageable(false)
        } else if name == "NeedsLogin"@ || name == "NeedsMachineAuth"@ {
            provider::unengageable("not logged in (run: tailscale login)"@)
        } else if name == "NoState"@ {
            provider::unengageable("tailscaled not running"@)
        } else {
            provider::unengageable("tailscale in unknown state"@)
        },
    }
}

/// What is learned of Tailscale from the reply to `tailscale status --json`; the exit
/// code plays no part.
pub open spec fn tailscale_status(reply: Reply) -> ProviderStatusView {
    match reply {
        Err(_) => provider::unengageable("tailscale CLI failed"@),
        Ok(out) => state_status(state_of(out.stdout)),
    }
}

pub open spec fn status_request(bin: Seq<char>) -> Request {
    runner::plain(seq![bin, "status"@, "--json"@])
}

pub open spec fn up_request(bin: Seq<char>) -> Request {
    runner::plain(seq![bin, "up"@])
}

pub open spec fn down_request(bin: Seq<char>) -> Request {
    runner::plain(seq![bin, "down"@])
}

/// Scans `tailscale status --json` for the value of `BackendState`: finds the key, then
/// the next quoted text after a colon.
pub fn backend_state(json: &str) -> (res: Option<String>)
    ensures
        match res {
            Some(name) => state_of(json@) == Some(name@),
            None => state_of(json@) is None,
        },
{
    let chars = text::chars_of(json);
    let key = "\"BackendState\"";
    let at: usize = match text::found(&chars, key) {
        Some(i) => i,
        None => {
            return None;
        },
    };
    let width: usize = text::chars_of(key).len();
    proof {
        text::lemma_find(json@, key@);
    }
    let after = text::cut(&chars, at + width, chars.len());
    assert(after@ == json@.skip(at + width));
    let rest = match text::parted(&after, ':') {
        Some((_, rest)) => rest,
        None => {
            return None;
        },
    };
    let opened = match text::parted(&rest, '"') {
        Some((_, opened)) => opened,
        None => {
            return None;
        },
    };
    match text::parted(&opened, '"') {
        Some((inside, _)) => Some(text::string_of(&inside)),
        None => None,
    }
}

/// What a state that the daemon reports means.
fn status_of(state: &Option<String>) -> (res: ProviderStatus)
    ensures
        res@ == state_status(
            match state {
                Some(name) => Some(name@),
                None => None,
            },
        ),
{
    let name = match state {
        Some(name) => text::chars_of(name.as_str()),
        None => {
            return ProviderStatus::down("tailscaled not running");
        },
    };
    if text::is(&name, "Running") {
        ProviderStatus::up(true)
    } else if text::is(&name, "Stopped") || text::is(&name, "Starting") {
        ProviderStatus::up(false)
    } else if text::is(&name, "NeedsLogin") || text::is(&name, "NeedsMachineAuth") {
        ProviderStatus::down("not logged in (run: tailscale login)")
    } else if text::is(&name, "NoState") {
        ProviderStatus::down("tailscaled not running")
    } else {
        ProviderStatus::down("tailscale in unknown state")
    }
}

impl Provider for Tailscale {
    open spec fn ident(&self) -> ProviderId {
        ProviderId::Tailscale
    }

    open spec fn status_run(&self, replies: Seq<Reply>) -> Run<ProviderStatusView> {
        Run { requests: seq![status_request(self.bin@)], out: tailscale_status(replies[0]) }
    }

    open spec fn activate_run(&self, replies: Seq<Reply>) -> Run<Result<(), ErrorView>> {
        Run { requests: seq![up_request(self.bin@)], out: provider::unless_failed(replies[0]) }
    }

    open spec fn deactivate_run(&self, replies: Seq<Reply>) -> Run<Result<(), ErrorView>> {
        Run { requests: seq![down_request(self.bin@)], out: provider::unless_failed(replies[0]) }
    }

    proof fn replies_are_own(&self, replies: Seq<Reply>, more: Seq<Reply>) {
        if replies.len() > 0 {
            assert((replies + more)[0] == replies[0]);
        }
    }

    fn id(&self) -> (res: ProviderId) {
        ProviderId::Tailscale
    }

    fn status<R: Runner>(&self, r: &mut R) -> (res: ProviderStatus) {
        let ghost h = r.history();
        let args = ["status", "--json"];
        let reply = r.run(self.bin.as_str(), &args);
        proof {
            assert(runner::words(self.bin@, args@) == status_request(self.bin@).words);
            runner::lemma_one(
                h,
                runner::Exchange {
                    request: status_request(self.bin@),
                    reply: runner::reply_of(reply),
                },
            );
        }
        match reply {
            Ok(out) => status_of(&backend_state(out.stdout.as_str())),
            Err(_) => ProviderStatus::down("tailscale CLI failed"),
        }
    }

    fn activate<R: Runner>(&self, r: &mut R) -> (res: Result<(), Error>) {
        let args = ["up"];
        assert(runner::words(self.bin@, args@) == up_request(self.bin@).words);
        provider::run_only(self.bin.as_str(), &args, r)
    }

    fn deactivate<R: Runner>(&self, r: &mut R) -> (res: Result<(), Error>) {
        let args = ["down"];
        assert(runner::words(self.bin@, args@) == down_request(self.bin@).words);
        provider::run_only(self.bin.as_str(), &args, r)
    }
}

/// What drives Tailscale, word for word.
pub proof fn lemma_commands_word_for_word(p: Tailscale, replies: Seq<Reply>)
    ensures
        p.ident() == ProviderId::Tailscale,
        p.status_run(replies).requests == seq![
            Request { words: seq![p.bin@, "status"@, "--json"@], input: None },
        ],
        p.activate_run(replies).requests == seq![
            Request { words: seq![p.bin@, "up"@], input: None },
        ],
        p.deactivate_run(replies).requests == seq![
            Request { words: seq![p.bin@, "down"@], input: None },
        ],
        replies[0] matches Ok(_) ==> p.activate_run(replies).out is Ok && p.deactivate_run(
            replies,
        ).out is Ok,
        replies[0] matches Err(e) ==> p.activate_run(replies).out == Err::<(), ErrorView>(e)
            && p.deactivate_run(replies).out == Err::<(), ErrorView>(e),
{
}

/// The state is the first quoted text after the key's colon, wherever the key first stands.
pub proof fn lemma_state_after_key(
    front: Seq<char>,
    between: Seq<char>,
    blank: Seq<char>,
    state: Seq<char>,
    back: Seq<char>,
)
    requires
        text::find(
            front + "\"BackendState\""@ + between + seq![':'] + blank + seq!['"'] + state + seq!['"']
                + back,
            "\"BackendState\""@,
        ) == Some(front.len() as int),
        text::lacks(between, ':'),
        text::lacks(blank, '"'),
        text::lacks(state, '"'),
    ensures
        state_of(
            front + "\"BackendState\""@ + between + seq![':'] + blank + seq!['"'] + state + seq!['"']
                + back,
        ) == Some(state),
{
    let key = "\"BackendState\""@;
    let tail = state + seq!['"'] + back;
    let rest = blank + seq!['"'] + tail;
    let after = between + seq![':'] + rest;
    let json = front + key + between + seq![':'] + blank + seq!['"'] + state + seq!['"'] + back;
    assert(json == front + key + after);
    assert(json.skip(front.len() + key.len() as int) == after);
    text::lemma_position_is(after, ':', between.len() as int);
    assert(after.skip(between.len() as int + 1) == rest);
    text::lemma_position_is(rest, '"', blank.len() as int);
    assert(rest.skip(blank.len() as int + 1) == tail);
    text::lemma_position_is(tail, '"', state.len() as int);
    assert(tail.take(state.len() as int) == state);
}

/// Without the key there is no state.
pub proof fn lemma_no_key_no_state(json: Seq<char>)
    requires
        !text::occurs(json, "\"BackendState\""@),
    ensures
        state_of(json) is None,
{
}

/// What each state means, whatever the exit code: "Running" is up; "Stopped" and
/// "Starting" are not up, but can be engaged; all else cannot be engaged, for a reason
/// that tells a missing login from a daemon that is not there.
pub proof fn lemma_states(p: Tailscale, replies: Seq<Reply>)
    ensures
        ({
            let status = p.status_run(replies).out;
            match replies[0] {
                Err(_) => status.availability == AvailabilityView::Unavailable(
                    "tailscale CLI failed"@,
                ) && !status.active,
                Ok(out) => match state_of(out.stdout) {
                    None => status.availability == AvailabilityView::Unavailable(
                        "tailscaled not running"@,
                    ) && !status.active,
                    Some(name) => {
                        &&& status.active <==> name == "Running"@
                        &&& status.availability is Available <==> name == "Running"@ || name
                            == "Stopped"@ || name == "Starting"@
                        &&& name == "NeedsLogin"@ || name == "NeedsMachineAuth"@
                            ==> status.availability == AvailabilityView::Unavailable(
                            "not logged in (run: tailscale login)"@,
                        )
                        &&& name == "NoState"@ ==> status.availability
                            == AvailabilityView::Unavailable("tailscaled not running"@)
                        &&& !(status.availability is Available) && name != "NeedsLogin"@ && name
                            != "NeedsMachineAuth"@ && name != "NoState"@ ==> status.availability
                            == AvailabilityView::Unavailable("tailscale in unknown state"@)
                    },
                },
            }
        }),
{
    reveal_strlit("Running");
    reveal_strlit("Stopped");
    reveal_strlit("Starting");
    reveal_strlit("NeedsLogin");
    reveal_strlit("NeedsMachineAuth");
    reveal_strlit("NoState");
    assert("Running"@.len() == 7 && "Running"@[0] == 'R');
    assert("Stopped"@.len() == 7 && "Stopped"@[0] == 'S');
    assert("Starting"@.len() == 8);
    assert("NeedsLogin"@.len() == 10);
    assert("NeedsMachineAuth"@.len() == 16);
    assert("NoState"@.len() == 7 && "NoState"@[0] == 'N');
}

} // verus!
