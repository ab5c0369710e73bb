//! The Mullvad provider.

use crate::nft;
use crate::provider;
use crate::provider::{AvailabilityView, Provider, ProviderStatus, ProviderStatusView};
use crate::runner;
use crate::runner::{Reply, Request, Run, Runner};
use crate::text;
use crate::types::{Error, ErrorView, ProviderId};
use vstd::prelude::*;

verus! {

pub struct Mullvad {
    pub bin: String,
    pub nft: String,
}

/// Whether the word is "on", in any letter case.
pub open spec fn says_on(word: Seq<char>) -> bool {
    word.len() == 2 && (word[0] == 'o' || word[0] == 'O') && (word[1] == 'n' || word[1] == 'N')
}

/// Whether the output of `lockdown-mode get` says that lockdown is on. The output is a
/// sentence ("Block traffic when the VPN is disconnected: off"), of which the part after
/// the last colon counts.
pub open spec fn shows_lockdown(stdout: Seq<char>) -> bool {
    says_on(text::trim(text::split(stdout, ':').last()))
}

/// What is learned of Mullvad from the reply to `mullvad status`.
pub open spec fn mullvad_status(reply: Reply) -> ProviderStatusView {
    match reply {
        Err(_) => provider::unengageable("mullvad daemon not reachable"@),
        Ok(out) => if out.code != 0 {
            provider::unengageable("mullvad daemon not reachable"@)
        } else {
            provider::engageable(shows_connected(out.stdout))
        },
    }
}

/// Whether the first line says "Connected"; "Connecting" and "Disconnecting" do not.
pub open spec fn shows_connected(stdout: Seq<char>) -> bool {
    text::lines(stdout).len() > 0 && text::trim(text::lines(stdout)[0]) == "Connected"@
}

pub open spec fn status_request(bin: Seq<char>) -> Request {
    runner::plain(seq![bin, "status"@])
}

pub open spec fn connect_request(bin: Seq<char>) -> Request {
    runner::plain(seq![bin, "connect"@])
}

pub open spec fn disconnect_request(bin: Seq<char>) -> Request {
    runner::plain(seq![bin, "disconnect"@])
}

pub open spec fn lockdown_request(bin: Seq<char>) -> Request {
    runner::plain(seq![bin, "lockdown-mode"@, "get"@])
}

/// What `lockdown_on` does; a command that cannot be run counts as off.
pub open spec fn lockdown_run(bin: Seq<char>, replies: Seq<Reply>) -> Run<bool> {
    Run {
        requests: seq![lockdown_request(bin)],
        out: match replies[0] {
            Ok(out) => shows_lockdown(out.stdout),
            Err(_) => false,
        },
    }
}

/// What the teardown does: disconnect, then delete the table unless lockdown is on.
pub open spec fn teardown_run(bin: Seq<char>, nft: Seq<char>, replies: Seq<Reply>) -> Run<
    Result<(), ErrorView>,
> {
    let disconnect = seq![disconnect_request(bin)];
    match replies[0] {
        Err(e) => Run { requests: disconnect, out: Err(e) },
        Ok(_) => {
            let lockdown = lockdown_run(bin, replies.skip(1));
            if lockdown.out {
                Run { requests: disconnect + lockdown.requests, out: Ok(()) }
            } else {
                let deletion = nft::delete_run(nft, replies.skip(2));
                Run {
                    requests: disconnect + lockdown.requests + deletion.requests,
                    out: match deletion.out {
                        Ok(_) => Ok(()),
                        Err(e) => Err(e),
                    },
                }
            }
        },
    }
}

fn is_on(word: &Vec<char>) -> (res: bool)
    ensures
        res == says_on(word@),
{
    word.len() == 2 && (word[0] == 'o' || word[0] == 'O') && (word[1] == 'n' || word[1] == 'N')
}

impl Mullvad {
    /// Whether lockdown mode is on.
    pub fn lockdown_on<R: Runner>(&self, r: &mut R) -> (res: bool)
        ensures
            runner::did(
                *old(r),
                *final(r),
                lockdown_run(self.bin@, runner::told(old(r).history(), final(r).history())),
                res,
            ),
    {
        let ghost h = r.history();
        let args = ["lockdown-mode", "get"];
        let reply = r.run(self.bin.as_str(), &args);
        proof {
            assert(runner::words(self.bin@, args@) == lockdown_request(self.bin@).words);
            runner::lemma_one(
                h,
                runner::Exchange {
                    request: lockdown_request(self.bin@),
                    reply: runner::reply_of(reply),
                },
            );
        }
        match reply {
            Ok(out) => {
                let parts = text::pieces(&text::chars_of(out.stdout.as_str()), ':');
                proof {
                    text::lemma_split_not_empty(out.stdout@, ':');
                    assert(text::views(parts@).last() == parts@.last()@);
                }
                is_on(&text::trimmed(&parts[parts.len() - 1]))
            },
            Err(_) => false,
        }
    }
}

impl Provider for Mullvad {
    open spec fn ident(&self) -> ProviderId {
        ProviderId::Mullvad
    }

    open spec fn status_run(&self, replies: Seq<Reply>) -> Run<ProviderStatusView> {
        Run { requests: seq![status_request(self.bin@)], out: mullvad_status(replies[0]) }
    }

    open spec fn activate_run(&self, replies: Seq<Reply>) -> Run<Result<(), ErrorView>> {
        Run {
            requests: seq![connect_request(self.bin@)],
            out: provider::unless_failed(replies[0]),
        }
    }

    open spec fn deactivate_run(&self, replies: Seq<Reply>) -> Run<Result<(), ErrorView>> {
        teardown_run(self.bin@, self.nft@, replies)
    }

    proof fn replies_are_own(&self, replies: Seq<Reply>, more: Seq<Reply>) {
        let all = replies + more;
        if replies.len() > 0 {
            assert(all[0] == replies[0]);
        }
        if replies.len() > 1 {
            assert(all.skip(1)[0] == replies.skip(1)[0]);
        }
        if replies.len() > 2 {
            assert(all.skip(2)[0] == replies.skip(2)[0]);
        }
    }

    fn id(&self) -> (res: ProviderId) {
        ProviderId::Mullvad
    }

    fn status<R: Runner>(&self, r: &mut R) -> (res: ProviderStatus) {
        let ghost h = r.history();
        let args = ["status"];
        let reply = r.run(self.bin.as_str(), &args);
        proof {
            assert(runner::words(self.bin@, args@) == status_request(self.bin@).words);
            runner::lemma_one(
                h,
                runner::Exchange {
                    request: status_request(self.bin@),
                    reply: runner::reply_of(reply),
                },
            );
        }
        let out = match reply {
            Ok(out) => out,
            Err(_) => {
                return ProviderStatus::down("mullvad daemon not reachable");
            },
        };
        if !out.ok() {
            return ProviderStatus::down("mullvad daemon not reachable");
        }
        let lines = text::lines_of(&text::chars_of(out.stdout.as_str()));
        proof {
            assert(lines@.len() == text::lines(out.stdout@).len());
            assert(lines@.len() > 0 ==> text::views(lines@)[0] == lines@[0]@);
        }
        let active = lines.len() > 0 && text::is(&text::trimmed(&lines[0]), "Connected");
        ProviderStatus::up(active)
    }

    fn activate<R: Runner>(&self, r: &mut R) -> (res: Result<(), Error>) {
        let args = ["connect"];
        assert(runner::words(self.bin@, args@) == connect_request(self.bin@).words);
        provider::run_only(self.bin.as_str(), &args, r)
    }

    /// Disconnects, and clears Mullvad's table only while lockdown is off: with lockdown
    /// on, the table that blocks all traffic is what the user asked for.
    fn deactivate<R: Runner>(&self, r: &mut R) -> (res: Result<(), Error>) {
        let ghost r0 = *r;
        let ghost h0 = r.history();
        let args = ["disconnect"];
        assert(runner::words(self.bin@, args@) == disconnect_request(self.bin@).words);
        let left = provider::run_only(self.bin.as_str(), &args, r);
        let ghost r1 = *r;
        let ghost h1 = r.history();
        if let Err(e) = left {
            return Err(e);
        }
        let lockdown = self.lockdown_on(r);
        let ghost r2 = *r;
        let ghost h2 = r.history();
        proof {
            runner::lemma_chain(h0, h1, h2);
            runner::lemma_obeyed(r0, r1, r2);
            assert(runner::told(h0, h2).skip(1) == runner::told(h1, h2));
        }
        if lockdown {
            return Ok(());
        }
        let deletion = nft::delete_table(self.nft.as_str(), r);
        let ghost r3 = *r;
        let ghost h3 = r.history();
        proof {
            runner::lemma_chain(h1, h2, h3);
            runner::lemma_obeyed(r1, r2, r3);
            runner::lemma_chain(h0, h1, h3);
            runner::lemma_obeyed(r0, r1, r3);
            assert(runner::told(h0, h3).skip(1)[0] == runner::told(h1, h2)[0]);
            assert(runner::told(h0, h3).skip(2) == runner::told(h2, h3));
            assert(runner::asked(h0, h3) == seq![disconnect_request(self.bin@)] + runner::asked(
                h1,
                h2,
            ) + runner::asked(h2, h3));
        }
        match deletion {
            Ok(_) => Ok(()),
            Err(e) => Err(e),
        }
    }
}

/// With lockdown on, taking Mullvad down never deletes its table: nothing is run but the
/// disconnect and the question whether lockdown is on.
pub proof fn lemma_lockdown_keeps_the_table(bin: Seq<char>, nft: Seq<char>, replies: Seq<Reply>)
    requires
        lockdown_run(bin, replies.skip(1)).out,
    ensures
        teardown_run(bin, nft, replies).requests.is_prefix_of(
            seq![disconnect_request(bin), lockdown_request(bin)],
        ),
{
    let run = teardown_run(bin, nft, replies);
    let all = seq![disconnect_request(bin), lockdown_request(bin)];
    assert(run.requests == all.subrange(0, run.requests.len() as int));
}

/// With lockdown off, a teardown whose disconnect could be run ends with the deletion of
/// the table.
pub proof fn lemma_teardown_deletes_the_table(bin: Seq<char>, nft: Seq<char>, replies: Seq<Reply>)
    requires
        replies[0] is Ok,
        !lockdown_run(bin, replies.skip(1)).out,
    ensures
        teardown_run(bin, nft, replies).requests == seq![
            disconnect_request(bin),
            lockdown_request(bin),
            nft::delete_request(nft),
        ],
{
}

/// What drives Mullvad, word for word: its state is read with `status`, it is engaged with
/// `connect`, and a teardown begins with `disconnect`.
pub proof fn lemma_commands_word_for_word(p: Mullvad, replies: Seq<Reply>)
    ensures
        p.ident() == ProviderId::Mullvad,
        p.status_run(replies).requests == seq![
            Request { words: seq![p.bin@, "status"@], input: None },
        ],
        p.activate_run(replies).requests == seq![
            Request { words: seq![p.bin@, "connect"@], input: None },
        ],
        replies[0] matches Ok(_) ==> p.activate_run(replies).out is Ok,
        replies[0] matches Err(e) ==> p.activate_run(replies).out == Err::<(), ErrorView>(e),
        p.deactivate_run(replies).requests[0] == (Request {
            words: seq![p.bin@, "disconnect"@],
            input: None,
        }),
        lockdown_run(p.bin@, replies).requests == seq![
            Request { words: seq![p.bin@, "lockdown-mode"@, "get"@], input: None },
        ],
{
}

/// Mullvad is out of reach exactly where `status` cannot be run or fails. Else it is active
/// exactly where the first line, blanks aside, is the word "Connected".
pub proof fn lemma_status_from_first_line(p: Mullvad, replies: Seq<Reply>)
    ensures
        ({
            let status = p.status_run(replies).out;
            match replies[0] {
                Err(_) => status.availability == AvailabilityView::Unavailable(
                    "mullvad daemon not reachable"@,
                ) && !status.active,
                Ok(out) => if out.code != 0 {
                    status.availability == AvailabilityView::Unavailable(
                        "mullvad daemon not reachable"@,
                    ) && !status.active
                } else {
                    &&& status.availability is Available
                    &&& out.stdout.len() == 0 ==> !status.active
                    &&& forall|line: Seq<char>, rest: Seq<char>|
                        text::lacks(line, '\n') && out.stdout == #[trigger] (line + seq!['\n']
                            + rest) ==> (status.active <==> text::trim(line) == "Connected"@)
                    &&& text::lacks(out.stdout, '\n') ==> (status.active <==> text::trim(out.stdout)
                        == "Connected"@)
                },
            }
        }),
{
    reveal_strlit("Connected");
    assert("Connected"@.len() == 9);
    if let Ok(out) = replies[0] {
        assert forall|line: Seq<char>, rest: Seq<char>|
            text::lacks(line, '\n') && out.stdout == #[trigger] (line + seq!['\n'] + rest) implies (
        shows_connected(out.stdout) <==> text::trim(line) == "Connected"@) by {
            text::lemma_lines_cons(line, rest);
            text::lemma_trim_strip_cr(line);
        }
        if text::lacks(out.stdout, '\n') {
            text::lemma_lines(out.stdout, Seq::empty());
            if out.stdout.len() == 0 {
                text::lemma_trim_of_blank(out.stdout);
            }
        }
    }
}

/// Lockdown counts as on exactly where the reply says "on" after its last colon, in any
/// letter case and blanks aside; where the question cannot be asked it counts as off.
pub proof fn lemma_lockdown_from_last_colon(
    bin: Seq<char>,
    replies: Seq<Reply>,
    sentence: Seq<char>,
    answer: Seq<char>,
)
    requires
        text::lacks(answer, ':'),
        replies[0] matches Ok(out) ==> out.stdout == sentence + seq![':'] + answer || out.stdout
            == answer,
    ensures
        replies[0] is Err ==> !lockdown_run(bin, replies).out,
        replies[0] is Ok ==> (lockdown_run(bin, replies).out <==> text::trim(answer) == "on"@
            || text::trim(answer) == "On"@ || text::trim(answer) == "oN"@ || text::trim(answer)
            == "ON"@),
{
    reveal_strlit("on");
    reveal_strlit("On");
    reveal_strlit("oN");
    reveal_strlit("ON");
    text::lemma_split_single(answer, ':');
    text::lemma_split_concat(sentence, ':', answer);
    let word = text::trim(answer);
    if says_on(word) {
        if word[0] == 'o' && word[1] == 'n' {
            assert(word == "on"@);
        } else if word[0] == 'O' && word[1] == 'n' {
            assert(word == "On"@);
        } else if word[0] == 'o' {
            assert(word == "oN"@);
        } else {
            assert(word == "ON"@);
        }
    }
    if let Ok(out) = replies[0] {
        assert(text::split(out.stdout, ':').last() == answer);
    }
}

/// A teardown, word for word: after the disconnect comes the question whether lockdown is
/// on, and the table is deleted exactly where it is not. A disconnect or a deletion that
/// cannot be run is the error.
pub proof fn lemma_teardown_word_for_word(p: Mullvad, replies: Seq<Reply>)
    requires
        replies.len() >= p.deactivate_run(replies).requests.len(),
    ensures
        ({
            let run = p.deactivate_run(replies);
            let disconnect = Request { words: seq![p.bin@, "disconnect"@], input: None };
            let ask = Request { words: seq![p.bin@, "lockdown-mode"@, "get"@], input: None };
            let delete = Request {
                words: seq![p.nft@, "delete"@, "table"@, "inet"@, "mullvad"@],
                input: None,
            };
            match replies[0] {
                Err(e) => run.requests == seq![disconnect] && run.out == Err::<(), ErrorView>(e),
                Ok(_) => if lockdown_run(p.bin@, seq![replies[1]]).out {
                    run.requests == seq![disconnect, ask] && run.out is Ok
                } else {
                    &&& run.requests == seq![disconnect, ask, delete]
                    &&& replies[2] matches Ok(_) ==> run.out is Ok
                    &&& replies[2] matches Err(e) ==> run.out == Err::<(), ErrorView>(e)
                },
            }
        }),
{
    if replies.len() > 1 {
        assert(replies.skip(1)[0] == replies[1]);
        assert(seq![replies[1]][0] == replies[1]);
    }
    if replies.len() > 2 {
        assert(replies.skip(2)[0] == replies[2]);
    }
}

} // verus!
