//! The netfilter table that Mullvad keeps.

use crate::provider;
use crate::runner;
use crate::runner::{Reply, Request, Run, Runner};
use crate::text;
use crate::types::{Error, ErrorView};
use vstd::prelude::*;

verus! {

/// `nft list table inet mullvad`.
pub open spec fn list_request(nft: Seq<char>) -> Request {
    runner::plain(seq![nft, "list"@, "table"@, "inet"@, "mullvad"@])
}

/// `nft delete table inet mullvad`.
pub open spec fn delete_request(nft: Seq<char>) -> Request {
    runner::plain(seq![nft, "delete"@, "table"@, "inet"@, "mullvad"@])
}

/// `nft insert rule inet mullvad <chain> <dir> tailscale* accept`.
pub open spec fn insert_request(nft: Seq<char>, chain: Seq<char>, dir: Seq<char>) -> Request {
    runner::plain(
        seq![nft, "insert"@, "rule"@, "inet"@, "mullvad"@, chain, dir, "tailscale*"@, "accept"@],
    )
}

/// How a listing shows the rule for one direction.
pub open spec fn rule_text(dir: Seq<char>) -> Seq<char> {
    dir + " \"tailscale*\""@
}

/// What happens to one rule: it is inserted where the listing lacks it.
pub open spec fn rule_run(
    nft: Seq<char>,
    chain: Seq<char>,
    dir: Seq<char>,
    listing: Seq<char>,
    replies: Seq<Reply>,
) -> Run<Result<(), ErrorView>> {
    if text::occurs(listing, rule_text(dir)) {
        Run { requests: Seq::empty(), out: Ok(()) }
    } else {
        Run {
            requests: seq![insert_request(nft, chain, dir)],
            out: provider::unless_failed(replies[0]),
        }
    }
}

/// What `ensure_whitelist` does.
pub open spec fn whitelist_run(nft: Seq<char>, replies: Seq<Reply>) -> Run<Result<(), ErrorView>> {
    let list = seq![list_request(nft)];
    match replies[0] {
        Err(e) => Run { requests: list, out: Err(e) },
        Ok(listing) => if listing.code != 0 {
            Run { requests: list, out: Ok(()) }
        } else {
            let a = rule_run(nft, "input"@, "iifname"@, listing.stdout, replies.skip(1));
            match a.out {
                Err(e) => Run { requests: list + a.requests, out: Err(e) },
                Ok(_) => {
                    let b = rule_run(
                        nft,
                        "output"@,
                        "oifname"@,
                        listing.stdout,
                        replies.skip(1 + a.requests.len() as int),
                    );
                    Run { requests: list + a.requests + b.requests, out: b.out }
                },
            }
        },
    }
}

fn ensure_rule<R: Runner>(
    nft: &str,
    chain: &str,
    dir: &str,
    listing: &Vec<char>,
    r: &mut R,
) -> (res: Result<(), Error>)
    ensures
        runner::did(
            *old(r),
            *final(r),
            rule_run(
                nft@,
                chain@,
                dir@,
                listing@,
                runner::told(old(r).history(), final(r).history()),
            ),
            provider::done(res),
        ),
{
    let mut needle = dir.to_string();
    needle.append(" \"tailscale*\"");
    if text::contains(listing, needle.as_str()) {
        proof {
            runner::lemma_none(r.history());
        }
        return Ok(());
    }
    let args = ["insert", "rule", "inet", "mullvad", chain, dir, "tailscale*", "accept"];
    assert(runner::words(nft@, args@) == insert_request(nft@, chain@, dir@).words);
    provider::run_only(nft, &args, r)
}

/// Makes sure that both accept rules for the `tailscale*` interfaces stand in
/// `inet mullvad`. Does nothing when the table is absent, as it is while Mullvad is not
/// connected.
pub fn ensure_whitelist<R: Runner>(nft: &str, r: &mut R) -> (res: Result<(), Error>)
    ensures
        runner::did(
            *old(r),
            *final(r),
            whitelist_run(nft@, runner::told(old(r).history(), final(r).history())),
            provider::done(res),
        ),
{
    let ghost r0 = *r;
    let ghost h0 = r.history();
    let args = ["list", "table", "inet", "mullvad"];
    let reply = r.run(nft, &args);
    let ghost r1 = *r;
    let ghost h1 = r.history();
    proof {
        assert(runner::words(nft@, args@) == list_request(nft@).words);
        runner::lemma_one(
            h0,
            runner::Exchange { request: list_request(nft@), reply: runner::reply_of(reply) },
        );
    }
    let listing = match reply {
        Ok(out) => out,
        Err(e) => {
            return Err(e);
        },
    };
    if !listing.ok() {
        return Ok(());
    }
    let shown = text::chars_of(listing.stdout.as_str());
    let first = ensure_rule(nft, "input", "iifname", &shown, r);
    let ghost r2 = *r;
    let ghost h2 = r.history();
    proof {
        runner::lemma_chain(h0, h1, h2);
        runner::lemma_obeyed(r0, r1, r2);
        assert(runner::told(h0, h2).skip(1) == runner::told(h1, h2));
    }
    if let Err(e) = first {
        return Err(e);
    }
    let second = ensure_rule(nft, "output", "oifname", &shown, r);
    let ghost r3 = *r;
    let ghost h3 = r.history();
    proof {
        runner::lemma_chain(h1, h2, h3);
        runner::lemma_obeyed(r1, r2, r3);
        runner::lemma_chain(h0, h1, h3);
        runner::lemma_obeyed(r0, r1, r3);
        let a = runner::asked(h1, h2);
        assert(runner::told(h0, h3).skip(1) == runner::told(h1, h2) + runner::told(h2, h3));
        assert(runner::told(h0, h3).skip(1 + a.len() as int) == runner::told(h2, h3));
        assert(runner::asked(h0, h3) == seq![list_request(nft@)] + a + runner::asked(h2, h3));
        assert(a.len() > 0 ==> runner::told(h0, h3).skip(1)[0] == runner::told(h1, h2)[0]);
    }
    second
}

/// What `delete_table` does.
pub open spec fn delete_run(nft: Seq<char>, replies: Seq<Reply>) -> Run<Result<bool, ErrorView>> {
    Run {
        requests: seq![delete_request(nft)],
        out: match replies[0] {
            Ok(out) => Ok(out.code == 0),
            Err(e) => Err(e),
        },
    }
}

pub open spec fn removed(res: Result<bool, Error>) -> Result<bool, ErrorView> {
    match res {
        Ok(b) => Ok(b),
        Err(e) => Err(e@),
    }
}

/// Deletes the `inet mullvad` table. Tells whether there was a table to remove.
pub fn delete_table<R: Runner>(nft: &str, r: &mut R) -> (res: Result<bool, Error>)
    ensures
        runner::did(
            *old(r),
            *final(r),
            delete_run(nft@, runner::told(old(r).history(), final(r).history())),
            removed(res),
        ),
{
    let ghost h = r.history();
    let args = ["delete", "table", "inet", "mullvad"];
    let reply = r.run(nft, &args);
    proof {
        assert(runner::words(nft@, args@) == delete_request(nft@).words);
        runner::lemma_one(
            h,
            runner::Exchange { request: delete_request(nft@), reply: runner::reply_of(reply) },
        );
    }
    match reply {
        Ok(out) => Ok(out.ok()),
        Err(e) => Err(e),
    }
}

/// The commands that look after the rules are a listing and insertions.
pub proof fn lemma_whitelist_requests(nft: Seq<char>, replies: Seq<Reply>)
    ensures
        forall|i: int|
            #![trigger whitelist_run(nft, replies).requests[i]]
            0 <= i < whitelist_run(nft, replies).requests.len() ==> {
                let request = whitelist_run(nft, replies).requests[i];
                ||| request == list_request(nft)
                ||| request == insert_request(nft, "input"@, "iifname"@)
                ||| request == insert_request(nft, "output"@, "oifname"@)
            },
{
}

/// Where the table is absent nothing is inserted.
pub proof fn lemma_absent_table_is_left_alone(nft: Seq<char>, replies: Seq<Reply>)
    requires
        replies[0] matches Ok(out) && out.code != 0,
    ensures
        whitelist_run(nft, replies) == (Run::<Result<(), ErrorView>> {
            requests: seq![list_request(nft)],
            out: Ok(()),
        }),
{
}

/// Where the listing shows both rules nothing is inserted.
pub proof fn lemma_present_rules_are_left_alone(nft: Seq<char>, replies: Seq<Reply>)
    requires
        replies[0] matches Ok(out) && text::occurs(out.stdout, rule_text("iifname"@))
            && text::occurs(out.stdout, rule_text("oifname"@)),
    ensures
        whitelist_run(nft, replies).requests == seq![list_request(nft)],
        whitelist_run(nft, replies).out is Ok,
{
}

/// Where the table is there and a rule is missing from its listing, the rule is inserted:
/// the first one always, the second one unless the first insertion could not be run.
pub proof fn lemma_missing_rules_are_inserted(nft: Seq<char>, replies: Seq<Reply>)
    requires
        replies[0] matches Ok(out) && out.code == 0,
    ensures
        ({
            let run = whitelist_run(nft, replies);
            let shown = replies[0]->Ok_0.stdout;
            &&& run.requests.contains(insert_request(nft, "input"@, "iifname"@))
                <==> !text::occurs(shown, rule_text("iifname"@))
            &&& run.out is Ok ==> (run.requests.contains(
                insert_request(nft, "output"@, "oifname"@),
            ) <==> !text::occurs(shown, rule_text("oifname"@)))
        }),
{
    let run = whitelist_run(nft, replies);
    let shown = replies[0]->Ok_0.stdout;
    let list = list_request(nft);
    let input = insert_request(nft, "input"@, "iifname"@);
    let output = insert_request(nft, "output"@, "oifname"@);
    reveal_strlit("iifname");
    reveal_strlit("oifname");
    assert(input.words[6] == "iifname"@ && output.words[6] == "oifname"@);
    assert("iifname"@[0] != "oifname"@[0]);
    assert(list.words.len() == 5 && input.words.len() == 9 && output.words.len() == 9);
    let has_input = text::occurs(shown, rule_text("iifname"@));
    let has_output = text::occurs(shown, rule_text("oifname"@));
    if !has_input {
        assert(run.requests[1] == input);
    }
    if run.out is Ok && !has_output {
        assert(run.requests.last() == output);
        assert(run.requests[run.requests.len() - 1] == output);
    }
    lemma_whitelist_requests(nft, replies);
}

/// The commands that look after the rules, word for word. The table is listed. Where the
/// listing fails to run, that is the error; where the table is absent, that is all. Where
/// the listing does not show an accept rule for the `tailscale*` interfaces on the input
/// side, that rule is inserted, rules for other interfaces not counted; and likewise on
/// the output side, unless the first insertion could not be run. Nothing else is run.
pub proof fn lemma_whitelist_word_for_word(nft: Seq<char>, replies: Seq<Reply>)
    requires
        replies.len() >= whitelist_run(nft, replies).requests.len(),
    ensures
        ({
            let run = whitelist_run(nft, replies);
            let list = Request {
                words: seq![nft, "list"@, "table"@, "inet"@, "mullvad"@],
                input: None,
            };
            let input = Request {
                words: seq![
                    nft,
                    "insert"@,
                    "rule"@,
                    "inet"@,
                    "mullvad"@,
                    "input"@,
                    "iifname"@,
                    "tailscale*"@,
                    "accept"@,
                ],
                input: None,
            };
            let output = Request {
                words: seq![
                    nft,
                    "insert"@,
                    "rule"@,
                    "inet"@,
                    "mullvad"@,
                    "output"@,
                    "oifname"@,
                    "tailscale*"@,
                    "accept"@,
                ],
                input: None,
            };
            match replies[0] {
                Err(e) => run.requests == seq![list] && run.out == Err::<(), ErrorView>(e),
                Ok(listing) => if listing.code != 0 {
                    run.requests == seq![list] && run.out is Ok
                } else {
                    let has_input = text::occurs(listing.stdout, "iifname \"tailscale*\""@);
                    let has_output = text::occurs(listing.stdout, "oifname \"tailscale*\""@);
                    if has_input && has_output {
                        run.requests == seq![list] && run.out is Ok
                    } else if has_input {
                        run.requests == seq![list, output] && (replies[1] is Ok ==> run.out is Ok)
                            && (replies[1] matches Err(e) ==> run.out == Err::<(), ErrorView>(e))
                    } else if replies[1] is Err {
                        run.requests == seq![list, input] && run.out == Err::<(), ErrorView>(
                            replies[1]->Err_0,
                        )
                    } else if has_output {
                        run.requests == seq![list, input] && run.out is Ok
                    } else {
                        run.requests == seq![list, input, output] && (replies[2] is Ok ==> run.out is Ok)
                            && (replies[2] matches Err(e) ==> run.out == Err::<(), ErrorView>(e))
                    }
                },
            }
        }),
{
    reveal_strlit("iifname");
    reveal_strlit("oifname");
    reveal_strlit(" \"tailscale*\"");
    reveal_strlit("iifname \"tailscale*\"");
    reveal_strlit("oifname \"tailscale*\"");
    assert(rule_text("iifname"@) == "iifname \"tailscale*\""@);
    assert(rule_text("oifname"@) == "oifname \"tailscale*\""@);
    if replies.len() > 1 {
        assert(replies.skip(1)[0] == replies[1]);
    }
    if replies.len() > 2 {
        assert(replies.skip(2)[0] == replies[2]);
    }
    let list = list_request(nft);
    let input = insert_request(nft, "input"@, "iifname"@);
    let output = insert_request(nft, "output"@, "oifname"@);
    assert(seq![list] + seq![input] == seq![list, input]);
    assert(seq![list] + seq![output] == seq![list, output]);
    assert(seq![list] + seq![input] + seq![output] == seq![list, input, output]);
    assert(seq![list] + Seq::<Request>::empty() == seq![list]);
    assert(seq![list] + Seq::<Request>::empty() + seq![output] == seq![list, output]);
    assert(seq![list] + seq![input] + Seq::<Request>::empty() == seq![list, input]);
    assert(seq![list] + Seq::<Request>::empty() + Seq::<Request>::empty() == seq![list]);
}

/// Where a rule for `tailscale*` stands anywhere in the listing it counts as there.
pub proof fn lemma_shown_rules_count(
    nft: Seq<char>,
    replies: Seq<Reply>,
    a: Seq<char>,
    b: Seq<char>,
    c: Seq<char>,
)
    requires
        replies.len() >= whitelist_run(nft, replies).requests.len(),
        replies[0] matches Ok(out) && out.code == 0 && out.stdout == a + "iifname \"tailscale*\""@
            + b + "oifname \"tailscale*\""@ + c,
    ensures
        whitelist_run(nft, replies).requests.len() == 1,
{
    let shown = replies[0]->Ok_0.stdout;
    let input = "iifname \"tailscale*\""@;
    let output = "oifname \"tailscale*\""@;
    assert(shown == a + input + (b + output + c));
    text::lemma_occurs_between(a, input, b + output + c);
    text::lemma_occurs_between(a + input + b, output, c);
    lemma_whitelist_word_for_word(nft, replies);
}

/// The table is deleted with one command, word for word; it was there exactly where the
/// command succeeds.
pub proof fn lemma_delete_word_for_word(nft: Seq<char>, replies: Seq<Reply>)
    ensures
        delete_run(nft, replies).requests == seq![
            Request { words: seq![nft, "delete"@, "table"@, "inet"@, "mullvad"@], input: None },
        ],
        replies[0] matches Ok(out) ==> delete_run(nft, replies).out == Ok::<bool, ErrorView>(
            out.code == 0,
        ),
        replies[0] matches Err(e) ==> delete_run(nft, replies).out == Err::<bool, ErrorView>(e),
{
}

} // verus!
