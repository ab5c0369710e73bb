//! Running external commands, and what is known of the commands that were run.

use crate::text;
use crate::types::{Error, ErrorView};
use vstd::prelude::*;

verus! {

#[derive(Debug, Clone)]
pub struct CmdOutput {
    pub code: i32,
    pub stdout: String,
}

pub struct OutputView {
    pub code: i32,
    pub stdout: Seq<char>,
}

impl View for CmdOutput {
    type V = OutputView;

    open spec fn view(&self) -> OutputView {
        OutputView { code: self.code, stdout: self.stdout@ }
    }
}

impl CmdOutput {
    pub fn ok(&self) -> (res: bool)
        ensures
            res == (self.code == 0),
    {
        self.code == 0
    }
}

/// A command line, word by word, and the text offered to its standard input.
pub struct Request {
    pub words: Seq<Seq<char>>,
    pub input: Option<Seq<char>>,
}

/// What came back from a command: its output, or why it could not be run.
pub type Reply = Result<OutputView, ErrorView>;

/// A command and what came back from it.
pub struct Exchange {
    pub request: Request,
    pub reply: Reply,
}

pub open spec fn reply_of(res: Result<CmdOutput, Error>) -> Reply {
    match res {
        Ok(out) => Ok(out@),
        Err(e) => Err(e@),
    }
}

/// The words of a command line.
pub open spec fn words(bin: Seq<char>, args: Seq<&str>) -> Seq<Seq<char>> {
    seq![bin] + args.map_values(|a: &str| a@)
}

/// A command with these words and no input.
pub open spec fn plain(words: Seq<Seq<char>>) -> Request {
    Request { words, input: None }
}

/// What a procedure does when its commands get certain replies: the commands that it
/// issues, in order, and its result. The first reply belongs to the first command and
/// so on; replies past the last command play no part.
pub struct Run<T> {
    pub requests: Seq<Request>,
    pub out: T,
}

/// The exchanges that `after` has and `before` has not.
pub open spec fn since(before: Seq<Exchange>, after: Seq<Exchange>) -> Seq<Exchange> {
    after.skip(before.len() as int)
}

/// The commands of the exchanges that `after` has and `before` has not.
pub open spec fn asked(before: Seq<Exchange>, after: Seq<Exchange>) -> Seq<Request> {
    since(before, after).map_values(|x: Exchange| x.request)
}

/// The replies of the exchanges that `after` has and `before` has not.
pub open spec fn told(before: Seq<Exchange>, after: Seq<Exchange>) -> Seq<Reply> {
    since(before, after).map_values(|x: Exchange| x.reply)
}

/// Whether going from the history `before` to `after` with the result `out` is what
/// `run` describes.
pub open spec fn ran<T>(before: Seq<Exchange>, after: Seq<Exchange>, run: Run<T>, out: T) -> bool {
    &&& before.is_prefix_of(after)
    &&& run.requests == asked(before, after)
    &&& run.out == out
}

/// What two stretches of a history have in them, one after the other.
pub proof fn lemma_chain(a: Seq<Exchange>, b: Seq<Exchange>, c: Seq<Exchange>)
    requires
        a.is_prefix_of(b),
        b.is_prefix_of(c),
    ensures
        a.is_prefix_of(c),
        asked(a, c) == asked(a, b) + asked(b, c),
        told(a, c) == told(a, b) + told(b, c),
        asked(a, b).len() == told(a, b).len(),
        asked(b, c).len() == told(b, c).len(),
{
    assert(b == c.subrange(0, b.len() as int));
    assert(a == b.subrange(0, a.len() as int));
    assert(a == c.subrange(0, a.len() as int));
    assert(since(a, c) == since(a, b) + since(b, c));
    assert(asked(a, c) == asked(a, b) + asked(b, c));
    assert(told(a, c) == told(a, b) + told(b, c));
}

/// What a single command adds to a history.
pub proof fn lemma_one(h: Seq<Exchange>, x: Exchange)
    ensures
        h.is_prefix_of(h.push(x)),
        asked(h, h.push(x)) == seq![x.request],
        told(h, h.push(x)) == seq![x.reply],
{
    assert(h == h.push(x).subrange(0, h.len() as int));
    assert(since(h, h.push(x)) == seq![x]);
    assert(asked(h, h.push(x)) == seq![x.request]);
    assert(told(h, h.push(x)) == seq![x.reply]);
}

/// A history that did not grow.
pub proof fn lemma_none(h: Seq<Exchange>)
    ensures
        h.is_prefix_of(h),
        asked(h, h) == Seq::<Request>::empty(),
        told(h, h) == Seq::<Reply>::empty(),
{
    assert(h == h.subrange(0, h.len() as int));
    assert(since(h, h) == Seq::<Exchange>::empty());
    assert(asked(h, h) == Seq::<Request>::empty());
    assert(told(h, h) == Seq::<Reply>::empty());
}

/// Every external command goes through this seam, so that the logic around commands
/// can be tried without touching the system.
pub trait Runner {
    /// The commands run so far, each with its reply. The body given here stands in for a
    /// runner written in ordinary Rust, which cannot name its history: what such a runner
    /// promises is that every call of `run` or `run_stdin` runs one command, the one it was
    /// given, and returns the reply to it. A verified runner has a history of its own.
    closed spec fn history(&self) -> Seq<Exchange> {
        Seq::empty()
    }

    /// Whether the runner may answer the command with the reply. Any reply may come unless
    /// a runner says more.
    closed spec fn may_reply(&self, request: Request, reply: Reply) -> bool {
        true
    }

    fn run(&mut self, bin: &str, args: &[&str]) -> (res: Result<CmdOutput, Error>)
        ensures
            final(self).history() == old(self).history().push(
                Exchange { request: plain(words(bin@, args@)), reply: reply_of(res) },
            ),
            old(self).may_reply(plain(words(bin@, args@)), reply_of(res)),
            forall|request: Request, reply: Reply| #[trigger]
                final(self).may_reply(request, reply) == old(self).may_reply(request, reply),
    ;

    /// Like `run`, but feeds `stdin` to the command.
    fn run_stdin(&mut self, bin: &str, args: &[&str], stdin: &str) -> (res: Result<
        CmdOutput,
        Error,
    >)
        ensures
            final(self).history() == old(self).history().push(
                Exchange {
                    request: Request { words: words(bin@, args@), input: Some(stdin@) },
                    reply: reply_of(res),
                },
            ),
            old(self).may_reply(
                Request { words: words(bin@, args@), input: Some(stdin@) },
                reply_of(res),
            ),
            forall|request: Request, reply: Reply| #[trigger]
                final(self).may_reply(request, reply) == old(self).may_reply(request, reply),
    ;
}

/// Whether every reply since `before` was one that the runner may give, and the replies
/// that it may give are still the same.
pub open spec fn obeyed<R: Runner>(before: R, after: R) -> bool {
    &&& forall|request: Request, reply: Reply| #[trigger]
        after.may_reply(request, reply) == before.may_reply(request, reply)
    &&& forall|i: int|
        0 <= i < asked(before.history(), after.history()).len() ==> before.may_reply(
            asked(before.history(), after.history())[i],
            #[trigger] told(before.history(), after.history())[i],
        )
}

/// Whether a procedure that leaves the runner `after` where it found `before`, and returns
/// `out`, does what `run` describes, with replies that the runner may give.
pub open spec fn did<R: Runner, T>(before: R, after: R, run: Run<T>, out: T) -> bool {
    &&& ran(before.history(), after.history(), run, out)
    &&& obeyed(before, after)
}

/// What holds of two stretches of commands holds of both together.
pub proof fn lemma_obeyed<R: Runner>(a: R, b: R, c: R)
    requires
        a.history().is_prefix_of(b.history()),
        b.history().is_prefix_of(c.history()),
        obeyed(a, b),
        obeyed(b, c),
    ensures
        obeyed(a, c),
{
    let (x, y, z) = (a.history(), b.history(), c.history());
    lemma_chain(x, y, z);
    let n = asked(x, y).len() as int;
    assert forall|i: int| 0 <= i < asked(x, z).len() implies a.may_reply(
        asked(x, z)[i],
        #[trigger] told(x, z)[i],
    ) by {
        if i < n {
            assert(told(x, z)[i] == told(x, y)[i]);
        } else {
            assert(told(x, z)[i] == told(y, z)[i - n]);
            assert(b.may_reply(asked(y, z)[i - n], told(y, z)[i - n]));
        }
    }
    assert forall|request: Request, reply: Reply| #[trigger]
        c.may_reply(request, reply) == a.may_reply(request, reply) by {
        assert(b.may_reply(request, reply) == a.may_reply(request, reply));
    }
}

/// A runner for tests: answers from a script keyed by the full "bin arg1 arg2" command
/// line, records every call, and answers exit code 0 and empty output to commands that
/// the script lacks.
pub struct MockRunner {
    responses: Vec<(String, CmdOutput)>,
    calls: Vec<String>,
    log: Ghost<Seq<Exchange>>,
}

/// The answers of a script; a later entry replaces an earlier one.
pub open spec fn script(entries: Seq<(String, CmdOutput)>) -> Map<Seq<char>, OutputView>
    decreases entries.len(),
{
    if entries.len() == 0 {
        Map::empty()
    } else {
        script(entries.drop_last()).insert(entries.last().0@, entries.last().1@)
    }
}

/// The answer of a script to a command line.
pub open spec fn scripted(answers: Map<Seq<char>, OutputView>, line: Seq<char>) -> OutputView {
    if answers.contains_key(line) {
        answers[line]
    } else {
        OutputView { code: 0, stdout: Seq::empty() }
    }
}

/// The words of a command with a blank between each two of them.
pub open spec fn command_line(words: Seq<Seq<char>>) -> Seq<char> {
    text::join(words, " "@)
}

/// The command lines of a history.
pub open spec fn command_lines(history: Seq<Exchange>) -> Seq<Seq<char>> {
    history.map_values(|x: Exchange| command_line(x.request.words))
}

impl MockRunner {
    /// Every call is recorded.
    #[verifier::type_invariant]
    spec fn records_all(&self) -> bool {
        text::texts(self.calls@) == command_lines(self.log@)
    }

    /// The scripted answers by command line.
    pub closed spec fn answers(&self) -> Map<Seq<char>, OutputView> {
        script(self.responses@)
    }

    /// The command lines run so far.
    pub closed spec fn recorded(&self) -> Seq<Seq<char>> {
        text::texts(self.calls@)
    }

    /// The command lines run so far.
    pub fn calls(&self) -> (res: &Vec<String>)
        ensures
            text::texts(res@) == self.recorded(),
            text::texts(res@) == command_lines(self.history()),
    {
        proof {
            use_type_invariant(self);
        }
        &self.calls
    }

    pub fn new() -> (res: MockRunner)
        ensures
            res.answers() == Map::<Seq<char>, OutputView>::empty(),
            res.recorded() == Seq::<Seq<char>>::empty(),
            res.history() == Seq::<Exchange>::empty(),
    {
        let calls: Vec<String> = Vec::new();
        assert(text::texts(calls@) == command_lines(Seq::empty()));
        MockRunner { responses: Vec::new(), calls, log: Ghost(Seq::empty()) }
    }

    /// Registers the answer to an exact command line.
    pub fn on(self, cmdline: &str, code: i32, stdout: &str) -> (res: MockRunner)
        ensures
            res.answers() == self.answers().insert(
                cmdline@,
                OutputView { code, stdout: stdout@ },
            ),
            res.recorded() == self.recorded(),
            res.history() == self.history(),
    {
        proof {
            use_type_invariant(&self);
        }
        let mut responses = self.responses;
        responses.push((cmdline.to_string(), CmdOutput { code, stdout: stdout.to_string() }));
        assert(responses@.drop_last() == self.responses@);
        MockRunner { responses, calls: self.calls, log: self.log }
    }

    pub fn called(&self, cmdline: &str) -> (res: bool)
        ensures
            res == self.recorded().contains(cmdline@),
            res == command_lines(self.history()).contains(cmdline@),
    {
        proof {
            use_type_invariant(self);
        }
        let line = text::chars_of(cmdline);
        let mut i: usize = 0;
        while i < self.calls.len()
            invariant
                i <= self.calls.len(),
                line@ == cmdline@,
                text::texts(self.calls@) == command_lines(self.log@),
                forall|k: int| 0 <= k < i ==> (#[trigger] self.calls@[k])@ != cmdline@,
            decreases self.calls.len() - i,
        {
            if text::same(&text::chars_of(self.calls[i].as_str()), &line) {
                assert(text::texts(self.calls@)[i as int] == cmdline@);
                return true;
            }
            i = i + 1;
        }
        false
    }

    fn answer(&self, line: &String) -> (res: CmdOutput)
        ensures
            res@ == scripted(self.answers(), line@),
    {
        let mut i: usize = self.responses.len();
        assert(self.responses@.take(i as int) == self.responses@);
        while i > 0
            invariant
                i <= self.responses.len(),
                scripted(self.answers(), line@) == scripted(
                    script(self.responses@.take(i as int)),
                    line@,
                ),
            decreases i,
        {
            let entry = &self.responses[i - 1];
            assert(self.responses@.take(i as int).drop_last() == self.responses@.take(i - 1));
            if entry.0 == *line {
                return CmdOutput { code: entry.1.code, stdout: entry.1.stdout.clone() };
            }
            i = i - 1;
        }
        let none = String::new();
        assert(none@ == Seq::<char>::empty());
        CmdOutput { code: 0, stdout: none }
    }

    /// Records a call and answers it from the script.
    fn serve(&mut self, bin: &str, args: &[&str], input: Ghost<Option<Seq<char>>>) -> (res:
        CmdOutput)
        ensures
            final(self).answers() == old(self).answers(),
            final(self).recorded() == old(self).recorded().push(
                command_line(words(bin@, args@)),
            ),
            res@ == scripted(old(self).answers(), command_line(words(bin@, args@))),
            final(self).history() == old(self).history().push(
                Exchange {
                    request: Request { words: words(bin@, args@), input: input@ },
                    reply: Ok(res@),
                },
            ),
    {
        let mut parts: Vec<String> = Vec::new();
        parts.push(bin.to_string());
        let mut i: usize = 0;
        while i < args.len()
            invariant
                i <= args.len(),
                text::texts(parts@) == words(bin@, args@.take(i as int)),
            decreases args.len() - i,
        {
            let ghost done = parts@;
            parts.push(args[i].to_string());
            i = i + 1;
            assert(text::texts(parts@) == text::texts(done).push(args@[i - 1]@));
            assert(words(bin@, args@.take(i as int)) == words(bin@, args@.take(i - 1)).push(
                args@[i - 1]@,
            ));
        }
        assert(args@.take(args@.len() as int) == args@);
        let line = text::joined(&parts, " ");
        let res = self.answer(&line);
        let ghost request = Request { words: words(bin@, args@), input: input@ };
        let mut taken = MockRunner::new();
        std::mem::swap(self, &mut taken);
        proof {
            use_type_invariant(&taken);
        }
        let ghost before = taken.calls@;
        let ghost log = taken.log@.push(Exchange { request, reply: Ok(res@) });
        let mut calls = taken.calls;
        calls.push(line);
        assert(text::texts(calls@) == text::texts(before).push(line@));
        assert(text::texts(calls@) == command_lines(log));
        *self = MockRunner { responses: taken.responses, calls, log: Ghost(log) };
        res
    }
}

impl Runner for MockRunner {
    closed spec fn history(&self) -> Seq<Exchange> {
        self.log@
    }

    /// The reply comes from the script.
    open spec fn may_reply(&self, request: Request, reply: Reply) -> bool {
        reply == Ok::<OutputView, ErrorView>(
            scripted(self.answers(), command_line(request.words)),
        )
    }

    fn run(&mut self, bin: &str, args: &[&str]) -> (res: Result<CmdOutput, Error>)
        ensures
            final(self).answers() == old(self).answers(),
            final(self).recorded() == old(self).recorded().push(
                command_line(words(bin@, args@)),
            ),
            reply_of(res) == Ok::<OutputView, ErrorView>(
                scripted(old(self).answers(), command_line(words(bin@, args@))),
            ),
    {
        let res = self.serve(bin, args, Ghost(None));
        Ok(res)
    }

    fn run_stdin(&mut self, bin: &str, args: &[&str], stdin: &str) -> (res: Result<
        CmdOutput,
        Error,
    >)
        ensures
            final(self).answers() == old(self).answers(),
            final(self).recorded() == old(self).recorded().push(
                command_line(words(bin@, args@)),
            ),
            reply_of(res) == Ok::<OutputView, ErrorView>(
                scripted(old(self).answers(), command_line(words(bin@, args@))),
            ),
    {
        let res = self.serve(bin, args, Ghost(Some(stdin@)));
        Ok(res)
    }
}

/// What a procedure runs is what a history has more after it, command line by command line.
pub proof fn lemma_requests_are_recorded<T>(
    before: Seq<Exchange>,
    after: Seq<Exchange>,
    run: Run<T>,
    out: T,
)
    requires
        ran(before, after, run, out),
    ensures
        command_lines(after) == command_lines(before) + run.requests.map_values(
            |request: Request| command_line(request.words),
        ),
        told(before, after).len() == run.requests.len(),
{
    let new = since(before, after);
    assert(before == after.subrange(0, before.len() as int));
    assert(after == before + new);
    assert(run.requests.len() == new.len());
    assert forall|i: int| 0 <= i < new.len() implies #[trigger] run.requests[i]
        == new[i].request by {
        assert(asked(before, after)[i] == new[i].request);
    }
    assert(command_lines(after) == command_lines(before) + run.requests.map_values(
        |request: Request| command_line(request.words),
    ));
}

/// What a procedure did can be read off the runner's history: nothing in it was lost or
/// changed, one exchange was added for each command and in their order, each with a reply
/// that the runner may give, and the result is the one that goes with those replies.
pub proof fn lemma_history_tells<R: Runner, T>(before: R, after: R, run: Run<T>, out: T)
    requires
        did(before, after, run, out),
    ensures
        ({
            let n = before.history().len() as int;
            &&& after.history().len() == n + run.requests.len()
            &&& after.history().take(n) == before.history()
            &&& forall|i: int|
                0 <= i < run.requests.len() ==> (#[trigger] after.history()[n + i]).request
                    == run.requests[i]
            &&& forall|i: int|
                0 <= i < run.requests.len() ==> before.may_reply(
                    run.requests[i],
                    (#[trigger] after.history()[n + i]).reply,
                )
            &&& told(before.history(), after.history()) == Seq::new(
                run.requests.len(),
                |i: int| after.history()[n + i].reply,
            )
            &&& out == run.out
        }),
{
    let n = before.history().len() as int;
    let (x, y) = (before.history(), after.history());
    let new = since(x, y);
    assert(x == y.subrange(0, n));
    assert(y.take(n) == y.subrange(0, n));
    assert(new.len() == run.requests.len());
    assert(new.len() == y.len() - n);
    assert forall|i: int| 0 <= i < run.requests.len() implies (#[trigger] y[n + i]).request
        == run.requests[i] && before.may_reply(run.requests[i], y[n + i].reply) by {
        assert(new[i] == y[n + i]);
        assert(asked(x, y)[i] == new[i].request);
        assert(told(x, y)[i] == new[i].reply);
    }
    assert(told(x, y) == Seq::new(run.requests.len(), |i: int| y[n + i].reply));
}

/// The words of a command are the program and its arguments, in order; a plain command has
/// no input; and on the command line a blank stands between each two words.
pub proof fn lemma_words_of_a_command(bin: Seq<char>, args: Seq<&str>, more: Seq<char>)
    ensures
        words(bin, args).len() == args.len() + 1,
        words(bin, args)[0] == bin,
        forall|i: int| 0 <= i < args.len() ==> words(bin, args)[i + 1] == (#[trigger] args[i])@,
        plain(words(bin, args)).words == words(bin, args),
        plain(words(bin, args)).input is None,
        command_line(seq![bin]) == bin,
        command_line(words(bin, args).push(more)) == command_line(words(bin, args)) + seq![' ']
            + more,
{
    reveal_strlit(" ");
    assert(" "@ == seq![' ']);
    text::lemma_join(words(bin, args), more, " "@);
    text::lemma_join(Seq::empty(), bin, " "@);
}

/// A script answers as it was told last; to anything else it answers exit code 0 and
/// nothing.
pub proof fn lemma_script_answers(
    answers: Map<Seq<char>, OutputView>,
    line: Seq<char>,
    other: Seq<char>,
    out: OutputView,
)
    ensures
        scripted(answers.insert(line, out), line) == out,
        other != line ==> scripted(answers.insert(line, out), other) == scripted(answers, other),
        scripted(Map::empty(), other).code == 0,
        scripted(Map::empty(), other).stdout.len() == 0,
{
}

} // verus!
