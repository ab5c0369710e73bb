//! Filling the gap that Mullvad leaves in `/etc/resolv.conf`, and taking the filling out
//! again.

use crate::dns::{DnsBackend, RESOLV_MODE};
use crate::dns;
use crate::fsutil::{FileWrite, FileWriteView};
use crate::ip;
use crate::provider;
use crate::route;
use crate::runner;
use crate::runner::{Reply, Request, Run, Runner};
use crate::text;
use crate::types::{Error, ErrorView};
use vstd::prelude::*;

verus! {

/// Whether a line holds more than whitespace.
pub open spec fn is_filled(line: Seq<char>) -> bool {
    text::trim(line).len() > 0
}

/// Whether a line is a nameserver line with the trailing "# vpnmux" mark.
pub open spec fn is_injected(line: Seq<char>) -> bool {
    let l = text::trim(line);
    "nameserver"@.is_prefix_of(l) && "# vpnmux"@.is_suffix_of(l)
}

/// Whether a line is a nameserver line.
pub open spec fn is_nameserver(line: Seq<char>) -> bool {
    "nameserver"@.is_prefix_of(text::trim_start(line))
}

/// Whether a `resolv.conf` names a nameserver.
pub open spec fn names_server(resolv: Seq<char>) -> bool {
    exists|i: int|
        0 <= i < text::lines(resolv).len() && is_nameserver(#[trigger] text::lines(resolv)[i])
}

/// The nameserver line that vpnmux adds.
pub open spec fn injected_line(ns: Seq<char>) -> Seq<char> {
    "nameserver "@ + ns + " # vpnmux"@
}

/// A `resolv.conf` with the marked nameserver in front and its blank lines gone.
pub open spec fn with_nameserver(current: Seq<char>, ns: Seq<char>) -> Seq<char> {
    injected_line(ns) + seq!['\n'] + text::unlines(
        text::lines(current).filter(|l: Seq<char>| is_filled(l)),
    )
}

/// A `resolv.conf` without the marked nameserver lines.
pub open spec fn without_injected(current: Seq<char>) -> Seq<char> {
    text::unlines(text::lines(current).filter(|l: Seq<char>| !is_injected(l)))
}

/// Whether any line is a marked nameserver line.
pub open spec fn has_injected(current: Seq<char>) -> bool {
    exists|i: int|
        0 <= i < text::lines(current).len() && is_injected(#[trigger] text::lines(current)[i])
}

fn is_injected_line(line: &Vec<char>) -> (res: bool)
    ensures
        res == is_injected(line@),
{
    let l = text::trimmed(line);
    text::starts_with(&l, "nameserver") && text::ends_with(&l, "# vpnmux")
}

pub fn has_nameserver(resolv: &str) -> (res: bool)
    ensures
        res == names_server(resolv@),
{
    let lines = text::lines_of(&text::chars_of(resolv));
    let ghost all = text::views(lines@);
    let mut i: usize = 0;
    while i < lines.len()
        invariant
            i <= lines.len(),
            all == text::views(lines@),
            all == text::lines(resolv@),
            forall|k: int| 0 <= k < i ==> !is_nameserver(#[trigger] all[k]),
        decreases lines.len() - i,
    {
        assert(all[i as int] == lines@[i as int]@);
        if text::starts_with(&text::trimmed_start(&lines[i]), "nameserver") {
            return true;
        }
        i = i + 1;
    }
    assert(all.len() == lines@.len());
    false
}

/// Appends the line and a line feed.
fn append_line(out: &mut String, line: &Vec<char>)
    ensures
        final(out)@ == old(out)@ + line@ + seq!['\n'],
{
    out.append(text::string_of(line).as_str());
    out.push('\n');
    assert(out@ == old(out)@ + line@ + seq!['\n']);
}

/// The lines so far after one more line was looked at.
proof fn lemma_filter_step(lines: Seq<Seq<char>>, i: int, keep: spec_fn(Seq<char>) -> bool)
    requires
        0 <= i < lines.len(),
    ensures
        text::unlines(lines.take(i + 1).filter(keep)) == (if keep(lines[i]) {
            text::unlines(lines.take(i).filter(keep)) + lines[i] + seq!['\n']
        } else {
            text::unlines(lines.take(i).filter(keep))
        }),
{
    reveal(Seq::filter);
    assert(lines.take(i + 1).drop_last() == lines.take(i));
    assert(lines.take(i + 1).last() == lines[i]);
    let kept = lines.take(i).filter(keep);
    assert(kept.push(lines[i]).drop_last() == kept);
}

/// Puts the marked nameserver in front and keeps the other lines, such as a search
/// domain. The mark lets vpnmux remove only its own line later.
pub fn inject_nameserver(current: &str, ns: &str) -> (res: String)
    ensures
        res@ == with_nameserver(current@, ns@),
{
    let mut out = "nameserver ".to_string();
    out.append(ns);
    out.append(" # vpnmux");
    out.push('\n');
    let lines = text::lines_of(&text::chars_of(current));
    let ghost all = text::views(lines@);
    let ghost keep = |l: Seq<char>| is_filled(l);
    let ghost head = injected_line(ns@) + seq!['\n'];
    let mut i: usize = 0;
    proof {
        reveal(Seq::filter);
        assert(text::unlines(all.take(0).filter(keep)) == Seq::<char>::empty());
        assert(out@ == head + text::unlines(all.take(0).filter(keep)));
    }
    while i < lines.len()
        invariant
            i <= lines.len(),
            all == text::views(lines@),
            keep == (|l: Seq<char>| is_filled(l)),
            out@ == head + text::unlines(all.take(i as int).filter(keep)),
        decreases lines.len() - i,
    {
        assert(all[i as int] == lines@[i as int]@);
        proof {
            lemma_filter_step(all, i as int, keep);
        }
        let ghost before = out@;
        let ghost so_far = text::unlines(all.take(i as int).filter(keep));
        if text::trimmed(&lines[i]).len() > 0 {
            append_line(&mut out, &lines[i]);
            assert(head + so_far + all[i as int] + seq!['\n'] == head + (so_far + all[i as int]
                + seq!['\n']));
        }
        i = i + 1;
    }
    assert(all.take(all.len() as int) == all);
    out
}

/// What stays of a `resolv.conf` without the marked lines.
fn strip_injected(current: &str) -> (res: String)
    ensures
        res@ == without_injected(current@),
{
    let mut out = String::new();
    let lines = text::lines_of(&text::chars_of(current));
    let ghost all = text::views(lines@);
    let ghost keep = |l: Seq<char>| !is_injected(l);
    let mut i: usize = 0;
    proof {
        reveal(Seq::filter);
        assert(text::unlines(all.take(0).filter(keep)) == Seq::<char>::empty());
    }
    while i < lines.len()
        invariant
            i <= lines.len(),
            all == text::views(lines@),
            keep == (|l: Seq<char>| !is_injected(l)),
            out@ == text::unlines(all.take(i as int).filter(keep)),
        decreases lines.len() - i,
    {
        assert(all[i as int] == lines@[i as int]@);
        proof {
            lemma_filter_step(all, i as int, keep);
        }
        if !is_injected_line(&lines[i]) {
            append_line(&mut out, &lines[i]);
        }
        i = i + 1;
    }
    assert(all.take(all.len() as int) == all);
    out
}

fn injected(current: &str) -> (res: bool)
    ensures
        res == has_injected(current@),
{
    let lines = text::lines_of(&text::chars_of(current));
    let ghost all = text::views(lines@);
    let mut i: usize = 0;
    while i < lines.len()
        invariant
            i <= lines.len(),
            all == text::views(lines@),
            all == text::lines(current@),
            forall|k: int| 0 <= k < i ==> !is_injected(#[trigger] all[k]),
        decreases lines.len() - i,
    {
        assert(all[i as int] == lines@[i as int]@);
        if is_injected_line(&lines[i]) {
            return true;
        }
        i = i + 1;
    }
    assert(all.len() == lines@.len());
    false
}

/// The resolver to add: the override where it is not blank, else the gateway.
pub open spec fn chosen_resolver(env_dns: Option<Seq<char>>, gateway: Option<Seq<char>>) -> Option<
    Seq<char>,
> {
    match env_dns {
        Some(s) if text::trim(s).len() > 0 => Some(s),
        _ => gateway,
    }
}

pub open spec fn owned(s: Option<String>) -> Option<Seq<char>> {
    match s {
        Some(s) => Some(s@),
        None => None,
    }
}

/// The override, else the default route's gateway. `None` when neither is known, so that
/// vpnmux waits rather than writing a public resolver behind anyone's back.
pub fn pick_resolver(env_dns: Option<String>, gateway: Option<String>) -> (res: Option<String>)
    ensures
        owned(res) == chosen_resolver(owned(env_dns), owned(gateway)),
{
    if let Some(s) = env_dns {
        if text::trimmed(&text::chars_of(s.as_str())).len() > 0 {
            return Some(s);
        }
    }
    gateway
}

/// The resolver to add, given the override and the routing table where it can be read.
pub open spec fn resolver_from(env_dns: Option<Seq<char>>, routes: Option<Seq<char>>) -> Option<
    Seq<char>,
> {
    chosen_resolver(
        env_dns,
        match routes {
            Some(table) => route::gateway_of(table),
            None => None,
        },
    )
}

/// The resolver to add, from the `VPNMUX_DNS` override and the text of the routing table.
pub fn preferred_resolver(env_dns: Option<String>, routes: Option<&str>) -> (res: Option<String>)
    ensures
        owned(res) == resolver_from(owned(env_dns), dns::view_of(routes)),
        owned(res) == chosen_resolver(
            owned(env_dns),
            match routes {
                Some(table) => route::gateway_of(table@),
                None => None,
            },
        ),
{
    let gateway = match routes {
        Some(table) => route::default_gateway_from(table),
        None => None,
    };
    pick_resolver(env_dns, gateway)
}

/// What is found where `resolv.conf` should be.
#[derive(Debug, Clone, PartialEq)]
pub struct ResolvConf {
    pub path: String,
    /// What the file holds, where it can be read.
    pub text: Option<String>,
    /// Whether the file is a symlink.
    pub symlink: bool,
    /// Whether the `resolvconf` program is systemd's stand-in for it.
    pub shim: bool,
}

pub struct ResolvConfView {
    pub path: Seq<char>,
    pub text: Option<Seq<char>>,
    pub symlink: bool,
    pub shim: bool,
}

impl View for ResolvConf {
    type V = ResolvConfView;

    open spec fn view(&self) -> ResolvConfView {
        ResolvConfView {
            path: self.path@,
            text: owned(self.text),
            symlink: self.symlink,
            shim: self.shim,
        }
    }
}

/// What is to be written to `resolv.conf`, if anything.
pub type Repair = Result<Option<FileWriteView>, ErrorView>;

pub open spec fn repair(res: Result<Option<FileWrite>, Error>) -> Repair {
    match res {
        Ok(Some(w)) => Ok(Some(w@)),
        Ok(None) => Ok(None),
        Err(e) => Err(e@),
    }
}

pub open spec fn rewrite(path: Seq<char>, contents: Seq<char>) -> Option<FileWriteView> {
    Some(FileWriteView { path, contents, mode: RESOLV_MODE })
}

/// `resolvconf -a <record>`, fed with a nameserver line.
pub open spec fn add_request(record: Seq<char>, ip: Seq<char>) -> Request {
    Request {
        words: seq!["resolvconf"@, "-a"@, record],
        input: Some("nameserver "@ + ip + seq!['\n']),
    }
}

/// `resolvconf -d <record> -f`.
pub open spec fn del_request(record: Seq<char>) -> Request {
    runner::plain(seq!["resolvconf"@, "-d"@, record, "-f"@])
}

pub open spec fn idle<T>(out: T) -> Run<T> {
    Run { requests: Seq::empty(), out }
}

/// A run of one command whose output does not matter, and that writes no file.
pub open spec fn command_only(request: Request, replies: Seq<Reply>) -> Run<Repair> {
    Run {
        requests: seq![request],
        out: match replies[0] {
            Ok(_) => Ok(None),
            Err(e) => Err(e),
        },
    }
}

/// Why no resolver is added.
#[derive(Debug, Clone, Copy, PartialEq, Eq, Structural)]
pub enum Obstacle {
    /// Another subsystem manages `resolv.conf`.
    Managed,
    /// A nameserver is there already.
    Named,
    /// No resolver is known yet.
    NoResolver,
    /// The resolver is not an IP address.
    NotAnAddress,
    /// The file is a symlink.
    Symlink,
    /// The `resolvconf` program is systemd's stand-in for it.
    Shim,
}

/// What a `resolv.conf` holds; one that cannot be read counts as empty.
pub open spec fn current_text(conf: ResolvConfView) -> Seq<char> {
    match conf.text {
        Some(t) => t,
        None => Seq::empty(),
    }
}

/// The first thing that speaks against adding the resolver, if any.
pub open spec fn obstacle(
    conf: ResolvConfView,
    backend: DnsBackend,
    resolver: Option<Seq<char>>,
) -> Option<Obstacle> {
    if backend != DnsBackend::Static && backend != DnsBackend::Resolvconf {
        Some(Obstacle::Managed)
    } else if names_server(current_text(conf)) {
        Some(Obstacle::Named)
    } else if resolver is None {
        Some(Obstacle::NoResolver)
    } else if !ip::is_address(resolver->0) {
        Some(Obstacle::NotAnAddress)
    } else if backend == DnsBackend::Static && conf.symlink {
        Some(Obstacle::Symlink)
    } else if backend == DnsBackend::Resolvconf && conf.shim {
        Some(Obstacle::Shim)
    } else {
        None
    }
}

/// What `ensure_resolver` does.
pub open spec fn ensure_run(
    conf: ResolvConfView,
    backend: DnsBackend,
    resolver: Option<Seq<char>>,
    replies: Seq<Reply>,
) -> Run<Repair> {
    if obstacle(conf, backend, resolver) is Some {
        idle(Ok(None))
    } else if backend == DnsBackend::Static {
        idle(Ok(rewrite(conf.path, with_nameserver(current_text(conf), resolver->0))))
    } else {
        command_only(add_request("vpnmux"@, resolver->0), replies)
    }
}

/// What `remove_injected_resolver` does.
pub open spec fn remove_run(conf: ResolvConfView, backend: DnsBackend, replies: Seq<Reply>) -> Run<
    Repair,
> {
    match backend {
        DnsBackend::Static => match conf.text {
            Some(t) if !conf.symlink && has_injected(t) => idle(
                Ok(rewrite(conf.path, without_injected(t))),
            ),
            _ => idle(Ok(None)),
        },
        DnsBackend::Resolvconf => if conf.shim {
            idle(Ok(None))
        } else {
            command_only(del_request("vpnmux"@), replies)
        },
        _ => idle(Ok(None)),
    }
}

/// Adds the record with a nameserver to resolvconf.
pub fn resolvconf_add<R: Runner>(record: &str, ip: &str, r: &mut R) -> (res: Result<(), Error>)
    ensures
        runner::did(
            *old(r),
            *final(r),
            Run {
                requests: seq![add_request(record@, ip@)],
                out: provider::unless_failed(
                    runner::told(old(r).history(), final(r).history())[0],
                ),
            },
            provider::done(res),
        ),
{
    let ghost h = r.history();
    let mut input = "nameserver ".to_string();
    input.append(ip);
    input.push('\n');
    let args = ["-a", record];
    let reply = r.run_stdin("resolvconf", &args, input.as_str());
    proof {
        assert(runner::words("resolvconf"@, args@) == add_request(record@, ip@).words);
        assert(input@ == "nameserver "@ + ip@ + seq!['\n']);
        runner::lemma_one(
            h,
            runner::Exchange {
                request: add_request(record@, ip@),
                reply: runner::reply_of(reply),
            },
        );
    }
    match reply {
        Ok(_) => Ok(()),
        Err(e) => Err(e),
    }
}

/// Removes the record from resolvconf. With `-f`, a record that is not there is no error.
pub fn resolvconf_del<R: Runner>(record: &str, r: &mut R) -> (res: Result<(), Error>)
    ensures
        runner::did(
            *old(r),
            *final(r),
            Run {
                requests: seq![del_request(record@)],
                out: provider::unless_failed(
                    runner::told(old(r).history(), final(r).history())[0],
                ),
            },
            provider::done(res),
        ),
{
    let args = ["-d", record, "-f"];
    assert(runner::words("resolvconf"@, args@) == del_request(record@).words);
    provider::run_only("resolvconf", &args, r)
}

fn text_of(conf: &ResolvConf) -> (res: &str)
    ensures
        res@ == current_text(conf@),
{
    match &conf.text {
        Some(text) => text.as_str(),
        None => {
            proof {
                reveal_strlit("");
                assert(""@ == Seq::<char>::empty());
            }
            ""
        },
    }
}

/// The first thing that speaks against adding the resolver, if any. Symlinks are left
/// alone, and so is a `resolvconf` that is systemd's.
pub fn obstacle_to(conf: &ResolvConf, backend: DnsBackend, resolver: Option<&str>) -> (res: Option<
    Obstacle,
>)
    ensures
        res == obstacle(conf@, backend, dns::view_of(resolver)),
{
    if backend != DnsBackend::Static && backend != DnsBackend::Resolvconf {
        return Some(Obstacle::Managed);
    }
    if has_nameserver(text_of(conf)) {
        return Some(Obstacle::Named);
    }
    let ns = match resolver {
        Some(ns) => ns,
        None => {
            return Some(Obstacle::NoResolver);
        },
    };
    if !ip::address(ns) {
        Some(Obstacle::NotAnAddress)
    } else if backend == DnsBackend::Static && conf.symlink {
        Some(Obstacle::Symlink)
    } else if backend == DnsBackend::Resolvconf && conf.shim {
        Some(Obstacle::Shim)
    } else {
        None
    }
}

/// Puts `resolver` into `resolv.conf` when it names no nameserver: when Mullvad
/// disconnects it takes its resolver with it, and nothing else fills the gap on a machine
/// without a DNS manager. Without a resolver nothing is done, and a later pass tries
/// again. Returns what is to be written, if anything.
pub fn ensure_resolver<R: Runner>(
    conf: &ResolvConf,
    backend: DnsBackend,
    resolver: Option<&str>,
    r: &mut R,
) -> (res: Result<Option<FileWrite>, Error>)
    ensures
        runner::did(
            *old(r),
            *final(r),
            ensure_run(
                conf@,
                backend,
                dns::view_of(resolver),
                runner::told(old(r).history(), final(r).history()),
            ),
            repair(res),
        ),
{
    proof {
        runner::lemma_none(r.history());
    }
    if obstacle_to(conf, backend, resolver).is_some() {
        return Ok(None);
    }
    let ns = match resolver {
        Some(ns) => ns,
        None => {
            return Ok(None);
        },
    };
    if backend == DnsBackend::Static {
        return Ok(
            Some(
                FileWrite {
                    path: conf.path.clone(),
                    contents: inject_nameserver(text_of(conf), ns),
                    mode: RESOLV_MODE,
                },
            ),
        );
    }
    match resolvconf_add("vpnmux", ns, r) {
        Ok(()) => Ok(None),
        Err(e) => Err(e),
    }
}

/// Takes out the nameserver that vpnmux added when Mullvad takes over DNS again, so that
/// it does not linger and shadow Mullvad's. Returns what is to be written, if anything.
pub fn remove_injected_resolver<R: Runner>(
    conf: &ResolvConf,
    backend: DnsBackend,
    r: &mut R,
) -> (res: Result<Option<FileWrite>, Error>)
    ensures
        runner::did(
            *old(r),
            *final(r),
            remove_run(conf@, backend, runner::told(old(r).history(), final(r).history())),
            repair(res),
        ),
{
    proof {
        runner::lemma_none(r.history());
    }
    match backend {
        DnsBackend::Static => {
            if conf.symlink {
                return Ok(None);
            }
            let current = match &conf.text {
                Some(text) => text,
                None => {
                    return Ok(None);
                },
            };
            if !injected(current.as_str()) {
                return Ok(None);
            }
            Ok(
                Some(
                    FileWrite {
                        path: conf.path.clone(),
                        contents: strip_injected(current.as_str()),
                        mode: RESOLV_MODE,
                    },
                ),
            )
        },
        DnsBackend::Resolvconf => {
            if conf.shim {
                return Ok(None);
            }
            match resolvconf_del("vpnmux", r) {
                Ok(()) => Ok(None),
                Err(e) => Err(e),
            }
        },
        _ => Ok(None),
    }
}

/// Whether a path's last name is "resolvectl".
pub open spec fn leads_to_resolvectl(path: Seq<char>) -> bool {
    let names = dns::path_names(path);
    names.len() > 0 && names.last() == "resolvectl"@
}

/// Whether what was found is systemd's stand-in.
pub open spec fn is_shim(found: Option<Seq<char>>, target: Option<Seq<char>>) -> bool {
    found is Some && target is Some && leads_to_resolvectl(target->0)
}

/// Whether `resolvconf` was found and is a symlink to `resolvectl`, which systemd ships in
/// its place and which takes other arguments.
pub fn resolvconf_is_resolvectl_shim(
    path_lookup: Option<&str>,
    link_target: Option<&str>,
) -> (res: bool)
    ensures
        res == is_shim(dns::view_of(path_lookup), dns::view_of(link_target)),
        res == (path_lookup is Some && link_target is Some && leads_to_resolvectl(
            link_target->0@,
        )),
{
    if path_lookup.is_none() {
        return false;
    }
    match link_target {
        None => false,
        Some(target) => {
            let names = dns::names_of(target);
            proof {
                assert(text::views(names@).len() == names@.len());
                if names@.len() > 0 {
                    assert(text::views(names@).last() == names@.last()@);
                }
            }
            names.len() > 0 && text::is(&names[names.len() - 1], "resolvectl")
        },
    }
}

/// Once a resolver was added, the file names a nameserver: adding again does nothing.
pub proof fn lemma_fill_once(
    conf: ResolvConfView,
    backend: DnsBackend,
    resolver: Option<Seq<char>>,
    again: Option<Seq<char>>,
    replies: Seq<Reply>,
)
    requires
        ensure_run(conf, backend, resolver, replies).out matches Ok(Some(_)),
    ensures
        ensure_run(conf, backend, resolver, replies).out matches Ok(Some(w)) && ensure_run(
            ResolvConfView { text: Some(w.contents), ..conf },
            backend,
            again,
            replies,
        ) == idle(Ok::<Option<FileWriteView>, ErrorView>(None)),
{
    let ns = resolver->0;
    let current = current_text(conf);
    ip::lemma_address_lacks_newline(ns);
    lemma_lines_of_filled(current, ns);
    let filled = with_nameserver(current, ns);
    reveal_strlit("nameserver ");
    reveal_strlit("nameserver");
    assert("nameserver"@.is_prefix_of(injected_line(ns)));
    assert(is_nameserver(text::lines(filled)[0]));
    assert(names_server(filled));
}

/// The lines of a file with the marked nameserver in front.
proof fn lemma_lines_of_filled(current: Seq<char>, ns: Seq<char>)
    requires
        text::lacks(ns, '\n'),
    ensures
        text::lines(with_nameserver(current, ns)) == seq![injected_line(ns)] + text::lines(
            text::unlines(text::lines(current).filter(|l: Seq<char>| is_filled(l))),
        ),
{
    reveal_strlit("nameserver ");
    reveal_strlit(" # vpnmux");
    let line = injected_line(ns);
    assert(text::lacks(line, '\n'));
    assert(line.last() == 'x');
    text::lemma_lines_cons(
        line,
        text::unlines(text::lines(current).filter(|l: Seq<char>| is_filled(l))),
    );
}

/// The line that vpnmux adds is one that it takes out.
proof fn lemma_own_line(ns: Seq<char>)
    ensures
        is_injected(injected_line(ns)),
{
    reveal_strlit("nameserver ");
    reveal_strlit("nameserver");
    reveal_strlit(" # vpnmux");
    reveal_strlit("# vpnmux");
    let line = injected_line(ns);
    assert(line[0] == 'n');
    assert(line.last() == 'x');
    text::lemma_trim_of_trimmed(line);
    assert("nameserver"@.is_prefix_of(line));
    assert("# vpnmux"@ == line.subrange(line.len() - 8, line.len() as int));
}

/// A marked nameserver line is a nameserver line.
proof fn lemma_injected_is_nameserver(line: Seq<char>)
    requires
        is_injected(line),
    ensures
        is_nameserver(line),
{
    text::lemma_trim_is_front(line);
    let a = text::trim(line);
    let b = text::trim_start(line);
    assert("nameserver"@ == a.subrange(0, "nameserver"@.len() as int));
    assert(a == b.subrange(0, a.len() as int));
    assert("nameserver"@ == b.subrange(0, "nameserver"@.len() as int));
}

/// Filtering by what all elements satisfy keeps them all.
proof fn lemma_filter_keeps(s: Seq<Seq<char>>, keep: spec_fn(Seq<char>) -> bool)
    requires
        forall|i: int| 0 <= i < s.len() ==> keep(#[trigger] s[i]),
    ensures
        s.filter(keep) == s,
    decreases s.len(),
{
    reveal(Seq::filter);
    if s.len() > 0 {
        let init = s.drop_last();
        assert forall|i: int| 0 <= i < init.len() implies keep(#[trigger] init[i]) by {
            assert(init[i] == s[i]);
        }
        lemma_filter_keeps(init, keep);
        assert(init.push(s.last()) == s);
    }
}

/// What a filter keeps was there before, and satisfies the condition.
proof fn lemma_filter_members(s: Seq<Seq<char>>, keep: spec_fn(Seq<char>) -> bool)
    ensures
        forall|i: int|
            0 <= i < s.filter(keep).len() ==> keep(#[trigger] s.filter(keep)[i]) && s.contains(
                s.filter(keep)[i],
            ),
    decreases s.len(),
{
    reveal(Seq::filter);
    if s.len() > 0 {
        let init = s.drop_last();
        lemma_filter_members(init, keep);
        let kept = init.filter(keep);
        assert forall|i: int| 0 <= i < s.filter(keep).len() implies keep(
            #[trigger] s.filter(keep)[i],
        ) && s.contains(s.filter(keep)[i]) by {
            if i < kept.len() {
                assert(s.filter(keep)[i] == kept[i]);
                let j = choose|j: int| 0 <= j < init.len() && init[j] == kept[i];
                assert(s[j] == kept[i]);
            } else {
                assert(s.filter(keep)[i] == s.last());
                assert(s[s.len() - 1] == s.last());
            }
        }
    }
}

/// Taking out what was added gives back the file's own lines, blank ones aside. Where a
/// line ends in a carriage return of its own, that one is read as a part of the line's
/// ending and goes.
pub proof fn lemma_removal_undoes_filling(current: Seq<char>, ns: Seq<char>)
    requires
        !names_server(current),
        text::lacks(ns, '\n'),
    ensures
        has_injected(with_nameserver(current, ns)),
        without_injected(with_nameserver(current, ns)) == text::unlines(
            text::lines(current).filter(|l: Seq<char>| is_filled(l)).map_values(
                |l: Seq<char>| text::strip_cr(l),
            ),
        ),
        (forall|i: int|
            0 <= i < text::lines(current).len() ==> text::strip_cr(
                #[trigger] text::lines(current)[i],
            ) == text::lines(current)[i]) ==> without_injected(with_nameserver(current, ns))
            == text::unlines(text::lines(current).filter(|l: Seq<char>| is_filled(l))),
{
    let own = text::lines(current);
    let filled = |l: Seq<char>| is_filled(l);
    let foreign = |l: Seq<char>| !is_injected(l);
    let kept = own.filter(filled);
    let back = kept.map_values(|l: Seq<char>| text::strip_cr(l));
    lemma_filter_members(own, filled);
    text::lemma_lines_lack_newline(current);
    assert forall|i: int| 0 <= i < kept.len() implies text::lacks(#[trigger] kept[i], '\n')
        && foreign(kept[i]) by {
        assert(own.contains(kept[i]));
        let j = choose|j: int| 0 <= j < own.len() && own[j] == kept[i];
        assert(!is_nameserver(own[j]));
        if is_injected(kept[i]) {
            lemma_injected_is_nameserver(kept[i]);
        }
    }
    text::lemma_lines_of_unlines(kept);
    assert forall|i: int| 0 <= i < back.len() implies foreign(#[trigger] back[i]) by {
        text::lemma_trim_strip_cr(kept[i]);
        assert(foreign(kept[i]));
    }
    lemma_lines_of_filled(current, ns);
    lemma_own_line(ns);
    let all = text::lines(with_nameserver(current, ns));
    let head = seq![injected_line(ns)];
    assert(all == head + back);
    assert(is_injected(all[0]));
    lemma_filter_keeps(back, foreign);
    Seq::filter_distributes_over_add(head, back, foreign);
    assert(head.filter(foreign) == Seq::<Seq<char>>::empty()) by {
        reveal_with_fuel(Seq::filter, 2);
        assert(head.drop_last() == Seq::<Seq<char>>::empty());
    }
    assert(all.filter(foreign) == back);
    if forall|i: int|
        0 <= i < own.len() ==> text::strip_cr(#[trigger] own[i]) == own[i] {
        assert forall|i: int| 0 <= i < kept.len() implies text::strip_cr(#[trigger] kept[i])
            == kept[i] by {
            assert(own.contains(kept[i]));
        }
        assert(back == kept);
    }
}

/// After a removal no marked line is left, so that there is nothing to remove again.
pub proof fn lemma_removal_is_complete(current: Seq<char>)
    ensures
        !has_injected(without_injected(current)),
{
    let own = text::lines(current);
    let foreign = |l: Seq<char>| !is_injected(l);
    let kept = own.filter(foreign);
    lemma_filter_members(own, foreign);
    text::lemma_lines_lack_newline(current);
    assert forall|i: int| 0 <= i < kept.len() implies text::lacks(#[trigger] kept[i], '\n') by {
        assert(own.contains(kept[i]));
    }
    text::lemma_lines_of_unlines(kept);
    let after = text::lines(without_injected(current));
    assert forall|i: int| 0 <= i < after.len() implies !is_injected(#[trigger] after[i]) by {
        assert(after[i] == text::strip_cr(kept[i]));
        text::lemma_trim_strip_cr(kept[i]);
        assert(foreign(kept[i]));
    }
}

/// Where another subsystem manages `resolv.conf`, neither a file is written nor a command
/// is run.
pub proof fn lemma_managed_is_left_alone(
    conf: ResolvConfView,
    backend: DnsBackend,
    resolver: Option<Seq<char>>,
    replies: Seq<Reply>,
)
    requires
        backend != DnsBackend::Static,
        backend != DnsBackend::Resolvconf,
    ensures
        ensure_run(conf, backend, resolver, replies) == idle(
            Ok::<Option<FileWriteView>, ErrorView>(None),
        ),
        remove_run(conf, backend, replies) == idle(Ok::<Option<FileWriteView>, ErrorView>(None)),
{
}

/// A symlink is never written.
pub proof fn lemma_symlink_is_not_written(
    conf: ResolvConfView,
    backend: DnsBackend,
    resolver: Option<Seq<char>>,
    replies: Seq<Reply>,
)
    requires
        conf.symlink,
    ensures
        !(ensure_run(conf, backend, resolver, replies).out matches Ok(Some(_))),
        !(remove_run(conf, backend, replies).out matches Ok(Some(_))),
{
}

/// A nameserver that is there already is never overridden.
pub proof fn lemma_nameserver_is_respected(
    conf: ResolvConfView,
    backend: DnsBackend,
    resolver: Option<Seq<char>>,
    replies: Seq<Reply>,
)
    requires
        conf.text matches Some(t) && names_server(t),
    ensures
        ensure_run(conf, backend, resolver, replies) == idle(
            Ok::<Option<FileWriteView>, ErrorView>(None),
        ),
{
}

/// Whether a line, blanks aside, begins with "nameserver" and ends in vpnmux's mark.
pub open spec fn is_marked(line: Seq<char>) -> bool {
    "nameserver"@.is_prefix_of(text::trim(line)) && "# vpnmux"@.is_suffix_of(text::trim(line))
}

/// Whether a text has such a line.
pub open spec fn has_marked(t: Seq<char>) -> bool {
    exists|i: int| 0 <= i < text::lines(t).len() && is_marked(#[trigger] text::lines(t)[i])
}

proof fn lemma_filter_of_map(
    s: Seq<Seq<char>>,
    keep: spec_fn(Seq<char>) -> bool,
    f: spec_fn(Seq<char>) -> Seq<char>,
)
    requires
        forall|l: Seq<char>| keep(#[trigger] f(l)) == keep(l),
    ensures
        s.map_values(f).filter(keep) == s.filter(keep).map_values(f),
    decreases s.len(),
{
    reveal(Seq::filter);
    if s.len() > 0 {
        let init = s.drop_last();
        lemma_filter_of_map(init, keep, f);
        assert(s.map_values(f).drop_last() == init.map_values(f));
        assert(s.map_values(f).last() == f(s.last()));
        assert(keep(f(s.last())) == keep(s.last()));
        assert(init.filter(keep).push(s.last()).map_values(f) == init.filter(keep).map_values(
            f,
        ).push(f(s.last())));
    } else {
        assert(s.map_values(f).filter(keep) == s.filter(keep).map_values(f));
    }
}

proof fn lemma_filter_twice(
    s: Seq<Seq<char>>,
    first: spec_fn(Seq<char>) -> bool,
    second: spec_fn(Seq<char>) -> bool,
)
    requires
        forall|l: Seq<char>| #[trigger] second(l) ==> first(l),
    ensures
        s.filter(first).filter(second) == s.filter(second),
    decreases s.len(),
{
    reveal(Seq::filter);
    if s.len() > 0 {
        let init = s.drop_last();
        lemma_filter_twice(init, first, second);
        let kept = init.filter(first);
        assert(kept.push(s.last()).drop_last() == kept);
        assert(second(s.last()) ==> first(s.last()));
    }
}

/// A removal keeps every line that does not end in vpnmux's mark, the nameservers of others
/// among them, in the same order; it keeps those as well that end in the mark and name no
/// nameserver. No line of vpnmux's own is left, and no line is added. (A carriage return at
/// a line's end goes with the line's ending.)
pub proof fn lemma_removal_keeps_the_rest(current: Seq<char>)
    ensures
        ({
            let before = text::lines(current);
            let after = text::lines(without_injected(current));
            let unmarked = |l: Seq<char>| !"# vpnmux"@.is_suffix_of(text::trim(l));
            let foreign = |l: Seq<char>|
                !("nameserver"@.is_prefix_of(text::trim(l)) && "# vpnmux"@.is_suffix_of(
                    text::trim(l),
                ));
            let ended = |l: Seq<char>| text::strip_cr(l);
            &&& after.filter(unmarked) == before.filter(unmarked).map_values(ended)
            &&& after == before.filter(foreign).map_values(ended)
            &&& forall|i: int| 0 <= i < after.len() ==> !is_marked(#[trigger] after[i])
            &&& forall|i: int|
                0 <= i < before.len() && !is_marked(#[trigger] before[i]) ==> after.contains(
                    text::strip_cr(before[i]),
                )
        }),
{
    let before = text::lines(current);
    let after = text::lines(without_injected(current));
    let unmarked = |l: Seq<char>| !"# vpnmux"@.is_suffix_of(text::trim(l));
    let foreign = |l: Seq<char>|
        !("nameserver"@.is_prefix_of(text::trim(l)) && "# vpnmux"@.is_suffix_of(text::trim(l)));
    let ended = |l: Seq<char>| text::strip_cr(l);
    let keep = |l: Seq<char>| !is_injected(l);
    assert(keep =~= foreign);
    let kept = before.filter(keep);
    lemma_filter_members(before, keep);
    text::lemma_lines_lack_newline(current);
    assert forall|i: int| 0 <= i < kept.len() implies text::lacks(#[trigger] kept[i], '\n') by {
        assert(before.contains(kept[i]));
    }
    text::lemma_lines_of_unlines(kept);
    assert(after == kept.map_values(ended));
    assert forall|l: Seq<char>| unmarked(#[trigger] ended(l)) == unmarked(l) by {
        text::lemma_trim_strip_cr(l);
    }
    lemma_filter_of_map(kept, unmarked, ended);
    assert forall|l: Seq<char>| #[trigger] unmarked(l) implies keep(l) by {}
    lemma_filter_twice(before, keep, unmarked);
    assert forall|i: int| 0 <= i < after.len() implies !is_marked(#[trigger] after[i]) by {
        assert(keep(kept[i]));
        text::lemma_trim_strip_cr(kept[i]);
        assert(after[i] == text::strip_cr(kept[i]));
    }
    assert forall|i: int| 0 <= i < before.len() && !is_marked(#[trigger] before[i]) implies
        after.contains(text::strip_cr(before[i])) by {
        assert(keep(before[i]));
        lemma_filter_has(before, keep, i);
        let k = choose|k: int| 0 <= k < kept.len() && kept[k] == before[i];
        assert(after[k] == text::strip_cr(before[i]));
    }
}

proof fn lemma_filter_has(s: Seq<Seq<char>>, keep: spec_fn(Seq<char>) -> bool, i: int)
    requires
        0 <= i < s.len(),
        keep(s[i]),
    ensures
        s.filter(keep).contains(s[i]),
    decreases s.len(),
{
    reveal(Seq::filter);
    let init = s.drop_last();
    if i < init.len() {
        lemma_filter_has(init, keep, i);
        let k = choose|k: int| 0 <= k < init.filter(keep).len() && init.filter(keep)[k] == init[i];
        assert(s.filter(keep)[k] == s[i]);
    } else {
        let all = init.filter(keep).push(s.last());
        assert(all[all.len() - 1] == s[i]);
    }
}

/// A file that was filled begins with the marked nameserver line, word for word, and goes on
/// with every line of the file before that was not blank, in the same order. (A carriage
/// return at a line's end goes with the line's ending.)
pub proof fn lemma_filling_keeps_the_rest(current: Seq<char>, ns: Seq<char>)
    requires
        text::lacks(ns, '\n'),
    ensures
        text::lines(with_nameserver(current, ns)) == seq!["nameserver "@ + ns + " # vpnmux"@]
            + text::lines(current).filter(|l: Seq<char>| text::trim(l).len() > 0).map_values(
            |l: Seq<char>| text::strip_cr(l),
        ),
{
    let own = text::lines(current);
    let filled = |l: Seq<char>| is_filled(l);
    let nonblank = |l: Seq<char>| text::trim(l).len() > 0;
    assert(filled =~= nonblank);
    let kept = own.filter(filled);
    lemma_filter_members(own, filled);
    text::lemma_lines_lack_newline(current);
    assert forall|i: int| 0 <= i < kept.len() implies text::lacks(#[trigger] kept[i], '\n') by {
        assert(own.contains(kept[i]));
    }
    text::lemma_lines_of_unlines(kept);
    lemma_lines_of_filled(current, ns);
}

/// Whether a text names a nameserver: whether a line of it begins with "nameserver", blanks
/// in front aside.
pub open spec fn has_server(t: Seq<char>) -> bool {
    exists|i: int|
        0 <= i < text::lines(t).len() && "nameserver"@.is_prefix_of(
            text::trim_start(#[trigger] text::lines(t)[i]),
        )
}

proof fn lemma_has_server(t: Seq<char>)
    ensures
        names_server(t) == has_server(t),
{
    let lines = text::lines(t);
    if names_server(t) {
        let i = choose|i: int| 0 <= i < lines.len() && is_nameserver(#[trigger] lines[i]);
        assert("nameserver"@.is_prefix_of(text::trim_start(lines[i])));
    }
    if has_server(t) {
        let i = choose|i: int|
            0 <= i < lines.len() && "nameserver"@.is_prefix_of(
                text::trim_start(#[trigger] lines[i]),
            );
        assert(is_nameserver(lines[i]));
    }
}

/// When a resolver is put in, and how. Nothing at all is done where another subsystem
/// manages the file, where a nameserver is there, where no resolver is known, where it is no
/// address. Else a plain file with a static `resolv.conf` is rewritten, readable for all,
/// and resolvconf, where it is not systemd's, is given the nameserver under the name
/// "vpnmux".
pub proof fn lemma_when_a_resolver_is_put_in(
    conf: ResolvConfView,
    backend: DnsBackend,
    resolver: Option<Seq<char>>,
    replies: Seq<Reply>,
)
    ensures
        ({
            let run = ensure_run(conf, backend, resolver, replies);
            let current = match conf.text {
                Some(t) => t,
                None => Seq::<char>::empty(),
            };
            let gap = !has_server(current) && resolver is Some && ip::is_address(resolver->0);
            let file = gap && backend == DnsBackend::Static && !conf.symlink;
            let record = gap && backend == DnsBackend::Resolvconf && !conf.shim;
            &&& !file && !record ==> run.requests.len() == 0 && (run.out matches Ok(None))
            &&& file ==> run.requests.len() == 0 && (run.out matches Ok(Some(w)) && w.path
                == conf.path && w.contents == with_nameserver(current, resolver->0) && w.mode
                == 0o644)
            &&& record ==> run.requests == seq![
                Request {
                    words: seq!["resolvconf"@, "-a"@, "vpnmux"@],
                    input: Some("nameserver "@ + resolver->0 + seq!['\n']),
                },
            ] && (replies[0] is Ok ==> (run.out matches Ok(None))) && (replies[0] matches Err(e)
                ==> run.out == Err::<Option<FileWriteView>, ErrorView>(e))
        }),
{
    lemma_has_server(current_text(conf));
}

/// When a resolver is taken out, and how. A plain file with a static `resolv.conf` is
/// rewritten exactly where it has a marked line; resolvconf, where it is not systemd's, is
/// told to drop the record "vpnmux"; else nothing is done.
pub proof fn lemma_when_a_resolver_is_taken_out(
    conf: ResolvConfView,
    backend: DnsBackend,
    replies: Seq<Reply>,
)
    ensures
        ({
            let run = remove_run(conf, backend, replies);
            let current = match conf.text {
                Some(t) => t,
                None => Seq::<char>::empty(),
            };
            let file = backend == DnsBackend::Static && conf.text is Some && !conf.symlink
                && has_marked(current);
            let record = backend == DnsBackend::Resolvconf && !conf.shim;
            &&& !file && !record ==> run.requests.len() == 0 && (run.out matches Ok(None))
            &&& file ==> run.requests.len() == 0 && (run.out matches Ok(Some(w)) && w.path
                == conf.path && w.contents == without_injected(current) && w.mode == 0o644)
            &&& record ==> run.requests == seq![
                Request { words: seq!["resolvconf"@, "-d"@, "vpnmux"@, "-f"@], input: None },
            ] && (replies[0] is Ok ==> (run.out matches Ok(None))) && (replies[0] matches Err(e)
                ==> run.out == Err::<Option<FileWriteView>, ErrorView>(e))
        }),
{
    let current = current_text(conf);
    let lines = text::lines(current);
    if has_injected(current) {
        let i = choose|i: int| 0 <= i < lines.len() && is_injected(#[trigger] lines[i]);
        assert(is_marked(lines[i]));
    }
    if has_marked(current) {
        let i = choose|i: int| 0 <= i < lines.len() && is_marked(#[trigger] lines[i]);
        assert(is_injected(lines[i]));
    }
}

/// The override is taken where there is anything but blanks in it, as it stands; else the
/// gateway.
pub proof fn lemma_override_comes_first(env_dns: Option<Seq<char>>, gateway: Option<Seq<char>>)
    ensures
        env_dns matches Some(s) ==> (text::is_blank(s) ==> chosen_resolver(env_dns, gateway)
            == gateway),
        env_dns matches Some(s) ==> (!text::is_blank(s) ==> chosen_resolver(env_dns, gateway)
            == env_dns),
        env_dns is None ==> chosen_resolver(env_dns, gateway) == gateway,
{
    if let Some(s) = env_dns {
        if text::is_blank(s) {
            text::lemma_trim_of_blank(s);
        } else {
            let ends = text::lemma_trim_parts(s);
            if text::trim(s).len() == 0 {
                assert(s == ends.0 + ends.1);
                assert forall|i: int| 0 <= i < s.len() implies text::is_white(#[trigger] s[i]) by {
                    if i < ends.0.len() {
                        assert(s[i] == ends.0[i]);
                    } else {
                        assert(s[i] == ends.1[i - ends.0.len()]);
                    }
                }
            }
        }
    }
}

/// A link leads to systemd's stand-in exactly where the last name along it is
/// "resolvectl"; slashes and dots at its end do not count.
pub proof fn lemma_last_name_decides(dir: Seq<char>, name: Seq<char>)
    requires
        text::lacks(name, '/'),
        name.len() > 0,
        name != "."@,
    ensures
        leads_to_resolvectl(name) <==> name == "resolvectl"@,
        leads_to_resolvectl(dir + seq!['/'] + name) <==> name == "resolvectl"@,
        leads_to_resolvectl(name + seq!['/']) <==> name == "resolvectl"@,
{
    let f = |part: Seq<char>| dns::is_path_name(part);
    let none = Seq::<char>::empty();
    text::lemma_split_single(name, '/');
    text::lemma_split_concat(dir, '/', name);
    text::lemma_split_single(none, '/');
    text::lemma_split_concat(name, '/', none);
    assert(name + seq!['/'] + none == name + seq!['/']);
    reveal_with_fuel(Seq::filter, 3);
    let a = text::split(dir, '/');
    assert(seq![name].drop_last() == Seq::<Seq<char>>::empty());
    assert((a + seq![name]).drop_last() == a);
    assert((a + seq![name]).last() == name);
    assert((seq![name] + seq![none]).drop_last() == seq![name]);
    assert((seq![name] + seq![none]).last() == none);
    assert(dns::path_names(name).last() == name);
    assert(dns::path_names(dir + seq!['/'] + name).last() == name);
    assert(dns::path_names(name + seq!['/']).last() == name);
}

/// systemd's stand-in is told by the link alone, and only where `resolvconf` was found.
pub proof fn lemma_stand_in(
    found: Seq<char>,
    dir: Seq<char>,
    name: Seq<char>,
    target: Option<Seq<char>>,
)
    requires
        text::lacks(name, '/'),
        name.len() > 0,
        name != "."@,
    ensures
        !is_shim(None, target),
        !is_shim(Some(found), None),
        is_shim(Some(found), Some(dir + seq!['/'] + name)) <==> name == "resolvectl"@,
        is_shim(Some(found), Some(name)) <==> name == "resolvectl"@,
{
    lemma_last_name_decides(dir, name);
}

/// The resolver comes from the override where that is not blank, else from the routing
/// table, and from nowhere else.
pub proof fn lemma_where_the_resolver_comes_from(
    over: Seq<char>,
    blank: Seq<char>,
    table: Seq<char>,
    routes: Option<Seq<char>>,
)
    requires
        text::is_blank(blank),
    ensures
        !text::is_blank(over) ==> resolver_from(Some(over), routes) == Some(over),
        resolver_from(Some(blank), Some(table)) == route::gateway_of(table),
        resolver_from(None, Some(table)) == route::gateway_of(table),
        resolver_from(Some(blank), None) is None,
        resolver_from(None, None) is None,
{
    lemma_override_comes_first(
        Some(over),
        match routes {
            Some(table) => route::gateway_of(table),
            None => None,
        },
    );
    lemma_override_comes_first(Some(blank), route::gateway_of(table));
    lemma_override_comes_first(Some(blank), None);
    lemma_override_comes_first(None, route::gateway_of(table));
    lemma_override_comes_first(None, None);
}

} // verus!
