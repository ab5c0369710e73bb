//! Who manages `/etc/resolv.conf`.

use crate::text;
use vstd::prelude::*;

verus! {

/// Permission bits of `resolv.conf`.
pub const RESOLV_MODE: u32 = 0o644;

/// The subsystem that manages `resolv.conf`.
#[derive(Debug, Clone, Copy, PartialEq, Eq, Structural)]
pub enum DnsBackend {
    Static,
    SystemdResolved,
    NetworkManager,
    Resolvconf,
    Netconfig,
    OtherManaged,
}

pub open spec fn backend_name(b: DnsBackend) -> Seq<char> {
    match b {
        DnsBackend::Static => "static"@,
        DnsBackend::SystemdResolved => "systemd-resolved"@,
        DnsBackend::NetworkManager => "network-manager"@,
        DnsBackend::Resolvconf => "resolvconf"@,
        DnsBackend::Netconfig => "netconfig"@,
        DnsBackend::OtherManaged => "other-managed"@,
    }
}

/// The backend with a name; an unknown name stands for `Static`.
pub open spec fn named_backend(s: Seq<char>) -> DnsBackend {
    if s == "systemd-resolved"@ {
        DnsBackend::SystemdResolved
    } else if s == "network-manager"@ {
        DnsBackend::NetworkManager
    } else if s == "resolvconf"@ {
        DnsBackend::Resolvconf
    } else if s == "netconfig"@ {
        DnsBackend::Netconfig
    } else if s == "other-managed"@ {
        DnsBackend::OtherManaged
    } else {
        DnsBackend::Static
    }
}

impl DnsBackend {
    pub fn as_str(&self) -> (res: &'static str)
        ensures
            res@ == backend_name(*self),
    {
        match self {
            DnsBackend::Static => "static",
            DnsBackend::SystemdResolved => "systemd-resolved",
            DnsBackend::NetworkManager => "network-manager",
            DnsBackend::Resolvconf => "resolvconf",
            DnsBackend::Netconfig => "netconfig",
            DnsBackend::OtherManaged => "other-managed",
        }
    }

    /// Inverse of `as_str`; an unknown name gives `Static`.
    pub fn from_str(s: &str) -> (res: DnsBackend)
        ensures
            res == named_backend(s@),
    {
        let name = text::chars_of(s);
        if text::is(&name, "systemd-resolved") {
            DnsBackend::SystemdResolved
        } else if text::is(&name, "network-manager") {
            DnsBackend::NetworkManager
        } else if text::is(&name, "resolvconf") {
            DnsBackend::Resolvconf
        } else if text::is(&name, "netconfig") {
            DnsBackend::Netconfig
        } else if text::is(&name, "other-managed") {
            DnsBackend::OtherManaged
        } else {
            DnsBackend::Static
        }
    }
}

/// The names of backends are plain words.
pub proof fn lemma_backend_names(b: DnsBackend)
    ensures
        backend_name(b).len() > 0,
        text::is_trimmed(backend_name(b)),
        text::lacks(backend_name(b), '\n'),
{
    reveal_strlit("static");
    reveal_strlit("systemd-resolved");
    reveal_strlit("network-manager");
    reveal_strlit("resolvconf");
    reveal_strlit("netconfig");
    reveal_strlit("other-managed");
}

/// A backend's name reads back as the backend.
pub proof fn lemma_backend_reads_back(b: DnsBackend)
    ensures
        named_backend(backend_name(b)) == b,
{
    reveal_strlit("static");
    reveal_strlit("systemd-resolved");
    reveal_strlit("network-manager");
    reveal_strlit("resolvconf");
    reveal_strlit("netconfig");
    reveal_strlit("other-managed");
    assert("systemd-resolved"@.len() == 16);
    assert("network-manager"@.len() == 15);
    assert("resolvconf"@.len() == 10);
    assert("netconfig"@.len() == 9);
    assert("other-managed"@.len() == 13);
    assert("static"@.len() == 6);
}

/// Whether a part of a path names something: it is neither empty nor ".".
pub open spec fn is_path_name(part: Seq<char>) -> bool {
    part.len() > 0 && part != "."@
}

/// The names along a path, ".." counted as one.
pub open spec fn path_names(path: Seq<char>) -> Seq<Seq<char>> {
    text::split(path, '/').filter(|part: Seq<char>| is_path_name(part))
}

/// The names of a path after a leading run of "..".
pub open spec fn below_parents(names: Seq<Seq<char>>) -> Seq<Seq<char>>
    decreases names.len(),
{
    if names.len() > 0 && names[0] == ".."@ {
        below_parents(names.skip(1))
    } else {
        names
    }
}

/// Whether the path leads to the stub, from the root down or after a leading run of
/// "." and "..". A path that merely ends with the stub does not.
pub open spec fn anchored(target: Seq<char>, stub: Seq<char>) -> bool {
    below_parents(path_names(target)) == path_names(stub)
}

/// The files that systemd-resolved has `resolv.conf` point to.
pub open spec fn systemd_stubs() -> Seq<Seq<char>> {
    seq![
        "/run/systemd/resolve/stub-resolv.conf"@,
        "/run/systemd/resolve/resolv.conf"@,
        "/var/run/systemd/resolve/stub-resolv.conf"@,
        "/var/run/systemd/resolve/resolv.conf"@,
        "/usr/lib/systemd/resolv.conf"@,
        "/lib/systemd/resolv.conf"@,
    ]
}

pub open spec fn is_systemd_stub(target: Seq<char>) -> bool {
    exists|i: int| 0 <= i < systemd_stubs().len() && anchored(target, #[trigger] systemd_stubs()[i])
}

/// The backend that a `resolv.conf` symlink points to.
pub open spec fn symlink_backend(target: Seq<char>) -> DnsBackend {
    if is_systemd_stub(target) {
        DnsBackend::SystemdResolved
    } else if path_names(target).contains("resolvconf"@) {
        DnsBackend::Resolvconf
    } else if path_names(target).contains("netconfig"@) {
        DnsBackend::Netconfig
    } else {
        DnsBackend::OtherManaged
    }
}

pub(crate) fn names_of(path: &str) -> (res: Vec<Vec<char>>)
    ensures
        text::views(res@) == path_names(path@),
{
    let parts = text::pieces(&text::chars_of(path), '/');
    let ghost all = text::views(parts@);
    let ghost f = |part: Seq<char>| is_path_name(part);
    let mut out: Vec<Vec<char>> = Vec::new();
    let mut i: usize = 0;
    proof {
        reveal(Seq::filter);
        assert(all.take(0).filter(f) == Seq::<Seq<char>>::empty());
        assert(text::views(out@) == Seq::<Seq<char>>::empty());
    }
    while i < parts.len()
        invariant
            i <= parts.len(),
            all == text::views(parts@),
            f == (|part: Seq<char>| is_path_name(part)),
            text::views(out@) == all.take(i as int).filter(f),
        decreases parts.len() - i,
    {
        let ghost done = out@;
        let part = text::cut(&parts[i], 0, parts[i].len());
        assert(part@ == all[i as int]);
        let named = part.len() > 0 && !text::is(&part, ".");
        proof {
            reveal(Seq::filter);
            assert(all.take(i + 1).drop_last() == all.take(i as int));
            assert(all.take(i + 1).last() == part@);
        }
        if named {
            out.push(part);
            assert(text::views(out@) == text::views(done).push(part@));
        }
        i = i + 1;
    }
    assert(all.take(all.len() as int) == all);
    out
}

fn has_name(names: &Vec<Vec<char>>, name: &str) -> (res: bool)
    ensures
        res == text::views(names@).contains(name@),
{
    let mut i: usize = 0;
    while i < names.len()
        invariant
            i <= names.len(),
            forall|k: int| 0 <= k < i ==> (#[trigger] names@[k])@ != name@,
        decreases names.len() - i,
    {
        if text::is(&names[i], name) {
            assert(text::views(names@)[i as int] == name@);
            return true;
        }
        i = i + 1;
    }
    false
}

fn is_anchored_stub(target: &str, stub: &str) -> (res: bool)
    ensures
        res == anchored(target@, stub@),
{
    let names = names_of(target);
    let wanted = names_of(stub);
    let ghost all = text::views(names@);
    let mut from: usize = 0;
    assert(all.skip(0) == all);
    while from < names.len() && text::is(&names[from], "..")
        invariant
            from <= names.len(),
            all == text::views(names@),
            below_parents(all) == below_parents(all.skip(from as int)),
        decreases names.len() - from,
    {
        assert(all.skip(from as int).skip(1) == all.skip(from + 1));
        assert(all.skip(from as int)[0] == names@[from as int]@);
        from = from + 1;
    }
    let ghost rest = all.skip(from as int);
    proof {
        if from < names.len() {
            assert(rest[0] == names@[from as int]@);
        }
        assert(below_parents(all) == rest);
    }
    let ghost stub_names = text::views(wanted@);
    assert(stub_names.len() == wanted@.len());
    assert(rest.len() == names@.len() - from);
    if names.len() - from != wanted.len() {
        return false;
    }
    let mut i: usize = 0;
    while i < wanted.len()
        invariant
            i <= wanted.len(),
            from + wanted.len() == names.len(),
            all == text::views(names@),
            rest == all.skip(from as int),
            rest == below_parents(path_names(target@)),
            stub_names == text::views(wanted@),
            stub_names == path_names(stub@),
            forall|k: int| 0 <= k < i ==> rest[k] == stub_names[k],
        decreases wanted.len() - i,
    {
        assert(rest[i as int] == names@[from + i]@);
        assert(stub_names[i as int] == wanted@[i as int]@);
        if !text::same(&names[from + i], &wanted[i]) {
            return false;
        }
        i = i + 1;
    }
    assert(rest == stub_names);
    true
}

/// Which subsystem a `resolv.conf` symlink with this target belongs to.
pub fn classify_symlink_target(target: &str) -> (res: DnsBackend)
    ensures
        res == symlink_backend(target@),
{
    let stubs = [
        "/run/systemd/resolve/stub-resolv.conf",
        "/run/systemd/resolve/resolv.conf",
        "/var/run/systemd/resolve/stub-resolv.conf",
        "/var/run/systemd/resolve/resolv.conf",
        "/usr/lib/systemd/resolv.conf",
        "/lib/systemd/resolv.conf",
    ];
    let mut i: usize = 0;
    while i < 6
        invariant
            i <= 6,
            stubs@.len() == 6,
            forall|k: int| 0 <= k < 6 ==> (#[trigger] stubs@[k])@ == systemd_stubs()[k],
            forall|k: int| 0 <= k < i ==> !anchored(target@, #[trigger] systemd_stubs()[k]),
        decreases 6 - i,
    {
        if is_anchored_stub(target, stubs[i]) {
            assert(stubs@[i as int]@ == systemd_stubs()[i as int]);
            return DnsBackend::SystemdResolved;
        }
        assert(stubs@[i as int]@ == systemd_stubs()[i as int]);
        i = i + 1;
    }
    assert(!is_systemd_stub(target@));
    let names = names_of(target);
    if has_name(&names, "resolvconf") {
        DnsBackend::Resolvconf
    } else if has_name(&names, "netconfig") {
        DnsBackend::Netconfig
    } else {
        DnsBackend::OtherManaged
    }
}

/// The backend that a comment line names.
pub open spec fn comment_backend(comment: Seq<char>) -> Option<DnsBackend> {
    if text::occurs(comment, "systemd-resolved"@) {
        Some(DnsBackend::SystemdResolved)
    } else if text::occurs(comment, "NetworkManager"@) {
        Some(DnsBackend::NetworkManager)
    } else if text::occurs(comment, "resolvconf"@) {
        Some(DnsBackend::Resolvconf)
    } else {
        None
    }
}

/// The first backend that the comment lines at the top name; the first line that is not
/// a comment ends them.
pub open spec fn header_backend(lines: Seq<Seq<char>>) -> Option<DnsBackend>
    decreases lines.len(),
{
    if lines.len() == 0 {
        None
    } else {
        let line = text::trim_start(lines[0]);
        if line.len() == 0 || line[0] != '#' {
            None
        } else {
            match comment_backend(line) {
                Some(b) => Some(b),
                None => header_backend(lines.skip(1)),
            }
        }
    }
}

/// The backend that the comment at the top of the text names. Managers write their
/// headers as a solid block, so that a mention after a blank line means nothing.
pub fn classify_comment_header(text: &str) -> (res: Option<DnsBackend>)
    ensures
        res == header_backend(text::lines(text@)),
{
    let lines = text::lines_of(&text::chars_of(text));
    let ghost all = text::views(lines@);
    let mut i: usize = 0;
    assert(all.skip(0) == all);
    while i < lines.len()
        invariant
            i <= lines.len(),
            all == text::views(lines@),
            all == text::lines(text@),
            header_backend(all) == header_backend(all.skip(i as int)),
        decreases lines.len() - i,
    {
        let line = text::trimmed_start(&lines[i]);
        assert(all.skip(i as int)[0] == lines@[i as int]@);
        assert(all.skip(i as int).skip(1) == all.skip(i + 1));
        if line.len() == 0 || line[0] != '#' {
            return None;
        }
        if text::contains(&line, "systemd-resolved") {
            return Some(DnsBackend::SystemdResolved);
        }
        if text::contains(&line, "NetworkManager") {
            return Some(DnsBackend::NetworkManager);
        }
        if text::contains(&line, "resolvconf") {
            return Some(DnsBackend::Resolvconf);
        }
        i = i + 1;
    }
    None
}

/// What a line names as a nameserver, whitespace aside.
pub open spec fn nameserver_of(line: Seq<char>) -> Option<Seq<char>> {
    match text::strip_prefix(text::trim(line), "nameserver"@) {
        Some(rest) => Some(text::trim(rest)),
        None => None,
    }
}

/// Whether there are nameserver lines and all of them name the stub of systemd-resolved.
pub open spec fn only_local_stub(lines: Seq<Seq<char>>) -> bool {
    &&& exists|i: int| 0 <= i < lines.len() && nameserver_of(#[trigger] lines[i]) is Some
    &&& forall|i: int|
        0 <= i < lines.len() && nameserver_of(#[trigger] lines[i]) is Some ==> nameserver_of(
            lines[i],
        ) == Some("127.0.0.53"@)
}

fn all_nameservers_are_localhost_resolved(text: &str) -> (res: bool)
    ensures
        res == only_local_stub(text::lines(text@)),
{
    let lines = text::lines_of(&text::chars_of(text));
    let ghost all = text::views(lines@);
    let mut saw = false;
    let mut i: usize = 0;
    while i < lines.len()
        invariant
            i <= lines.len(),
            all == text::views(lines@),
            all == text::lines(text@),
            saw == (exists|k: int| 0 <= k < i && nameserver_of(#[trigger] all[k]) is Some),
            forall|k: int|
                0 <= k < i && nameserver_of(#[trigger] all[k]) is Some ==> nameserver_of(all[k])
                    == Some("127.0.0.53"@),
        decreases lines.len() - i,
    {
        assert(all[i as int] == lines@[i as int]@);
        if let Some(rest) = text::stripped_prefix(&text::trimmed(&lines[i]), "nameserver") {
            saw = true;
            assert(nameserver_of(all[i as int]) is Some);
            if !text::is(&text::trimmed(&rest), "127.0.0.53") {
                return false;
            }
        }
        i = i + 1;
    }
    assert(all.len() == lines@.len());
    saw
}

/// The backend of a `resolv.conf` that is a symlink to `link`, or else a file that holds
/// `text`, or else one that cannot be read.
pub open spec fn backend_of(link: Option<Seq<char>>, text: Option<Seq<char>>) -> DnsBackend {
    match link {
        Some(target) => symlink_backend(target),
        None => match text {
            None => DnsBackend::Static,
            Some(t) => match header_backend(text::lines(t)) {
                Some(b) => b,
                None => if only_local_stub(text::lines(t)) {
                    DnsBackend::SystemdResolved
                } else {
                    DnsBackend::Static
                },
            },
        },
    }
}

pub open spec fn view_of(s: Option<&str>) -> Option<Seq<char>> {
    match s {
        Some(s) => Some(s@),
        None => None,
    }
}

/// Detects which subsystem owns `resolv.conf`, so that the gap is filled only where that
/// is safe. `link` is the target where the file is a symlink; `text` is what it holds
/// where it can be read.
pub fn detect_backend(link: Option<&str>, text: Option<&str>) -> (res: DnsBackend)
    ensures
        res == backend_of(view_of(link), view_of(text)),
{
    if let Some(target) = link {
        return classify_symlink_target(target);
    }
    let text = match text {
        Some(text) => text,
        None => {
            return DnsBackend::Static;
        },
    };
    if let Some(b) = classify_comment_header(text) {
        return b;
    }
    if all_nameservers_are_localhost_resolved(text) {
        return DnsBackend::SystemdResolved;
    }
    DnsBackend::Static
}

/// The names of the backends, word for word; every other name stands for `Static`.
pub proof fn lemma_names_word_for_word(s: Seq<char>)
    ensures
        backend_name(DnsBackend::Static) == "static"@,
        backend_name(DnsBackend::SystemdResolved) == "systemd-resolved"@,
        backend_name(DnsBackend::NetworkManager) == "network-manager"@,
        backend_name(DnsBackend::Resolvconf) == "resolvconf"@,
        backend_name(DnsBackend::Netconfig) == "netconfig"@,
        backend_name(DnsBackend::OtherManaged) == "other-managed"@,
        named_backend(s) == DnsBackend::Static || s == backend_name(named_backend(s)),
{
}

/// The names along a path, part by part: an empty part and a "." are not among them.
pub proof fn lemma_path_names(part: Seq<char>, rest: Seq<char>)
    requires
        text::lacks(part, '/'),
    ensures
        part.len() > 0 && part != "."@ ==> path_names(part) == seq![part] && path_names(
            part + seq!['/'] + rest,
        ) == seq![part] + path_names(rest),
        part.len() == 0 || part == "."@ ==> path_names(part) == Seq::<Seq<char>>::empty()
            && path_names(part + seq!['/'] + rest) == path_names(rest),
{
    let f = |part: Seq<char>| is_path_name(part);
    text::lemma_split_single(part, '/');
    text::lemma_split_concat(part, '/', rest);
    Seq::filter_distributes_over_add(seq![part], text::split(rest, '/'), f);
    reveal(Seq::filter);
    assert(seq![part].drop_last() == Seq::<Seq<char>>::empty());
    assert(seq![part].drop_last().filter(f) == Seq::<Seq<char>>::empty());
    if is_path_name(part) {
        assert(seq![part].filter(f) == Seq::<Seq<char>>::empty().push(part));
        assert(seq![part].filter(f) == seq![part]);
    } else {
        assert(seq![part].filter(f) == Seq::<Seq<char>>::empty());
        assert(Seq::<Seq<char>>::empty() + path_names(rest) == path_names(rest));
    }
}

/// Where the symlink starts does not matter: a "..", a "." or a slash in front of a target
/// leaves the backend as it is.
#[verifier::rlimit(40)]
pub proof fn lemma_lead_in_does_not_count(target: Seq<char>)
    ensures
        symlink_backend("../"@ + target) == symlink_backend(target),
        symlink_backend("./"@ + target) == symlink_backend(target),
        symlink_backend("/"@ + target) == symlink_backend(target),
{
    reveal_strlit("../");
    reveal_strlit("./");
    reveal_strlit("/");
    reveal_strlit("..");
    reveal_strlit(".");
    reveal_strlit("resolvconf");
    reveal_strlit("netconfig");
    assert("../"@ + target == ".."@ + seq!['/'] + target);
    assert("./"@ + target == "."@ + seq!['/'] + target);
    assert("/"@ + target == Seq::<char>::empty() + seq!['/'] + target);
    assert(".."@.len() != "."@.len());
    lemma_path_names(".."@, target);
    lemma_path_names("."@, target);
    lemma_path_names(Seq::<char>::empty(), target);
    let names = path_names(target);
    let up = seq![".."@] + names;
    assert(up.skip(1) == names);
    assert(below_parents(up) == below_parents(names));
    assert("resolvconf"@.len() != ".."@.len());
    assert("netconfig"@.len() != ".."@.len());
    lemma_contains_after(".."@, names, "resolvconf"@);
    lemma_contains_after(".."@, names, "netconfig"@);
    assert forall|i: int| 0 <= i < systemd_stubs().len() implies anchored(
        "../"@ + target,
        #[trigger] systemd_stubs()[i],
    ) == anchored(target, systemd_stubs()[i]) && anchored("./"@ + target, systemd_stubs()[i])
        == anchored(target, systemd_stubs()[i]) && anchored("/"@ + target, systemd_stubs()[i])
        == anchored(target, systemd_stubs()[i]) by {}
    assert(is_systemd_stub("../"@ + target) == is_systemd_stub(target));
    assert(is_systemd_stub("./"@ + target) == is_systemd_stub(target));
    assert(is_systemd_stub("/"@ + target) == is_systemd_stub(target));
}

proof fn lemma_contains_after(first: Seq<char>, names: Seq<Seq<char>>, name: Seq<char>)
    requires
        first != name,
    ensures
        (seq![first] + names).contains(name) == names.contains(name),
{
    let all = seq![first] + names;
    if names.contains(name) {
        let k = choose|k: int| 0 <= k < names.len() && names[k] == name;
        assert(all[k + 1] == name);
    }
    if all.contains(name) {
        let k = choose|k: int| 0 <= k < all.len() && all[k] == name;
        assert(names[k - 1] == name);
    }
}

/// The names along the paths that systemd-resolved has `resolv.conf` point to.
proof fn lemma_stub_names()
    ensures
        path_names("/run/systemd/resolve/stub-resolv.conf"@) == seq![
            "run"@,
            "systemd"@,
            "resolve"@,
            "stub-resolv.conf"@,
        ],
        path_names("/run/systemd/resolve/resolv.conf"@) == seq![
            "run"@,
            "systemd"@,
            "resolve"@,
            "resolv.conf"@,
        ],
        path_names("/var/run/systemd/resolve/stub-resolv.conf"@) == seq![
            "var"@,
            "run"@,
            "systemd"@,
            "resolve"@,
            "stub-resolv.conf"@,
        ],
        path_names("/var/run/systemd/resolve/resolv.conf"@) == seq![
            "var"@,
            "run"@,
            "systemd"@,
            "resolve"@,
            "resolv.conf"@,
        ],
        path_names("/usr/lib/systemd/resolv.conf"@) == seq![
            "usr"@,
            "lib"@,
            "systemd"@,
            "resolv.conf"@,
        ],
        path_names("/lib/systemd/resolv.conf"@) == seq!["lib"@, "systemd"@, "resolv.conf"@],
{
    lemma_run_stub_names();
    lemma_run_names();
    lemma_var_run_stub_names();
    lemma_var_run_names();
    lemma_usr_lib_names();
    lemma_lib_names();
}

#[verifier::rlimit(40)]
proof fn lemma_run_stub_names()
    ensures
        path_names("/run/systemd/resolve/stub-resolv.conf"@) == seq!["run"@, "systemd"@, "resolve"@, "stub-resolv.conf"@],
{
    reveal_strlit("/run/systemd/resolve/stub-resolv.conf");
    reveal_strlit("run");
    reveal_strlit("systemd");
    reveal_strlit("resolve");
    reveal_strlit("stub-resolv.conf");
    reveal_strlit(".");
    let slash = seq!['/'];
    let none = Seq::<char>::empty();
    let s4 = "stub-resolv.conf"@;
    let s3 = "resolve"@ + slash + s4;
    let s2 = "systemd"@ + slash + s3;
    let s1 = "run"@ + slash + s2;
    lemma_path_names(s4, none);
    lemma_path_names("resolve"@, s4);
    lemma_path_names("systemd"@, s3);
    lemma_path_names("run"@, s2);
    lemma_path_names(none, s1);
    assert("/run/systemd/resolve/stub-resolv.conf"@ == none + slash + s1);
    assert(path_names(s1) == seq!["run"@, "systemd"@, "resolve"@, "stub-resolv.conf"@]);
}

#[verifier::rlimit(40)]
proof fn lemma_run_names()
    ensures
        path_names("/run/systemd/resolve/resolv.conf"@) == seq!["run"@, "systemd"@, "resolve"@, "resolv.conf"@],
{
    reveal_strlit("/run/systemd/resolve/resolv.conf");
    reveal_strlit("run");
    reveal_strlit("systemd");
    reveal_strlit("resolve");
    reveal_strlit("resolv.conf");
    reveal_strlit(".");
    let slash = seq!['/'];
    let none = Seq::<char>::empty();
    let s4 = "resolv.conf"@;
    let s3 = "resolve"@ + slash + s4;
    let s2 = "systemd"@ + slash + s3;
    let s1 = "run"@ + slash + s2;
    lemma_path_names(s4, none);
    lemma_path_names("resolve"@, s4);
    lemma_path_names("systemd"@, s3);
    lemma_path_names("run"@, s2);
    lemma_path_names(none, s1);
    assert("/run/systemd/resolve/resolv.conf"@ == none + slash + s1);
    assert(path_names(s1) == seq!["run"@, "systemd"@, "resolve"@, "resolv.conf"@]);
}

#[verifier::rlimit(40)]
proof fn lemma_var_run_stub_names()
    ensures
        path_names("/var/run/systemd/resolve/stub-resolv.conf"@) == seq!["var"@, "run"@, "systemd"@, "resolve"@, "stub-resolv.conf"@],
{
    reveal_strlit("/var/run/systemd/resolve/stub-resolv.conf");
    reveal_strlit("var");
    reveal_strlit("run");
    reveal_strlit("systemd");
    reveal_strlit("resolve");
    reveal_strlit("stub-resolv.conf");
    reveal_strlit(".");
    let slash = seq!['/'];
    let none = Seq::<char>::empty();
    let s5 = "stub-resolv.conf"@;
    let s4 = "resolve"@ + slash + s5;
    let s3 = "systemd"@ + slash + s4;
    let s2 = "run"@ + slash + s3;
    let s1 = "var"@ + slash + s2;
    lemma_path_names(s5, none);
    lemma_path_names("resolve"@, s5);
    lemma_path_names("systemd"@, s4);
    lemma_path_names("run"@, s3);
    lemma_path_names("var"@, s2);
    lemma_path_names(none, s1);
    assert("/var/run/systemd/resolve/stub-resolv.conf"@ == none + slash + s1);
    assert(path_names(s1) == seq!["var"@, "run"@, "systemd"@, "resolve"@, "stub-resolv.conf"@]);
}

#[verifier::rlimit(40)]
proof fn lemma_var_run_names()
    ensures
        path_names("/var/run/systemd/resolve/resolv.conf"@) == seq!["var"@, "run"@, "systemd"@, "resolve"@, "resolv.conf"@],
{
    reveal_strlit("/var/run/systemd/resolve/resolv.conf");
    reveal_strlit("var");
    reveal_strlit("run");
    reveal_strlit("systemd");
    reveal_strlit("resolve");
    reveal_strlit("resolv.conf");
    reveal_strlit(".");
    let slash = seq!['/'];
    let none = Seq::<char>::empty();
    let s5 = "resolv.conf"@;
    let s4 = "resolve"@ + slash + s5;
    let s3 = "systemd"@ + slash + s4;
    let s2 = "run"@ + slash + s3;
    let s1 = "var"@ + slash + s2;
    lemma_path_names(s5, none);
    lemma_path_names("resolve"@, s5);
    lemma_path_names("systemd"@, s4);
    lemma_path_names("run"@, s3);
    lemma_path_names("var"@, s2);
    lemma_path_names(none, s1);
    assert("/var/run/systemd/resolve/resolv.conf"@ == none + slash + s1);
    assert(path_names(s1) == seq!["var"@, "run"@, "systemd"@, "resolve"@, "resolv.conf"@]);
}

#[verifier::rlimit(40)]
proof fn lemma_usr_lib_names()
    ensures
        path_names("/usr/lib/systemd/resolv.conf"@) == seq!["usr"@, "lib"@, "systemd"@, "resolv.conf"@],
{
    reveal_strlit("/usr/lib/systemd/resolv.conf");
    reveal_strlit("usr");
    reveal_strlit("lib");
    reveal_strlit("systemd");
    reveal_strlit("resolv.conf");
    reveal_strlit(".");
    let slash = seq!['/'];
    let none = Seq::<char>::empty();
    let s4 = "resolv.conf"@;
    let s3 = "systemd"@ + slash + s4;
    let s2 = "lib"@ + slash + s3;
    let s1 = "usr"@ + slash + s2;
    lemma_path_names(s4, none);
    lemma_path_names("systemd"@, s4);
    lemma_path_names("lib"@, s3);
    lemma_path_names("usr"@, s2);
    lemma_path_names(none, s1);
    assert("/usr/lib/systemd/resolv.conf"@ == none + slash + s1);
    assert(path_names(s1) == seq!["usr"@, "lib"@, "systemd"@, "resolv.conf"@]);
}

proof fn lemma_lib_names()
    ensures
        path_names("/lib/systemd/resolv.conf"@) == seq!["lib"@, "systemd"@, "resolv.conf"@],
{
    reveal_strlit("/lib/systemd/resolv.conf");
    reveal_strlit("lib");
    reveal_strlit("systemd");
    reveal_strlit("resolv.conf");
    reveal_strlit(".");
    let slash = seq!['/'];
    let none = Seq::<char>::empty();
    let s3 = "resolv.conf"@;
    let s2 = "systemd"@ + slash + s3;
    let s1 = "lib"@ + slash + s2;
    lemma_path_names(s3, none);
    lemma_path_names("systemd"@, s3);
    lemma_path_names("lib"@, s2);
    lemma_path_names(none, s1);
    assert("/lib/systemd/resolv.conf"@ == none + slash + s1);
    assert(path_names(s1) == seq!["lib"@, "systemd"@, "resolv.conf"@]);
}

/// A symlink belongs to systemd-resolved exactly where its names, after any run of "..",
/// are those of one of its six files: one more name in front, behind or between, and it is
/// another path.
#[verifier::rlimit(40)]
pub proof fn lemma_stubs_name_for_name(target: Seq<char>)
    requires
        path_names(target).len() > 0 ==> path_names(target)[0] != ".."@,
    ensures
        symlink_backend(target) == DnsBackend::SystemdResolved <==> {
            let names = path_names(target);
            ||| names == seq!["run"@, "systemd"@, "resolve"@, "stub-resolv.conf"@]
            ||| names == seq!["run"@, "systemd"@, "resolve"@, "resolv.conf"@]
            ||| names == seq!["var"@, "run"@, "systemd"@, "resolve"@, "stub-resolv.conf"@]
            ||| names == seq!["var"@, "run"@, "systemd"@, "resolve"@, "resolv.conf"@]
            ||| names == seq!["usr"@, "lib"@, "systemd"@, "resolv.conf"@]
            ||| names == seq!["lib"@, "systemd"@, "resolv.conf"@]
        },
{
    lemma_stub_names();
    let names = path_names(target);
    assert(below_parents(names) == names);
    assert(systemd_stubs()[0] == "/run/systemd/resolve/stub-resolv.conf"@);
    assert(systemd_stubs()[1] == "/run/systemd/resolve/resolv.conf"@);
    assert(systemd_stubs()[2] == "/var/run/systemd/resolve/stub-resolv.conf"@);
    assert(systemd_stubs()[3] == "/var/run/systemd/resolve/resolv.conf"@);
    assert(systemd_stubs()[4] == "/usr/lib/systemd/resolv.conf"@);
    assert(systemd_stubs()[5] == "/lib/systemd/resolv.conf"@);
}

/// A symlink that is not one of systemd-resolved belongs to resolvconf where one part of
/// its path is "resolvconf", else to netconfig where one is "netconfig", and else to a
/// manager of another kind.
pub proof fn lemma_other_managers_by_path(target: Seq<char>)
    ensures
        symlink_backend(target) != DnsBackend::SystemdResolved ==> symlink_backend(target) == (
        if text::split(target, '/').contains("resolvconf"@) {
            DnsBackend::Resolvconf
        } else if text::split(target, '/').contains("netconfig"@) {
            DnsBackend::Netconfig
        } else {
            DnsBackend::OtherManaged
        }),
{
    reveal_strlit("resolvconf");
    reveal_strlit("netconfig");
    reveal_strlit(".");
    assert("resolvconf"@.len() == 10 && "netconfig"@.len() == 9 && "."@.len() == 1);
    lemma_named_part(text::split(target, '/'), "resolvconf"@);
    lemma_named_part(text::split(target, '/'), "netconfig"@);
}

proof fn lemma_named_part(parts: Seq<Seq<char>>, name: Seq<char>)
    requires
        is_path_name(name),
    ensures
        parts.filter(|part: Seq<char>| is_path_name(part)).contains(name) == parts.contains(name),
    decreases parts.len(),
{
    reveal(Seq::filter);
    let f = |part: Seq<char>| is_path_name(part);
    if parts.len() > 0 {
        let init = parts.drop_last();
        lemma_named_part(init, name);
        if init.contains(name) {
            let k = choose|k: int| 0 <= k < init.len() && init[k] == name;
            assert(parts[k] == name);
            let j = choose|j: int| 0 <= j < init.filter(f).len() && init.filter(f)[j] == name;
            assert(parts.filter(f)[j] == name);
        } else if parts.last() == name {
            assert(parts[parts.len() - 1] == name);
            assert(parts.filter(f)[parts.filter(f).len() - 1] == name);
        } else {
            if parts.contains(name) {
                let k = choose|k: int| 0 <= k < parts.len() && parts[k] == name;
                assert(init[k] == name);
            }
            if parts.filter(f).contains(name) {
                let j = choose|j: int| 0 <= j < parts.filter(f).len() && parts.filter(f)[j] == name;
                assert(j < init.filter(f).len());
                assert(init.filter(f)[j] == name);
            }
        }
    }
}

/// The comment at the top, line by line: a line that is no comment ends it; one that names
/// a manager decides, systemd-resolved before NetworkManager before resolvconf; any other
/// comment is passed over.
pub proof fn lemma_header_line_by_line(line: Seq<char>, rest: Seq<Seq<char>>)
    ensures
        header_backend(Seq::<Seq<char>>::empty()) is None,
        ({
            let l = text::trim_start(line);
            let found = header_backend(seq![line] + rest);
            &&& l.len() == 0 || l[0] != '#' ==> found is None
            &&& l.len() > 0 && l[0] == '#' ==> found == (if text::occurs(l, "systemd-resolved"@) {
                Some(DnsBackend::SystemdResolved)
            } else if text::occurs(l, "NetworkManager"@) {
                Some(DnsBackend::NetworkManager)
            } else if text::occurs(l, "resolvconf"@) {
                Some(DnsBackend::Resolvconf)
            } else {
                header_backend(rest)
            })
        }),
{
    assert((seq![line] + rest)[0] == line);
    assert((seq![line] + rest).skip(1) == rest);
}

/// Whether a line begins with "nameserver", whitespace aside.
pub open spec fn starts_as_nameserver(line: Seq<char>) -> bool {
    let l = text::trim(line);
    l.len() >= 10 && l.take(10) == "nameserver"@
}

/// What one more line does to the question whether all nameservers are the stub of
/// systemd-resolved: no lines are not enough, another nameserver spoils it, and lines that
/// name none do not count.
pub proof fn lemma_local_stub_line_by_line(lines: Seq<Seq<char>>, line: Seq<char>)
    ensures
        !only_local_stub(Seq::<Seq<char>>::empty()),
        ({
            let more = only_local_stub(lines.push(line));
            if !starts_as_nameserver(line) {
                more == only_local_stub(lines)
            } else if text::trim(text::trim(line).skip(10)) == "127.0.0.53"@ {
                more == (only_local_stub(lines) || forall|i: int|
                    0 <= i < lines.len() ==> !starts_as_nameserver(#[trigger] lines[i]))
            } else {
                !more
            }
        }),
{
    reveal_strlit("nameserver");
    let all = lines.push(line);
    assert forall|i: int| 0 <= i < all.len() implies (nameserver_of(#[trigger] all[i]) is Some)
        == starts_as_nameserver(all[i]) by {
        let l = text::trim(all[i]);
        text::lemma_strip_prefix_parts(l, "nameserver"@);
        if text::strip_prefix(l, "nameserver"@) is Some {
            assert(l.take(10) == "nameserver"@);
        }
    }
    assert forall|i: int| 0 <= i < lines.len() implies #[trigger] lines[i] == all[i] by {}
    assert(all[lines.len() as int] == line);
    if only_local_stub(lines) {
        let k = choose|k: int| 0 <= k < lines.len() && nameserver_of(#[trigger] lines[k]) is Some;
        assert(nameserver_of(all[k]) is Some);
    }
    if starts_as_nameserver(line) {
        let l = text::trim(line);
        text::lemma_strip_prefix_parts(l, "nameserver"@);
        assert(nameserver_of(line) == Some(text::trim(l.skip(10))));
        assert(nameserver_of(all[lines.len() as int]) is Some);
        if only_local_stub(all) {
            assert forall|i: int|
                0 <= i < lines.len() && nameserver_of(#[trigger] lines[i]) is Some implies
                nameserver_of(lines[i]) == Some("127.0.0.53"@) by {
                assert(lines[i] == all[i]);
            }
            if !(forall|i: int| 0 <= i < lines.len() ==> !starts_as_nameserver(#[trigger] lines[i])) {
                let j = choose|j: int| 0 <= j < lines.len() && starts_as_nameserver(#[trigger] lines[j]);
                assert(nameserver_of(all[j]) is Some);
                assert(nameserver_of(lines[j]) is Some);
            }
        }
    } else if only_local_stub(all) {
        let k = choose|k: int| 0 <= k < all.len() && nameserver_of(#[trigger] all[k]) is Some;
        assert(nameserver_of(lines[k]) is Some);
        assert forall|i: int|
            0 <= i < lines.len() && nameserver_of(#[trigger] lines[i]) is Some implies
            nameserver_of(lines[i]) == Some("127.0.0.53"@) by {
            assert(lines[i] == all[i]);
        }
    }
}

/// What decides: a symlink by its target alone; else the comment at the top; else whether
/// systemd-resolved's stub is the only nameserver. A file that cannot be read is static.
pub proof fn lemma_what_decides(target: Seq<char>, held: Seq<char>, other: Option<Seq<char>>)
    ensures
        backend_of(Some(target), other) == symlink_backend(target),
        backend_of(None, None) == DnsBackend::Static,
        header_backend(text::lines(held)) matches Some(b) ==> backend_of(None, Some(held)) == b,
        header_backend(text::lines(held)) is None ==> (backend_of(None, Some(held))
            == DnsBackend::SystemdResolved <==> only_local_stub(text::lines(held))),
        header_backend(text::lines(held)) is None && !only_local_stub(text::lines(held)) ==> backend_of(
            None,
            Some(held),
        ) == DnsBackend::Static,
{
}

/// The file of resolvers can be read by all and written by its owner.
pub proof fn lemma_resolv_mode()
    ensures
        RESOLV_MODE == 0o644,
{
}

} // verus!
