//! Where things are: the state files, and the programs that vpnmux runs.

use crate::dns;
use crate::text;
use vstd::prelude::*;

verus! {

pub const STATE_DIR: &'static str = "/var/lib/vpnmux";

pub const RUNTIME_DIR: &'static str = "/run/vpnmux";

pub const DESIRED_FILE: &'static str = "/var/lib/vpnmux/desired";

pub const STATUS_FILE: &'static str = "/run/vpnmux/status";

pub const RESOLV_CONF: &'static str = "/etc/resolv.conf";

/// Where programs are looked for: the Guix system profile, since a root shepherd service
/// has a minimal `$PATH`, then where Debian and others keep them.
pub open spec fn bin_dirs() -> Seq<Seq<char>> {
    seq!["/run/current-system/profile/bin"@, "/usr/sbin"@, "/usr/bin"@, "/sbin"@, "/bin"@]
}

/// Where `nft` is looked for: it lives in an `sbin` on most systems.
pub open spec fn nft_dirs() -> Seq<Seq<char>> {
    seq![
        "/run/current-system/profile/sbin"@,
        "/run/current-system/profile/bin"@,
        "/usr/sbin"@,
        "/sbin"@,
        "/usr/bin"@,
        "/bin"@,
    ]
}

/// Where a program is looked for when `$PATH` does not have it.
pub open spec fn fallback_dirs() -> Seq<Seq<char>> {
    seq!["/usr/bin"@, "/sbin"@, "/usr/sbin"@]
}

pub open spec fn strs(v: Seq<&str>) -> Seq<Seq<char>> {
    v.map_values(|s: &str| s@)
}

/// Whether the test `f` gave the answer for the path.
pub open spec fn answered<F: Fn(&str) -> bool>(f: F, path: Seq<char>, answer: bool) -> bool {
    exists|p: &str| p@ == path && #[trigger] f.ensures((p,), answer)
}

pub open spec fn total<F: Fn(&str) -> bool>(f: F) -> bool {
    forall|p: &str| #[trigger] f.requires((p,))
}

/// Whether `found` is the first of the paths that passes the test.
pub open spec fn is_first<F: Fn(&str) -> bool>(
    f: F,
    paths: Seq<Seq<char>>,
    found: Option<Seq<char>>,
) -> bool {
    match found {
        Some(p) => exists|i: int|
            {
                &&& 0 <= i < paths.len()
                &&& #[trigger] paths[i] == p
                &&& answered(f, p, true)
                &&& forall|j: int| 0 <= j < i ==> answered(f, #[trigger] paths[j], false)
            },
        None => forall|j: int| 0 <= j < paths.len() ==> answered(f, #[trigger] paths[j], false),
    }
}

/// The path of a name in each of the directories.
pub open spec fn in_dirs(dirs: Seq<Seq<char>>, name: Seq<char>) -> Seq<Seq<char>> {
    dirs.map_values(|dir: Seq<char>| dir + seq!['/'] + name)
}

pub open spec fn found_view(s: Option<String>) -> Option<Seq<char>> {
    match s {
        Some(s) => Some(s@),
        None => None,
    }
}

fn in_dir(dir: &str, name: &str) -> (res: String)
    ensures
        res@ == dir@ + seq!['/'] + name@,
{
    let mut out = dir.to_string();
    out.push('/');
    out.append(name);
    assert(out@ == dir@ + seq!['/'] + name@);
    out
}

/// The first directory's path of `name` that passes the test.
pub fn find_bin_in<F: Fn(&str) -> bool>(name: &str, dirs: &[&str], passes: &F) -> (res: Option<String>)
    requires
        total(*passes),
    ensures
        is_first(*passes, in_dirs(strs(dirs@), name@), found_view(res)),
{
    let ghost paths = in_dirs(strs(dirs@), name@);
    let mut i: usize = 0;
    while i < dirs.len()
        invariant
            i <= dirs.len(),
            total(*passes),
            paths == in_dirs(strs(dirs@), name@),
            forall|j: int| 0 <= j < i ==> answered(*passes, #[trigger] paths[j], false),
        decreases dirs.len() - i,
    {
        let candidate = in_dir(dirs[i], name);
        assert(paths[i as int] == candidate@);
        if passes(candidate.as_str()) {
            return Some(candidate);
        }
        i = i + 1;
    }
    None
}

/// What a search comes to: what it found, else the bare name.
pub open spec fn or_bare<F: Fn(&str) -> bool>(
    f: F,
    paths: Seq<Seq<char>>,
    name: Seq<char>,
    res: Seq<char>,
) -> bool {
    is_first(f, paths, Some(res)) || is_first(f, paths, None) && res == name
}

/// The path of a program in the first of the usual directories that has it, else the bare
/// name, so that a filled `$PATH` still works.
pub fn find_bin<F: Fn(&str) -> bool>(name: &str, passes: &F) -> (res: String)
    requires
        total(*passes),
    ensures
        or_bare(*passes, in_dirs(bin_dirs(), name@), name@, res@),
{
    let dirs = [
        "/run/current-system/profile/bin",
        "/usr/sbin",
        "/usr/bin",
        "/sbin",
        "/bin",
    ];
    assert(strs(dirs@) == bin_dirs());
    match find_bin_in(name, &dirs, passes) {
        Some(path) => path,
        None => name.to_string(),
    }
}

/// What a program is run as: the override wins.
pub open spec fn resolved<F: Fn(&str) -> bool>(
    f: F,
    over: Option<&str>,
    name: Seq<char>,
    res: Seq<char>,
) -> bool {
    match over {
        Some(path) => res == path@,
        None => or_bare(f, in_dirs(bin_dirs(), name), name, res),
    }
}

/// Where a program is; an override wins.
pub fn resolve<F: Fn(&str) -> bool>(over: Option<&str>, name: &str, passes: &F) -> (res: String)
    requires
        total(*passes),
    ensures
        resolved(*passes, over, name@, res@),
{
    match over {
        Some(path) => path.to_string(),
        None => find_bin(name, passes),
    }
}

/// Where `mullvad` is, given the value of `VPNMUX_MULLVAD`.
pub fn mullvad<F: Fn(&str) -> bool>(over: Option<&str>, passes: &F) -> (res: String)
    requires
        total(*passes),
    ensures
        resolved(*passes, over, "mullvad"@, res@),
{
    resolve(over, "mullvad", passes)
}

/// Where `tailscale` is, given the value of `VPNMUX_TAILSCALE`.
pub fn tailscale<F: Fn(&str) -> bool>(over: Option<&str>, passes: &F) -> (res: String)
    requires
        total(*passes),
    ensures
        resolved(*passes, over, "tailscale"@, res@),
{
    resolve(over, "tailscale", passes)
}

/// Whether one text comes no later than the other when compared character by character.
pub open spec fn at_most(a: Seq<char>, b: Seq<char>) -> bool
    decreases a.len(),
{
    if a.len() == 0 {
        true
    } else if b.len() == 0 {
        false
    } else {
        a[0] < b[0] || a[0] == b[0] && at_most(a.drop_first(), b.drop_first())
    }
}

/// The order is total, and only equal texts come no later than each other.
pub proof fn lemma_order_is_total(a: Seq<char>, b: Seq<char>)
    ensures
        at_most(a, b) || at_most(b, a),
        at_most(a, b) && at_most(b, a) ==> a == b,
    decreases a.len(),
{
    if a.len() > 0 && b.len() > 0 {
        lemma_order_is_total(a.drop_first(), b.drop_first());
        if a[0] == b[0] && a.drop_first() == b.drop_first() {
            assert(a == seq![a[0]] + a.drop_first());
            assert(b == seq![b[0]] + b.drop_first());
        }
    } else if a.len() == 0 && b.len() == 0 {
        assert(a == b);
    }
}

pub proof fn lemma_order_is_transitive(a: Seq<char>, b: Seq<char>, c: Seq<char>)
    requires
        at_most(a, b),
        at_most(b, c),
    ensures
        at_most(a, c),
    decreases a.len(),
{
    if a.len() > 0 && a[0] == b[0] && b[0] == c[0] {
        lemma_order_is_transitive(a.drop_first(), b.drop_first(), c.drop_first());
    }
}

fn no_later(a: &Vec<char>, b: &Vec<char>) -> (res: bool)
    ensures
        res == at_most(a@, b@),
{
    let mut i: usize = 0;
    assert(a@.skip(0) == a@);
    assert(b@.skip(0) == b@);
    while i < a.len()
        invariant
            i <= a.len(),
            i <= b.len(),
            at_most(a@, b@) == at_most(a@.skip(i as int), b@.skip(i as int)),
        decreases a.len() - i,
    {
        if i == b.len() {
            return false;
        }
        if a[i] != b[i] {
            return a[i] < b[i];
        }
        assert(a@.skip(i as int).drop_first() == a@.skip(i + 1));
        assert(b@.skip(i as int).drop_first() == b@.skip(i + 1));
        i = i + 1;
    }
    true
}

/// Whether an entry of the Guix store is a build of nftables.
pub open spec fn is_build(entry: Seq<char>) -> bool {
    text::occurs(entry, "-nftables-"@)
}

/// Where `nft` is in an entry of the Guix store.
pub open spec fn store_path(entry: Seq<char>) -> Seq<char> {
    "/gnu/store/"@ + entry + "/sbin/nft"@
}

/// Whether the answers are those of the test for `nft` in the builds of nftables.
pub open spec fn tested<F: Fn(&str) -> bool>(
    f: F,
    entries: Seq<Seq<char>>,
    answers: Seq<bool>,
) -> bool {
    &&& answers.len() == entries.len()
    &&& forall|i: int|
        0 <= i < entries.len() && is_build(entries[i]) ==> answered(
            f,
            store_path(#[trigger] entries[i]),
            answers[i],
        )
}

/// Whether an entry is a build of nftables that passed the test.
pub open spec fn passed(entries: Seq<Seq<char>>, answers: Seq<bool>, i: int) -> bool {
    0 <= i < entries.len() && is_build(entries[i]) && answers[i]
}

/// Whether `found` is the last, in order, of the builds that passed.
pub open spec fn is_newest(
    entries: Seq<Seq<char>>,
    answers: Seq<bool>,
    found: Option<Seq<char>>,
) -> bool {
    match found {
        Some(p) => {
            &&& exists|i: int| #[trigger] passed(entries, answers, i) && store_path(entries[i]) == p
            &&& forall|i: int| #[trigger]
                passed(entries, answers, i) ==> at_most(store_path(entries[i]), p)
        },
        None => forall|i: int| !#[trigger] passed(entries, answers, i),
    }
}

pub open spec fn newest_build<F: Fn(&str) -> bool>(
    f: F,
    entries: Seq<Seq<char>>,
    found: Option<Seq<char>>,
) -> bool {
    exists|answers: Seq<bool>| #[trigger]
        tested(f, entries, answers) && is_newest(entries, answers, found)
}

proof fn lemma_one_more(
    entries: Seq<Seq<char>>,
    answers: Seq<bool>,
    entry: Seq<char>,
    answer: bool,
    best: Option<Seq<char>>,
)
    requires
        answers.len() == entries.len(),
        is_newest(entries, answers, best),
    ensures
        ({
            let path = store_path(entry);
            let next = if !is_build(entry) || !answer {
                best
            } else if best is None || !at_most(path, best->0) {
                Some(path)
            } else {
                best
            };
            is_newest(entries.push(entry), answers.push(answer), next)
        }),
{
    let path = store_path(entry);
    let n = entries.len() as int;
    let es = entries.push(entry);
    let xs = answers.push(answer);
    assert forall|i: int| i != n implies #[trigger] passed(es, xs, i) == passed(
        entries,
        answers,
        i,
    ) by {}
    if let Some(b) = best {
        let k = choose|i: int| #[trigger] passed(entries, answers, i) && store_path(entries[i]) == b;
        assert(passed(es, xs, k) && store_path(es[k]) == b);
        if is_build(entry) && answer && !at_most(path, b) {
            lemma_order_is_total(path, b);
            lemma_order_is_total(path, path);
            assert(passed(es, xs, n));
            assert forall|i: int| #[trigger] passed(es, xs, i) implies at_most(
                store_path(es[i]),
                path,
            ) by {
                if i != n {
                    assert(passed(entries, answers, i));
                    lemma_order_is_transitive(store_path(es[i]), b, path);
                }
            }
        }
    } else if is_build(entry) && answer {
        assert(passed(es, xs, n));
        lemma_order_is_total(path, path);
    }
}

/// A best-effort fallback: of the entries of the Guix store, the `nft` of the build of
/// nftables that comes last in order, among those that are real files.
pub fn nft_from_store<F: Fn(&str) -> bool>(entries: &Vec<String>, is_file: &F) -> (res: Option<
    String,
>)
    requires
        total(*is_file),
    ensures
        newest_build(*is_file, text::texts(entries@), found_view(res)),
{
    let ghost all = text::texts(entries@);
    let mut best: Option<String> = None;
    let ghost mut answers: Seq<bool> = Seq::empty();
    let mut i: usize = 0;
    while i < entries.len()
        invariant
            i <= entries.len(),
            total(*is_file),
            all == text::texts(entries@),
            tested(*is_file, all.take(i as int), answers),
            is_newest(all.take(i as int), answers, found_view(best)),
        decreases entries.len() - i,
    {
        let ghost entry = all[i as int];
        let ghost seen = all.take(i as int);
        let ghost old_answers = answers;
        let ghost old_best = found_view(best);
        assert(entry == entries@[i as int]@);
        assert(all.take(i + 1) == seen.push(entry));
        let mut passes = false;
        if text::contains(&text::chars_of(entries[i].as_str()), "-nftables-") {
            let mut path = "/gnu/store/".to_string();
            path.append(entries[i].as_str());
            path.append("/sbin/nft");
            passes = is_file(path.as_str());
            if passes {
                let later = match &best {
                    Some(b) => !no_later(
                        &text::chars_of(path.as_str()),
                        &text::chars_of(b.as_str()),
                    ),
                    None => true,
                };
                if later {
                    best = Some(path);
                }
            }
        }
        proof {
            answers = answers.push(passes);
            lemma_one_more(seen, old_answers, entry, passes, old_best);
            assert forall|k: int|
                0 <= k < seen.push(entry).len() && is_build(
                    seen.push(entry)[k],
                ) implies answered(
                *is_file,
                store_path(#[trigger] seen.push(entry)[k]),
                answers[k],
            ) by {
                if k < seen.len() {
                    assert(seen[k] == seen.push(entry)[k]);
                }
            }
        }
        i = i + 1;
    }
    assert(all.take(all.len() as int) == all);
    best
}

/// What `nft` is run as: the override; else where a usual directory has it; else the
/// newest build in the Guix store; else the bare name.
pub open spec fn resolved_nft<F: Fn(&str) -> bool, S: FnOnce() -> Vec<String>>(
    f: F,
    store: S,
    over: Option<&str>,
    res: Seq<char>,
) -> bool {
    match over {
        Some(path) => res == path@,
        None => {
            let paths = in_dirs(nft_dirs(), "nft"@);
            ||| is_first(f, paths, Some(res))
            ||| {
                &&& is_first(f, paths, None)
                &&& exists|entries: Vec<String>|
                    {
                        &&& #[trigger] store.ensures((), entries)
                        &&& newest_build(f, text::texts(entries@), Some(res)) || newest_build(
                            f,
                            text::texts(entries@),
                            None,
                        ) && res == "nft"@
                    }
            }
        },
    }
}

/// Where `nft` is, given the value of `VPNMUX_NFT`. The Guix store is listed only where no
/// stable path has it: a path that is picked by its name is second best.
pub fn nft<F: Fn(&str) -> bool, S: FnOnce() -> Vec<String>>(
    over: Option<&str>,
    is_file: &F,
    store: S,
) -> (res: String)
    requires
        total(*is_file),
        store.requires(()),
    ensures
        resolved_nft(*is_file, store, over, res@),
{
    if let Some(path) = over {
        return path.to_string();
    }
    let dirs = [
        "/run/current-system/profile/sbin",
        "/run/current-system/profile/bin",
        "/usr/sbin",
        "/sbin",
        "/usr/bin",
        "/bin",
    ];
    assert(strs(dirs@) == nft_dirs());
    if let Some(path) = find_bin_in("nft", &dirs, is_file) {
        return path;
    }
    let entries = store();
    assert(store.ensures((), entries));
    match nft_from_store(&entries, is_file) {
        Some(path) => path,
        None => "nft".to_string(),
    }
}

/// A path below a directory: an absolute path stands for itself.
pub open spec fn joined_path(dir: Seq<char>, name: Seq<char>) -> Seq<char> {
    if name.len() > 0 && name[0] == '/' {
        name
    } else if dir.len() > 0 && dir.last() == '/' {
        dir + name
    } else {
        dir + seq!['/'] + name
    }
}

/// The directories in the value of `$PATH`; empty ones do not count.
pub open spec fn path_dirs(path: Option<&str>) -> Seq<Seq<char>> {
    match path {
        Some(p) => text::split(p@, ':').filter(|dir: Seq<char>| dir.len() > 0),
        None => Seq::empty(),
    }
}

pub open spec fn below_dirs(dirs: Seq<Seq<char>>, name: Seq<char>) -> Seq<Seq<char>> {
    dirs.map_values(|dir: Seq<char>| joined_path(dir, name))
}

fn below(dir: &Vec<char>, name: &str) -> (res: String)
    requires
        dir@.len() > 0,
    ensures
        res@ == joined_path(dir@, name@),
{
    let chars = text::chars_of(name);
    if chars.len() > 0 && chars[0] == '/' {
        return name.to_string();
    }
    let mut out = text::string_of(dir);
    if dir[dir.len() - 1] != '/' {
        out.push('/');
    }
    out.append(name);
    assert(dir@.last() != '/' ==> out@ == dir@ + seq!['/'] + name@);
    out
}

fn listed_dirs(path: &str) -> (res: Vec<Vec<char>>)
    ensures
        text::views(res@) == path_dirs(Some(path)),
        forall|j: int| 0 <= j < res@.len() ==> (#[trigger] res@[j])@.len() > 0,
{
    let mut dirs: Vec<Vec<char>> = Vec::new();
    let pieces = text::pieces(&text::chars_of(path), ':');
    let ghost all = text::views(pieces@);
    let ghost keep = |dir: Seq<char>| dir.len() > 0;
    let mut i: usize = 0;
    proof {
        reveal(Seq::filter);
        assert(text::views(dirs@) == all.take(0).filter(keep));
    }
    while i < pieces.len()
        invariant
            i <= pieces.len(),
            all == text::views(pieces@),
            keep == (|dir: Seq<char>| dir.len() > 0),
            text::views(dirs@) == all.take(i as int).filter(keep),
            forall|j: int| 0 <= j < dirs@.len() ==> (#[trigger] dirs@[j])@.len() > 0,
        decreases pieces.len() - i,
    {
        proof {
            reveal(Seq::filter);
            assert(all.take(i + 1).drop_last() == all.take(i as int));
            assert(all.take(i + 1).last() == all[i as int]);
            assert(all[i as int] == pieces@[i as int]@);
        }
        let ghost before = dirs@;
        if pieces[i].len() > 0 {
            let dir = text::cut(&pieces[i], 0, pieces[i].len());
            assert(dir@ == all[i as int]);
            dirs.push(dir);
            assert(text::views(dirs@) == text::views(before).push(all[i as int]));
        }
        i = i + 1;
    }
    assert(all.take(all.len() as int) == all);
    dirs
}

/// Looks a program up: in the directories of `$PATH`, then in the usual ones.
pub fn find_binary<F: Fn(&str) -> bool>(name: &str, path: Option<&str>, passes: &F) -> (res: Option<
    String,
>)
    requires
        total(*passes),
    ensures
        is_first(
            *passes,
            below_dirs(path_dirs(path) + fallback_dirs(), name@),
            found_view(res),
        ),
{
    let mut dirs: Vec<Vec<char>> = Vec::new();
    assert(text::views(dirs@) == Seq::<Seq<char>>::empty());
    if let Some(p) = path {
        dirs = listed_dirs(p);
    }
    proof {
        reveal_strlit("/usr/bin");
        reveal_strlit("/sbin");
        reveal_strlit("/usr/sbin");
    }
    dirs.push(text::chars_of("/usr/bin"));
    dirs.push(text::chars_of("/sbin"));
    dirs.push(text::chars_of("/usr/sbin"));
    assert(text::views(dirs@) == path_dirs(path) + fallback_dirs());
    let ghost paths = below_dirs(path_dirs(path) + fallback_dirs(), name@);
    let mut i: usize = 0;
    while i < dirs.len()
        invariant
            i <= dirs.len(),
            total(*passes),
            text::views(dirs@) == path_dirs(path) + fallback_dirs(),
            paths == below_dirs(path_dirs(path) + fallback_dirs(), name@),
            forall|j: int| 0 <= j < i ==> answered(*passes, #[trigger] paths[j], false),
            forall|j: int| 0 <= j < dirs@.len() ==> (#[trigger] dirs@[j])@.len() > 0,
        decreases dirs.len() - i,
    {
        let candidate = below(&dirs[i], name);
        assert(text::views(dirs@)[i as int] == dirs@[i as int]@);
        assert(paths[i as int] == candidate@);
        if passes(candidate.as_str()) {
            return Some(candidate);
        }
        i = i + 1;
    }
    assert(text::views(dirs@).len() == dirs@.len());
    None
}

/// The group that a setting names.
pub open spec fn group_of(value: Option<Seq<char>>) -> Option<Seq<char>> {
    match value {
        Some(v) => if v.len() == 0 {
            None
        } else {
            Some(v)
        },
        None => Some("vpnmux"@),
    }
}

/// The group whose members may use vpnmux, given the value of `VPNMUX_GROUP`: "vpnmux"
/// unless it says otherwise, and none where it is empty.
pub fn group_name(value: Option<&str>) -> (res: Option<String>)
    ensures
        found_view(res) == group_of(dns::view_of(value)),
        found_view(res) == match value {
            Some(v) => if v@.len() == 0 {
                None
            } else {
                Some(v@)
            },
            None => Some("vpnmux"@),
        },
{
    match value {
        Some(v) => if v.is_empty() {
            None
        } else {
            Some(v.to_string())
        },
        None => Some("vpnmux".to_string()),
    }
}

/// Where the files of vpnmux are: the desired state in the state directory, the status in
/// the runtime directory.
pub proof fn lemma_places()
    ensures
        STATE_DIR@ == "/var/lib/vpnmux"@,
        RUNTIME_DIR@ == "/run/vpnmux"@,
        DESIRED_FILE@ == STATE_DIR@ + "/desired"@,
        STATUS_FILE@ == RUNTIME_DIR@ + "/status"@,
        RESOLV_CONF@ == "/etc/resolv.conf"@,
{
    reveal_strlit("/var/lib/vpnmux");
    reveal_strlit("/run/vpnmux");
    reveal_strlit("/desired");
    reveal_strlit("/status");
    reveal_strlit("/var/lib/vpnmux/desired");
    reveal_strlit("/run/vpnmux/status");
    assert(DESIRED_FILE@ == STATE_DIR@ + "/desired"@);
    assert(STATUS_FILE@ == RUNTIME_DIR@ + "/status"@);
}

/// Where a program is looked for, word for word and in order.
#[verifier::rlimit(40)]
pub proof fn lemma_candidates_word_for_word(name: Seq<char>)
    ensures
        in_dirs(bin_dirs(), name) == seq![
            "/run/current-system/profile/bin/"@ + name,
            "/usr/sbin/"@ + name,
            "/usr/bin/"@ + name,
            "/sbin/"@ + name,
            "/bin/"@ + name,
        ],
        in_dirs(nft_dirs(), name) == seq![
            "/run/current-system/profile/sbin/"@ + name,
            "/run/current-system/profile/bin/"@ + name,
            "/usr/sbin/"@ + name,
            "/sbin/"@ + name,
            "/usr/bin/"@ + name,
            "/bin/"@ + name,
        ],
        fallback_dirs() == seq!["/usr/bin"@, "/sbin"@, "/usr/sbin"@],
{
    reveal_strlit("/run/current-system/profile/bin");
    reveal_strlit("/run/current-system/profile/sbin");
    reveal_strlit("/usr/sbin");
    reveal_strlit("/usr/bin");
    reveal_strlit("/sbin");
    reveal_strlit("/bin");
    reveal_strlit("/run/current-system/profile/bin/");
    reveal_strlit("/run/current-system/profile/sbin/");
    reveal_strlit("/usr/sbin/");
    reveal_strlit("/usr/bin/");
    reveal_strlit("/sbin/");
    reveal_strlit("/bin/");
    assert("/run/current-system/profile/bin"@ + seq!['/'] == "/run/current-system/profile/bin/"@);
    assert("/run/current-system/profile/sbin"@ + seq!['/'] == "/run/current-system/profile/sbin/"@);
    assert("/usr/sbin"@ + seq!['/'] == "/usr/sbin/"@);
    assert("/usr/bin"@ + seq!['/'] == "/usr/bin/"@);
    assert("/sbin"@ + seq!['/'] == "/sbin/"@);
    assert("/bin"@ + seq!['/'] == "/bin/"@);
}

/// Whether the test `f` answers as `g` says.
pub open spec fn answers_as<F: Fn(&str) -> bool>(f: F, g: spec_fn(Seq<char>) -> bool) -> bool {
    forall|p: &str, b: bool| #[trigger] f.ensures((p,), b) ==> b == g(p@)
}

/// Whether `i` is the first index of a path that passes `g`.
pub open spec fn first_at(g: spec_fn(Seq<char>) -> bool, paths: Seq<Seq<char>>, i: int) -> bool {
    &&& 0 <= i < paths.len()
    &&& g(paths[i])
    &&& forall|j: int| 0 <= j < i ==> !g(#[trigger] paths[j])
}

/// A search takes the first path that passes, and finds nothing only where none does.
pub proof fn lemma_search_takes_the_first<F: Fn(&str) -> bool>(
    f: F,
    g: spec_fn(Seq<char>) -> bool,
    paths: Seq<Seq<char>>,
    found: Option<Seq<char>>,
)
    requires
        answers_as(f, g),
        is_first(f, paths, found),
    ensures
        match found {
            Some(p) => exists|i: int| #[trigger] first_at(g, paths, i) && paths[i] == p,
            None => forall|j: int| 0 <= j < paths.len() ==> !g(#[trigger] paths[j]),
        },
{
    if let Some(p) = found {
        let i = choose|i: int|
            {
                &&& 0 <= i < paths.len()
                &&& #[trigger] paths[i] == p
                &&& answered(f, p, true)
                &&& forall|j: int| 0 <= j < i ==> answered(f, #[trigger] paths[j], false)
            };
        assert(first_at(g, paths, i));
    }
}

/// Where a program is: the override where there is one; else the first of the usual paths
/// that passes; else the bare name.
pub proof fn lemma_program_is_found<F: Fn(&str) -> bool>(
    f: F,
    g: spec_fn(Seq<char>) -> bool,
    over: Option<&str>,
    name: Seq<char>,
    res: Seq<char>,
)
    requires
        answers_as(f, g),
        resolved(f, over, name, res),
    ensures
        over matches Some(path) ==> res == path@,
        over is None ==> {
            let paths = seq![
                "/run/current-system/profile/bin/"@ + name,
                "/usr/sbin/"@ + name,
                "/usr/bin/"@ + name,
                "/sbin/"@ + name,
                "/bin/"@ + name,
            ];
            ||| exists|i: int| #[trigger] first_at(g, paths, i) && paths[i] == res
            ||| res == name && forall|j: int| 0 <= j < paths.len() ==> !g(#[trigger] paths[j])
        },
{
    lemma_candidates_word_for_word(name);
    if over is None {
        let paths = in_dirs(bin_dirs(), name);
        if is_first(f, paths, Some(res)) {
            lemma_search_takes_the_first(f, g, paths, Some(res));
        } else {
            lemma_search_takes_the_first(f, g, paths, None);
        }
    }
}

/// Whether an entry of the Guix store has an `nft` that passes, and where.
pub open spec fn is_store_nft(
    g: spec_fn(Seq<char>) -> bool,
    entries: Seq<Seq<char>>,
    i: int,
    path: Seq<char>,
) -> bool {
    &&& 0 <= i < entries.len()
    &&& text::occurs(entries[i], "-nftables-"@)
    &&& path == "/gnu/store/"@ + entries[i] + "/sbin/nft"@
    &&& g(path)
}

/// Of the store, the build of nftables that comes last in order among those that pass is
/// taken; nothing is found only where none passes.
pub proof fn lemma_store_gives_the_last<F: Fn(&str) -> bool>(
    f: F,
    g: spec_fn(Seq<char>) -> bool,
    entries: Seq<Seq<char>>,
    found: Option<Seq<char>>,
)
    requires
        answers_as(f, g),
        newest_build(f, entries, found),
    ensures
        match found {
            Some(p) => {
                &&& exists|i: int| #[trigger] is_store_nft(g, entries, i, p)
                &&& forall|i: int, path: Seq<char>| #[trigger]
                    is_store_nft(g, entries, i, path) ==> at_most(path, p)
            },
            None => forall|i: int, path: Seq<char>| !#[trigger] is_store_nft(g, entries, i, path),
        },
{
    let answers = choose|answers: Seq<bool>| #[trigger]
        tested(f, entries, answers) && is_newest(entries, answers, found);
    assert forall|i: int, path: Seq<char>| #[trigger]
        is_store_nft(g, entries, i, path) implies passed(entries, answers, i) && path == store_path(
        entries[i],
    ) by {
        assert(answered(f, store_path(entries[i]), answers[i]));
    }
    if let Some(p) = found {
        let k = choose|i: int| #[trigger] passed(entries, answers, i) && store_path(entries[i]) == p;
        assert(answered(f, store_path(entries[k]), answers[k]));
        assert(is_store_nft(g, entries, k, p));
    }
}

/// Where `nft` is: the override where there is one; else the first of its usual paths that
/// passes; else, and only else, the last build in the store that passes; else the bare name.
#[verifier::rlimit(40)]
pub proof fn lemma_nft_is_found<F: Fn(&str) -> bool, S: FnOnce() -> Vec<String>>(
    f: F,
    g: spec_fn(Seq<char>) -> bool,
    store: S,
    listed: Seq<Seq<char>>,
    over: Option<&str>,
    res: Seq<char>,
)
    requires
        answers_as(f, g),
        forall|entries: Vec<String>| #[trigger]
            store.ensures((), entries) ==> text::texts(entries@) == listed,
        resolved_nft(f, store, over, res),
    ensures
        over matches Some(path) ==> res == path@,
        over is None ==> {
            let paths = seq![
                "/run/current-system/profile/sbin/nft"@,
                "/run/current-system/profile/bin/nft"@,
                "/usr/sbin/nft"@,
                "/sbin/nft"@,
                "/usr/bin/nft"@,
                "/bin/nft"@,
            ];
            ||| exists|i: int| #[trigger] first_at(g, paths, i) && paths[i] == res
            ||| {
                &&& forall|j: int| 0 <= j < paths.len() ==> !g(#[trigger] paths[j])
                &&& {
                    ||| {
                        &&& exists|i: int| #[trigger] is_store_nft(g, listed, i, res)
                        &&& forall|i: int, path: Seq<char>| #[trigger]
                            is_store_nft(g, listed, i, path) ==> at_most(path, res)
                    }
                    ||| {
                        &&& res == "nft"@
                        &&& forall|i: int, path: Seq<char>|
                            !#[trigger] is_store_nft(g, listed, i, path)
                    }
                }
            }
        },
{
    lemma_candidates_word_for_word("nft"@);
    reveal_strlit("nft");
    reveal_strlit("/run/current-system/profile/bin/");
    reveal_strlit("/run/current-system/profile/sbin/");
    reveal_strlit("/usr/sbin/");
    reveal_strlit("/usr/bin/");
    reveal_strlit("/sbin/");
    reveal_strlit("/bin/");
    reveal_strlit("/run/current-system/profile/bin/nft");
    reveal_strlit("/run/current-system/profile/sbin/nft");
    reveal_strlit("/usr/sbin/nft");
    reveal_strlit("/usr/bin/nft");
    reveal_strlit("/sbin/nft");
    reveal_strlit("/bin/nft");
    assert("/run/current-system/profile/bin/"@ + "nft"@ == "/run/current-system/profile/bin/nft"@);
    assert("/run/current-system/profile/sbin/"@ + "nft"@
        == "/run/current-system/profile/sbin/nft"@);
    assert("/usr/sbin/"@ + "nft"@ == "/usr/sbin/nft"@);
    assert("/usr/bin/"@ + "nft"@ == "/usr/bin/nft"@);
    assert("/sbin/"@ + "nft"@ == "/sbin/nft"@);
    assert("/bin/"@ + "nft"@ == "/bin/nft"@);
    if over is None {
        let paths = in_dirs(nft_dirs(), "nft"@);
        if is_first(f, paths, Some(res)) {
            lemma_search_takes_the_first(f, g, paths, Some(res));
        } else {
            lemma_search_takes_the_first(f, g, paths, None);
            let entries = choose|entries: Vec<String>|
                {
                    &&& #[trigger] store.ensures((), entries)
                    &&& newest_build(f, text::texts(entries@), Some(res)) || newest_build(
                        f,
                        text::texts(entries@),
                        None,
                    ) && res == "nft"@
                };
            if newest_build(f, listed, Some(res)) {
                lemma_store_gives_the_last(f, g, listed, Some(res));
            } else {
                lemma_store_gives_the_last(f, g, listed, None);
            }
        }
    }
}

/// The order of texts is that of a dictionary: the first character that differs decides,
/// and a text comes before what it begins.
pub proof fn lemma_order_of_a_dictionary(
    common: Seq<char>,
    x: char,
    rest: Seq<char>,
    y: char,
    other: Seq<char>,
)
    ensures
        at_most(common, common + rest),
        rest.len() > 0 ==> !at_most(common + rest, common),
        x < y ==> at_most(common + (seq![x] + rest), common + (seq![y] + other)),
        x < y ==> !at_most(common + (seq![y] + other), common + (seq![x] + rest)),
    decreases common.len(),
{
    let a = seq![x] + rest;
    let b = seq![y] + other;
    if common.len() == 0 {
        assert(common + rest == rest);
        assert(common + a == a);
        assert(common + b == b);
        assert(a[0] == x && b[0] == y);
    } else {
        let tail = common.drop_first();
        lemma_order_of_a_dictionary(tail, x, rest, y, other);
        assert((common + rest).drop_first() == tail + rest);
        assert((common + a).drop_first() == tail + a);
        assert((common + b).drop_first() == tail + b);
    }
}

/// A name below a directory, with one slash between them; an absolute name stands for
/// itself.
pub proof fn lemma_path_below(dir: Seq<char>, name: Seq<char>)
    ensures
        joined_path(dir, "/"@ + name) == "/"@ + name,
        name.len() == 0 || name[0] != '/' ==> joined_path(dir + "/"@, name) == dir + "/"@ + name,
        (name.len() == 0 || name[0] != '/') && (dir.len() == 0 || dir.last() != '/') ==> joined_path(
            dir,
            name,
        ) == dir + "/"@ + name,
{
    reveal_strlit("/");
    assert("/"@ == seq!['/']);
    assert(("/"@ + name)[0] == '/');
    assert((dir + "/"@).last() == '/');
}

/// The directories of `$PATH` stand between colons, in order; empty ones are left out.
pub proof fn lemma_path_dir_by_dir(path: &str, dir: Seq<char>, rest: &str)
    requires
        text::lacks(dir, ':'),
    ensures
        path_dirs(None) == Seq::<Seq<char>>::empty(),
        path@ == dir ==> path_dirs(Some(path)) == (if dir.len() == 0 {
            Seq::empty()
        } else {
            seq![dir]
        }),
        path@ == dir + seq![':'] + rest@ ==> path_dirs(Some(path)) == (if dir.len() == 0 {
            Seq::empty()
        } else {
            seq![dir]
        }) + path_dirs(Some(rest)),
{
    let f = |dir: Seq<char>| dir.len() > 0;
    text::lemma_split_single(dir, ':');
    text::lemma_split_concat(dir, ':', rest@);
    Seq::filter_distributes_over_add(seq![dir], text::split(rest@, ':'), f);
    reveal(Seq::filter);
    let none = Seq::<Seq<char>>::empty();
    assert(seq![dir].drop_last() == none);
    assert(none.filter(f) == none);
    if dir.len() > 0 {
        assert(seq![dir].filter(f) == none.push(dir));
        assert(none.push(dir) == seq![dir]);
    } else {
        assert(seq![dir].filter(f) == none);
    }
}

/// Where a program is looked for by its name: below each directory in turn.
pub proof fn lemma_below_dirs(dirs: Seq<Seq<char>>, name: Seq<char>)
    ensures
        below_dirs(dirs, name).len() == dirs.len(),
        forall|i: int|
            0 <= i < dirs.len() ==> #[trigger] below_dirs(dirs, name)[i] == joined_path(
                dirs[i],
                name,
            ),
{
}

/// There is no group exactly where the setting is empty; without one it is "vpnmux", and
/// else it is what the setting says.
pub proof fn lemma_group(name: Seq<char>)
    ensures
        group_of(None) == Some("vpnmux"@),
        group_of(Some(Seq::empty())) is None,
        name.len() > 0 ==> group_of(Some(name)) == Some(name),
{
}

} // verus!
