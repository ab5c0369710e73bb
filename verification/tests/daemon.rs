use vpnmux::cli::{progress, Progress};
use vpnmux::coexistence::{Bins, ResolverStep};
use vpnmux::daemon::{access_line, dir_mode, needs_chmod, tick, Prev};
use vpnmux::dns::DnsBackend;
use vpnmux::log::{enabled, level_of, stamped, DEBUG, ERROR, INFO};
use vpnmux::paths::{find_bin, find_binary, group_name, mullvad, nft, resolve, tailscale};
use vpnmux::runner::MockRunner;
use vpnmux::state::{Desired, Status};
use vpnmux::sys::lookup_gid;
use vpnmux::types::{parse_set, providers, ProviderId, ProviderSet};

#[test]
fn level_gating() {
    assert!(enabled(ERROR, INFO));
    assert!(enabled(INFO, INFO));
    assert!(!enabled(DEBUG, INFO));
}

#[test]
fn levels_are_asked_for_by_name() {
    assert_eq!(level_of(Some("error")), ERROR);
    assert_eq!(level_of(Some("debug")), DEBUG);
    assert_eq!(level_of(Some("info")), INFO);
    assert_eq!(level_of(Some("DEBUG")), INFO);
    assert_eq!(level_of(None), INFO);
    assert_eq!(stamped(17, ERROR, "x"), "[17] ERROR vpnmux: x");
    assert_eq!(stamped(0, INFO, ""), "[0] INFO vpnmux: ");
    assert_eq!(stamped(1, DEBUG, "y"), "[1] DEBUG vpnmux: y");
}

#[test]
fn env_override_wins() {
    assert_eq!(
        resolve(Some("/custom/path/to/bin"), "bin", &|_: &str| true),
        "/custom/path/to/bin"
    );
}

#[test]
fn unknown_bin_falls_back_to_bare_name() {
    assert_eq!(
        resolve(None, "vpnmux-no-such-bin-xyz", &|_: &str| false),
        "vpnmux-no-such-bin-xyz"
    );
}

#[test]
fn the_first_directory_wins() {
    let in_usr = |p: &str| p.starts_with("/usr/");
    assert_eq!(find_bin("x", &in_usr), "/usr/sbin/x");
    assert_eq!(mullvad(None, &in_usr), "/usr/sbin/mullvad");
    assert_eq!(
        tailscale(None, &|_: &str| true),
        "/run/current-system/profile/bin/tailscale"
    );
    assert_eq!(mullvad(Some(""), &in_usr), "");
}

fn store() -> Vec<String> {
    vec![
        "aaa-nftables-1.0".to_string(),
        "zzz-iptables-1.8".to_string(),
        "bbb-nftables-1.1".to_string(),
        "bbb-nftables-1.1-doc".to_string(),
        "ccc-nftables-0.9".to_string(),
    ]
}

#[test]
fn nft_is_looked_for_in_order() {
    assert_eq!(nft(Some("/x/nft"), &|_: &str| true, store), "/x/nft");
    assert_eq!(
        nft(None, &|p: &str| p == "/sbin/nft" || p == "/bin/nft", store),
        "/sbin/nft"
    );
    assert_eq!(
        nft(None, &|p: &str| p.starts_with("/gnu/store/"), store),
        "/gnu/store/ccc-nftables-0.9/sbin/nft"
    );
    assert_eq!(
        nft(None, &|p: &str| p.starts_with("/gnu/store/b"), store),
        "/gnu/store/bbb-nftables-1.1/sbin/nft"
    );
    assert_eq!(nft(None, &|_: &str| false, store), "nft");
    assert_eq!(nft(None, &|p: &str| p.contains("iptables"), store), "nft");
}

#[test]
fn path_is_searched_first() {
    let found = |p: &str| p == "/opt/bin/r" || p == "/usr/bin/r" || p == "/o/r";
    assert_eq!(
        find_binary("r", Some("::/opt/bin:/usr/bin"), &found).as_deref(),
        Some("/opt/bin/r")
    );
    assert_eq!(find_binary("r", Some("/o/"), &found).as_deref(), Some("/o/r"));
    assert_eq!(find_binary("r", None, &found).as_deref(), Some("/usr/bin/r"));
    assert_eq!(find_binary("r", Some("/opt/bin"), &|_: &str| false), None);
    assert_eq!(
        find_binary("r", Some(""), &|p: &str| p == "/usr/sbin/r").as_deref(),
        Some("/usr/sbin/r")
    );
}

#[test]
fn the_group_has_a_default_and_an_opt_out() {
    assert_eq!(group_name(None).as_deref(), Some("vpnmux"));
    assert_eq!(group_name(Some("ops")).as_deref(), Some("ops"));
    assert_eq!(group_name(Some("")), None);
}

#[test]
fn group_ids_are_looked_up() {
    let db = "root:x:0:\nvpnmux:x:973:anna,bob\nshort:x\nbad:x:-1:\nvpnmux:x:1:\nbig:x:4294967296:\n";
    assert_eq!(lookup_gid(db, "vpnmux"), Some(973));
    assert_eq!(lookup_gid(db, "root"), Some(0));
    assert_eq!(lookup_gid(db, "short"), None);
    assert_eq!(lookup_gid(db, "bad"), None);
    assert_eq!(lookup_gid(db, "big"), None);
    assert_eq!(lookup_gid(db, "vpn"), None);
    assert_eq!(lookup_gid("", "root"), None);
}

#[test]
fn directories_follow_the_group() {
    assert_eq!(dir_mode(Some(973)), 0o2770);
    assert_eq!(dir_mode(None), 0o700);
    assert!(!needs_chmod(Some(0o42770), 0o2770));
    assert!(needs_chmod(Some(0o40770), 0o2770));
    assert!(needs_chmod(None, 0o700));
    assert_eq!(
        access_line(Some("vpnmux"), Some(1)).text,
        "state dirs group-writable by 'vpnmux' (mode 02770)"
    );
    assert_eq!(
        access_line(Some("vpnmux"), None).text,
        "group 'vpnmux' not present; CLI will require sudo (create the group to enable)"
    );
    assert_eq!(
        access_line(None, None).text,
        "VPNMUX_GROUP unset — state dirs root-only; CLI requires sudo"
    );
}

fn bins() -> Bins {
    Bins {
        nft: "nft".into(),
        tailscale: "tailscale".into(),
        resolv_conf: "/etc/resolv.conf".into(),
    }
}

fn desired(generation: u64, set: &str) -> Desired {
    Desired {
        generation,
        providers: parse_set(set).unwrap(),
    }
}

fn run_tick(prev: Option<Prev>, d: Desired, r: &mut MockRunner) -> vpnmux::daemon::Tick {
    let registry = providers("mullvad", "tailscale", "nft");
    tick(prev, Ok(Some(d)), &registry, &bins(), DnsBackend::Static, r)
}

fn texts(t: &vpnmux::daemon::Tick) -> Vec<String> {
    t.lines.iter().map(|l| l.text.clone()).collect()
}

#[test]
fn without_a_desired_state_nothing_is_touched() {
    let registry = providers("mullvad", "tailscale", "nft");
    let mut r = MockRunner::new();
    let t = tick(None, Ok(None), &registry, &bins(), DnsBackend::Static, &mut r);
    assert!(t.prev.is_none());
    assert!(t.status.is_none());
    assert_eq!(t.resolver, ResolverStep::Leave);
    assert!(t.lines.is_empty());
    let prev = Prev {
        generation: 1,
        active: ProviderSet::new(),
        unavailable: Vec::new(),
    };
    let t = tick(Some(prev), Ok(None), &registry, &bins(), DnsBackend::Static, &mut r);
    assert!(t.prev.is_none());
    assert_eq!(
        texts(&t),
        vec!["desired file absent — going idle (managing nothing)".to_string()]
    );
    assert!(r.calls().is_empty());
}

#[test]
fn an_unreadable_state_is_waited_out() {
    let registry = providers("mullvad", "tailscale", "nft");
    let mut r = MockRunner::new();
    let prev = Prev {
        generation: 8,
        active: parse_set("mullvad").unwrap(),
        unavailable: vec![ProviderId::Tailscale],
    };
    let t = tick(
        Some(prev),
        Err("oops".into()),
        &registry,
        &bins(),
        DnsBackend::Static,
        &mut r,
    );
    assert_eq!(texts(&t), vec!["read desired failed: oops".to_string()]);
    assert_eq!(t.lines[0].level, ERROR);
    let kept = t.prev.unwrap();
    assert_eq!(kept.generation, 8);
    assert_eq!(kept.active, parse_set("mullvad").unwrap());
    assert_eq!(kept.unavailable, vec![ProviderId::Tailscale]);
    assert!(r.calls().is_empty());
}

#[test]
fn changes_are_logged_once() {
    let mut r = MockRunner::new().on("mullvad status", 0, "Connected\n").on(
        "tailscale status --json",
        0,
        r#"{"BackendState":"NeedsLogin"}"#,
    );
    let first = run_tick(None, desired(3, "mullvad,tailscale"), &mut r);
    assert_eq!(
        texts(&first),
        vec![
            "desired set gen 3: providers [mullvad,tailscale]".to_string(),
            "active: [] -> [mullvad]".to_string(),
            "provider tailscale unavailable: not logged in (run: tailscale login)".to_string(),
        ]
    );
    assert_eq!(first.resolver, ResolverStep::Remove);
    let second = run_tick(first.prev, desired(3, "mullvad,tailscale"), &mut r);
    assert!(second.lines.is_empty());
    assert_eq!(second.resolver, ResolverStep::Leave);
    let mut r = MockRunner::new().on("mullvad status", 0, "Connected\n").on(
        "tailscale status --json",
        0,
        r#"{"BackendState":"Running"}"#,
    );
    let third = run_tick(second.prev, desired(3, "mullvad,tailscale"), &mut r);
    assert_eq!(
        texts(&third),
        vec![
            "active: [mullvad] -> [mullvad,tailscale] (external)".to_string(),
            "provider tailscale available again".to_string(),
        ]
    );
    assert!(third.failures.is_empty());
}

#[test]
fn the_report_answers_whoever_waits() {
    let mut r = MockRunner::new().on("mullvad status", 0, "Connected\n").on(
        "tailscale status --json",
        0,
        "",
    );
    let d = desired(9, "mullvad,tailscale");
    let t = run_tick(None, d, &mut r);
    let status = t.status.unwrap();
    assert_eq!(
        status,
        Status {
            generation: 9,
            active: parse_set("mullvad").unwrap(),
            available: parse_set("mullvad").unwrap(),
            unavailable: vec![(ProviderId::Tailscale, "tailscaled not running".into())],
            dns: DnsBackend::Static,
        }
    );
    assert_eq!(Status::parse(&status.serialize()).unwrap(), status);
    assert!(matches!(
        progress(9, &d.providers, Some(&status), true),
        Progress::Partial(_, _)
    ));
    assert!(matches!(
        progress(9, &parse_set("mullvad").unwrap(), Some(&status), true),
        Progress::Done(_)
    ));
}
