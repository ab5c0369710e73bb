use vpnmux::coexistence::{apply, settle_resolver, Bins, ResolverStep};
use vpnmux::dns::DnsBackend;
use vpnmux::resolver::ResolvConf;
use vpnmux::runner::{CmdOutput, MockRunner, Runner};
use vpnmux::types::{parse_set, Error, ProviderSet};

fn bins() -> Bins {
    Bins {
        nft: "nft".into(),
        tailscale: "tailscale".into(),
        resolv_conf: String::new(),
    }
}

#[test]
fn both_active_whitelists_and_disables_magicdns() {
    let mut r = MockRunner::new().on("nft list table inet mullvad", 0, "chain input {\n}");
    let active = parse_set("mullvad,tailscale").unwrap();
    apply(&active, &active, &bins(), DnsBackend::Static, &mut r).unwrap();
    assert!(r.called("nft insert rule inet mullvad input iifname tailscale* accept"));
    assert!(r.called("tailscale set --accept-dns=false"));
}

#[test]
fn tailscale_only_disables_magicdns_on_transition() {
    let mut r = MockRunner::new();
    let active = parse_set("tailscale").unwrap();
    apply(&active, &active, &bins(), DnsBackend::Static, &mut r).unwrap();
    assert!(r.called("tailscale set --accept-dns=false"));
    assert!(!r.called("tailscale set --accept-dns=true"));
    assert!(!r.called("nft list table inet mullvad"));
}

#[test]
fn steady_state_does_not_respawn_accept_dns() {
    let mut r = MockRunner::new();
    let active = parse_set("tailscale").unwrap();
    apply(
        &active,
        &ProviderSet::new(),
        &bins(),
        DnsBackend::Static,
        &mut r,
    )
    .unwrap();
    assert!(!r.called("tailscale set --accept-dns=false"));
}

#[test]
fn mullvad_only_does_nothing() {
    let mut r = MockRunner::new();
    let active = parse_set("mullvad").unwrap();
    apply(&active, &active, &bins(), DnsBackend::Static, &mut r).unwrap();
    assert!(r.calls().is_empty());
}

fn repairing() -> Bins {
    Bins {
        nft: "nft".into(),
        tailscale: "tailscale".into(),
        resolv_conf: "/etc/resolv.conf".into(),
    }
}

#[test]
fn the_step_follows_mullvad() {
    let none = ProviderSet::new();
    let mullvad = parse_set("mullvad").unwrap();
    let mut r = MockRunner::new();
    let b = repairing();
    let step = |active: &ProviderSet, newly: &ProviderSet, backend, r: &mut MockRunner| {
        apply(active, newly, &b, backend, r).unwrap()
    };
    assert_eq!(step(&none, &none, DnsBackend::Static, &mut r), ResolverStep::Fill);
    assert_eq!(step(&none, &none, DnsBackend::Resolvconf, &mut r), ResolverStep::Fill);
    assert_eq!(
        step(&mullvad, &mullvad, DnsBackend::Static, &mut r),
        ResolverStep::Remove
    );
    assert_eq!(step(&mullvad, &none, DnsBackend::Static, &mut r), ResolverStep::Leave);
    assert_eq!(
        step(&none, &none, DnsBackend::NetworkManager, &mut r),
        ResolverStep::Leave
    );
    assert_eq!(
        apply(&none, &none, &bins(), DnsBackend::Static, &mut r).unwrap(),
        ResolverStep::Leave
    );
    assert!(r.calls().is_empty());
}

#[test]
fn a_step_is_carried_out() {
    let mut r = MockRunner::new();
    let mut conf = ResolvConf {
        path: "/etc/resolv.conf".into(),
        text: Some("search foo\n".into()),
        symlink: false,
        shim: false,
    };
    let filled = settle_resolver(
        ResolverStep::Fill,
        &conf,
        DnsBackend::Static,
        Some("10.0.0.1"),
        &mut r,
    )
    .unwrap()
    .unwrap();
    assert_eq!(filled.contents, "nameserver 10.0.0.1 # vpnmux\nsearch foo\n");
    assert_eq!(filled.path, "/etc/resolv.conf");
    assert_eq!(filled.mode, 0o644);
    conf.text = Some(filled.contents);
    let removed = settle_resolver(ResolverStep::Remove, &conf, DnsBackend::Static, None, &mut r)
        .unwrap()
        .unwrap();
    assert_eq!(removed.contents, "search foo\n");
    assert_eq!(
        settle_resolver(ResolverStep::Leave, &conf, DnsBackend::Static, None, &mut r).unwrap(),
        None
    );
}

struct Broken;

impl Runner for Broken {
    fn run(&mut self, bin: &str, _args: &[&str]) -> Result<CmdOutput, Error> {
        Err(Error::Command(format!("{bin}: gone")))
    }

    fn run_stdin(&mut self, bin: &str, args: &[&str], _stdin: &str) -> Result<CmdOutput, Error> {
        self.run(bin, args)
    }
}

#[test]
fn a_command_that_cannot_be_run_is_an_error() {
    let both = parse_set("mullvad,tailscale").unwrap();
    let none = ProviderSet::new();
    assert_eq!(
        apply(&both, &both, &bins(), DnsBackend::Static, &mut Broken),
        Err(Error::Command("tailscale: gone".into()))
    );
    assert_eq!(
        apply(&both, &none, &bins(), DnsBackend::Static, &mut Broken),
        Err(Error::Command("nft: gone".into()))
    );
}

#[test]
fn rules_are_looked_after_in_every_pass() {
    let mut r = MockRunner::new();
    let both = parse_set("mullvad,tailscale").unwrap();
    let step = apply(&both, &ProviderSet::new(), &repairing(), DnsBackend::Static, &mut r).unwrap();
    assert_eq!(step, ResolverStep::Leave);
    assert_eq!(
        r.calls(),
        &vec![
            "nft list table inet mullvad".to_string(),
            "nft insert rule inet mullvad input iifname tailscale* accept".to_string(),
            "nft insert rule inet mullvad output oifname tailscale* accept".to_string(),
        ]
    );
}
