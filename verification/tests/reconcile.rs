use vpnmux::coexistence::{repairable, Bins, ResolverStep};
use vpnmux::daemon::failure_line;
use vpnmux::dns::DnsBackend;
use vpnmux::log::ERROR;
use vpnmux::provider::AnyProvider;
use vpnmux::reconcile::{reconcile, Action};
use vpnmux::runner::{CmdOutput, MockRunner, Runner};
use vpnmux::types::{parse_set, providers, Error, ProviderId, ProviderSet};

fn bins() -> Bins {
    Bins {
        nft: "nft".into(),
        tailscale: "tailscale".into(),
        resolv_conf: String::new(),
    }
}

fn registry() -> Vec<AnyProvider> {
    providers("mullvad", "tailscale", "nft")
}

const TS_RUNNING: &str = r#"{"BackendState":"Running"}"#;
const TS_STOPPED: &str = r#"{"BackendState":"Stopped"}"#;
const TS_NEEDS_LOGIN: &str = r#"{"BackendState":"NeedsLogin"}"#;

#[test]
fn both_desired_and_available_become_active_and_whitelisted() {
    let mut r = MockRunner::new()
        .on("mullvad status", 0, "Connected\n")
        .on("tailscale status --json", 0, TS_RUNNING)
        .on("nft list table inet mullvad", 0, "chain input {\n}");
    let out = reconcile(
        &parse_set("mullvad,tailscale").unwrap(),
        &registry(),
        &ProviderSet::new(),
        &bins(),
        DnsBackend::Static,
        &mut r,
    );
    assert_eq!(out.active, parse_set("mullvad,tailscale").unwrap());
    assert!(!r.called("mullvad connect"));
    assert!(!r.called("tailscale up"));
    assert!(r.called("nft insert rule inet mullvad input iifname tailscale* accept"));
}

#[test]
fn activates_only_when_inactive() {
    let mut r = MockRunner::new()
        .on("mullvad status", 0, "Disconnected\n")
        .on("tailscale status --json", 0, TS_STOPPED);
    let out = reconcile(
        &parse_set("mullvad,tailscale").unwrap(),
        &registry(),
        &ProviderSet::new(),
        &bins(),
        DnsBackend::Static,
        &mut r,
    );
    assert!(r.called("mullvad connect"));
    assert!(r.called("tailscale up"));
    assert!(out.active.is_empty());
}

#[test]
fn unavailable_tailscale_is_reported_and_does_not_block_mullvad() {
    let mut r = MockRunner::new().on("mullvad status", 0, "Connected\n").on(
        "tailscale status --json",
        0,
        TS_NEEDS_LOGIN,
    );
    let out = reconcile(
        &parse_set("mullvad,tailscale").unwrap(),
        &registry(),
        &ProviderSet::new(),
        &bins(),
        DnsBackend::Static,
        &mut r,
    );
    assert_eq!(out.active, parse_set("mullvad").unwrap());
    assert_eq!(out.unavailable.len(), 1);
    assert!(!r.called("tailscale up"));
    assert!(!r.called("nft insert rule inet mullvad input iifname tailscale* accept"));
}

#[test]
fn empty_desired_tears_down_active_providers() {
    let mut r = MockRunner::new()
        .on("mullvad status", 0, "Connected\n")
        .on("mullvad lockdown-mode get", 0, "off\n")
        .on("tailscale status --json", 0, TS_RUNNING);
    let _ = reconcile(
        &ProviderSet::new(),
        &registry(),
        &parse_set("mullvad,tailscale").unwrap(),
        &bins(),
        DnsBackend::Static,
        &mut r,
    );
    assert!(r.called("mullvad disconnect"));
    assert!(r.called("tailscale down"));
}

#[test]
fn empty_desired_skips_teardown_when_already_inactive() {
    let mut r = MockRunner::new()
        .on("mullvad status", 0, "Disconnected\n")
        .on("tailscale status --json", 0, TS_STOPPED);
    let out = reconcile(
        &ProviderSet::new(),
        &registry(),
        &ProviderSet::new(),
        &bins(),
        DnsBackend::Static,
        &mut r,
    );
    assert!(out.active.is_empty());
    assert!(!r.called("mullvad disconnect"));
    assert!(!r.called("tailscale down"));
    assert!(!r.called("nft delete table inet mullvad"));
}

#[test]
fn available_includes_non_desired_providers() {
    let mut r = MockRunner::new().on("mullvad status", 0, "Connected\n").on(
        "tailscale status --json",
        0,
        TS_STOPPED,
    );
    let out = reconcile(
        &parse_set("mullvad").unwrap(),
        &registry(),
        &ProviderSet::new(),
        &bins(),
        DnsBackend::Static,
        &mut r,
    );
    assert_eq!(out.available, parse_set("mullvad,tailscale").unwrap());
    assert_eq!(out.active, parse_set("mullvad").unwrap());
}

#[test]
fn unavailable_provider_is_absent_from_available() {
    let mut r = MockRunner::new().on("mullvad status", 0, "Connected\n").on(
        "tailscale status --json",
        0,
        TS_NEEDS_LOGIN,
    );
    let out = reconcile(
        &parse_set("mullvad,tailscale").unwrap(),
        &registry(),
        &ProviderSet::new(),
        &bins(),
        DnsBackend::Static,
        &mut r,
    );
    assert!(out.available.contains(&ProviderId::Mullvad));
    assert!(!out.available.contains(&ProviderId::Tailscale));
    assert_eq!(out.active, parse_set("mullvad").unwrap());
}

#[test]
fn a_settled_system_is_only_looked_at() {
    let mut r = MockRunner::new()
        .on("mullvad status", 0, "Disconnected\n")
        .on("tailscale status --json", 0, TS_RUNNING);
    let tailscale = parse_set("tailscale").unwrap();
    let out = reconcile(
        &tailscale,
        &registry(),
        &tailscale,
        &bins(),
        DnsBackend::Static,
        &mut r,
    );
    assert_eq!(out.active, tailscale);
    assert!(out.newly_active.is_empty());
    assert_eq!(
        r.calls(),
        &vec![
            "mullvad status".to_string(),
            "tailscale status --json".to_string(),
        ]
    );
}

#[test]
fn the_resolver_step_comes_out() {
    let mut r = MockRunner::new()
        .on("mullvad status", 0, "Connected\n")
        .on("tailscale status --json", 0, TS_STOPPED);
    let mut b = bins();
    b.resolv_conf = "/etc/resolv.conf".into();
    let out = reconcile(
        &parse_set("mullvad").unwrap(),
        &registry(),
        &ProviderSet::new(),
        &b,
        DnsBackend::Static,
        &mut r,
    );
    assert_eq!(out.newly_active, parse_set("mullvad").unwrap());
    assert_eq!(out.resolver, ResolverStep::Remove);
    assert!(out.failures.is_empty());
}

/// Reads work; everything that would change something fails.
struct ReadOnly {
    inner: MockRunner,
}

impl Runner for ReadOnly {
    fn run(&mut self, bin: &str, args: &[&str]) -> Result<CmdOutput, Error> {
        if args[0] == "status" {
            self.inner.run(bin, args)
        } else {
            Err(Error::Command(format!("{bin} {}: refused", args[0])))
        }
    }

    fn run_stdin(&mut self, bin: &str, args: &[&str], _stdin: &str) -> Result<CmdOutput, Error> {
        self.run(bin, args)
    }
}

#[test]
fn one_failure_does_not_stop_the_rest() {
    let inner = MockRunner::new()
        .on("mullvad status", 0, "Disconnected\n")
        .on("tailscale status --json", 0, TS_RUNNING);
    let mut r = ReadOnly { inner };
    let out = reconcile(
        &parse_set("mullvad").unwrap(),
        &registry(),
        &ProviderSet::new(),
        &bins(),
        DnsBackend::Static,
        &mut r,
    );
    let failed: Vec<Action> = out.failures.iter().map(|f| f.action).collect();
    assert_eq!(
        failed,
        vec![
            Action::Activate(ProviderId::Mullvad),
            Action::Deactivate(ProviderId::Tailscale),
        ]
    );
    assert_eq!(
        out.failures[0].error,
        Error::Command("mullvad connect: refused".into())
    );
    assert!(out.active.is_empty());
    assert_eq!(out.available, parse_set("mullvad,tailscale").unwrap());
}

#[test]
fn a_failed_truce_is_reported() {
    let inner = MockRunner::new()
        .on("mullvad status", 0, "Connected\n")
        .on("tailscale status --json", 0, TS_RUNNING);
    let mut r = ReadOnly { inner };
    let both = parse_set("mullvad,tailscale").unwrap();
    let out = reconcile(&both, &registry(), &both, &bins(), DnsBackend::Static, &mut r);
    assert_eq!(out.active, both);
    assert_eq!(out.failures.len(), 1);
    assert_eq!(out.failures[0].action, Action::Coexistence);
    assert_eq!(out.resolver, ResolverStep::Leave);
}

#[test]
fn failures_are_told_apart() {
    let line = failure_line(Action::Activate(ProviderId::Mullvad), "x");
    assert_eq!(line.level, ERROR);
    assert_eq!(line.text, "provider mullvad activate failed: x");
    assert_eq!(
        failure_line(Action::Deactivate(ProviderId::Tailscale), "y").text,
        "provider tailscale deactivate failed: y"
    );
    assert_eq!(
        failure_line(Action::Coexistence, "").text,
        "coexistence apply failed: "
    );
}

#[test]
fn only_unmanaged_files_are_touched() {
    assert!(repairable(DnsBackend::Static));
    assert!(repairable(DnsBackend::Resolvconf));
    assert!(!repairable(DnsBackend::SystemdResolved));
    assert!(!repairable(DnsBackend::NetworkManager));
    assert!(!repairable(DnsBackend::Netconfig));
    assert!(!repairable(DnsBackend::OtherManaged));
}
