use vpnmux::mullvad::Mullvad;
use vpnmux::nft::{delete_table, ensure_whitelist};
use vpnmux::provider::{Availability, Provider};
use vpnmux::runner::{CmdOutput, MockRunner, Runner};
use vpnmux::tailscale::{backend_state, Tailscale};
use vpnmux::types::{format_set, parse_set, providers, Error, ProviderId, ProviderSet};

fn m() -> Mullvad {
    Mullvad {
        bin: "mullvad".into(),
        nft: "nft".into(),
    }
}

#[test]
fn is_active_true_when_connected() {
    let mut r = MockRunner::new().on("mullvad status", 0, "Connected\n  Relay: x\n");
    assert!(m().is_active(&mut r));
}

#[test]
fn is_active_false_when_disconnected() {
    let mut r = MockRunner::new().on("mullvad status", 0, "Disconnected\n");
    assert!(!m().is_active(&mut r));
}

#[test]
fn connecting_is_not_active_but_available() {
    let mut r = MockRunner::new().on("mullvad status", 0, "Connecting\n  Relay: x\n");
    let s = m().status(&mut r);
    assert!(!s.active);
    assert_eq!(s.availability, Availability::Available);
}

#[test]
fn disconnecting_is_not_active() {
    let mut r = MockRunner::new().on("mullvad status", 0, "Disconnecting\n");
    assert!(!m().is_active(&mut r));
}

#[test]
fn blocked_is_not_active() {
    let mut r = MockRunner::new().on("mullvad status", 0, "Blocked\n");
    assert!(!m().is_active(&mut r));
}

#[test]
fn nonzero_exit_is_unavailable_and_inactive() {
    let mut r = MockRunner::new().on("mullvad status", 1, "Connected\n");
    let s = m().status(&mut r);
    assert!(!s.active);
    assert!(matches!(s.availability, Availability::Unavailable(_)));
}

#[test]
fn check_unavailable_on_rpc_error() {
    let mut r = MockRunner::new().on("mullvad status", 1, "Error: transport error");
    assert!(matches!(m().check(&mut r), Availability::Unavailable(_)));
}

#[test]
fn deactivate_deletes_table_when_lockdown_off() {
    let mut r = MockRunner::new().on("mullvad lockdown-mode get", 0, "off\n");
    m().deactivate(&mut r).unwrap();
    assert!(r.called("mullvad disconnect"));
    assert!(r.called("nft delete table inet mullvad"));
}

#[test]
fn deactivate_keeps_table_when_lockdown_on() {
    let mut r = MockRunner::new().on("mullvad lockdown-mode get", 0, "on\n");
    m().deactivate(&mut r).unwrap();
    assert!(r.called("mullvad disconnect"));
    assert!(!r.called("nft delete table inet mullvad"));
}

#[test]
fn lockdown_off_parsed_from_real_cli_sentence() {
    let mut r = MockRunner::new().on(
        "mullvad lockdown-mode get",
        0,
        "Block traffic when the VPN is disconnected: off\n",
    );
    m().deactivate(&mut r).unwrap();
    assert!(r.called("nft delete table inet mullvad"));
}

#[test]
fn lockdown_on_parsed_from_real_cli_sentence() {
    let mut r = MockRunner::new().on(
        "mullvad lockdown-mode get",
        0,
        "Block traffic when the VPN is disconnected: on\n",
    );
    m().deactivate(&mut r).unwrap();
    assert!(!r.called("nft delete table inet mullvad"));
}

#[test]
fn lockdown_is_read_in_any_letter_case() {
    let mut r = MockRunner::new().on("mullvad lockdown-mode get", 0, "Lockdown mode: ON\n");
    assert!(m().lockdown_on(&mut r));
    let mut r = MockRunner::new();
    assert!(!m().lockdown_on(&mut r));
    assert!(!m().lockdown_on(&mut Broken));
}

#[test]
fn inserts_both_rules_when_missing() {
    let mut r = MockRunner::new().on(
        "nft list table inet mullvad",
        0,
        "table inet mullvad {\n chain input {\n }\n}",
    );
    ensure_whitelist("nft", &mut r).unwrap();
    assert!(r.called("nft insert rule inet mullvad input iifname tailscale* accept"));
    assert!(r.called("nft insert rule inet mullvad output oifname tailscale* accept"));
}

#[test]
fn skips_when_rules_present() {
    let listing = "chain input {\n iifname \"tailscale*\" accept\n }\n \
                   chain output {\n oifname \"tailscale*\" accept\n }";
    let mut r = MockRunner::new().on("nft list table inet mullvad", 0, listing);
    ensure_whitelist("nft", &mut r).unwrap();
    assert!(!r.called("nft insert rule inet mullvad input iifname tailscale* accept"));
}

#[test]
fn noop_when_table_absent() {
    let mut r = MockRunner::new().on("nft list table inet mullvad", 1, "");
    ensure_whitelist("nft", &mut r).unwrap();
    assert!(!r.called("nft insert rule inet mullvad input iifname tailscale* accept"));
}

#[test]
fn delete_table_reports_real_removal() {
    let mut r = MockRunner::new().on("nft delete table inet mullvad", 0, "");
    assert!(delete_table("nft", &mut r).unwrap());
    assert!(r.called("nft delete table inet mullvad"));
}

#[test]
fn delete_table_is_noop_when_absent() {
    let mut r = MockRunner::new().on(
        "nft delete table inet mullvad",
        1,
        "Error: No such file or directory",
    );
    assert!(!delete_table("nft", &mut r).unwrap());
}

#[test]
fn only_the_missing_rule_is_inserted() {
    let listing = "chain input {\n iifname \"tailscale*\" accept\n }";
    let mut r = MockRunner::new().on("nft list table inet mullvad", 0, listing);
    ensure_whitelist("nft", &mut r).unwrap();
    assert_eq!(
        r.calls(),
        &vec![
            "nft list table inet mullvad".to_string(),
            "nft insert rule inet mullvad output oifname tailscale* accept".to_string(),
        ]
    );
}

fn t() -> Tailscale {
    Tailscale {
        bin: "tailscale".into(),
    }
}

const RUNNING: &str = r#"{"Version":"1.98.3","BackendState":"Running","Self":{}}"#;
const STOPPED: &str = r#"{"BackendState":"Stopped","Self":{}}"#;
const NEEDS_LOGIN: &str = r#"{"BackendState":"NeedsLogin"}"#;
const NO_STATE: &str = r#"{"BackendState":"NoState"}"#;

#[test]
fn parses_backend_state() {
    assert_eq!(backend_state(RUNNING).as_deref(), Some("Running"));
    assert_eq!(backend_state(STOPPED).as_deref(), Some("Stopped"));
    assert_eq!(backend_state("{}"), None);
}

#[test]
fn check_unavailable_when_needs_login() {
    let mut r = MockRunner::new().on("tailscale status --json", 0, NEEDS_LOGIN);
    assert!(matches!(t().check(&mut r), Availability::Unavailable(_)));
}

#[test]
fn check_unavailable_when_no_state() {
    let mut r = MockRunner::new().on("tailscale status --json", 0, NO_STATE);
    assert!(matches!(t().check(&mut r), Availability::Unavailable(_)));
}

#[test]
fn check_available_when_running() {
    let mut r = MockRunner::new().on("tailscale status --json", 0, RUNNING);
    assert_eq!(t().check(&mut r), Availability::Available);
}

#[test]
fn is_active_true_when_running() {
    let mut r = MockRunner::new().on("tailscale status --json", 0, RUNNING);
    assert!(t().is_active(&mut r));
}

#[test]
fn stopped_is_available_but_inactive() {
    let mut r = MockRunner::new().on("tailscale status --json", 0, STOPPED);
    let s = t().status(&mut r);
    assert_eq!(s.availability, Availability::Available);
    assert!(!s.active);
}

#[test]
fn backend_state_allows_blanks_and_takes_the_first() {
    let pretty = "{\n  \"BackendState\" : \"Starting\",\n  \"BackendState\": \"Running\"\n}";
    assert_eq!(backend_state(pretty).as_deref(), Some("Starting"));
    assert_eq!(backend_state("\"BackendState\""), None);
    assert_eq!(backend_state("\"BackendState\":\"open"), None);
    assert_eq!(backend_state("\"BackendState\":\"\"").as_deref(), Some(""));
}

fn reason(stdout: &str) -> Availability {
    let mut r = MockRunner::new().on("tailscale status --json", 1, stdout);
    t().check(&mut r)
}

#[test]
fn each_state_has_its_reason() {
    let is = |s: &str| Availability::Unavailable(s.to_string());
    assert_eq!(reason(NEEDS_LOGIN), is("not logged in (run: tailscale login)"));
    assert_eq!(
        reason(r#"{"BackendState":"NeedsMachineAuth"}"#),
        is("not logged in (run: tailscale login)")
    );
    assert_eq!(reason(NO_STATE), is("tailscaled not running"));
    assert_eq!(reason("{}"), is("tailscaled not running"));
    assert_eq!(
        reason(r#"{"BackendState":"InUseOtherUser"}"#),
        is("tailscale in unknown state")
    );
    assert_eq!(t().check(&mut Broken), is("tailscale CLI failed"));
    assert_eq!(m().check(&mut Broken), is("mullvad daemon not reachable"));
    assert_eq!(reason(RUNNING), Availability::Available);
}

#[test]
fn activation_runs_one_command() {
    let mut r = MockRunner::new();
    m().activate(&mut r).unwrap();
    t().activate(&mut r).unwrap();
    t().deactivate(&mut r).unwrap();
    assert_eq!(
        r.calls(),
        &vec![
            "mullvad connect".to_string(),
            "tailscale up".to_string(),
            "tailscale down".to_string(),
        ]
    );
}

struct Broken;

impl Runner for Broken {
    fn run(&mut self, bin: &str, _args: &[&str]) -> Result<CmdOutput, Error> {
        Err(Error::Command(format!("{bin}: gone")))
    }

    fn run_stdin(&mut self, bin: &str, args: &[&str], _stdin: &str) -> Result<CmdOutput, Error> {
        self.run(bin, args)
    }
}

#[test]
fn errors_of_the_runner_come_through() {
    let gone = |bin: &str| Error::Command(format!("{bin}: gone"));
    assert_eq!(m().activate(&mut Broken), Err(gone("mullvad")));
    assert_eq!(m().deactivate(&mut Broken), Err(gone("mullvad")));
    assert_eq!(t().activate(&mut Broken), Err(gone("tailscale")));
    assert_eq!(delete_table("nft", &mut Broken), Err(gone("nft")));
    assert_eq!(ensure_whitelist("nft", &mut Broken), Err(gone("nft")));
}

#[test]
fn mock_returns_scripted_output_and_records_calls() {
    let mut r = MockRunner::new().on("mullvad status", 0, "Connected\n");
    let out = r.run("mullvad", &["status"]).unwrap();
    assert!(out.ok());
    assert!(out.stdout.starts_with("Connected"));
    assert!(r.called("mullvad status"));
}

#[test]
fn mock_unknown_command_is_success_empty() {
    let mut r = MockRunner::new();
    let out = r.run("nft", &["list", "table", "inet", "mullvad"]).unwrap();
    assert!(out.ok());
    assert_eq!(out.stdout, "");
    assert!(r.called("nft list table inet mullvad"));
}

#[test]
fn mock_takes_the_last_script_for_a_command() {
    let mut r = MockRunner::new().on("a b", 1, "x").on("a b", 3, "y");
    let out = r.run_stdin("a", &["b"], "ignored").unwrap();
    assert_eq!((out.code, out.stdout.as_str()), (3, "y"));
    assert!(!out.ok());
}

#[test]
fn parse_and_format_roundtrip() {
    let set = parse_set("tailscale,mullvad").unwrap();
    assert!(set.contains(&ProviderId::Mullvad));
    assert!(set.contains(&ProviderId::Tailscale));
    assert_eq!(format_set(&set), "mullvad,tailscale");
}

#[test]
fn empty_string_is_empty_set() {
    assert!(parse_set("").unwrap().is_empty());
    assert_eq!(format_set(&ProviderSet::new()), "");
}

#[test]
fn unknown_provider_errors() {
    assert!(parse_set("mullvad,wireguard").is_err());
}

#[test]
fn names_are_trimmed_and_blanks_dropped() {
    assert_eq!(
        parse_set(" mullvad , ,tailscale,").unwrap(),
        parse_set("mullvad,tailscale").unwrap()
    );
    assert_eq!(
        parse_set("Mullvad"),
        Err(Error::UnknownProvider("Mullvad".into()))
    );
}

#[test]
fn sets_behave_as_sets() {
    let mut set = ProviderSet::new();
    assert!(set.insert(ProviderId::Tailscale));
    assert!(!set.insert(ProviderId::Tailscale));
    set.extend(parse_set("mullvad").unwrap());
    assert_eq!(set.to_vec(), ProviderId::all());
    assert_eq!(
        set.difference(&parse_set("mullvad").unwrap()),
        parse_set("tailscale").unwrap()
    );
    for id in ProviderId::all() {
        assert_eq!(ProviderId::from_str(id.as_str()), Ok(id));
    }
}

#[test]
fn the_registry_holds_every_provider_in_order() {
    let ids: Vec<ProviderId> = providers("m", "t", "n").iter().map(|p| p.id()).collect();
    assert_eq!(ids, ProviderId::all());
    let mut r = MockRunner::new().on("t status --json", 0, RUNNING);
    assert!(ProviderId::Tailscale.provider("m", "t", "n").is_active(&mut r));
}
