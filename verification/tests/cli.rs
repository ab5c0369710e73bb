use vpnmux::cli::{
    confirmed, hint_on_eacces, next_desired, parse_args, precheck, progress, status, wants_json,
    Progress,
};
use vpnmux::dns::DnsBackend;
use vpnmux::json::{json_escape, status_json};
use vpnmux::mullvad::Mullvad;
use vpnmux::runner::MockRunner;
use vpnmux::state::{Desired, Status};
use vpnmux::types::{parse_set, providers, Error, ProviderId, ProviderSet};

fn args(v: &[&str]) -> Vec<String> {
    v.iter().map(|s| s.to_string()).collect()
}

#[test]
fn comma_and_space_forms_are_equivalent() {
    let (comma, _) = parse_args(&args(&["mullvad,tailscale"])).unwrap();
    let (space, _) = parse_args(&args(&["mullvad", "tailscale"])).unwrap();
    assert_eq!(comma, space);
    assert!(comma.contains(&ProviderId::Mullvad));
    assert!(comma.contains(&ProviderId::Tailscale));
}

#[test]
fn yes_flag_with_empty_set() {
    let (want, yes) = parse_args(&args(&["--yes"])).unwrap();
    assert!(yes);
    assert!(want.is_empty());
}

#[test]
fn unknown_provider_is_an_error() {
    assert!(parse_args(&args(&["mullvad,wireguard"])).is_err());
}

#[test]
fn json_escape_handles_specials() {
    assert_eq!(json_escape(r#"a"b\c"#), r#"a\"b\\c"#);
    assert_eq!(json_escape("line1\nline2"), "line1\\nline2");
    assert_eq!(json_escape("tab\tend"), "tab\\tend");
    assert_eq!(json_escape("\u{0001}"), "\\u0001");
    assert_eq!(json_escape("a\rb"), "a\\rb");
}

#[test]
fn status_json_shape() {
    let s = Status {
        generation: 12,
        active: parse_set("mullvad").unwrap(),
        available: parse_set("mullvad,tailscale").unwrap(),
        unavailable: vec![(ProviderId::Tailscale, "not logged in".into())],
        dns: DnsBackend::SystemdResolved,
    };
    assert_eq!(
        status_json(Some(&s)),
        "{\"generation\":12,\"active\":[\"mullvad\"],\"available\":[\"mullvad\",\"tailscale\"],\"unavailable\":[{\"provider\":\"tailscale\",\"reason\":\"not logged in\"}],\"dns\":\"systemd-resolved\"}"
    );
}

#[test]
fn status_json_none_is_empty_payload() {
    assert_eq!(
        status_json(None),
        "{\"generation\":0,\"active\":[],\"available\":[],\"unavailable\":[],\"dns\":\"static\"}"
    );
}

#[test]
fn status_json_escapes_reason() {
    let s = Status {
        generation: 1,
        active: ProviderSet::new(),
        available: ProviderSet::new(),
        unavailable: vec![(ProviderId::Mullvad, "weird \"quote\"".into())],
        dns: DnsBackend::Static,
    };
    assert_eq!(
        status_json(Some(&s)),
        "{\"generation\":1,\"active\":[],\"available\":[],\"unavailable\":[{\"provider\":\"mullvad\",\"reason\":\"weird \\\"quote\\\"\"}],\"dns\":\"static\"}"
    );
}

#[test]
fn json_escape_leaves_other_characters_alone() {
    assert_eq!(json_escape("grün / \u{7f}"), "grün / \u{7f}");
    assert_eq!(json_escape("\u{1f}"), "\\u001f");
    assert_eq!(json_escape("\u{0}"), "\\u0000");
    assert_eq!(json_escape(""), "");
}

#[test]
fn json_lists_every_unavailable_provider() {
    let s = Status {
        generation: 2,
        active: ProviderSet::new(),
        available: ProviderSet::new(),
        unavailable: vec![
            (ProviderId::Mullvad, "a".into()),
            (ProviderId::Tailscale, "b".into()),
        ],
        dns: DnsBackend::OtherManaged,
    };
    assert_eq!(
        status_json(Some(&s)),
        format!(
            "{{\"generation\":2,\"active\":[],\"available\":[],\"unavailable\":[{},{}],\"dns\":\"{}\"}}",
            "{\"provider\":\"mullvad\",\"reason\":\"a\"}",
            "{\"provider\":\"tailscale\",\"reason\":\"b\"}",
            DnsBackend::OtherManaged.as_str()
        )
    );
}

#[test]
fn short_flag_counts_and_members_add_up() {
    let (want, yes) = parse_args(&args(&["tailscale", "-y", "tailscale,"])).unwrap();
    assert!(yes);
    assert_eq!(want, parse_set("tailscale").unwrap());
    let (none, no) = parse_args(&[]).unwrap();
    assert!(none.is_empty());
    assert!(!no);
}

#[test]
fn first_bad_argument_is_reported() {
    assert_eq!(
        parse_args(&args(&["mullvad", "wireguard", "openvpn"])),
        Err(Error::UnknownProvider("wireguard".into()))
    );
}

fn mullvad() -> Mullvad {
    Mullvad {
        bin: "mullvad".into(),
        nft: "nft".into(),
    }
}

#[test]
fn leaving_mullvad_under_lockdown_asks() {
    let mut r = MockRunner::new().on("mullvad lockdown-mode get", 0, "on\n");
    let registry = providers("mullvad", "tailscale", "nft");
    let check = precheck(&ProviderSet::new(), false, &registry, &mullvad(), &mut r);
    assert!(check.notices.is_empty());
    assert_eq!(
        check.question.unwrap(),
        "Mullvad lockdown is active — switching to 'none' will block ALL connectivity (incl. the tailnet) until you reconnect Mullvad or disable lockdown. Continue? [y/N] "
    );
    assert_eq!(r.calls(), &vec!["mullvad lockdown-mode get".to_string()]);
}

#[test]
fn an_answer_in_advance_is_not_asked_for() {
    let mut r = MockRunner::new().on("mullvad lockdown-mode get", 0, "on\n");
    let registry = providers("mullvad", "tailscale", "nft");
    let check = precheck(&ProviderSet::new(), true, &registry, &mullvad(), &mut r);
    assert!(check.question.is_none());
}

#[test]
fn keeping_mullvad_does_not_look_at_lockdown() {
    let mut r = MockRunner::new()
        .on("mullvad status", 0, "Connected\n")
        .on("mullvad lockdown-mode get", 0, "on\n");
    let registry = providers("mullvad", "tailscale", "nft");
    let want = parse_set("mullvad").unwrap();
    let check = precheck(&want, false, &registry, &mullvad(), &mut r);
    assert!(check.question.is_none());
    assert!(check.notices.is_empty());
    assert!(!r.called("mullvad lockdown-mode get"));
    assert!(!r.called("tailscale status --json"));
}

#[test]
fn unavailable_providers_are_announced() {
    let mut r = MockRunner::new()
        .on("mullvad status", 1, "")
        .on("tailscale status --json", 0, "{}");
    let registry = providers("mullvad", "tailscale", "nft");
    let want = parse_set("mullvad,tailscale").unwrap();
    let check = precheck(&want, false, &registry, &mullvad(), &mut r);
    assert_eq!(
        check.notices,
        vec![
            "vpnmux: mullvad: unavailable — mullvad daemon not reachable (may be transient; will retry)".to_string(),
            "vpnmux: tailscale: unavailable — tailscaled not running (may be transient; will retry)".to_string(),
        ]
    );
}

#[test]
fn only_a_yes_confirms() {
    assert!(confirmed("y\n"));
    assert!(confirmed(" Y "));
    assert!(confirmed("yes\r\n"));
    assert!(!confirmed("YES\n"));
    assert!(!confirmed("n\n"));
    assert!(!confirmed("\n"));
}

#[test]
fn generations_count_up() {
    let want = parse_set("mullvad").unwrap();
    let first = next_desired(None, &want);
    assert_eq!(first.generation, 1);
    assert_eq!(first.providers, want);
    let prev = Desired {
        generation: 41,
        providers: ProviderSet::new(),
    };
    assert_eq!(next_desired(Some(prev), &want).generation, 42);
}

fn report(generation: u64, active: &str) -> Status {
    Status {
        generation,
        active: parse_set(active).unwrap(),
        available: ProviderSet::new(),
        unavailable: Vec::new(),
        dns: DnsBackend::Static,
    }
}

#[test]
fn waits_until_the_generation_is_reached() {
    let want = parse_set("mullvad,tailscale").unwrap();
    assert!(matches!(progress(3, &want, None, false), Progress::Pending));
    assert!(matches!(
        progress(3, &want, Some(&report(2, "mullvad,tailscale")), false),
        Progress::Pending
    ));
    match progress(3, &want, Some(&report(2, "")), true) {
        Progress::TimedOut(msg) => assert_eq!(
            msg,
            "vpnmux: timed out waiting for daemon (is the vpnmux service running?)"
        ),
        _ => panic!("expected a timeout"),
    }
    match progress(3, &want, Some(&report(4, "mullvad,tailscale")), true) {
        Progress::Done(msg) => assert_eq!(msg, "vpnmux: active = mullvad,tailscale"),
        _ => panic!("expected the end"),
    }
    match progress(3, &want, Some(&report(3, "")), false) {
        Progress::Partial(said, missing) => {
            assert_eq!(said, "vpnmux: active = none");
            assert_eq!(missing, "vpnmux: not yet active: mullvad,tailscale");
        }
        _ => panic!("expected something to be missing"),
    }
}

#[test]
fn status_for_people() {
    let s = report(7, "tailscale");
    assert_eq!(
        status(Some(&s), false),
        "generation: 7\nactive: tailscale\ndns: static"
    );
    assert_eq!(
        status(Some(&report(0, "")), false),
        "generation: 0\nactive: none\ndns: static"
    );
    assert_eq!(
        status(None, false),
        "vpnmux: no status yet (daemon not running, or never reconciled)"
    );
    assert_eq!(status(Some(&s), true), status_json(Some(&s)));
    assert!(wants_json(&args(&["x", "--json"])));
    assert!(!wants_json(&args(&["json"])));
}

#[test]
fn denied_access_comes_with_advice() {
    let hint = "\nhint: add your user to the 'vpnmux' group (and re-login), or run this command with sudo";
    let denied = "Permission denied (os error 13)";
    assert_eq!(hint_on_eacces(denied), format!("{denied}{hint}"));
    assert_eq!(hint_on_eacces("x (os error 13)"), format!("x (os error 13){hint}"));
    assert_eq!(hint_on_eacces("No such file"), "No such file");
}
