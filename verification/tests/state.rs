use vpnmux::dns::DnsBackend;
use vpnmux::fsutil::temp_name;
use vpnmux::state::{
    fits, read_desired, read_status, write_desired, write_status, Desired, Status,
};
use vpnmux::types::{parse_set, Error, ProviderId, ProviderSet};

#[test]
fn desired_roundtrip_with_providers() {
    let d = Desired {
        generation: 7,
        providers: parse_set("mullvad,tailscale").unwrap(),
    };
    let parsed = Desired::parse(&d.serialize()).unwrap();
    assert_eq!(parsed, d);
}

#[test]
fn desired_empty_set_is_explicit_none() {
    let d = Desired {
        generation: 1,
        providers: ProviderSet::new(),
    };
    let text = d.serialize();
    assert_eq!(text, "generation 1\nproviders\n");
    let parsed = Desired::parse(&text).unwrap();
    assert_eq!(parsed.generation, 1);
    assert!(parsed.providers.is_empty());
}

#[test]
fn status_empty_active_has_no_trailing_space() {
    let s = Status {
        generation: 4,
        active: ProviderSet::new(),
        available: ProviderSet::new(),
        unavailable: Vec::new(),
        dns: DnsBackend::Static,
    };
    assert_eq!(s.serialize(), "generation 4\nactive\n");
}

#[test]
fn status_serialize_includes_unavailable() {
    let s = Status {
        generation: 2,
        active: parse_set("mullvad").unwrap(),
        available: ProviderSet::new(),
        unavailable: vec![(ProviderId::Tailscale, "not logged in".into())],
        dns: DnsBackend::Static,
    };
    let out = s.serialize();
    assert!(out.contains("generation 2"));
    assert!(out.contains("active mullvad"));
    assert!(out.contains("unavailable tailscale:not logged in"));
}

#[test]
fn read_absent_desired_is_none() {
    assert_eq!(read_desired(None).unwrap(), None);
}

#[test]
fn write_then_read_desired() {
    let d = Desired {
        generation: 5,
        providers: parse_set("tailscale").unwrap(),
    };
    let write = write_desired("/var/lib/vpnmux/desired", &d);
    assert_eq!(write.path, "/var/lib/vpnmux/desired");
    assert_eq!(write.mode, 0o660);
    assert_eq!(read_desired(Some(&write.contents)).unwrap(), Some(d));
}

#[test]
fn write_then_read_status_preserves_unavailable() {
    let s = Status {
        generation: 3,
        active: parse_set("mullvad").unwrap(),
        available: ProviderSet::new(),
        unavailable: vec![(ProviderId::Tailscale, "not logged in".into())],
        dns: DnsBackend::Static,
    };
    let write = write_status("/run/vpnmux/status", &s);
    let back = read_status(Some(&write.contents)).unwrap().unwrap();
    assert_eq!(
        back.unavailable,
        vec![(ProviderId::Tailscale, "not logged in".to_string())]
    );
}

#[test]
fn a_full_status_reads_back() {
    let s = Status {
        generation: u64::MAX,
        active: parse_set("tailscale").unwrap(),
        available: parse_set("mullvad,tailscale").unwrap(),
        unavailable: vec![
            (ProviderId::Mullvad, "a: b".into()),
            (ProviderId::Tailscale, "".into()),
        ],
        dns: DnsBackend::Netconfig,
    };
    let text = s.serialize();
    assert_eq!(
        text,
        format!(
            "generation {}\nactive tailscale\navailable mullvad,tailscale\ndns {}\nunavailable mullvad:a: b\nunavailable tailscale:\n",
            u64::MAX,
            DnsBackend::Netconfig.as_str()
        )
    );
    assert_eq!(Status::parse(&text).unwrap(), s);
    assert_eq!(read_status(None).unwrap(), None);
}

#[test]
fn lines_may_come_in_any_order_and_others_are_ignored() {
    let d = Desired::parse("# note\r\n  providers  mullvad \r\ngeneration  +9\n\n").unwrap();
    assert_eq!(d.generation, 9);
    assert_eq!(d.providers, parse_set("mullvad").unwrap());
    let empty = Desired::parse("").unwrap();
    assert_eq!(empty.generation, 0);
    assert!(empty.providers.is_empty());
}

#[test]
fn bad_lines_are_errors() {
    assert_eq!(
        Desired::parse("generation x\n"),
        Err(Error::BadNumber("x".into()))
    );
    assert_eq!(
        Desired::parse("generation 18446744073709551616\n"),
        Err(Error::BadNumber("18446744073709551616".into()))
    );
    assert_eq!(
        Desired::parse("generation 1\nproviders foo\n"),
        Err(Error::UnknownProvider("foo".into()))
    );
    assert!(read_desired(Some("generation -1\n")).is_err());
    assert!(read_status(Some("active foo\n")).is_err());
}

#[test]
fn unknown_unavailable_providers_are_dropped() {
    let s = Status::parse("generation 1\nactive\nunavailable foo:x\nunavailable mullvad\n").unwrap();
    assert!(s.unavailable.is_empty());
}

#[test]
fn large_state_files_are_not_read() {
    assert!(fits(64 * 1024));
    assert!(!fits(64 * 1024 + 1));
}

#[test]
fn temp_names_tell_writes_apart() {
    assert_eq!(temp_name(12, 345, 6), ".vpnmux.tmp.12.345.6");
    assert_ne!(temp_name(1, 23, 4), temp_name(12, 3, 4));
    assert_ne!(temp_name(1, 2, 3), temp_name(1, 2, 4));
}

#[test]
fn a_bad_list_of_available_providers_is_passed_over() {
    let s = Status::parse("generation 3\navailable mullvad\navailable x\nactive mullvad\n").unwrap();
    assert_eq!(s.generation, 3);
    assert_eq!(s.available, parse_set("mullvad").unwrap());
    assert_eq!(s.active, parse_set("mullvad").unwrap());
}
