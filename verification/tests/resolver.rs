use vpnmux::dns::{classify_comment_header, classify_symlink_target, detect_backend, DnsBackend};
use vpnmux::ip::address;
use vpnmux::resolver::{
    ensure_resolver, has_nameserver, inject_nameserver, obstacle_to, pick_resolver,
    preferred_resolver, remove_injected_resolver, resolvconf_add, resolvconf_del,
    resolvconf_is_resolvectl_shim, Obstacle, ResolvConf,
};
use vpnmux::route::default_gateway_from;
use vpnmux::runner::MockRunner;

const ROUTE: &str = "Iface\tDestination\tGateway\tFlags\tRefCnt\tUse\tMetric\tMask\tMTU\tWindow\tIRTT
wlp1s0\t00000000\t010A0A0A\t0003\t0\t0\t600\t00000000\t0\t0\t0
wlp1s0\t000A0A0A\t00000000\t0001\t0\t0\t600\t00FFFFFF\t0\t0\t0";

#[test]
fn parses_default_gateway_little_endian() {
    assert_eq!(default_gateway_from(ROUTE), Some("10.10.10.1".to_string()));
}

#[test]
fn lowest_metric_default_route_wins() {
    let table = "h\na\t00000000\t0101010A\t0003\t0\t0\t1000\t0\t0\t0\t0\n\
                 b\t00000000\t010A0A0A\t0003\t0\t0\t600\t0\t0\t0\t0";
    assert_eq!(default_gateway_from(table), Some("10.10.10.1".to_string()));
}

#[test]
fn no_default_route_is_none() {
    let table = "h\nwlp1s0\t000A0A0A\t00000000\t0001\t0\t0\t600\t00FFFFFF\t0\t0\t0";
    assert_eq!(default_gateway_from(table), None);
}

#[test]
fn odd_route_lines_are_passed_over() {
    let short = "h\na 00000000 0101010A 0003 0 0 1 0 0 0";
    assert_eq!(default_gateway_from(short), None);
    let on_link = "h\na 00000000 00000000 0003 0 0 1 0 0 0 0";
    assert_eq!(default_gateway_from(on_link), None);
    let not_hex = "h\na 00000000 xyz 0003 0 0 1 0 0 0 0";
    assert_eq!(default_gateway_from(not_hex), None);
    let too_long = "h\na 00000000 1FFFFFFFF 0003 0 0 1 0 0 0 0";
    assert_eq!(default_gateway_from(too_long), None);
    assert_eq!(default_gateway_from(""), None);
    let tie = "h\na 00000000 0101010A 0003 0 0 5 0 0 0 0\nb 00000000 020A0A0A 0003 0 0 5 0 0 0 0";
    assert_eq!(default_gateway_from(tie), Some("10.1.1.1".to_string()));
    let bad_metric = "h\na 00000000 0101010A 0003 0 0 x 0 0 0 0\nb 00000000 020A0A0A 0003 0 0 9 0 0 0 0";
    assert_eq!(default_gateway_from(bad_metric), Some("10.10.10.2".to_string()));
}

#[test]
fn has_nameserver_detects_presence() {
    assert!(has_nameserver("search foo\nnameserver 10.0.0.1\n"));
    assert!(!has_nameserver("search foo\n"));
    assert!(!has_nameserver(""));
}

#[test]
fn pick_resolver_precedence() {
    assert_eq!(
        pick_resolver(Some("9.9.9.9".into()), Some("10.0.0.1".into())),
        Some("9.9.9.9".into())
    );
    assert_eq!(
        pick_resolver(None, Some("10.0.0.1".into())),
        Some("10.0.0.1".into())
    );
    assert_eq!(pick_resolver(Some("  ".into()), None), None);
    assert_eq!(pick_resolver(None, None), None);
}

#[test]
fn the_gateway_is_preferred_unless_overridden() {
    assert_eq!(
        preferred_resolver(None, Some(ROUTE)),
        Some("10.10.10.1".to_string())
    );
    assert_eq!(
        preferred_resolver(Some("9.9.9.9".into()), Some(ROUTE)),
        Some("9.9.9.9".to_string())
    );
    assert_eq!(preferred_resolver(None, None), None);
}

#[test]
fn inject_prepends_tagged_nameserver_and_keeps_search() {
    let out = inject_nameserver("search example.ts.net\n", "10.10.10.1");
    assert_eq!(
        out,
        "nameserver 10.10.10.1 # vpnmux\nsearch example.ts.net\n"
    );
}

fn file(text: &str) -> ResolvConf {
    ResolvConf {
        path: "/etc/resolv.conf".into(),
        text: Some(text.into()),
        symlink: false,
        shim: false,
    }
}

#[test]
fn ensure_resolver_writes_only_when_missing() {
    let mut r = MockRunner::new();
    let write = ensure_resolver(
        &file("search example.ts.net\n"),
        DnsBackend::Static,
        Some("10.10.10.1"),
        &mut r,
    )
    .unwrap()
    .unwrap();
    assert_eq!(
        write.contents,
        "nameserver 10.10.10.1 # vpnmux\nsearch example.ts.net\n"
    );
    assert_eq!(write.path, "/etc/resolv.conf");
    assert_eq!(write.mode, 0o644);

    let there = file("nameserver 9.9.9.9\n");
    assert_eq!(
        ensure_resolver(&there, DnsBackend::Static, Some("10.10.10.1"), &mut r).unwrap(),
        None
    );
    assert_eq!(
        ensure_resolver(&file("search only\n"), DnsBackend::Static, None, &mut r).unwrap(),
        None
    );
}

#[test]
fn ensure_resolver_skips_invalid_ip() {
    let mut r = MockRunner::new();
    let conf = file("search only\n");
    assert_eq!(
        ensure_resolver(&conf, DnsBackend::Static, Some("not-an-ip"), &mut r).unwrap(),
        None
    );
}

#[test]
fn ensure_resolver_refuses_symlink() {
    let mut r = MockRunner::new();
    let mut conf = file("search only\n");
    conf.symlink = true;
    assert_eq!(
        ensure_resolver(&conf, DnsBackend::Static, Some("10.10.10.1"), &mut r).unwrap(),
        None
    );
}

#[test]
fn remove_injected_strips_only_tagged_line() {
    let mut r = MockRunner::new();
    let write = remove_injected_resolver(
        &file("nameserver 10.10.10.1 # vpnmux\nsearch foo\n"),
        DnsBackend::Static,
        &mut r,
    )
    .unwrap()
    .unwrap();
    assert_eq!(write.contents, "search foo\n");
    assert_eq!(
        remove_injected_resolver(&file("nameserver 9.9.9.9\n"), DnsBackend::Static, &mut r).unwrap(),
        None
    );
}

#[test]
fn a_missing_file_is_filled_and_not_cleaned() {
    let mut r = MockRunner::new();
    let conf = ResolvConf {
        path: "/tmp/r".into(),
        text: None,
        symlink: false,
        shim: false,
    };
    let write = ensure_resolver(&conf, DnsBackend::Static, Some("::1"), &mut r)
        .unwrap()
        .unwrap();
    assert_eq!(write.contents, "nameserver ::1 # vpnmux\n");
    assert_eq!(
        remove_injected_resolver(&conf, DnsBackend::Static, &mut r).unwrap(),
        None
    );
}

#[test]
fn removal_undoes_filling() {
    let mut r = MockRunner::new();
    let before = "search a b\noptions edns0\n";
    let filled = inject_nameserver(before, "10.0.0.1");
    let write = remove_injected_resolver(&file(&filled), DnsBackend::Static, &mut r)
        .unwrap()
        .unwrap();
    assert_eq!(write.contents, before);
}

#[test]
fn filling_happens_once() {
    let mut r = MockRunner::new();
    let filled = inject_nameserver("search a\n", "10.0.0.1");
    assert_eq!(
        ensure_resolver(&file(&filled), DnsBackend::Static, Some("10.0.0.1"), &mut r).unwrap(),
        None
    );
}

#[test]
fn detect_systemd_stub_symlink() {
    assert_eq!(
        detect_backend(Some("/run/systemd/resolve/stub-resolv.conf"), None),
        DnsBackend::SystemdResolved
    );
}

#[test]
fn detect_resolvconf_symlink() {
    assert_eq!(
        detect_backend(Some("/run/resolvconf/resolv.conf"), None),
        DnsBackend::Resolvconf
    );
}

#[test]
fn detect_netconfig_symlink() {
    assert_eq!(
        detect_backend(Some("/run/netconfig/resolv.conf"), None),
        DnsBackend::Netconfig
    );
}

#[test]
fn detect_unknown_symlink_is_other_managed() {
    assert_eq!(
        detect_backend(Some("/some/where/else.conf"), None),
        DnsBackend::OtherManaged
    );
}

#[test]
fn detect_networkmanager_header() {
    assert_eq!(
        detect_backend(
            None,
            Some("# Generated by NetworkManager\nnameserver 1.1.1.1\n")
        ),
        DnsBackend::NetworkManager
    );
}

#[test]
fn detect_resolvconf_header() {
    assert_eq!(
        detect_backend(
            None,
            Some("# Dynamic resolv.conf file generated by resolvconf\nnameserver 1.1.1.1\n")
        ),
        DnsBackend::Resolvconf
    );
}

#[test]
fn detect_static_when_resolvconf_mentioned_after_blank_line() {
    assert_eq!(
        detect_backend(
            None,
            Some("# plain static file\n\n# resolvconf mentioned in passing\nnameserver 1.1.1.1\n")
        ),
        DnsBackend::Static
    );
}

#[test]
fn classify_comment_header_stops_at_blank_line() {
    assert_eq!(
        classify_comment_header("# header\n\n# resolvconf\nnameserver 1.1.1.1\n"),
        None
    );
    assert_eq!(
        classify_comment_header("# generated by resolvconf\nnameserver 1.1.1.1\n"),
        Some(DnsBackend::Resolvconf)
    );
}

#[test]
fn classify_symlink_components_match_real_and_reject_lookalikes() {
    assert_eq!(
        classify_symlink_target("/run/systemd/resolve/stub-resolv.conf"),
        DnsBackend::SystemdResolved
    );
    assert_eq!(
        classify_symlink_target("../run/systemd/resolve/stub-resolv.conf"),
        DnsBackend::SystemdResolved
    );
    assert_eq!(
        classify_symlink_target("/var/lib/x/run/systemd/resolve/stub-resolv.conf"),
        DnsBackend::OtherManaged
    );
    assert_eq!(
        classify_symlink_target("/run/resolvconf/resolv.conf"),
        DnsBackend::Resolvconf
    );
    assert_eq!(
        classify_symlink_target("/var/lib/myresolvconfdir/resolv.conf"),
        DnsBackend::OtherManaged
    );
    assert_eq!(
        classify_symlink_target("/run/netconfig/resolv.conf"),
        DnsBackend::Netconfig
    );
}

#[test]
fn detect_all_localhost_resolved_is_systemd() {
    assert_eq!(
        detect_backend(None, Some("nameserver 127.0.0.53\noptions edns0\n")),
        DnsBackend::SystemdResolved
    );
}

#[test]
fn detect_plain_nameserver_is_static() {
    assert_eq!(
        detect_backend(None, Some("nameserver 10.0.0.1\n")),
        DnsBackend::Static
    );
}

#[test]
fn resolvconf_add_invokes_resolvconf_a() {
    let mut r = MockRunner::new();
    resolvconf_add("vpnmux", "10.10.10.1", &mut r).unwrap();
    assert!(r.called("resolvconf -a vpnmux"));
}

#[test]
fn ensure_resolver_resolvconf_gates_on_existing_nameserver() {
    let mut r = MockRunner::new();
    let there = file("nameserver 10.64.0.1 # vpnmux\nsearch foo\n");
    ensure_resolver(&there, DnsBackend::Resolvconf, Some("10.10.10.1"), &mut r).unwrap();
    assert!(!r.called("resolvconf -a vpnmux"));

    for shim in [false, true] {
        let mut r = MockRunner::new();
        let mut gap = file("search foo\n");
        gap.shim = shim;
        ensure_resolver(&gap, DnsBackend::Resolvconf, Some("10.10.10.1"), &mut r).unwrap();
        assert_eq!(r.called("resolvconf -a vpnmux"), !shim);
    }
}

#[test]
fn resolvconf_del_invokes_resolvconf_d() {
    let mut r = MockRunner::new();
    resolvconf_del("vpnmux", &mut r).unwrap();
    assert!(r.called("resolvconf -d vpnmux -f"));
}

#[test]
fn removal_from_resolvconf_is_skipped_for_a_shim() {
    for shim in [false, true] {
        let mut r = MockRunner::new();
        let mut conf = file("search foo\n");
        conf.shim = shim;
        remove_injected_resolver(&conf, DnsBackend::Resolvconf, &mut r).unwrap();
        assert_eq!(r.called("resolvconf -d vpnmux -f"), !shim);
    }
}

#[test]
fn managed_backend_is_noop() {
    let mut r = MockRunner::new();
    let conf = ResolvConf {
        path: "".into(),
        text: None,
        symlink: false,
        shim: false,
    };
    assert_eq!(
        ensure_resolver(
            &conf,
            DnsBackend::SystemdResolved,
            Some("10.10.10.1"),
            &mut r
        )
        .unwrap(),
        None
    );
    assert_eq!(
        remove_injected_resolver(&conf, DnsBackend::NetworkManager, &mut r).unwrap(),
        None
    );
    assert!(r.calls().is_empty());
}

#[test]
fn resolvectl_shim_is_detected() {
    assert!(resolvconf_is_resolvectl_shim(
        Some("/usr/bin/resolvconf"),
        Some("/usr/bin/resolvectl")
    ));
    assert!(!resolvconf_is_resolvectl_shim(
        Some("/sbin/resolvconf"),
        Some("/sbin/resolvconf")
    ));
    assert!(!resolvconf_is_resolvectl_shim(
        Some("/sbin/resolvconf"),
        None
    ));
}

#[test]
fn a_trailing_slash_still_names_resolvectl() {
    assert!(resolvconf_is_resolvectl_shim(Some("r"), Some("resolvectl/")));
    assert!(resolvconf_is_resolvectl_shim(Some("r"), Some("a/resolvectl/.")));
    assert!(!resolvconf_is_resolvectl_shim(Some("r"), Some("resolvectl/..")));
    assert!(!resolvconf_is_resolvectl_shim(None, Some("/bin/resolvectl")));
}

#[test]
fn backend_names_read_back() {
    for b in [
        DnsBackend::Static,
        DnsBackend::SystemdResolved,
        DnsBackend::NetworkManager,
        DnsBackend::Resolvconf,
        DnsBackend::Netconfig,
        DnsBackend::OtherManaged,
    ] {
        assert_eq!(DnsBackend::from_str(b.as_str()), b);
    }
    assert_eq!(DnsBackend::from_str("nonsense"), DnsBackend::Static);
}

#[test]
fn addresses_are_told_from_other_text() {
    for s in [
        "0.0.0.0",
        "255.255.255.255",
        "10.64.0.1",
        "::",
        "::1",
        "fe80::1",
        "1:2:3:4:5:6:7:8",
        "2001:db8::ff00:42:8329",
        "::ffff:192.0.2.128",
        "1:2:3:4:5:6:7::",
        "1:2:3:4:5:6:1.2.3.4",
    ] {
        assert!(address(s), "{s}");
    }
    for s in [
        "", "1", "1.2.3", "1.2.3.4.5", "256.1.1.1", "01.2.3.4", "1.2.3.4 ", " ::1", ":", ":::",
        "1::2::3", "1:2:3:4:5:6:7", "1:2:3:4:5:6:7:8:9", "12345::", "g::", "::1.2.3", "1.2.3.4::",
        "fe80::1%eth0", "1:2:3:4:5:6:7:1.2.3.4", "1:2:3:4:5:6:7:8::", "+1.2.3.4",
    ] {
        assert!(!address(s), "{s}");
    }
}

#[test]
fn carriage_returns_go_with_the_line_ending() {
    let mut r = MockRunner::new();
    let filled = inject_nameserver("search a\r\n\r\noptions b\r\r\n", "10.0.0.1");
    assert_eq!(filled, "nameserver 10.0.0.1 # vpnmux\nsearch a\noptions b\r\n");
    let write = remove_injected_resolver(&file(&filled), DnsBackend::Static, &mut r)
        .unwrap()
        .unwrap();
    assert_eq!(write.contents, "search a\noptions b\n");
}

#[test]
fn the_first_obstacle_counts() {
    let gap = file("search foo\n");
    let ns = Some("10.0.0.1");
    assert_eq!(obstacle_to(&gap, DnsBackend::Static, ns), None);
    assert_eq!(
        obstacle_to(&gap, DnsBackend::Netconfig, ns),
        Some(Obstacle::Managed)
    );
    assert_eq!(
        obstacle_to(&file("nameserver 1.1.1.1"), DnsBackend::Static, None),
        Some(Obstacle::Named)
    );
    assert_eq!(
        obstacle_to(&gap, DnsBackend::Static, None),
        Some(Obstacle::NoResolver)
    );
    assert_eq!(
        obstacle_to(&gap, DnsBackend::Static, Some("dns.example")),
        Some(Obstacle::NotAnAddress)
    );
    let mut odd = file("search foo\n");
    odd.symlink = true;
    odd.shim = true;
    assert_eq!(
        obstacle_to(&odd, DnsBackend::Static, ns),
        Some(Obstacle::Symlink)
    );
    assert_eq!(
        obstacle_to(&odd, DnsBackend::Resolvconf, ns),
        Some(Obstacle::Shim)
    );
}
