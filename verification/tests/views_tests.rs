use tailscale_portal::models::service::{ServiceConfig, ServiceEntry};
use tailscale_portal::models::tailscale::{parse_opt_datetime, Device, TailscaleStatus, User};
use tailscale_portal::views::{
    build_device_view, device_ip_text, extract_all_services, group_by_user, owner_name_text,
    service_url, sort_devices, DeviceView, UserGroup,
};

fn svc(host: &str, name: &str, port: Option<u16>, url: Option<&str>) -> ServiceEntry {
    ServiceEntry { host: host.to_string(), name: name.to_string(), port, url: url.map(|u| u.to_string()) }
}

fn dev(host: Option<&str>, uid: Option<i64>, online: Option<bool>, ips: &[&str]) -> Device {
    Device {
        id: None,
        host_name: host.map(|h| h.to_string()),
        os: Some("linux".to_string()),
        ips: if ips.is_empty() { None } else { Some(ips.iter().map(|s| s.to_string()).collect()) },
        user_id: uid,
        online,
        peer_api_url: None,
        last_seen: None,
    }
}

fn user(login: Option<&str>) -> User {
    User { id: None, login_name: login.map(|l| l.to_string()), display_name: None }
}

fn view(host: &str, online: bool, ip: &str) -> DeviceView {
    DeviceView {
        host_name: host.to_string(),
        ip: ip.to_string(),
        os: "linux".to_string(),
        online,
        last_seen: None,
        services: vec![],
        internal_services: vec![],
    }
}

#[test]
fn service_url_prefers_explicit_url() {
    assert_eq!(service_url(&svc("h", "n", Some(80), Some("https://x.example")), "100.1.1.1"), "https://x.example");
    assert_eq!(service_url(&svc("h", "n", Some(8080), None), "100.1.1.1"), "http://100.1.1.1:8080");
    assert_eq!(service_url(&svc("h", "n", None, None), "100.1.1.1"), "http://100.1.1.1");
}

#[test]
fn device_ip_is_first_tailscale_address() {
    assert_eq!(device_ip_text(&dev(None, None, None, &["fd7a::1", "100.64.0.2", "100.64.0.3"])), "100.64.0.2");
    assert_eq!(device_ip_text(&dev(None, None, None, &["fd7a::1"])), "?");
    assert_eq!(device_ip_text(&dev(None, None, None, &[])), "?");
}

#[test]
fn owner_is_looked_up_by_decimal_id() {
    let users = vec![("12".to_string(), user(Some("bob@x"))), ("-7".to_string(), user(None)), ("5".to_string(), user(Some("ann@x")))];
    assert_eq!(owner_name_text(&dev(None, Some(5), None, &[]), &users), "ann@x");
    assert_eq!(owner_name_text(&dev(None, Some(12), None, &[]), &users), "bob@x");
    assert_eq!(owner_name_text(&dev(None, Some(-7), None, &[]), &users), "unknown");
    assert_eq!(owner_name_text(&dev(None, Some(99), None, &[]), &users), "unknown");
    assert_eq!(owner_name_text(&dev(None, None, None, &[]), &users), "unknown");
}

#[test]
fn device_view_fills_defaults_and_services() {
    let cfg = ServiceConfig {
        service: vec![
            svc("nas", "files", Some(5000), None),
            svc("pi", "dns", None, None),
            svc("nas", "media", None, Some("https://media.example")),
            svc("", "orphan", None, None),
        ],
    };
    let mut d = dev(Some("nas"), Some(1), Some(true), &["100.1.2.3"]);
    d.peer_api_url = Some(vec!["http://10.0.0.1:5252".to_string(), "http://100.1.2.3:5252".to_string()]);
    d.last_seen = parse_opt_datetime(Some("2024-01-02T03:04:05Z".to_string())).unwrap();
    let owner = "ann@x".to_string();
    let v = build_device_view(&d, &owner, &cfg);
    assert_eq!(v.host_name, "nas");
    assert_eq!(v.ip, "100.1.2.3");
    assert_eq!(v.os, "linux");
    assert!(v.online);
    assert_eq!(v.last_seen.as_deref(), Some("2024-01-02 03:04:05 UTC"));
    let names: Vec<&str> = v.services.iter().map(|s| s.name.as_str()).collect();
    assert_eq!(names, vec!["files", "media"]);
    assert_eq!(v.services[0].url, "http://100.1.2.3:5000");
    assert_eq!(v.services[1].url, "https://media.example");
    assert!(v.services.iter().all(|s| s.owner == "ann@x"));
    assert_eq!(v.internal_services.len(), 1);
    assert_eq!(v.internal_services[0].name, "Peer API");
    assert_eq!(v.internal_services[0].url, "http://100.1.2.3:5252");

    let mut nameless = dev(None, None, None, &[]);
    nameless.os = None;
    let v = build_device_view(&nameless, &owner, &cfg);
    assert_eq!(v.host_name, "unnamed");
    assert_eq!(v.ip, "?");
    assert_eq!(v.os, "unknown");
    assert!(!v.online);
    assert_eq!(v.last_seen, None);
    let names: Vec<&str> = v.services.iter().map(|s| s.name.as_str()).collect();
    assert_eq!(names, vec!["orphan"]);
    assert_eq!(v.services[0].url, "http://?");
    assert!(v.internal_services.is_empty());
}

#[test]
fn sort_puts_online_first_then_by_host_and_is_stable() {
    let input = vec![
        view("b", false, "1"),
        view("c", true, "2"),
        view("a", false, "3"),
        view("c", true, "4"),
        view("a", true, "5"),
        view("b", false, "6"),
    ];
    let sorted = sort_devices(input);
    let got: Vec<(&str, bool, &str)> = sorted.iter().map(|d| (d.host_name.as_str(), d.online, d.ip.as_str())).collect();
    assert_eq!(
        got,
        vec![("a", true, "5"), ("c", true, "2"), ("c", true, "4"), ("a", false, "3"), ("b", false, "1"), ("b", false, "6")]
    );
}

fn sample_status() -> TailscaleStatus {
    TailscaleStatus {
        self_device: Some(dev(Some("laptop"), Some(1), Some(true), &["100.0.0.1"])),
        peers: Some(vec![
            dev(Some("nas"), Some(2), Some(false), &["100.0.0.2"]),
            dev(Some("pi"), Some(1), Some(true), &["100.0.0.3"]),
            dev(Some("nas"), Some(3), Some(true), &["100.0.0.4"]),
            dev(Some("alpha"), Some(1), Some(false), &["100.0.0.5"]),
            dev(Some("ghost"), Some(42), Some(true), &[]),
        ]),
        users: Some(vec![
            ("1".to_string(), user(Some("ann@x"))),
            ("2".to_string(), user(Some("bob@x"))),
            ("3".to_string(), user(Some("cat@x"))),
        ]),
    }
}

fn sample_config() -> ServiceConfig {
    ServiceConfig {
        service: vec![
            svc("nas", "files", Some(5000), None),
            svc("pi", "dns", None, None),
            svc("laptop", "dev", Some(3000), Some("http://laptop.example:3000")),
            svc("alpha", "old", None, None),
            svc("missing", "none", None, None),
        ],
    }
}

#[test]
fn grouping_by_user() {
    let groups = group_by_user(&sample_status(), &sample_config());
    let owners: Vec<&str> = groups.iter().map(|g| g.owner.as_str()).collect();
    assert_eq!(owners, vec!["ann@x", "bob@x", "cat@x", "unknown"]);
    let hosts: Vec<Vec<&str>> = groups.iter().map(|g| g.devices.iter().map(|d| d.host_name.as_str()).collect()).collect();
    assert_eq!(hosts, vec![vec!["laptop", "pi", "alpha"], vec!["nas"], vec!["nas"], vec!["ghost"]]);
    let total: usize = groups.iter().map(|g| g.devices.len()).sum();
    assert_eq!(total, 6);
    for g in groups.iter() {
        for d in g.devices.iter() {
            assert!(d.services.iter().all(|s| s.owner == g.owner));
        }
    }
    assert_eq!(groups[1].devices[0].services[0].url, "http://100.0.0.2:5000");
    assert_eq!(groups[3].devices[0].ip, "?");
}

#[test]
fn grouping_without_users_is_empty() {
    let mut status = sample_status();
    status.users = None;
    assert!(group_by_user(&status, &sample_config()).is_empty());
}

#[test]
fn quick_services_use_first_group_with_the_host() {
    let groups = group_by_user(&sample_status(), &sample_config());
    let quick = extract_all_services(&groups, &sample_config());
    let got: Vec<(&str, &str, &str)> = quick.iter().map(|s| (s.name.as_str(), s.owner.as_str(), s.url.as_str())).collect();
    // "nas" is first found in bob's group, where it is offline, so "files" is not listed
    // even though cat's "nas" is online; "alpha" is offline; "missing" has no device.
    assert_eq!(got, vec![("dns", "ann@x", "http://100.0.0.3"), ("dev", "ann@x", "http://laptop.example:3000")]);
}

#[test]
fn quick_services_of_online_host() {
    let groups = vec![UserGroup { owner: "ann@x".to_string(), devices: vec![view("nas", false, "100.9.9.8"), view("nas", true, "100.9.9.9")] }];
    let cfg = ServiceConfig { service: vec![svc("nas", "files", Some(5000), None)] };
    let quick = extract_all_services(&groups, &cfg);
    assert_eq!(quick.len(), 1);
    assert_eq!(quick[0].url, "http://100.9.9.9:5000");
    assert_eq!(quick[0].owner, "ann@x");
}

#[test]
fn sorting_a_sorted_group_changes_nothing() {
    let input = vec![view("b", false, "1"), view("a", true, "2"), view("b", false, "3"), view("a", true, "4")];
    let once = sort_devices(input);
    let order: Vec<String> = once.iter().map(|d| d.ip.clone()).collect();
    let twice = sort_devices(once);
    let again: Vec<String> = twice.iter().map(|d| d.ip.clone()).collect();
    assert_eq!(order, vec!["2", "4", "1", "3"]);
    assert_eq!(order, again);
}
