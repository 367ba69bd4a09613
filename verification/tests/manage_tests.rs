use tailscale_portal::manage::{add_service, available_hosts, remove_service, ManageError};
use tailscale_portal::models::service::{
    new_service_entry, AddServiceForm, RemoveServiceForm, ServiceConfig, ServiceEntry,
};
use tailscale_portal::models::tailscale::{Device, TailscaleStatus};

fn entry(host: &str, name: &str) -> ServiceEntry {
    ServiceEntry { host: host.to_string(), name: name.to_string(), port: None, url: None }
}

fn form(host: &str, name: &str, port: u16, url: &str) -> AddServiceForm {
    AddServiceForm { host: host.to_string(), name: name.to_string(), port, url: url.to_string() }
}

fn device(host: Option<&str>, online: Option<bool>) -> Device {
    Device {
        id: None,
        host_name: host.map(|h| h.to_string()),
        os: None,
        ips: None,
        user_id: None,
        online,
        peer_api_url: None,
        last_seen: None,
    }
}

#[test]
fn form_without_port_or_url_gives_neither() {
    let e = new_service_entry(form("nas", "files", 0, ""));
    assert_eq!(e.host, "nas");
    assert_eq!(e.name, "files");
    assert_eq!(e.port, None);
    assert_eq!(e.url, None);
}

#[test]
fn form_with_port_and_url_keeps_both() {
    let e = new_service_entry(form("nas", "files", 8080, "https://files.example"));
    assert_eq!(e.port, Some(8080));
    assert_eq!(e.url.as_deref(), Some("https://files.example"));
}

#[test]
fn add_service_appends() {
    let mut config = ServiceConfig { service: vec![entry("a", "one")] };
    add_service(&mut config, form("b", "two", 3000, ""));
    assert_eq!(config.service.len(), 2);
    assert_eq!(config.service[0].name, "one");
    assert_eq!(config.service[1].name, "two");
    assert_eq!(config.service[1].port, Some(3000));
}

#[test]
fn remove_service_removes_at_index() {
    let mut config = ServiceConfig { service: vec![entry("a", "one"), entry("b", "two"), entry("c", "three")] };
    assert!(remove_service(&mut config, &RemoveServiceForm { index: 1 }).is_ok());
    let names: Vec<&str> = config.service.iter().map(|e| e.name.as_str()).collect();
    assert_eq!(names, vec!["one", "three"]);
}

#[test]
fn remove_service_refuses_index_past_end() {
    let mut config = ServiceConfig { service: vec![entry("a", "one")] };
    let r = remove_service(&mut config, &RemoveServiceForm { index: 1 });
    assert!(matches!(r, Err(ManageError::InvalidServiceIndex)));
    assert_eq!(config.service.len(), 1);
}

#[test]
fn removing_what_was_added_restores_the_list() {
    let mut config = ServiceConfig { service: vec![entry("a", "one"), entry("b", "two")] };
    add_service(&mut config, form("c", "three", 0, ""));
    let last = config.service.len() - 1;
    assert!(remove_service(&mut config, &RemoveServiceForm { index: last }).is_ok());
    let names: Vec<&str> = config.service.iter().map(|e| e.name.as_str()).collect();
    assert_eq!(names, vec!["one", "two"]);
}

#[test]
fn available_hosts_are_sorted_and_unique() {
    let status = TailscaleStatus {
        self_device: Some(device(Some("zeta"), Some(false))),
        peers: Some(vec![
            device(Some("beta"), Some(true)),
            device(Some("alpha"), Some(true)),
            device(Some("beta"), Some(true)),
            device(Some("gamma"), Some(false)),
            device(Some("delta"), None),
            device(None, Some(true)),
            device(Some("zeta"), Some(true)),
        ]),
        users: None,
    };
    let hosts = available_hosts(&status);
    assert_eq!(hosts, vec!["alpha".to_string(), "beta".to_string(), "zeta".to_string()]);
}

#[test]
fn available_hosts_of_empty_status() {
    let status = TailscaleStatus { self_device: None, peers: None, users: None };
    assert!(available_hosts(&status).is_empty());
}
