//! What the portal shows: the devices of each user with the services they
//! run, and the quick list of services that can be reached now.
use vstd::prelude::*;
use crate::models::service::{ServiceConfig, ServiceEntry, ServiceEntryModel};
use crate::models::tailscale::{
    device_models, user_models, utc_display_text, Device, DeviceModel, TailscaleStatus,
    TailscaleStatusModel, User, UserModel,
};
use crate::text::{
    decimal, has_prefix, is_text_less, lemma_text_less_asymmetric, lemma_text_less_irreflexive,
    lemma_text_less_total, lemma_text_less_transitive, push_decimal, signed_decimal,
    signed_decimal_text, starts_with, strictly_ascending, text_less,
};

verus! {

/// A service as the portal lists it.
#[derive(Debug)]
pub struct ServiceView {
    pub name: String,
    pub owner: String,
    pub url: String,
}

/// What a `ServiceView` holds, as mathematical values.
pub struct ServiceViewModel {
    pub name: Seq<char>,
    pub owner: Seq<char>,
    pub url: Seq<char>,
}

impl View for ServiceView {
    type V = ServiceViewModel;

    open spec fn view(&self) -> ServiceViewModel {
        ServiceViewModel { name: self.name@, owner: self.owner@, url: self.url@ }
    }
}

/// The models of a sequence of service views.
pub open spec fn service_view_models(services: Seq<ServiceView>) -> Seq<ServiceViewModel> {
    services.map_values(|s: ServiceView| s@)
}

/// A device as the portal lists it.
#[derive(Debug)]
pub struct DeviceView {
    pub host_name: String,
    pub ip: String,
    pub os: String,
    pub online: bool,
    pub last_seen: Option<String>,
    pub services: Vec<ServiceView>,
    pub internal_services: Vec<ServiceView>,
}

/// What a `DeviceView` holds, as mathematical values.
pub struct DeviceViewModel {
    pub host_name: Seq<char>,
    pub ip: Seq<char>,
    pub os: Seq<char>,
    pub online: bool,
    pub last_seen: Option<Seq<char>>,
    pub services: Seq<ServiceViewModel>,
    pub internal_services: Seq<ServiceViewModel>,
}

impl View for DeviceView {
    type V = DeviceViewModel;

    open spec fn view(&self) -> DeviceViewModel {
        DeviceViewModel {
            host_name: self.host_name@,
            ip: self.ip@,
            os: self.os@,
            online: self.online,
            last_seen: self.last_seen.deep_view(),
            services: service_view_models(self.services@),
            internal_services: service_view_models(self.internal_services@),
        }
    }
}

/// The models of a sequence of device views.
pub open spec fn device_view_models(devices: Seq<DeviceView>) -> Seq<DeviceViewModel> {
    devices.map_values(|d: DeviceView| d@)
}

/// The devices of one user.
#[derive(Debug)]
pub struct UserGroup {
    pub owner: String,
    pub devices: Vec<DeviceView>,
}

/// What a `UserGroup` holds, as mathematical values.
pub struct UserGroupModel {
    pub owner: Seq<char>,
    pub devices: Seq<DeviceViewModel>,
}

impl View for UserGroup {
    type V = UserGroupModel;

    open spec fn view(&self) -> UserGroupModel {
        UserGroupModel { owner: self.owner@, devices: device_view_models(self.devices@) }
    }
}

/// The models of a sequence of groups.
pub open spec fn group_models(groups: Seq<UserGroup>) -> Seq<UserGroupModel> {
    groups.map_values(|g: UserGroup| g@)
}

/// The first item that starts with `prefix`.
pub open spec fn first_with_prefix(items: Seq<Seq<char>>, prefix: Seq<char>) -> Option<Seq<char>>
    decreases items.len(),
{
    if items.len() == 0 {
        None
    } else if has_prefix(items[0], prefix) {
        Some(items[0])
    } else {
        first_with_prefix(items.drop_first(), prefix)
    }
}

/// The position of the first item that starts with `prefix`.
fn find_with_prefix(items: &Vec<String>, prefix: &str) -> (r: Option<usize>)
    ensures
        match r {
            Some(i) => i < items.len() && first_with_prefix(items.deep_view(), prefix@) == Some(
                items[i as int]@,
            ),
            None => first_with_prefix(items.deep_view(), prefix@) is None,
        },
{
    let ghost all = items.deep_view();
    let mut i: usize = 0;
    assert(all.skip(0) =~= all);
    while i < items.len()
        invariant
            i <= items.len(),
            all == items.deep_view(),
            first_with_prefix(all, prefix@) == first_with_prefix(all.skip(i as int), prefix@),
        decreases items.len() - i,
    {
        assert(all.skip(i as int)[0] == items[i as int]@);
        if starts_with(items[i].as_str(), prefix) {
            return Some(i);
        }
        assert(all.skip(i as int).drop_first() =~= all.skip(i + 1));
        i = i + 1;
    }
    assert(all.skip(i as int).len() == 0);
    None
}

/// The address of a device that the portal shows: its first Tailscale
/// address (one that starts with `100.`), or `?`.
pub open spec fn device_ip(dev: DeviceModel) -> Seq<char> {
    match dev.ips {
        Some(ips) => match first_with_prefix(ips, "100."@) {
            Some(ip) => ip,
            None => "?"@,
        },
        None => "?"@,
    }
}

/// Works out the address that the portal shows for a device.
pub fn device_ip_text(dev: &Device) -> (r: String)
    ensures
        r@ == device_ip(dev@),
{
    proof {
        reveal_strlit("?");
    }
    match &dev.ips {
        Some(ips) => match find_with_prefix(ips, "100.") {
            Some(i) => ips[i].clone(),
            None => String::from_str("?"),
        },
        None => String::from_str("?"),
    }
}

/// The address of a service: its own URL, else `http://` and the address of
/// its host, with `:` and the port when there is one.
pub open spec fn url_of_service(entry: ServiceEntryModel, ip: Seq<char>) -> Seq<char> {
    match entry.url {
        Some(u) => u,
        None => match entry.port {
            Some(port) => "http://"@ + ip + ":"@ + decimal(port as nat),
            None => "http://"@ + ip,
        },
    }
}

/// Works out the address of a service on a host with address `ip`.
pub fn service_url(entry: &ServiceEntry, ip: &str) -> (r: String)
    ensures
        r@ == url_of_service(entry@, ip@),
{
    match &entry.url {
        Some(u) => u.clone(),
        None => {
            let mut out = String::from_str("http://");
            out.append(ip);
            match entry.port {
                Some(port) => {
                    out.append(":");
                    push_decimal(&mut out, port as u64);
                },
                None => {},
            }
            out
        },
    }
}


/// The user under the first entry with `key`.
pub open spec fn lookup_user(users: Seq<(Seq<char>, UserModel)>, key: Seq<char>) -> Option<UserModel>
    decreases users.len(),
{
    if users.len() == 0 {
        None
    } else if users[0].0 == key {
        Some(users[0].1)
    } else {
        lookup_user(users.drop_first(), key)
    }
}

fn find_user<'a>(users: &'a Vec<(String, User)>, key: &String) -> (r: Option<&'a User>)
    ensures
        match r {
            Some(u) => lookup_user(user_models(users@), key@) == Some(u@),
            None => lookup_user(user_models(users@), key@) is None,
        },
{
    let ghost all = user_models(users@);
    let mut i: usize = 0;
    assert(all.skip(0) =~= all);
    while i < users.len()
        invariant
            i <= users.len(),
            all == user_models(users@),
            lookup_user(all, key@) == lookup_user(all.skip(i as int), key@),
        decreases users.len() - i,
    {
        assert(all.skip(i as int)[0] == (users[i as int].0@, users[i as int].1@));
        if users[i].0 == *key {
            return Some(&users[i].1);
        }
        assert(all.skip(i as int).drop_first() =~= all.skip(i + 1));
        i = i + 1;
    }
    assert(all.skip(i as int).len() == 0);
    None
}

/// The name under which a device is grouped: the login name of the user
/// whose entry has the decimal text of the device's user id as key, or
/// `unknown`.
pub open spec fn owner_name(dev: DeviceModel, users: Seq<(Seq<char>, UserModel)>) -> Seq<char> {
    match dev.user_id {
        Some(uid) => match lookup_user(users, signed_decimal(uid as int)) {
            Some(u) => match u.login_name {
                Some(name) => name,
                None => "unknown"@,
            },
            None => "unknown"@,
        },
        None => "unknown"@,
    }
}

/// Works out the name under which a device is grouped.
pub fn owner_name_text(dev: &Device, users: &Vec<(String, User)>) -> (r: String)
    ensures
        r@ == owner_name(dev@, user_models(users@)),
{
    match dev.user_id {
        Some(uid) => {
            let key = signed_decimal_text(uid);
            match find_user(users, &key) {
                Some(u) => match &u.login_name {
                    Some(name) => name.clone(),
                    None => String::from_str("unknown"),
                },
                None => String::from_str("unknown"),
            }
        },
        None => String::from_str("unknown"),
    }
}

/// The services of the list that run on `host`, in the order of the list,
/// as the portal shows them for a device of `owner` with address `ip`.
pub open spec fn host_services(
    entries: Seq<ServiceEntryModel>,
    host: Seq<char>,
    owner: Seq<char>,
    ip: Seq<char>,
) -> Seq<ServiceViewModel>
    decreases entries.len(),
{
    if entries.len() == 0 {
        Seq::empty()
    } else {
        let before = host_services(entries.drop_last(), host, owner, ip);
        let e = entries.last();
        if e.host == host {
            before.push(ServiceViewModel { name: e.name, owner, url: url_of_service(e, ip) })
        } else {
            before
        }
    }
}

fn host_service_views(cfg: &ServiceConfig, host: &str, owner: &String, ip: &str) -> (r: Vec<ServiceView>)
    ensures
        service_view_models(r@) == host_services(cfg@, host@, owner@, ip@),
{
    let mut out: Vec<ServiceView> = Vec::new();
    let mut i: usize = 0;
    while i < cfg.service.len()
        invariant
            i <= cfg.service.len(),
            service_view_models(out@) == host_services(cfg@.take(i as int), host@, owner@, ip@),
        decreases cfg.service.len() - i,
    {
        let e = &cfg.service[i];
        assert(cfg@.take(i + 1).drop_last() =~= cfg@.take(i as int));
        assert(cfg@.take(i + 1).last() == e@);
        if e.host.as_str().unicode_len() == host.unicode_len() && starts_with(e.host.as_str(), host) {
            assert(e.host@ =~= host@);
            let v = ServiceView { name: e.name.clone(), owner: owner.clone(), url: service_url(e, ip) };
            out.push(v);
            assert(service_view_models(out@) =~= host_services(cfg@.take(i + 1), host@, owner@, ip@));
        } else {
            assert(e.host@.subrange(0, e.host@.len() as int) =~= e.host@);
            assert(e.host@ != host@);
        }
        i = i + 1;
    }
    assert(cfg@.take(i as int) =~= cfg@);
    out
}

/// The internal utilities of a device: its peer API, at its first URL that
/// starts with `http://100.`, when it has one.
pub open spec fn internal_services(dev: DeviceModel, owner: Seq<char>) -> Seq<ServiceViewModel> {
    match dev.peer_api_url {
        Some(urls) => match first_with_prefix(urls, "http://100."@) {
            Some(u) => seq![ServiceViewModel { name: "Peer API"@, owner, url: u }],
            None => Seq::empty(),
        },
        None => Seq::empty(),
    }
}

fn internal_service_views(dev: &Device, owner: &String) -> (r: Vec<ServiceView>)
    ensures
        service_view_models(r@) == internal_services(dev@, owner@),
{
    let mut out: Vec<ServiceView> = Vec::new();
    if let Some(urls) = &dev.peer_api_url {
        if let Some(i) = find_with_prefix(urls, "http://100.") {
            out.push(ServiceView { name: String::from_str("Peer API"), owner: owner.clone(), url: urls[i].clone() });
        }
    }
    assert(service_view_models(out@) =~= internal_services(dev@, owner@));
    out
}

/// How the portal shows a device of `owner`, given the configured services.
pub open spec fn device_view(dev: DeviceModel, owner: Seq<char>, entries: Seq<ServiceEntryModel>) -> DeviceViewModel {
    DeviceViewModel {
        host_name: match dev.host_name {
            Some(h) => h,
            None => "unnamed"@,
        },
        ip: device_ip(dev),
        os: match dev.os {
            Some(os) => os,
            None => "unknown"@,
        },
        online: match dev.online {
            Some(b) => b,
            None => false,
        },
        last_seen: match dev.last_seen {
            Some(t) => utc_display_text(t.0, t.1),
            None => None,
        },
        services: host_services(
            entries,
            match dev.host_name {
                Some(h) => h,
                None => Seq::empty(),
            },
            owner,
            device_ip(dev),
        ),
        internal_services: internal_services(dev, owner),
    }
}

/// Builds the view of a device of `owner`.
pub fn build_device_view(dev: &Device, owner: &String, cfg: &ServiceConfig) -> (r: DeviceView)
    ensures
        r@ == device_view(dev@, owner@, cfg@),
{
    let ip = device_ip_text(dev);
    let services = match &dev.host_name {
        Some(h) => host_service_views(cfg, h.as_str(), owner, ip.as_str()),
        None => {
            let empty = String::new();
            host_service_views(cfg, empty.as_str(), owner, ip.as_str())
        },
    };
    let internal = internal_service_views(dev, owner);
    let host_name = match &dev.host_name {
        Some(h) => h.clone(),
        None => String::from_str("unnamed"),
    };
    let os = match &dev.os {
        Some(o) => o.clone(),
        None => String::from_str("unknown"),
    };
    let online = match dev.online {
        Some(b) => b,
        None => false,
    };
    let last_seen = match &dev.last_seen {
        Some(t) => Some(t.display()),
        None => None,
    };
    let r = DeviceView { host_name, ip, os, online, last_seen, services, internal_services: internal };
    assert(r@ =~= device_view(dev@, owner@, cfg@));
    r
}


/// `a` is listed before `b`: online devices first, then by host name.
pub open spec fn shown_before(a: DeviceViewModel, b: DeviceViewModel) -> bool {
    (a.online && !b.online) || (a.online == b.online && text_less(a.host_name, b.host_name))
}

/// `a` and `b` take the same place in the order.
pub open spec fn same_rank(a: DeviceViewModel, b: DeviceViewModel) -> bool {
    a.online == b.online && a.host_name == b.host_name
}

/// No device is listed after one that should come after it.
pub open spec fn in_portal_order(s: Seq<DeviceViewModel>) -> bool {
    forall|j: int, k: int| 0 <= j < k < s.len() ==> !shown_before(s[k], s[j])
}

/// `output[i]` is `input[p[i]]`, `p` takes each position once, and devices
/// of the same rank keep their relative order.
pub open spec fn stable_arrangement(
    input: Seq<DeviceViewModel>,
    output: Seq<DeviceViewModel>,
    p: Seq<int>,
) -> bool {
    &&& output.len() == input.len()
    &&& p.len() == output.len()
    &&& forall|i: int| 0 <= i < p.len() ==> 0 <= #[trigger] p[i] < input.len() && output[i] == input[p[i]]
    &&& forall|i: int, j: int| 0 <= i < j < p.len() ==> p[i] != p[j]
    &&& forall|i: int, j: int|
        0 <= i < j < p.len() && same_rank(output[i], output[j]) ==> p[i] < p[j]
}

/// `output` is `input` sorted into the portal's order by a stable sort.
pub open spec fn is_stable_sort(input: Seq<DeviceViewModel>, output: Seq<DeviceViewModel>) -> bool {
    &&& in_portal_order(output)
    &&& exists|p: Seq<int>| stable_arrangement(input, output, p)
}

proof fn lemma_shown_before_asymmetric(a: DeviceViewModel, b: DeviceViewModel)
    requires
        shown_before(a, b),
    ensures
        !shown_before(b, a),
        !same_rank(a, b),
{
    if a.online == b.online {
        lemma_text_less_asymmetric(a.host_name, b.host_name);
        lemma_text_less_irreflexive(a.host_name);
    }
}

proof fn lemma_shown_before_mixed(d: DeviceViewModel, x: DeviceViewModel, y: DeviceViewModel)
    requires
        shown_before(d, x),
        !shown_before(y, x),
    ensures
        shown_before(d, y),
{
    if d.online == x.online && x.online == y.online {
        if y.host_name != x.host_name {
            lemma_text_less_total(y.host_name, x.host_name);
            lemma_text_less_transitive(d.host_name, x.host_name, y.host_name);
        }
    }
}

fn is_shown_before(a: &DeviceView, b: &DeviceView) -> (r: bool)
    ensures
        r == shown_before(a@, b@),
{
    (a.online && !b.online) || (a.online == b.online && is_text_less(a.host_name.as_str(), b.host_name.as_str()))
}

proof fn lemma_insert_step(
    input: Seq<DeviceViewModel>,
    om: Seq<DeviceViewModel>,
    p: Seq<int>,
    done: int,
    k: int,
)
    requires
        0 <= done < input.len(),
        p.len() == om.len() == done,
        0 <= k <= done,
        forall|i: int| 0 <= i < done ==> 0 <= #[trigger] p[i] < done && om[i] == input[p[i]],
        forall|i: int, j: int| 0 <= i < j < done ==> p[i] != p[j],
        forall|i: int, j: int| 0 <= i < j < done && same_rank(om[i], om[j]) ==> p[i] < p[j],
        in_portal_order(om),
        forall|j: int| 0 <= j < k ==> !shown_before(input[done], #[trigger] om[j]),
        k < done ==> shown_before(input[done], om[k]),
    ensures
        ({
            let om2 = om.insert(k, input[done]);
            let p2 = p.insert(k, done);
            &&& p2.len() == om2.len() == done + 1
            &&& forall|i: int| 0 <= i < done + 1 ==> 0 <= #[trigger] p2[i] < done + 1 && om2[i] == input[p2[i]]
            &&& forall|i: int, j: int| 0 <= i < j < done + 1 ==> p2[i] != p2[j]
            &&& forall|i: int, j: int| 0 <= i < j < done + 1 && same_rank(om2[i], om2[j]) ==> p2[i] < p2[j]
            &&& in_portal_order(om2)
        }),
{
    let x = input[done];
    let om2 = om.insert(k, x);
    let p2 = p.insert(k, done);
    assert forall|j: int| k <= j < done implies shown_before(x, #[trigger] om[j]) by {
        if j > k {
            lemma_shown_before_mixed(x, om[k], om[j]);
        }
    }
    assert forall|i: int| 0 <= i < done + 1 implies (i < k ==> om2[i] == om[i] && p2[i] == p[i]) && (i
        == k ==> om2[i] == x && p2[i] == done) && (i > k ==> om2[i] == om[i - 1] && p2[i] == p[i
        - 1]) by {}
    assert forall|i: int, j: int| 0 <= i < j < done + 1 && same_rank(om2[i], om2[j]) implies p2[i] < p2[j] by {
        if j == k {
            assert(p2[i] == p[i]);
        } else if i == k {
            assert(shown_before(x, om[j - 1]));
            lemma_shown_before_asymmetric(x, om[j - 1]);
        } else {
            let a = if i < k { i } else { i - 1 };
            let b = if j < k { j } else { j - 1 };
            assert(a < b);
            assert(same_rank(om[a], om[b]));
        }
    }
    assert forall|i: int, j: int| 0 <= i < j < done + 1 implies !shown_before(om2[j], om2[i]) by {
        if j == k {
            assert(!shown_before(x, om[i]));
        } else if i == k {
            lemma_shown_before_asymmetric(x, om[j - 1]);
        } else {
            let a = if i < k { i } else { i - 1 };
            let b = if j < k { j } else { j - 1 };
            assert(a < b);
        }
    }
    assert forall|i: int, j: int| 0 <= i < j < done + 1 implies p2[i] != p2[j] by {
        if i != k && j != k {
            let a = if i < k { i } else { i - 1 };
            let b = if j < k { j } else { j - 1 };
            assert(a < b);
        }
    }
}

/// Sorts devices into the portal's order (online first, then by host name),
/// keeping devices of the same rank in the order they came in.
pub fn sort_devices(devices: Vec<DeviceView>) -> (r: Vec<DeviceView>)
    ensures
        is_stable_sort(device_view_models(devices@), device_view_models(r@)),
{
    let ghost input = device_view_models(devices@);
    let mut rest = devices;
    let mut out: Vec<DeviceView> = Vec::new();
    let ghost mut p: Seq<int> = Seq::empty();
    let ghost mut done: int = 0;
    assert(input.skip(0) =~= input);
    while rest.len() > 0
        invariant
            0 <= done <= input.len(),
            done + rest.len() == input.len(),
            device_view_models(rest@) == input.skip(done),
            p.len() == out.len() == done,
            forall|i: int| 0 <= i < done ==> 0 <= #[trigger] p[i] < done && device_view_models(out@)[i] == input[p[i]],
            forall|i: int, j: int| 0 <= i < j < done ==> p[i] != p[j],
            forall|i: int, j: int|
                0 <= i < j < done && same_rank(device_view_models(out@)[i], device_view_models(out@)[j]) ==> p[i] < p[j],
            in_portal_order(device_view_models(out@)),
        decreases rest.len(),
    {
        let ghost om = device_view_models(out@);
        assert(input.skip(done)[0] == input[done]);
        let ghost before = rest@;
        let d = rest.remove(0);
        assert(d@ == input[done]);
        assert(rest@ =~= before.subrange(1, before.len() as int));
        assert forall|i: int| 0 <= i < rest@.len() implies device_view_models(rest@)[i] == input.skip(done + 1)[i] by {
            assert(rest@[i] == before[i + 1]);
            assert(device_view_models(before)[i + 1] == before[i + 1]@);
            assert(input.skip(done)[i + 1] == input[done + 1 + i]);
        }
        assert(device_view_models(rest@) =~= input.skip(done + 1));
        let mut k: usize = 0;
        while k < out.len() && !is_shown_before(&d, &out[k])
            invariant
                k <= out.len(),
                om == device_view_models(out@),
                forall|j: int| 0 <= j < k ==> !shown_before(d@, #[trigger] om[j]),
            decreases out.len() - k,
        {
            k = k + 1;
        }
        proof {
            lemma_insert_step(input, om, p, done, k as int);
        }
        out.insert(k, d);
        assert(device_view_models(out@) =~= om.insert(k as int, input[done]));
        proof {
            p = p.insert(k as int, done);
            done = done + 1;
        }
    }
    assert(stable_arrangement(input, device_view_models(out@), p));
    out
}


/// The devices of the tailnet in the order the portal takes them: this
/// device first, then the peers.
pub open spec fn device_list(status: TailscaleStatusModel) -> Seq<DeviceModel> {
    (match status.self_device {
        Some(d) => seq![d],
        None => Seq::empty(),
    }) + (match status.peers {
        Some(peers) => peers,
        None => Seq::empty(),
    })
}

/// Each device of the list with the name of its owner and its view; none
/// when the status lists no users.
pub open spec fn owned_views(status: TailscaleStatusModel, entries: Seq<ServiceEntryModel>) -> Seq<
    (Seq<char>, DeviceViewModel),
> {
    match status.users {
        Some(users) => device_list(status).map_values(
            |d: DeviceModel|
                (owner_name(d, users), device_view(d, owner_name(d, users), entries)),
        ),
        None => Seq::empty(),
    }
}

/// The views of the devices of `owner`, in the order they came in.
pub open spec fn members(views: Seq<(Seq<char>, DeviceViewModel)>, owner: Seq<char>) -> Seq<
    DeviceViewModel,
>
    decreases views.len(),
{
    if views.len() == 0 {
        Seq::empty()
    } else if views.last().0 == owner {
        members(views.drop_last(), owner).push(views.last().1)
    } else {
        members(views.drop_last(), owner)
    }
}

/// Some device belongs to `owner`.
pub open spec fn has_owner(views: Seq<(Seq<char>, DeviceViewModel)>, owner: Seq<char>) -> bool {
    exists|j: int| 0 <= j < views.len() && #[trigger] views[j].0 == owner
}

/// The owners of a sequence of groups.
pub open spec fn group_owners(groups: Seq<UserGroupModel>) -> Seq<Seq<char>> {
    groups.map_values(|g: UserGroupModel| g.owner)
}

/// The groups hold the devices of each owner, once per owner, in ascending
/// order of owners.
pub open spec fn groups_match(groups: Seq<UserGroupModel>, views: Seq<(Seq<char>, DeviceViewModel)>) -> bool {
    &&& strictly_ascending(group_owners(groups))
    &&& forall|i: int| 0 <= i < groups.len() ==> #[trigger] groups[i].devices == members(views, groups[i].owner)
    &&& forall|o: Seq<char>| group_owners(groups).contains(o) <==> has_owner(views, o)
}

proof fn lemma_members_push(views: Seq<(Seq<char>, DeviceViewModel)>, x: (Seq<char>, DeviceViewModel), o: Seq<char>)
    ensures
        members(views.push(x), o) == (if x.0 == o {
            members(views, o).push(x.1)
        } else {
            members(views, o)
        }),
        has_owner(views.push(x), o) <==> (has_owner(views, o) || x.0 == o),
{
    assert(views.push(x).drop_last() =~= views);
    if has_owner(views.push(x), o) {
        let j = choose|j: int| 0 <= j < views.push(x).len() && #[trigger] views.push(x)[j].0 == o;
        if j < views.len() {
            assert(views[j].0 == o);
        }
    }
    if has_owner(views, o) {
        let j = choose|j: int| 0 <= j < views.len() && #[trigger] views[j].0 == o;
        assert(views.push(x)[j].0 == o);
    }
    if x.0 == o {
        assert(views.push(x)[views.len() as int].0 == o);
    }
}

proof fn lemma_members_absent(views: Seq<(Seq<char>, DeviceViewModel)>, o: Seq<char>)
    requires
        !has_owner(views, o),
    ensures
        members(views, o) == Seq::<DeviceViewModel>::empty(),
    decreases views.len(),
{
    if views.len() > 0 {
        assert(views.last().0 != o) by {
            if views.last().0 == o {
                assert(views[views.len() - 1].0 == o);
            }
        }
        assert forall|j: int| 0 <= j < views.drop_last().len() implies #[trigger] views.drop_last()[j].0 != o by {
            assert(views[j].0 != o);
        }
        lemma_members_absent(views.drop_last(), o);
    }
}

/// Adds the view of a device of `owner` to the groups.
fn add_to_groups(
    groups: &mut Vec<UserGroup>,
    owner: String,
    view: DeviceView,
    Ghost(views): Ghost<Seq<(Seq<char>, DeviceViewModel)>>,
)
    requires
        groups_match(group_models(old(groups)@), views),
    ensures
        groups_match(group_models(final(groups)@), views.push((owner@, view@))),
{
    let ghost gm = group_models(groups@);
    let ghost x = (owner@, view@);
    let ghost views2 = views.push(x);
    let mut i: usize = 0;
    while i < groups.len() && is_text_less(groups[i].owner.as_str(), owner.as_str())
        invariant
            i <= groups.len(),
            gm == group_models(groups@),
            forall|j: int| 0 <= j < i ==> text_less(#[trigger] gm[j].owner, owner@),
        decreases groups.len() - i,
    {
        i = i + 1;
    }
    if i < groups.len() && groups[i].owner == owner {
        let mut g = groups.remove(i);
        g.devices.push(view);
        groups.insert(i, g);
        proof {
            let gm2 = group_models(groups@);
            assert(gm2.len() == gm.len());
            assert forall|j: int| 0 <= j < gm.len() implies #[trigger] gm2[j].owner == gm[j].owner && (j != i ==> gm2[j].devices == gm[j].devices) by {}
            assert(gm2[i as int].devices =~= gm[i as int].devices.push(view@));
            assert(group_owners(gm2) =~= group_owners(gm));
            assert forall|j: int| 0 <= j < gm2.len() implies #[trigger] gm2[j].devices == members(views2, gm2[j].owner) by {
                lemma_members_push(views, x, gm2[j].owner);
                if j != i {
                    assert(gm[j].owner != owner@) by {
                        if gm[j].owner == owner@ {
                            assert(group_owners(gm)[i as int] == gm[i as int].owner);
                            assert(group_owners(gm)[j] == gm[j].owner);
                            if j < i {
                                assert(text_less(gm[j].owner, gm[i as int].owner));
                            } else {
                                assert(text_less(gm[i as int].owner, gm[j].owner));
                            }
                            lemma_text_less_irreflexive(owner@);
                        }
                    }
                }
            }
            assert forall|o: Seq<char>| group_owners(gm2).contains(o) <==> has_owner(views2, o) by {
                lemma_members_push(views, x, o);
                if o == owner@ {
                    assert(group_owners(gm)[i as int] == o);
                }
            }
        }
    } else {
        proof {
            if i < groups.len() {
                lemma_text_less_total(gm[i as int].owner, owner@);
            }
        }
        let mut devs: Vec<DeviceView> = Vec::new();
        devs.push(view);
        groups.insert(i, UserGroup { owner, devices: devs });
        proof {
            let gm2 = group_models(groups@);
            let owners = group_owners(gm);
            let owners2 = group_owners(gm2);
            assert(gm2 =~= gm.insert(i as int, gm2[i as int]));
            assert(owners2 =~= owners.insert(i as int, owner@));
            assert forall|j: int| 0 <= j < owners.len() implies owners[j] != owner@ by {
                if j < i {
                    lemma_text_less_irreflexive(owner@);
                } else {
                    if j > i {
                        lemma_text_less_transitive(owner@, owners[i as int], owners[j]);
                    }
                    lemma_text_less_irreflexive(owner@);
                }
            }
            assert(!owners.contains(owner@));
            assert(!has_owner(views, owner@));
            lemma_members_absent(views, owner@);
            lemma_members_push(views, x, owner@);
            assert(gm2[i as int].devices =~= seq![view@]);
            assert forall|j: int, k: int| 0 <= j < k < owners2.len() implies text_less(owners2[j], owners2[k]) by {
                if k == i {
                } else if j == i {
                    if k - 1 > i {
                        lemma_text_less_transitive(owner@, owners[i as int], owners[k - 1]);
                    }
                } else {
                    let a = if j < i { j } else { j - 1 };
                    let b = if k < i { k } else { k - 1 };
                    assert(text_less(owners[a], owners[b]));
                }
            }
            assert forall|j: int| 0 <= j < gm2.len() implies #[trigger] gm2[j].devices == members(views2, gm2[j].owner) by {
                lemma_members_push(views, x, gm2[j].owner);
                if j != i {
                    let a = if j < i { j } else { j - 1 };
                    assert(gm2[j] == gm[a]);
                    assert(owners[a] != owner@);
                }
            }
            assert forall|o: Seq<char>| owners2.contains(o) <==> has_owner(views2, o) by {
                lemma_members_push(views, x, o);
                if owners2.contains(o) {
                    let j = choose|j: int| 0 <= j < owners2.len() && owners2[j] == o;
                    if j < i {
                        assert(owners[j] == o);
                    } else if j > i {
                        assert(owners[j - 1] == o);
                    }
                }
                if owners.contains(o) {
                    let j = choose|j: int| 0 <= j < owners.len() && owners[j] == o;
                    if j < i {
                        assert(owners2[j] == o);
                    } else {
                        assert(owners2[j + 1] == o);
                    }
                }
                if o == owner@ {
                    assert(owners2[i as int] == o);
                }
            }
        }
    }
}


/// The first `n` groups of `after` are those of `before` with their devices
/// sorted.
spec fn groups_sorted(before: Seq<UserGroupModel>, after: Seq<UserGroupModel>, n: int) -> bool {
    forall|i: int| 0 <= i < n ==> #[trigger] after[i].owner == before[i].owner
        && is_stable_sort(before[i].devices, after[i].devices)
}

fn sort_groups(groups: Vec<UserGroup>) -> (r: Vec<UserGroup>)
    ensures
        r.len() == groups.len(),
        groups_sorted(group_models(groups@), group_models(r@), r.len() as int),
{
    let ghost gm = group_models(groups@);
    let ghost orig = groups@;
    let mut rest = groups;
    let mut out: Vec<UserGroup> = Vec::new();
    assert(gm.skip(0) =~= gm);
    while rest.len() > 0
        invariant
            out.len() + rest.len() == gm.len(),
            group_models(rest@) == gm.skip(out.len() as int),
            forall|i: int| 0 <= i < out.len() ==> #[trigger] group_models(out@)[i].owner == gm[i].owner
                && is_stable_sort(gm[i].devices, group_models(out@)[i].devices),
        decreases rest.len(),
    {
        let ghost before = rest@;
        let ghost n = out.len() as int;
        assert(gm.skip(n)[0] == gm[n]);
        let g = rest.remove(0);
        assert(g@ == gm[n]);
        assert forall|i: int| 0 <= i < rest@.len() implies group_models(rest@)[i] == gm.skip(n + 1)[i] by {
            assert(rest@[i] == before[i + 1]);
            assert(group_models(before)[i + 1] == before[i + 1]@);
            assert(gm.skip(n)[i + 1] == gm[n + 1 + i]);
        }
        assert(group_models(rest@) =~= gm.skip(n + 1));
        let UserGroup { owner, devices } = g;
        assert(device_view_models(devices@) == gm[n].devices);
        let sorted = sort_devices(devices);
        let ghost old_out = out@;
        let ng = UserGroup { owner, devices: sorted };
        assert(ng@.owner == gm[n].owner);
        assert(is_stable_sort(gm[n].devices, ng@.devices));
        out.push(ng);
        assert forall|i: int| 0 <= i < out.len() implies #[trigger] group_models(out@)[i].owner == gm[i].owner
            && is_stable_sort(gm[i].devices, group_models(out@)[i].devices) by {
            if i < n {
                assert(out@[i] == old_out[i]);
                assert(group_models(old_out)[i] == old_out[i]@);
            } else {
                assert(out@[i] == ng);
            }
        }
    }
    assert(out.len() == gm.len());
    assert(groups_sorted(gm, group_models(out@), out.len() as int));
    out
}

/// Groups the devices of the tailnet by their owner, in ascending order of
/// owners, each group sorted with online devices first and then by host
/// name (a stable sort of the devices in the order this device, then the
/// peers).  With no users in the status there are no groups.
pub fn group_by_user(status: &TailscaleStatus, svc_cfg: &ServiceConfig) -> (r: Vec<UserGroup>)
    ensures
        strictly_ascending(group_owners(group_models(r@))),
        forall|o: Seq<char>|
            group_owners(group_models(r@)).contains(o) <==> has_owner(owned_views(status@, svc_cfg@), o),
        forall|i: int|
            0 <= i < r.len() ==> is_stable_sort(
                members(owned_views(status@, svc_cfg@), #[trigger] group_models(r@)[i].owner),
                group_models(r@)[i].devices,
            ),
{
    let ghost views = owned_views(status@, svc_cfg@);
    let ghost all = device_list(status@);
    let mut groups: Vec<UserGroup> = Vec::new();
    proof {
        assert(group_models(groups@) =~= Seq::<UserGroupModel>::empty());
        assert(group_owners(group_models(groups@)) =~= Seq::<Seq<char>>::empty());
        assert(views.take(0) =~= Seq::<(Seq<char>, DeviceViewModel)>::empty());
        assert forall|o: Seq<char>| !has_owner(views.take(0), o) by {}
    }
    if let Some(users) = &status.users {
        let ghost um = user_models(users@);
        let ghost mut count: int = 0;
        assert(views.len() == all.len());
        if let Some(d) = &status.self_device {
            assert(all[0] == d@);
            let owner = owner_name_text(d, users);
            let view = build_device_view(d, &owner, svc_cfg);
            assert(views[0] == (owner@, view@));
            add_to_groups(&mut groups, owner, view, Ghost(views.take(0)));
            assert(views.take(0).push(views[0]) =~= views.take(1));
            proof {
                count = 1;
            }
        }
        if let Some(peers) = &status.peers {
            let ghost base = count;
            assert(all.len() == base + peers.len());
            let mut i: usize = 0;
            while i < peers.len()
                invariant
                    status@.users == Some(um),
                    um == user_models(users@),
                    views == owned_views(status@, svc_cfg@),
                    all == device_list(status@),
                    views.len() == all.len(),
                    status@.peers == Some(device_models(peers@)),
                    all.len() == base + peers.len(),
                    forall|j: int| 0 <= j < peers.len() ==> all[base + j] == #[trigger] peers@[j]@,
                    i <= peers.len(),
                    count == base + i,
                    groups_match(group_models(groups@), views.take(count)),
                decreases peers.len() - i,
            {
                let d = &peers[i];
                assert(all[count] == d@);
                let owner = owner_name_text(d, users);
                let view = build_device_view(d, &owner, svc_cfg);
                assert(views[count] == (owner@, view@));
                add_to_groups(&mut groups, owner, view, Ghost(views.take(count)));
                assert(views.take(count).push(views[count]) =~= views.take(count + 1));
                i = i + 1;
                proof {
                    count = count + 1;
                }
            }
        }
        assert(count == all.len());
        assert(views.take(count) =~= views);
    } else {
        assert(views =~= Seq::<(Seq<char>, DeviceViewModel)>::empty());
        assert(views.take(0) =~= views);
    }
    let ghost gm = group_models(groups@);
    let sorted = sort_groups(groups);
    proof {
        let sm = group_models(sorted@);
        assert forall|i: int| 0 <= i < sm.len() implies #[trigger] sm[i].owner == gm[i].owner
            && is_stable_sort(gm[i].devices, sm[i].devices) by {}
        assert(group_owners(sm) =~= group_owners(gm));
        assert forall|i: int| 0 <= i < sorted.len() implies is_stable_sort(
            members(views, #[trigger] sm[i].owner),
            sm[i].devices,
        ) by {
            assert(gm[i].devices == members(views, gm[i].owner));
        }
    }
    sorted
}


/// Some device of the list has `host` as its host name.
pub open spec fn runs_host(devices: Seq<DeviceViewModel>, host: Seq<char>) -> bool {
    exists|j: int| 0 <= j < devices.len() && #[trigger] devices[j].host_name == host
}

/// The first group with a device on `host`.
pub open spec fn first_group_with_host(groups: Seq<UserGroupModel>, host: Seq<char>) -> Option<UserGroupModel>
    decreases groups.len(),
{
    if groups.len() == 0 {
        None
    } else if runs_host(groups[0].devices, host) {
        Some(groups[0])
    } else {
        first_group_with_host(groups.drop_first(), host)
    }
}

/// The first device on `host` that is online.
pub open spec fn first_online_on_host(devices: Seq<DeviceViewModel>, host: Seq<char>) -> Option<DeviceViewModel>
    decreases devices.len(),
{
    if devices.len() == 0 {
        None
    } else if devices[0].host_name == host && devices[0].online {
        Some(devices[0])
    } else {
        first_online_on_host(devices.drop_first(), host)
    }
}

/// The quick entry of a configured service: its host's owner is that of the
/// first group with a device on the host, and the service is listed when a
/// device of that group on the host is online, at the address of the first
/// such device.
pub open spec fn quick_service(groups: Seq<UserGroupModel>, entry: ServiceEntryModel) -> Option<ServiceViewModel> {
    match first_group_with_host(groups, entry.host) {
        Some(g) => match first_online_on_host(g.devices, entry.host) {
            Some(d) => Some(ServiceViewModel { name: entry.name, owner: g.owner, url: url_of_service(entry, d.ip) }),
            None => None,
        },
        None => None,
    }
}

/// The quick entries of the configured services that have one, in the
/// order of the configuration.
pub open spec fn quick_services(groups: Seq<UserGroupModel>, entries: Seq<ServiceEntryModel>) -> Seq<ServiceViewModel>
    decreases entries.len(),
{
    if entries.len() == 0 {
        Seq::empty()
    } else {
        let before = quick_services(groups, entries.drop_last());
        match quick_service(groups, entries.last()) {
            Some(v) => before.push(v),
            None => before,
        }
    }
}

fn runs_on_host(devices: &Vec<DeviceView>, host: &String) -> (r: bool)
    ensures
        r == runs_host(device_view_models(devices@), host@),
{
    let ghost dm = device_view_models(devices@);
    let mut i: usize = 0;
    while i < devices.len()
        invariant
            i <= devices.len(),
            dm == device_view_models(devices@),
            forall|j: int| 0 <= j < i ==> #[trigger] dm[j].host_name != host@,
        decreases devices.len() - i,
    {
        if devices[i].host_name == *host {
            assert(dm[i as int].host_name == host@);
            return true;
        }
        i = i + 1;
    }
    false
}

fn find_group_with_host(groups: &Vec<UserGroup>, host: &String) -> (r: Option<usize>)
    ensures
        match r {
            Some(i) => i < groups.len() && first_group_with_host(group_models(groups@), host@) == Some(
                group_models(groups@)[i as int],
            ),
            None => first_group_with_host(group_models(groups@), host@) is None,
        },
{
    let ghost all = group_models(groups@);
    let mut i: usize = 0;
    assert(all.skip(0) =~= all);
    while i < groups.len()
        invariant
            i <= groups.len(),
            all == group_models(groups@),
            first_group_with_host(all, host@) == first_group_with_host(all.skip(i as int), host@),
        decreases groups.len() - i,
    {
        assert(all.skip(i as int)[0] == groups[i as int]@);
        if runs_on_host(&groups[i].devices, host) {
            return Some(i);
        }
        assert(all.skip(i as int).drop_first() =~= all.skip(i + 1));
        i = i + 1;
    }
    assert(all.skip(i as int).len() == 0);
    None
}

fn find_online_on_host(devices: &Vec<DeviceView>, host: &String) -> (r: Option<usize>)
    ensures
        match r {
            Some(i) => i < devices.len() && first_online_on_host(device_view_models(devices@), host@)
                == Some(device_view_models(devices@)[i as int]),
            None => first_online_on_host(device_view_models(devices@), host@) is None,
        },
{
    let ghost all = device_view_models(devices@);
    let mut i: usize = 0;
    assert(all.skip(0) =~= all);
    while i < devices.len()
        invariant
            i <= devices.len(),
            all == device_view_models(devices@),
            first_online_on_host(all, host@) == first_online_on_host(all.skip(i as int), host@),
        decreases devices.len() - i,
    {
        assert(all.skip(i as int)[0] == devices[i as int]@);
        if devices[i].host_name == *host && devices[i].online {
            return Some(i);
        }
        assert(all.skip(i as int).drop_first() =~= all.skip(i + 1));
        i = i + 1;
    }
    assert(all.skip(i as int).len() == 0);
    None
}

/// The quick list of services: for each configured service, in order, the
/// service at the address of an online device of its host, owned by the
/// first group (in the order of the groups) with a device on that host.
pub fn extract_all_services(groups: &Vec<UserGroup>, svc_cfg: &ServiceConfig) -> (quick: Vec<ServiceView>)
    ensures
        service_view_models(quick@) == quick_services(group_models(groups@), svc_cfg@),
{
    let ghost gm = group_models(groups@);
    let mut quick: Vec<ServiceView> = Vec::new();
    let mut i: usize = 0;
    while i < svc_cfg.service.len()
        invariant
            i <= svc_cfg.service.len(),
            gm == group_models(groups@),
            service_view_models(quick@) == quick_services(gm, svc_cfg@.take(i as int)),
        decreases svc_cfg.service.len() - i,
    {
        let s = &svc_cfg.service[i];
        assert(svc_cfg@.take(i + 1).drop_last() =~= svc_cfg@.take(i as int));
        assert(svc_cfg@.take(i + 1).last() == s@);
        let ghost before = quick@;
        if let Some(gi) = find_group_with_host(groups, &s.host) {
            let group = &groups[gi];
            if let Some(di) = find_online_on_host(&group.devices, &s.host) {
                let dev = &group.devices[di];
                let v = ServiceView {
                    name: s.name.clone(),
                    owner: group.owner.clone(),
                    url: service_url(s, dev.ip.as_str()),
                };
                quick.push(v);
                assert(service_view_models(quick@) =~= service_view_models(before).push(v@));
            }
        }
        i = i + 1;
    }
    assert(svc_cfg@.take(i as int) =~= svc_cfg@);
    quick
}

} // verus!
