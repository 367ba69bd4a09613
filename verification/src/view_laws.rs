//! What each view holds, stated over the raw inputs: the services a device
//! lists, the devices every group holds, the quick list, the owner found for
//! a user id, and the entry that a form adds.
use vstd::prelude::*;
use crate::models::service::{entry_from_form, AddServiceFormModel, ServiceEntryModel};
use crate::models::tailscale::{DeviceModel, TailscaleStatusModel, UserModel};
use crate::portal_laws::lemma_arrangement_onto;
use crate::views::{
    device_list, device_view, first_group_with_host, first_online_on_host, group_owners,
    device_ip, first_with_prefix, has_owner, host_services, internal_services, is_stable_sort, lookup_user, owner_name, members, owned_views, quick_service, quick_services,
    runs_host, stable_arrangement, url_of_service, DeviceViewModel, ServiceViewModel,
    UserGroupModel,
};
use crate::text::{decimal, has_prefix, law_signed_decimal_reads_back, signed_decimal, strictly_ascending, text_value};

verus! {

/// The host under which a device's configured services are looked up: its
/// host name, or the empty text when it has none.
pub open spec fn service_host(dev: DeviceModel) -> Seq<char> {
    match dev.host_name {
        Some(h) => h,
        None => Seq::empty(),
    }
}

proof fn lemma_host_services_filter(
    entries: Seq<ServiceEntryModel>,
    host: Seq<char>,
    owner: Seq<char>,
    ip: Seq<char>,
)
    ensures
        host_services(entries, host, owner, ip) == entries.filter(
            |e: ServiceEntryModel| e.host == host,
        ).map_values(
            |e: ServiceEntryModel| ServiceViewModel { name: e.name, owner: owner, url: url_of_service(e, ip) },
        ),
    decreases entries.len(),
{
    reveal(Seq::filter);
    let pred = |e: ServiceEntryModel| e.host == host;
    let f = |e: ServiceEntryModel| ServiceViewModel { name: e.name, owner: owner, url: url_of_service(e, ip) };
    if entries.len() == 0 {
        assert(entries.filter(pred) =~= Seq::<ServiceEntryModel>::empty());
        assert(host_services(entries, host, owner, ip) =~= entries.filter(pred).map_values(f));
    } else {
        lemma_host_services_filter(entries.drop_last(), host, owner, ip);
        let sub = entries.drop_last().filter(pred);
        if pred(entries.last()) {
            assert(entries.filter(pred) == sub.push(entries.last()));
            assert(host_services(entries, host, owner, ip) =~= entries.filter(pred).map_values(f));
        } else {
            assert(entries.filter(pred) == sub);
        }
    }
}

/// A device's view lists exactly the configured services whose host is
/// equal to the device's host name (the empty text when it has none), in
/// the order of the configuration, each under the given owner and at the
/// address worked out from the view's own address.
pub proof fn law_device_view_lists_its_services(
    dev: DeviceModel,
    owner: Seq<char>,
    entries: Seq<ServiceEntryModel>,
)
    ensures
        device_view(dev, owner, entries).services == entries.filter(
            |e: ServiceEntryModel| e.host == service_host(dev),
        ).map_values(
            |e: ServiceEntryModel|
                ServiceViewModel {
                    name: e.name,
                    owner: owner,
                    url: url_of_service(e, device_view(dev, owner, entries).ip),
                },
        ),
{
    let v = device_view(dev, owner, entries);
    lemma_host_services_filter(entries, service_host(dev), owner, v.ip);
}


proof fn lemma_members_hold(views: Seq<(Seq<char>, DeviceViewModel)>, j: int)
    requires
        0 <= j < views.len(),
    ensures
        exists|t: int|
            0 <= t < members(views, views[j].0).len() && members(views, views[j].0)[t] == views[j].1,
    decreases views.len(),
{
    let o = views[j].0;
    let rest = views.drop_last();
    if j == views.len() - 1 {
        let t = members(rest, o).len() as int;
        assert(members(views, o)[t] == views[j].1);
    } else {
        lemma_members_hold(rest, j);
        assert(rest[j] == views[j]);
        let t = choose|t: int| 0 <= t < members(rest, o).len() && members(rest, o)[t] == rest[j].1;
        if views.last().0 == o {
            assert(members(views, o)[t] == members(rest, o)[t]);
        }
    }
}

/// Every device of the tailnet, this device included, is shown in the
/// group of some owner by a view that lists exactly the configured services
/// of its host, in configuration order, under that owner: for groups as
/// `group_by_user` returns them when the status lists users.
pub proof fn law_every_device_lists_its_services(
    status: TailscaleStatusModel,
    entries: Seq<ServiceEntryModel>,
    groups: Seq<UserGroupModel>,
    dev: DeviceModel,
)
    requires
        strictly_ascending(group_owners(groups)),
        forall|o: Seq<char>|
            group_owners(groups).contains(o) <==> has_owner(owned_views(status, entries), o),
        forall|i: int|
            0 <= i < groups.len() ==> is_stable_sort(
                members(owned_views(status, entries), #[trigger] groups[i].owner),
                groups[i].devices,
            ),
        status.users is Some,
        status.self_device == Some(dev) || (status.peers matches Some(peers) && peers.contains(dev)),
    ensures
        exists|i: int, k: int|
            0 <= i < groups.len() && 0 <= k < groups[i].devices.len() && groups[i].owner == owner_name(
                dev,
                status.users.unwrap(),
            ) && (#[trigger] groups[i].devices[k]).host_name
                == (match dev.host_name {
                Some(h) => h,
                None => "unnamed"@,
            }) && groups[i].devices[k].services == entries.filter(
                |e: ServiceEntryModel| e.host == service_host(dev),
            ).map_values(
                |e: ServiceEntryModel|
                    ServiceViewModel {
                        name: e.name,
                        owner: groups[i].owner,
                        url: url_of_service(e, groups[i].devices[k].ip),
                    },
            ),
{
    let views = owned_views(status, entries);
    let all = device_list(status);
    let users = status.users.unwrap();
    let j: int = if status.self_device == Some(dev) {
        0
    } else {
        let peers = status.peers.unwrap();
        let idx = choose|idx: int| 0 <= idx < peers.len() && peers[idx] == dev;
        let off: int = if status.self_device is Some { 1 } else { 0 };
        assert(all[off + idx] == dev);
        off + idx
    };
    assert(all[j] == dev);
    let o = views[j].0;
    assert(has_owner(views, o));
    assert(group_owners(groups).contains(o));
    let i = choose|i: int| 0 <= i < group_owners(groups).len() && group_owners(groups)[i] == o;
    assert(groups[i].owner == o);
    let input = members(views, o);
    assert(is_stable_sort(input, groups[i].devices));
    let p = choose|p: Seq<int>| stable_arrangement(input, groups[i].devices, p);
    lemma_members_hold(views, j);
    let t = choose|t: int| 0 <= t < input.len() && input[t] == views[j].1;
    lemma_arrangement_onto(input, groups[i].devices, p, t);
    let k = choose|k: int| 0 <= k < p.len() && p[k] == t;
    assert(groups[i].devices[k] == views[j].1);
    assert(views[j].1 == device_view(dev, o, entries));
    law_device_view_lists_its_services(dev, o, entries);
    assert(groups[i].devices[k].host_name == (match dev.host_name {
        Some(h) => h,
        None => "unnamed"@,
    }));
}


/// The quick list has one entry for each configured service that has a
/// quick entry, no other, in the order of the configuration: no service
/// that can be reached is left out, whatever the services before it.
pub proof fn law_quick_list_is_complete(groups: Seq<UserGroupModel>, entries: Seq<ServiceEntryModel>)
    ensures
        quick_services(groups, entries) == entries.filter(
            |e: ServiceEntryModel| quick_service(groups, e) is Some,
        ).map_values(|e: ServiceEntryModel| quick_service(groups, e).unwrap()),
    decreases entries.len(),
{
    reveal(Seq::filter);
    let pred = |e: ServiceEntryModel| quick_service(groups, e) is Some;
    let f = |e: ServiceEntryModel| quick_service(groups, e).unwrap();
    if entries.len() == 0 {
        assert(entries.filter(pred) =~= Seq::<ServiceEntryModel>::empty());
        assert(quick_services(groups, entries) =~= entries.filter(pred).map_values(f));
    } else {
        law_quick_list_is_complete(groups, entries.drop_last());
        let sub = entries.drop_last().filter(pred);
        if pred(entries.last()) {
            assert(entries.filter(pred) == sub.push(entries.last()));
            assert(quick_services(groups, entries) =~= entries.filter(pred).map_values(f));
        } else {
            assert(entries.filter(pred) == sub);
        }
    }
}

/// Some device of group `g` is on `host`.
pub open spec fn holds_host(g: UserGroupModel, host: Seq<char>) -> bool {
    exists|d: int| 0 <= d < g.devices.len() && #[trigger] g.devices[d].host_name == host
}

proof fn lemma_runs_host(g: UserGroupModel, host: Seq<char>)
    ensures
        runs_host(g.devices, host) == holds_host(g, host),
{
}

proof fn lemma_first_group(groups: Seq<UserGroupModel>, host: Seq<char>, gi: int)
    requires
        0 <= gi < groups.len(),
        holds_host(groups[gi], host),
        forall|g: int| 0 <= g < gi ==> !holds_host(#[trigger] groups[g], host),
    ensures
        first_group_with_host(groups, host) == Some(groups[gi]),
    decreases gi,
{
    lemma_runs_host(groups[0], host);
    if gi > 0 {
        assert(!holds_host(groups[0], host));
        assert forall|g: int| 0 <= g < gi - 1 implies !holds_host(#[trigger] groups.drop_first()[g], host) by {
            assert(groups.drop_first()[g] == groups[g + 1]);
        }
        assert(groups.drop_first()[gi - 1] == groups[gi]);
        lemma_first_group(groups.drop_first(), host, gi - 1);
    }
}

proof fn lemma_no_group(groups: Seq<UserGroupModel>, host: Seq<char>)
    requires
        forall|g: int| 0 <= g < groups.len() ==> !holds_host(#[trigger] groups[g], host),
    ensures
        first_group_with_host(groups, host) is None,
    decreases groups.len(),
{
    if groups.len() > 0 {
        lemma_runs_host(groups[0], host);
        assert(!holds_host(groups[0], host));
        assert forall|g: int| 0 <= g < groups.len() - 1 implies !holds_host(#[trigger] groups.drop_first()[g], host) by {
            assert(groups.drop_first()[g] == groups[g + 1]);
        }
        lemma_no_group(groups.drop_first(), host);
    }
}

proof fn lemma_first_online(devices: Seq<DeviceViewModel>, host: Seq<char>, di: int)
    requires
        0 <= di < devices.len(),
        devices[di].host_name == host && devices[di].online,
        forall|d: int| 0 <= d < di ==> !((#[trigger] devices[d]).host_name == host && devices[d].online),
    ensures
        first_online_on_host(devices, host) == Some(devices[di]),
    decreases di,
{
    if di > 0 {
        assert(!(devices[0].host_name == host && devices[0].online));
        assert forall|d: int| 0 <= d < di - 1 implies !((#[trigger] devices.drop_first()[d]).host_name == host
            && devices.drop_first()[d].online) by {
            assert(devices.drop_first()[d] == devices[d + 1]);
        }
        assert(devices.drop_first()[di - 1] == devices[di]);
        lemma_first_online(devices.drop_first(), host, di - 1);
    }
}

proof fn lemma_no_online(devices: Seq<DeviceViewModel>, host: Seq<char>)
    requires
        forall|d: int| 0 <= d < devices.len() ==> !((#[trigger] devices[d]).host_name == host && devices[d].online),
    ensures
        first_online_on_host(devices, host) is None,
    decreases devices.len(),
{
    if devices.len() > 0 {
        assert(!(devices[0].host_name == host && devices[0].online));
        assert forall|d: int| 0 <= d < devices.len() - 1 implies !((#[trigger] devices.drop_first()[d]).host_name
            == host && devices.drop_first()[d].online) by {
            assert(devices.drop_first()[d] == devices[d + 1]);
        }
        lemma_no_online(devices.drop_first(), host);
    }
}

/// The quick entry of a service, stated over the groups: take the first
/// group (in the order of the groups) that holds a device on the service's
/// host; when it holds an online device on that host, the service is listed
/// under that group's owner at the address of the first such device;
/// otherwise, and when no group holds the host, it has no quick entry.
pub proof fn law_quick_entry_rule(groups: Seq<UserGroupModel>, e: ServiceEntryModel, gi: int)
    requires
        0 <= gi < groups.len(),
    ensures
        (holds_host(groups[gi], e.host) && forall|g: int|
            0 <= g < gi ==> !holds_host(#[trigger] groups[g], e.host)) ==> ({
            let devs = groups[gi].devices;
            &&& (forall|d: int| 0 <= d < devs.len() ==> !((#[trigger] devs[d]).host_name == e.host && devs[d].online))
                ==> quick_service(groups, e) is None
            &&& forall|di: int|
                0 <= di < devs.len() && (#[trigger] devs[di]).host_name == e.host && devs[di].online && (forall|d: int|
                    0 <= d < di ==> !((#[trigger] devs[d]).host_name == e.host && devs[d].online)) ==> quick_service(
                    groups,
                    e,
                ) == Some(
                    ServiceViewModel {
                        name: e.name,
                        owner: groups[gi].owner,
                        url: url_of_service(e, devs[di].ip),
                    },
                )
        }),
        (forall|g: int| 0 <= g < groups.len() ==> !holds_host(#[trigger] groups[g], e.host)) ==> quick_service(
            groups,
            e,
        ) is None,
{
    if holds_host(groups[gi], e.host) && forall|g: int| 0 <= g < gi ==> !holds_host(#[trigger] groups[g], e.host) {
        lemma_first_group(groups, e.host, gi);
        let devs = groups[gi].devices;
        if forall|d: int| 0 <= d < devs.len() ==> !((#[trigger] devs[d]).host_name == e.host && devs[d].online) {
            lemma_no_online(devs, e.host);
        }
        assert forall|di: int|
            0 <= di < devs.len() && (#[trigger] devs[di]).host_name == e.host && devs[di].online && (forall|d: int|
                0 <= d < di ==> !((#[trigger] devs[d]).host_name == e.host && devs[d].online)) implies quick_service(
                groups,
                e,
            ) == Some(
                ServiceViewModel { name: e.name, owner: groups[gi].owner, url: url_of_service(e, devs[di].ip) },
            ) by {
            lemma_first_online(devs, e.host, di);
        }
    }
    if forall|g: int| 0 <= g < groups.len() ==> !holds_host(#[trigger] groups[g], e.host) {
        lemma_no_group(groups, e.host);
    }
}


proof fn lemma_lookup_first(users: Seq<(Seq<char>, UserModel)>, key: Seq<char>, t: int)
    requires
        0 <= t < users.len(),
        users[t].0 == key,
        forall|s: int| 0 <= s < t ==> (#[trigger] users[s]).0 != key,
    ensures
        lookup_user(users, key) == Some(users[t].1),
    decreases t,
{
    if t > 0 {
        assert(users[0].0 != key);
        assert forall|s: int| 0 <= s < t - 1 implies (#[trigger] users.drop_first()[s]).0 != key by {
            assert(users.drop_first()[s] == users[s + 1]);
        }
        assert(users.drop_first()[t - 1] == users[t]);
        lemma_lookup_first(users.drop_first(), key, t - 1);
    }
}

proof fn lemma_lookup_absent(users: Seq<(Seq<char>, UserModel)>, key: Seq<char>)
    requires
        forall|s: int| 0 <= s < users.len() ==> (#[trigger] users[s]).0 != key,
    ensures
        lookup_user(users, key) is None,
    decreases users.len(),
{
    if users.len() > 0 {
        assert(users[0].0 != key);
        assert forall|s: int| 0 <= s < users.len() - 1 implies (#[trigger] users.drop_first()[s]).0 != key by {
            assert(users.drop_first()[s] == users[s + 1]);
        }
        lemma_lookup_absent(users.drop_first(), key);
    }
}

/// The owner of a device is looked up under the decimal text of its whole
/// user id, a text that reads back as that id: the login name of the first
/// user entry with that key, `unknown` when that user has no login name, when
/// no entry has that key, or when the device has no user id.
pub proof fn law_owner_found_by_full_id(dev: DeviceModel, users: Seq<(Seq<char>, UserModel)>)
    ensures
        dev.user_id is None ==> owner_name(dev, users) == "unknown"@,
        dev.user_id matches Some(uid) ==> ({
            let key = signed_decimal(uid as int);
            &&& text_value(key) == uid
            &&& forall|t: int|
                0 <= t < users.len() && users[t].0 == key && (forall|s: int|
                    0 <= s < t ==> (#[trigger] users[s]).0 != key) ==> owner_name(dev, users) == (match users[t].1.login_name {
                    Some(name) => name,
                    None => "unknown"@,
                })
            &&& (forall|t: int| 0 <= t < users.len() ==> (#[trigger] users[t]).0 != key) ==> owner_name(dev, users)
                == "unknown"@
        }),
{
    if let Some(uid) = dev.user_id {
        let key = signed_decimal(uid as int);
        law_signed_decimal_reads_back(uid as int);
        assert forall|t: int|
            0 <= t < users.len() && users[t].0 == key && (forall|s: int|
                0 <= s < t ==> (#[trigger] users[s]).0 != key) implies owner_name(dev, users) == (match users[t].1.login_name {
                Some(name) => name,
                None => "unknown"@,
            }) by {
            lemma_lookup_first(users, key, t);
        }
        if forall|t: int| 0 <= t < users.len() ==> (#[trigger] users[t]).0 != key {
            lemma_lookup_absent(users, key);
        }
    }
}


/// The entry that a form adds keeps the form's host and name, keeps a
/// non-empty URL exactly as given (and the service is then shown at that
/// URL, whatever its host's address), has no URL for an empty one, and has
/// the port only when it is positive (shown after the host's address).
pub proof fn law_form_entry_keeps_what_was_given(form: AddServiceFormModel, ip: Seq<char>)
    ensures
        entry_from_form(form).host == form.host,
        entry_from_form(form).name == form.name,
        form.url.len() > 0 ==> entry_from_form(form).url == Some(form.url),
        form.url.len() > 0 ==> url_of_service(entry_from_form(form), ip) == form.url,
        form.url.len() == 0 <==> entry_from_form(form).url is None,
        form.port > 0 ==> entry_from_form(form).port == Some(form.port),
        form.port == 0 <==> entry_from_form(form).port is None,
        form.url.len() == 0 && form.port > 0 ==> url_of_service(entry_from_form(form), ip) == "http://"@ + ip
            + ":"@ + decimal(form.port as nat),
        form.url.len() == 0 && form.port == 0 ==> url_of_service(entry_from_form(form), ip) == "http://"@ + ip,
{
}


/// The address of a service: its own URL when it has one; otherwise
/// `http://` and the host's address, followed by `:` and the port when it
/// has one.
pub proof fn law_service_address(entry: ServiceEntryModel, ip: Seq<char>)
    ensures
        entry.url matches Some(u) ==> url_of_service(entry, ip) == u,
        entry.url is None ==> (entry.port matches Some(port) ==> url_of_service(entry, ip) == "http://"@
            + ip + ":"@ + decimal(port as nat)),
        entry.url is None && entry.port is None ==> url_of_service(entry, ip) == "http://"@ + ip,
{
}

/// The first item that starts with the prefix: the item at the first
/// position that does, none when no item does.
pub proof fn law_first_with_prefix(items: Seq<Seq<char>>, prefix: Seq<char>)
    ensures
        (forall|i: int| 0 <= i < items.len() ==> !has_prefix(#[trigger] items[i], prefix)) ==> first_with_prefix(
            items,
            prefix,
        ) is None,
        forall|i: int|
            0 <= i < items.len() && has_prefix(#[trigger] items[i], prefix) && (forall|j: int|
                0 <= j < i ==> !has_prefix(#[trigger] items[j], prefix)) ==> first_with_prefix(items, prefix)
                == Some(items[i]),
    decreases items.len(),
{
    if items.len() > 0 {
        law_first_with_prefix(items.drop_first(), prefix);
        assert forall|i: int|
            0 <= i < items.len() && has_prefix(#[trigger] items[i], prefix) && (forall|j: int|
                0 <= j < i ==> !has_prefix(#[trigger] items[j], prefix)) implies first_with_prefix(items, prefix)
                == Some(items[i]) by {
            if i > 0 {
                assert(!has_prefix(items[0], prefix));
                assert(items.drop_first()[i - 1] == items[i]);
                assert forall|j: int| 0 <= j < i - 1 implies !has_prefix(#[trigger] items.drop_first()[j], prefix) by {
                    assert(items.drop_first()[j] == items[j + 1]);
                }
            }
        }
        if forall|i: int| 0 <= i < items.len() ==> !has_prefix(#[trigger] items[i], prefix) {
            assert(!has_prefix(items[0], prefix));
            assert forall|j: int| 0 <= j < items.len() - 1 implies !has_prefix(#[trigger] items.drop_first()[j], prefix) by {
                assert(items.drop_first()[j] == items[j + 1]);
            }
        }
    }
}

/// A device is shown at its first address that starts with `100.`, or `?`
/// when it has none; its peer API is listed, under the device's owner, at
/// its first peer API URL that starts with `http://100.`, and nothing is
/// listed when it has none.
pub proof fn law_device_address_and_peer_api(dev: DeviceModel, owner: Seq<char>)
    ensures
        dev.ips matches Some(ips) ==> (forall|i: int|
            0 <= i < ips.len() && has_prefix(#[trigger] ips[i], "100."@) && (forall|j: int|
                0 <= j < i ==> !has_prefix(#[trigger] ips[j], "100."@)) ==> device_ip(dev) == ips[i]),
        dev.ips matches Some(ips) ==> ((forall|i: int| 0 <= i < ips.len() ==> !has_prefix(#[trigger] ips[i], "100."@))
            ==> device_ip(dev) == "?"@),
        dev.ips is None ==> device_ip(dev) == "?"@,
        dev.peer_api_url matches Some(urls) ==> (forall|i: int|
            0 <= i < urls.len() && has_prefix(#[trigger] urls[i], "http://100."@) && (forall|j: int|
                0 <= j < i ==> !has_prefix(#[trigger] urls[j], "http://100."@)) ==> internal_services(dev, owner)
                == seq![ServiceViewModel { name: "Peer API"@, owner: owner, url: urls[i] }]),
        dev.peer_api_url matches Some(urls) ==> ((forall|i: int|
            0 <= i < urls.len() ==> !has_prefix(#[trigger] urls[i], "http://100."@)) ==> internal_services(dev, owner)
            == Seq::<ServiceViewModel>::empty()),
        dev.peer_api_url is None ==> internal_services(dev, owner) == Seq::<ServiceViewModel>::empty(),
{
    if let Some(ips) = dev.ips {
        law_first_with_prefix(ips, "100."@);
    }
    if let Some(urls) = dev.peer_api_url {
        law_first_with_prefix(urls, "http://100."@);
    }
}

} // verus!
