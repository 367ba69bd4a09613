//! Properties of the portal's views that span several functions: no device
//! is lost or listed twice by the grouping, the services listed under a user
//! belong to that user, and the quick list only holds services that can be
//! reached on an online device.
use vstd::prelude::*;
use crate::models::service::ServiceEntryModel;
use crate::models::tailscale::TailscaleStatusModel;
use crate::text::{
    lemma_text_less_asymmetric, lemma_text_less_irreflexive, lemma_text_less_total,
    strictly_ascending, text_less,
};
use crate::views::{
    device_list, device_view, first_group_with_host, first_online_on_host, group_owners,
    has_owner, host_services, in_portal_order, is_stable_sort, members, owned_views, owner_name,
    quick_service, quick_services, runs_host, same_rank, shown_before, stable_arrangement,
    DeviceViewModel, ServiceViewModel, UserGroupModel,
};

verus! {

/// The number of devices held by a sequence of groups.
pub open spec fn group_device_count(groups: Seq<UserGroupModel>) -> int
    decreases groups.len(),
{
    if groups.len() == 0 {
        0
    } else {
        group_device_count(groups.drop_last()) + groups.last().devices.len()
    }
}

/// The number of devices of the owners in `owners`.
pub open spec fn member_count(views: Seq<(Seq<char>, DeviceViewModel)>, owners: Seq<Seq<char>>) -> int
    decreases owners.len(),
{
    if owners.len() == 0 {
        0
    } else {
        member_count(views, owners.drop_last()) + members(views, owners.last()).len()
    }
}

/// How many times `o` occurs in `owners`.
pub open spec fn occurrences(owners: Seq<Seq<char>>, o: Seq<char>) -> int
    decreases owners.len(),
{
    if owners.len() == 0 {
        0
    } else {
        occurrences(owners.drop_last(), o) + if owners.last() == o {
            1int
        } else {
            0int
        }
    }
}

proof fn lemma_member_count_push(
    views: Seq<(Seq<char>, DeviceViewModel)>,
    x: (Seq<char>, DeviceViewModel),
    owners: Seq<Seq<char>>,
)
    ensures
        member_count(views.push(x), owners) == member_count(views, owners) + occurrences(owners, x.0),
    decreases owners.len(),
{
    assert(views.push(x).drop_last() =~= views);
    if owners.len() > 0 {
        lemma_member_count_push(views, x, owners.drop_last());
    }
}

proof fn lemma_occurrences_once(owners: Seq<Seq<char>>, o: Seq<char>)
    requires
        strictly_ascending(owners),
        owners.contains(o),
    ensures
        occurrences(owners, o) == 1,
    decreases owners.len(),
{
    let rest = owners.drop_last();
    assert(strictly_ascending(rest));
    if owners.last() == o {
        assert forall|j: int| 0 <= j < rest.len() implies rest[j] != o by {
            assert(owners[j] == rest[j]);
            lemma_text_less_irreflexive(o);
        }
        lemma_occurrences_absent(rest, o);
    } else {
        let j = choose|j: int| 0 <= j < owners.len() && owners[j] == o;
        assert(rest[j] == o);
        lemma_occurrences_once(rest, o);
    }
}

proof fn lemma_occurrences_absent(owners: Seq<Seq<char>>, o: Seq<char>)
    requires
        forall|j: int| 0 <= j < owners.len() ==> owners[j] != o,
    ensures
        occurrences(owners, o) == 0,
    decreases owners.len(),
{
    if owners.len() > 0 {
        lemma_occurrences_absent(owners.drop_last(), o);
    }
}

proof fn lemma_member_count_empty(owners: Seq<Seq<char>>)
    ensures
        member_count(Seq::empty(), owners) == 0,
    decreases owners.len(),
{
    if owners.len() > 0 {
        lemma_member_count_empty(owners.drop_last());
    }
}

/// When every owner is listed once, the devices of the listed owners are
/// all the devices, each counted once.
pub proof fn law_members_cover_all(views: Seq<(Seq<char>, DeviceViewModel)>, owners: Seq<Seq<char>>)
    requires
        strictly_ascending(owners),
        forall|j: int| 0 <= j < views.len() ==> owners.contains(#[trigger] views[j].0),
    ensures
        member_count(views, owners) == views.len(),
    decreases views.len(),
{
    if views.len() == 0 {
        assert(views =~= Seq::empty());
        lemma_member_count_empty(owners);
    } else {
        let rest = views.drop_last();
        assert forall|j: int| 0 <= j < rest.len() implies owners.contains(#[trigger] rest[j].0) by {
            assert(views[j].0 == rest[j].0);
        }
        law_members_cover_all(rest, owners);
        assert(rest.push(views.last()) =~= views);
        lemma_member_count_push(rest, views.last(), owners);
        assert(owners.contains(views[views.len() - 1].0));
        lemma_occurrences_once(owners, views.last().0);
    }
}

proof fn lemma_group_count(views: Seq<(Seq<char>, DeviceViewModel)>, groups: Seq<UserGroupModel>)
    requires
        forall|i: int|
            0 <= i < groups.len() ==> (#[trigger] groups[i]).devices.len() == members(views, groups[i].owner).len(),
    ensures
        group_device_count(groups) == member_count(views, group_owners(groups)),
    decreases groups.len(),
{
    if groups.len() > 0 {
        let rest = groups.drop_last();
        assert forall|i: int| 0 <= i < rest.len() implies (#[trigger] rest[i]).devices.len() == members(
            views,
            rest[i].owner,
        ).len() by {
            assert(rest[i] == groups[i]);
        }
        lemma_group_count(views, rest);
        assert(group_owners(groups).drop_last() =~= group_owners(rest));
        assert(group_owners(groups).last() == groups.last().owner);
        assert(groups.last() == groups[groups.len() - 1]);
    }
}

/// No device is lost or listed twice: for groups as `group_by_user` returns
/// them, the number of devices in all groups is the number of devices of
/// the tailnet when the status lists users, and zero otherwise.
pub proof fn law_grouping_keeps_every_device(
    status: TailscaleStatusModel,
    entries: Seq<ServiceEntryModel>,
    groups: Seq<UserGroupModel>,
)
    requires
        strictly_ascending(group_owners(groups)),
        forall|o: Seq<char>|
            group_owners(groups).contains(o) <==> has_owner(owned_views(status, entries), o),
        forall|i: int|
            0 <= i < groups.len() ==> is_stable_sort(
                members(owned_views(status, entries), #[trigger] groups[i].owner),
                groups[i].devices,
            ),
    ensures
        group_device_count(groups) == if status.users is Some {
            device_list(status).len() as int
        } else {
            0
        },
{
    let views = owned_views(status, entries);
    assert forall|i: int| 0 <= i < groups.len() implies (#[trigger] groups[i]).devices.len() == members(
        views,
        groups[i].owner,
    ).len() by {
        assert(is_stable_sort(members(views, groups[i].owner), groups[i].devices));
        let p = choose|p: Seq<int>| stable_arrangement(members(views, groups[i].owner), groups[i].devices, p);
    }
    lemma_group_count(views, groups);
    assert forall|j: int| 0 <= j < views.len() implies group_owners(groups).contains(#[trigger] views[j].0) by {
        assert(has_owner(views, views[j].0));
    }
    law_members_cover_all(views, group_owners(groups));
}


proof fn lemma_host_services_owner(
    entries: Seq<ServiceEntryModel>,
    host: Seq<char>,
    owner: Seq<char>,
    ip: Seq<char>,
)
    ensures
        forall|k: int|
            0 <= k < host_services(entries, host, owner, ip).len() ==> (#[trigger] host_services(
                entries,
                host,
                owner,
                ip,
            )[k]).owner == owner,
    decreases entries.len(),
{
    if entries.len() > 0 {
        let before = host_services(entries.drop_last(), host, owner, ip);
        lemma_host_services_owner(entries.drop_last(), host, owner, ip);
        let all = host_services(entries, host, owner, ip);
        assert forall|k: int| 0 <= k < all.len() implies (#[trigger] all[k]).owner == owner by {
            if k < before.len() {
                assert(all[k] == before[k]);
            }
        }
    }
}

proof fn lemma_members_come_from(views: Seq<(Seq<char>, DeviceViewModel)>, o: Seq<char>, k: int)
    requires
        0 <= k < members(views, o).len(),
    ensures
        exists|j: int| 0 <= j < views.len() && (#[trigger] views[j]).0 == o && views[j].1 == members(views, o)[k],
    decreases views.len(),
{
    let rest = views.drop_last();
    if views.last().0 == o && k == members(rest, o).len() {
        assert(views[views.len() - 1].0 == o);
    } else {
        lemma_members_come_from(rest, o, k);
        let j = choose|j: int| 0 <= j < rest.len() && (#[trigger] rest[j]).0 == o && rest[j].1 == members(rest, o)[k];
        assert(views[j] == rest[j]);
    }
}

/// Every service listed on a device of a user's group, configured or
/// internal, is listed as that user's.
pub proof fn law_group_services_belong_to_owner(
    status: TailscaleStatusModel,
    entries: Seq<ServiceEntryModel>,
    owner: Seq<char>,
    devices: Seq<DeviceViewModel>,
    k: int,
    m: int,
)
    requires
        is_stable_sort(members(owned_views(status, entries), owner), devices),
        0 <= k < devices.len(),
    ensures
        0 <= m < devices[k].services.len() ==> devices[k].services[m].owner == owner,
        0 <= m < devices[k].internal_services.len() ==> devices[k].internal_services[m].owner == owner,
{
    let views = owned_views(status, entries);
    let input = members(views, owner);
    let p = choose|p: Seq<int>| stable_arrangement(input, devices, p);
    assert(devices[k] == input[p[k]]);
    lemma_members_come_from(views, owner, p[k]);
    let j = choose|j: int| 0 <= j < views.len() && (#[trigger] views[j]).0 == owner && views[j].1 == input[p[k]];
    let users = status.users.unwrap();
    let d = device_list(status)[j];
    assert(views[j] == (owner_name(d, users), device_view(d, owner_name(d, users), entries)));
    let dv = device_view(d, owner, entries);
    lemma_host_services_owner(
        entries,
        match d.host_name {
            Some(h) => h,
            None => Seq::empty(),
        },
        owner,
        dv.ip,
    );
    if 0 <= m < devices[k].services.len() {
        assert(devices[k].services[m] == dv.services[m]);
    }
}

proof fn lemma_first_group_in(groups: Seq<UserGroupModel>, host: Seq<char>)
    requires
        first_group_with_host(groups, host) is Some,
    ensures
        exists|gi: int| 0 <= gi < groups.len() && first_group_with_host(groups, host) == Some(#[trigger] groups[gi]),
    decreases groups.len(),
{
    if runs_host(groups[0].devices, host) {
        assert(first_group_with_host(groups, host) == Some(groups[0]));
    } else {
        lemma_first_group_in(groups.drop_first(), host);
        let gi = choose|gi: int| 0 <= gi < groups.drop_first().len() && first_group_with_host(groups.drop_first(), host) == Some(#[trigger] groups.drop_first()[gi]);
        assert(groups[gi + 1] == groups.drop_first()[gi]);
    }
}

proof fn lemma_first_online_in(devices: Seq<DeviceViewModel>, host: Seq<char>)
    requires
        first_online_on_host(devices, host) is Some,
    ensures
        exists|di: int| 0 <= di < devices.len() && first_online_on_host(devices, host) == Some(#[trigger] devices[di])
            && devices[di].host_name == host && devices[di].online,
    decreases devices.len(),
{
    if devices[0].host_name == host && devices[0].online {
        assert(first_online_on_host(devices, host) == Some(devices[0]));
    } else {
        lemma_first_online_in(devices.drop_first(), host);
        let di = choose|di: int| 0 <= di < devices.drop_first().len() && first_online_on_host(devices.drop_first(), host) == Some(#[trigger] devices.drop_first()[di])
            && devices.drop_first()[di].host_name == host && devices.drop_first()[di].online;
        assert(devices[di + 1] == devices.drop_first()[di]);
    }
}

/// A service can be reached on the device it is listed at.
pub open spec fn reachable_at(
    v: ServiceViewModel,
    entry: ServiceEntryModel,
    group: UserGroupModel,
    device: DeviceViewModel,
) -> bool {
    &&& v.name == entry.name
    &&& v.owner == group.owner
    &&& device.host_name == entry.host
    &&& device.online
    &&& v.url == crate::views::url_of_service(entry, device.ip)
}

/// Each entry of the quick list is a configured service listed at the
/// address of an online device of its host, under the owner of a group that
/// holds that device.
pub proof fn law_quick_services_reachable(groups: Seq<UserGroupModel>, entries: Seq<ServiceEntryModel>, k: int)
    requires
        0 <= k < quick_services(groups, entries).len(),
    ensures
        exists|j: int, gi: int, di: int|
            0 <= j < entries.len() && 0 <= gi < groups.len() && 0 <= di < groups[gi].devices.len()
                && #[trigger] reachable_at(quick_services(groups, entries)[k], entries[j], groups[gi], groups[gi].devices[di]),
    decreases entries.len(),
{
    let rest = entries.drop_last();
    let q = quick_services(groups, entries);
    if k < quick_services(groups, rest).len() {
        law_quick_services_reachable(groups, rest, k);
        let (j, gi, di) = choose|j: int, gi: int, di: int|
            0 <= j < rest.len() && 0 <= gi < groups.len() && 0 <= di < groups[gi].devices.len()
                && #[trigger] reachable_at(quick_services(groups, rest)[k], rest[j], groups[gi], groups[gi].devices[di]);
        assert(q[k] == quick_services(groups, rest)[k]);
        assert(entries[j] == rest[j]);
        assert(reachable_at(q[k], entries[j], groups[gi], groups[gi].devices[di]));
    } else {
        let e = entries.last();
        assert(quick_service(groups, e) is Some);
        lemma_first_group_in(groups, e.host);
        let gi = choose|gi: int| 0 <= gi < groups.len() && first_group_with_host(groups, e.host) == Some(#[trigger] groups[gi]);
        let g = groups[gi];
        lemma_first_online_in(g.devices, e.host);
        let di = choose|di: int| 0 <= di < g.devices.len() && first_online_on_host(g.devices, e.host) == Some(#[trigger] g.devices[di])
            && g.devices[di].host_name == e.host && g.devices[di].online;
        assert(q[k] == quick_service(groups, e).unwrap());
        let j = entries.len() - 1;
        assert(reachable_at(q[k], entries[j], groups[gi], groups[gi].devices[di]));
    }
}


pub(crate) proof fn lemma_arrangement_onto(
    input: Seq<DeviceViewModel>,
    output: Seq<DeviceViewModel>,
    p: Seq<int>,
    v: int,
)
    requires
        stable_arrangement(input, output, p),
        0 <= v < input.len(),
    ensures
        exists|i: int| 0 <= i < p.len() && p[i] == v,
{
    let n = input.len() as int;
    assert forall|i: int, j: int| 0 <= i < p.len() && 0 <= j < p.len() && i != j implies p[i] != p[j] by {
        if i < j {
            assert(p[i] != p[j]);
        } else {
            assert(p[j] != p[i]);
        }
    }
    assert(p.no_duplicates());
    p.unique_seq_to_set();
    vstd::seq_lib::seq_to_set_is_finite(p);
    vstd::set_lib::lemma_int_range(0, n);
    assert forall|x: int| p.to_set().contains(x) implies vstd::set_lib::set_int_range(0, n).contains(x) by {
        assert(p.contains(x));
        let i = choose|i: int| 0 <= i < p.len() && p[i] == x;
        assert(0 <= p[i] < n);
    }
    vstd::set_lib::lemma_subset_equality(p.to_set(), vstd::set_lib::set_int_range(0, n));
    assert(vstd::set_lib::set_int_range(0, n).contains(v));
    assert(p.to_set().contains(v));
    assert(p.contains(v));
}

/// Position `t` of `input` comes before position `u` in a stable sort.
pub open spec fn sorts_before(input: Seq<DeviceViewModel>, t: int, u: int) -> bool {
    shown_before(input[t], input[u]) || (same_rank(input[t], input[u]) && t < u)
}

proof fn lemma_sorts_before_asymmetric(input: Seq<DeviceViewModel>, t: int, u: int)
    requires
        sorts_before(input, t, u),
    ensures
        !sorts_before(input, u, t),
{
    let a = input[t];
    let b = input[u];
    if a.online == b.online {
        if text_less(a.host_name, b.host_name) {
            lemma_text_less_asymmetric(a.host_name, b.host_name);
            lemma_text_less_irreflexive(a.host_name);
        } else if a.host_name == b.host_name {
            lemma_text_less_irreflexive(a.host_name);
        }
    }
}

proof fn lemma_arrangement_increasing(
    input: Seq<DeviceViewModel>,
    output: Seq<DeviceViewModel>,
    p: Seq<int>,
    i: int,
    j: int,
)
    requires
        in_portal_order(output),
        stable_arrangement(input, output, p),
        0 <= i < j < p.len(),
    ensures
        sorts_before(input, p[i], p[j]),
{
    let a = output[i];
    let b = output[j];
    assert(a == input[p[i]]);
    assert(b == input[p[j]]);
    assert(!shown_before(b, a));
    if !shown_before(a, b) {
        if a.host_name != b.host_name {
            lemma_text_less_total(a.host_name, b.host_name);
        }
        assert(same_rank(a, b));
    }
}

proof fn lemma_arrangements_agree(
    input: Seq<DeviceViewModel>,
    o1: Seq<DeviceViewModel>,
    p1: Seq<int>,
    o2: Seq<DeviceViewModel>,
    p2: Seq<int>,
    k: int,
)
    requires
        in_portal_order(o1),
        in_portal_order(o2),
        stable_arrangement(input, o1, p1),
        stable_arrangement(input, o2, p2),
        0 <= k <= input.len(),
    ensures
        forall|i: int| 0 <= i < k ==> p1[i] == p2[i],
    decreases k,
{
    if k > 0 {
        lemma_arrangements_agree(input, o1, p1, o2, p2, k - 1);
        let c = k - 1;
        let a = p1[c];
        let b = p2[c];
        if a != b {
            lemma_arrangement_onto(input, o2, p2, a);
            let m = choose|m: int| 0 <= m < p2.len() && p2[m] == a;
            lemma_arrangement_onto(input, o1, p1, b);
            let m1 = choose|m: int| 0 <= m < p1.len() && p1[m] == b;
            if m < c {
                assert(p1[m] == a);
                assert(p1[m] != p1[c]);
            }
            if m1 < c {
                assert(p2[m1] == b);
                assert(p2[m1] != p2[c]);
            }
            assert(m > c && m1 > c);
            lemma_arrangement_increasing(input, o2, p2, c, m);
            lemma_arrangement_increasing(input, o1, p1, c, m1);
            lemma_sorts_before_asymmetric(input, b, a);
        }
    }
}

/// The portal's order of a group is determined by its devices: any two
/// stable sorts of the same devices are equal.
pub proof fn law_stable_sort_is_unique(
    input: Seq<DeviceViewModel>,
    o1: Seq<DeviceViewModel>,
    o2: Seq<DeviceViewModel>,
)
    requires
        is_stable_sort(input, o1),
        is_stable_sort(input, o2),
    ensures
        o1 == o2,
{
    let p1 = choose|p: Seq<int>| stable_arrangement(input, o1, p);
    let p2 = choose|p: Seq<int>| stable_arrangement(input, o2, p);
    lemma_arrangements_agree(input, o1, p1, o2, p2, input.len() as int);
    assert forall|i: int| 0 <= i < o1.len() implies o1[i] == o2[i] by {
        assert(o1[i] == input[p1[i]]);
        assert(o2[i] == input[p2[i]]);
    }
    assert(o1 =~= o2);
}

} // verus!
