//! Managing the list of configured services, and the hosts that a new
//! service may be placed on.
use vstd::prelude::*;
use crate::models::service::{
    entry_from_form, new_service_entry, AddServiceForm, AddServiceFormModel, RemoveServiceForm,
    ServiceConfig, ServiceEntryModel,
};
use crate::models::tailscale::{device_models, DeviceModel, TailscaleStatus, TailscaleStatusModel};
use crate::text::{
    is_text_less, lemma_text_less_total, lemma_text_less_transitive, strictly_ascending, text_less,
};

verus! {

/// Adds the service that the form describes at the end of the list.
pub fn add_service(config: &mut ServiceConfig, form: AddServiceForm)
    ensures
        final(config)@ == old(config)@.push(entry_from_form(form@)),
{
    let ghost f = form@;
    let entry = new_service_entry(form);
    config.service.push(entry);
    assert(final(config)@ =~= old(config)@.push(entry_from_form(f)));
}

/// Why a request to change the list was refused.
#[derive(Debug)]
pub enum ManageError {
    /// The position names no service of the list.
    InvalidServiceIndex,
}

/// Removes the service at the position that the form names; a position
/// past the end is refused and leaves the list as it was.
pub fn remove_service(config: &mut ServiceConfig, form: &RemoveServiceForm) -> (r: Result<
    (),
    ManageError,
>)
    ensures
        r is Ok <==> form.index < old(config)@.len(),
        r is Ok ==> final(config)@ == old(config)@.remove(form.index as int),
        r is Err ==> final(config)@ == old(config)@ && r == Err::<(), ManageError>(
            ManageError::InvalidServiceIndex,
        ),
{
    if form.index < config.service.len() {
        let _removed = config.service.remove(form.index);
        assert(final(config)@ =~= old(config)@.remove(form.index as int));
        Ok(())
    } else {
        Err(ManageError::InvalidServiceIndex)
    }
}

/// Removing the service at the end of the list undoes adding it.
pub proof fn law_remove_undoes_add(services: Seq<ServiceEntryModel>, form: AddServiceFormModel)
    ensures
        services.push(entry_from_form(form)).remove(services.len() as int) == services,
{
    assert(services.push(entry_from_form(form)).remove(services.len() as int) =~= services);
}

/// Removing a service keeps every other service, in its order.
pub proof fn law_remove_keeps_others(services: Seq<ServiceEntryModel>, index: int, j: int)
    requires
        0 <= index < services.len(),
        0 <= j < services.len(),
        j != index,
    ensures
        services.remove(index).len() == services.len() - 1,
        services.remove(index)[if j < index {
            j
        } else {
            j - 1
        }] == services[j],
{
}

/// One of the first `n` peers is online on `host`.
pub open spec fn online_peer_host(peers: Seq<DeviceModel>, n: int, host: Seq<char>) -> bool {
    exists|k: int| 0 <= k < n && #[trigger] peers[k].host_name == Some(host) && peers[k].online == Some(true)
}

/// A host that a service may be placed on: this device's host, or the host
/// of a peer that is online.
pub open spec fn is_available_host(status: TailscaleStatusModel, host: Seq<char>) -> bool {
    ||| status.self_device matches Some(d) && d.host_name == Some(host)
    ||| status.peers matches Some(peers) && online_peer_host(peers, peers.len() as int, host)
}

proof fn lemma_online_peer_host_step(peers: Seq<DeviceModel>, n: int, host: Seq<char>)
    requires
        0 <= n < peers.len(),
    ensures
        online_peer_host(peers, n + 1, host) <==> (online_peer_host(peers, n, host) || (
        peers[n].host_name == Some(host) && peers[n].online == Some(true))),
{
    if online_peer_host(peers, n + 1, host) {
        let k = choose|k: int|
            0 <= k < n + 1 && #[trigger] peers[k].host_name == Some(host) && peers[k].online == Some(
                true,
            );
        if k < n {
            assert(online_peer_host(peers, n, host));
        }
    }
    if online_peer_host(peers, n, host) {
        let k = choose|k: int|
            0 <= k < n && #[trigger] peers[k].host_name == Some(host) && peers[k].online == Some(
                true,
            );
        assert(peers[k].host_name == Some(host));
    }
    if peers[n].host_name == Some(host) && peers[n].online == Some(true) {
        assert(peers[n].host_name == Some(host));
    }
}

proof fn lemma_hosts_step(
    before: Seq<Seq<char>>,
    after: Seq<Seq<char>>,
    own: Set<Seq<char>>,
    peers: Seq<DeviceModel>,
    n: int,
)
    requires
        0 <= n < peers.len(),
        forall|h: Seq<char>| before.contains(h) <==> (own.contains(h) || online_peer_host(peers, n, h)),
        peers[n].host_name is Some && peers[n].online == Some(true) ==> forall|h: Seq<char>|
            after.contains(h) <==> (before.contains(h) || Some(h) == peers[n].host_name),
        !(peers[n].host_name is Some && peers[n].online == Some(true)) ==> after == before,
    ensures
        forall|h: Seq<char>| after.contains(h) <==> (own.contains(h) || online_peer_host(peers, n + 1, h)),
{
    assert forall|h: Seq<char>| after.contains(h) <==> (own.contains(h) || online_peer_host(peers, n + 1, h)) by {
        lemma_online_peer_host_step(peers, n, h);
        assert(before.contains(h) <==> (own.contains(h) || online_peer_host(peers, n, h)));
    }
}

proof fn lemma_available_hosts_final(
    status: TailscaleStatusModel,
    hosts: Seq<Seq<char>>,
    own: Set<Seq<char>>,
    pm: Seq<DeviceModel>,
    n: int,
)
    requires
        forall|h: Seq<char>| own.contains(h) <==> (status.self_device matches Some(d) && d.host_name == Some(h)),
        status.peers is Some ==> status.peers == Some(pm) && n == pm.len(),
        status.peers is None ==> n == 0,
        forall|h: Seq<char>| hosts.contains(h) <==> (own.contains(h) || online_peer_host(pm, n, h)),
    ensures
        forall|h: Seq<char>| hosts.contains(h) <==> is_available_host(status, h),
{
    assert forall|h: Seq<char>| hosts.contains(h) <==> is_available_host(status, h) by {
        assert(hosts.contains(h) <==> (own.contains(h) || online_peer_host(pm, n, h)));
        assert(own.contains(h) <==> (status.self_device matches Some(d) && d.host_name == Some(h)));
        if online_peer_host(pm, n, h) {
            let k = choose|k: int| 0 <= k < n && #[trigger] pm[k].host_name == Some(h) && pm[k].online == Some(true);
            assert(pm[k].host_name == Some(h));
        }
    }
}

/// Adds `text` to an ascending list without repeating it.
fn insert_ascending(list: &mut Vec<String>, text: String)
    requires
        strictly_ascending(old(list).deep_view()),
    ensures
        strictly_ascending(final(list).deep_view()),
        forall|t: Seq<char>|
            final(list).deep_view().contains(t) <==> (old(list).deep_view().contains(t) || t
                == text@),
{
    let ghost before = list.deep_view();
    let mut i: usize = 0;
    while i < list.len() && is_text_less(list[i].as_str(), text.as_str())
        invariant
            i <= list.len(),
            before == list.deep_view(),
            forall|j: int| 0 <= j < i ==> text_less(before[j], text@),
        decreases list.len() - i,
    {
        i = i + 1;
    }
    if i < list.len() && list[i] == text {
        assert(before[i as int] == text@);
        return;
    }
    proof {
        if i < list.len() {
            lemma_text_less_total(before[i as int], text@);
            assert(text_less(text@, before[i as int]));
            assert forall|k: int| i < k < before.len() implies text_less(text@, before[k]) by {
                lemma_text_less_transitive(text@, before[i as int], before[k]);
            }
        }
    }
    list.insert(i, text);
    let ghost after = list.deep_view();
    assert(after =~= before.insert(i as int, text@));
    assert forall|t: Seq<char>| after.contains(t) <==> (before.contains(t) || t == text@) by {
        if after.contains(t) {
            let k = choose|k: int| 0 <= k < after.len() && after[k] == t;
            if k < i {
                assert(before[k] == t);
            } else if k > i {
                assert(before[k - 1] == t);
            }
        }
        if before.contains(t) {
            let k = choose|k: int| 0 <= k < before.len() && before[k] == t;
            if k < i {
                assert(after[k] == t);
            } else {
                assert(after[k + 1] == t);
            }
        }
        if t == text@ {
            assert(after[i as int] == t);
        }
    }
}

/// The hosts that a new service may be placed on, in ascending order and
/// each once: this device's host, and the hosts of the peers that are
/// online.
pub fn available_hosts(status: &TailscaleStatus) -> (hosts: Vec<String>)
    ensures
        strictly_ascending(hosts.deep_view()),
        forall|h: Seq<char>| hosts.deep_view().contains(h) <==> is_available_host(status@, h),
{
    let mut hosts: Vec<String> = Vec::new();
    assert(hosts.deep_view() =~= Seq::<Seq<char>>::empty());
    if let Some(self_dev) = &status.self_device {
        if let Some(host) = &self_dev.host_name {
            insert_ascending(&mut hosts, host.clone());
        }
    }
    let ghost own: Set<Seq<char>> = match status@.self_device {
        Some(d) => match d.host_name {
            Some(h) => set![h],
            None => Set::empty(),
        },
        None => Set::empty(),
    };
    assert forall|h: Seq<char>| hosts.deep_view().contains(h) <==> own.contains(h) by {
        if let Some(d) = status@.self_device {
            if let Some(x) = d.host_name {
                assert(own.contains(x));
            }
        }
    }
    if let Some(peers) = &status.peers {
        let ghost pm = device_models(peers@);
        let mut i: usize = 0;
        while i < peers.len()
            invariant
                status@.peers == Some(pm),
                pm == device_models(peers@),
                i <= peers.len(),
                strictly_ascending(hosts.deep_view()),
                forall|h: Seq<char>|
                    hosts.deep_view().contains(h) <==> (own.contains(h) || online_peer_host(
                        pm,
                        i as int,
                        h,
                    )),
            decreases peers.len() - i,
        {
            let dev = &peers[i];
            assert(pm[i as int] == dev@);
            let ghost before = hosts.deep_view();
            if let Some(host) = &dev.host_name {
                let online = match dev.online {
                    Some(b) => b,
                    None => false,
                };
                if online {
                    insert_ascending(&mut hosts, host.clone());
                }
            }
            proof {
                lemma_hosts_step(before, hosts.deep_view(), own, pm, i as int);
            }
            i = i + 1;
        }
        assert(pm.len() == i);
        proof {
            lemma_available_hosts_final(status@, hosts.deep_view(), own, pm, i as int);
        }
    } else {
        proof {
            assert forall|h: Seq<char>| hosts.deep_view().contains(h) <==> (own.contains(h) || online_peer_host(Seq::<DeviceModel>::empty(), 0, h)) by {
                assert(hosts.deep_view().contains(h) <==> own.contains(h));
            }
            lemma_available_hosts_final(status@, hosts.deep_view(), own, Seq::empty(), 0);
        }
    }
    hosts
}

} // verus!
