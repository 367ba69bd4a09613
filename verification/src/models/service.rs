//! Configured services and the forms that add or remove one.
use vstd::prelude::*;

verus! {

/// One configured service: a name on a host, reached either through an
/// explicit URL or through the host's address and an optional port.
#[derive(Debug)]
pub struct ServiceEntry {
    pub host: String,
    pub name: String,
    pub port: Option<u16>,
    pub url: Option<String>,
}

/// What a `ServiceEntry` holds, as mathematical values.
pub struct ServiceEntryModel {
    pub host: Seq<char>,
    pub name: Seq<char>,
    pub port: Option<u16>,
    pub url: Option<Seq<char>>,
}

impl View for ServiceEntry {
    type V = ServiceEntryModel;

    open spec fn view(&self) -> ServiceEntryModel {
        ServiceEntryModel {
            host: self.host@,
            name: self.name@,
            port: self.port,
            url: self.url.deep_view(),
        }
    }
}

/// The models of a sequence of entries.
pub open spec fn entry_models(entries: Seq<ServiceEntry>) -> Seq<ServiceEntryModel> {
    entries.map_values(|e: ServiceEntry| e@)
}

/// The list of configured services, in the order of the configuration file.
#[derive(Debug)]
pub struct ServiceConfig {
    pub service: Vec<ServiceEntry>,
}

impl View for ServiceConfig {
    type V = Seq<ServiceEntryModel>;

    open spec fn view(&self) -> Seq<ServiceEntryModel> {
        entry_models(self.service@)
    }
}

/// The form that asks for a new service; a port of 0 and an empty URL mean
/// that none was given.
#[derive(Debug)]
pub struct AddServiceForm {
    pub host: String,
    pub name: String,
    pub port: u16,
    pub url: String,
}

/// What an `AddServiceForm` holds, as mathematical values.
pub struct AddServiceFormModel {
    pub host: Seq<char>,
    pub name: Seq<char>,
    pub port: u16,
    pub url: Seq<char>,
}

impl View for AddServiceForm {
    type V = AddServiceFormModel;

    open spec fn view(&self) -> AddServiceFormModel {
        AddServiceFormModel { host: self.host@, name: self.name@, port: self.port, url: self.url@ }
    }
}

/// The form that asks to remove the service at a position of the list.
#[derive(Debug)]
pub struct RemoveServiceForm {
    pub index: usize,
}

/// The entry that a form describes: a port only when it is positive, a URL
/// only when it is not empty.
pub open spec fn entry_from_form(form: AddServiceFormModel) -> ServiceEntryModel {
    ServiceEntryModel {
        host: form.host,
        name: form.name,
        port: if form.port > 0 {
            Some(form.port)
        } else {
            None
        },
        url: if form.url.len() == 0 {
            None
        } else {
            Some(form.url)
        },
    }
}

/// Builds the entry that a form describes.
pub fn new_service_entry(form: AddServiceForm) -> (entry: ServiceEntry)
    ensures
        entry@ == entry_from_form(form@),
{
    let url_empty = form.url.as_str().unicode_len() == 0;
    ServiceEntry {
        host: form.host,
        name: form.name,
        port: if form.port > 0 {
            Some(form.port)
        } else {
            None
        },
        url: if url_empty {
            None
        } else {
            Some(form.url)
        },
    }
}

} // verus!
