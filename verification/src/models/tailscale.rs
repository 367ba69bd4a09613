//! The state of the tailnet as `tailscale status --json` reports it, and the
//! instant at which a device was last seen.
use vstd::prelude::*;
use crate::text::{has_prefix, starts_with};

verus! {

/// A user of the tailnet.
#[derive(Debug)]
pub struct User {
    pub id: Option<i64>,
    pub login_name: Option<String>,
    pub display_name: Option<String>,
}

/// What a `User` holds, as mathematical values.
pub struct UserModel {
    pub id: Option<i64>,
    pub login_name: Option<Seq<char>>,
    pub display_name: Option<Seq<char>>,
}

impl View for User {
    type V = UserModel;

    open spec fn view(&self) -> UserModel {
        UserModel {
            id: self.id,
            login_name: self.login_name.deep_view(),
            display_name: self.display_name.deep_view(),
        }
    }
}

/// The text of `chrono::DateTime::parse_from_rfc3339` read as an instant:
/// the UNIX seconds and the nanoseconds past that second, or none when
/// chrono does not accept the text.
pub uninterp spec fn rfc3339_instant(text: Seq<char>) -> Option<(i64, u32)>;

/// The text of the instant `secs`/`nanos` as chrono's
/// `DateTime::from_timestamp` and `format("%Y-%m-%d %H:%M:%S UTC")` write
/// it, or none when chrono does not represent that instant.
pub uninterp spec fn utc_display_text(secs: i64, nanos: u32) -> Option<Seq<char>>;

/// chrono's parse error, carried through as it is.
#[verifier::external_type_specification]
#[verifier::external_body]
pub struct ExParseError(chrono::ParseError);

/// Calls `chrono::DateTime::parse_from_rfc3339` and reads the result with
/// `timestamp` and `timestamp_subsec_nanos`.  Claimed: the instant is
/// `rfc3339_instant` of the text, and chrono can display it again, since its
/// documentation of `from_timestamp` promises a round trip with these two
/// readings.
#[verifier::external_body]
fn parse_rfc3339(text: &str) -> (r: Result<(i64, u32), chrono::ParseError>)
    ensures
        match r {
            Ok(t) => rfc3339_instant(text@) == Some(t) && utc_display_text(t.0, t.1) is Some,
            Err(_) => rfc3339_instant(text@) is None,
        },
{
    match chrono::DateTime::parse_from_rfc3339(text) {
        Ok(dt) => Ok((dt.timestamp(), dt.timestamp_subsec_nanos())),
        Err(e) => Err(e),
    }
}

/// Calls `chrono::DateTime::from_timestamp` and writes the result with
/// `format("%Y-%m-%d %H:%M:%S UTC")`.  Claimed: the text is
/// `utc_display_text` of the two numbers.
#[verifier::external_body]
fn format_utc_timestamp(secs: i64, nanos: u32) -> (r: Option<String>)
    ensures
        match r {
            Some(s) => utc_display_text(secs, nanos) == Some(s@),
            None => utc_display_text(secs, nanos) is None,
        },
{
    match chrono::DateTime::from_timestamp(secs, nanos) {
        Some(dt) => Some(dt.format("%Y-%m-%d %H:%M:%S UTC").to_string()),
        None => None,
    }
}

/// An instant in UTC that chrono can display.
#[derive(Debug)]
pub struct UtcInstant {
    secs: i64,
    nanos: u32,
}

impl UtcInstant {
    #[verifier::type_invariant]
    spec fn displayable(self) -> bool {
        utc_display_text(self.secs, self.nanos) is Some
    }

    /// UNIX seconds and the nanoseconds past that second.
    pub closed spec fn timestamp(self) -> (i64, u32) {
        (self.secs, self.nanos)
    }

    /// The instant's text, such as `2024-05-01 12:00:00 UTC`.
    pub fn display(&self) -> (r: String)
        ensures
            utc_display_text(self.timestamp().0, self.timestamp().1) == Some(r@),
    {
        proof {
            use_type_invariant(self);
        }
        match format_utc_timestamp(self.secs, self.nanos) {
            Some(s) => s,
            None => {
                proof {
                    assert(false);
                }
                String::new()
            },
        }
    }
}

impl View for UtcInstant {
    type V = (i64, u32);

    open spec fn view(&self) -> (i64, u32) {
        self.timestamp()
    }
}

/// The text that a device reports when it has never been seen.
pub open spec fn never_seen_prefix() -> Seq<char> {
    "0001-01-01"@
}

/// The value `parse_opt_datetime` gives for a `LastSeen` field: no instant
/// for an absent field or for the default date that starts with
/// `0001-01-01`, the instant of an RFC 3339 text, an error otherwise.
pub open spec fn last_seen_value(field: Option<Seq<char>>) -> Result<Option<(i64, u32)>, ()> {
    match field {
        None => Ok(None),
        Some(text) => if has_prefix(text, never_seen_prefix()) {
            Ok(None)
        } else {
            match rfc3339_instant(text) {
                Some(t) => Ok(Some(t)),
                None => Err(()),
            }
        },
    }
}

/// Why a `LastSeen` text was refused: chrono's error.
#[derive(Debug)]
pub struct DateParseError {
    pub cause: chrono::ParseError,
}

/// What a result of `parse_opt_datetime` amounts to.
pub open spec fn parsed_last_seen(r: Result<Option<UtcInstant>, DateParseError>) -> Result<Option<(i64, u32)>, ()> {
    match r {
        Ok(Some(t)) => Ok(Some(t@)),
        Ok(None) => Ok(None),
        Err(_) => Err(()),
    }
}

/// Reads the `LastSeen` field of a device.
pub fn parse_opt_datetime(field: Option<String>) -> (r: Result<Option<UtcInstant>, DateParseError>)
    ensures
        parsed_last_seen(r) == last_seen_value(field.deep_view()),
{
    match field {
        None => Ok(None),
        Some(text) => {
            proof {
                reveal_strlit("0001-01-01");
            }
            if starts_with(text.as_str(), "0001-01-01") {
                return Ok(None);
            }
            match parse_rfc3339(text.as_str()) {
                Ok(t) => Ok(Some(UtcInstant { secs: t.0, nanos: t.1 })),
                Err(e) => Err(DateParseError { cause: e }),
            }
        },
    }
}

/// A device of the tailnet.
#[derive(Debug)]
pub struct Device {
    pub id: Option<String>,
    pub host_name: Option<String>,
    pub os: Option<String>,
    pub ips: Option<Vec<String>>,
    pub user_id: Option<i64>,
    pub online: Option<bool>,
    pub peer_api_url: Option<Vec<String>>,
    pub last_seen: Option<UtcInstant>,
}

/// What a `Device` holds, as mathematical values.
pub struct DeviceModel {
    pub id: Option<Seq<char>>,
    pub host_name: Option<Seq<char>>,
    pub os: Option<Seq<char>>,
    pub ips: Option<Seq<Seq<char>>>,
    pub user_id: Option<i64>,
    pub online: Option<bool>,
    pub peer_api_url: Option<Seq<Seq<char>>>,
    pub last_seen: Option<(i64, u32)>,
}

impl View for Device {
    type V = DeviceModel;

    open spec fn view(&self) -> DeviceModel {
        DeviceModel {
            id: self.id.deep_view(),
            host_name: self.host_name.deep_view(),
            os: self.os.deep_view(),
            ips: self.ips.deep_view(),
            user_id: self.user_id,
            online: self.online,
            peer_api_url: self.peer_api_url.deep_view(),
            last_seen: match self.last_seen {
                Some(t) => Some(t@),
                None => None,
            },
        }
    }
}

/// The models of a sequence of devices.
pub open spec fn device_models(devices: Seq<Device>) -> Seq<DeviceModel> {
    devices.map_values(|d: Device| d@)
}

/// The users of the tailnet, each under the key of its entry in the status
/// (the user's id in decimal).
pub open spec fn user_models(users: Seq<(String, User)>) -> Seq<(Seq<char>, UserModel)> {
    users.map_values(|u: (String, User)| (u.0@, u.1@))
}

/// The state of the tailnet: this device, its peers (in the order in which
/// the status listed them; their keys are not read) and the users.
#[derive(Debug)]
pub struct TailscaleStatus {
    pub self_device: Option<Device>,
    pub peers: Option<Vec<Device>>,
    pub users: Option<Vec<(String, User)>>,
}

/// What a `TailscaleStatus` holds, as mathematical values.
pub struct TailscaleStatusModel {
    pub self_device: Option<DeviceModel>,
    pub peers: Option<Seq<DeviceModel>>,
    pub users: Option<Seq<(Seq<char>, UserModel)>>,
}

impl View for TailscaleStatus {
    type V = TailscaleStatusModel;

    open spec fn view(&self) -> TailscaleStatusModel {
        TailscaleStatusModel {
            self_device: match self.self_device {
                Some(d) => Some(d@),
                None => None,
            },
            peers: match self.peers {
                Some(p) => Some(device_models(p@)),
                None => None,
            },
            users: match self.users {
                Some(u) => Some(user_models(u@)),
                None => None,
            },
        }
    }
}

} // verus!
