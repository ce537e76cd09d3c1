//! Decisions about the build server: which one to use, how to ask for one, and
//! under which key.

use vstd::prelude::*;
use vstd::string::*;
use std::collections::hash_map::DefaultHasher;
use std::hash::Hasher;
use vstd::std_specs::hash::DefaultHasherAdditionalSpecFns;
use crate::config::{
    hetzner_location, location, BOOTSTRAP_PACKAGES, HETZNER_IMAGE, HETZNER_SERVER_NAME,
    HETZNER_SERVER_TYPE, LOCATION_COUNT, REMOTE_DATA_DIR,
};
use crate::text::{
    chars_of, contains_text, decimal, has_part, hex, lower_case, lowercase, nth_word, push_decimal, push_hex, same_text, string_of, trim_string, trimmed, word_from,
};

verus! {

pub struct Ipv4Info {
    pub ip: String,
}

pub struct PublicNet {
    pub ipv4: Option<Ipv4Info>,
}

/// A server as the provider lists it.
pub struct ServerInfo {
    pub id: u64,
    pub name: String,
    pub status: String,
    pub public_net: PublicNet,
}

impl ServerInfo {
    /// The address, where there is one.
    pub open spec fn address(&self) -> Option<Seq<char>> {
        match self.public_net.ipv4 {
            Some(v) => Some(v.ip@),
            None => None,
        }
    }

    /// Computes [`ServerInfo::address`].
    pub fn ipv4(&self) -> (r: Option<&str>)
        ensures
            match r {
                Some(ip) => self.address() == Some(ip@),
                None => self.address() is None,
            },
    {
        match &self.public_net.ipv4 {
            Some(v) => Some(v.ip.as_str()),
            None => None,
        }
    }

    /// Whether the server is up.
    pub fn is_running(&self) -> (r: bool)
        ensures
            r == (self.status@ == "running"@),
    {
        same_text(self.status.as_str(), "running")
    }
}

/// Position of the first server with this name.
pub fn find_server(servers: &Vec<ServerInfo>, name: &str) -> (r: Option<usize>)
    ensures
        match r {
            Some(i) => i < servers@.len() && servers@[i as int].name@ == name@ && forall|k: int|
                0 <= k < i ==> (#[trigger] servers@[k]).name@ != name@,
            None => forall|k: int| 0 <= k < servers@.len() ==> (#[trigger] servers@[k]).name@ != name@,
        },
{
    for i in 0..servers.len()
        invariant
            forall|k: int| 0 <= k < i ==> (#[trigger] servers@[k]).name@ != name@,
    {
        if same_text(servers[i].name.as_str(), name) {
            return Some(i);
        }
    }
    None
}

/// The query for servers of one name.
pub fn server_query(name: &str) -> (r: String)
    ensures
        r@ == "/servers?name="@ + name@,
{
    let mut out: String = String::from_str("/servers?name=");
    out.append(name);
    out
}

/// The resource of one server.
pub fn server_path(id: u64) -> (r: String)
    ensures
        r@ == "/servers/"@ + decimal(id as nat),
{
    let mut out: String = String::from_str("/servers/");
    push_decimal(&mut out, id);
    out
}

/// What a new server is asked for with.
pub struct CreateServerRequest {
    pub name: String,
    pub server_type: String,
    pub image: String,
    pub location: String,
    pub ssh_keys: Vec<u64>,
    pub enable_ipv4: bool,
    pub enable_ipv6: bool,
}

/// The request for a server in place number `i`, with an address of version 4
/// only.
pub fn create_request(ssh_key_id: u64, i: usize) -> (r: CreateServerRequest)
    requires
        i < LOCATION_COUNT,
    ensures
        r.name@ == HETZNER_SERVER_NAME@,
        r.server_type@ == HETZNER_SERVER_TYPE@,
        r.image@ == HETZNER_IMAGE@,
        r.location@ == location(i as int),
        r.ssh_keys@ == seq![ssh_key_id],
        r.enable_ipv4,
        !r.enable_ipv6,
{
    let mut ssh_keys: Vec<u64> = Vec::new();
    ssh_keys.push(ssh_key_id);
    assert(ssh_keys@ =~= seq![ssh_key_id]);
    CreateServerRequest {
        name: String::from_str(HETZNER_SERVER_NAME),
        server_type: String::from_str(HETZNER_SERVER_TYPE),
        image: String::from_str(HETZNER_IMAGE),
        location: String::from_str(hetzner_location(i)),
        ssh_keys,
        enable_ipv4: true,
        enable_ipv6: false,
    }
}

/// What follows a refused request for a server.
#[derive(Debug, Clone, Copy, PartialEq, Eq)]
pub enum CreateStep {
    /// Try this place.
    Try(usize),
    /// Give up: the refusal is about something else.
    Refused,
    /// Give up: no place is left.
    NoLocation,
}

/// The place is closed, says the refusal.
pub open spec fn place_closed(text: Seq<char>) -> bool {
    has_part(lower_case(text), "unavailable"@) || has_part(lower_case(text), "disabled"@)
}

/// Decides what follows when the provider refused a server in place number `i`
/// with these words: the next place where this one is closed.
pub fn after_refusal(i: usize, text: &str) -> (r: CreateStep)
    requires
        i < LOCATION_COUNT,
    ensures
        r == if !place_closed(text@) {
            CreateStep::Refused
        } else if i + 1 < LOCATION_COUNT {
            CreateStep::Try((i + 1) as usize)
        } else {
            CreateStep::NoLocation
        },
{
    let low = lowercase(text);
    next_place(i, low.as_str())
}

/// [`after_refusal`] once the words are in small letters.
pub fn next_place(i: usize, low: &str) -> (r: CreateStep)
    requires
        i < LOCATION_COUNT,
    ensures
        r == if !(has_part(low@, "unavailable"@) || has_part(low@, "disabled"@)) {
            CreateStep::Refused
        } else if i + 1 < LOCATION_COUNT {
            CreateStep::Try((i + 1) as usize)
        } else {
            CreateStep::NoLocation
        },
{
    if !contains_text(low, "unavailable") && !contains_text(low, "disabled") {
        CreateStep::Refused
    } else if i + 1 < LOCATION_COUNT {
        CreateStep::Try(i + 1)
    } else {
        CreateStep::NoLocation
    }
}

/// A key as the provider lists it.
pub struct SshKeyInfo {
    pub id: u64,
    pub name: String,
    pub public_key: String,
}

/// What tells keys apart: the second word, or the whole text where there is
/// none.
pub open spec fn fingerprint(key: Seq<char>) -> Seq<char> {
    match word_from(trimmed(key), 0, 1) {
        Some(w) => w,
        None => trimmed(key),
    }
}

/// Computes [`fingerprint`].
pub fn key_fingerprint(key: &str) -> (r: String)
    ensures
        r@ == fingerprint(key@),
{
    let text = trim_string(key);
    match nth_word(text.as_str(), 1) {
        Some(w) => w,
        None => text,
    }
}

/// Name of a key: its comment, cut to sixteen characters.
pub open spec fn display_name(comment: Option<Seq<char>>) -> Seq<char> {
    match comment {
        Some(c) if c.len() > 0 => "asw-"@ + c.take(
            if c.len() < 16 {
                c.len() as int
            } else {
                16
            },
        ),
        _ => "asw-key"@,
    }
}

/// Derives a key's name from its comment. It counts characters, so that none is
/// cut apart.
pub fn ssh_key_name(comment: Option<&str>) -> (r: String)
    ensures
        match comment {
            Some(c) => r@ == display_name(Some(c@)),
            None => r@ == display_name(None),
        },
{
    match comment {
        Some(c) => {
            let chars = chars_of(c);
            let n: usize = chars.len();
            if n == 0 {
                return String::from_str("asw-key");
            }
            let cut: usize = if n < 16 {
                n
            } else {
                16
            };
            let head = string_of(&chars, 0, cut);
            let mut out: String = String::from_str("asw-");
            out.append(head.as_str());
            assert(head@ =~= c@.take(cut as int));
            out
        },
        None => String::from_str("asw-key"),
    }
}

/// Hash of a text: its bytes, then one that no text holds.
pub open spec fn text_hash(s: Seq<char>) -> u64 {
    DefaultHasher::spec_finish(seq![vstd::utf8::encode_utf8(s), seq![0xffu8]])
}

/// Sixteen bits of a hash of the text, in hexadecimal. It tells names apart and
/// is no safeguard.
pub fn short_hash(input: &str) -> (r: String)
    ensures
        r@ == hex((text_hash(input@) % 0x1_0000) as nat),
{
    let mut hasher = DefaultHasher::new();
    hasher.write(input.as_bytes());
    let mut end: Vec<u8> = Vec::new();
    end.push(0xff);
    assert(end@ =~= seq![0xffu8]);
    hasher.write(end.as_slice());
    assert(hasher@ =~= seq![vstd::utf8::encode_utf8(input@), seq![0xffu8]]);
    let value: u64 = hasher.finish() % 0x1_0000;
    let mut out: String = String::new();
    push_hex(&mut out, value);
    assert(out@ =~= hex(value as nat));
    out
}

/// Which key to use.
pub enum KeyChoice {
    /// One that is registered already.
    Existing(u64),
    /// A new one, to be registered under this name.
    Create { name: String, public_key: String },
}

/// Position of the first registered key with this fingerprint.
pub open spec fn same_key(keys: Seq<SshKeyInfo>, print: Seq<char>, i: int) -> bool {
    &&& 0 <= i < keys.len()
    &&& fingerprint(keys[i].public_key@) == print
    &&& forall|k: int|
        0 <= k < i ==> fingerprint((#[trigger] keys[k]).public_key@) != print
}

/// Name under which a new key is registered: that of its comment, with a hash
/// that keeps it apart from others of the same comment.
pub open spec fn new_key_name(pubkey: Seq<char>) -> Seq<char> {
    display_name(word_from(pubkey, 0, 2)).push('-') + hex((text_hash(pubkey) % 0x1_0000) as nat)
}

/// Finds the public key among those registered, or says how to register it.
/// Comments do not count.
pub fn choose_ssh_key(pubkey_file: &str, existing: &Vec<SshKeyInfo>) -> (r: KeyChoice)
    ensures
        match r {
            KeyChoice::Existing(id) => exists|i: int| #[trigger]
                same_key(existing@, fingerprint(pubkey_file@), i) && existing@[i].id == id,
            KeyChoice::Create { name, public_key } => {
                &&& forall|k: int|
                    0 <= k < existing@.len() ==> fingerprint((#[trigger] existing@[k]).public_key@)
                        != fingerprint(pubkey_file@)
                &&& public_key@ == trimmed(pubkey_file@)
                &&& name@ == new_key_name(trimmed(pubkey_file@))
            },
        },
{
    let print = key_fingerprint(pubkey_file);
    for i in 0..existing.len()
        invariant
            print@ == fingerprint(pubkey_file@),
            forall|k: int|
                0 <= k < i ==> fingerprint((#[trigger] existing@[k]).public_key@) != print@,
    {
        let other = key_fingerprint(existing[i].public_key.as_str());
        if same_text(other.as_str(), print.as_str()) {
            assert(same_key(existing@, fingerprint(pubkey_file@), i as int));
            return KeyChoice::Existing(existing[i].id);
        }
    }
    let public_key = trim_string(pubkey_file);
    let mut name: String = match nth_word(public_key.as_str(), 2) {
        Some(comment) => ssh_key_name(Some(comment.as_str())),
        None => ssh_key_name(None),
    };
    name.push('-');
    let hash = short_hash(public_key.as_str());
    name.append(hash.as_str());
    KeyChoice::Create { name, public_key }
}

/// What stands in the way of a server.
#[derive(Debug, Clone, Copy, PartialEq, Eq)]
pub enum ProvisionError {
    /// The server that exists has no address.
    ExistingWithoutAddress,
    /// The public key does not lie next to the private one.
    NoPublicKey,
    /// The new server has no address.
    NewWithoutAddress,
}

/// How to come by a server.
pub enum Provision {
    /// Use the one at this address.
    Use(String),
    /// Create one.
    Create,
}

/// Decides how to come by a server: `existing` is the one that is there already,
/// `pubkey_present` says whether the public key lies next to the private one.
pub fn provision(existing: Option<&ServerInfo>, pubkey_present: bool) -> (r: Result<
    Provision,
    ProvisionError,
>)
    ensures
        match existing {
            Some(server) => match server.address() {
                Some(ip) => r matches Ok(Provision::Use(a)) && a@ == ip,
                None => r == Err::<Provision, ProvisionError>(
                    ProvisionError::ExistingWithoutAddress,
                ),
            },
            None => if pubkey_present {
                r == Ok::<Provision, ProvisionError>(Provision::Create)
            } else {
                r == Err::<Provision, ProvisionError>(ProvisionError::NoPublicKey)
            },
        },
{
    match existing {
        Some(server) => match server.ipv4() {
            Some(ip) => Ok(Provision::Use(String::from_str(ip))),
            None => Err(ProvisionError::ExistingWithoutAddress),
        },
        None => if pubkey_present {
            Ok(Provision::Create)
        } else {
            Err(ProvisionError::NoPublicKey)
        },
    }
}

/// The address of a server that was just created.
pub fn created_address(server: &ServerInfo) -> (r: Result<String, ProvisionError>)
    ensures
        match server.address() {
            Some(ip) => r matches Ok(a) && a@ == ip,
            None => r == Err::<String, ProvisionError>(ProvisionError::NewWithoutAddress),
        },
{
    match server.ipv4() {
        Some(ip) => Ok(String::from_str(ip)),
        None => Err(ProvisionError::NewWithoutAddress),
    }
}

/// Decides which server to delete, if any, and under which address it is known.
pub fn teardown(found: Option<&ServerInfo>) -> (r: Option<(u64, String)>)
    ensures
        match found {
            Some(server) => r matches Some(d) && d.0 == server.id && d.1@
                == match server.address() {
                Some(ip) => ip,
                None => "?"@,
            },
            None => r is None,
        },
{
    match found {
        Some(server) => {
            let ip = match server.ipv4() {
                Some(ip) => ip,
                None => "?",
            };
            Some((server.id, String::from_str(ip)))
        },
        None => None,
    }
}

/// Number, address and state of the server, where there is one.
pub fn status(found: Option<&ServerInfo>) -> (r: Option<(u64, String, String)>)
    ensures
        match found {
            Some(server) => r matches Some(s) && s.0 == server.id && s.1@
                == match server.address() {
                Some(ip) => ip,
                None => ""@,
            } && s.2@ == server.status@,
            None => r is None,
        },
{
    match found {
        Some(server) => {
            let ip = match server.ipv4() {
                Some(ip) => ip,
                None => "",
            };
            Some((server.id, String::from_str(ip), server.status.clone()))
        },
        None => None,
    }
}

/// Script that prepares a new server.
pub open spec fn bootstrap_text() -> Seq<char> {
    "set -euo pipefail\nexport DEBIAN_FRONTEND=noninteractive\napt-get update -qq\napt-get install -y -qq "@
        + BOOTSTRAP_PACKAGES@ + "\nmkdir -p "@ + REMOTE_DATA_DIR@
        + "\necho \"Bootstrap complete — ready for asw build\"\n"@
}

/// Computes [`bootstrap_text`].
pub fn bootstrap() -> (r: String)
    ensures
        r@ == bootstrap_text(),
{
    let mut out: String = String::from_str(
        "set -euo pipefail\nexport DEBIAN_FRONTEND=noninteractive\napt-get update -qq\napt-get install -y -qq ",
    );
    out.append(BOOTSTRAP_PACKAGES);
    out.append("\nmkdir -p ");
    out.append(REMOTE_DATA_DIR);
    out.append("\necho \"Bootstrap complete — ready for asw build\"\n");
    out
}

} // verus!
