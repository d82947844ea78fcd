//! The settings of routers.

use super::phones::{
    find_phone_twice, find_router_twice, first_phone_twice, first_router_twice, parse_phones,
    phones_from, Phone,
};
use super::{
    bounded, bounded_var, endpoint_var, guid_var, need_endpoint, need_guid, need_servers, need_text,
    number, number_var, servers_var, text_or, text_or_default, text_var, ConfigError, ConfigModel,
    Expected, Vars,
};
use crate::address_text::AddressTexts;
use crate::guid::Guid;
use crate::multilink::DEFAULT_REORDER_WAIT;
use crate::net::{cidr_in, parse_cidr, Endpoint};
use crate::reorder::lateness::MILLI;
use crate::text::{decimal, push_decimal, trim, trimmed};
use crate::vps::{parse_server, server_in};
use vstd::prelude::*;

verus! {

/// The settings of a router that relays between phones and a server.
#[derive(Debug)]
pub struct RelayConfig {
    pub stun_addrs: Vec<Endpoint>,
    pub mqtt_addr: Endpoint,
    pub mqtt_ca: String,
    pub server_my_id: Guid,
    pub server_peer_id: Guid,
    pub phones: Vec<Phone>,
}

/// What the settings of a relaying router say.
pub struct RelayModel {
    pub stun_addrs: Seq<Endpoint>,
    pub mqtt_addr: Endpoint,
    pub mqtt_ca: Seq<char>,
    pub server_my_id: Guid,
    pub server_peer_id: Guid,
    pub phones: Seq<Phone>,
}

impl View for RelayConfig {
    type V = RelayModel;

    open spec fn view(&self) -> RelayModel {
        RelayModel {
            stun_addrs: self.stun_addrs@,
            mqtt_addr: self.mqtt_addr,
            mqtt_ca: self.mqtt_ca@,
            server_my_id: self.server_my_id,
            server_peer_id: self.server_peer_id,
            phones: self.phones@,
        }
    }
}

/// The router's GUID is its own in every set of holes, and no phone is listed twice.
pub open spec fn ids_checked(model: RelayModel) -> Result<RelayModel, ConfigModel> {
    match first_router_twice(model.server_my_id, model.phones) {
        Some(id) => Err(ConfigModel::RelayTwice(id)),
        None => match first_phone_twice(model.phones) {
            Some(id) => Err(ConfigModel::PhoneTwice(id)),
            None => Ok(model),
        },
    }
}

/// What the settings of a relaying router say, once its phones are known.
pub open spec fn relay_with(vars: Vars, texts: AddressTexts, phones: Seq<Phone>) -> Result<
    RelayModel,
    ConfigModel,
> {
    match servers_var(vars, texts) {
        Err(e) => Err(e),
        Ok(stun_addrs) => match endpoint_var(vars, "MQTT_ADDR"@, texts, false) {
            Err(e) => Err(e),
            Ok(mqtt_addr) => match text_var(vars, "MQTT_CA"@) {
                Err(e) => Err(e),
                Ok(mqtt_ca) => match guid_var(vars, "SERVER_MY_ID"@, false) {
                    Err(e) => Err(e),
                    Ok(server_my_id) => match guid_var(vars, "SERVER_PEER_ID"@, false) {
                        Err(e) => Err(e),
                        Ok(server_peer_id) => ids_checked(
                            RelayModel {
                                stun_addrs,
                                mqtt_addr,
                                mqtt_ca,
                                server_my_id,
                                server_peer_id,
                                phones,
                            },
                        ),
                    },
                },
            },
        },
    }
}

/// What the settings of a relaying router say, or the first thing that is wrong with them. There
/// has to be a phone.
pub open spec fn relay_in(vars: Vars, texts: AddressTexts) -> Result<RelayModel, ConfigModel> {
    match phones_from(vars, 1, Seq::empty(), false) {
        Err(e) => Err(e),
        Ok(phones) => if phones.len() == 0 {
            Err(ConfigModel::NoPhones)
        } else {
            relay_with(vars, texts, phones)
        },
    }
}

impl RelayConfig {
    /// Reads the settings of a relaying router.
    pub fn from_env(vars: &Vars, texts: &AddressTexts) -> (config: Result<RelayConfig, ConfigError>)
        ensures
            match config {
                Ok(c) => relay_in(*vars, *texts) == Ok::<RelayModel, ConfigModel>(c@),
                Err(e) => relay_in(*vars, *texts) == Err::<RelayModel, ConfigModel>(e@),
            },
    {
        let phones = match parse_phones(vars, false) {
            Ok(phones) => phones,
            Err(e) => {
                return Err(e);
            },
        };
        if phones.len() == 0 {
            return Err(ConfigError::NoPhones);
        }
        let stun_addrs = match need_servers(vars, texts) {
            Ok(servers) => servers,
            Err(e) => {
                return Err(e);
            },
        };
        let mqtt_addr = match need_endpoint(vars, "MQTT_ADDR", texts, false) {
            Ok(endpoint) => endpoint,
            Err(e) => {
                return Err(e);
            },
        };
        let mqtt_ca = match need_text(vars, "MQTT_CA") {
            Ok(text) => text,
            Err(e) => {
                return Err(e);
            },
        };
        let server_my_id = match need_guid(vars, "SERVER_MY_ID", false) {
            Ok(id) => id,
            Err(e) => {
                return Err(e);
            },
        };
        let server_peer_id = match need_guid(vars, "SERVER_PEER_ID", false) {
            Ok(id) => id,
            Err(e) => {
                return Err(e);
            },
        };
        if let Some(id) = find_router_twice(server_my_id, &phones) {
            return Err(ConfigError::RelayTwice(id));
        }
        if let Some(id) = find_phone_twice(&phones) {
            return Err(ConfigError::PhoneTwice(id));
        }
        Ok(
            RelayConfig {
                stun_addrs,
                mqtt_addr,
                mqtt_ca,
                server_my_id,
                server_peer_id,
                phones,
            },
        )
    }
}

/// How to find the phones.
#[derive(Debug)]
pub struct PhoneDiscovery {
    pub stun_addrs: Vec<Endpoint>,
    pub mqtt_addr: Endpoint,
    /// The file with the CA certificate of the broker.
    pub mqtt_ca: String,
}

/// The settings of a router that is a gateway through a server with a public address, and a peer
/// of phones.
#[derive(Debug)]
pub struct GatewayConfig {
    pub vps_server: Endpoint,
    pub vps_my_id: Guid,
    pub vps_peer_id: Guid,
    pub tun_addr: (u32, u8),
    pub tun_name: String,
    pub tun_mtu: u16,
    /// How long a missing packet is waited for at first, in milliseconds.
    pub reorder_wait_ms: u64,
    pub data_holes: u8,
    pub phones: Vec<Phone>,
    /// Nothing, where there are no phones.
    pub phone_discovery: Option<PhoneDiscovery>,
}

/// What the settings of a gateway say.
pub struct GatewayModel {
    pub vps_server: Endpoint,
    pub vps_my_id: Guid,
    pub vps_peer_id: Guid,
    pub tun_addr: (u32, u8),
    pub tun_name: Seq<char>,
    pub tun_mtu: u16,
    pub reorder_wait_ms: u64,
    pub data_holes: u8,
    pub phones: Seq<Phone>,
    pub phone_discovery: Option<(Seq<Endpoint>, Endpoint, Seq<char>)>,
}

impl View for GatewayConfig {
    type V = GatewayModel;

    open spec fn view(&self) -> GatewayModel {
        GatewayModel {
            vps_server: self.vps_server,
            vps_my_id: self.vps_my_id,
            vps_peer_id: self.vps_peer_id,
            tun_addr: self.tun_addr,
            tun_name: self.tun_name@,
            tun_mtu: self.tun_mtu,
            reorder_wait_ms: self.reorder_wait_ms,
            data_holes: self.data_holes,
            phones: self.phones@,
            phone_discovery: match self.phone_discovery {
                Some(d) => Some((d.stun_addrs@, d.mqtt_addr, d.mqtt_ca@)),
                None => None,
            },
        }
    }
}

/// How to find the phones, where there are any.
pub open spec fn phone_discovery_in(vars: Vars, texts: AddressTexts, phones: Seq<Phone>) -> Result<
    Option<(Seq<Endpoint>, Endpoint, Seq<char>)>,
    ConfigModel,
> {
    if phones.len() == 0 {
        Ok(None)
    } else {
        match servers_var(vars, texts) {
            Err(e) => Err(e),
            Ok(servers) => match endpoint_var(vars, "MQTT_ADDR"@, texts, true) {
                Err(e) => Err(e),
                Ok(mqtt) => match text_var(vars, "MQTT_CA"@) {
                    Err(e) => Err(e),
                    Ok(ca) => Ok(Some((servers, mqtt, trimmed(ca)))),
                },
            },
        }
    }
}

/// The server, both GUIDs and the address of the device.
pub open spec fn vps_in(vars: Vars, texts: AddressTexts) -> Result<
    (Endpoint, Guid, Guid, (u32, u8)),
    ConfigModel,
> {
    match text_var(vars, "VPS_SERVER"@) {
        Err(e) => Err(e),
        Ok(text) => match server_in(trimmed(text), texts) {
            None => Err(ConfigModel::Bad("VPS_SERVER"@, Expected::Server)),
            Some(server) => match guid_var(vars, "VPS_MY_ID"@, true) {
                Err(e) => Err(e),
                Ok(my_id) => match guid_var(vars, "VPS_PEER_ID"@, true) {
                    Err(e) => Err(e),
                    Ok(peer_id) => match text_var(vars, "TUN_ADDR"@) {
                        Err(e) => Err(e),
                        Ok(tun) => match cidr_in(tun) {
                            None => Err(ConfigModel::Bad("TUN_ADDR"@, Expected::Cidr)),
                            Some(tun_addr) => Ok((server, my_id, peer_id, tun_addr)),
                        },
                    },
                },
            },
        },
    }
}

/// The numbers of the settings of a gateway.
pub open spec fn gateway_numbers_in(vars: Vars) -> Result<(u64, u64, u64), ConfigModel> {
    match bounded_var(vars, "TUN_MTU"@, 1400, 65535) {
        Err(e) => Err(e),
        Ok(mtu) => match number_var(
            vars,
            "REORDER_WAIT_MS"@,
            8,
            u64::MAX,
            Expected::Number,
            true,
        ) {
            Err(e) => Err(e),
            Ok(wait) => match bounded_var(vars, "DATA_HOLES"@, 0, 255) {
                Err(e) => Err(e),
                Ok(holes) => Ok((mtu, wait, holes)),
            },
        },
    }
}

/// What the settings of a gateway say, or the first thing that is wrong with them.
pub open spec fn gateway_in(vars: Vars, texts: AddressTexts) -> Result<GatewayModel, ConfigModel> {
    match phones_from(vars, 1, Seq::empty(), true) {
        Err(e) => Err(e),
        Ok(phones) => match phone_discovery_in(vars, texts, phones) {
            Err(e) => Err(e),
            Ok(phone_discovery) => match vps_in(vars, texts) {
                Err(e) => Err(e),
                Ok((vps_server, vps_my_id, vps_peer_id, tun_addr)) => match gateway_numbers_in(
                    vars,
                ) {
                    Err(e) => Err(e),
                    Ok((mtu, wait, holes)) => match first_router_twice(vps_my_id, phones) {
                        Some(id) => Err(ConfigModel::RouterTwice(id)),
                        None => Ok(
                            GatewayModel {
                                vps_server,
                                vps_my_id,
                                vps_peer_id,
                                tun_addr,
                                tun_name: text_or(vars, "TUN_NAME"@, "hp0"@),
                                tun_mtu: mtu as u16,
                                reorder_wait_ms: wait,
                                data_holes: holes as u8,
                                phones,
                                phone_discovery,
                            },
                        ),
                    },
                },
            },
        },
    }
}

fn read_phone_discovery(vars: &Vars, texts: &AddressTexts, phones: &Vec<Phone>) -> (discovery: Result<
    Option<PhoneDiscovery>,
    ConfigError,
>)
    ensures
        match discovery {
            Ok(d) => phone_discovery_in(*vars, *texts, phones@) == Ok::<
                Option<(Seq<Endpoint>, Endpoint, Seq<char>)>,
                ConfigModel,
            >(
                match d {
                    Some(p) => Some((p.stun_addrs@, p.mqtt_addr, p.mqtt_ca@)),
                    None => None,
                },
            ),
            Err(e) => phone_discovery_in(*vars, *texts, phones@) == Err::<
                Option<(Seq<Endpoint>, Endpoint, Seq<char>)>,
                ConfigModel,
            >(e@),
        },
{
    if phones.len() == 0 {
        return Ok(None);
    }
    let stun_addrs = match need_servers(vars, texts) {
        Ok(servers) => servers,
        Err(e) => {
            return Err(e);
        },
    };
    let mqtt_addr = match need_endpoint(vars, "MQTT_ADDR", texts, true) {
        Ok(endpoint) => endpoint,
        Err(e) => {
            return Err(e);
        },
    };
    match need_text(vars, "MQTT_CA") {
        Ok(text) => Ok(
            Some(
                PhoneDiscovery { stun_addrs, mqtt_addr, mqtt_ca: trim(text.as_str()).to_owned() },
            ),
        ),
        Err(e) => Err(e),
    }
}

fn read_vps(vars: &Vars, texts: &AddressTexts) -> (vps: Result<
    (Endpoint, Guid, Guid, (u32, u8)),
    ConfigError,
>)
    ensures
        super::agrees(vps, vps_in(*vars, *texts)),
{
    let text = match need_text(vars, "VPS_SERVER") {
        Ok(text) => text,
        Err(e) => {
            return Err(e);
        },
    };
    let server = match parse_server(text.as_str(), texts) {
        Some(server) => server,
        None => {
            return Err(ConfigError::Bad("VPS_SERVER".to_owned(), Expected::Server));
        },
    };
    let my_id = match need_guid(vars, "VPS_MY_ID", true) {
        Ok(id) => id,
        Err(e) => {
            return Err(e);
        },
    };
    let peer_id = match need_guid(vars, "VPS_PEER_ID", true) {
        Ok(id) => id,
        Err(e) => {
            return Err(e);
        },
    };
    let tun = match need_text(vars, "TUN_ADDR") {
        Ok(text) => text,
        Err(e) => {
            return Err(e);
        },
    };
    match parse_cidr(tun.as_str()) {
        Some(tun_addr) => Ok((server, my_id, peer_id, tun_addr)),
        None => Err(ConfigError::Bad("TUN_ADDR".to_owned(), Expected::Cidr)),
    }
}

impl GatewayConfig {
    /// Reads the settings of a gateway.
    pub fn from_settings(vars: &Vars, texts: &AddressTexts) -> (config: Result<
        GatewayConfig,
        ConfigError,
    >)
        ensures
            match config {
                Ok(c) => gateway_in(*vars, *texts) == Ok::<GatewayModel, ConfigModel>(c@),
                Err(e) => gateway_in(*vars, *texts) == Err::<GatewayModel, ConfigModel>(e@),
            },
    {
        let phones = match parse_phones(vars, true) {
            Ok(phones) => phones,
            Err(e) => {
                return Err(e);
            },
        };
        let phone_discovery = match read_phone_discovery(vars, texts, &phones) {
            Ok(discovery) => discovery,
            Err(e) => {
                return Err(e);
            },
        };
        let (vps_server, vps_my_id, vps_peer_id, tun_addr) = match read_vps(vars, texts) {
            Ok(vps) => vps,
            Err(e) => {
                return Err(e);
            },
        };
        let mtu: u64 = match bounded(vars, "TUN_MTU", 1400, 65535) {
            Ok(n) => n,
            Err(e) => {
                return Err(e);
            },
        };
        let reorder_wait_ms: u64 = match number(
            vars,
            "REORDER_WAIT_MS",
            DEFAULT_REORDER_WAIT / MILLI,
            u64::MAX,
            Expected::Number,
            true,
        ) {
            Ok(n) => n,
            Err(e) => {
                return Err(e);
            },
        };
        let data_holes: u64 = match bounded(vars, "DATA_HOLES", 0, 255) {
            Ok(n) => n,
            Err(e) => {
                return Err(e);
            },
        };
        if let Some(id) = find_router_twice(vps_my_id, &phones) {
            return Err(ConfigError::RouterTwice(id));
        }
        Ok(
            GatewayConfig {
                vps_server,
                vps_my_id,
                vps_peer_id,
                tun_addr,
                tun_name: text_or_default(vars, "TUN_NAME", "hp0"),
                tun_mtu: mtu as u16,
                reorder_wait_ms,
                data_holes: data_holes as u8,
                phones,
                phone_discovery,
            },
        )
    }
}

/// The live holes of the phones as text: `number:count/10`, with spaces between.
pub open spec fn holes_text(holes: Seq<(u8, usize)>) -> Seq<char>
    decreases holes.len(),
{
    if holes.len() == 0 {
        Seq::empty()
    } else {
        let last = holes.last();
        let before = holes_text(holes.drop_last());
        let gap = if holes.len() > 1 {
            " "@
        } else {
            Seq::empty()
        };
        before + gap + decimal(last.0 as nat) + ":"@ + decimal(last.1 as nat) + "/10"@
    }
}

/// The line that shows the state of a relaying router: live holes, and the packets in both
/// directions that were sent on and lost.
pub open spec fn relay_status_text(
    server_holes: usize,
    phone_holes: Seq<(u8, usize)>,
    up: (u32, u32),
    down: (u32, u32),
) -> Seq<char> {
    "дыры: сервер "@ + decimal(server_holes as nat) + "/10, телефоны ["@ + holes_text(phone_holes)
        + "]; телефоны->сервер "@ + decimal(up.0 as nat) + " (потеряно "@ + decimal(up.1 as nat)
        + "), сервер->телефоны "@ + decimal(down.0 as nat) + " (потеряно "@ + decimal(down.1 as nat)
        + ")"@
}

/// Writes the line that shows the state of a relaying router.
pub fn relay_status(
    server_holes: usize,
    phone_holes: &Vec<(u8, usize)>,
    up: (u32, u32),
    down: (u32, u32),
) -> (text: String)
    ensures
        text@ == relay_status_text(server_holes, phone_holes@, up, down),
{
    let mut holes: String = String::new();
    let mut i: usize = 0;
    assert(phone_holes@.take(0) =~= Seq::<(u8, usize)>::empty());
    assert(holes@ =~= Seq::<char>::empty());
    while i < phone_holes.len()
        invariant
            i <= phone_holes@.len(),
            holes@ == holes_text(phone_holes@.take(i as int)),
        decreases phone_holes@.len() - i,
    {
        proof {
            assert(phone_holes@.take(i + 1).drop_last() =~= phone_holes@.take(i as int));
            assert(phone_holes@.take(i + 1).last() == phone_holes@[i as int]);
        }
        if i > 0 {
            holes.append(" ");
        }
        push_decimal(&mut holes, phone_holes[i].0 as u64);
        holes.append(":");
        push_decimal(&mut holes, phone_holes[i].1 as u64);
        holes.append("/10");
        i += 1;
        assert(holes@ =~= holes_text(phone_holes@.take(i as int)));
    }
    assert(phone_holes@.take(phone_holes@.len() as int) =~= phone_holes@);
    let mut text: String = "дыры: сервер ".to_owned();
    push_decimal(&mut text, server_holes as u64);
    text.append("/10, телефоны [");
    text.append(holes.as_str());
    text.append("]; телефоны->сервер ");
    push_decimal(&mut text, up.0 as u64);
    text.append(" (потеряно ");
    push_decimal(&mut text, up.1 as u64);
    text.append("), сервер->телефоны ");
    push_decimal(&mut text, down.0 as u64);
    text.append(" (потеряно ");
    push_decimal(&mut text, down.1 as u64);
    text.append(")");
    assert(text@ =~= relay_status_text(server_holes, phone_holes@, up, down));
    text
}

} // verus!
