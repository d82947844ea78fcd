//! The settings of a server.

use super::{
    agrees, endpoint_var, guid_var, need_endpoint, need_guid, need_servers, need_text, number,
    number_var, servers_var, text_or, text_or_default, text_var, ConfigError, ConfigModel, Expected,
    Vars,
};
use crate::address_text::AddressTexts;
use crate::guid::Guid;
use crate::multilink::DEFAULT_REORDER_WAIT;
use crate::net::{cidr_in, parse_cidr, Endpoint};
use crate::reorder::lateness::MILLI;
use vstd::prelude::*;

verus! {

/// How a TUN device is to be set up.
#[derive(Debug)]
pub struct TunConfig {
    pub name: String,
    /// The address and the length of the prefix.
    pub address: Option<(u32, u8)>,
    pub mtu: Option<u16>,
    pub up: bool,
}

/// The settings that all servers have.
#[derive(Debug)]
pub struct Common {
    pub my_id: Guid,
    pub peer_id: Guid,
    pub tun: TunConfig,
    /// How long a missing packet is waited for at first, in milliseconds.
    pub reorder_wait_ms: u64,
    pub data_holes: u8,
}

/// What the settings of a server say.
pub struct CommonModel {
    pub my_id: Guid,
    pub peer_id: Guid,
    pub tun_name: Seq<char>,
    pub tun_address: (u32, u8),
    pub tun_mtu: u16,
    pub reorder_wait_ms: u64,
    pub data_holes: u8,
}

impl Common {
    /// The settings say this.
    pub open spec fn says(&self, model: CommonModel) -> bool {
        &&& self.my_id == model.my_id
        &&& self.peer_id == model.peer_id
        &&& self.tun.name@ == model.tun_name
        &&& self.tun.address == Some(model.tun_address)
        &&& self.tun.mtu == Some(model.tun_mtu)
        &&& self.tun.up
        &&& self.reorder_wait_ms == model.reorder_wait_ms
        &&& self.data_holes == model.data_holes
    }

    /// Reads the settings of a server.
    pub fn from_settings(vars: &Vars) -> (common: Result<Common, ConfigError>)
        ensures
            match common {
                Ok(c) => common_in(*vars) matches Ok(model) && c.says(model),
                Err(e) => common_in(*vars) == Err::<CommonModel, ConfigModel>(e@),
            },
    {
        let my_id = match need_guid(vars, "MY_ID", true) {
            Ok(id) => id,
            Err(e) => {
                return Err(e);
            },
        };
        let peer_id = match need_guid(vars, "PEER_ID", true) {
            Ok(id) => id,
            Err(e) => {
                return Err(e);
            },
        };
        let address: (u32, u8) = match parse_cidr(
            text_or_default(vars, "TUN_ADDR", "10.80.0.1/16").as_str(),
        ) {
            Some(address) => address,
            None => {
                return Err(ConfigError::Bad("TUN_ADDR".to_owned(), Expected::Cidr));
            },
        };
        let mtu: u64 = match number(vars, "TUN_MTU", 1400, 65535, Expected::Number, true) {
            Ok(n) => n,
            Err(e) => {
                return Err(e);
            },
        };
        let reorder_wait_ms: u64 = match number(
            vars,
            "REORDER_WAIT_MS",
            DEFAULT_REORDER_WAIT / MILLI,
            u64::MAX,
            Expected::Millis,
            true,
        ) {
            Ok(n) => n,
            Err(e) => {
                return Err(e);
            },
        };
        let data_holes: u64 = match number(vars, "DATA_HOLES", 0, 255, Expected::Holes, true) {
            Ok(n) => n,
            Err(e) => {
                return Err(e);
            },
        };
        let tun = TunConfig {
            name: text_or_default(vars, "TUN_NAME", "hp0"),
            address: Some(address),
            mtu: Some(mtu as u16),
            up: true,
        };
        Ok(Common { my_id, peer_id, tun, reorder_wait_ms, data_holes: data_holes as u8 })
    }
}

/// The numbers of the settings of a server.
pub open spec fn numbers_in(vars: Vars) -> Result<(u64, u64, u64), ConfigModel> {
    match number_var(vars, "TUN_MTU"@, 1400, 65535, Expected::Number, true) {
        Err(e) => Err(e),
        Ok(mtu) => match number_var(
            vars,
            "REORDER_WAIT_MS"@,
            8,
            u64::MAX,
            Expected::Millis,
            true,
        ) {
            Err(e) => Err(e),
            Ok(wait) => match number_var(vars, "DATA_HOLES"@, 0, 255, Expected::Holes, true) {
                Err(e) => Err(e),
                Ok(holes) => Ok((mtu, wait, holes)),
            },
        },
    }
}

/// What the settings of a server say, or the first thing that is wrong with them.
pub open spec fn common_in(vars: Vars) -> Result<CommonModel, ConfigModel> {
    match guid_var(vars, "MY_ID"@, true) {
        Err(e) => Err(e),
        Ok(my_id) => match guid_var(vars, "PEER_ID"@, true) {
            Err(e) => Err(e),
            Ok(peer_id) => match cidr_in(text_or(vars, "TUN_ADDR"@, "10.80.0.1/16"@)) {
                None => Err(ConfigModel::Bad("TUN_ADDR"@, Expected::Cidr)),
                Some(tun_address) => match numbers_in(vars) {
                    Err(e) => Err(e),
                    Ok((mtu, wait, holes)) => Ok(
                        CommonModel {
                            my_id,
                            peer_id,
                            tun_name: text_or(vars, "TUN_NAME"@, "hp0"@),
                            tun_address,
                            tun_mtu: mtu as u16,
                            reorder_wait_ms: wait,
                            data_holes: holes as u8,
                        },
                    ),
                },
            },
        },
    }
}

/// How to find the peer through STUN and a broker.
#[derive(Debug)]
pub struct P2p {
    pub stun_addrs: Vec<Endpoint>,
    pub mqtt_addr: Endpoint,
    /// The file with the CA certificate of the broker.
    pub mqtt_ca: String,
}

/// What the settings say of finding the peer: servers, broker, file.
pub open spec fn p2p_in(vars: Vars, texts: AddressTexts) -> Result<
    (Seq<Endpoint>, Endpoint, Seq<char>),
    ConfigModel,
> {
    match text_var(vars, "MQTT_CA"@) {
        Err(e) => Err(e),
        Ok(ca) => match servers_var(vars, texts) {
            Err(e) => Err(e),
            Ok(servers) => match endpoint_var(vars, "MQTT_ADDR"@, texts, true) {
                Err(e) => Err(e),
                Ok(mqtt) => Ok((servers, mqtt, ca)),
            },
        },
    }
}

/// Reads how to find the peer through STUN and a broker.
pub fn p2p_discovery(vars: &Vars, texts: &AddressTexts) -> (p2p: Result<P2p, ConfigError>)
    ensures
        match p2p {
            Ok(p) => p2p_in(*vars, *texts) == Ok::<(Seq<Endpoint>, Endpoint, Seq<char>), ConfigModel>(
                (p.stun_addrs@, p.mqtt_addr, p.mqtt_ca@),
            ),
            Err(e) => p2p_in(*vars, *texts) == Err::<
                (Seq<Endpoint>, Endpoint, Seq<char>),
                ConfigModel,
            >(e@),
        },
{
    let mqtt_ca = match need_text(vars, "MQTT_CA") {
        Ok(text) => text,
        Err(e) => {
            return Err(e);
        },
    };
    let stun_addrs = match need_servers(vars, texts) {
        Ok(servers) => servers,
        Err(e) => {
            return Err(e);
        },
    };
    match need_endpoint(vars, "MQTT_ADDR", texts, true) {
        Ok(mqtt_addr) => Ok(P2p { stun_addrs, mqtt_addr, mqtt_ca }),
        Err(e) => Err(e),
    }
}

/// The settings of a server in front of WireGuard.
#[derive(Debug)]
pub struct ServerConfig {
    pub stun_addrs: Vec<Endpoint>,
    pub mqtt_addr: Endpoint,
    pub mqtt_ca: String,
    pub my_id: Guid,
    pub peer_id: Guid,
    pub wg_addr: Endpoint,
    /// After which silence a client is dropped, in seconds.
    pub client_timeout_secs: u64,
}

/// What the settings of a server in front of WireGuard say.
pub struct ServerModel {
    pub stun_addrs: Seq<Endpoint>,
    pub mqtt_addr: Endpoint,
    pub mqtt_ca: Seq<char>,
    pub my_id: Guid,
    pub peer_id: Guid,
    pub wg_addr: Endpoint,
    pub client_timeout_secs: u64,
}

impl View for ServerConfig {
    type V = ServerModel;

    open spec fn view(&self) -> ServerModel {
        ServerModel {
            stun_addrs: self.stun_addrs@,
            mqtt_addr: self.mqtt_addr,
            mqtt_ca: self.mqtt_ca@,
            my_id: self.my_id,
            peer_id: self.peer_id,
            wg_addr: self.wg_addr,
            client_timeout_secs: self.client_timeout_secs,
        }
    }
}

/// Both GUIDs and the address of WireGuard.
pub open spec fn ends_in(vars: Vars, texts: AddressTexts) -> Result<
    (Guid, Guid, Endpoint),
    ConfigModel,
> {
    match guid_var(vars, "MY_ID"@, false) {
        Err(e) => Err(e),
        Ok(my_id) => match guid_var(vars, "PEER_ID"@, false) {
            Err(e) => Err(e),
            Ok(peer_id) => match texts.denotes(text_or(vars, "WG_ADDR"@, "127.0.0.1:51820"@)) {
                None => Err(ConfigModel::Bad("WG_ADDR"@, Expected::Endpoint)),
                Some(wg_addr) => Ok((my_id, peer_id, wg_addr)),
            },
        },
    }
}

/// What the settings of a server in front of WireGuard say, or the first thing that is wrong with
/// them.
pub open spec fn server_config_in(vars: Vars, texts: AddressTexts) -> Result<
    ServerModel,
    ConfigModel,
> {
    match number_var(vars, "CLIENT_TIMEOUT_SECS"@, 300, u64::MAX, Expected::Seconds, false) {
        Err(e) => Err(e),
        Ok(client_timeout_secs) => match servers_var(vars, texts) {
            Err(e) => Err(e),
            Ok(stun_addrs) => match endpoint_var(vars, "MQTT_ADDR"@, texts, false) {
                Err(e) => Err(e),
                Ok(mqtt_addr) => match text_var(vars, "MQTT_CA"@) {
                    Err(e) => Err(e),
                    Ok(mqtt_ca) => match ends_in(vars, texts) {
                        Err(e) => Err(e),
                        Ok((my_id, peer_id, wg_addr)) => Ok(
                            ServerModel {
                                stun_addrs,
                                mqtt_addr,
                                mqtt_ca,
                                my_id,
                                peer_id,
                                wg_addr,
                                client_timeout_secs,
                            },
                        ),
                    },
                },
            },
        },
    }
}

fn need_ends(vars: &Vars, texts: &AddressTexts) -> (ends: Result<
    (Guid, Guid, Endpoint),
    ConfigError,
>)
    ensures
        agrees(ends, ends_in(*vars, *texts)),
{
    let my_id = match need_guid(vars, "MY_ID", false) {
        Ok(id) => id,
        Err(e) => {
            return Err(e);
        },
    };
    let peer_id = match need_guid(vars, "PEER_ID", false) {
        Ok(id) => id,
        Err(e) => {
            return Err(e);
        },
    };
    match texts.endpoint(text_or_default(vars, "WG_ADDR", "127.0.0.1:51820").as_str()) {
        Some(wg_addr) => Ok((my_id, peer_id, wg_addr)),
        None => Err(ConfigError::Bad("WG_ADDR".to_owned(), Expected::Endpoint)),
    }
}

impl ServerConfig {
    /// Reads the settings of a server in front of WireGuard.
    pub fn from_env(vars: &Vars, texts: &AddressTexts) -> (config: Result<ServerConfig, ConfigError>)
        ensures
            match config {
                Ok(c) => server_config_in(*vars, *texts) == Ok::<ServerModel, ConfigModel>(c@),
                Err(e) => server_config_in(*vars, *texts) == Err::<ServerModel, ConfigModel>(e@),
            },
    {
        let client_timeout_secs: u64 = match number(
            vars,
            "CLIENT_TIMEOUT_SECS",
            300,
            u64::MAX,
            Expected::Seconds,
            false,
        ) {
            Ok(n) => n,
            Err(e) => {
                return Err(e);
            },
        };
        let stun_addrs = match need_servers(vars, texts) {
            Ok(servers) => servers,
            Err(e) => {
                return Err(e);
            },
        };
        let mqtt_addr = match need_endpoint(vars, "MQTT_ADDR", texts, false) {
            Ok(endpoint) => endpoint,
            Err(e) => {
                return Err(e);
            },
        };
        let mqtt_ca = match need_text(vars, "MQTT_CA") {
            Ok(text) => text,
            Err(e) => {
                return Err(e);
            },
        };
        match need_ends(vars, texts) {
            Ok((my_id, peer_id, wg_addr)) => Ok(
                ServerConfig {
                    stun_addrs,
                    mqtt_addr,
                    mqtt_ca,
                    my_id,
                    peer_id,
                    wg_addr,
                    client_timeout_secs,
                },
            ),
            Err(e) => Err(e),
        }
    }
}

} // verus!
