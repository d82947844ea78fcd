//! The settings of the phone application.

use super::guid_in;
use crate::address_text::AddressTexts;
use crate::client::{status_text, Status};
use crate::guid::Guid;
use crate::net::Endpoint;
use crate::stun::{list_says, parse_servers, servers_text, ServersError, ServersModel};
use crate::text::{holds_text, text_holds, trim, trimmed};
use vstd::prelude::*;

verus! {

/// The settings of a client.
#[derive(Debug)]
pub struct ClientConfig {
    pub stun_addrs: Vec<Endpoint>,
    pub mqtt_addr: Endpoint,
    pub mqtt_ca_pem: String,
    pub my_id: Guid,
    pub peer_id: Guid,
    /// The port of the local bridge; zero means any.
    pub local_port: u16,
    /// How long a missing packet is waited for at first, in milliseconds.
    pub reorder_wait_ms: u32,
    pub data_holes: u8,
}

/// What the settings of a client say.
pub struct ClientModel {
    pub stun_addrs: Seq<Endpoint>,
    pub mqtt_addr: Endpoint,
    pub mqtt_ca_pem: Seq<char>,
    pub my_id: Guid,
    pub peer_id: Guid,
    pub local_port: u16,
    pub reorder_wait_ms: u32,
    pub data_holes: u8,
}

impl View for ClientConfig {
    type V = ClientModel;

    open spec fn view(&self) -> ClientModel {
        ClientModel {
            stun_addrs: self.stun_addrs@,
            mqtt_addr: self.mqtt_addr,
            mqtt_ca_pem: self.mqtt_ca_pem@,
            my_id: self.my_id,
            peer_id: self.peer_id,
            local_port: self.local_port,
            reorder_wait_ms: self.reorder_wait_ms,
            data_holes: self.data_holes,
        }
    }
}

/// Why the settings of a client are refused.
#[derive(Debug)]
pub enum ClientError {
    NotPem,
    Servers(ServersError),
    Mqtt,
    MyId,
    PeerId,
    Port,
}

/// Why the settings of a client are refused.
pub enum ClientErrorModel {
    NotPem,
    Servers(ServersModel),
    Mqtt,
    MyId,
    PeerId,
    Port,
}

impl View for ClientError {
    type V = ClientErrorModel;

    open spec fn view(&self) -> ClientErrorModel {
        match *self {
            ClientError::NotPem => ClientErrorModel::NotPem,
            ClientError::Servers(e) => ClientErrorModel::Servers(e@),
            ClientError::Mqtt => ClientErrorModel::Mqtt,
            ClientError::MyId => ClientErrorModel::MyId,
            ClientError::PeerId => ClientErrorModel::PeerId,
            ClientError::Port => ClientErrorModel::Port,
        }
    }
}

/// An error as text.
pub open spec fn client_error_text(e: ClientErrorModel) -> Seq<char> {
    match e {
        ClientErrorModel::NotPem => "CA-сертификат брокера не похож на PEM"@,
        ClientErrorModel::Servers(error) => servers_text(error),
        ClientErrorModel::Mqtt => "MQTT: ожидается ip:порт"@,
        ClientErrorModel::MyId => "мой GUID некорректен"@,
        ClientErrorModel::PeerId => "GUID роутера некорректен"@,
        ClientErrorModel::Port => "локальный порт вне 0..=65535"@,
    }
}

impl ClientError {
    /// The error as text.
    pub fn text(&self) -> (text: String)
        ensures
            text@ == client_error_text(self@),
    {
        match self {
            ClientError::NotPem => "CA-сертификат брокера не похож на PEM".to_owned(),
            ClientError::Servers(error) => error.text(),
            ClientError::Mqtt => "MQTT: ожидается ip:порт".to_owned(),
            ClientError::MyId => "мой GUID некорректен".to_owned(),
            ClientError::PeerId => "GUID роутера некорректен".to_owned(),
            ClientError::Port => "локальный порт вне 0..=65535".to_owned(),
        }
    }
}

/// Both GUIDs and the local port.
pub open spec fn client_ends(my_id: Seq<char>, peer_id: Seq<char>, local_port: i32) -> Result<
    (Guid, Guid, u16),
    ClientErrorModel,
> {
    match guid_in(trimmed(my_id)) {
        None => Err(ClientErrorModel::MyId),
        Some(me) => match guid_in(trimmed(peer_id)) {
            None => Err(ClientErrorModel::PeerId),
            Some(peer) => if 0 <= local_port <= u16::MAX {
                Ok((me, peer, local_port as u16))
            } else {
                Err(ClientErrorModel::Port)
            },
        },
    }
}

/// What the settings of a client say, or the first thing that is wrong with them.
pub open spec fn client_in(
    stun: Seq<char>,
    mqtt: Seq<char>,
    ca_pem: Seq<char>,
    my_id: Seq<char>,
    peer_id: Seq<char>,
    local_port: i32,
    texts: AddressTexts,
) -> Result<ClientModel, ClientErrorModel> {
    if !text_holds(ca_pem, "-----BEGIN CERTIFICATE-----"@) {
        Err(ClientErrorModel::NotPem)
    } else {
        match list_says(stun, texts) {
            Err(e) => Err(ClientErrorModel::Servers(e)),
            Ok(stun_addrs) => match texts.denotes(trimmed(mqtt)) {
                None => Err(ClientErrorModel::Mqtt),
                Some(mqtt_addr) => match client_ends(my_id, peer_id, local_port) {
                    Err(e) => Err(e),
                    Ok((me, peer, port)) => Ok(
                        ClientModel {
                            stun_addrs,
                            mqtt_addr,
                            mqtt_ca_pem: ca_pem,
                            my_id: me,
                            peer_id: peer,
                            local_port: port,
                            reorder_wait_ms: 8,
                            data_holes: 0,
                        },
                    ),
                },
            },
        }
    }
}

/// Reads the settings that the application hands over.
pub fn parse_config(
    stun: &str,
    mqtt: &str,
    ca_pem: &str,
    my_id: &str,
    peer_id: &str,
    local_port: i32,
    texts: &AddressTexts,
) -> (config: Result<ClientConfig, ClientError>)
    ensures
        match config {
            Ok(c) => client_in(stun@, mqtt@, ca_pem@, my_id@, peer_id@, local_port, *texts) == Ok::<
                ClientModel,
                ClientErrorModel,
            >(c@),
            Err(e) => client_in(stun@, mqtt@, ca_pem@, my_id@, peer_id@, local_port, *texts)
                == Err::<ClientModel, ClientErrorModel>(e@),
        },
{
    if !holds_text(ca_pem, "-----BEGIN CERTIFICATE-----") {
        return Err(ClientError::NotPem);
    }
    let stun_addrs = match parse_servers(stun, texts) {
        Ok(servers) => servers,
        Err(e) => {
            return Err(ClientError::Servers(e));
        },
    };
    let mqtt_addr = match texts.endpoint(trim(mqtt)) {
        Some(endpoint) => endpoint,
        None => {
            return Err(ClientError::Mqtt);
        },
    };
    let me = match Guid::parse(trim(my_id)) {
        Some(id) => id,
        None => {
            return Err(ClientError::MyId);
        },
    };
    let peer = match Guid::parse(trim(peer_id)) {
        Some(id) => id,
        None => {
            return Err(ClientError::PeerId);
        },
    };
    if local_port < 0 || local_port > 65535 {
        return Err(ClientError::Port);
    }
    Ok(
        ClientConfig {
            stun_addrs,
            mqtt_addr,
            mqtt_ca_pem: ca_pem.to_owned(),
            my_id: me,
            peer_id: peer,
            local_port: local_port as u16,
            reorder_wait_ms: 8,
            data_holes: 0,
        },
    )
}

/// The state of the client as it is shown; nothing, where it does not run.
pub fn shown_status(client: Option<Status>) -> (text: String)
    ensures
        text@ == match client {
            Some(status) => status_text(status),
            None => "остановлен"@,
        },
{
    match client {
        Some(status) => status.text(),
        None => "остановлен".to_owned(),
    }
}

/// How many holes are live; none, where the client does not run.
pub fn shown_holes(client: Option<Status>) -> (holes: i32)
    ensures
        holes == match client {
            Some(status) => if status.live_holes <= i32::MAX {
                status.live_holes as int
            } else {
                i32::MAX as int
            },
            None => 0,
        },
{
    match client {
        Some(status) => if status.live_holes <= i32::MAX as usize {
            status.live_holes as i32
        } else {
            i32::MAX
        },
        None => 0,
    }
}

/// The port of the local bridge; zero, where the client does not run.
pub fn shown_port(local: Option<Endpoint>) -> (port: i32)
    ensures
        port == match local {
            Some(endpoint) => endpoint.port as int,
            None => 0,
        },
{
    match local {
        Some(endpoint) => endpoint.port as i32,
        None => 0,
    }
}

} // verus!
