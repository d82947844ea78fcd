//! The settings of a server with a public address.

use super::common::TunConfig;
use super::{
    number, number_var, parse_port, port_in, text_or, text_or_default, ConfigError, ConfigModel,
    Expected, Vars,
};
use crate::address_text::AddressTexts;
use crate::multilink::plan::Discovery;
use crate::net::{cidr_in, parse_cidr, Ip};
use crate::text::{first_at, split_once, trim, trimmed};
use crate::vps::{PortRange, DEFAULT_BOOTSTRAP_PORT, DEFAULT_SLOT_HIGH, DEFAULT_SLOT_LOW};
use vstd::prelude::*;

verus! {

/// The range that a text `low-high` denotes.
pub open spec fn ports_in(text: Seq<char>) -> Result<PortRange, ConfigModel> {
    let at = first_at(text, '-');
    if at >= text.len() {
        Err(ConfigModel::NoRange)
    } else {
        match port_in(trimmed(text.take(at))) {
            Err(e) => Err(e),
            Ok(low) => match port_in(trimmed(text.skip(at + 1))) {
                Err(e) => Err(e),
                Ok(high) => if low <= high {
                    Ok(PortRange { low, high })
                } else {
                    Err(ConfigModel::EmptyRange)
                },
            },
        }
    }
}

/// Reads a range of ports `low-high`.
pub fn parse_ports(value: &str) -> (ports: Result<PortRange, ConfigError>)
    ensures
        super::agrees(ports, ports_in(value@)),
{
    let (low, high): (&str, &str) = match split_once(value, '-') {
        Some(pair) => pair,
        None => {
            return Err(ConfigError::NoRange);
        },
    };
    match parse_port(trim(low)) {
        Err(e) => Err(e),
        Ok(low) => match parse_port(trim(high)) {
            Err(e) => Err(e),
            Ok(high) => if low <= high {
                Ok(PortRange { low, high })
            } else {
                Err(ConfigError::EmptyRange)
            },
        },
    }
}

/// The public address, which has to be given.
pub open spec fn public_ip_in(vars: Vars, texts: AddressTexts) -> Result<Ip, ConfigModel> {
    match vars.value("VPS_PUBLIC_IP"@) {
        None => Err(ConfigModel::Missing("VPS_PUBLIC_IP"@)),
        Some(text) => match texts.denotes_ip(text) {
            None => Err(ConfigModel::Bad("VPS_PUBLIC_IP"@, Expected::Ip)),
            Some(ip) => Ok(ip),
        },
    }
}

/// The range of the slots, or the default one.
pub open spec fn slot_ports_in(vars: Vars) -> Result<PortRange, ConfigModel> {
    match vars.value("VPS_PORTS"@) {
        Some(text) => ports_in(text),
        None => Ok(PortRange { low: DEFAULT_SLOT_LOW, high: DEFAULT_SLOT_HIGH }),
    }
}

/// The public address, the bootstrap port and the range of the slots, which does not hold the
/// bootstrap port, or the first thing that is wrong with them.
pub open spec fn discovery_in(vars: Vars, texts: AddressTexts) -> Result<
    (Ip, u16, PortRange),
    ConfigModel,
> {
    match public_ip_in(vars, texts) {
        Err(e) => Err(e),
        Ok(ip) => match number_var(
            vars,
            "VPS_BOOTSTRAP_PORT"@,
            DEFAULT_BOOTSTRAP_PORT as u64,
            65535,
            Expected::Port,
            false,
        ) {
            Err(e) => Err(e),
            Ok(port) => match slot_ports_in(vars) {
                Err(e) => Err(e),
                Ok(ports) => if ports.spans(port as u16) {
                    Err(ConfigModel::BootstrapInside(port as u16))
                } else {
                    Ok((ip, port as u16, ports))
                },
            },
        },
    }
}

/// Reads how a server with a public address is found.
pub fn discovery(vars: &Vars, texts: &AddressTexts) -> (discovery: Result<Discovery, ConfigError>)
    ensures
        match discovery {
            Ok(d) => d matches Discovery::VpsServer { public_ip, bootstrap_port, ports }
                && discovery_in(*vars, *texts) == Ok::<(Ip, u16, PortRange), ConfigModel>(
                (public_ip, bootstrap_port, ports),
            ),
            Err(e) => discovery_in(*vars, *texts) == Err::<(Ip, u16, PortRange), ConfigModel>(e@),
        },
{
    let public_ip = match vars.get("VPS_PUBLIC_IP") {
        Some(text) => match texts.ip(text.as_str()) {
            Some(ip) => ip,
            None => {
                return Err(ConfigError::Bad("VPS_PUBLIC_IP".to_owned(), Expected::Ip));
            },
        },
        None => {
            return Err(ConfigError::Missing("VPS_PUBLIC_IP".to_owned()));
        },
    };
    let port: u64 = match number(
        vars,
        "VPS_BOOTSTRAP_PORT",
        DEFAULT_BOOTSTRAP_PORT as u64,
        65535,
        Expected::Port,
        false,
    ) {
        Ok(n) => n,
        Err(e) => {
            return Err(e);
        },
    };
    let bootstrap_port: u16 = port as u16;
    let ports = match vars.get("VPS_PORTS") {
        Some(text) => match parse_ports(text.as_str()) {
            Ok(ports) => ports,
            Err(e) => {
                return Err(e);
            },
        },
        None => PortRange { low: DEFAULT_SLOT_LOW, high: DEFAULT_SLOT_HIGH },
    };
    if ports.contains(bootstrap_port) {
        return Err(ConfigError::BootstrapInside(bootstrap_port));
    }
    Ok(Discovery::VpsServer { public_ip, bootstrap_port, ports })
}

/// The name, the address and the MTU of the TUN device that is set up for this server alone, if
/// an address is given for it.
pub open spec fn tun_in(vars: Vars) -> Result<Option<(Seq<char>, (u32, u8), u16)>, ConfigModel> {
    match vars.value("VPS_TUN_ADDR"@) {
        None => Ok(None),
        Some(text) => match cidr_in(text) {
            None => Err(ConfigModel::Bad("VPS_TUN_ADDR"@, Expected::Cidr)),
            Some(address) => match number_var(
                vars,
                "VPS_TUN_MTU"@,
                1400,
                65535,
                Expected::Number,
                false,
            ) {
                Err(_) => Err(ConfigModel::Unfit("VPS_TUN_MTU"@)),
                Ok(mtu) => Ok(Some((text_or(vars, "VPS_TUN_NAME"@, "hp0"@), address, mtu as u16))),
            },
        },
    }
}

/// Reads how the TUN device of this server is to be set up, where that differs from what all
/// servers have.
pub fn tun_config(vars: &Vars) -> (tun: Result<Option<TunConfig>, ConfigError>)
    ensures
        match (tun, tun_in(*vars)) {
            (Ok(None), Ok(None)) => true,
            (Ok(Some(t)), Ok(Some((name, address, mtu)))) => {
                &&& t.name@ == name
                &&& t.address == Some(address)
                &&& t.mtu == Some(mtu)
                &&& t.up
            },
            (Err(e), Err(f)) => e@ == f,
            _ => false,
        },
{
    let text: String = match vars.get("VPS_TUN_ADDR") {
        Some(text) => text,
        None => {
            return Ok(None);
        },
    };
    let address: (u32, u8) = match parse_cidr(text.as_str()) {
        Some(address) => address,
        None => {
            return Err(ConfigError::Bad("VPS_TUN_ADDR".to_owned(), Expected::Cidr));
        },
    };
    match number(vars, "VPS_TUN_MTU", 1400, 65535, Expected::Number, false) {
        Ok(mtu) => Ok(
            Some(
                TunConfig {
                    name: text_or_default(vars, "VPS_TUN_NAME", "hp0"),
                    address: Some(address),
                    mtu: Some(mtu as u16),
                    up: true,
                },
            ),
        ),
        Err(_) => Err(ConfigError::Unfit("VPS_TUN_MTU".to_owned())),
    }
}

/// A search for a port of a slot never comes to the bootstrap port.
pub proof fn law_slots_keep_off_the_bootstrap_port(vars: Vars, texts: AddressTexts, port: u16)
    ensures
        discovery_in(vars, texts) matches Ok((_, bootstrap_port, ports)) ==> (ports.spans(port)
            ==> port != bootstrap_port),
{
}

} // verus!
