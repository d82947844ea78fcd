//! How a measurement finds its other side, where the variables say so.

use super::{agrees, parse_port, port_in, ConfigError, ConfigModel, Expected, Vars};
use crate::address_text::AddressTexts;
use crate::net::{Endpoint, Ip};
use crate::text::{first_at, number_in, parse_number, split_once, trim, trimmed};
use crate::vps::{PortRange, DEFAULT_BOOTSTRAP_PORT, DEFAULT_SLOT_HIGH, DEFAULT_SLOT_LOW};
use vstd::prelude::*;

verus! {

/// The way to the other side.
#[derive(Clone, Copy, Debug, PartialEq, Eq)]
pub enum BenchPlan {
    /// It is a server with a public address.
    Client { server: Endpoint },
    /// We are such a server.
    Server { public_ip: Ip, bootstrap_port: u16, ports: PortRange },
    /// Through STUN and a broker, as the arguments say.
    Arguments,
}

/// The range that a text `low-high` denotes, as it stands: it may be empty.
pub open spec fn bare_ports_in(text: Option<Seq<char>>) -> Result<PortRange, ConfigModel> {
    match text {
        None => Ok(PortRange { low: DEFAULT_SLOT_LOW, high: DEFAULT_SLOT_HIGH }),
        Some(text) => {
            let at = first_at(text, '-');
            if at >= text.len() {
                Err(ConfigModel::Bad("VPS_PORTS"@, Expected::BenchRange))
            } else {
                match port_in(text.take(at)) {
                    Err(e) => Err(e),
                    Ok(low) => match port_in(text.skip(at + 1)) {
                        Err(e) => Err(e),
                        Ok(high) => Ok(PortRange { low, high }),
                    },
                }
            }
        },
    }
}

fn bare_ports(vars: &Vars) -> (ports: Result<PortRange, ConfigError>)
    ensures
        agrees(ports, bare_ports_in(vars.value("VPS_PORTS"@))),
{
    let text: String = match vars.get("VPS_PORTS") {
        Some(text) => text,
        None => {
            return Ok(PortRange { low: DEFAULT_SLOT_LOW, high: DEFAULT_SLOT_HIGH });
        },
    };
    let (low, high): (&str, &str) = match split_once(text.as_str(), '-') {
        Some(pair) => pair,
        None => {
            return Err(ConfigError::Bad("VPS_PORTS".to_owned(), Expected::BenchRange));
        },
    };
    match parse_port(low) {
        Err(e) => Err(e),
        Ok(low) => match parse_port(high) {
            Err(e) => Err(e),
            Ok(high) => Ok(PortRange { low, high }),
        },
    }
}

/// The bootstrap port: the default one also where something else than a port is given.
pub open spec fn bench_port_in(vars: Vars) -> u16 {
    match vars.value("VPS_BOOTSTRAP_PORT"@) {
        Some(value) => match number_in(trimmed(value), u16::MAX as nat) {
            Some(port) => port as u16,
            None => DEFAULT_BOOTSTRAP_PORT,
        },
        None => DEFAULT_BOOTSTRAP_PORT,
    }
}

fn bench_port(vars: &Vars) -> (port: u16)
    ensures
        port == bench_port_in(*vars),
{
    match vars.get("VPS_BOOTSTRAP_PORT") {
        Some(value) => match parse_number(trim(value.as_str()), 65535) {
            Some(port) => port as u16,
            None => DEFAULT_BOOTSTRAP_PORT,
        },
        None => DEFAULT_BOOTSTRAP_PORT,
    }
}

/// What the variables say of the way to the other side: a server that is given comes before a
/// public address of our own, and the arguments come last.
pub open spec fn plan_in(vars: Vars, texts: AddressTexts) -> Result<BenchPlan, ConfigModel> {
    match vars.value("VPS_SERVER"@) {
        Some(server) => match texts.denotes(server) {
            Some(server) => Ok(BenchPlan::Client { server }),
            None => Err(ConfigModel::Bad("VPS_SERVER"@, Expected::BenchEndpoint)),
        },
        None => match vars.value("VPS_PUBLIC_IP"@) {
            Some(ip) => match (bare_ports_in(vars.value("VPS_PORTS"@)), texts.denotes_ip(ip)) {
                (Err(ConfigModel::Bad(name, expected)), _) => Err(ConfigModel::Bad(name, expected)),
                (_, None) => Err(ConfigModel::Unfit("VPS_PUBLIC_IP"@)),
                (Err(e), _) => Err(e),
                (Ok(ports), Some(public_ip)) => Ok(
                    BenchPlan::Server { public_ip, bootstrap_port: bench_port_in(vars), ports },
                ),
            },
            None => Ok(BenchPlan::Arguments),
        },
    }
}

/// Reads the way to the other side.
pub fn plan(vars: &Vars, texts: &AddressTexts) -> (plan: Result<BenchPlan, ConfigError>)
    ensures
        agrees(plan, plan_in(*vars, *texts)),
{
    if let Some(server) = vars.get("VPS_SERVER") {
        return match texts.endpoint(server.as_str()) {
            Some(server) => Ok(BenchPlan::Client { server }),
            None => Err(ConfigError::Bad("VPS_SERVER".to_owned(), Expected::BenchEndpoint)),
        };
    }
    let ip: String = match vars.get("VPS_PUBLIC_IP") {
        Some(ip) => ip,
        None => {
            return Ok(BenchPlan::Arguments);
        },
    };
    match (bare_ports(vars), texts.ip(ip.as_str())) {
        (Err(ConfigError::Bad(name, expected)), _) => Err(ConfigError::Bad(name, expected)),
        (_, None) => Err(ConfigError::Unfit("VPS_PUBLIC_IP".to_owned())),
        (Err(e), _) => Err(e),
        (Ok(ports), Some(public_ip)) => Ok(
            BenchPlan::Server { public_ip, bootstrap_port: bench_port(vars), ports },
        ),
    }
}

} // verus!
