//! The settings of the programs, read from variables.

pub mod android;
pub mod bench;
pub mod common;
pub mod laws;
pub mod owed;
pub mod phones;
pub mod router;
pub mod vps_server;

use crate::address_text::{beside, place, AddressTexts};
use crate::guid::{guid_of_text, guid_text, Guid};
use crate::net::Endpoint;
use crate::stun::{list_says, parse_servers, ServersError, ServersModel};
use crate::text::{
    decimal, law_fault_or_number, number_fault, number_fault_in, number_in, parse_number, push_decimal,
    trim, trimmed, NumberFault,
};
use vstd::prelude::*;

verus! {

/// The variables: names and values. Of several values of one name the first counts.
pub struct Vars {
    pub entries: Vec<(String, String)>,
}

impl Vars {
    /// The value of a variable.
    pub open spec fn value(&self, name: Seq<char>) -> Option<Seq<char>> {
        match beside(self.entries@, name) {
            Some(value) => Some(value@),
            None => None,
        }
    }

    /// The value of a variable.
    pub fn get(&self, name: &str) -> (value: Option<String>)
        ensures
            value is Some <==> self.value(name@) is Some,
            value matches Some(v) ==> self.value(name@) == Some(v@),
    {
        match place(&self.entries, name) {
            Some(i) => Some(self.entries[i].1.clone()),
            None => None,
        }
    }
}

/// What was expected of a value.
#[derive(Clone, Copy, Debug, PartialEq, Eq, Structural)]
pub enum Expected {
    Guid,
    Endpoint,
    Server,
    Ip,
    Cidr,
    Number,
    Millis,
    Seconds,
    Holes,
    Port,
    /// An address with a port, in the words of a measurement.
    BenchEndpoint,
    /// A range of ports, in the words of a measurement.
    BenchRange,
}

/// Why settings are refused.
#[derive(Debug)]
pub enum ConfigError {
    /// A variable is not set.
    Missing(String),
    /// The value of a variable is not what was expected.
    Bad(String, Expected),
    /// The value of a variable is of no use.
    Unfit(String),
    /// The list of STUN servers.
    Servers(ServersError),
    /// Of the two variables of a phone only one is set.
    HalfPhone(u8),
    /// There is no phone.
    NoPhones,
    /// The router has one GUID in two sets of holes.
    RouterTwice(Guid),
    /// The same of a router all of whose sets go through the broker.
    RelayTwice(Guid),
    /// A phone is listed twice.
    PhoneTwice(Guid),
    /// A bound of the range of ports is no port.
    PortFault(NumberFault),
    /// The range of ports has no hyphen.
    NoRange,
    /// The range of ports ends before it starts.
    EmptyRange,
    /// The bootstrap port lies in the range of the slots.
    BootstrapInside(u16),
}

/// Why settings are refused.
pub enum ConfigModel {
    Missing(Seq<char>),
    Bad(Seq<char>, Expected),
    Unfit(Seq<char>),
    Servers(ServersModel),
    HalfPhone(u8),
    NoPhones,
    RouterTwice(Guid),
    RelayTwice(Guid),
    PhoneTwice(Guid),
    PortFault(NumberFault),
    NoRange,
    EmptyRange,
    BootstrapInside(u16),
}

impl View for ConfigError {
    type V = ConfigModel;

    open spec fn view(&self) -> ConfigModel {
        match *self {
            ConfigError::Missing(name) => ConfigModel::Missing(name@),
            ConfigError::Bad(name, expected) => ConfigModel::Bad(name@, expected),
            ConfigError::Unfit(name) => ConfigModel::Unfit(name@),
            ConfigError::Servers(e) => ConfigModel::Servers(e@),
            ConfigError::HalfPhone(n) => ConfigModel::HalfPhone(n),
            ConfigError::NoPhones => ConfigModel::NoPhones,
            ConfigError::RouterTwice(id) => ConfigModel::RouterTwice(id),
            ConfigError::RelayTwice(id) => ConfigModel::RelayTwice(id),
            ConfigError::PhoneTwice(id) => ConfigModel::PhoneTwice(id),
            ConfigError::PortFault(fault) => ConfigModel::PortFault(fault),
            ConfigError::NoRange => ConfigModel::NoRange,
            ConfigError::EmptyRange => ConfigModel::EmptyRange,
            ConfigError::BootstrapInside(port) => ConfigModel::BootstrapInside(port),
        }
    }
}

/// What was expected, as text.
pub open spec fn expected_text(expected: Expected) -> Seq<char> {
    match expected {
        Expected::Guid => "некорректный GUID"@,
        Expected::Endpoint => "ожидается ip:порт"@,
        Expected::Server => "ожидается ip или ip:порт"@,
        Expected::Ip => "ожидается IP"@,
        Expected::Cidr => "ожидается ip/префикс"@,
        Expected::Number => "ожидается число"@,
        Expected::Millis => "ожидается число миллисекунд"@,
        Expected::Seconds => "ожидается число секунд"@,
        Expected::Holes => "ожидается число дыр 0..=255"@,
        Expected::Port => "ожидается порт"@,
        Expected::BenchEndpoint => "ip:порт"@,
        Expected::BenchRange => "a-b"@,
    }
}

impl Expected {
    /// What was expected, as text.
    pub fn text(self) -> (text: &'static str)
        ensures
            text@ == expected_text(self),
    {
        match self {
            Expected::Guid => "некорректный GUID",
            Expected::Endpoint => "ожидается ip:порт",
            Expected::Server => "ожидается ip или ip:порт",
            Expected::Ip => "ожидается IP",
            Expected::Cidr => "ожидается ip/префикс",
            Expected::Number => "ожидается число",
            Expected::Millis => "ожидается число миллисекунд",
            Expected::Seconds => "ожидается число секунд",
            Expected::Holes => "ожидается число дыр 0..=255",
            Expected::Port => "ожидается порт",
            Expected::BenchEndpoint => "ip:порт",
            Expected::BenchRange => "a-b",
        }
    }
}

/// Why a text is no number, in the words in which parsing an integer reports it.
pub open spec fn fault_text(fault: NumberFault) -> Seq<char> {
    match fault {
        NumberFault::Empty => "cannot parse integer from empty string"@,
        NumberFault::Digit => "invalid digit found in string"@,
        NumberFault::TooLarge => "number too large to fit in target type"@,
    }
}

fn fault_words(fault: NumberFault) -> (text: &'static str)
    ensures
        text@ == fault_text(fault),
{
    match fault {
        NumberFault::Empty => "cannot parse integer from empty string",
        NumberFault::Digit => "invalid digit found in string",
        NumberFault::TooLarge => "number too large to fit in target type",
    }
}

/// The name of a variable of a phone.
pub open spec fn phone_name(n: u8, suffix: Seq<char>) -> Seq<char> {
    "PHONE_"@ + decimal(n as nat) + suffix
}

/// The name of a variable of a phone.
pub fn phone_variable(n: u8, suffix: &str) -> (name: String)
    ensures
        name@ == phone_name(n, suffix@),
{
    let mut name: String = "PHONE_".to_owned();
    push_decimal(&mut name, n as u64);
    name.append(suffix);
    assert(name@ =~= phone_name(n, suffix@));
    name
}

/// An error as text.
pub open spec fn config_text(e: ConfigError) -> Seq<char> {
    match e {
        ConfigError::Missing(name) => "не задана переменная "@ + name@,
        ConfigError::Bad(name, expected) => name@ + ": "@ + expected_text(expected),
        ConfigError::Unfit(name) => name@,
        ConfigError::Servers(error) => "STUN_ADDR: "@ + crate::stun::servers_text(error@),
        ConfigError::HalfPhone(n) => "телефон "@ + decimal(n as nat) + ": нужны обе переменные "@
            + phone_name(n, "_MY_ID"@) + " и "@ + phone_name(n, "_PEER_ID"@),
        ConfigError::NoPhones =>
            "не задан ни один телефон: нужны PHONE_1_MY_ID и PHONE_1_PEER_ID"@,
        ConfigError::RouterTwice(id) => "GUID роутера "@ + guid_text(id.value)
            + " встречается дважды: у каждого набора дыр он должен быть свой"@,
        ConfigError::RelayTwice(id) => "GUID роутера "@ + guid_text(id.value)
            + " встречается дважды: у каждого набора дыр он должен быть свой (брокер вытеснит клиента с тем же client_id)"@,
        ConfigError::PhoneTwice(id) => "GUID телефона "@ + guid_text(id.value) + " указан дважды"@,
        ConfigError::PortFault(fault) => fault_text(fault),
        ConfigError::NoRange => "VPS_PORTS: ожидается начало-конец"@,
        ConfigError::EmptyRange => "VPS_PORTS: начало больше конца"@,
        ConfigError::BootstrapInside(port) => "порт знакомства "@ + decimal(port as nat)
            + " внутри VPS_PORTS"@,
    }
}

impl ConfigError {
    /// The error as text.
    pub fn text(&self) -> (text: String)
        ensures
            text@ == config_text(*self),
    {
        let mut text: String = String::new();
        match self {
            ConfigError::Missing(name) => {
                text.append("не задана переменная ");
                text.append(name.as_str());
            },
            ConfigError::Bad(name, expected) => {
                text.append(name.as_str());
                text.append(": ");
                text.append(expected.text());
            },
            ConfigError::Unfit(name) => {
                text.append(name.as_str());
            },
            ConfigError::Servers(error) => {
                text.append("STUN_ADDR: ");
                text.append(error.text().as_str());
            },
            ConfigError::HalfPhone(n) => {
                text.append("телефон ");
                push_decimal(&mut text, *n as u64);
                text.append(": нужны обе переменные ");
                text.append(phone_variable(*n, "_MY_ID").as_str());
                text.append(" и ");
                text.append(phone_variable(*n, "_PEER_ID").as_str());
            },
            ConfigError::NoPhones => {
                text.append("не задан ни один телефон: нужны PHONE_1_MY_ID и PHONE_1_PEER_ID");
            },
            ConfigError::RouterTwice(id) => {
                text.append("GUID роутера ");
                text.append(id.text().as_str());
                text.append(" встречается дважды: у каждого набора дыр он должен быть свой");
            },
            ConfigError::RelayTwice(id) => {
                text.append("GUID роутера ");
                text.append(id.text().as_str());
                text.append(
                    " встречается дважды: у каждого набора дыр он должен быть свой (брокер вытеснит клиента с тем же client_id)",
                );
            },
            ConfigError::PortFault(fault) => {
                text.append(fault_words(*fault));
            },
            ConfigError::PhoneTwice(id) => {
                text.append("GUID телефона ");
                text.append(id.text().as_str());
                text.append(" указан дважды");
            },
            ConfigError::NoRange => {
                text.append("VPS_PORTS: ожидается начало-конец");
            },
            ConfigError::EmptyRange => {
                text.append("VPS_PORTS: начало больше конца");
            },
            ConfigError::BootstrapInside(port) => {
                text.append("порт знакомства ");
                push_decimal(&mut text, *port as u64);
                text.append(" внутри VPS_PORTS");
            },
        }
        assert(text@ =~= config_text(*self));
        text
    }
}

/// A result is as it has to be.
pub open spec fn agrees<T>(result: Result<T, ConfigError>, model: Result<T, ConfigModel>) -> bool {
    match (result, model) {
        (Ok(a), Ok(b)) => a == b,
        (Err(e), Err(f)) => e@ == f,
        _ => false,
    }
}

/// A value with the white space around it, or without.
pub open spec fn tidied(value: Seq<char>, tidy: bool) -> Seq<char> {
    if tidy {
        trimmed(value)
    } else {
        value
    }
}

/// A value with the white space around it, or without.
pub fn tidy_text<'a>(value: &'a str, tidy: bool) -> (text: &'a str)
    ensures
        text@ == tidied(value@, tidy),
{
    if tidy {
        trim(value)
    } else {
        value
    }
}

/// The GUID that a text denotes.
pub open spec fn guid_in(text: Seq<char>) -> Option<Guid> {
    match guid_of_text(text) {
        Some(value) => Some(Guid { value }),
        None => None,
    }
}

/// A GUID that has to be given.
pub open spec fn guid_var(vars: Vars, name: Seq<char>, tidy: bool) -> Result<Guid, ConfigModel> {
    match vars.value(name) {
        Some(value) => match guid_in(tidied(value, tidy)) {
            Some(id) => Ok(id),
            None => Err(ConfigModel::Bad(name, Expected::Guid)),
        },
        None => Err(ConfigModel::Missing(name)),
    }
}

/// Reads a GUID that has to be given.
pub fn need_guid(vars: &Vars, name: &str, tidy: bool) -> (id: Result<Guid, ConfigError>)
    ensures
        agrees(id, guid_var(*vars, name@, tidy)),
{
    match vars.get(name) {
        Some(value) => match Guid::parse(tidy_text(value.as_str(), tidy)) {
            Some(id) => Ok(id),
            None => Err(ConfigError::Bad(name.to_owned(), Expected::Guid)),
        },
        None => Err(ConfigError::Missing(name.to_owned())),
    }
}

/// An address with a port that has to be given.
pub open spec fn endpoint_var(
    vars: Vars,
    name: Seq<char>,
    texts: AddressTexts,
    tidy: bool,
) -> Result<Endpoint, ConfigModel> {
    match vars.value(name) {
        Some(value) => match texts.denotes(tidied(value, tidy)) {
            Some(endpoint) => Ok(endpoint),
            None => Err(ConfigModel::Bad(name, Expected::Endpoint)),
        },
        None => Err(ConfigModel::Missing(name)),
    }
}

/// Reads an address with a port that has to be given.
pub fn need_endpoint(vars: &Vars, name: &str, texts: &AddressTexts, tidy: bool) -> (endpoint: Result<
    Endpoint,
    ConfigError,
>)
    ensures
        agrees(endpoint, endpoint_var(*vars, name@, *texts, tidy)),
{
    match vars.get(name) {
        Some(value) => match texts.endpoint(tidy_text(value.as_str(), tidy)) {
            Some(endpoint) => Ok(endpoint),
            None => Err(ConfigError::Bad(name.to_owned(), Expected::Endpoint)),
        },
        None => Err(ConfigError::Missing(name.to_owned())),
    }
}

/// The STUN servers, which have to be given.
pub open spec fn servers_var(vars: Vars, texts: AddressTexts) -> Result<Seq<Endpoint>, ConfigModel> {
    match vars.value("STUN_ADDR"@) {
        Some(value) => match list_says(value, texts) {
            Ok(servers) => Ok(servers),
            Err(e) => Err(ConfigModel::Servers(e)),
        },
        None => Err(ConfigModel::Missing("STUN_ADDR"@)),
    }
}

/// Reads the STUN servers, which have to be given.
pub fn need_servers(vars: &Vars, texts: &AddressTexts) -> (servers: Result<
    Vec<Endpoint>,
    ConfigError,
>)
    ensures
        match servers {
            Ok(s) => servers_var(*vars, *texts) == Ok::<Seq<Endpoint>, ConfigModel>(s@),
            Err(e) => servers_var(*vars, *texts) == Err::<Seq<Endpoint>, ConfigModel>(e@),
        },
{
    match vars.get("STUN_ADDR") {
        Some(value) => match parse_servers(value.as_str(), texts) {
            Ok(servers) => Ok(servers),
            Err(e) => Err(ConfigError::Servers(e)),
        },
        None => Err(ConfigError::Missing("STUN_ADDR".to_owned())),
    }
}

/// A text that has to be given.
pub open spec fn text_var(vars: Vars, name: Seq<char>) -> Result<Seq<char>, ConfigModel> {
    match vars.value(name) {
        Some(value) => Ok(value),
        None => Err(ConfigModel::Missing(name)),
    }
}

/// Reads a text that has to be given.
pub fn need_text(vars: &Vars, name: &str) -> (text: Result<String, ConfigError>)
    ensures
        match text {
            Ok(t) => text_var(*vars, name@) == Ok::<Seq<char>, ConfigModel>(t@),
            Err(e) => text_var(*vars, name@) == Err::<Seq<char>, ConfigModel>(e@),
        },
{
    match vars.get(name) {
        Some(value) => Ok(value),
        None => Err(ConfigError::Missing(name.to_owned())),
    }
}

/// A number up to `max`, with a value for when it is not given.
pub open spec fn number_var(
    vars: Vars,
    name: Seq<char>,
    default: u64,
    max: u64,
    expected: Expected,
    tidy: bool,
) -> Result<u64, ConfigModel> {
    match vars.value(name) {
        Some(value) => match number_in(tidied(value, tidy), max as nat) {
            Some(n) => Ok(n as u64),
            None => Err(ConfigModel::Bad(name, expected)),
        },
        None => Ok(default),
    }
}

/// Reads a number up to `max`, with a value for when it is not given.
pub fn number(
    vars: &Vars,
    name: &str,
    default: u64,
    max: u64,
    expected: Expected,
    tidy: bool,
) -> (n: Result<u64, ConfigError>)
    ensures
        agrees(n, number_var(*vars, name@, default, max, expected, tidy)),
        n matches Ok(x) ==> x <= max || x == default,
{
    match vars.get(name) {
        Some(value) => match parse_number(tidy_text(value.as_str(), tidy), max) {
            Some(n) => Ok(n),
            None => Err(ConfigError::Bad(name.to_owned(), expected)),
        },
        None => Ok(default),
    }
}

/// A number with a value for when it is not given, of which only those up to `max` are of use.
pub open spec fn bounded_var(vars: Vars, name: Seq<char>, default: u64, max: u64) -> Result<
    u64,
    ConfigModel,
> {
    match number_var(vars, name, default, u64::MAX, Expected::Number, true) {
        Err(e) => Err(e),
        Ok(n) => if n <= max {
            Ok(n)
        } else {
            Err(ConfigModel::Unfit(name))
        },
    }
}

/// Reads a number of which only those up to `max` are of use.
pub fn bounded(vars: &Vars, name: &str, default: u64, max: u64) -> (n: Result<u64, ConfigError>)
    ensures
        agrees(n, bounded_var(*vars, name@, default, max)),
        n matches Ok(x) ==> x <= max,
{
    match number(vars, name, default, u64::MAX, Expected::Number, true) {
        Err(e) => Err(e),
        Ok(n) => if n <= max {
            Ok(n)
        } else {
            Err(ConfigError::Unfit(name.to_owned()))
        },
    }
}

/// The port that a text denotes, or what is wrong with it.
pub open spec fn port_in(text: Seq<char>) -> Result<u16, ConfigModel> {
    match number_fault_in(text, u16::MAX as nat) {
        Some(fault) => Err(ConfigModel::PortFault(fault)),
        None => Ok(number_in(text, u16::MAX as nat)->0 as u16),
    }
}

/// Reads a port.
pub fn parse_port(text: &str) -> (port: Result<u16, ConfigError>)
    ensures
        agrees(port, port_in(text@)),
{
    proof {
        law_fault_or_number(text@, u16::MAX as nat);
    }
    match number_fault(text, 65535) {
        Some(fault) => Err(ConfigError::PortFault(fault)),
        None => match parse_number(text, 65535) {
            Some(n) => Ok(n as u16),
            None => Ok(0),
        },
    }
}

/// A text, with one for when it is not given.
pub open spec fn text_or(vars: Vars, name: Seq<char>, default: Seq<char>) -> Seq<char> {
    match vars.value(name) {
        Some(value) => value,
        None => default,
    }
}

/// Reads a text, with one for when it is not given.
pub fn text_or_default(vars: &Vars, name: &str, default: &str) -> (text: String)
    ensures
        text@ == text_or(*vars, name@, default@),
{
    match vars.get(name) {
        Some(value) => value,
        None => default.to_owned(),
    }
}

} // verus!
