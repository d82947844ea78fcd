//! When settings are good, and which variable is at fault when they are not.

use super::bench::{plan, BenchPlan};
use super::common::{p2p_discovery, Common, P2p, ServerConfig, TunConfig};
use super::phones::{
    find_phone_twice, find_router_twice, listed, parse_phones, phones_from, Phone,
};
use super::router::{GatewayConfig, RelayConfig};
use super::vps_server::{discovery, parse_ports, tun_config};
use super::{
    bounded, need_endpoint, need_guid, need_servers, need_text, parse_port, phone_name,
    phone_variable, text_or_default, tidy_text, ConfigError, ConfigModel, Expected, Vars,
};
use crate::address_laws::{lemma_beside, lemma_beside_none};
use crate::address_text::AddressTexts;
use crate::guid::{guid_of_text, Guid};
use crate::multilink::plan::Discovery;
use crate::net::{cidr_in, Endpoint};
use crate::stun::list_says;
use crate::text::{decimal, number_in, trimmed};
use crate::vps::PortRange;
use vstd::prelude::*;

verus! {

/// The variable is set, and is a GUID.
pub open spec fn is_guid(vars: Vars, name: Seq<char>) -> bool {
    vars.value(name) is Some && guid_of_text(vars.value(name)->0) is Some
}

/// The variable is set, and is a GUID but for white space around it.
pub open spec fn is_guid_tidied(vars: Vars, name: Seq<char>) -> bool {
    vars.value(name) is Some && guid_of_text(trimmed(vars.value(name)->0)) is Some
}

/// The variable is not set, or is a number up to `max`.
pub open spec fn is_number(vars: Vars, name: Seq<char>, max: nat) -> bool {
    vars.value(name) matches Some(text) ==> number_in(text, max) is Some
}

/// The variable is not set, or is a number up to `max` but for white space around it.
pub open spec fn is_number_tidied(vars: Vars, name: Seq<char>, max: nat) -> bool {
    vars.value(name) matches Some(text) ==> number_in(trimmed(text), max) is Some
}

/// The variable is set, and names STUN servers.
pub open spec fn names_servers(vars: Vars, texts: AddressTexts) -> bool {
    vars.value("STUN_ADDR"@) is Some && list_says(vars.value("STUN_ADDR"@)->0, texts) is Ok
}

/// The value of a variable is that of its first entry.
pub proof fn law_the_first_entry_counts(vars: &Vars, name: &str, value: Option<String>, i: int)
    requires
        call_ensures(Vars::get, (vars, name), value),
        0 <= i <= vars.entries@.len(),
        forall|k: int| 0 <= k < i ==> (#[trigger] vars.entries@[k]).0@ != name@,
        i < vars.entries@.len() ==> vars.entries@[i].0@ == name@,
    ensures
        i < vars.entries@.len() ==> (value matches Some(v) && v@ == vars.entries@[i].1@),
        i == vars.entries@.len() ==> value is None,
{
    if i < vars.entries@.len() {
        lemma_beside(vars.entries@, name@, i);
    } else {
        lemma_beside_none(vars.entries@, name@);
    }
}

/// What has to be given, and is not or is no good, is reported by its name.
pub proof fn law_missing_variables_are_named(
    vars: &Vars,
    name: &str,
    texts: &AddressTexts,
    guid: Result<Guid, ConfigError>,
    endpoint: Result<Endpoint, ConfigError>,
    servers: Result<Vec<Endpoint>, ConfigError>,
    text: Result<String, ConfigError>,
)
    requires
        call_ensures(need_guid, (vars, name, true), guid),
        call_ensures(need_endpoint, (vars, name, texts, true), endpoint),
        call_ensures(need_servers, (vars, texts), servers),
        call_ensures(need_text, (vars, name), text),
    ensures
        vars.value(name@) is None ==> {
            &&& guid matches Err(ConfigError::Missing(n)) && n@ == name@
            &&& endpoint matches Err(ConfigError::Missing(n)) && n@ == name@
            &&& text matches Err(ConfigError::Missing(n)) && n@ == name@
        },
        vars.value(name@) matches Some(v) ==> {
            &&& text matches Ok(t) && t@ == v
            &&& match guid_of_text(trimmed(v)) {
                Some(id) => guid matches Ok(g) && g.value == id,
                None => guid matches Err(ConfigError::Bad(n, Expected::Guid)) && n@ == name@,
            }
            &&& match texts.denotes(trimmed(v)) {
                Some(e) => endpoint matches Ok(x) && x == e,
                None => endpoint matches Err(ConfigError::Bad(n, Expected::Endpoint)) && n@ == name@,
            }
        },
        servers is Ok <==> names_servers(*vars, *texts),
        servers matches Ok(s) ==> list_says(vars.value("STUN_ADDR"@)->0, *texts)->Ok_0 == s@,
        vars.value("STUN_ADDR"@) is None ==> (servers matches Err(ConfigError::Missing(n)) && n@
            == "STUN_ADDR"@),
        vars.value("STUN_ADDR"@) is Some && servers is Err ==> (servers matches Err(
            ConfigError::Servers(_),
        )),
{
    if let Ok(t) = text {
        assert(vars.value(name@) == Some(t@));
    }
}

/// Numbers and texts that need not be given: a number over its bound is of no use, one that is none
/// is reported, and a port is a number up to 65535.
pub proof fn law_given_values_are_used(
    vars: &Vars,
    name: &str,
    default: u64,
    max: u64,
    n: Result<u64, ConfigError>,
    fallback: &str,
    text: String,
    shown: &str,
    tidied: &str,
    port: Result<u16, ConfigError>,
)
    requires
        default <= max,
        call_ensures(bounded, (vars, name, default, max), n),
        call_ensures(text_or_default, (vars, name, fallback), text),
        call_ensures(tidy_text, (shown, true), tidied),
        call_ensures(parse_port, (shown,), port),
    ensures
        tidied@ == trimmed(shown@),
        vars.value(name@) is None ==> (n matches Ok(x) && x == default) && text@ == fallback@,
        vars.value(name@) matches Some(v) ==> {
            &&& text@ == v
            &&& match number_in(trimmed(v), u64::MAX as nat) {
                Some(x) => if x <= max {
                    n matches Ok(y) && y == x
                } else {
                    n matches Err(ConfigError::Unfit(bad)) && bad@ == name@
                },
                None => n matches Err(ConfigError::Bad(bad, Expected::Number)) && bad@ == name@,
            }
        },
        match number_in(shown@, 65535) {
            Some(x) => port matches Ok(p) && p == x,
            None => port matches Err(ConfigError::PortFault(_)),
        },
{
    crate::text::law_fault_or_number(shown@, 65535);
}

/// The variables of a phone are its number between `PHONE_` and what they say.
pub proof fn law_phones_have_numbered_variables(n: u8, suffix: &str, name: String)
    requires
        call_ensures(phone_variable, (n, suffix), name),
    ensures
        name@ == "PHONE_"@ + decimal(n as nat) + suffix@,
{
}

/// The settings of a server are good if both GUIDs are given, and the address, the MTU, the wait
/// and the number of holes are good where they are given. The GUIDs are looked at first.
pub proof fn law_good_settings_make_a_server(vars: &Vars, config: Result<Common, ConfigError>)
    requires
        call_ensures(Common::from_settings, (vars,), config),
    ensures
        config is Ok <==> {
            &&& is_guid_tidied(*vars, "MY_ID"@)
            &&& is_guid_tidied(*vars, "PEER_ID"@)
            &&& cidr_in(
                match vars.value("TUN_ADDR"@) {
                    Some(text) => text,
                    None => "10.80.0.1/16"@,
                },
            ) is Some
            &&& is_number_tidied(*vars, "TUN_MTU"@, 65535)
            &&& is_number_tidied(*vars, "REORDER_WAIT_MS"@, u64::MAX as nat)
            &&& is_number_tidied(*vars, "DATA_HOLES"@, 255)
        },
        vars.value("MY_ID"@) is None ==> (config matches Err(ConfigError::Missing(n)) && n@
            == "MY_ID"@),
        is_guid_tidied(*vars, "MY_ID"@) && vars.value("PEER_ID"@) is None ==> (config matches Err(
            ConfigError::Missing(n),
        ) && n@ == "PEER_ID"@),
{
}

/// The settings of a server before WireGuard are good if all that has to be given is, and the rest
/// is good where it is given.
pub proof fn law_good_settings_make_a_wireguard_server(
    vars: &Vars,
    texts: &AddressTexts,
    config: Result<ServerConfig, ConfigError>,
)
    requires
        call_ensures(ServerConfig::from_env, (vars, texts), config),
    ensures
        config is Ok <==> {
            &&& is_number(*vars, "CLIENT_TIMEOUT_SECS"@, u64::MAX as nat)
            &&& names_servers(*vars, *texts)
            &&& vars.value("MQTT_ADDR"@) is Some && texts.denotes(
                vars.value("MQTT_ADDR"@)->0,
            ) is Some
            &&& vars.value("MQTT_CA"@) is Some
            &&& is_guid(*vars, "MY_ID"@) && is_guid(*vars, "PEER_ID"@)
            &&& texts.denotes(
                match vars.value("WG_ADDR"@) {
                    Some(text) => text,
                    None => "127.0.0.1:51820"@,
                },
            ) is Some
        },
{
}

/// Peers behind NATs can be found if the certificate, the servers and the broker are given.
pub proof fn law_good_settings_find_peers(
    vars: &Vars,
    texts: &AddressTexts,
    p2p: Result<P2p, ConfigError>,
)
    requires
        call_ensures(p2p_discovery, (vars, texts), p2p),
    ensures
        p2p is Ok <==> vars.value("MQTT_CA"@) is Some && names_servers(*vars, *texts) && vars.value(
            "MQTT_ADDR"@,
        ) is Some && texts.denotes(trimmed(vars.value("MQTT_ADDR"@)->0)) is Some,
{
}

/// The settings of a relaying router are good if its phones can be read and are some, nothing is
/// listed twice, and all that has to be given is.
pub proof fn law_good_settings_make_a_relay(
    vars: &Vars,
    texts: &AddressTexts,
    phones: Result<Vec<Phone>, ConfigError>,
    config: Result<RelayConfig, ConfigError>,
    server_my_id: Guid,
    router_twice: Option<Guid>,
    phone_twice: Option<Guid>,
)
    requires
        call_ensures(parse_phones, (vars, false), phones),
        call_ensures(RelayConfig::from_env, (vars, texts), config),
        phones matches Ok(p) ==> call_ensures(find_router_twice, (server_my_id, &p), router_twice)
            && call_ensures(find_phone_twice, (&p,), phone_twice),
        is_guid(*vars, "SERVER_MY_ID"@) ==> guid_of_text(vars.value("SERVER_MY_ID"@)->0) == Some(
            server_my_id.value,
        ),
    ensures
        config is Ok <==> {
            &&& phones matches Ok(p) && p@.len() > 0
            &&& names_servers(*vars, *texts)
            &&& vars.value("MQTT_ADDR"@) is Some && texts.denotes(
                vars.value("MQTT_ADDR"@)->0,
            ) is Some
            &&& vars.value("MQTT_CA"@) is Some
            &&& is_guid(*vars, "SERVER_MY_ID"@) && is_guid(*vars, "SERVER_PEER_ID"@)
            &&& router_twice is None && phone_twice is None
        },
        config matches Ok(c) ==> phones matches Ok(p) && c.phones@ == p@,
        phones matches Ok(p) ==> (p@.len() == 0 ==> config is Err && config->Err_0 is NoPhones),
        config matches Err(ConfigError::RelayTwice(id)) ==> router_twice == Some(id),
        config matches Err(ConfigError::PhoneTwice(id)) ==> phone_twice == Some(id),
{
    if let Err(e) = config {
        if let Ok(p) = phones {
            if p@.len() == 0 {
                assert(e@ == ConfigModel::NoPhones);
            }
        } else {
            assert(phones_from(*vars, 1, Seq::empty(), false) == Err::<Seq<Phone>, ConfigModel>(e@));
            lemma_no_repetition_found(*vars, 1, Seq::empty());
        }
    }
}

/// Where phones are read as they stand, repetitions are not looked for yet.
proof fn lemma_no_repetition_found(vars: Vars, n: int, read: Seq<Phone>)
    ensures
        phones_from(vars, n, read, false) matches Err(e) ==> !(e is RelayTwice) && !(e is PhoneTwice),
    decreases 256 - n,
{
    if n <= 255 {
        let (my, peer) = (
            vars.value(phone_name(n as u8, "_MY_ID"@)),
            vars.value(phone_name(n as u8, "_PEER_ID"@)),
        );
        if my is Some && peer is Some {
            let (a, b) = (super::guid_in(my->0), super::guid_in(peer->0));
            if a is Some && b is Some {
                lemma_no_repetition_found(
                    vars,
                    n + 1,
                    read.push(Phone { client_id: n as u8, my_id: a->0, peer_id: b->0 }),
                );
            }
        }
    }
}

/// The settings of a gateway are good if its phones can be read and there is a way to find them,
/// the server, both GUIDs and the address of the device are given, the rest is good where it is
/// given, and the gateway is nobody twice.
pub proof fn law_good_settings_make_a_gateway(
    vars: &Vars,
    texts: &AddressTexts,
    phones: Result<Vec<Phone>, ConfigError>,
    config: Result<GatewayConfig, ConfigError>,
    vps_my_id: Guid,
    twice: Option<Guid>,
)
    requires
        call_ensures(parse_phones, (vars, true), phones),
        call_ensures(GatewayConfig::from_settings, (vars, texts), config),
        phones matches Ok(p) ==> call_ensures(find_router_twice, (vps_my_id, &p), twice),
        is_guid_tidied(*vars, "VPS_MY_ID"@) ==> guid_of_text(trimmed(vars.value("VPS_MY_ID"@)->0))
            == Some(vps_my_id.value),
    ensures
        config is Ok <==> {
            &&& phones is Ok
            &&& phones->Ok_0@.len() > 0 ==> names_servers(*vars, *texts) && vars.value(
                "MQTT_ADDR"@,
            ) is Some && texts.denotes(trimmed(vars.value("MQTT_ADDR"@)->0)) is Some && vars.value(
                "MQTT_CA"@,
            ) is Some
            &&& vars.value("VPS_SERVER"@) is Some
            &&& texts.denotes(trimmed(vars.value("VPS_SERVER"@)->0)) is Some || texts.denotes_ip(
                trimmed(vars.value("VPS_SERVER"@)->0),
            ) is Some
            &&& is_guid_tidied(*vars, "VPS_MY_ID"@) && is_guid_tidied(*vars, "VPS_PEER_ID"@)
            &&& vars.value("TUN_ADDR"@) is Some && cidr_in(vars.value("TUN_ADDR"@)->0) is Some
            &&& is_number_tidied(*vars, "TUN_MTU"@, 65535)
            &&& is_number_tidied(*vars, "REORDER_WAIT_MS"@, u64::MAX as nat)
            &&& is_number_tidied(*vars, "DATA_HOLES"@, 255)
            &&& twice is None
        },
        config matches Ok(c) ==> c.phones@ == phones->Ok_0@,
        config matches Err(ConfigError::RouterTwice(id)) ==> phones is Err || twice == Some(id),
{
}

/// Phones are good if each, from the first on, has both GUIDs, up to a number for which neither is
/// given; and where white space does not matter, none may be listed twice.
pub proof fn law_good_phones_are_read(
    vars: &Vars,
    tidy: bool,
    n: int,
    phones: Result<Vec<Phone>, ConfigError>,
)
    requires
        call_ensures(parse_phones, (vars, tidy), phones),
        0 <= n <= 255,
        forall|i: int| 1 <= i <= n ==> #[trigger] is_phone(*vars, i, tidy),
        n < 255 ==> is_no_phone(*vars, n + 1),
        tidy ==> forall|i: int, j: int|
            1 <= i < j <= n ==> #[trigger] phone_id(*vars, i, tidy) != #[trigger] phone_id(
                *vars,
                j,
                tidy,
            ),
    ensures
        phones matches Ok(p) && p@.len() == n,
{
    lemma_phones_owed(*vars, tidy, n, 1, Seq::empty());
}

/// The GUID of a phone.
pub open spec fn phone_id(vars: Vars, n: int, tidy: bool) -> Option<u128> {
    let text = vars.value(phone_name(n as u8, "_PEER_ID"@));
    guid_of_text(
        if tidy {
            trimmed(text->0)
        } else {
            text->0
        },
    )
}

/// Both GUIDs of the phone are given.
pub open spec fn is_phone(vars: Vars, n: int, tidy: bool) -> bool {
    let my = vars.value(phone_name(n as u8, "_MY_ID"@));
    &&& my is Some && vars.value(phone_name(n as u8, "_PEER_ID"@)) is Some
    &&& guid_of_text(
        if tidy {
            trimmed(my->0)
        } else {
            my->0
        },
    ) is Some
    &&& phone_id(vars, n, tidy) is Some
}

/// Neither GUID of the phone is given.
pub open spec fn is_no_phone(vars: Vars, n: int) -> bool {
    vars.value(phone_name(n as u8, "_MY_ID"@)) is None && vars.value(
        phone_name(n as u8, "_PEER_ID"@),
    ) is None
}

proof fn lemma_phones_owed(vars: Vars, tidy: bool, n: int, k: int, read: Seq<Phone>)
    requires
        1 <= k <= n + 1 <= 256,
        read.len() == k - 1,
        forall|i: int| 1 <= i <= n ==> #[trigger] is_phone(vars, i, tidy),
        n < 255 ==> is_no_phone(vars, n + 1),
        tidy ==> forall|i: int, j: int|
            1 <= i < j <= n ==> #[trigger] phone_id(vars, i, tidy) != #[trigger] phone_id(
                vars,
                j,
                tidy,
            ),
        forall|i: int|
            0 <= i < read.len() ==> Some((#[trigger] read[i]).peer_id.value) == phone_id(
                vars,
                i + 1,
                tidy,
            ),
    ensures
        phones_from(vars, k, read, tidy) matches Ok(phones) && phones.len() == n,
    decreases n + 1 - k,
{
    if k <= n {
        assert(is_phone(vars, k, tidy));
        let my = vars.value(phone_name(k as u8, "_MY_ID"@))->0;
        let peer = vars.value(phone_name(k as u8, "_PEER_ID"@))->0;
        let a = super::guid_in(super::tidied(my, tidy))->0;
        let b = super::guid_in(super::tidied(peer, tidy))->0;
        assert(Some(b.value) == phone_id(vars, k, tidy));
        if tidy && listed(read, b) {
            let i = choose|i: int| 0 <= i < read.len() && (#[trigger] read[i]).peer_id == b;
            assert(phone_id(vars, i + 1, tidy) != phone_id(vars, k, tidy));
        }
        let more = read.push(Phone { client_id: k as u8, my_id: a, peer_id: b });
        assert forall|i: int| 0 <= i < more.len() implies Some((#[trigger] more[i]).peer_id.value)
            == phone_id(vars, i + 1, tidy) by {
            if i < read.len() {
                assert(more[i] == read[i]);
            }
        }
        lemma_phones_owed(vars, tidy, n, k + 1, more);
    }
}

/// A phone of which only one variable is set is reported by its number, if the phones before it
/// are good.
pub proof fn law_half_phones_are_reported(
    vars: &Vars,
    n: int,
    phones: Result<Vec<Phone>, ConfigError>,
)
    requires
        call_ensures(parse_phones, (vars, false), phones),
        0 <= n < 255,
        forall|i: int| 1 <= i <= n ==> #[trigger] is_phone(*vars, i, false),
        vars.value(phone_name((n + 1) as u8, "_MY_ID"@)) is Some <==> vars.value(
            phone_name((n + 1) as u8, "_PEER_ID"@),
        ) is None,
    ensures
        phones matches Err(ConfigError::HalfPhone(k)) && k == n + 1,
{
    lemma_half_phone(*vars, n, 1, Seq::empty());
    if let Err(e) = phones {
        assert(e@ == ConfigModel::HalfPhone((n + 1) as u8));
    }
}

proof fn lemma_half_phone(vars: Vars, n: int, k: int, read: Seq<Phone>)
    requires
        1 <= k <= n + 1 <= 255,
        forall|i: int| 1 <= i <= n ==> #[trigger] is_phone(vars, i, false),
        vars.value(phone_name((n + 1) as u8, "_MY_ID"@)) is Some <==> vars.value(
            phone_name((n + 1) as u8, "_PEER_ID"@),
        ) is None,
    ensures
        phones_from(vars, k, read, false) == Err::<Seq<Phone>, ConfigModel>(
            ConfigModel::HalfPhone((n + 1) as u8),
        ),
    decreases n + 1 - k,
{
    if k <= n {
        assert(is_phone(vars, k, false));
        let my = vars.value(phone_name(k as u8, "_MY_ID"@))->0;
        let peer = vars.value(phone_name(k as u8, "_PEER_ID"@))->0;
        let (a, b) = (super::guid_in(my)->0, super::guid_in(peer)->0);
        lemma_half_phone(
            vars,
            n,
            k + 1,
            read.push(Phone { client_id: k as u8, my_id: a, peer_id: b }),
        );
    }
}

/// The settings of a server with a public address are good if the address is given, the ports are
/// good where they are given, and the bootstrap port is none of the others.
pub proof fn law_good_settings_make_a_public_server(
    vars: &Vars,
    texts: &AddressTexts,
    found: Result<Discovery, ConfigError>,
    given: &str,
    ports: Result<PortRange, ConfigError>,
)
    requires
        call_ensures(discovery, (vars, texts), found),
        vars.value("VPS_PORTS"@) == Some(given@),
        call_ensures(parse_ports, (given,), ports),
    ensures
        found is Ok <==> {
            &&& vars.value("VPS_PUBLIC_IP"@) is Some && texts.denotes_ip(
                vars.value("VPS_PUBLIC_IP"@)->0,
            ) is Some
            &&& is_number(*vars, "VPS_BOOTSTRAP_PORT"@, 65535)
            &&& ports is Ok
            &&& match vars.value("VPS_BOOTSTRAP_PORT"@) {
                Some(text) => number_in(text, 65535)->0 < ports->Ok_0.low || number_in(
                    text,
                    65535,
                )->0 > ports->Ok_0.high,
                None => 40000 < ports->Ok_0.low || 40000 > ports->Ok_0.high,
            }
        },
        found matches Ok(Discovery::VpsServer { ports: used, .. }) ==> ports == Ok::<
            PortRange,
            ConfigError,
        >(used),
{
}

/// Where no ports are given, the server is good with its address and a bootstrap port outside of
/// 40001 to 49999.
pub proof fn law_a_public_server_needs_no_ports(
    vars: &Vars,
    texts: &AddressTexts,
    found: Result<Discovery, ConfigError>,
)
    requires
        call_ensures(discovery, (vars, texts), found),
        vars.value("VPS_PORTS"@) is None,
    ensures
        found is Ok <==> {
            &&& vars.value("VPS_PUBLIC_IP"@) is Some && texts.denotes_ip(
                vars.value("VPS_PUBLIC_IP"@)->0,
            ) is Some
            &&& vars.value("VPS_BOOTSTRAP_PORT"@) matches Some(text) ==> number_in(text, 65535)
                matches Some(port) && (port <= 40000 || port >= 50000)
        },
{
}

/// The device of such a server is good if its address and its MTU are.
pub proof fn law_good_settings_make_a_device(
    vars: &Vars,
    tun: Result<Option<TunConfig>, ConfigError>,
)
    requires
        call_ensures(tun_config, (vars,), tun),
        vars.value("VPS_TUN_ADDR"@) is Some,
    ensures
        tun is Ok <==> cidr_in(vars.value("VPS_TUN_ADDR"@)->0) is Some && is_number(
            *vars,
            "VPS_TUN_MTU"@,
            65535,
        ),
        tun matches Ok(t) ==> t is Some,
{
}

/// A measurement by a server fails only where the server is given and is no endpoint; one that is a
/// server fails only where its address is no good, or its ports are not two ports.
pub proof fn law_good_settings_make_a_measurement(
    vars: &Vars,
    texts: &AddressTexts,
    way: Result<BenchPlan, ConfigError>,
)
    requires
        call_ensures(plan, (vars, texts), way),
    ensures
        vars.value("VPS_SERVER"@) matches Some(text) ==> (way is Ok <==> texts.denotes(text) is Some),
        vars.value("VPS_SERVER"@) is None && vars.value("VPS_PUBLIC_IP"@) is None ==> way is Ok,
        vars.value("VPS_SERVER"@) is None && vars.value("VPS_PORTS"@) is None ==> (vars.value(
            "VPS_PUBLIC_IP"@,
        ) matches Some(text) ==> (way is Ok <==> texts.denotes_ip(text) is Some)),
        way matches Ok(BenchPlan::Server { bootstrap_port, .. }) ==> (vars.value(
            "VPS_BOOTSTRAP_PORT"@,
        ) matches Some(text) ==> match number_in(trimmed(text), 65535) {
            Some(port) => bootstrap_port == port,
            None => bootstrap_port == 40000,
        }),
{
}

} // verus!
