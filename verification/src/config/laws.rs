//! What the settings of the programs mean, variable by variable.

use super::android::{
    parse_config, shown_holes, shown_port, shown_status, ClientConfig, ClientError,
};
use super::bench::{plan, BenchPlan};
use super::common::{p2p_discovery, Common, P2p, ServerConfig, TunConfig};
use super::phones::{
    find_phone_twice, find_router_twice, first_phone_twice, law_router_ids_differ, listed,
    parse_phones, phones_from, Phone,
};
use super::router::{holes_text, relay_status, GatewayConfig, RelayConfig};
use super::vps_server::{discovery, parse_ports, ports_in, tun_config};
use super::{number, phone_name, ConfigError, ConfigModel, Expected, Vars};
use crate::address_text::AddressTexts;
use crate::client::Status;
use crate::guid::{guid_of_text, guid_text, Guid};
use crate::multilink::plan::Discovery;
use crate::net::{cidr_in, endpoint_at, Endpoint};
use crate::stun::list_says;
use crate::text::{decimal, number_in, text_holds, trimmed};
use crate::vps::PortRange;
use vstd::prelude::*;

verus! {

/// The variable is a GUID, this one.
pub open spec fn names_guid(vars: Vars, name: Seq<char>, id: Guid) -> bool {
    vars.value(name) is Some && guid_of_text(vars.value(name)->0) == Some(id.value)
}

/// The variable is a GUID, this one, with white space around it or not.
pub open spec fn names_guid_tidied(vars: Vars, name: Seq<char>, id: Guid) -> bool {
    vars.value(name) is Some && guid_of_text(trimmed(vars.value(name)->0)) == Some(id.value)
}

/// The variable is a number up to `max`, with white space around it or not; without it the number
/// is `default`.
pub open spec fn counts(vars: Vars, name: Seq<char>, default: int, max: nat, n: int) -> bool {
    match vars.value(name) {
        None => n == default,
        Some(text) => number_in(trimmed(text), max) == Some(n as nat),
    }
}

/// The variable is a text; without it the text is `default`.
pub open spec fn reads(vars: Vars, name: Seq<char>, default: Seq<char>, text: Seq<char>) -> bool {
    match vars.value(name) {
        None => text == default,
        Some(value) => text == value,
    }
}

/// A number is the default one where it is not given, and else what stands there, up to its bound.
pub proof fn law_numbers_have_defaults(
    vars: &Vars,
    name: &str,
    default: u64,
    max: u64,
    expected: Expected,
    tidy: bool,
    n: Result<u64, ConfigError>,
)
    requires
        call_ensures(number, (vars, name, default, max, expected, tidy), n),
    ensures
        vars.value(name@) is None ==> n == Ok::<u64, ConfigError>(default),
        vars.value(name@) matches Some(text) ==> {
            let given = if tidy {
                number_in(trimmed(text), max as nat)
            } else {
                number_in(text, max as nat)
            };
            &&& given matches Some(x) ==> n == Ok::<u64, ConfigError>(x as u64)
            &&& given is None ==> (n matches Err(ConfigError::Bad(bad, what)) && bad@ == name@ && what
                == expected)
        },
{
}

/// What all servers have: two GUIDs, which have to be given; a device with a name, an address and
/// an MTU; the first wait for a missing packet; and the number of holes for data. What is not given
/// is `hp0`, `10.80.0.1/16`, 1400, 8 and 0.
pub proof fn law_servers_have_defaults(vars: &Vars, config: Result<Common, ConfigError>)
    requires
        call_ensures(Common::from_settings, (vars,), config),
    ensures
        config matches Ok(c) ==> {
            &&& names_guid_tidied(*vars, "MY_ID"@, c.my_id)
            &&& names_guid_tidied(*vars, "PEER_ID"@, c.peer_id)
            &&& reads(*vars, "TUN_NAME"@, "hp0"@, c.tun.name@)
            &&& c.tun.up
            &&& c.tun.address == match vars.value("TUN_ADDR"@) {
                Some(text) => cidr_in(text),
                None => cidr_in("10.80.0.1/16"@),
            }
            &&& c.tun.address is Some
            &&& c.tun.mtu matches Some(mtu) && counts(*vars, "TUN_MTU"@, 1400, 65535, mtu as int)
            &&& counts(*vars, "REORDER_WAIT_MS"@, 8, u64::MAX as nat, c.reorder_wait_ms as int)
            &&& counts(*vars, "DATA_HOLES"@, 0, 255, c.data_holes as int)
        },
        vars.value("MY_ID"@) is None ==> config is Err,
        vars.value("PEER_ID"@) is None ==> config is Err,
{
}

/// A server between clients and WireGuard: its peers have to be given; WireGuard is at
/// `127.0.0.1:51820` and a client is dropped after 300 seconds, where nothing else is given.
pub proof fn law_a_wireguard_server_has_defaults(
    vars: &Vars,
    texts: &AddressTexts,
    config: Result<ServerConfig, ConfigError>,
)
    requires
        call_ensures(ServerConfig::from_env, (vars, texts), config),
    ensures
        config matches Ok(c) ==> {
            &&& names_guid(*vars, "MY_ID"@, c.my_id)
            &&& names_guid(*vars, "PEER_ID"@, c.peer_id)
            &&& vars.value("MQTT_CA"@) == Some(c.mqtt_ca@)
            &&& vars.value("MQTT_ADDR"@) is Some && texts.denotes(vars.value("MQTT_ADDR"@)->0) == Some(
                c.mqtt_addr,
            )
            &&& vars.value("STUN_ADDR"@) is Some
            &&& list_says(vars.value("STUN_ADDR"@)->0, *texts) matches Ok(servers) && servers
                == c.stun_addrs@
            &&& texts.denotes(
                match vars.value("WG_ADDR"@) {
                    Some(text) => text,
                    None => "127.0.0.1:51820"@,
                },
            ) == Some(c.wg_addr)
            &&& vars.value("CLIENT_TIMEOUT_SECS"@) is None ==> c.client_timeout_secs == 300
            &&& vars.value("CLIENT_TIMEOUT_SECS"@) matches Some(text) ==> number_in(
                text,
                u64::MAX as nat,
            ) == Some(c.client_timeout_secs as nat)
        },
{
}

/// How peers behind NATs are found: the servers, the broker and its certificate have to be given.
pub proof fn law_peers_are_found_by_servers_and_a_broker(
    vars: &Vars,
    texts: &AddressTexts,
    p2p: Result<P2p, ConfigError>,
)
    requires
        call_ensures(p2p_discovery, (vars, texts), p2p),
    ensures
        p2p matches Ok(p) ==> {
            &&& vars.value("MQTT_CA"@) == Some(p.mqtt_ca@)
            &&& vars.value("MQTT_ADDR"@) is Some && texts.denotes(
                trimmed(vars.value("MQTT_ADDR"@)->0),
            ) == Some(p.mqtt_addr)
            &&& vars.value("STUN_ADDR"@) is Some
            &&& list_says(vars.value("STUN_ADDR"@)->0, *texts) matches Ok(servers) && servers
                == p.stun_addrs@
        },
        vars.value("MQTT_CA"@) is None || vars.value("MQTT_ADDR"@) is None || vars.value(
            "STUN_ADDR"@,
        ) is None ==> p2p is Err,
{
}

/// A router that relays: there is at least one phone, no phone is listed twice, and the router has
/// a GUID of its own towards the server and towards each phone.
pub proof fn law_a_relaying_router_is_somebody_else_to_everyone(
    vars: &Vars,
    texts: &AddressTexts,
    config: Result<RelayConfig, ConfigError>,
    i: int,
    j: int,
)
    requires
        call_ensures(RelayConfig::from_env, (vars, texts), config),
    ensures
        config matches Ok(c) ==> {
            &&& names_guid(*vars, "SERVER_MY_ID"@, c.server_my_id)
            &&& names_guid(*vars, "SERVER_PEER_ID"@, c.server_peer_id)
            &&& vars.value("MQTT_CA"@) == Some(c.mqtt_ca@)
            &&& vars.value("MQTT_ADDR"@) is Some && texts.denotes(vars.value("MQTT_ADDR"@)->0) == Some(
                c.mqtt_addr,
            )
            &&& c.phones@.len() > 0
            &&& 0 <= i < c.phones@.len() ==> c.phones@[i].my_id != c.server_my_id
            &&& 0 <= i < j < c.phones@.len() ==> c.phones@[i].my_id != c.phones@[j].my_id
                && c.phones@[i].peer_id != c.phones@[j].peer_id
            &&& 0 <= i < c.phones@.len() ==> c.phones@[i].client_id == i + 1 && names_guid(
                *vars,
                phone_name((i + 1) as u8, "_MY_ID"@),
                c.phones@[i].my_id,
            ) && names_guid(*vars, phone_name((i + 1) as u8, "_PEER_ID"@), c.phones@[i].peer_id)
        },
{
    if let Ok(c) = config {
        let phones = c.phones@;
        law_router_ids_differ(c.server_my_id, phones);
        lemma_phones_differ(phones);
        lemma_phones_read(*vars, 1, Seq::empty(), false);
        if 0 <= i < j < phones.len() {
            assert(phones[i].my_id != phones[j].my_id);
            assert(phones[i].peer_id != phones[j].peer_id);
        }
        if 0 <= i < phones.len() {
            assert(phones[i].my_id != c.server_my_id);
            assert(read_as(*vars, i + 1, phones[i], false));
        }
    }
}

proof fn lemma_phones_differ(phones: Seq<Phone>)
    requires
        first_phone_twice(phones) is None,
    ensures
        forall|i: int, j: int|
            0 <= i < j < phones.len() ==> (#[trigger] phones[i]).peer_id != (
            #[trigger] phones[j]).peer_id,
    decreases phones.len(),
{
    if phones.len() > 0 {
        let rest = phones.drop_last();
        lemma_phones_differ(rest);
        assert forall|i: int, j: int| 0 <= i < j < phones.len() implies (#[trigger] phones[i]).peer_id
            != (#[trigger] phones[j]).peer_id by {
            assert(rest[i] == phones[i]);
            if j < rest.len() {
                assert(rest[j] == phones[j]);
            }
        }
    }
}

/// The phone is what its two variables say.
pub open spec fn read_as(vars: Vars, n: int, phone: Phone, tidy: bool) -> bool {
    let (my, peer) = (
        vars.value(phone_name(n as u8, "_MY_ID"@)),
        vars.value(phone_name(n as u8, "_PEER_ID"@)),
    );
    &&& phone.client_id == n
    &&& my is Some && peer is Some
    &&& guid_of_text(
        if tidy {
            trimmed(my->0)
        } else {
            my->0
        },
    ) == Some(phone.my_id.value)
    &&& guid_of_text(
        if tidy {
            trimmed(peer->0)
        } else {
            peer->0
        },
    ) == Some(phone.peer_id.value)
}

proof fn lemma_phones_read(vars: Vars, n: int, read: Seq<Phone>, tidy: bool)
    requires
        1 <= n <= 256,
        read.len() == n - 1,
        forall|i: int| 0 <= i < read.len() ==> read_as(vars, i + 1, #[trigger] read[i], tidy),
        tidy ==> first_phone_twice(read) is None,
    ensures
        phones_from(vars, n, read, tidy) matches Ok(phones) ==> {
            &&& phones.len() <= 255
            &&& forall|i: int|
                0 <= i < phones.len() ==> read_as(vars, i + 1, #[trigger] phones[i], tidy)
            &&& tidy ==> first_phone_twice(phones) is None
            &&& phones.len() < 255 ==> vars.value(phone_name((phones.len() + 1) as u8, "_MY_ID"@)) is None
                && vars.value(phone_name((phones.len() + 1) as u8, "_PEER_ID"@)) is None
        },
    decreases 256 - n,
{
    if n <= 255 {
        let my_name = phone_name(n as u8, "_MY_ID"@);
        let peer_name = phone_name(n as u8, "_PEER_ID"@);
        if let (Some(my), Some(peer)) = (vars.value(my_name), vars.value(peer_name)) {
            let (a, b) = (
                super::guid_in(super::tidied(my, tidy)),
                super::guid_in(super::tidied(peer, tidy)),
            );
            if a is Some && b is Some && !(tidy && listed(read, b->0)) {
                let phone = Phone { client_id: n as u8, my_id: a->0, peer_id: b->0 };
                let more = read.push(phone);
                assert(more.drop_last() =~= read);
                assert forall|i: int| 0 <= i < more.len() implies read_as(
                    vars,
                    i + 1,
                    #[trigger] more[i],
                    tidy,
                ) by {
                    if i < read.len() {
                        assert(more[i] == read[i]);
                    }
                }
                lemma_phones_read(vars, n + 1, more, tidy);
            }
        }
    }
}

/// The phones are those of the variables with their numbers, from 1 on, up to the first number for
/// which neither is given; each has the GUIDs that stand there.
pub proof fn law_phones_are_read_in_a_row(
    vars: &Vars,
    tidy: bool,
    phones: Result<Vec<Phone>, ConfigError>,
    i: int,
    j: int,
)
    requires
        call_ensures(parse_phones, (vars, tidy), phones),
    ensures
        phones matches Ok(p) ==> {
            &&& p@.len() <= 255
            &&& 0 <= i < p@.len() ==> read_as(*vars, i + 1, p@[i], tidy)
            &&& tidy && 0 <= i < j < p@.len() ==> p@[i].peer_id != p@[j].peer_id
            &&& p@.len() < 255 ==> vars.value(phone_name((p@.len() + 1) as u8, "_MY_ID"@)) is None
                && vars.value(phone_name((p@.len() + 1) as u8, "_PEER_ID"@)) is None
        },
{
    if let Ok(p) = phones {
        lemma_phones_read(*vars, 1, Seq::empty(), tidy);
        if tidy {
            lemma_phones_differ(p@);
        }
    }
}

/// A GUID that occurs twice is found: that of the router, where it is the one towards the server or
/// towards two phones, and that of a phone, where two have it.
pub proof fn law_repeated_guids_are_found(
    server_my_id: Guid,
    phones: &Vec<Phone>,
    router: Option<Guid>,
    phone: Option<Guid>,
    i: int,
    j: int,
)
    requires
        call_ensures(find_router_twice, (server_my_id, phones), router),
        call_ensures(find_phone_twice, (phones,), phone),
        0 <= i < j < phones@.len(),
    ensures
        phones@[i].my_id == server_my_id || phones@[i].my_id == phones@[j].my_id ==> router is Some,
        phones@[i].peer_id == phones@[j].peer_id ==> phone is Some,
{
    if router is None {
        law_router_ids_differ(server_my_id, phones@);
        assert(phones@[i].my_id != phones@[j].my_id);
    }
    if phone is None {
        lemma_phones_differ(phones@);
        assert(phones@[i].peer_id != phones@[j].peer_id);
    }
}

/// A gateway: the server, both GUIDs and the address of the device have to be given; the servers
/// and the broker only where there are phones. What else is not given is `hp0`, 1400, 8 and 0.
pub proof fn law_a_gateway_has_defaults(
    vars: &Vars,
    texts: &AddressTexts,
    config: Result<GatewayConfig, ConfigError>,
    i: int,
    j: int,
)
    requires
        call_ensures(GatewayConfig::from_settings, (vars, texts), config),
    ensures
        config matches Ok(c) ==> {
            &&& names_guid_tidied(*vars, "VPS_MY_ID"@, c.vps_my_id)
            &&& names_guid_tidied(*vars, "VPS_PEER_ID"@, c.vps_peer_id)
            &&& vars.value("TUN_ADDR"@) is Some && cidr_in(vars.value("TUN_ADDR"@)->0) == Some(
                c.tun_addr,
            )
            &&& vars.value("VPS_SERVER"@) is Some && match texts.denotes(
                trimmed(vars.value("VPS_SERVER"@)->0),
            ) {
                Some(server) => c.vps_server == server,
                None => texts.denotes_ip(trimmed(vars.value("VPS_SERVER"@)->0)) matches Some(ip)
                    && c.vps_server == endpoint_at(ip, 40000),
            }
            &&& reads(*vars, "TUN_NAME"@, "hp0"@, c.tun_name@)
            &&& counts(*vars, "TUN_MTU"@, 1400, u64::MAX as nat, c.tun_mtu as int)
            &&& counts(*vars, "REORDER_WAIT_MS"@, 8, u64::MAX as nat, c.reorder_wait_ms as int)
            &&& counts(*vars, "DATA_HOLES"@, 0, u64::MAX as nat, c.data_holes as int)
            &&& c.phone_discovery is None <==> c.phones@.len() == 0
            &&& c.phone_discovery matches Some(d) ==> {
                &&& vars.value("MQTT_CA"@) is Some && d.mqtt_ca@ == trimmed(
                    vars.value("MQTT_CA"@)->0,
                )
                &&& vars.value("MQTT_ADDR"@) is Some && texts.denotes(
                    trimmed(vars.value("MQTT_ADDR"@)->0),
                ) == Some(d.mqtt_addr)
            }
            &&& 0 <= i < c.phones@.len() ==> c.phones@[i].my_id != c.vps_my_id && read_as(
                *vars,
                i + 1,
                c.phones@[i],
                true,
            )
            &&& 0 <= i < j < c.phones@.len() ==> c.phones@[i].my_id != c.phones@[j].my_id
                && c.phones@[i].peer_id != c.phones@[j].peer_id
        },
{
    if let Ok(c) = config {
        let phones = c.phones@;
        law_router_ids_differ(c.vps_my_id, phones);
        lemma_phones_read(*vars, 1, Seq::empty(), true);
        lemma_phones_differ(phones);
        if 0 <= i < phones.len() {
            assert(phones[i].my_id != c.vps_my_id);
        }
        if 0 <= i < j < phones.len() {
            assert(phones[i].my_id != phones[j].my_id);
            assert(phones[i].peer_id != phones[j].peer_id);
        }
    }
}

/// A range of ports is two ports with a hyphen between them, the lower one first; a port is a
/// number up to 65535, and white space around it does not matter.
pub proof fn law_a_range_is_two_ports(
    value: &str,
    ports: Result<PortRange, ConfigError>,
    low: Seq<char>,
    high: Seq<char>,
)
    requires
        call_ensures(parse_ports, (value,), ports),
        value@ == low + seq!['-'] + high,
        !low.contains('-'),
    ensures
        ({
            let (a, b) = (number_in(trimmed(low), 65535), number_in(trimmed(high), 65535));
            &&& ports is Ok <==> a is Some && b is Some && a->0 <= b->0
            &&& ports matches Ok(r) ==> r.low == a->0 && r.high == b->0
            &&& a is Some && b is Some && a->0 > b->0 ==> ports == Err::<PortRange, ConfigError>(
                ConfigError::EmptyRange,
            )
        }),
{
    let n = low.len() as int;
    assert forall|i: int| 0 <= i < n implies value@[i] != '-' by {
        assert(low.contains(low[i]));
    }
    crate::text::lemma_first_at_is(value@, '-', n);
    assert(value@.take(n) =~= low);
    assert(value@.skip(n + 1) =~= high);
    crate::text::law_fault_or_number(trimmed(low), 65535);
    crate::text::law_fault_or_number(trimmed(high), 65535);
}

/// A server with a public address: the address has to be given; the bootstrap port is 40000 and
/// the slots have the ports 40001 to 49999, where nothing else is given. The bootstrap port is none of
/// those.
pub proof fn law_a_public_server_has_defaults(
    vars: &Vars,
    texts: &AddressTexts,
    found: Result<Discovery, ConfigError>,
)
    requires
        call_ensures(discovery, (vars, texts), found),
    ensures
        found matches Ok(d) ==> (d matches Discovery::VpsServer { public_ip, bootstrap_port, ports } && {
            &&& vars.value("VPS_PUBLIC_IP"@) is Some && texts.denotes_ip(
                vars.value("VPS_PUBLIC_IP"@)->0,
            ) == Some(public_ip)
            &&& vars.value("VPS_BOOTSTRAP_PORT"@) is None ==> bootstrap_port == 40000
            &&& vars.value("VPS_BOOTSTRAP_PORT"@) matches Some(text) ==> number_in(text, 65535)
                == Some(bootstrap_port as nat)
            &&& vars.value("VPS_PORTS"@) is None ==> ports.low == 40001 && ports.high == 49999
            &&& vars.value("VPS_PORTS"@) matches Some(text) ==> ports_in(text) matches Ok(r) && r
                == ports
            &&& bootstrap_port < ports.low || bootstrap_port > ports.high
        }),
        vars.value("VPS_PUBLIC_IP"@) is None ==> (found matches Err(e) && e@
            == ConfigModel::Missing("VPS_PUBLIC_IP"@)),
{
}

/// A server has a device of its own where an address is given for it; its name is `hp0` and its MTU
/// 1400, where nothing else is given.
pub proof fn law_a_public_server_may_have_a_device(
    vars: &Vars,
    tun: Result<Option<TunConfig>, ConfigError>,
)
    requires
        call_ensures(tun_config, (vars,), tun),
    ensures
        vars.value("VPS_TUN_ADDR"@) is None ==> tun matches Ok(None),
        tun matches Ok(Some(t)) ==> {
            &&& vars.value("VPS_TUN_ADDR"@) is Some && t.address == cidr_in(
                vars.value("VPS_TUN_ADDR"@)->0,
            ) && t.address is Some
            &&& reads(*vars, "VPS_TUN_NAME"@, "hp0"@, t.name@)
            &&& t.mtu matches Some(mtu) && match vars.value("VPS_TUN_MTU"@) {
                None => mtu == 1400,
                Some(text) => number_in(text, 65535) == Some(mtu as nat),
            }
            &&& t.up
        },
{
}

/// What an application is given of a connection: everything has to be right, and is taken as it
/// stands, with white space around it or not.
pub proof fn law_an_application_checks_what_it_is_given(
    stun: &str,
    mqtt: &str,
    ca_pem: &str,
    my_id: &str,
    peer_id: &str,
    local_port: i32,
    texts: &AddressTexts,
    config: Result<ClientConfig, ClientError>,
)
    requires
        call_ensures(parse_config, (stun, mqtt, ca_pem, my_id, peer_id, local_port, texts), config),
    ensures
        ({
            let pem = text_holds(ca_pem@, "-----BEGIN CERTIFICATE-----"@);
            let servers = list_says(stun@, *texts) is Ok;
            let broker = texts.denotes(trimmed(mqtt@)) is Some;
            let me = guid_of_text(trimmed(my_id@)) is Some;
            let peer = guid_of_text(trimmed(peer_id@)) is Some;
            let port = 0 <= local_port <= 65535;
            &&& config is Ok <==> pem && servers && broker && me && peer && port
            &&& config matches Err(e) ==> {
                &&& e is NotPem <==> !pem
                &&& e is Servers <==> pem && !servers
                &&& e is Mqtt <==> pem && servers && !broker
                &&& e is MyId <==> pem && servers && broker && !me
                &&& e is PeerId <==> pem && servers && broker && me && !peer
            }
            &&& config matches Ok(c) ==> {
                &&& list_says(stun@, *texts)->Ok_0 == c.stun_addrs@
                &&& texts.denotes(trimmed(mqtt@)) == Some(c.mqtt_addr)
                &&& c.mqtt_ca_pem@ == ca_pem@
                &&& guid_of_text(trimmed(my_id@)) == Some(c.my_id.value)
                &&& guid_of_text(trimmed(peer_id@)) == Some(c.peer_id.value)
                &&& c.local_port == local_port
                &&& c.reorder_wait_ms == 8 && c.data_holes == 0
            }
        }),
{
}

/// What an application shows of a connection that does not run is zero.
pub proof fn law_what_is_shown_of_a_connection(
    client: Option<Status>,
    holes: i32,
    local: Option<Endpoint>,
    port: i32,
)
    requires
        call_ensures(shown_holes, (client,), holes),
        call_ensures(shown_port, (local,), port),
    ensures
        client is None ==> holes == 0,
        client matches Some(s) ==> (s.live_holes <= 0x7fff_ffff ==> holes == s.live_holes),
        local is None ==> port == 0,
        local matches Some(e) ==> port == e.port,
{
}

/// A measurement goes to a server that is given, else it is one with a public address, if such an
/// address is given, else it goes by its arguments.
pub proof fn law_a_measurement_chooses_its_way(
    vars: &Vars,
    texts: &AddressTexts,
    way: Result<BenchPlan, ConfigError>,
)
    requires
        call_ensures(plan, (vars, texts), way),
    ensures
        way matches Ok(BenchPlan::Client { server }) ==> vars.value("VPS_SERVER"@) is Some
            && texts.denotes(vars.value("VPS_SERVER"@)->0) == Some(server),
        way matches Ok(BenchPlan::Arguments) <==> vars.value("VPS_SERVER"@) is None && vars.value(
            "VPS_PUBLIC_IP"@,
        ) is None,
        way matches Ok(BenchPlan::Server { public_ip, bootstrap_port, ports }) ==> {
            &&& vars.value("VPS_SERVER"@) is None
            &&& vars.value("VPS_PUBLIC_IP"@) is Some && texts.denotes_ip(
                vars.value("VPS_PUBLIC_IP"@)->0,
            ) == Some(public_ip)
            &&& vars.value("VPS_PORTS"@) is None ==> ports.low == 40001 && ports.high == 49999
            &&& vars.value("VPS_BOOTSTRAP_PORT"@) is None ==> bootstrap_port == 40000
        },
{
}

/// A fault of the settings as text: what is missing or no good is named, and what was expected is
/// said.
pub proof fn law_faults_are_said(
    fault: ConfigError,
    text: String,
    expected: Expected,
    words: &'static str,
)
    requires
        call_ensures(ConfigError::text, (&fault,), text),
        call_ensures(Expected::text, (expected,), words),
    ensures
        fault matches ConfigError::Missing(name) ==> text@ == "не задана переменная "@ + name@,
        fault matches ConfigError::Bad(name, e) ==> (e == expected ==> text@ == name@ + ": "@ + words@),
        fault matches ConfigError::Unfit(name) ==> text@ == name@,
        fault matches ConfigError::HalfPhone(n) ==> text@ == "телефон "@ + decimal(n as nat)
            + ": нужны обе переменные "@ + phone_name(n, "_MY_ID"@) + " и "@ + phone_name(
            n,
            "_PEER_ID"@,
        ),
        fault is NoPhones ==> text@
            == "не задан ни один телефон: нужны PHONE_1_MY_ID и PHONE_1_PEER_ID"@,
        fault matches ConfigError::PhoneTwice(id) ==> text@ == "GUID телефона "@ + guid_text(
            id.value,
        ) + " указан дважды"@,
        fault is NoRange ==> text@ == "VPS_PORTS: ожидается начало-конец"@,
        fault is EmptyRange ==> text@ == "VPS_PORTS: начало больше конца"@,
        fault matches ConfigError::BootstrapInside(port) ==> text@ == "порт знакомства "@ + decimal(
            port as nat,
        ) + " внутри VPS_PORTS"@,
        expected is Guid ==> words@ == "некорректный GUID"@,
        expected is Endpoint ==> words@ == "ожидается ip:порт"@,
        expected is Server ==> words@ == "ожидается ip или ip:порт"@,
        expected is Ip ==> words@ == "ожидается IP"@,
        expected is Cidr ==> words@ == "ожидается ip/префикс"@,
        expected is Number ==> words@ == "ожидается число"@,
        expected is Millis ==> words@ == "ожидается число миллисекунд"@,
        expected is Seconds ==> words@ == "ожидается число секунд"@,
        expected is Holes ==> words@ == "ожидается число дыр 0..=255"@,
        expected is Port ==> words@ == "ожидается порт"@,
        expected is BenchEndpoint ==> words@ == "ip:порт"@,
        expected is BenchRange ==> words@ == "a-b"@,
{
}

/// What a relaying router shows: its holes to the server, those to each phone, and what was passed
/// on and lost in either direction. One more phone stands behind the others, after a space.
pub proof fn law_a_relay_shows_its_holes(
    server: usize,
    phones: &Vec<(u8, usize)>,
    up: (u32, u32),
    down: (u32, u32),
    text: String,
    more: &Vec<(u8, usize)>,
    phone: (u8, usize),
    longer: String,
)
    requires
        call_ensures(relay_status, (server, phones, up, down), text),
        call_ensures(relay_status, (server, more, up, down), longer),
        more@ == phones@.push(phone),
    ensures
        exists|shown: Seq<char>, front: Seq<char>, back: Seq<char>|
            {
                &&& front == "дыры: сервер "@ + decimal(server as nat) + "/10, телефоны ["@
                &&& back == "]; телефоны->сервер "@ + decimal(up.0 as nat) + " (потеряно "@ + decimal(
                    up.1 as nat,
                ) + "), сервер->телефоны "@ + decimal(down.0 as nat) + " (потеряно "@ + decimal(
                    down.1 as nat,
                ) + ")"@
                &&& text@ == #[trigger] (front + shown + back)
                &&& phones@.len() == 0 ==> shown.len() == 0
                &&& longer@ == front + (shown + (if phones@.len() > 0 {
                    " "@
                } else {
                    Seq::empty()
                }) + decimal(phone.0 as nat) + ":"@ + decimal(phone.1 as nat) + "/10"@) + back
            },
{
    let shown = holes_text(phones@);
    let front = "дыры: сервер "@ + decimal(server as nat) + "/10, телефоны ["@;
    let back = "]; телефоны->сервер "@ + decimal(up.0 as nat) + " (потеряно "@ + decimal(
        up.1 as nat,
    ) + "), сервер->телефоны "@ + decimal(down.0 as nat) + " (потеряно "@ + decimal(
        down.1 as nat,
    ) + ")"@;
    assert(more@.drop_last() =~= phones@);
    assert(text@ =~= front + shown + back);
    assert(longer@ =~= front + holes_text(more@) + back);
}

/// A connection that does not run is shown as stopped, any other as its status.
pub proof fn law_a_stopped_connection_is_shown(
    status: Status,
    running: String,
    stopped: String,
    text: String,
)
    requires
        call_ensures(shown_status, (Some(status),), running),
        call_ensures(shown_status, (None::<Status>,), stopped),
        call_ensures(Status::text, (&status,), text),
    ensures
        running@ == text@,
        stopped@ == "остановлен"@,
{
}

} // verus!
