//! Settings, address books and what is shown.

use home_proxy::address_text::{parse_endpoint, AddressTexts};
use home_proxy::addresses::{client_key, AddressBook, AddressError, AddressKind};
use home_proxy::bench::{burst_step, burst_wait, packet, packet_number, BareBurst, Burst, BurstEvent};
use home_proxy::config::android::{parse_config, shown_holes, shown_port, shown_status, ClientError};
use home_proxy::config::bench::{plan, BenchPlan};
use home_proxy::config::common::{p2p_discovery, Common, ServerConfig};
use home_proxy::config::phones::{parse_phones, Phone};
use home_proxy::config::router::{relay_status, GatewayConfig, RelayConfig};
use home_proxy::config::vps_server::{discovery, parse_ports, tun_config};
use home_proxy::config::{ConfigError, Expected, Vars};
use home_proxy::dns::{client_dns, nameservers, FALLBACK_DNS};
use home_proxy::guid::Guid;
use home_proxy::label::Label;
use home_proxy::multilink::plan::Discovery;
use home_proxy::net::{ipv4, Endpoint};
use home_proxy::paths::{join, PathRules};
use home_proxy::settings::{bad_line_text, config_argument, parse, parse_args, Settings};
use home_proxy::syslog::{c_message, priority, Level};
use home_proxy::text::{number_fault, NumberFault};
use home_proxy::vps::{PortRange, DEFAULT_BOOTSTRAP_PORT, DEFAULT_SLOT_HIGH, DEFAULT_SLOT_LOW};

fn endpoint(text: &str) -> Option<Endpoint> {
    parse_endpoint(text)
}

/// No texts but those of IPv4 addresses denote any.
fn ipv4_only() -> AddressTexts {
    AddressTexts { endpoints: Vec::new(), ips: Vec::new() }
}

fn vars(pairs: &[(&str, &str)]) -> Vars {
    Vars { entries: pairs.iter().map(|(k, v)| (k.to_string(), v.to_string())).collect() }
}

#[test]
fn empty_label_prints_nothing_named_label_gets_brackets() {
    assert_eq!(Label::default().text(), "");
    assert_eq!(Label::new("").text(), "");
    assert_eq!(Label::new("phone").text(), "[phone] ");
}

const CA: &str = "-----BEGIN CERTIFICATE-----\nMIIB\n-----END CERTIFICATE-----\n";
const A: &str = "11111111-1111-4111-8111-111111111111";
const B: &str = "22222222-2222-4222-8222-222222222222";

#[test]
fn valid_settings_parse_and_trim() {
    let (stun, mqtt) = (" 1.2.3.4:3478 , 5.6.7.8:19302", "1.2.3.4:8883\n");
    let config = parse_config(stun, mqtt, CA, &format!(" {A}"), B, 51821, &ipv4_only()).unwrap();
    assert_eq!(config.stun_addrs.len(), 2);
    assert_eq!(Some(config.stun_addrs[0]), endpoint("1.2.3.4:3478"));
    assert_eq!(config.my_id.text(), A);
    assert_eq!(config.local_port, 51821);
    assert_eq!((config.reorder_wait_ms, config.data_holes), (8, 0));
    assert_eq!(config.mqtt_ca_pem, CA);
}

#[test]
fn each_bad_field_is_named_in_the_error() {
    let known = ipv4_only();
    let cases = [
        (parse_config("nope", "1.2.3.4:1", CA, A, B, 1, &known), "STUN"),
        (parse_config("1.2.3.4:1", "1.2.3.4", CA, A, B, 1, &known), "MQTT"),
        (parse_config("1.2.3.4:1", "1.2.3.4:1", "text", A, B, 1, &known), "CA"),
        (parse_config("1.2.3.4:1", "1.2.3.4:1", CA, "x", B, 1, &known), "мой GUID"),
        (parse_config("1.2.3.4:1", "1.2.3.4:1", CA, A, "x", 1, &known), "GUID роутера"),
        (parse_config("1.2.3.4:1", "1.2.3.4:1", CA, A, B, 70000, &known), "порт"),
        (parse_config("1.2.3.4:1", "1.2.3.4:1", CA, A, B, -1, &known), "порт"),
    ];
    for (result, expected) in cases {
        let error = result.err().expect("an error").text();
        assert!(error.contains(expected), "«{expected}» in: {error}");
    }
    assert!(matches!(parse_config("", "", "", "", "", 0, &known), Err(ClientError::NotPem)), "the first fault counts");
}

#[test]
fn port_zero_means_any_free_port() {
    let known = ipv4_only();
    assert_eq!(parse_config("1.2.3.4:1", "1.2.3.4:1", CA, A, B, 0, &known).unwrap().local_port, 0);
}

#[test]
fn status_and_port_when_stopped() {
    assert_eq!(shown_status(None), "остановлен");
    assert_eq!(shown_port(None), 0);
    assert_eq!(shown_holes(None), 0);
}

#[test]
fn status_and_port_when_running() {
    let status = home_proxy::client::status(3, None);
    assert_eq!(shown_status(Some(status)), status.text());
    assert_eq!(shown_holes(Some(status)), 3);
    assert_eq!(shown_port(endpoint("127.0.0.1:51821")), 51821);
}

fn id(n: u8) -> String {
    Guid { value: u128::from_be_bytes([n; 16]) }.text()
}

fn getter(pairs: &[(&str, &str)]) -> Vars {
    vars(pairs)
}

#[test]
fn phones_are_numbered_consecutively() {
    let (a, b, c, d) = (Guid::random(), Guid::random(), Guid::random(), Guid::random());
    let phones = parse_phones(
        &getter(&[
            ("PHONE_1_MY_ID", &a.text()),
            ("PHONE_1_PEER_ID", &b.text()),
            ("PHONE_2_MY_ID", &c.text()),
            ("PHONE_2_PEER_ID", &d.text()),
            ("PHONE_4_MY_ID", &a.text()),
        ]),
        true,
    )
    .unwrap();
    assert_eq!(
        phones,
        vec![Phone { client_id: 1, my_id: a, peer_id: b }, Phone { client_id: 2, my_id: c, peer_id: d }],
        "behind the missing number no more are read"
    );
    assert!(parse_phones(&getter(&[]), true).unwrap().is_empty(), "without phones only a gateway");
}

#[test]
fn half_configured_or_repeated_phones_are_rejected() {
    let (a, b) = (Guid::random().text(), Guid::random().text());
    assert!(parse_phones(&getter(&[("PHONE_1_MY_ID", &a)]), true).is_err());
    let repeated = getter(&[
        ("PHONE_1_MY_ID", &a),
        ("PHONE_1_PEER_ID", &b),
        ("PHONE_2_MY_ID", &a),
        ("PHONE_2_PEER_ID", &b),
    ]);
    assert!(parse_phones(&repeated, true).is_err(), "one phone twice");
    let spaced = format!(" {a} ");
    let untidy = getter(&[("PHONE_1_MY_ID", &spaced), ("PHONE_1_PEER_ID", &b)]);
    assert!(parse_phones(&untidy, true).is_ok());
    assert!(matches!(parse_phones(&untidy, false), Err(ConfigError::Bad(name, Expected::Guid)) if name == "PHONE_1_MY_ID"));
}

#[test]
fn all_phones_up_to_255_are_read() {
    let mut entries = Vec::new();
    for n in 1..=256u32 {
        entries.push((format!("PHONE_{n}_MY_ID"), Guid { value: u128::from(n) }.text()));
        entries.push((format!("PHONE_{n}_PEER_ID"), Guid { value: u128::from(n) + 1000 }.text()));
    }
    let phones = parse_phones(&Vars { entries }, true).unwrap();
    assert_eq!((phones.len(), phones[254].client_id), (255, 255));
}

fn base(phone_count: u8) -> Vec<(String, String)> {
    let mut pairs = vec![
        ("STUN_ADDR".to_string(), "127.0.0.1:3478".to_string()),
        ("MQTT_ADDR".to_string(), "127.0.0.1:8883".to_string()),
        ("MQTT_CA".to_string(), "ca.crt".to_string()),
        ("SERVER_MY_ID".to_string(), id(1)),
        ("SERVER_PEER_ID".to_string(), id(2)),
    ];
    for n in 1..=phone_count {
        pairs.push((format!("PHONE_{n}_MY_ID"), id(10 + n)));
        pairs.push((format!("PHONE_{n}_PEER_ID"), id(20 + n)));
    }
    pairs
}

fn parse_relay(pairs: &[(String, String)]) -> Result<RelayConfig, ConfigError> {
    let vars = Vars { entries: pairs.to_vec() };
    RelayConfig::from_env(&vars, &ipv4_only())
}

#[test]
fn several_phones_get_client_ids_from_their_numbers() {
    let config = parse_relay(&base(3)).unwrap();
    let ids: Vec<u8> = config.phones.iter().map(|p| p.client_id).collect();
    assert_eq!(ids, [1, 2, 3]);
    assert_eq!(config.phones[1].my_id.text(), id(12));
    assert_eq!(config.phones[2].peer_id.text(), id(23));
    assert_eq!(config.mqtt_ca, "ca.crt");
}

#[test]
fn at_least_one_phone_is_required() {
    let error = parse_relay(&base(0)).err().unwrap().text();
    assert!(error.contains("PHONE_1_MY_ID"), "{error}");
}

#[test]
fn half_specified_phone_is_reported() {
    let mut pairs = base(2);
    pairs.retain(|(k, _)| k != "PHONE_2_PEER_ID");
    let error = parse_relay(&pairs).err().unwrap().text();
    assert!(error.contains("PHONE_2_PEER_ID"), "{error}");
}

#[test]
fn missing_common_variable_is_named_in_the_error() {
    let mut pairs = base(1);
    pairs.retain(|(k, _)| k != "SERVER_PEER_ID");
    let error = parse_relay(&pairs).err().unwrap().text();
    assert!(error.contains("SERVER_PEER_ID"), "{error}");
}

#[test]
fn router_guid_reused_between_sets_is_rejected() {
    let mut pairs = base(2);
    pairs.iter_mut().find(|(k, _)| k == "PHONE_2_MY_ID").unwrap().1 = id(11);
    let error = parse_relay(&pairs).err().unwrap().text();
    assert!(error.contains("дважды"), "{error}");
    assert!(error.ends_with("свой (брокер вытеснит клиента с тем же client_id)"), "{error}");

    let mut pairs = base(1);
    pairs.iter_mut().find(|(k, _)| k == "PHONE_1_MY_ID").unwrap().1 = id(1);
    assert!(parse_relay(&pairs).is_err(), "the set to the server counts too");
}

#[test]
fn same_phone_guid_twice_is_rejected() {
    let mut pairs = base(2);
    pairs.iter_mut().find(|(k, _)| k == "PHONE_2_PEER_ID").unwrap().1 = id(21);
    let error = parse_relay(&pairs).err().unwrap().text();
    assert!(error.contains("указан дважды"), "{error}");
}

#[test]
fn relay_status_names_every_phone() {
    assert_eq!(
        relay_status(9, &vec![(1, 10), (2, 0)], (5, 1), (6, 2)),
        "дыры: сервер 9/10, телефоны [1:10/10 2:0/10]; телефоны->сервер 5 (потеряно 1), сервер->телефоны 6 (потеряно 2)"
    );
}

#[test]
fn gateway_settings_have_defaults_and_named_errors() {
    let (a, b) = (id(1), id(2));
    let mut pairs = vec![
        ("VPS_SERVER", " 203.0.113.10 "),
        ("VPS_MY_ID", a.as_str()),
        ("VPS_PEER_ID", b.as_str()),
        ("TUN_ADDR", "10.80.0.2/24"),
    ];
    let read = |pairs: &[(&str, &str)]| {
        let vars = vars(pairs);
        GatewayConfig::from_settings(&vars, &ipv4_only())
    };
    let config = read(&pairs).unwrap();
    assert_eq!(Some(config.vps_server), endpoint("203.0.113.10:40000"));
    assert_eq!((config.tun_name.as_str(), config.tun_mtu, config.reorder_wait_ms, config.data_holes), ("hp0", 1400, 8, 0));
    assert_eq!(config.tun_addr, (ipv4(10, 80, 0, 2), 24));
    assert!(config.phones.is_empty() && config.phone_discovery.is_none());

    pairs.push(("TUN_MTU", "70000"));
    assert_eq!(read(&pairs).unwrap_err().text(), "TUN_MTU");
    pairs[4] = ("TUN_MTU", "x");
    assert_eq!(read(&pairs).unwrap_err().text(), "TUN_MTU: ожидается число");
    pairs[4] = ("DATA_HOLES", "256");
    assert_eq!(read(&pairs).unwrap_err().text(), "DATA_HOLES");
    pairs[4] = ("REORDER_WAIT_MS", " 25 ");
    assert_eq!(read(&pairs).unwrap().reorder_wait_ms, 25);
    let (c, d) = (id(3), id(4));
    pairs.push(("PHONE_1_MY_ID", c.as_str()));
    pairs.push(("PHONE_1_PEER_ID", d.as_str()));
    assert_eq!(read(&pairs).unwrap_err().text(), "не задана переменная STUN_ADDR");
    pairs.push(("STUN_ADDR", "1.1.1.1:1, 2.2.2.2:2"));
    pairs.push(("MQTT_ADDR", " 3.3.3.3:3 "));
    pairs.push(("MQTT_CA", " ca.crt "));
    let phones = read(&pairs).unwrap().phone_discovery.unwrap();
    assert_eq!((phones.stun_addrs.len(), phones.mqtt_ca.as_str()), (2, "ca.crt"));
    pairs[5] = ("PHONE_1_MY_ID", a.as_str());
    assert!(read(&pairs).unwrap_err().text().contains("дважды"));
    pairs[0] = ("VPS_SERVER", "vps");
    assert_eq!(read(&pairs).unwrap_err().text(), "VPS_SERVER: ожидается ip или ip:порт");
}

#[test]
fn common_settings_have_defaults_and_named_errors() {
    let (a, b) = (format!(" {} ", id(1)), id(2));
    let common = Common::from_settings(&vars(&[("MY_ID", &a), ("PEER_ID", &b)])).unwrap();
    assert_eq!((common.my_id.text(), common.peer_id.text()), (id(1), id(2)));
    assert_eq!((common.tun.name.as_str(), common.tun.address), ("hp0", Some((ipv4(10, 80, 0, 1), 16))));
    assert_eq!((common.tun.mtu, common.reorder_wait_ms, common.data_holes), (Some(1400), 8, 0));
    let error = |pairs: &[(&str, &str)]| Common::from_settings(&vars(pairs)).unwrap_err().text();
    assert_eq!(error(&[("PEER_ID", &b)]), "не задана переменная MY_ID");
    assert_eq!(error(&[("MY_ID", "x"), ("PEER_ID", &b)]), "MY_ID: некорректный GUID");
    assert_eq!(error(&[("MY_ID", &a), ("PEER_ID", &b), ("TUN_ADDR", "10.80.0.1")]), "TUN_ADDR: ожидается ip/префикс");
    assert_eq!(error(&[("MY_ID", &a), ("PEER_ID", &b), ("TUN_MTU", "x")]), "TUN_MTU: ожидается число");
    assert_eq!(
        error(&[("MY_ID", &a), ("PEER_ID", &b), ("REORDER_WAIT_MS", "-1")]),
        "REORDER_WAIT_MS: ожидается число миллисекунд"
    );
    assert_eq!(error(&[("MY_ID", &a), ("PEER_ID", &b), ("DATA_HOLES", "256")]), "DATA_HOLES: ожидается число дыр 0..=255");
}

#[test]
fn server_settings_have_defaults_and_named_errors() {
    let (a, b) = (id(1), id(2));
    let mut pairs = vec![
        ("STUN_ADDR", "1.1.1.1:1"),
        ("MQTT_ADDR", "2.2.2.2:2"),
        ("MQTT_CA", "ca.crt"),
        ("MY_ID", a.as_str()),
        ("PEER_ID", b.as_str()),
    ];
    let read = |pairs: &[(&str, &str)]| {
        let vars = vars(pairs);
        ServerConfig::from_env(&vars, &ipv4_only())
    };
    let config = read(&pairs).unwrap();
    assert_eq!((config.client_timeout_secs, Some(config.wg_addr)), (300, endpoint("127.0.0.1:51820")));
    pairs.push(("WG_ADDR", "nowhere"));
    assert_eq!(read(&pairs).unwrap_err().text(), "WG_ADDR: ожидается ip:порт");
    pairs.push(("CLIENT_TIMEOUT_SECS", " 5"));
    assert_eq!(read(&pairs).unwrap_err().text(), "CLIENT_TIMEOUT_SECS: ожидается число секунд");
    let two = vars(&[("MQTT_CA", "ca.crt"), ("STUN_ADDR", "1.1.1.1:1,x"), ("MQTT_ADDR", " 2.2.2.2:2 ")]);
    assert_eq!(p2p_discovery(&two, &ipv4_only()).unwrap_err().text(), "STUN_ADDR: STUN: «x» — ожидается ip:порт");
    let good = vars(&[("MQTT_CA", "ca.crt"), ("STUN_ADDR", "1.1.1.1:1"), ("MQTT_ADDR", " 2.2.2.2:2 ")]);
    assert_eq!(Some(p2p_discovery(&good, &ipv4_only()).unwrap().mqtt_addr), endpoint("2.2.2.2:2"));
}

#[test]
fn ports_parse_and_reject_reversed_ranges() {
    assert_eq!(parse_ports("40001-49999").unwrap(), PortRange { low: 40001, high: 49999 });
    assert_eq!(parse_ports(" 5 - 5 ").unwrap(), PortRange { low: 5, high: 5 });
    assert!(matches!(parse_ports("9-1"), Err(ConfigError::EmptyRange)));
    assert!(matches!(parse_ports("40001"), Err(ConfigError::NoRange)));
    assert!(matches!(parse_ports("1-x"), Err(ConfigError::PortFault(NumberFault::Digit))));
}

#[test]
fn a_bad_bound_is_told_as_parsing_an_integer_tells_it() {
    for bound in ["", "+", "x", "6553x", "65535x", "65536", "99999x", "+70000", "1 2", "٣", "0x1", "000000000000000000000065536"] {
        let told = parse_ports(&format!("{bound}-2")).unwrap_err().text();
        assert_eq!(told, bound.parse::<u16>().unwrap_err().to_string(), "{bound}");
        let told = parse_ports(&format!("1-{bound}")).unwrap_err().text();
        assert_eq!(told, bound.parse::<u16>().unwrap_err().to_string(), "{bound}");
    }
    assert_eq!(parse_ports("+1-0000000002").unwrap(), PortRange { low: 1, high: 2 });
    assert_eq!(number_fault("", 9), Some(NumberFault::Empty));
    assert_eq!(number_fault("10", 9), Some(NumberFault::TooLarge));
    assert_eq!(number_fault("9", 9), None);
    assert_eq!(number_fault("-1", 9), Some(NumberFault::Digit));
}

#[test]
fn paths_are_joined_by_the_rules_of_the_system() {
    let unix = |base, value| join(base, value, PathRules::Unix);
    for (base, value) in [("/etc/hp", "ca.crt"), ("/etc/hp/", "ca.crt"), ("/etc/hp", "/ca.crt"), ("", "a/b"), ("..", ""), ("a", "C:\\b")] {
        assert_eq!(unix(base, value), std::path::Path::new(base).join(value).to_str().unwrap());
    }
    assert_eq!(unix("/etc/hp", "/ca.crt"), "/ca.crt");
    let windows = |base, value| join(base, value, PathRules::Windows);
    assert_eq!(windows("C:\\hp", "ca.crt"), "C:\\hp\\ca.crt");
    assert_eq!(windows("C:\\hp\\", "ca.crt"), "C:\\hp\\ca.crt");
    assert_eq!(windows("C:/hp/", "ca.crt"), "C:/hp/ca.crt");
    assert_eq!(windows("C:\\hp", "D:\\ca.crt"), "D:\\ca.crt");
    assert_eq!(windows("C:\\hp", "d:ca.crt"), "d:ca.crt");
    assert_eq!(windows("C:\\hp", "\\ca.crt"), "C:\\ca.crt");
    assert_eq!(windows("C:\\hp", "/ca.crt"), "C:/ca.crt");
    assert_eq!(windows("C:", "ca.crt"), "C:ca.crt");
    assert_eq!(windows("\\\\server\\share\\hp", "\\ca.crt"), "\\\\server\\share\\ca.crt");
    assert_eq!(windows("C:\\hp", "\\\\server\\share\\ca.crt"), "\\\\server\\share\\ca.crt");
    assert_eq!(windows("", "ca.crt"), "ca.crt");
    // Without a share two separators are a root.
    assert_eq!(windows("C:\\hp", "\\\\name"), "C:\\\\name");
    assert_eq!(windows("C:\\hp", "\\\\name\\"), "C:\\\\name\\");
    assert_eq!(windows("\\\\name", "\\ca.crt"), "\\ca.crt");
    assert_eq!(windows("C:\\hp", "\\\\.\\COM1"), "\\\\.\\COM1");
    assert_eq!(windows("\\\\.\\disk\\hp", "/ca.crt"), "\\\\.\\disk/ca.crt");
    let verbatim = |base: &str, value: &str| join(&format!("\\\\?\\{base}"), value, PathRules::Windows);
    assert_eq!(verbatim("C:\\hp", ".\\ca.crt"), "\\\\?\\C:\\hp\\ca.crt");
    assert_eq!(verbatim("C:\\hp", "..\\x/./y//ca.crt"), "\\\\?\\C:\\x\\y\\ca.crt");
    assert_eq!(verbatim("C:\\hp\\", "../../../ca.crt"), "\\\\?\\C:\\ca.crt");
    assert_eq!(verbatim("C:\\hp", ".."), "\\\\?\\C:\\");
    assert_eq!(verbatim("C:\\hp\\..", "..\\ca.crt"), "\\\\?\\C:\\hp\\..\\ca.crt", "what stood there stays");
    assert_eq!(verbatim("C:\\a/b", "ca.crt"), "\\\\?\\C:\\a/b\\ca.crt", "a slash is part of a name there");
    assert_eq!(verbatim("C:\\hp", "/ca.crt"), "\\\\?\\C:\\ca.crt");
    assert_eq!(verbatim("C:\\hp", "D:\\ca.crt"), "D:\\ca.crt");
    assert_eq!(verbatim("C:", "ca.crt"), "\\\\?\\C:\\ca.crt");
    assert_eq!(verbatim("C:", "."), "\\\\?\\C:");
    assert_eq!(verbatim("C:\\hp", ""), "\\\\?\\C:\\hp\\");
    assert_eq!(verbatim("UNC\\server\\share\\hp", "..\\..\\ca.crt"), "\\\\?\\UNC\\server\\share\\ca.crt");
    assert_eq!(verbatim("pictures\\hp", "\\ca.crt"), "\\\\?\\pictures\\ca.crt");
    let settings = Settings::from_text("A=1\n", "C:\\hp", PathRules::Windows).ok().unwrap();
    assert_eq!(settings.resolve("D:\\ca.crt"), "D:\\ca.crt");
}

fn vps_discovery(text: &str) -> Result<Discovery, ConfigError> {
    let vars = Vars { entries: parse(text).unwrap() };
    discovery(&vars, &ipv4_only())
}

#[test]
fn defaults_and_required_public_ip() {
    match vps_discovery("VPS_PUBLIC_IP=203.0.113.10\n").unwrap() {
        Discovery::VpsServer { bootstrap_port, ports, .. } => {
            assert_eq!(bootstrap_port, DEFAULT_BOOTSTRAP_PORT);
            assert_eq!(ports, PortRange { low: DEFAULT_SLOT_LOW, high: DEFAULT_SLOT_HIGH });
        }
        _ => panic!("another way of finding the server"),
    }
    let error = vps_discovery("VPS_BOOTSTRAP_PORT=40000\n").err().unwrap().text();
    assert!(error.contains("VPS_PUBLIC_IP"), "{error}");
}

#[test]
fn bootstrap_port_must_be_outside_the_slot_range() {
    let text = "VPS_PUBLIC_IP=203.0.113.10\nVPS_BOOTSTRAP_PORT=40005\nVPS_PORTS=40001-40010\n";
    assert!(matches!(vps_discovery(text), Err(ConfigError::BootstrapInside(40005))));
}

fn args(list: &[&str]) -> Vec<String> {
    list.iter().map(|s| s.to_string()).collect()
}

#[test]
fn config_argument_is_optional() {
    assert_eq!(parse_args(&args(&[])).unwrap(), None);
    assert_eq!(parse_args(&args(&["--config", "/etc/hp/server.env"])).unwrap(), Some("/etc/hp/server.env".to_string()));
    assert!(parse_args(&args(&["--config"])).is_err());
    assert!(parse_args(&args(&["install"])).is_err());
}

#[test]
fn the_other_programs_take_the_same_argument() {
    assert_eq!(config_argument(&args(&[])).unwrap(), None);
    assert_eq!(config_argument(&args(&["--config", "router.env"])).unwrap(), Some("router.env".to_string()));
    assert!(config_argument(&args(&["--config"])).is_err());
}

fn value(entries: &[(String, String)], key: &str) -> String {
    entries.iter().rev().find(|(k, _)| k == key).unwrap().1.clone()
}

#[test]
fn parses_keys_comments_quotes_and_export() {
    let map = parse("# заголовок\n\nA=1\nexport B = два \nC=\"с пробелом\"\nD='x'\nE=\n").unwrap();
    assert_eq!(value(&map, "A"), "1");
    assert_eq!(value(&map, "B"), "два");
    assert_eq!(value(&map, "C"), "с пробелом");
    assert_eq!(value(&map, "D"), "x");
    assert_eq!(value(&map, "E"), "");
}

#[test]
fn bom_and_windows_line_endings_are_tolerated() {
    let map = parse("\u{feff}A=1\r\nB=2\r\n").unwrap();
    assert_eq!((value(&map, "A").as_str(), value(&map, "B").as_str()), ("1", "2"));
}

#[test]
fn line_without_equals_is_an_error_with_its_number() {
    let line = parse("A=1\nмусор\n").unwrap_err();
    let error = bad_line_text(line);
    assert!(error.contains("строка 2"), "{error}");
}

#[test]
fn relative_paths_resolve_against_the_config_directory() {
    let settings = Settings::from_text("HP_SETTINGS_TEST_KEY=value\n", "/etc/hp", PathRules::Unix).ok().unwrap();
    assert_eq!(settings.get("HP_SETTINGS_TEST_KEY", None).as_deref(), Some("value"));
    assert_eq!(settings.get("HP_SETTINGS_TEST_KEY", Some("other".to_string())).as_deref(), Some("other"));
    assert_eq!(settings.get("MISSING", None), None);
    assert_eq!(settings.resolve("ca.crt"), "/etc/hp/ca.crt");
}

#[test]
fn without_a_file_paths_stay_relative_to_the_working_directory() {
    let settings = Settings::without_file(PathRules::Unix);
    assert_eq!(settings.resolve("../ca.crt"), "../ca.crt");
}

fn book(prefix: u8) -> AddressBook {
    AddressBook::load(ipv4(10, 80, 0, 1), prefix, None).unwrap()
}

#[test]
fn hosts_and_phones_come_from_separate_pools_and_stay_put() {
    let mut b = book(16);
    assert_eq!(b.get_or_assign("peer:router1", AddressKind::Host).unwrap(), ipv4(10, 80, 0, 2));
    assert_eq!(b.get_or_assign("peer:router2", AddressKind::Host).unwrap(), ipv4(10, 80, 0, 3));
    assert_eq!(b.get_or_assign("via:router1:1", AddressKind::Phone).unwrap(), ipv4(10, 80, 1, 1));
    assert_eq!(b.get_or_assign("via:router2:1", AddressKind::Phone).unwrap(), ipv4(10, 80, 1, 2));
    assert_eq!(b.get_or_assign("peer:router1", AddressKind::Host).unwrap(), ipv4(10, 80, 0, 2));
}

#[test]
fn narrow_subnet_is_one_pool_without_the_server_address() {
    let mut b = book(30);
    assert_eq!(b.get_or_assign("a", AddressKind::Phone).unwrap(), ipv4(10, 80, 0, 2));
    assert!(matches!(b.get_or_assign("b", AddressKind::Host), Err(AddressError::Exhausted)));
}

#[test]
fn wide_pools_skip_dot_zero_and_dot_255() {
    let mut b = book(16);
    for i in 0..254 {
        b.get_or_assign(&format!("via:r:{i}"), AddressKind::Phone).unwrap();
    }
    assert_eq!(b.get_or_assign("next", AddressKind::Phone).unwrap(), ipv4(10, 80, 2, 1));
}

#[test]
fn dns_comes_from_settings_or_resolv_conf_with_fallbacks_last() {
    assert_eq!(
        client_dns(Some("192.168.3.1, 1.1.1.1"), &vec![]).unwrap(),
        vec![ipv4(192, 168, 3, 1), ipv4(1, 1, 1, 1), ipv4(8, 8, 8, 8)]
    );
    assert!(client_dns(Some("resolver"), &vec![]).is_err());
    let conf = "# systemd-resolved\nnameserver 127.0.0.53\nnameserver 192.168.3.1\nnameserver ::1\nsearch lan\n";
    assert_eq!(nameservers(conf), vec![ipv4(192, 168, 3, 1)]);
    assert!(client_dns(None, &vec![]).unwrap().ends_with(&FALLBACK_DNS));
    assert_eq!(client_dns(None, &vec![conf.to_string()]).unwrap()[0], ipv4(192, 168, 3, 1));
}

#[test]
fn the_book_survives_a_restart() {
    let mut b = book(16);
    b.get_or_assign("via:router1:3", AddressKind::Phone).unwrap();
    let first = b.get_or_assign("peer:pc", AddressKind::Host).unwrap();
    let saved = b.save();
    let mut again = AddressBook::load(ipv4(10, 80, 0, 1), 16, Some(&saved)).unwrap();
    assert_eq!(again.get_or_assign("peer:pc", AddressKind::Host).unwrap(), first);
    assert_eq!(again.get_or_assign("peer:new", AddressKind::Host).unwrap(), ipv4(10, 80, 0, 3));
}

#[test]
fn broken_books_and_subnets_are_refused() {
    let load = |prefix, saved| AddressBook::load(ipv4(10, 80, 0, 1), prefix, saved).err();
    assert!(matches!(load(31, None), Some(AddressError::Prefix(31))));
    assert!(matches!(load(16, Some("peer:a")), Some(AddressError::NoAddress(line)) if line == "peer:a"));
    assert!(matches!(load(16, Some("peer:a 10.80.0.300")), Some(AddressError::BadAddress(_))));
    assert_eq!(client_key("abcd1234", Some(3)), "via:abcd1234:3");
    assert_eq!(client_key("abcd1234", None), "peer:abcd1234");
}

#[test]
fn levels_map_to_syslog_priorities() {
    assert_eq!(priority(Level::Error), libc::LOG_ERR);
    assert_eq!(priority(Level::Warn), libc::LOG_WARNING);
    assert_eq!(priority(Level::Info), libc::LOG_INFO);
    assert_eq!(priority(Level::Debug), libc::LOG_DEBUG);
    assert_eq!(priority(Level::Trace), libc::LOG_DEBUG);
}

#[test]
fn message_gets_target_prefix_and_no_nul() {
    let message = c_message("peer", "a\0b");
    assert_eq!(message, "peer: a b");
}

#[test]
fn a_burst_counts_losses_and_lateness() {
    assert_eq!(packet(0x0102, 20), [b"MLBN\0\0\0\0\x02\x01\0\0\0\0\0\0".as_slice(), &[0; 4]].concat());
    assert_eq!(packet(7, 3).len(), 16);
    assert_eq!(packet_number(&packet(u64::MAX, 1392)), Some(u64::MAX));
    assert_eq!(packet_number(&packet(1, 16)[..15]), None);
    assert_eq!(packet_number(&[0; 16]), None);
    let mut burst = Burst::new(10, 1000);
    for (seq, now) in [(10, 1000), (13, 1010), (11, 1025), (13, 1030), (14, 1040)] {
        burst.add_packet(seq, 100, now);
    }
    assert_eq!((burst.first, burst.max, burst.count, burst.bytes), (10, 14, 5, 500));
    assert_eq!((burst.ooo, burst.t0, burst.t1), (2, 1000, 1040));
    assert_eq!(burst.lateness, vec![15], "number 11 was missed at 1010 and came at 1025");
    assert_eq!(burst.missing.len(), 1, "number 12 never came");
    assert_eq!(burst.sent_at_least(), 5);
}

#[test]
fn a_bare_burst_counts_losses() {
    let mut burst = BareBurst::new();
    assert!(!burst.take(&[1; 7]), "too short for a number");
    for n in [5u64, 3, 9] {
        let mut datagram = n.to_le_bytes().to_vec();
        datagram.extend_from_slice(&[0; 92]);
        assert!(burst.take(&datagram));
    }
    assert_eq!(burst, BareBurst { count: 3, bytes: 300, first: 3, max: 9 });
    assert_eq!(burst.losses(), (7, 4));
}

#[test]
fn a_receiver_reports_bursts_and_stops_at_its_deadline() {
    let step = |open, event, past| {
        let step = burst_step(open, event, past);
        (step.count, step.report, step.stop)
    };
    for open in [false, true] {
        assert_eq!(step(open, BurstEvent::Packet, false), (true, false, false));
        assert_eq!(step(open, BurstEvent::Packet, true), (true, true, true));
        for past in [false, true] {
            assert_eq!(step(open, BurstEvent::Other, past), (false, false, false));
            assert_eq!(step(open, BurstEvent::Closed, past), (false, false, true));
        }
    }
    assert_eq!(step(true, BurstEvent::Silence, false), (false, true, false), "the next burst may come");
    assert_eq!(step(true, BurstEvent::Silence, true), (false, true, true));
    assert_eq!(step(false, BurstEvent::Silence, false), (false, false, true));
    assert_eq!((burst_wait(true, 7), burst_wait(false, 7)), (1_500_000_000, 7));
}

#[test]
fn a_measurement_finds_its_other_side() {
    let read = |pairs: &[(&str, &str)]| plan(&vars(pairs), &ipv4_only());
    assert_eq!(read(&[]).unwrap(), BenchPlan::Arguments);
    let server = endpoint("1.2.3.4:40000").unwrap();
    let both = [("VPS_PUBLIC_IP", "203.0.113.10"), ("VPS_SERVER", "1.2.3.4:40000")];
    assert_eq!(read(&both).unwrap(), BenchPlan::Client { server }, "the server comes first");
    assert_eq!(read(&[("VPS_SERVER", "1.2.3.4")]).unwrap_err().text(), "VPS_SERVER: ip:порт");
    match read(&[("VPS_PUBLIC_IP", "203.0.113.10"), ("VPS_PORTS", "9-1"), ("VPS_BOOTSTRAP_PORT", "x")]).unwrap() {
        BenchPlan::Server { bootstrap_port, ports, .. } => {
            assert_eq!((bootstrap_port, ports), (DEFAULT_BOOTSTRAP_PORT, PortRange { low: 9, high: 1 }));
        }
        other => panic!("{other:?}"),
    }
    assert_eq!(read(&[("VPS_PUBLIC_IP", "x"), ("VPS_PORTS", "9")]).unwrap_err().text(), "VPS_PORTS: a-b");
    assert_eq!(read(&[("VPS_PUBLIC_IP", "x"), ("VPS_PORTS", "a-b")]).unwrap_err().text(), "VPS_PUBLIC_IP");
    assert!(matches!(read(&[("VPS_PUBLIC_IP", "1.1.1.1"), ("VPS_PORTS", " 1-2")]), Err(ConfigError::PortFault(NumberFault::Digit))));
}

#[test]
fn a_server_with_a_public_address_may_have_its_own_device() {
    assert!(tun_config(&vars(&[])).unwrap().is_none());
    let tun = tun_config(&vars(&[("VPS_TUN_ADDR", "10.80.0.1/16"), ("VPS_TUN_MTU", "1300")])).unwrap().unwrap();
    assert_eq!((tun.name.as_str(), tun.address, tun.mtu, tun.up), ("hp0", Some((ipv4(10, 80, 0, 1), 16)), Some(1300), true));
    assert_eq!(tun_config(&vars(&[("VPS_TUN_ADDR", "x")])).unwrap_err().text(), "VPS_TUN_ADDR: ожидается ip/префикс");
    let bad = tun_config(&vars(&[("VPS_TUN_ADDR", "10.80.0.1/16"), ("VPS_TUN_MTU", " 1300")]));
    assert_eq!(bad.unwrap_err().text(), "VPS_TUN_MTU");
}
