use smart_home::device::client::{TcpSmartSocket, TemperatureData};
use smart_home::device::client::thermo_execute;
use smart_home::device::mock::{decode_state, DeviceSet, EmulatedDevice, SmartSocket, SmartTermometer};
use smart_home::device::server::{handle_frame, parse_frame, FrameOutcome};
use smart_home::device::{
    DeviceError, HomeError, InfoDeviceProvider, ProviderError, QueryableDevice,
    QueryableDeviceProvider, ReportableDevice,
};
use smart_home::socket::{set_off, set_on, update_power, update_power_with, Socket};
use smart_home::text::push_milli_decimal;
use smart_home::SmartHome;

fn frame(text: &str) -> [u8; 10] {
    let mut buf = [0u8; 10];
    buf[..text.len()].copy_from_slice(text.as_bytes());
    buf
}

fn reply(outcome: FrameOutcome) -> String {
    match outcome {
        FrameOutcome::Reply(t) => t,
        FrameOutcome::Disconnect => panic!("expected a reply"),
    }
}

#[test]
fn set1_then_status_reports_enabled() {
    let mut s = SmartSocket::new();
    assert_eq!(s.execute_with("SET1", 7), "{\"enabled\":true,\"power\":0.007}");
    assert_eq!(s.status().ok(), Some("SmartSocket is on and consumes 0.007 W".to_string()));
    assert_eq!(s.execute_with("GET", 523), "{\"enabled\":true,\"power\":0.523}");
}

#[test]
fn set0_resets_power_to_zero() {
    let mut s = SmartSocket { enabled: true, power: 250 };
    assert_eq!(s.execute_with("SET0", 999), "{\"enabled\":false,\"power\":0.0}");
    assert_eq!(s, SmartSocket { enabled: false, power: 0 });
}

#[test]
fn power_is_refreshed_on_every_command_while_on() {
    let mut s = SmartSocket { enabled: true, power: 1 };
    assert_eq!(s.execute_with("NOPE", 12_345), "");
    assert_eq!(s.power, 345);
    let mut off = SmartSocket::new();
    off.execute_with("NOPE", 12_345);
    assert_eq!(off, SmartSocket::new());
}

#[test]
fn power_renders_in_watts() {
    let mut out = String::new();
    push_milli_decimal(&mut out, 500);
    assert_eq!(out, "0.5");
    let mut out = String::new();
    push_milli_decimal(&mut out, 12_040);
    assert_eq!(out, "12.04");
    let mut out = String::new();
    push_milli_decimal(&mut out, 3000);
    assert_eq!(out, "3");
}

#[test]
fn emulated_socket_execute_uses_a_random_draw() {
    let mut s = SmartSocket::new();
    assert!(s.execute("SET1").ok().unwrap().starts_with("{\"enabled\":true,\"power\":0."));
    assert!(s.enabled && s.power < 1000);
    for _ in 0..20 {
        s.execute("GET").ok().unwrap();
        assert!(s.enabled && s.power < 1000);
    }
}

#[test]
fn thermometer_status_and_commands() {
    let mut t = SmartTermometer::new();
    assert_eq!(t.status().ok(), Some("SmartTermometer shows: 0 °C".to_string()));
    t.temperature = -12;
    assert_eq!(t.execute("GET").ok(), Some("SmartTermometer shows: -12 °C".to_string()));
    assert_eq!(t.execute("SET1").ok(), Some(String::new()));
    assert_eq!(t, SmartTermometer { temperature: -12 });
}

#[test]
fn unknown_command_gets_an_empty_newline_reply() {
    let mut s = SmartSocket::new();
    assert_eq!(reply(handle_frame(&mut s, &frame("HELLO"), 5, 42)), "\n");
    assert_eq!(s, SmartSocket::new());
}

#[test]
fn frames_are_trimmed_of_padding_and_white_space() {
    assert_eq!(parse_frame(&frame(" SET1\n")), "SET1");
    assert_eq!(parse_frame(&[0xff, 0xfe, b'G', b'E', b'T']), "");
    let mut s = SmartSocket::new();
    assert_eq!(
        reply(handle_frame(&mut s, &frame("SET1"), 4, 2_040)),
        "{\"enabled\":true,\"power\":0.04}\n"
    );
    assert!(s.enabled);
}

#[test]
fn empty_read_disconnects_without_touching_the_socket() {
    let mut s = SmartSocket { enabled: true, power: 10 };
    assert!(matches!(handle_frame(&mut s, &frame("SET0"), 0, 3), FrameOutcome::Disconnect));
    assert_eq!(s, SmartSocket { enabled: true, power: 10 });
}

#[test]
fn server_reply_round_trips_through_the_client_decoder() {
    let mut s = SmartSocket { enabled: true, power: 0 };
    let text = reply(handle_frame(&mut s, &frame("GET"), 3, 1_000_250));
    let decoded = TcpSmartSocket::decode_response(text.as_bytes());
    assert_eq!(decoded, "{\"enabled\":true,\"power\":0.25}\n");
    assert_eq!(s, SmartSocket { enabled: true, power: 250 });
}

#[test]
fn client_decodes_invalid_bytes_as_empty() {
    assert_eq!(TcpSmartSocket::decode_response(&[0xc3, 0x28, b'\n']), "");
    assert_eq!(TcpSmartSocket::decode_response("é\n".as_bytes()), "é\n");
}

#[test]
fn client_keeps_its_address_and_documents_commands() {
    let c = TcpSmartSocket::connect("127.0.0.1:8888");
    assert_eq!(c.address(), "127.0.0.1:8888");
    assert_eq!(
        TcpSmartSocket::get_query_doc(),
        "[Smart socket]\n   'SET0' - turn off smart socket\n   'SET1' - turn on smart socket\n   'GET' - get smart socket state and power consumption\n"
    );
}

#[test]
fn failed_receive_makes_the_reading_stale() {
    let mut data = TemperatureData::new();
    data.record(Some(21.5f32.to_be_bytes()));
    assert_eq!(data.get().ok(), Some(21.5f32.to_bits()));
    data.record(None);
    match data.get() {
        Err(DeviceError::ThermoError(d)) => {
            assert_eq!(d, "Failed to receive a temperature data from UDP socket")
        }
        _ => panic!("expected a staleness error"),
    }
}

#[test]
fn thermometer_commands_read_the_cell() {
    let mut data = TemperatureData::new();
    data.set(Some(0x41a0_0000));
    assert_eq!(thermo_execute(&data, "GET").ok(), Some(Some(0x41a0_0000)));
    assert_eq!(thermo_execute(&data, "SET1").ok(), Some(None));
    data.record(None);
    assert!(matches!(thermo_execute(&data, "GET"), Err(DeviceError::ThermoError(_))));
    assert_eq!(thermo_execute(&data, "RESET").ok(), Some(None));
}

#[test]
fn error_messages() {
    let e = ProviderError::DeviceError(DeviceError::SocketError("refused".to_string()));
    assert_eq!(e.message(), "DeviceError: SmartSocket error: refused");
    let e = HomeError::ProviderError(ProviderError::DeviceError(DeviceError::ThermoError(
        "late".to_string(),
    )));
    assert_eq!(e.message(), "DeviceError: Thermo error: late");
    let e: ProviderError = DeviceError::SocketError("x".to_string()).into();
    assert!(matches!(e, ProviderError::DeviceError(DeviceError::SocketError(_))));
}

#[test]
fn device_set_replaces_and_routes() {
    let mut devices = DeviceSet::new();
    assert_eq!(devices.add("sock_1", EmulatedDevice::Socket(SmartSocket::new())), None);
    let previous = devices.add("sock_1", EmulatedDevice::Socket(SmartSocket { enabled: true, power: 5 }));
    assert_eq!(previous, Some(EmulatedDevice::Socket(SmartSocket::new())));
    assert_eq!(devices.status("sock_1").ok(), Some("SmartSocket is on and consumes 0.005 W".to_string()));
    assert!(matches!(devices.status("nope"), Err(ProviderError::NoDeviceError(_))));
    assert!(matches!(devices.execute("nope", "GET"), Err(ProviderError::NoDeviceError(_))));
}

#[test]
fn end_to_end_dispatch_on_emulated_devices() {
    let home = SmartHome::new("h").with_room("kitchen", &["sock_1"]);
    let mut devices = DeviceSet::new();
    devices.add("sock_1", EmulatedDevice::Socket(SmartSocket::new()));
    home.dispatch(&mut devices, "kitchen/sock_1/SET1").ok().unwrap();
    let status = home.dispatch(&mut devices, "kitchen/sock_1").ok().unwrap();
    assert!(status.starts_with("SmartSocket is on"));
    match home.dispatch(&mut devices, "kitchen/nonexistent/GET") {
        Err(HomeError::ProviderError(ProviderError::NoDeviceError(id))) => {
            assert_eq!(id, "nonexistent")
        }
        _ => panic!("expected NoDevice"),
    }
    match home.dispatch(&mut devices, "missing_room/x/GET") {
        Err(HomeError::ProviderError(ProviderError::NoDeviceError(id))) => {
            assert_eq!(id, "missing_room")
        }
        _ => panic!("expected NoDevice"),
    }
}

#[test]
fn plain_socket_transitions() {
    let s = Socket { is_on: false, power: 0 };
    let on = set_on(s);
    assert_eq!(on, Socket { is_on: true, power: 0 });
    assert_eq!(update_power_with(on, 2_500), Socket { is_on: true, power: 500 });
    assert_eq!(update_power_with(s, 2_500), s);
    assert_eq!(set_off(Socket { is_on: true, power: 77 }), s);
    let drawn = update_power(on);
    assert!(drawn.is_on && drawn.power < 1000);
    assert_eq!(update_power(s), s);
}

#[test]
fn decoded_state_matches_the_server_state() {
    let mut s = SmartSocket { enabled: true, power: 0 };
    let text = reply(handle_frame(&mut s, &frame("GET"), 3, 4_007));
    assert_eq!(decode_state(&text), Some(SmartSocket { enabled: true, power: 7 }));
    assert_eq!(decode_state(&SmartSocket { enabled: false, power: 12_340 }.state()), Some(SmartSocket { enabled: false, power: 12_340 }));
    assert_eq!(decode_state("{\"enabled\":true,\"power\":0.50}"), None);
    assert_eq!(decode_state("{\"enabled\":maybe,\"power\":0.5}\n"), None);
    assert_eq!(decode_state(""), None);
}

#[test]
fn device_set_remove_returns_the_device() {
    let mut devices = DeviceSet::new();
    devices.add("t", EmulatedDevice::Thermometer(SmartTermometer { temperature: 3 }));
    assert_eq!(devices.remove("x"), None);
    assert_eq!(devices.remove("t"), Some(EmulatedDevice::Thermometer(SmartTermometer { temperature: 3 })));
    assert!(matches!(devices.status("t"), Err(ProviderError::NoDeviceError(_))));
}
