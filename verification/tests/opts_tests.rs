use smoll_chat::opts::SmollChatOpts;
use smoll_chat::qr::render_server_qr_code;

#[test]
fn defaults_are_the_documented_ones() {
    let o = SmollChatOpts::default();
    assert_eq!(o.port, 8080);
    assert_eq!(o.qrcode, false);
    assert_eq!(o.static_dir, ".");
    assert_eq!(o.room_name, "Room");
}

#[test]
fn env_file_lines_set_the_options() {
    let buf = "port=9000\nqrcode=true\nstatic-dir=/srv/chat\nroom-name=Lounge\n";
    let o = SmollChatOpts::parse_env(buf).unwrap();
    assert_eq!(o.port, 9000);
    assert_eq!(o.qrcode, true);
    assert_eq!(o.static_dir, "/srv/chat");
    assert_eq!(o.room_name, "Lounge");
}

#[test]
fn env_file_skips_unknown_names_and_strips_line_endings() {
    let buf = "banner=ignored\r\nport=81\r\n";
    let o = SmollChatOpts::parse_env(buf).unwrap();
    assert_eq!(o.port, 81);
    assert_eq!(o.room_name, "Room");
}

#[test]
fn env_file_with_bad_values_is_refused() {
    assert!(SmollChatOpts::parse_env("port=eighty").is_err());
    assert!(SmollChatOpts::parse_env("qrcode=yes").is_err());
    assert!(SmollChatOpts::parse_env("room-name").is_err());
}

#[test]
fn args_set_the_options() {
    let args: Vec<String> = ["chat", "--port", "1234", "--qrcode", "true", "--room-name", "Den"]
        .iter()
        .map(|s| s.to_string())
        .collect();
    let o = SmollChatOpts::parse_args(&args).unwrap();
    assert_eq!(o.port, 1234);
    assert_eq!(o.qrcode, true);
    assert_eq!(o.room_name, "Den");
    assert_eq!(o.static_dir, ".");
}

#[test]
fn args_with_a_missing_or_bad_value_are_refused() {
    let missing: Vec<String> = ["chat", "--port"].iter().map(|s| s.to_string()).collect();
    assert!(SmollChatOpts::parse_args(&missing).is_err());
    let bad: Vec<String> = ["chat", "-p", "over 9000"].iter().map(|s| s.to_string()).collect();
    assert!(SmollChatOpts::parse_args(&bad).is_err());
}

#[test]
fn qr_banner_is_a_rendering_not_the_address() {
    let banner = render_server_qr_code("192.168.4.28:1234").unwrap();
    assert!(!banner.is_empty());
    assert_ne!(banner, "http://192.168.4.28:1234");
    // A QR rendering spans many terminal rows.
    assert!(banner.lines().count() > 10);
}
