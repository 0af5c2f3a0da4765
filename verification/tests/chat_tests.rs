use smoll_chat::chat::{notification_json, ListenerRegistry, UserMessage};
use smoll_chat::error::RouteAlreadyRegistered;
use smoll_chat::handler::{
    cookie_username, login_response, message_posted_response, not_found_response,
    notification_response, render_page, route_request, RouteAction,
};
use smoll_chat::http::HttpRequest;
use smoll_chat::routes::RouteTable;

#[test]
fn deliver_with_no_listener_drops_the_message() {
    let mut reg = ListenerRegistry::new();
    let msg = UserMessage::new("ada".to_string(), "hello".to_string());
    let out = reg.deliver(&msg);
    assert!(out.is_empty());
    assert_eq!(reg.len(), 0);
}

#[test]
fn one_listener_gets_the_message_exactly_once() {
    let mut reg = ListenerRegistry::new();
    reg.register(7);
    let msg = UserMessage::new("ada".to_string(), "hello".to_string());
    let out = reg.deliver(&msg);
    assert_eq!(out.len(), 1);
    assert_eq!(out[0].slot, 7);
    assert_eq!(out[0].message, msg);
    assert_eq!(reg.len(), 0);
    // A second delivery finds nobody: the first message is not replayed.
    let out2 = reg.deliver(&UserMessage::new("bob".to_string(), "again".to_string()));
    assert!(out2.is_empty());
}

#[test]
fn fan_out_reaches_every_listener_and_empties_the_registry() {
    let mut reg = ListenerRegistry::new();
    reg.register(1);
    reg.register(2);
    reg.register(3);
    let msg = UserMessage::new("ada".to_string(), "to all".to_string());
    let out = reg.deliver(&msg);
    assert_eq!(out.len(), 3);
    for (i, n) in out.iter().enumerate() {
        assert_eq!(n.slot, (i + 1) as u64);
        assert_eq!(n.message, msg);
    }
    assert_eq!(reg.len(), 0);
}

#[test]
fn deregister_removes_a_waiting_listener() {
    let mut reg = ListenerRegistry::new();
    reg.register(1);
    reg.register(2);
    reg.register(3);
    reg.deregister(2);
    let out = reg.deliver(&UserMessage::new("u".to_string(), "m".to_string()));
    let slots: Vec<u64> = out.iter().map(|n| n.slot).collect();
    assert_eq!(slots, vec![1, 3]);
}

#[test]
fn notification_json_has_the_documented_shape() {
    let msg = UserMessage::new("bob".to_string(), "hi there".to_string());
    assert_eq!(
        notification_json(&msg),
        "{\"username\":\"bob\",\"message\":\"hi there\"}"
    );
}

#[test]
fn login_flow_end_to_end() {
    let raw = "POST /login HTTP/1.1\r\nHost: h\r\nContent-Length: 14\r\n\r\nusername=alice";
    let req = HttpRequest::parse(raw).unwrap();
    assert_eq!(route_request(&req), RouteAction::Login);
    let body = req.body.as_ref().unwrap();
    assert_eq!(body, "username=alice");

    let resp = login_response("192.168.4.28:1234", body);
    assert_eq!(resp.status_code, 303);
    let wire = resp.to_http_string();
    assert!(wire.contains("Location: http://192.168.4.28:1234/chat\r\n"));
    assert!(wire.contains("Set-Cookie: username=alice\r\n"));
}

#[test]
fn posted_message_reaches_a_blocked_listener() {
    // One listener is already blocked on GET /new-message.
    let poll = HttpRequest::parse("GET /new-message HTTP/1.1\r\nHost: h\r\n\r\n").unwrap();
    assert_eq!(route_request(&poll), RouteAction::RegisterListener);
    let mut reg = ListenerRegistry::new();
    reg.register(42);

    // The poster sends its message with its username cookie.
    let raw =
        "POST /message HTTP/1.1\r\nHost: h\r\nCookie: username=bob\r\nContent-Length: 8\r\n\r\nhi there";
    let req = HttpRequest::parse(raw).unwrap();
    assert_eq!(route_request(&req), RouteAction::PostMessage);
    let user = cookie_username(req.get_header("Cookie").unwrap()).unwrap();
    let msg = UserMessage::new(user, req.body.clone().unwrap());

    let out = reg.deliver(&msg);
    assert_eq!(out.len(), 1);
    assert_eq!(out[0].slot, 42);
    let json = notification_json(&out[0].message);
    assert_eq!(json, "{\"username\":\"bob\",\"message\":\"hi there\"}");

    let resp = notification_response(&json);
    assert_eq!(resp.status_code, 200);
    let wire = resp.to_http_string();
    assert!(wire.starts_with("HTTP/1.1 200 OK\r\n"));
    assert!(wire.ends_with("\r\n{\"username\":\"bob\",\"message\":\"hi there\"}"));
    assert!(wire.contains("Content-Type: application/json\r\n"));
    assert!(wire.contains("Content-Length: 39\r\n"));

    // The poster itself is answered with an empty 200.
    assert_eq!(
        message_posted_response().to_http_string(),
        "HTTP/1.1 200 OK\r\nContent-Length: 0\r\n\r\n"
    );
}

#[test]
fn unrouted_requests_get_an_empty_404() {
    let req = HttpRequest::parse("DELETE /x HTTP/1.1\r\nHost: h\r\n\r\n").unwrap();
    assert_eq!(route_request(&req), RouteAction::NotFound);
    assert_eq!(
        not_found_response().to_http_string(),
        "HTTP/1.1 404 Not Found\r\nContent-Length: 0\r\n\r\n"
    );
}

#[test]
fn static_route_carries_the_file_name() {
    let req = HttpRequest::parse("GET /static/chat.js HTTP/1.1\r\nHost: h\r\n\r\n").unwrap();
    assert_eq!(
        route_request(&req),
        RouteAction::ServeStatic("chat.js".to_string())
    );
}

#[test]
fn page_template_substitutes_the_room_name() {
    assert_eq!(render_page("<h1>{{}}</h1>", "My Room"), "<h1>My Room</h1>");
    // Without a marker the room name lands at the end, as the splitter built it.
    assert_eq!(render_page("plain", "R"), "plainR");
    // Only the first marker becomes the room name; later markers are dropped.
    assert_eq!(render_page("a{{}}b{{}}c", "R"), "aRbc");
}

#[test]
fn cookie_username_is_the_value_after_the_equals_sign() {
    assert_eq!(cookie_username("username=alice"), Some("alice".to_string()));
    assert_eq!(cookie_username("no cookie here"), None);
}

#[test]
fn routes_register_once() {
    let mut table = RouteTable::new();
    assert_eq!(table.get("/"), Some(&"index.html".to_string()));
    assert_eq!(
        table.register_route("/about".to_string(), "about.html".to_string()),
        Ok(())
    );
    assert_eq!(
        table.register_route("/about".to_string(), "other.html".to_string()),
        Err(RouteAlreadyRegistered)
    );
    assert_eq!(
        RouteAlreadyRegistered.message(),
        "Route was already registered to other resource"
    );
}
