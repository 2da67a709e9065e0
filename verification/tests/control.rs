use cavawall::control::{
    not_running, report, serve_control, socket_path, table_line, After, Printed, Request, Response,
    Served, Status,
};
use cavawall::scheme::Environment;

fn status() -> Status {
    Status {
        pid: 4242,
        pinned_output: None,
        placed_on: Some("DP-1".to_string()),
        bars: 76,
        curve_key: Some("a \"quoted\" key".to_string()),
    }
}

fn serve(request: Option<Request>) -> Served {
    serve_control(request, &status())
}

#[test]
fn the_socket_is_beside_the_lock() {
    let mut env =
        Environment { home: None, state_home: None, config_home: None, runtime_dir: None };
    assert_eq!(socket_path(&env), b"/tmp/cavawall.sock".to_vec());
    env.runtime_dir = Some(b"/run/user/1000".to_vec());
    assert_eq!(socket_path(&env), b"/run/user/1000/cavawall.sock".to_vec());
}

#[test]
fn a_status_tells_what_the_instance_knows() {
    let s = serve(Some(Request::Status));
    assert!(s.response.ok && s.response.error.is_none());
    assert_eq!((s.pin, s.reload_config, s.reload_colors, s.after), (None, false, false, After::Carry));
    let doc: serde_json::Value =
        serde_json::from_str(s.response.data.as_deref().unwrap()).unwrap();
    assert_eq!(doc["pid"].as_u64(), Some(4242));
    assert!(doc["pinned_output"].is_null());
    assert_eq!(doc["placed_on"].as_str(), Some("DP-1"));
    assert_eq!(doc["bars"].as_u64(), Some(76));
    assert_eq!(doc["curve_key"].as_str(), Some("a \"quoted\" key"));
    assert_eq!(doc.as_object().unwrap().len(), 5);
}

#[test]
fn orders_are_answered_before_they_are_carried_out() {
    let s = serve(Some(Request::Move { output: Some("HDMI-A-1".to_string()) }));
    assert_eq!(s.pin, Some(Some("HDMI-A-1".to_string())));
    assert_eq!(s.after, After::Restart);
    assert!(s.response.ok && s.response.data.is_none() && !s.reload_config && !s.reload_colors);
    let s = serve(Some(Request::Move { output: None }));
    assert_eq!((s.pin, s.after), (Some(None), After::Restart));
    let s = serve(Some(Request::Stop));
    assert_eq!((s.pin, s.reload_config, s.reload_colors, s.after), (None, false, false, After::Stop));
    assert!(s.response.ok);
    let s = serve(Some(Request::Reload));
    assert_eq!((s.pin, s.reload_config, s.reload_colors, s.after), (None, true, true, After::Carry));
    assert!(s.response.ok && s.response.data.is_none());
}

#[test]
fn what_is_not_understood_is_refused() {
    let s = serve(None);
    assert!(!s.response.ok && s.response.data.is_none());
    assert_eq!(s.response.error.as_deref(), Some("unparseable request"));
    assert_eq!((s.pin, s.reload_config, s.reload_colors, s.after), (None, false, false, After::Carry));
}

fn lines(p: Printed) -> Vec<String> {
    match p {
        Printed::Lines(lines) => lines,
        other => panic!("no lines: {other:?}"),
    }
}

#[test]
fn a_client_prints_a_table() {
    let s = serve(Some(Request::Status));
    let (printed, code) = report(false, &s.response);
    assert_eq!(code, 0);
    assert_eq!(
        lines(printed),
        vec![
            "bars            76",
            "curve_key       a \"quoted\" key",
            "pid             4242",
            "pinned_output   null",
            "placed_on       DP-1",
        ]
    );
}

#[test]
fn a_client_prints_what_there_is() {
    let (printed, code) = report(false, &Response::ok(None));
    assert_eq!((lines(printed).len(), code), (0, 0));
    let (printed, code) = report(false, &Response::ok(Some("[1,2]".to_string())));
    assert_eq!((lines(printed).len(), code), (0, 0));
    let data = r#"{"list":[1,{"a":null}],"t":true}"#.to_string();
    let (printed, _) = report(false, &Response::ok(Some(data)));
    assert_eq!(lines(printed), vec!["list            [1,{\"a\":null}]", "t               true"]);
    let (printed, code) = report(false, &Response::err("no".to_string()));
    assert!(matches!(printed, Printed::Error(e) if e == "cavawallctl: no"));
    assert_eq!(code, 1);
    let (printed, code) = report(true, &Response::err("no".to_string()));
    assert!(matches!(printed, Printed::Whole));
    assert_eq!(code, 1);
}

#[test]
fn names_are_padded_to_the_table() {
    assert_eq!(table_line("a", "b"), "a               b");
    assert_eq!(table_line("", ""), "                ");
    assert_eq!(table_line("exactly fifteen", "x"), "exactly fifteen x");
    assert_eq!(table_line("more than fifteen of them", "x"), "more than fifteen of them x");
    assert_eq!(table_line("\u{e9}", "x"), "\u{e9}               x");
}

#[test]
fn nothing_listening_is_said_either_way() {
    assert_eq!(not_running(true, "why"), r#"{"ok":false,"error":"not running"}"#);
    assert_eq!(not_running(false, "why"), "cavawallctl: not running (why)");
}
