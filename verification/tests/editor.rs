use cavawall::editor::{
    after_header, answer, body_length, config_path, existing_block, is_blank, reply_head, route,
    write_block, Outcome, Reply, Route,
};
use cavawall::scheme::Environment;

const CONFIG: &str = "# mine\n[general]\nframerate = 45\n\n[curves.abc]\nbars = 3\n# keep\n[colors]\nc1 = 1\n";

#[test]
fn a_block_runs_to_the_next_section() {
    assert_eq!(existing_block(CONFIG, "abc").as_deref(), Some("\nbars = 3\n# keep\n"));
    assert_eq!(existing_block(CONFIG, "abd"), None);
    assert_eq!(existing_block("[curves.k]\nx = 1", "k").as_deref(), Some("\nx = 1"));
    assert_eq!(existing_block("[curves.k]", "k").as_deref(), Some(""));
    assert_eq!(after_header(CONFIG, "abc").as_deref(), Some("\nbars = 3\n# keep\n[colors]\nc1 = 1\n"));
    assert_eq!(after_header(CONFIG, "x"), None);
}

#[test]
fn the_rest_of_the_file_is_left_alone() {
    let new = write_block(CONFIG, "abc", "bars = 9\n\n");
    assert_eq!(
        new,
        "# mine\n[general]\nframerate = 45\n\n[curves.abc]\nbars = 9\n[colors]\nc1 = 1\n"
    );
    // Without a block there, one is put at the end
    assert_eq!(write_block("a = 1", "k", "b = 2"), "a = 1\n\n[curves.k]\nb = 2\n");
    assert_eq!(write_block("a = 1\n", "k", "b = 2"), "a = 1\n\n[curves.k]\nb = 2\n");
    assert_eq!(write_block("a = 1\n\n", "k", "b = 2"), "a = 1\n\n[curves.k]\nb = 2\n");
    assert_eq!(write_block("", "k", " "), "\n\n[curves.k]\n\n");
    // What is there stays, white space at its end and all
    for text in ["\n\n\n", "a = 1 \t", "a = 1\n\n\n\n", "# x\r\n", "\n"] {
        let new = write_block(text, "k", "b = 2");
        assert!(new.starts_with(text) && new.ends_with("\n[curves.k]\nb = 2\n"), "{new:?}");
    }
}

#[test]
fn what_is_written_reads_back() {
    for text in [CONFIG, "", "x = 1", "[curves.abc]", "[curves.abc]\n[curves.abcd]\ny = 2\n"] {
        let once = write_block(text, "abc", "bars = 9\npoints = [[0.1, 0.2]] \n");
        assert_eq!(
            existing_block(&once, "abc").as_deref(),
            Some("\nbars = 9\npoints = [[0.1, 0.2]]\n")
        );
        assert_eq!(write_block(&once, "abc", "bars = 9\npoints = [[0.1, 0.2]] \n"), once);
    }
}

#[test]
fn the_config_is_found_below_the_environment() {
    let bytes = |s: &str| Some(s.as_bytes().to_vec());
    let mut env =
        Environment { home: bytes("/h"), state_home: None, config_home: bytes("/c"), runtime_dir: None };
    assert_eq!(config_path(&env), b"/c/cavawall/config.toml".to_vec());
    env.config_home = None;
    assert_eq!(config_path(&env), b"/h/.config/cavawall/config.toml".to_vec());
    env.home = None;
    assert_eq!(config_path(&env), b"cavawall/config.toml".to_vec());
}

#[test]
fn requests_are_routed() {
    assert_eq!(route("GET / HTTP/1.1\r\n"), Route::Page);
    assert_eq!(route("GET /wallpaper HTTP/1.1\r\n"), Route::Wallpaper);
    assert_eq!(route("GET  /existing"), Route::Existing);
    assert_eq!(route("POST /save HTTP/1.1"), Route::Save);
    for other in ["", "GET", "GET /save", "POST /", "get /", "GET /wallpaper/", "PUT /save"] {
        assert_eq!(route(other), Route::Unknown, "{other}");
    }
}

fn strings(lines: &[&str]) -> Vec<String> {
    lines.iter().map(|s| s.to_string()).collect()
}

#[test]
fn the_last_length_given_counts() {
    assert_eq!(body_length(&strings(&[])), 0);
    assert_eq!(body_length(&strings(&["Host: x\r\n", "Content-Length: 42\r\n"])), 42);
    assert_eq!(body_length(&strings(&["CONTENT-LENGTH:7", "content-length: +8"])), 8);
    assert_eq!(body_length(&strings(&["Content-Length: 7", "Content-Length: x"])), 0);
    assert_eq!(body_length(&strings(&["Content-Length: 99999999999999999999999"])), 0);
    assert_eq!(body_length(&strings(&[" Content-Length: 7"])), 0);
    assert!(is_blank("\r\n") && is_blank("") && !is_blank(" x "));
}

fn told(r: &Reply) -> (&str, &str, &[u8]) {
    (r.status, r.mime, &r.body)
}

#[test]
fn every_outcome_has_its_answer() {
    let say = |o: Outcome| answer(o, "abc");
    let page = say(Outcome::Page("<p>__KEY__</p>__KEY__".to_string()));
    assert_eq!(told(&page), ("200 OK", "text/html; charset=utf-8", &b"<p>abc</p>abc"[..]));
    for (ext, mime) in [
        (Some("png"), "image/png"),
        (Some("webp"), "image/webp"),
        (Some("gif"), "image/gif"),
        (Some("jpg"), "image/jpeg"),
        (None, "image/jpeg"),
    ] {
        let r = say(Outcome::Wallpaper(Some(vec![1, 2]), ext.map(|e| e.to_string())));
        assert_eq!(told(&r), ("200 OK", mime, &[1u8, 2][..]));
    }
    let r = say(Outcome::Wallpaper(None, Some("png".to_string())));
    assert_eq!(told(&r), ("404 Not Found", "text/plain", &b"no wallpaper"[..]));
    let r = say(Outcome::Existing(Some(CONFIG.to_string())));
    assert_eq!(told(&r), ("200 OK", "text/plain; charset=utf-8", &b"\nbars = 3\n# keep\n"[..]));
    assert_eq!(say(Outcome::Existing(None)).body, b"".to_vec());
    assert_eq!(say(Outcome::Existing(Some("x".to_string()))).body, b"".to_vec());
    let r = say(Outcome::Block(Some("\nbars = 3\n[x]\n".to_string())));
    assert_eq!(told(&r), ("200 OK", "text/plain; charset=utf-8", &b"\nbars = 3\n[x]\n"[..]));
    assert_eq!(say(Outcome::Block(None)).body, b"".to_vec());
    assert_eq!(told(&say(Outcome::Short)), ("400 Bad Request", "text/plain", &b"short body"[..]));
    assert_eq!(told(&say(Outcome::Saved(None))), ("200 OK", "text/plain", &b"saved"[..]));
    let r = say(Outcome::Saved(Some("disk full".to_string())));
    assert_eq!(told(&r), ("500 Server Error", "text/plain", &b"disk full"[..]));
    assert_eq!(told(&say(Outcome::Unknown)), ("404 Not Found", "text/plain", &b"no"[..]));
}

#[test]
fn an_answer_states_its_length() {
    let r = Reply { status: "200 OK", mime: "text/plain", body: vec![0; 120] };
    assert_eq!(
        reply_head(&r),
        "HTTP/1.1 200 OK\r\nContent-Type: text/plain\r\nContent-Length: 120\r\nConnection: close\r\n\r\n"
    );
    let r = Reply { status: "200 OK", mime: "text/plain", body: Vec::new() };
    assert!(reply_head(&r).contains("Content-Length: 0\r\n"));
}
