//! The daemon's rules: arguments, pages, who may connect, and the flow of
//! bytes.

use quill::cli::{
    default_socket_path, find_fd_arg, parse_detach_arg, parse_fed_source, parse_headless_screenshot_arg,
    parse_rendezvous_arg, parse_socket_arg, parse_ws_bind_arg, ArgErr, DaemonConfig, SourceConfig,
    DEFAULT_WS_PORT,
};
use quill::hash::FNV_OFFSET;
use quill::kernel::auth::{
    authorize, build_allowed_hosts, constant_time_eq, generate_ws_token, host_is_allowed, host_only,
    load_or_generate_token, origin_host, query_param, token_of, token_text, Refusal, Request,
    TokenErr,
};
use quill::kernel::flow::{
    classify_pty_read, input_step, BackChannel, ChannelNext, InputStep, IoResult, PtyRead, WriteNext,
    WritePending,
};
use quill::kernel::http::{
    duration_from_env, header_complete, http_response, http_response_parts, read_head, request_is_ws_upgrade,
    request_path, sw_js_served, Assets, HeadNext, HTTP_PEEK_MAX,
};
use quill::kernel::proto::{CellWire, ColorWire};
use quill::kernel::ring::{ByteRing, OutFrame, Outbox};
use quill::term::{CellPos, CellRef, Color};

fn args(list: &[&str]) -> Vec<String> {
    list.iter().map(|s| s.to_string()).collect()
}

fn assets() -> Assets {
    Assets {
        index_html: b"<script>new WebSocket(u); term.write(b)</script>".to_vec(),
        xterm_js: b"xterm".to_vec(),
        xterm_css: b"css".to_vec(),
        xterm_fit_js: b"fit".to_vec(),
        sw_js: "const C = \"quill-shell-\" + V; self.addEventListener(\"fetch\", f);".to_string(),
    }
}

#[test]
fn classify_pty_read_policy() {
    assert_eq!(classify_pty_read(IoResult::Done(5)), PtyRead::Feed);
    assert_eq!(classify_pty_read(IoResult::Done(0)), PtyRead::Closed);
    assert_eq!(classify_pty_read(IoResult::WouldBlock), PtyRead::Drained);
    assert_eq!(classify_pty_read(IoResult::Interrupted), PtyRead::Retry);
    assert_eq!(classify_pty_read(IoResult::HungUp), PtyRead::Closed);
    assert_eq!(classify_pty_read(IoResult::Failed), PtyRead::Fatal);
}

#[test]
fn parse_socket_arg_extracts_path() {
    let a = args(&["quill-kernel", "--socket=/run/user/x.sock"]);
    assert_eq!(parse_socket_arg(&a), Some("/run/user/x.sock".to_string()));
    assert_eq!(parse_socket_arg(&args(&["quill-kernel"])), None);
}

#[test]
fn parse_ws_bind_arg_extracts_text() {
    let a = args(&["quill-kernel", "--ws-bind=10.0.0.2:7878"]);
    assert_eq!(parse_ws_bind_arg(&a), Some("10.0.0.2:7878".to_string()));
    let v6 = args(&["quill-kernel", "--ws-bind=[::1]:9000"]);
    assert_eq!(parse_ws_bind_arg(&v6), Some("[::1]:9000".to_string()));
    assert_eq!(parse_ws_bind_arg(&args(&["quill-kernel"])), None);
}

#[test]
fn default_ws_bind_is_lan_reachable() {
    let cfg = DaemonConfig::with_socket("/tmp/x.sock".to_string());
    assert_eq!(cfg.ws_bind, format!("0.0.0.0:{DEFAULT_WS_PORT}"));
    assert_eq!(cfg.socket_path, "/tmp/x.sock");
    assert_eq!((cfg.cols, cfg.rows), (80, 24));
    assert_eq!(cfg.source, SourceConfig::Local);
}

#[test]
fn byte_ring_trims_oldest_keeps_recent() {
    let mut ring = ByteRing::new(4);
    ring.push(b"ab");
    assert_eq!(ring.snapshot(), b"ab");
    ring.push(b"cdef");
    assert_eq!(ring.snapshot(), b"cdef");
    ring.push(b"0123456789");
    assert_eq!(ring.snapshot(), b"6789");
}

#[test]
fn http_dispatch_helpers() {
    let ws_req = b"GET / HTTP/1.1\r\nHost: x\r\nUpgrade: websocket\r\nConnection: Upgrade\r\n\r\n";
    assert!(request_is_ws_upgrade(ws_req));
    assert!(header_complete(ws_req));
    let plain = b"GET /vendor/xterm.js?v=1 HTTP/1.1\r\nHost: x\r\n\r\n";
    assert!(!request_is_ws_upgrade(plain));
    assert_eq!(request_path(plain).as_deref(), Some("/vendor/xterm.js"));
    let partial = b"GET / HTTP/1.1\r\nHost: x\r\n";
    assert!(!header_complete(partial));
}

#[test]
fn http_response_parts_routes() {
    let a = assets();
    let page = http_response_parts("/", &a);
    assert!(page.status.starts_with("200"));
    assert!(page.content_type.contains("text/html"));
    let text = String::from_utf8_lossy(&page.body);
    assert!(text.contains("WebSocket") && text.contains("term.write"));
    let script = http_response_parts("/vendor/xterm.js", &a);
    assert!(script.status.starts_with("200"));
    let missing = http_response_parts("/nope", &a);
    assert!(missing.status.starts_with("404"));
    assert_eq!(missing.body, b"not found\n");
}

#[test]
fn the_service_worker_is_served_by_the_whole_answer_only() {
    let a = assets();
    let parts = http_response_parts("/sw.js", &a);
    assert_eq!((parts.status.as_str(), parts.body.as_slice()), ("404 Not Found", b"not found\n".as_slice()));
    let whole = String::from_utf8(http_response(b"GET /sw.js HTTP/1.1\r\n\r\n", &a)).unwrap();
    assert!(whole.starts_with("HTTP/1.1 200 OK\r\nContent-Type: text/javascript; charset=utf-8\r\n"));
    assert!(whole.ends_with(&sw_js_served(a.version(), &a.sw_js)));
}

#[test]
fn sw_js_served_injects_version_and_shell() {
    let a = assets();
    let version = a.version();
    let js = sw_js_served(version, &a.sw_js);
    let expect = format!("self.__QUILL_VERSION__=\"{version:016x}\";");
    assert!(js.starts_with("\"use strict\";"));
    assert!(js.contains(&expect));
    assert!(js.contains("quill-shell-"));
    assert!(js.contains("addEventListener(\"fetch\""));
    assert_ne!(version, 0);
    assert_ne!(version, 0xcbf2_9ce4_8422_2325);
    assert_eq!(FNV_OFFSET, 0xcbf2_9ce4_8422_2325);
}

#[test]
fn a_changed_file_changes_the_version() {
    let mut a = assets();
    let before = a.version();
    a.xterm_css.push(b' ');
    assert_ne!(a.version(), before);
}

#[test]
fn a_page_is_answered_with_its_head() {
    let a = assets();
    let answer = http_response(b"GET /vendor/xterm.css HTTP/1.1\r\n\r\n", &a);
    let text = String::from_utf8(answer).unwrap();
    assert_eq!(
        text,
        "HTTP/1.1 200 OK\r\nContent-Type: text/css; charset=utf-8\r\nContent-Length: 3\r\n\
         Connection: close\r\nCache-Control: no-store\r\n\r\ncss"
    );
    let missing = String::from_utf8(http_response(b"GET /x HTTP/1.1\r\n\r\n", &a)).unwrap();
    assert!(missing.starts_with("HTTP/1.1 404 Not Found\r\nContent-Type: text/plain; charset=utf-8\r\nContent-Length: 10\r\n"));
    assert!(missing.ends_with("\r\n\r\nnot found\n"));
    let worker = String::from_utf8(http_response(b"GET /sw.js HTTP/1.1\r\n\r\n", &a)).unwrap();
    assert!(worker.ends_with(&sw_js_served(a.version(), &a.sw_js)));
    assert!(worker.contains("Content-Type: text/javascript; charset=utf-8\r\n"));
    let fit = String::from_utf8(http_response(b"GET /vendor/xterm-addon-fit.js HTTP/1.1\r\n\r\n", &a)).unwrap();
    assert!(fit.ends_with("\r\n\r\nfit"));
}

#[test]
fn the_head_is_read_to_its_end() {
    assert_eq!(read_head(b""), HeadNext::Read(4096));
    assert_eq!(read_head(&[b'x'; 8000]), HeadNext::Read(192));
    assert_eq!(read_head(&[b'x'; HTTP_PEEK_MAX]), HeadNext::Page);
    assert_eq!(read_head(b"GET / HTTP/1.1\r\n\r\n"), HeadNext::Page);
    assert_eq!(
        read_head(b"GET / HTTP/1.1\r\nUPGRADE: WebSocket\r\n\r\n"),
        HeadNext::Upgrade
    );
}

#[test]
fn a_head_that_is_no_text_is_read_with_replacements() {
    assert_eq!(
        request_path(b"GET /a\xffb HTTP/1.1\r\n\r\n").as_deref(),
        Some("/a\u{fffd}b")
    );
    assert_eq!(request_path(b"GET"), None);
    assert_eq!(request_path(b""), None);
    assert_eq!(request_path(b"GET /a#b?c").as_deref(), Some("/a"));
}

#[test]
fn query_param_extracts_token() {
    assert_eq!(query_param("t=abc", "t").as_deref(), Some("abc"));
    assert_eq!(query_param("a=1&t=xyz&b=2", "t").as_deref(), Some("xyz"));
    assert_eq!(query_param("a=1&b=2", "t"), None);
    assert_eq!(query_param("", "t"), None);
    assert_eq!(query_param("t=", "t").as_deref(), Some(""));
}

#[test]
fn constant_time_eq_matches() {
    assert!(constant_time_eq(b"deadbeef", b"deadbeef"));
    assert!(!constant_time_eq(b"deadbeef", b"deadbeee"));
    assert!(!constant_time_eq(b"short", b"longer-value"));
    assert!(!constant_time_eq(b"", b"x"));
    assert!(constant_time_eq(b"", b""));
}

#[test]
fn host_extraction() {
    assert_eq!(host_only("10.0.0.2:7878"), "10.0.0.2");
    assert_eq!(host_only("localhost"), "localhost");
    assert_eq!(host_only("[::1]:7878"), "::1");
    assert_eq!(host_only("[::1]"), "::1");
    assert_eq!(origin_host("http://10.0.0.2:7878").as_deref(), Some("10.0.0.2"));
    assert_eq!(origin_host("http://evil.com").as_deref(), Some("evil.com"));
    assert_eq!(origin_host("https://[::1]:7878").as_deref(), Some("::1"));
    assert_eq!(origin_host("not-a-url"), None);
}

#[test]
fn host_allow_predicate() {
    let allowed = vec!["vpn.example.com".to_string()];
    assert!(host_is_allowed("127.0.0.1", true, &allowed));
    assert!(host_is_allowed("10.0.0.2", true, &allowed));
    assert!(host_is_allowed("::1", true, &allowed));
    assert!(host_is_allowed("localhost", false, &allowed));
    assert!(host_is_allowed("LOCALHOST", false, &allowed));
    assert!(host_is_allowed("vpn.example.com", false, &allowed));
    assert!(!host_is_allowed("evil.com", false, &allowed));
    assert!(!host_is_allowed("", false, &allowed));
}

#[test]
fn generate_token_is_random_hex() {
    let a = generate_ws_token().unwrap();
    let b = generate_ws_token().unwrap();
    assert_eq!(a.len(), 64);
    assert!(a.bytes().all(|c| c.is_ascii_hexdigit()));
    assert_ne!(a, b);
}

#[test]
fn a_token_is_its_bytes_in_hex() {
    assert_eq!(token_text(&[0, 0x0f, 0xa5, 0xff]), "000fa5ff");
    assert_eq!(load_or_generate_token(Some("kept".to_string())).unwrap(), "kept");
    assert_eq!(load_or_generate_token(Some(String::new())).unwrap().len(), 64);
    assert_eq!(load_or_generate_token(None).unwrap().len(), 64);
}

fn request(query: Option<&str>, origin: Option<(&str, bool)>, host: Option<(&str, bool)>) -> Request {
    Request {
        query: query.map(str::to_string),
        origin: origin.map(|o| o.0.to_string()),
        origin_is_literal: origin.map(|o| o.1).unwrap_or(false),
        host: host.map(|h| h.0.to_string()),
        host_is_literal: host.map(|h| h.1).unwrap_or(false),
    }
}

#[test]
fn auth_callback_accepts_valid() {
    let r = request(
        Some("t=secret"),
        Some(("http://10.0.0.2:7878", true)),
        Some(("10.0.0.2:7878", true)),
    );
    assert!(authorize(&r, "secret", &vec![]).is_ok());
}

#[test]
fn auth_callback_accepts_no_origin() {
    let r = request(Some("t=secret"), None, Some(("localhost:7878", false)));
    assert!(authorize(&r, "secret", &vec![]).is_ok());
}

#[test]
fn auth_callback_rejects_missing_token() {
    let r = request(None, None, Some(("10.0.0.2:7878", true)));
    let refusal = authorize(&r, "secret", &vec![]).unwrap_err();
    assert_eq!(refusal.reason(), "missing or invalid token");
}

#[test]
fn auth_callback_rejects_wrong_token() {
    let r = request(Some("t=wrong"), None, Some(("10.0.0.2:7878", true)));
    assert!(authorize(&r, "secret", &vec![]).is_err());
}

#[test]
fn auth_callback_rejects_cross_origin() {
    let r = request(
        Some("t=secret"),
        Some(("http://evil.com", false)),
        Some(("10.0.0.2:7878", true)),
    );
    let refusal: Refusal = authorize(&r, "secret", &vec![]).unwrap_err();
    assert_eq!(refusal.reason(), "cross-origin websocket rejected");
}

#[test]
fn auth_callback_rejects_rebinding_host() {
    let r = request(Some("t=secret"), None, Some(("evil.com", false)));
    let refusal = authorize(&r, "secret", &vec![]).unwrap_err();
    assert_eq!(refusal.reason(), "host not allowed");
}

#[test]
fn hosts_are_listed_in_lower_case() {
    assert_eq!(build_allowed_hosts("0.0.0.0", None), vec!["0.0.0.0"]);
    let all = build_allowed_hosts("0.0.0.0", Some(" VPN.example.com, ,b.org"));
    assert!(all.contains(&"vpn.example.com".to_string()));
    assert!(all.contains(&"b.org".to_string()));
    assert!(!all.contains(&String::new()));
    let r = request(
        Some("t=secret"),
        Some(("https://VPN.Example.com", false)),
        Some(("vpn.example.com", false)),
    );
    assert!(authorize(&r, "secret", &all).is_ok());
}

#[test]
fn parse_no_arg_returns_none() {
    assert_eq!(parse_headless_screenshot_arg(&args(&["quill"])), Ok(None));
}

#[test]
fn parse_screenshot_path_found() {
    assert_eq!(
        parse_headless_screenshot_arg(&args(&["quill", "--headless-screenshot=/tmp/foo.png"])),
        Ok(Some("/tmp/foo.png".to_string()))
    );
}

#[test]
fn parse_screenshot_empty_path_errs() {
    assert_eq!(
        parse_headless_screenshot_arg(&args(&["quill", "--headless-screenshot="])),
        Err(ArgErr::EmptyPath)
    );
}

#[test]
fn parse_screenshot_space_separator_errs() {
    assert_eq!(
        parse_headless_screenshot_arg(&args(&["quill", "--headless-screenshot", "/tmp/foo.png"])),
        Err(ArgErr::MissingEquals)
    );
}

#[test]
fn parse_unrelated_flags_ignored() {
    assert_eq!(
        parse_headless_screenshot_arg(&args(&["quill", "--unrelated", "--other=value"])),
        Ok(None)
    );
}

#[test]
fn descriptors_come_in_pairs() {
    let both = args(&["k", "--fed-in=3", "--fed-out=4"]);
    assert_eq!(
        parse_fed_source(&both),
        Ok(Some(SourceConfig::Fed { read_fd: 3, write_fd: 4 }))
    );
    assert_eq!(parse_fed_source(&args(&["k"])), Ok(None));
    assert_eq!(parse_fed_source(&args(&["k", "--fed-in=3"])), Err(ArgErr::HalfPair));
    assert_eq!(
        parse_fed_source(&args(&["k", "--fed-in=x", "--fed-out=4"])),
        Err(ArgErr::NotADescriptor)
    );
    assert_eq!(
        find_fd_arg(&args(&["k", "--fed-in=-1"]), "--fed-in="),
        Err(ArgErr::NegativeDescriptor)
    );
    assert_eq!(find_fd_arg(&args(&["k", "--fed-in=+7"]), "--fed-in="), Ok(Some(7)));
    assert_eq!(
        find_fd_arg(&args(&["k", "--fed-in=99999999999"]), "--fed-in="),
        Err(ArgErr::NotADescriptor)
    );
}

#[test]
fn other_arguments_of_the_daemon() {
    let a = args(&["--detach", "--rendezvous=/r.sock", "--rendezvous=/later"]);
    assert!(!parse_detach_arg(&a));
    assert!(parse_detach_arg(&args(&["k", "--detach"])));
    assert_eq!(parse_rendezvous_arg(&a), Some("/r.sock".to_string()));
    assert_eq!(
        default_socket_path(Some("/run/user/1000")),
        Ok("/run/user/1000/quill-kernel.sock".to_string())
    );
    assert_eq!(default_socket_path(None), Err(ArgErr::NoRuntimeDir));
    assert_eq!(duration_from_env(Some("250"), 5_000), 250);
    assert_eq!(duration_from_env(Some("x"), 5_000), 5_000);
    assert_eq!(duration_from_env(None, 5_000), 5_000);
}

#[test]
fn cellwire_mirrors_cellref_fields() {
    let cr = CellRef {
        pos: CellPos { col: 5, line: 9 },
        c: 'Z',
        fg: Color { r: 1, g: 2, b: 3 },
        bg: Color { r: 4, g: 5, b: 6 },
    };
    let w: CellWire = cr.into();
    assert_eq!(w.col, 5);
    assert_eq!(w.line, 9);
    assert_eq!(w.c, 'Z');
    assert_eq!(w.fg, ColorWire { r: 1, g: 2, b: 3 });
    assert_eq!(w.bg, ColorWire { r: 4, g: 5, b: 6 });
    assert_eq!(Color::from(w.fg), cr.fg);
    assert_eq!(Color::from(w.bg), cr.bg);
}

#[test]
fn pending_bytes_are_written_in_order() {
    let mut p = WritePending::new(b"hello".to_vec());
    assert_eq!(p.rest(), b"hello");
    assert_eq!(p.wrote(IoResult::Done(2)), WriteNext::Again);
    assert_eq!(p.rest(), b"llo");
    assert_eq!(p.wrote(IoResult::WouldBlock), WriteNext::Wait);
    assert_eq!(p.wrote(IoResult::Interrupted), WriteNext::Again);
    assert_eq!(p.wrote(IoResult::Done(3)), WriteNext::Idle);
    let mut q = WritePending::new(b"x".to_vec());
    assert_eq!(q.wrote(IoResult::Failed), WriteNext::Gone);
}

#[test]
fn a_channel_keeps_frames_whole_and_gives_up_when_full() {
    let mut c = BackChannel::new(8);
    assert_eq!(c.queue_frame(b"abcd"), ChannelNext::Write);
    assert_eq!(c.front(), b"abcd");
    assert_eq!(c.wrote(IoResult::Done(3)), ChannelNext::Write);
    assert_eq!(c.wrote(IoResult::WouldBlock), ChannelNext::Wait);
    c.queue_frame(b"ef");
    assert_eq!(c.front(), b"def");
    assert_eq!(c.wrote(IoResult::Done(3)), ChannelNext::Idle);
    c.queue_frame(b"12345678");
    c.wrote(IoResult::WouldBlock);
    assert_eq!(c.queue_frame(b"9"), ChannelNext::Down);
}

#[test]
fn input_is_written_until_the_terminal_takes_no_more() {
    assert_eq!(input_step(5, 0, IoResult::Done(2)), InputStep::Again { written: 2 });
    assert_eq!(input_step(5, 2, IoResult::Done(3)), InputStep::Finished);
    assert_eq!(input_step(5, 2, IoResult::WouldBlock), InputStep::Dropped { written: 2 });
    assert_eq!(input_step(5, 2, IoResult::Interrupted), InputStep::Again { written: 2 });
    assert_eq!(input_step(5, 2, IoResult::Failed), InputStep::Failed);
}

#[test]
fn an_outbox_counts_its_bytes() {
    let mut o = Outbox::new();
    assert!(o.is_empty());
    o.push(OutFrame::Bytes(vec![0; 10]));
    o.push(OutFrame::Text("你好".to_string()));
    assert!(o.exceeds(15));
    assert!(!o.exceeds(16));
    assert!(matches!(o.pop(), Some(OutFrame::Bytes(b)) if b.len() == 10));
    assert!(matches!(o.pop(), Some(OutFrame::Text(t)) if t == "你好"));
    assert!(o.pop().is_none());
}

#[test]
fn a_failed_random_source_gives_no_token() {
    assert_eq!(token_of(Ok(()), &[0xab; 32]), Ok("ab".repeat(32)));
    assert_eq!(token_of(Err(getrandom::Error::UNSUPPORTED), &[0xab; 32]), Err(TokenErr));
}
