//! The daemon's port: telling web pages from sockets, who may open a socket,
//! and what a page request is answered.

use crate::hash::{fnv, fnv1a64, hex_padded, push_hex, FNV_OFFSET};
use crate::number::{decimal, parse_u64, push_decimal, uint64};
use crate::text::{
    at_any, before_cut, begins, chars_of, contains, lines, lossy, lossy_text, lowered, occurs,
    one_of, same_str, slice_views, split_lines, split_words, starts_with, string_of, to_lower, trim,
    trimmed, up_to, words,
};
use vstd::prelude::*;
use vstd::string::StringExecFns;
use vstd::utf8::encode_utf8;

verus! {

/// The longest request head that is waited for.
pub const HTTP_PEEK_MAX: usize = 8192;

/// Whether the end of a request head, an empty line, stands at `i`.
pub open spec fn head_ends_at(buf: Seq<u8>, i: int) -> bool {
    0 <= i && i + 4 <= buf.len() && buf[i] == 0x0d && buf[i + 1] == 0x0a && buf[i + 2] == 0x0d
        && buf[i + 3] == 0x0a
}

/// Whether the end of a request head, an empty line, has come.
pub fn header_complete(buf: &[u8]) -> (b: bool)
    ensures
        b <==> exists|i: int| head_ends_at(buf@, i),
{
    let n: usize = buf.len();
    if n < 4 {
        return false;
    }
    let mut i: usize = 0;
    while i <= n - 4
        invariant
            n == buf@.len(),
            n >= 4,
            i <= n - 3,
            forall|j: int| 0 <= j < i ==> !head_ends_at(buf@, j),
        decreases n - i,
    {
        if buf[i] == 0x0d && buf[i + 1] == 0x0a && buf[i + 2] == 0x0d && buf[i + 3] == 0x0a {
            assert(head_ends_at(buf@, i as int));
            return true;
        }
        i = i + 1;
    }
    false
}

/// Whether a line of a request head, in lower case, asks for a socket.
pub open spec fn asks_upgrade(line: Seq<char>) -> bool {
    begins(trimmed(line), "upgrade:"@) && occurs(trimmed(line), "websocket"@)
}

/// Whether a request head asks for a socket, in whatever case.
pub open spec fn is_upgrade(head: Seq<char>) -> bool {
    exists|i: int|
        0 <= i < lines(lowered(head)).len() && asks_upgrade(#[trigger] lines(lowered(head))[i])
}

/// Whether a request head asks for a socket.
pub fn text_is_ws_upgrade(head: &str) -> (b: bool)
    ensures
        b == is_upgrade(head@),
{
    let lower: Vec<char> = to_lower(chars_of(head).as_slice());
    let ls: Vec<&[char]> = split_lines(lower.as_slice());
    let upgrade: Vec<char> = chars_of("upgrade:");
    let websocket: Vec<char> = chars_of("websocket");
    let mut i: usize = 0;
    while i < ls.len()
        invariant
            i <= ls@.len(),
            slice_views(ls@) == lines(lowered(head@)),
            upgrade@ == "upgrade:"@,
            websocket@ == "websocket"@,
            forall|j: int| 0 <= j < i ==> !asks_upgrade(#[trigger] lines(lowered(head@))[j]),
        decreases ls@.len() - i,
    {
        assert(slice_views(ls@)[i as int] == ls@[i as int]@);
        let line: &[char] = trim(ls[i]);
        if starts_with(line, upgrade.as_slice()) && contains(line, websocket.as_slice()) {
            assert(asks_upgrade(lines(lowered(head@))[i as int]));
            return true;
        }
        i = i + 1;
    }
    assert(slice_views(ls@).len() == ls@.len());
    false
}

/// Whether the bytes of a request head ask for a socket.
pub fn request_is_ws_upgrade(head: &[u8]) -> (b: bool)
    ensures
        b == is_upgrade(lossy_text(head@)),
{
    text_is_ws_upgrade(lossy(head).as_str())
}

/// The path that a request head asks for, without what follows `?` or `#`:
/// none without a second word in the first line.
pub open spec fn asked_path(head: Seq<char>) -> Option<Seq<char>> {
    if lines(head).len() == 0 {
        None
    } else {
        let ws = words(lines(head)[0]);
        if ws.len() < 2 {
            None
        } else {
            Some(up_to(ws[1], one_of(seq!['?', '#'])))
        }
    }
}

/// The path that a request head asks for.
pub fn text_request_path(head: &str) -> (r: Option<String>)
    ensures
        match r {
            Some(path) => asked_path(head@) == Some(path@),
            None => asked_path(head@) is None,
        },
{
    let chars: Vec<char> = chars_of(head);
    let ls: Vec<&[char]> = split_lines(chars.as_slice());
    assert(slice_views(ls@).len() == ls@.len());
    if ls.len() == 0 {
        return None;
    }
    assert(slice_views(ls@)[0] == ls@[0]@);
    let ws: Vec<&[char]> = split_words(ls[0]);
    assert(slice_views(ws@).len() == ws@.len());
    if ws.len() < 2 {
        return None;
    }
    assert(slice_views(ws@)[1] == ws@[1]@);
    let cuts: [char; 2] = ['?', '#'];
    assert(cuts@ =~= seq!['?', '#']);
    Some(string_of(before_cut(ws[1], &at_any(cuts.as_slice()))))
}

/// The path that the bytes of a request head ask for.
pub fn request_path(head: &[u8]) -> (r: Option<String>)
    ensures
        match r {
            Some(path) => asked_path(lossy_text(head@)) == Some(path@),
            None => asked_path(lossy_text(head@)) is None,
        },
{
    text_request_path(lossy(head).as_str())
}

/// The files of the web page.
pub struct Assets {
    pub index_html: Vec<u8>,
    pub xterm_js: Vec<u8>,
    pub xterm_css: Vec<u8>,
    pub xterm_fit_js: Vec<u8>,
    pub sw_js: String,
}

impl Assets {
    /// The hash of all files. It changes with each of them.
    pub open spec fn version_of(&self) -> u64 {
        let h = fnv(FNV_OFFSET, self.index_html@);
        let h = fnv(h, self.xterm_js@);
        let h = fnv(h, self.xterm_css@);
        let h = fnv(h, self.xterm_fit_js@);
        fnv(h, encode_utf8(self.sw_js@))
    }

    /// The hash of all files.
    pub fn version(&self) -> (r: u64)
        ensures
            r == self.version_of(),
    {
        let h: u64 = fnv1a64(FNV_OFFSET, self.index_html.as_slice());
        let h: u64 = fnv1a64(h, self.xterm_js.as_slice());
        let h: u64 = fnv1a64(h, self.xterm_css.as_slice());
        let h: u64 = fnv1a64(h, self.xterm_fit_js.as_slice());
        fnv1a64(h, self.sw_js.as_str().as_bytes())
    }
}

/// The service worker as it is served: strict, and told the version of the
/// files.
pub open spec fn served_worker(version: u64, sw_js: Seq<char>) -> Seq<char> {
    "\"use strict\";\nself.__QUILL_VERSION__=\""@ + hex_padded(version as int, 16) + "\";\n"@
        + sw_js
}

/// The service worker as it is served.
pub fn sw_js_served(version: u64, sw_js: &str) -> (r: String)
    ensures
        r@ == served_worker(version, sw_js@),
{
    let mut out: String = "\"use strict\";\nself.__QUILL_VERSION__=\"".to_owned();
    push_hex(&mut out, version, 16);
    out.append("\";\n");
    out.append(sw_js);
    out
}

/// An answer to a page request.
pub struct Answer {
    pub status: String,
    pub content_type: String,
    pub body: Vec<u8>,
}

/// The status, the type and the body that a path is answered, but for that of
/// the service worker.
pub open spec fn answer_parts(path: Seq<char>, assets: &Assets) -> (Seq<char>, Seq<char>, Seq<u8>) {
    let ok = "200 OK"@;
    let js = "text/javascript; charset=utf-8"@;
    if path == "/"@ || path == "/index.html"@ {
        (ok, "text/html; charset=utf-8"@, assets.index_html@)
    } else if path == "/vendor/xterm.js"@ {
        (ok, js, assets.xterm_js@)
    } else if path == "/vendor/xterm-addon-fit.js"@ {
        (ok, js, assets.xterm_fit_js@)
    } else if path == "/vendor/xterm.css"@ {
        (ok, "text/css; charset=utf-8"@, assets.xterm_css@)
    } else {
        ("404 Not Found"@, "text/plain; charset=utf-8"@, encode_utf8("not found\n"@))
    }
}

/// A copy of the bytes.
fn copied(b: &[u8]) -> (r: Vec<u8>)
    ensures
        r@ == b@,
{
    let mut out: Vec<u8> = Vec::new();
    out.extend_from_slice(b);
    assert(out@ =~= b@);
    out
}

/// What a path is answered, but for that of the service worker.
pub fn http_response_parts(path: &str, assets: &Assets) -> (r: Answer)
    ensures
        (r.status@, r.content_type@, r.body@) == answer_parts(path@, assets),
{
    let js: &str = "text/javascript; charset=utf-8";
    if same_str(path, "/") || same_str(path, "/index.html") {
        Answer {
            status: "200 OK".to_owned(),
            content_type: "text/html; charset=utf-8".to_owned(),
            body: copied(assets.index_html.as_slice()),
        }
    } else if same_str(path, "/vendor/xterm.js") {
        Answer {
            status: "200 OK".to_owned(),
            content_type: js.to_owned(),
            body: copied(assets.xterm_js.as_slice()),
        }
    } else if same_str(path, "/vendor/xterm-addon-fit.js") {
        Answer {
            status: "200 OK".to_owned(),
            content_type: js.to_owned(),
            body: copied(assets.xterm_fit_js.as_slice()),
        }
    } else if same_str(path, "/vendor/xterm.css") {
        Answer {
            status: "200 OK".to_owned(),
            content_type: "text/css; charset=utf-8".to_owned(),
            body: copied(assets.xterm_css.as_slice()),
        }
    } else {
        Answer {
            status: "404 Not Found".to_owned(),
            content_type: "text/plain; charset=utf-8".to_owned(),
            body: copied("not found\n".as_bytes()),
        }
    }
}

/// The status, the type and the body that a request for a path is answered: the
/// service worker with its version, or what else the path is answered.
pub open spec fn served_parts(path: Seq<char>, assets: &Assets) -> (Seq<char>, Seq<char>, Seq<u8>) {
    if path == "/sw.js"@ {
        (
            "200 OK"@,
            "text/javascript; charset=utf-8"@,
            encode_utf8(served_worker(assets.version_of(), assets.sw_js@)),
        )
    } else {
        answer_parts(path, assets)
    }
}

/// The head of an answer.
pub open spec fn answer_head(status: Seq<char>, content_type: Seq<char>, len: nat) -> Seq<char> {
    "HTTP/1.1 "@ + status + "\r\nContent-Type: "@ + content_type + "\r\nContent-Length: "@
        + decimal(len) + "\r\nConnection: close\r\nCache-Control: no-store\r\n\r\n"@
}

/// The bytes that answer the request whose head is `head`. Where it asks for
/// no path, that is the answer to an empty one.
pub fn http_response(head: &[u8], assets: &Assets) -> (r: Vec<u8>)
    ensures
        ({
            let path = match asked_path(lossy_text(head@)) {
                Some(path) => path,
                None => seq![],
            };
            let (status, content_type, body) = served_parts(path, assets);
            r@ == encode_utf8(answer_head(status, content_type, body.len())) + body
        }),
{
    let path: String = match request_path(head) {
        Some(path) => path,
        None => String::new(),
    };
    let answer: Answer = if same_str(path.as_str(), "/sw.js") {
        let worker: String = sw_js_served(assets.version(), assets.sw_js.as_str());
        Answer {
            status: "200 OK".to_owned(),
            content_type: "text/javascript; charset=utf-8".to_owned(),
            body: copied(worker.as_str().as_bytes()),
        }
    } else {
        http_response_parts(path.as_str(), assets)
    };
    let mut text: String = "HTTP/1.1 ".to_owned();
    text.append(answer.status.as_str());
    text.append("\r\nContent-Type: ");
    text.append(answer.content_type.as_str());
    text.append("\r\nContent-Length: ");
    push_decimal(&mut text, answer.body.len() as u64);
    text.append("\r\nConnection: close\r\nCache-Control: no-store\r\n\r\n");
    let mut out: Vec<u8> = copied(text.as_str().as_bytes());
    out.extend_from_slice(answer.body.as_slice());
    assert(out@ =~= encode_utf8(text@) + answer.body@);
    out
}

/// What a connection's first bytes are to be met with.
#[derive(Debug, Clone, PartialEq, Eq)]
pub enum HeadNext {
    /// Read at most this many bytes more.
    Read(usize),
    /// The head asks for a socket.
    Upgrade,
    /// The head asks for a page.
    Page,
}

/// Whether the head is complete, or too long to wait for its end.
pub open spec fn head_done(buf: Seq<u8>) -> bool {
    buf.len() >= HTTP_PEEK_MAX || exists|i: int| head_ends_at(buf, i)
}

/// What the bytes of a request head that have come are to be met with. Reads
/// are of at most 4096 bytes, and stop at `HTTP_PEEK_MAX`.
pub fn read_head(buf: &[u8]) -> (r: HeadNext)
    ensures
        r == (if !head_done(buf@) {
            HeadNext::Read(
                if HTTP_PEEK_MAX - buf@.len() < 4096 {
                    (HTTP_PEEK_MAX - buf@.len()) as usize
                } else {
                    4096
                },
            )
        } else if is_upgrade(lossy_text(buf@)) {
            HeadNext::Upgrade
        } else {
            HeadNext::Page
        }),
{
    if buf.len() < HTTP_PEEK_MAX && !header_complete(buf) {
        let left: usize = HTTP_PEEK_MAX - buf.len();
        return HeadNext::Read(
            if left < 4096 {
                left
            } else {
                4096
            },
        );
    }
    if request_is_ws_upgrade(buf) {
        HeadNext::Upgrade
    } else {
        HeadNext::Page
    }
}

/// The milliseconds that an environment variable tells; the default where it
/// is not set or tells no number.
pub fn duration_from_env(value: Option<&str>, default_ms: u64) -> (r: u64)
    ensures
        r == match value {
            Some(s) => match uint64(encode_utf8(s@)) {
                Some(ms) => ms,
                None => default_ms,
            },
            None => default_ms,
        },
{
    match value {
        Some(s) => match parse_u64(s.as_bytes()) {
            Some(ms) => ms,
            None => default_ms,
        },
        None => default_ms,
    }
}

} // verus!
