//! Who may open a socket: the token, and the hosts that a request may name.

use crate::hash::{hex, hex_encode, law_hex_len};
use crate::text::{
    before_char, chars_of, find_char, find_text, first_at, halves, is_char, lemma_encode_injective,
    lowered, pieces, same, same_str, split_once, string_of, to_lower, trim, trimmed, up_to, views,
};
use vstd::prelude::*;
use vstd::slice::slice_subrange;

verus! {

/// Why a socket is refused.
#[derive(Debug, Clone, Copy, PartialEq, Eq, Structural)]
pub enum Refusal {
    Token,
    Origin,
    Host,
}

impl Refusal {
    /// The refusal in words.
    pub open spec fn text(self) -> Seq<char> {
        match self {
            Refusal::Token => "missing or invalid token"@,
            Refusal::Origin => "cross-origin websocket rejected"@,
            Refusal::Host => "host not allowed"@,
        }
    }

    /// The refusal in words.
    pub fn reason(self) -> (r: &'static str)
        ensures
            r@ == self.text(),
    {
        match self {
            Refusal::Token => "missing or invalid token",
            Refusal::Origin => "cross-origin websocket rejected",
            Refusal::Host => "host not allowed",
        }
    }
}

/// The value of `key` among the first pieces of a query that have one: in
/// `a=1&b=2`, that of `a` is `1`.
pub open spec fn query_value(parts: Seq<Seq<char>>, key: Seq<char>) -> Option<Seq<char>>
    decreases parts.len(),
{
    if parts.len() == 0 {
        None
    } else {
        match halves(parts[0], '=') {
            Some((k, v)) => if k == key {
                Some(v)
            } else {
                query_value(parts.skip(1), key)
            },
            None => query_value(parts.skip(1), key),
        }
    }
}

/// The value of `key` in a query.
pub open spec fn query_lookup(query: Seq<char>, key: Seq<char>) -> Option<Seq<char>> {
    query_value(pieces(query, is_char('&')), key)
}

/// The value of `key` in a query.
pub fn query_param(query: &str, key: &str) -> (r: Option<String>)
    ensures
        match r {
            Some(v) => query_lookup(query@, key@) == Some(v@),
            None => query_lookup(query@, key@) is None,
        },
{
    let chars: Vec<char> = chars_of(query);
    let wanted: Vec<char> = chars_of(key);
    let s: &[char] = chars.as_slice();
    let mut i: usize = 0;
    let ghost p = is_char('&');
    assert(s@.skip(0) =~= s@);
    loop
        invariant
            i <= s@.len(),
            s@ == query@,
            wanted@ == key@,
            p == is_char('&'),
            query_value(pieces(s@.skip(i as int), p), key@) == query_lookup(query@, key@),
        decreases s@.len() - i,
    {
        let rest: &[char] = slice_subrange(s, i, s.len());
        assert(rest@ =~= s@.skip(i as int));
        let k: usize = find_char(rest, '&');
        let part: &[char] = slice_subrange(rest, 0, k);
        assert(part@ =~= rest@.take(k as int));
        proof {
            if k < rest@.len() {
                let more = pieces(rest@.skip(k + 1), p);
                assert(pieces(rest@, p) == seq![part@] + more);
                assert((seq![part@] + more).skip(1) =~= more);
                assert(rest@.skip(k + 1) =~= s@.skip(i + k + 1));
            } else {
                assert(part@ =~= rest@);
                assert(pieces(rest@, p) == seq![rest@]);
                assert(seq![rest@].skip(1) =~= Seq::<Seq<char>>::empty());
                assert(query_value(Seq::<Seq<char>>::empty(), key@) is None);
            }
            assert(pieces(rest@, p)[0] == part@);
        }
        if let Some((name, v)) = split_once(part, '=') {
            if same(name, wanted.as_slice()) {
                return Some(string_of(v));
            }
        }
        if k >= rest.len() {
            return None;
        }
        i = i + k + 1;
    }
}

/// Whether the bytes are equal, found out in the same time wherever they
/// differ.
pub fn constant_time_eq(a: &[u8], b: &[u8]) -> (r: bool)
    ensures
        r == (a@ == b@),
{
    if a.len() != b.len() {
        return false;
    }
    let mut diff: u8 = 0;
    let mut i: usize = 0;
    assert(a@.take(0) =~= b@.take(0));
    while i < a.len()
        invariant
            a@.len() == b@.len(),
            i <= a@.len(),
            diff == 0 <==> a@.take(i as int) == b@.take(i as int),
        decreases a@.len() - i,
    {
        let x: u8 = a[i];
        let y: u8 = b[i];
        proof {
            assert((diff | (x ^ y)) == 0 <==> (diff == 0 && x == y)) by (bit_vector);
            assert(a@.take(i + 1) =~= a@.take(i as int).push(x));
            assert(b@.take(i + 1) =~= b@.take(i as int).push(y));
            if a@.take(i + 1) == b@.take(i + 1) {
                assert(a@.take(i as int) =~= a@.take(i + 1).drop_last());
                assert(b@.take(i as int) =~= b@.take(i + 1).drop_last());
                assert(a@.take(i + 1).last() == x && b@.take(i + 1).last() == y);
            }
        }
        diff = diff | (x ^ y);
        i = i + 1;
    }
    assert(a@.take(i as int) =~= a@);
    assert(b@.take(i as int) =~= b@);
    diff == 0
}

/// The host in `host`, `host:port`, `[v6]` or `[v6]:port`.
pub open spec fn bare_host(authority: Seq<char>) -> Seq<char> {
    let a = trimmed(authority);
    if a.len() > 0 && a[0] == '[' {
        up_to(a.skip(1), is_char(']'))
    } else {
        up_to(a, is_char(':'))
    }
}

/// The host in an authority, without port and brackets.
pub fn host_only(authority: &str) -> (r: String)
    ensures
        r@ == bare_host(authority@),
{
    let chars: Vec<char> = chars_of(authority);
    host_of_chars(chars.as_slice())
}

fn host_of_chars(authority: &[char]) -> (r: String)
    ensures
        r@ == bare_host(authority@),
{
    let a: &[char] = trim(authority);
    if a.len() > 0 && a[0] == '[' {
        let rest: &[char] = slice_subrange(a, 1, a.len());
        assert(rest@ =~= a@.skip(1));
        string_of(before_char(rest, ']'))
    } else {
        string_of(before_char(a, ':'))
    }
}

/// The host in an origin `scheme://host[:port]`; none without `://`.
pub open spec fn host_of_origin(origin: Seq<char>) -> Option<Seq<char>> {
    match first_at(origin, "://"@, 0) {
        Some(i) => Some(bare_host(up_to(origin.skip(i + 3), is_char('/')))),
        None => None,
    }
}

/// The host in an origin.
pub fn origin_host(origin: &str) -> (r: Option<String>)
    ensures
        match r {
            Some(host) => host_of_origin(origin@) == Some(host@),
            None => host_of_origin(origin@) is None,
        },
{
    let chars: Vec<char> = chars_of(origin);
    let mark: Vec<char> = chars_of("://");
    proof {
        reveal_strlit("://");
    }
    match find_text(chars.as_slice(), mark.as_slice()) {
        Some(i) => {
            let n: usize = chars.len();
            assert(i + 3 <= n);
            let rest: &[char] = slice_subrange(chars.as_slice(), i + 3, n);
            assert(rest@ =~= chars@.skip(i + 3));
            Some(host_of_chars(before_char(rest, '/')))
        },
        None => None,
    }
}

/// A host as it is compared: trimmed, in lower case.
pub open spec fn normal_host(host: Seq<char>) -> Seq<char> {
    lowered(trimmed(host))
}

/// A host as it is compared.
pub fn normalize_host(host: &str) -> (r: String)
    ensures
        r@ == normal_host(host@),
{
    let chars: Vec<char> = chars_of(host);
    string_of(to_lower(trim(chars.as_slice())).as_slice())
}

/// Whether a host may be named: not an empty one; `localhost`, a literal
/// address, or one of the list.
pub open spec fn allows(allowed: Seq<String>, host: Seq<char>, literal: bool) -> bool {
    let h = normal_host(host);
    h.len() > 0 && (h == "localhost"@ || literal || views(allowed).contains(h))
}

/// Whether a host may be named. `literal` tells whether its normal form is a
/// literal address.
pub fn host_is_allowed(host: &str, literal: bool, allowed: &Vec<String>) -> (b: bool)
    ensures
        b == allows(allowed@, host@, literal),
{
    let h: String = normalize_host(host);
    if h.as_str().is_empty() {
        return false;
    }
    if same_str(h.as_str(), "localhost") || literal {
        return true;
    }
    let mut i: usize = 0;
    while i < allowed.len()
        invariant
            i <= allowed@.len(),
            h@ == normal_host(host@),
            h@.len() > 0,
            forall|j: int| 0 <= j < i ==> (#[trigger] allowed@[j])@ != h@,
        decreases allowed@.len() - i,
    {
        if allowed[i] == h {
            assert(views(allowed@)[i as int] == h@);
            return true;
        }
        i = i + 1;
    }
    proof {
        assert forall|j: int| 0 <= j < views(allowed@).len() implies #[trigger] views(allowed@)[j]
            != h@ by {
            assert(views(allowed@)[j] == allowed@[j]@);
        }
    }
    false
}

/// What a request for a socket tells: its query, its origin and host headers,
/// and whether the hosts in these are literal addresses.
pub struct Request {
    pub query: Option<String>,
    pub origin: Option<String>,
    pub origin_is_literal: bool,
    pub host: Option<String>,
    pub host_is_literal: bool,
}

/// Whether the request has the token.
pub open spec fn has_token(r: Request, token: Seq<char>) -> bool {
    r.query matches Some(q) && query_lookup(q@, "t"@) == Some(token)
}

/// The host of an origin, an empty one where it has none.
pub open spec fn origin_or_empty(origin: Seq<char>) -> Seq<char> {
    match host_of_origin(origin) {
        Some(host) => host,
        None => seq![],
    }
}

/// Whether a socket is opened, or why not: the token must match, and an origin
/// or a host that the request names must be allowed.
pub open spec fn verdict(r: Request, token: Seq<char>, allowed: Seq<String>) -> Result<(), Refusal> {
    if !has_token(r, token) {
        Err(Refusal::Token)
    } else if r.origin is Some && !allows(
        allowed,
        origin_or_empty(r.origin->0@),
        r.origin_is_literal,
    ) {
        Err(Refusal::Origin)
    } else if r.host is Some && !allows(allowed, bare_host(r.host->0@), r.host_is_literal) {
        Err(Refusal::Host)
    } else {
        Ok(())
    }
}

/// Whether a socket is opened, or why not.
pub fn authorize(request: &Request, token: &str, allowed: &Vec<String>) -> (r: Result<(), Refusal>)
    ensures
        r == verdict(*request, token@, allowed@),
{
    let supplied: Option<String> = match &request.query {
        Some(q) => query_param(q.as_str(), "t"),
        None => None,
    };
    let ok: bool = match &supplied {
        Some(t) => {
            proof {
                lemma_encode_injective(t@, token@);
            }
            constant_time_eq(t.as_str().as_bytes(), token.as_bytes())
        },
        None => false,
    };
    if !ok {
        return Err(Refusal::Token);
    }
    if let Some(origin) = &request.origin {
        let host: String = match origin_host(origin.as_str()) {
            Some(host) => host,
            None => String::new(),
        };
        if !host_is_allowed(host.as_str(), request.origin_is_literal, allowed) {
            return Err(Refusal::Origin);
        }
    }
    if let Some(header) = &request.host {
        let host: String = host_only(header.as_str());
        if !host_is_allowed(host.as_str(), request.host_is_literal, allowed) {
            return Err(Refusal::Host);
        }
    }
    Ok(())
}

/// Without the token no socket is opened, whatever else the request tells.
pub proof fn law_token_is_required(r: Request, token: Seq<char>, allowed: Seq<String>)
    requires
        !has_token(r, token),
    ensures
        verdict(r, token, allowed) == Err::<(), Refusal>(Refusal::Token),
{
}

/// A request that names a host which is neither a literal address nor
/// `localhost` nor in the list is refused, the right token notwithstanding.
pub proof fn law_foreign_host_is_refused(r: Request, token: Seq<char>, allowed: Seq<String>)
    requires
        r.host is Some,
        !r.host_is_literal,
        normal_host(bare_host(r.host->0@)) != "localhost"@,
        !views(allowed).contains(normal_host(bare_host(r.host->0@))),
    ensures
        verdict(r, token, allowed) is Err,
{
}

/// The random source failed.
#[derive(Debug, Clone, Copy, PartialEq, Eq, Structural)]
pub struct TokenErr;

/// `getrandom::Error`: that the random source failed, and why.
#[verifier::external_type_specification]
#[verifier::external_body]
pub struct ExRandomError(getrandom::Error);

/// `getrandom::fill`: fills the buffer with random bytes, or fails. The bytes
/// differ from call to call; only their number is stated.
#[verifier::external_body]
fn fill_random(buf: &mut [u8]) -> (r: Result<(), getrandom::Error>)
    ensures
        final(buf)@.len() == old(buf)@.len(),
{
    getrandom::fill(buf)
}

/// The token made of these bytes: two hexadecimal digits for each.
pub fn token_text(bytes: &[u8]) -> (r: String)
    ensures
        r@ == hex(bytes@),
{
    hex_encode(bytes)
}

/// A new token: 32 random bytes, as 64 hexadecimal digits.
pub fn generate_ws_token() -> (r: Result<String, TokenErr>)
    ensures
        r matches Ok(token) ==> token@.len() == 64 && exists|bytes: Seq<u8>|
            bytes.len() == 32 && #[trigger] hex(bytes) == token@,
{
    let mut bytes: [u8; 32] = [0;32];
    let filled: Result<(), getrandom::Error> = fill_random(&mut bytes);
    proof {
        law_hex_len(bytes@);
    }
    token_of(filled, bytes.as_slice())
}

/// The token made of bytes that were to be filled at random: an error where
/// the random source failed, and only there.
pub fn token_of(filled: Result<(), getrandom::Error>, bytes: &[u8]) -> (r: Result<String, TokenErr>)
    ensures
        match filled {
            Ok(_) => r matches Ok(token) && token@ == hex(bytes@),
            Err(_) => r == Err::<String, TokenErr>(TokenErr),
        },
{
    match filled {
        Ok(_) => Ok(token_text(bytes)),
        Err(_) => Err(TokenErr),
    }
}

/// The token to be used: the given one, unless it is missing or empty.
pub fn load_or_generate_token(given: Option<String>) -> (r: Result<String, TokenErr>)
    ensures
        given matches Some(t) && t@.len() > 0 ==> r == Ok::<String, TokenErr>(given->0),
        !(given matches Some(t) && t@.len() > 0) && r is Ok ==> exists|bytes: Seq<u8>|
            bytes.len() == 32 && #[trigger] hex(bytes) == r->Ok_0@,
{
    if let Some(t) = given {
        if !t.as_str().is_empty() {
            return Ok(t);
        }
    }
    generate_ws_token()
}

/// The hosts in a list of them, one behind the other, in normal form and
/// without empty ones.
pub open spec fn listed_hosts(parts: Seq<Seq<char>>) -> Seq<Seq<char>>
    decreases parts.len(),
{
    if parts.len() == 0 {
        seq![]
    } else {
        let h = normal_host(parts[0]);
        let rest = listed_hosts(parts.skip(1));
        if h.len() == 0 {
            rest
        } else {
            seq![h] + rest
        }
    }
}

/// The hosts that may be named: that of the bound address, and those of a list
/// with commas.
pub fn build_allowed_hosts(bound: &str, extra: Option<&str>) -> (r: Vec<String>)
    ensures
        views(r@) == seq![lowered(bound@)] + (match extra {
            Some(list) => listed_hosts(pieces(list@, is_char(','))),
            None => seq![],
        }),
{
    let mut out: Vec<String> = Vec::new();
    out.push(string_of(to_lower(chars_of(bound).as_slice()).as_slice()));
    let ghost first = seq![lowered(bound@)];
    assert(views(out@) =~= first);
    let list: &str = match extra {
        Some(list) => list,
        None => {
            assert(first + Seq::<Seq<char>>::empty() =~= first);
            return out;
        },
    };
    let chars: Vec<char> = chars_of(list);
    let s: &[char] = chars.as_slice();
    let ghost p = is_char(',');
    let ghost whole = first + listed_hosts(pieces(list@, p));
    let mut i: usize = 0;
    assert(s@.skip(0) =~= s@);
    loop
        invariant_except_break
            i <= s@.len(),
            p == is_char(','),
            views(out@) + listed_hosts(pieces(s@.skip(i as int), p)) == whole,
        ensures
            views(out@) == whole,
        decreases s@.len() - i,
    {
        let rest: &[char] = slice_subrange(s, i, s.len());
        assert(rest@ =~= s@.skip(i as int));
        let k: usize = find_char(rest, ',');
        let part: &[char] = slice_subrange(rest, 0, k);
        assert(part@ =~= rest@.take(k as int));
        let ghost more = if k < rest@.len() {
            pieces(rest@.skip(k + 1), p)
        } else {
            seq![]
        };
        proof {
            if k < rest@.len() {
                assert(pieces(rest@, p) == seq![part@] + more);
                assert(rest@.skip(k + 1) =~= s@.skip(i + k + 1));
            } else {
                assert(part@ =~= rest@);
                assert(pieces(rest@, p) =~= seq![part@] + more);
            }
            assert((seq![part@] + more).skip(1) =~= more);
            assert((seq![part@] + more)[0] == part@);
        }
        let h: Vec<char> = to_lower(trim(part));
        let ghost before = out@;
        if h.len() > 0 {
            out.push(string_of(h.as_slice()));
            assert(views(out@) =~= views(before) + seq![h@]);
            assert(views(before) + (seq![h@] + listed_hosts(more)) =~= views(out@) + listed_hosts(
                more,
            ));
        }
        if k >= rest.len() {
            assert(views(out@) + listed_hosts(more) =~= views(out@));
            break;
        }
        i = i + k + 1;
    }
    out
}

} // verus!
