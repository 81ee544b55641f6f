//! Who is let in at the daemon's port, and what is answered, said by how
//! requests are written.

use crate::hash::{fnv, hex_padded, law_fnv_pieces, FNV_OFFSET};
use crate::kernel::auth::{
    allows, bare_host, host_of_origin, listed_hosts, query_lookup, query_value, verdict, Refusal,
    Request,
};
use crate::kernel::http::{
    answer_head, answer_parts, asked_path, asks_upgrade, head_done, head_ends_at, is_upgrade,
    served_parts, Assets,
};
use crate::number::decimal;
use crate::text::{
    begins, first_at, is_char, lemma_find_first, lines, lower, lowered, occurs, occurs_at, one_of,
    pieces, trimmed, views,
};
use crate::text_laws::{
    all_blank, firm, is_blank_char, law_halves, law_lines, law_pieces, law_trimmed, law_words,
    none_blank, with_between, with_blanks, with_ends,
};
use vstd::prelude::*;
use vstd::utf8::encode_utf8;

verus! {

/// A name and its value in a query.
pub ghost struct Pair {
    pub key: Seq<char>,
    pub value: Seq<char>,
}

/// The name and the value can be told apart, and from the next.
pub open spec fn is_pair(p: Pair) -> bool {
    &&& !p.key.contains('=') && !p.key.contains('&')
    &&& !p.value.contains('&')
}

/// `a=1`
pub open spec fn pair_text(p: Pair) -> Seq<char> {
    p.key + seq!['='] + p.value
}

/// `a=1&b=2`
pub open spec fn query_text(ps: Seq<Pair>) -> Seq<char> {
    with_between(ps.map_values(|p: Pair| pair_text(p)), '&')
}

proof fn lemma_query_value(ps: Seq<Pair>, key: Seq<char>, k: int)
    requires
        forall|i: int| 0 <= i < ps.len() ==> is_pair(#[trigger] ps[i]),
        0 <= k <= ps.len(),
        forall|i: int| 0 <= i < k ==> (#[trigger] ps[i]).key != key,
        k < ps.len() ==> ps[k].key == key,
    ensures
        query_value(ps.map_values(|p: Pair| pair_text(p)), key) == (if k < ps.len() {
            Some(ps[k].value)
        } else {
            None
        }),
    decreases ps.len(),
{
    let parts = ps.map_values(|p: Pair| pair_text(p));
    if ps.len() > 0 {
        let p = ps[0];
        assert(is_pair(p));
        law_halves(p.key, '=', p.value);
        assert(parts[0] == pair_text(p));
        let rest = ps.skip(1);
        assert(parts.skip(1) =~= rest.map_values(|p: Pair| pair_text(p)));
        if k > 0 {
            assert forall|i: int| 0 <= i < rest.len() implies is_pair(#[trigger] rest[i]) by {
                assert(rest[i] == ps[i + 1]);
            }
            assert forall|i: int| 0 <= i < k - 1 implies (#[trigger] rest[i]).key != key by {
                assert(rest[i] == ps[i + 1]);
            }
            lemma_query_value(rest, key, k - 1);
        }
    }
}

/// A query gives the value of the first of its names that is the one asked for,
/// and none where it has no such name.
pub proof fn law_query_is_read(ps: Seq<Pair>, key: Seq<char>, k: int)
    requires
        ps.len() > 0,
        forall|i: int| 0 <= i < ps.len() ==> is_pair(#[trigger] ps[i]),
        0 <= k <= ps.len(),
        forall|i: int| 0 <= i < k ==> (#[trigger] ps[i]).key != key,
        k < ps.len() ==> ps[k].key == key,
    ensures
        query_lookup(query_text(ps), key) == (if k < ps.len() {
            Some(ps[k].value)
        } else {
            None
        }),
{
    let parts = ps.map_values(|p: Pair| pair_text(p));
    assert forall|i: int| 0 <= i < parts.len() implies !(#[trigger] parts[i]).contains('&') by {
        let p = ps[i];
        assert(is_pair(p));
        let s = pair_text(p);
        if s.contains('&') {
            let j = choose|j: int| 0 <= j < s.len() && s[j] == '&';
            if j < p.key.len() {
                assert(p.key[j] == '&');
            } else if j > p.key.len() {
                assert(p.value[j - p.key.len() - 1] == '&');
            }
        }
    }
    law_pieces(parts, '&');
    lemma_query_value(ps, key, k);
}

/// A host is told from its port, and an address in brackets from them.
pub proof fn law_host_is_read(host: Seq<char>, port: Seq<char>)
    requires
        firm(host),
        firm(port),
    ensures
        !host.contains(':') && host.len() > 0 && host[0] != '[' ==> bare_host(host) == host,
        !host.contains(':') && host.len() > 0 && host[0] != '[' ==> bare_host(
            host + seq![':'] + port,
        ) == host,
        !host.contains(']') ==> bare_host(seq!['['] + host + seq![']']) == host,
        !host.contains(']') ==> bare_host(seq!['['] + host + seq![']', ':'] + port) == host,
{
    let none = Seq::<char>::empty();
    assert(none + host + none =~= host);
    law_trimmed(none, host, none);
    if !host.contains(':') && host.len() > 0 && host[0] != '[' {
        law_halves(host, ':', port);
        let s = host + seq![':'] + port;
        assert(none + s + none =~= s);
        assert(s[0] == host[0]);
        law_trimmed(none, s, none);
    }
    if !host.contains(']') {
        let a = seq!['['] + host + seq![']'];
        let b = seq!['['] + host + seq![']', ':'] + port;
        assert(none + a + none =~= a);
        assert(none + b + none =~= b);
        assert(a[0] == '[' && a.last() == ']' && b[0] == '[');
        law_trimmed(none, a, none);
        law_trimmed(none, b, none);
        law_halves(host, ']', none);
        law_halves(host, ']', seq![':'] + port);
        assert(a.skip(1) =~= host + seq![']'] + none);
        assert(b.skip(1) =~= host + seq![']'] + (seq![':'] + port));
    }
}

proof fn lemma_first_at(s: Seq<char>, t: Seq<char>, i: int, k: int)
    requires
        0 <= i <= k <= s.len(),
        occurs_at(s, t, k),
        forall|j: int| i <= j < k ==> !#[trigger] occurs_at(s, t, j),
    ensures
        first_at(s, t, i) == Some(k),
    decreases k - i,
{
    if i < k {
        assert(!occurs_at(s, t, i));
        lemma_first_at(s, t, i + 1, k);
    }
}

/// The host of an origin stands between `://` and the next slash.
pub proof fn law_origin_host(scheme: Seq<char>, authority: Seq<char>, path: Seq<char>)
    requires
        !scheme.contains(':'),
        !authority.contains('/'),
    ensures
        host_of_origin(scheme + "://"@ + authority) == Some(bare_host(authority)),
        host_of_origin(scheme + "://"@ + authority + seq!['/'] + path) == Some(bare_host(authority)),
        host_of_origin(scheme) is None,
{
    reveal_strlit("://");
    let m = "://"@;
    assert(m.len() == 3 && m[0] == ':');
    let k = scheme.len() as int;
    let s = scheme + m + authority;
    let t = s + seq!['/'] + path;
    assert(s.subrange(k, k + 3) =~= m);
    assert(t.subrange(k, k + 3) =~= m);
    assert forall|j: int| 0 <= j < k implies !#[trigger] occurs_at(s, m, j) by {
        if occurs_at(s, m, j) {
            assert(s.subrange(j, j + 3)[0] == s[j]);
            assert(scheme[j] == ':');
        }
    }
    assert forall|j: int| 0 <= j < k implies !#[trigger] occurs_at(t, m, j) by {
        if occurs_at(t, m, j) {
            assert(t.subrange(j, j + 3)[0] == t[j]);
            assert(scheme[j] == ':');
        }
    }
    lemma_first_at(s, m, 0, k);
    lemma_first_at(t, m, 0, k);
    law_halves(authority, '/', path);
    assert(s.skip(k + 3) =~= authority);
    assert(t.skip(k + 3) =~= authority + seq!['/'] + path);
    lemma_no_mark(scheme, 0);
}

proof fn lemma_no_mark(scheme: Seq<char>, i: int)
    requires
        !scheme.contains(':'),
        0 <= i,
        "://"@.len() == 3 && "://"@[0] == ':',
    ensures
        first_at(scheme, "://"@, i) is None,
    decreases scheme.len() + 1 - i,
{
    if i <= scheme.len() {
        if occurs_at(scheme, "://"@, i) {
            assert(scheme.subrange(i, i + 3)[0] == scheme[i]);
            assert(scheme.contains(scheme[i]));
        }
        lemma_no_mark(scheme, i + 1);
    }
}

/// A host may be named where it is `localhost`, a literal address or listed, in
/// whatever case and with blanks around it; an empty one never, and no other.
pub proof fn law_hosts_that_may_be_named(
    a: Seq<char>,
    host: Seq<char>,
    b: Seq<char>,
    literal: bool,
    allowed: Seq<String>,
    k: int,
)
    requires
        all_blank(a),
        all_blank(b),
        firm(host),
    ensures
        host.len() == 0 ==> !allows(allowed, a + host + b, literal),
        host.len() > 0 && literal ==> allows(allowed, a + host + b, literal),
        lowered(host) == "localhost"@ ==> allows(allowed, a + host + b, literal),
        host.len() > 0 && 0 <= k < allowed.len() && allowed[k]@ == lowered(host) ==> allows(
            allowed,
            a + host + b,
            literal,
        ),
        !literal && lowered(host) != "localhost"@ && (forall|i: int|
            0 <= i < allowed.len() ==> (#[trigger] allowed[i])@ != lowered(host)) ==> !allows(
            allowed,
            a + host + b,
            literal,
        ),
{
    law_trimmed(a, host, b);
    reveal_strlit("localhost");
    let h = lowered(host);
    assert(h.len() == host.len());
    if 0 <= k < allowed.len() && allowed[k]@ == h {
        assert(views(allowed)[k] == h);
    }
    if views(allowed).contains(h) {
        let i = choose|i: int| 0 <= i < views(allowed).len() && views(allowed)[i] == h;
        assert(allowed[i]@ == h);
    }
}

/// Of a list with commas each host counts, in small letters and without the
/// blanks around it.
pub proof fn law_hosts_are_listed(
    before: Seq<Seq<char>>,
    hosts: Seq<Seq<char>>,
    behind: Seq<Seq<char>>,
)
    requires
        hosts.len() > 0,
        before.len() == hosts.len() && behind.len() == hosts.len(),
        forall|i: int|
            0 <= i < hosts.len() ==> firm(#[trigger] hosts[i]) && hosts[i].len() > 0
                && !hosts[i].contains(','),
        forall|i: int| 0 <= i < hosts.len() ==> all_blank(#[trigger] before[i]),
        forall|i: int| 0 <= i < hosts.len() ==> all_blank(#[trigger] behind[i]),
    ensures
        listed_hosts(
            pieces(
                with_between(
                    Seq::new(hosts.len(), |i: int| before[i] + hosts[i] + behind[i]),
                    ',',
                ),
                is_char(','),
            ),
        ) == hosts.map_values(|h: Seq<char>| lowered(h)),
{
    let parts = Seq::new(hosts.len(), |i: int| before[i] + hosts[i] + behind[i]);
    assert forall|i: int| 0 <= i < parts.len() implies !(#[trigger] parts[i]).contains(',') by {
        let s = parts[i];
        let n = before[i].len() as int;
        let m = n + hosts[i].len();
        assert(all_blank(before[i]) && all_blank(behind[i]));
        if s.contains(',') {
            let j = choose|j: int| 0 <= j < s.len() && s[j] == ',';
            if j < n {
                assert(is_blank_char(before[i][j]));
            } else if j < m {
                assert(hosts[i][j - n] == ',');
            } else {
                assert(is_blank_char(behind[i][j - m]));
            }
        }
    }
    law_pieces(parts, ',');
    lemma_listed(before, hosts, behind);
}

proof fn lemma_listed(before: Seq<Seq<char>>, hosts: Seq<Seq<char>>, behind: Seq<Seq<char>>)
    requires
        before.len() == hosts.len() && behind.len() == hosts.len(),
        forall|i: int| 0 <= i < hosts.len() ==> firm(#[trigger] hosts[i]) && hosts[i].len() > 0,
        forall|i: int| 0 <= i < hosts.len() ==> all_blank(#[trigger] before[i]),
        forall|i: int| 0 <= i < hosts.len() ==> all_blank(#[trigger] behind[i]),
    ensures
        listed_hosts(Seq::new(hosts.len(), |i: int| before[i] + hosts[i] + behind[i]))
            == hosts.map_values(|h: Seq<char>| lowered(h)),
    decreases hosts.len(),
{
    let parts = Seq::new(hosts.len(), |i: int| before[i] + hosts[i] + behind[i]);
    let low = hosts.map_values(|h: Seq<char>| lowered(h));
    if hosts.len() == 0 {
        assert(listed_hosts(parts) =~= low);
    } else {
        let (x, y, z) = (before.skip(1), hosts.skip(1), behind.skip(1));
        assert(firm(hosts[0]) && all_blank(before[0]) && all_blank(behind[0]));
        law_trimmed(before[0], hosts[0], behind[0]);
        assert forall|i: int| 0 <= i < y.len() implies firm(#[trigger] y[i]) && y[i].len() > 0 by {
            assert(y[i] == hosts[i + 1]);
        }
        assert forall|i: int| 0 <= i < y.len() implies all_blank(#[trigger] x[i]) by {
            assert(x[i] == before[i + 1]);
        }
        assert forall|i: int| 0 <= i < y.len() implies all_blank(#[trigger] z[i]) by {
            assert(z[i] == behind[i + 1]);
        }
        lemma_listed(x, y, z);
        assert(parts.skip(1) =~= Seq::new(y.len(), |i: int| x[i] + y[i] + z[i]));
        assert(lowered(hosts[0]).len() == hosts[0].len());
        assert(seq![lowered(hosts[0])] + y.map_values(|h: Seq<char>| lowered(h)) =~= low);
    }
}

/// A socket is opened to the request whose query gives the token, and whose
/// origin and host, as far as it names them, may be named; to no other. The
/// token is judged first, the origin next.
pub proof fn law_who_is_let_in(r: Request, token: Seq<char>, allowed: Seq<String>, ps: Seq<Pair>, k: int)
    requires
        ps.len() > 0,
        forall|i: int| 0 <= i < ps.len() ==> is_pair(#[trigger] ps[i]),
        0 <= k <= ps.len(),
        forall|i: int| 0 <= i < k ==> (#[trigger] ps[i]).key != "t"@,
        k < ps.len() ==> ps[k].key == "t"@,
    ensures
        r.query is None ==> verdict(r, token, allowed) == Err::<(), Refusal>(Refusal::Token),
        r.query is Some && r.query->0@ == query_text(ps) ==> {
            let right = k < ps.len() && ps[k].value == token;
            let origin = match r.origin {
                Some(o) => match host_of_origin(o@) {
                    Some(h) => allows(allowed, h, r.origin_is_literal),
                    None => false,
                },
                None => true,
            };
            let host = match r.host {
                Some(h) => allows(allowed, bare_host(h@), r.host_is_literal),
                None => true,
            };
            &&& !right ==> verdict(r, token, allowed) == Err::<(), Refusal>(Refusal::Token)
            &&& right && !origin ==> verdict(r, token, allowed) == Err::<(), Refusal>(
                Refusal::Origin,
            )
            &&& right && origin && !host ==> verdict(r, token, allowed) == Err::<(), Refusal>(
                Refusal::Host,
            )
            &&& right && origin && host ==> verdict(r, token, allowed) is Ok
        },
{
    law_query_is_read(ps, "t"@, k);
    let none = Seq::<char>::empty();
    law_hosts_that_may_be_named(none, none, none, r.origin_is_literal, allowed, 0);
    assert(none + none + none =~= none);
}

/// A request line asks for the path that is its second word, without the query
/// or the fragment behind it.
pub proof fn law_path_is_read(
    method: Seq<char>,
    path: Seq<char>,
    more: Seq<char>,
    version: Seq<char>,
    ls: Seq<Seq<char>>,
    crs: Seq<bool>,
)
    requires
        method.len() > 0 && none_blank(method),
        path.len() > 0 && none_blank(path) && !path.contains('?') && !path.contains('#'),
        none_blank(more) && (more.len() > 0 ==> more[0] == '?' || more[0] == '#'),
        version.len() > 0 && none_blank(version),
        ls.len() > 0,
        crs.len() == ls.len(),
        crs[0],
        ls[0] == method + seq![' '] + path + more + seq![' '] + version,
        forall|i: int| 0 <= i < ls.len() ==> !(#[trigger] ls[i]).contains('\n'),
        forall|i: int|
            0 <= i < ls.len() && (#[trigger] ls[i]).len() > 0 ==> ls[i].last() != '\r' || crs[i],
    ensures
        asked_path(with_ends(ls, crs)) == Some(path),
{
    let none = Seq::<char>::empty();
    law_lines(ls, crs, none);
    assert(with_ends(ls, crs) + none =~= with_ends(ls, crs));
    let target = path + more;
    let ws = seq![method, target, version];
    let gaps = seq![none, seq![' '], seq![' ']];
    assert forall|i: int| 0 <= i < target.len() implies !is_blank_char(#[trigger] target[i]) by {
        if i < path.len() {
            assert(target[i] == path[i]);
        } else {
            assert(target[i] == more[i - path.len()]);
        }
    }
    assert forall|i: int| 0 <= i < ws.len() implies none_blank(#[trigger] ws[i]) && ws[i].len()
        > 0 by {
        assert(i == 0 || i == 1 || i == 2);
    }
    assert forall|i: int| 0 <= i < gaps.len() implies all_blank(#[trigger] gaps[i]) by {
        assert(i == 0 || i == 1 || i == 2);
    }
    law_words(gaps, ws, none);
    assert(with_blanks(gaps, ws, none) =~= ls[0]) by {
        reveal_with_fuel(with_blanks, 4);
        assert(gaps.skip(1)[0] == gaps[1] && gaps.skip(1).skip(1)[0] == gaps[2]);
        assert(ws.skip(1)[0] == ws[1] && ws.skip(1).skip(1)[0] == ws[2]);
        assert(ws.skip(1).skip(1).skip(1).len() == 0);
    }
    let p = one_of(seq!['?', '#']);
    assert(seq!['?', '#'][0] == '?' && seq!['?', '#'][1] == '#');
    assert forall|i: int| 0 <= i < path.len() implies !p(#[trigger] target[i]) by {
        assert(target[i] == path[i]);
        assert(path.contains(path[i]));
    }
    if more.len() > 0 {
        assert(target[path.len() as int] == more[0]);
        assert(p(more[0]));
    }
    lemma_find_first(target, p, path.len() as int);
    assert(target.take(path.len() as int) =~= path);
}

/// The lines in small letters.
pub open spec fn all_lowered(ls: Seq<Seq<char>>) -> Seq<Seq<char>> {
    ls.map_values(|l: Seq<char>| lowered(l))
}

proof fn lemma_lowered_add(a: Seq<char>, b: Seq<char>)
    ensures
        lowered(a + b) == lowered(a) + lowered(b),
{
    assert(lowered(a + b) =~= lowered(a) + lowered(b));
}

proof fn lemma_lowered_ends(ls: Seq<Seq<char>>, crs: Seq<bool>)
    requires
        crs.len() == ls.len(),
    ensures
        lowered(with_ends(ls, crs)) == with_ends(all_lowered(ls), crs),
    decreases ls.len(),
{
    let low = all_lowered(ls);
    if ls.len() == 0 {
        assert(lowered(with_ends(ls, crs)) =~= with_ends(low, crs));
    } else {
        lemma_lowered_ends(ls.skip(1), crs.skip(1));
        let end = if crs[0] {
            seq!['\r', '\n']
        } else {
            seq!['\n']
        };
        assert(lowered(end) =~= end);
        lemma_lowered_add(ls[0], end);
        lemma_lowered_add(ls[0] + end, with_ends(ls.skip(1), crs.skip(1)));
        assert(low.skip(1) =~= all_lowered(ls.skip(1)));
    }
}

proof fn lemma_lower_same(c: char, d: char)
    requires
        d == '\n' || d == '\r',
    ensures
        lower(c) == d <==> c == d,
{
    if 'A' as u32 <= c as u32 <= 'Z' as u32 {
        let v = c as u32;
        assert(lower(c) == ((v + 32) as u32) as char);
        assert(97 <= v + 32 <= 122);
        assert(lower(c) as u32 == v + 32);
    }
}

/// A request asks for a socket where one of its lines, in whatever case and with
/// blanks around it, begins with `upgrade:` and names `websocket`; no other does.
pub proof fn law_upgrade_is_seen(ls: Seq<Seq<char>>, crs: Seq<bool>)
    requires
        crs.len() == ls.len(),
        forall|i: int| 0 <= i < ls.len() ==> !(#[trigger] ls[i]).contains('\n'),
        forall|i: int|
            0 <= i < ls.len() && (#[trigger] ls[i]).len() > 0 ==> ls[i].last() != '\r' || crs[i],
    ensures
        is_upgrade(with_ends(ls, crs)) <==> exists|i: int|
            0 <= i < ls.len() && begins(trimmed(lowered(#[trigger] ls[i])), "upgrade:"@) && occurs(
                trimmed(lowered(ls[i])),
                "websocket"@,
            ),
{
    let low = all_lowered(ls);
    let none = Seq::<char>::empty();
    lemma_lowered_ends(ls, crs);
    assert forall|i: int| 0 <= i < low.len() implies !(#[trigger] low[i]).contains('\n') && (
    low[i].len() > 0 ==> low[i].last() != '\r' || crs[i]) by {
        let l = ls[i];
        if low[i].contains('\n') {
            let j = choose|j: int| 0 <= j < low[i].len() && low[i][j] == '\n';
            lemma_lower_same(l[j], '\n');
            assert(l.contains(l[j]));
        }
        if l.len() > 0 {
            lemma_lower_same(l.last(), '\r');
            assert(low[i].last() == lower(l.last()));
        }
    }
    law_lines(low, crs, none);
    assert(with_ends(low, crs) + none =~= with_ends(low, crs));
    let found = lines(lowered(with_ends(ls, crs)));
    assert(found == low);
    if is_upgrade(with_ends(ls, crs)) {
        let i = choose|i: int| 0 <= i < found.len() && asks_upgrade(#[trigger] found[i]);
        assert(low[i] == lowered(ls[i]));
    }
    if exists|i: int|
        0 <= i < ls.len() && begins(trimmed(lowered(#[trigger] ls[i])), "upgrade:"@) && occurs(
            trimmed(lowered(ls[i])),
            "websocket"@,
        ) {
        let i = choose|i: int|
            0 <= i < ls.len() && begins(trimmed(lowered(#[trigger] ls[i])), "upgrade:"@) && occurs(
                trimmed(lowered(ls[i])),
                "websocket"@,
            );
        assert(low[i] == lowered(ls[i]));
        assert(asks_upgrade(found[i]));
    }
}

/// A request head is waited for until its empty line has come, or 8192 bytes.
pub proof fn law_head_is_waited_for(front: Seq<u8>, back: Seq<u8>, buf: Seq<u8>)
    ensures
        head_done(front + seq![13u8, 10u8, 13u8, 10u8] + back),
        buf.len() >= 8192 ==> head_done(buf),
        buf.len() < 8192 && (forall|i: int|
            #![trigger buf[i]]
            0 <= i && i + 3 < buf.len() ==> !(buf[i] == 13 && buf[i + 1] == 10 && buf[i + 2] == 13
                && buf[i + 3] == 10)) ==> !head_done(buf),
{
    let s = front + seq![13u8, 10u8, 13u8, 10u8] + back;
    let k = front.len() as int;
    assert(s[k] == 13 && s[k + 1] == 10 && s[k + 2] == 13 && s[k + 3] == 10);
    assert(head_ends_at(s, k));
}

/// Each path is answered its own file, in its type; any other path is not found.
pub proof fn law_pages(path: Seq<char>, assets: &Assets)
    ensures
        ({
            let (status, content_type, body) = served_parts(path, assets);
            let script = content_type == "text/javascript; charset=utf-8"@;
            let page = path == "/"@ || path == "/index.html"@;
            let known = page || path == "/vendor/xterm.js"@ || path
                == "/vendor/xterm-addon-fit.js"@ || path == "/vendor/xterm.css"@ || path
                == "/sw.js"@;
            &&& known ==> status == "200 OK"@
            &&& !known ==> status == "404 Not Found"@ && body == encode_utf8("not found\n"@)
                && content_type == "text/plain; charset=utf-8"@
            &&& page ==> content_type == "text/html; charset=utf-8"@ && body == assets.index_html@
            &&& path == "/vendor/xterm.js"@ ==> script && body == assets.xterm_js@
            &&& path == "/vendor/xterm-addon-fit.js"@ ==> script && body == assets.xterm_fit_js@
            &&& path == "/vendor/xterm.css"@ ==> content_type == "text/css; charset=utf-8"@ && body
                == assets.xterm_css@
            &&& path == "/sw.js"@ ==> script && body == encode_utf8(
                "\"use strict\";\nself.__QUILL_VERSION__=\""@ + hex_padded(
                    assets.version_of() as int,
                    16,
                ) + "\";\n"@ + assets.sw_js@,
            )
            &&& path != "/sw.js"@ ==> answer_parts(path, assets) == served_parts(path, assets)
        }),
{
    reveal_strlit("/");
    reveal_strlit("/index.html");
    reveal_strlit("/vendor/xterm.js");
    reveal_strlit("/vendor/xterm-addon-fit.js");
    reveal_strlit("/vendor/xterm.css");
    reveal_strlit("/sw.js");
    assert("/"@.len() == 1 && "/index.html"@.len() == 11 && "/vendor/xterm.js"@.len() == 16
        && "/vendor/xterm-addon-fit.js"@.len() == 26 && "/vendor/xterm.css"@.len() == 17
        && "/sw.js"@.len() == 6);
}

/// The version is the hash of all files, one behind the other.
pub proof fn law_version_covers_all_files(assets: &Assets)
    ensures
        assets.version_of() == fnv(
            FNV_OFFSET,
            assets.index_html@ + assets.xterm_js@ + assets.xterm_css@ + assets.xterm_fit_js@
                + encode_utf8(assets.sw_js@),
        ),
{
    let (a, b, c) = (assets.index_html@, assets.xterm_js@, assets.xterm_css@);
    let (d, e) = (assets.xterm_fit_js@, encode_utf8(assets.sw_js@));
    law_fnv_pieces(FNV_OFFSET, a, b);
    law_fnv_pieces(FNV_OFFSET, a + b, c);
    law_fnv_pieces(FNV_OFFSET, a + b + c, d);
    law_fnv_pieces(FNV_OFFSET, a + b + c + d, e);
}

/// The lines of an answer's head: the status, the type, the length of the body,
/// that the connection is closed and that nothing is kept, and an empty one.
pub proof fn law_answer_head(status: Seq<char>, content_type: Seq<char>, len: nat)
    ensures
        answer_head(status, content_type, len) == "HTTP/1.1 "@ + status + "\r\nContent-Type: "@
            + content_type + "\r\nContent-Length: "@ + decimal(len)
            + "\r\nConnection: close\r\nCache-Control: no-store\r\n\r\n"@,
{
}

} // verus!
