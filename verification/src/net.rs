//! The server protocol (v2): service addresses, the request bodies, what
//! each reply means, token freshness, the UTF-16 text WinHTTP wants and the
//! device id. Sending requests, running PowerShell and opening the browser
//! are the application's job; it hands the replies (status, body) back here.
//!
//! Endpoints: `POST /api/v2/exp/token` trades the fixed device secret for a
//! 2 h token, `POST /api/v2/exp/report` uploads one record and
//! `POST /api/v2/exp/pk` reports the current EXP/h for a live rank; the last
//! two carry `Authorization: Bearer <token>`.
use crate::config::{parse_uint, parse_uint_spec, AppConfig};
use crate::text::{
    char_vec, dec, int_dec, lowercase, push_char, push_dec, push_int, to_lower, trim_spec, trim_str,
    contains_chars, contains_spec,
};
use vstd::prelude::*;
use vstd::string::*;

verus! {

/// Production server.
pub const PROD_BASE: &'static str = "https://mxd.zhuzhu.website";
/// Local test server.
pub const LOCAL_BASE: &'static str = "http://127.0.0.1:3001";
/// The fixed device secret traded for a token.
pub const DEVICE_SECRET: &'static str = "zhuzhu";
pub const TOKEN_PATH: &'static str = "/api/v2/exp/token";
pub const REPORT_PATH: &'static str = "/api/v2/exp/report";
pub const PK_PATH: &'static str = "/api/v2/exp/pk";
/// A token this close to expiry (ns, 10 min) is traded in early.
pub const TOKEN_MARGIN: u64 = 600_000_000_000;

/// The server to use: local when the settings (`[net] base=local`) or the
/// environment (`MXD_BAR_API=local`, read by the caller) ask for it.
pub fn api_base(cfg: &AppConfig, env_local: bool) -> (r: &'static str)
    ensures
        r@ == (if cfg.net_local || env_local { LOCAL_BASE@ } else { PROD_BASE@ }),
{
    if cfg.net_local || env_local {
        LOCAL_BASE
    } else {
        PROD_BASE
    }
}

/// The website shown on the about page: always production.
pub fn official_site() -> (r: &'static str)
    ensures
        r@ == PROD_BASE@,
{
    PROD_BASE
}

/// Share link of one record: `{base}/exp.html?id={id}`.
pub fn share_url(base: &str, id: &str) -> (r: String)
    ensures
        r@ == base@ + "/exp.html?id="@ + id@,
{
    let mut s = String::from_str(base);
    s.append("/exp.html?id=");
    s.append(id);
    s
}

/// The data page, with the token when there is one (the page then unlocks
/// this device's edit controls), else read-only.
pub fn manage_url(base: &str, token: Option<&str>) -> (r: String)
    ensures
        r@ == match token {
            Some(t) => base@ + "/exp.html?token="@ + t@,
            None => base@ + "/exp.html"@,
        },
{
    let mut s = String::from_str(base);
    match token {
        Some(t) => {
            s.append("/exp.html?token=");
            s.append(t);
        },
        None => {
            s.append("/exp.html");
        },
    }
    s
}

// ---------------------------------------------------------------------------
// Service address
// ---------------------------------------------------------------------------

/// Whether `s` starts with `p`.
pub open spec fn has_prefix(s: Seq<char>, p: Seq<char>) -> bool {
    p.len() <= s.len() && s.take(p.len() as int) == p
}

/// Index of the first `/` or `?` in `s`, or its length.
pub open spec fn auth_end(s: Seq<char>, i: int) -> int
    decreases s.len() - i,
{
    if i >= s.len() || i < 0 || s[i] == '/' || s[i] == '?' {
        i
    } else {
        auth_end(s, i + 1)
    }
}

/// Index of the last `:` among the first `k` characters, or -1.
pub open spec fn last_colon(s: Seq<char>, k: int) -> int
    decreases k,
{
    if k <= 0 {
        -1
    } else if s[k - 1] == ':' {
        k - 1
    } else {
        last_colon(s, k - 1)
    }
}

/// `scheme://host[:port][/...]` → (host, port, https); http and https only.
pub open spec fn base_parts_spec(base: Seq<char>) -> Result<(Seq<char>, u16, bool), Seq<char>> {
    let https = "https://"@;
    let http = "http://"@;
    if !has_prefix(base, https) && !has_prefix(base, http) {
        Err("服务地址必须以 http:// 或 https:// 开头"@)
    } else {
        let secure = has_prefix(base, https);
        let rest = if secure { base.skip(https.len() as int) } else { base.skip(http.len() as int) };
        let hp = rest.take(auth_end(rest, 0));
        if hp.len() == 0 {
            Err("服务地址缺少主机名"@)
        } else {
            let c = last_colon(hp, hp.len() as int);
            if c >= 0 {
                let host = hp.take(c);
                if host.len() == 0 {
                    Err("服务地址缺少主机名"@)
                } else {
                    match parse_uint_spec(hp.skip(c + 1), 65535) {
                        Some(p) => Ok((host, p as u16, secure)),
                        None => Err("服务地址端口非法"@),
                    }
                }
            } else {
                Ok((hp, if secure { 443u16 } else { 80u16 }, secure))
            }
        }
    }
}

pub(crate) fn starts_with_chars(v: &Vec<char>, p: &Vec<char>) -> (r: bool)
    ensures
        r == has_prefix(v@, p@),
{
    if p.len() > v.len() {
        return false;
    }
    let mut i: usize = 0;
    while i < p.len()
        invariant
            p@.len() <= v@.len(),
            i <= p@.len(),
            forall|k: int| 0 <= k < i ==> v@[k] == p@[k],
        decreases p@.len() - i,
    {
        if v[i] != p[i] {
            return false;
        }
        i = i + 1;
    }
    assert(v@.take(p@.len() as int) =~= p@);
    true
}

fn chars_string(v: &Vec<char>, a: usize, b: usize) -> (s: String)
    requires
        a <= b <= v@.len(),
    ensures
        s@ == v@.subrange(a as int, b as int),
{
    let mut out = String::new();
    let mut i = a;
    while i < b
        invariant
            a <= i <= b <= v@.len(),
            out@ == v@.subrange(a as int, i as int),
        decreases b - i,
    {
        push_char(&mut out, v[i]);
        assert(v@.subrange(a as int, i + 1) =~= v@.subrange(a as int, i as int).push(v@[i as int]));
        i = i + 1;
    }
    out
}

proof fn lemma_auth_end(s: Seq<char>, i: int, e: int)
    requires
        0 <= i <= e <= s.len(),
        e == s.len() || s[e] == '/' || s[e] == '?',
        forall|k: int| i <= k < e ==> s[k] != '/' && s[k] != '?',
    ensures
        auth_end(s, i) == e,
    decreases e - i,
{
    if i < e {
        lemma_auth_end(s, i + 1, e);
    }
}

proof fn lemma_last_colon(s: Seq<char>, k: int, c: int)
    requires
        0 <= k <= s.len(),
        -1 <= c < k,
        c >= 0 ==> s[c] == ':',
        forall|q: int| c < q < k ==> s[q] != ':',
    ensures
        last_colon(s, k) == c,
    decreases k,
{
    if k > 0 && k - 1 > c {
        lemma_last_colon(s, k - 1, c);
    }
}

/// Splits a service address (see [`base_parts_spec`]).
pub fn base_parts(base: &str) -> (r: Result<(String, u16, bool), String>)
    ensures
        match (r, base_parts_spec(base@)) {
            (Ok((h, p, s)), Ok((h2, p2, s2))) => h@ == h2 && p == p2 && s == s2,
            (Err(e), Err(e2)) => e@ == e2,
            _ => false,
        },
{
    let v = char_vec(base);
    let https = char_vec("https://");
    let http = char_vec("http://");
    proof {
        reveal_strlit("https://");
        reveal_strlit("http://");
    }
    let secure = starts_with_chars(&v, &https);
    let start: usize = if secure {
        8
    } else if starts_with_chars(&v, &http) {
        7
    } else {
        return Err(String::from_str("服务地址必须以 http:// 或 https:// 开头"));
    };
    let n = v.len();
    let ghost rest = v@.skip(start as int);
    let mut e = start;
    while e < n && v[e] != '/' && v[e] != '?'
        invariant
            start <= e <= n,
            n == v@.len(),
            forall|k: int| start <= k < e ==> v@[k] != '/' && v@[k] != '?',
        decreases n - e,
    {
        e = e + 1;
    }
    proof {
        assert forall|k: int| 0 <= k < e - start implies rest[k] != '/' && rest[k] != '?' by {
            assert(rest[k] == v@[start + k]);
        }
        if e < n {
            assert(rest[e - start] == v@[e as int]);
        }
        lemma_auth_end(rest, 0, e - start);
        assert(rest.take(e - start) =~= v@.subrange(start as int, e as int));
    }
    let ghost hp = v@.subrange(start as int, e as int);
    if e == start {
        return Err(String::from_str("服务地址缺少主机名"));
    }
    let mut c = e;
    while c > start && v[c - 1] != ':'
        invariant
            start <= c <= e,
            e <= v@.len(),
            forall|q: int| c <= q < e ==> v@[q] != ':',
        decreases c - start,
    {
        c = c - 1;
    }
    if c > start {
        let ci = c - 1;
        proof {
            assert forall|q: int| ci - start < q < hp.len() implies hp[q] != ':' by {
                assert(hp[q] == v@[start + q]);
            }
            assert(hp[ci - start] == v@[ci as int]);
            lemma_last_colon(hp, hp.len() as int, ci - start);
            assert(hp.take(ci - start) =~= v@.subrange(start as int, ci as int));
            assert(hp.skip(ci - start + 1) =~= v@.subrange(ci + 1, e as int));
        }
        if ci == start {
            return Err(String::from_str("服务地址缺少主机名"));
        }
        let host = chars_string(&v, start, ci);
        let port_text = chars_string(&v, ci + 1, e);
        match parse_uint(port_text.as_str(), 65535) {
            Some(p) => Ok((host, p as u16, secure)),
            None => Err(String::from_str("服务地址端口非法")),
        }
    } else {
        proof {
            assert forall|q: int| 0 <= q < hp.len() implies hp[q] != ':' by {
                assert(hp[q] == v@[start + q]);
            }
            lemma_last_colon(hp, hp.len() as int, -1);
        }
        let host = chars_string(&v, start, e);
        Ok((host, if secure {
            443
        } else {
            80
        }, secure))
    }
}

// ---------------------------------------------------------------------------
// UTF-16 for WinHTTP
// ---------------------------------------------------------------------------

/// UTF-16 code units of one character.
pub open spec fn utf16_of(c: char) -> Seq<u16> {
    let u = c as u32;
    if u < 0x10000 {
        seq![u as u16]
    } else {
        let v = u - 0x10000;
        seq![(0xd800 + v / 0x400) as u16, (0xdc00 + v % 0x400) as u16]
    }
}

/// UTF-16 code units of a text.
pub open spec fn utf16(s: Seq<char>) -> Seq<u16>
    decreases s.len(),
{
    if s.len() == 0 {
        Seq::empty()
    } else {
        utf16(s.drop_last()) + utf16_of(s.last())
    }
}

/// `s` as UTF-16 with a terminating NUL, as the WinHTTP C interface wants.
pub fn wcs(s: &str) -> (r: Vec<u16>)
    ensures
        r@ == utf16(s@).push(0u16),
{
    let v = char_vec(s);
    let mut out: Vec<u16> = Vec::new();
    let mut i: usize = 0;
    while i < v.len()
        invariant
            i <= v@.len(),
            v@ == s@,
            out@ == utf16(v@.take(i as int)),
        decreases v@.len() - i,
    {
        let u = v[i] as u32;
        proof {
            assert(v@.take(i + 1).drop_last() =~= v@.take(i as int));
            assert(v@.take(i + 1).last() == v@[i as int]);
        }
        if u < 0x10000 {
            out.push(u as u16);
        } else {
            let w = u - 0x10000;
            out.push((0xd800 + w / 0x400) as u16);
            out.push((0xdc00 + w % 0x400) as u16);
        }
        proof {
            assert(out@ =~= utf16(v@.take(i + 1)));
        }
        i = i + 1;
    }
    assert(v@.take(v@.len() as int) =~= v@);
    out.push(0);
    out
}

/// The extra request header lines: `key: value\r\n` each.
pub open spec fn header_text(hs: Seq<(Seq<char>, Seq<char>)>) -> Seq<char>
    decreases hs.len(),
{
    if hs.len() == 0 {
        Seq::empty()
    } else {
        header_text(hs.drop_last()) + hs.last().0 + seq![':', ' '] + hs.last().1 + seq!['\r', '\n']
    }
}

/// The header block WinHTTP adds to a request.
pub fn header_block(headers: &Vec<(String, String)>) -> (r: String)
    ensures
        r@ == header_text(headers@.map_values(|h: (String, String)| (h.0@, h.1@))),
{
    let mut out = String::new();
    let mut i: usize = 0;
    let ghost hv = headers@.map_values(|h: (String, String)| (h.0@, h.1@));
    while i < headers.len()
        invariant
            i <= headers@.len(),
            hv == headers@.map_values(|h: (String, String)| (h.0@, h.1@)),
            out@ == header_text(hv.take(i as int)),
        decreases headers@.len() - i,
    {
        out.append(headers[i].0.as_str());
        out.append(": ");
        out.append(headers[i].1.as_str());
        out.append("\r\n");
        proof {
            reveal_strlit(": ");
            reveal_strlit("\r\n");
            assert(hv.take(i + 1).drop_last() =~= hv.take(i as int));
            assert(hv.take(i + 1).last() == hv[i as int]);
            assert(out@ =~= header_text(hv.take(i + 1)));
        }
        i = i + 1;
    }
    assert(hv.take(hv.len() as int) =~= hv);
    out
}

/// Lower-case hex digit.
pub open spec fn hex_char(d: int) -> char {
    if d < 10 { (48 + d) as char } else { (87 + d) as char }
}

fn hex_digit(d: u32) -> (c: char)
    requires
        d < 16,
    ensures
        c == hex_char(d as int),
{
    if d < 10 {
        ((48 + d) as u8) as char
    } else {
        ((87 + d) as u8) as char
    }
}

/// Eight lower-case hex digits of `n`.
pub open spec fn hex8(n: u32) -> Seq<char> {
    Seq::new(8, |i: int| hex_char(((n as int) / pow16(7 - i)) % 16))
}

/// `16^k`.
pub open spec fn pow16(k: int) -> int
    decreases k,
{
    if k <= 0 { 1 } else { 16 * pow16(k - 1) }
}

/// A WinHTTP failure as a readable message: connection problems get a
/// plain-language reason, others their code.
pub fn winhttp_msg(ctx: &str, hr: u32) -> (r: String)
    ensures
        r@ == (if hr == 0x80072ee7 {
            ctx@ + "：服务器域名无法解析"@
        } else if hr == 0x80072efd {
            ctx@ + "：无法连接到服务器"@
        } else if hr == 0x80072ee2 {
            ctx@ + "：连接超时"@
        } else if hr == 0x80072ef5 {
            ctx@ + "：连接被重置"@
        } else {
            ctx@ + "（0x"@ + hex8(hr) + "）"@
        }),
{
    let mut s = String::from_str(ctx);
    if hr == 0x80072ee7 {
        s.append("：服务器域名无法解析");
    } else if hr == 0x80072efd {
        s.append("：无法连接到服务器");
    } else if hr == 0x80072ee2 {
        s.append("：连接超时");
    } else if hr == 0x80072ef5 {
        s.append("：连接被重置");
    } else {
        s.append("（0x");
        let mut h = String::new();
        let mut k: u32 = 0;
        while k < 8
            invariant
                k <= 8,
                h@ == Seq::new(k as nat, |i: int| hex_char(((hr as int) / pow16(7 - i)) % 16)),
            decreases 8 - k,
        {
            let shift = 28 - 4 * k;
            let d = (hr >> shift) & 0xf;
            proof {
                lemma_hex_nibble(hr, k as int);
            }
            push_char(&mut h, hex_digit(d));
            assert(h@ =~= Seq::new((k + 1) as nat, |i: int| hex_char(((hr as int) / pow16(7 - i)) % 16)));
            k = k + 1;
        }
        s.append(h.as_str());
        s.append("）");
    }
    s
}

proof fn lemma_hex_nibble(hr: u32, k: int)
    requires
        0 <= k < 8,
    ensures
        ((hr >> ((28 - 4 * k) as u32)) & 0xf) as int == ((hr as int) / pow16(7 - k)) % 16,
{
    reveal_with_fuel(pow16, 8);
    let s = (28 - 4 * k) as u32;
    assert(hr >> s == hr / (1u32 << s)) by (bit_vector)
        requires
            s < 32,
    ;
    assert((hr >> s) & 0xf == (hr >> s) % 16) by (bit_vector);
    if k == 0 {
        assert(1u32 << 28u32 == 0x1000_0000) by (bit_vector);
    } else if k == 1 {
        assert(1u32 << 24u32 == 0x100_0000) by (bit_vector);
    } else if k == 2 {
        assert(1u32 << 20u32 == 0x10_0000) by (bit_vector);
    } else if k == 3 {
        assert(1u32 << 16u32 == 0x1_0000) by (bit_vector);
    } else if k == 4 {
        assert(1u32 << 12u32 == 0x1000) by (bit_vector);
    } else if k == 5 {
        assert(1u32 << 8u32 == 0x100) by (bit_vector);
    } else if k == 6 {
        assert(1u32 << 4u32 == 0x10) by (bit_vector);
    } else {
        assert(1u32 << 0u32 == 1) by (bit_vector);
    }
}

// ---------------------------------------------------------------------------
// JSON
// ---------------------------------------------------------------------------

/// One character inside a JSON string literal, escaped the way serde_json
/// writes it: `\"`, `\\`, the short escapes for backspace, tab, line feed,
/// form feed and carriage return, `\u00xx` (lower-case hex) for the other
/// control characters, everything else as is.
pub open spec fn json_char(c: char) -> Seq<char> {
    let u = c as u32;
    if c == '"' {
        seq!['\\', '"']
    } else if c == '\\' {
        seq!['\\', '\\']
    } else if u == 0x08 {
        seq!['\\', 'b']
    } else if u == 0x09 {
        seq!['\\', 't']
    } else if u == 0x0a {
        seq!['\\', 'n']
    } else if u == 0x0c {
        seq!['\\', 'f']
    } else if u == 0x0d {
        seq!['\\', 'r']
    } else if u < 0x20 {
        seq!['\\', 'u', '0', '0', hex_char((u / 16) as int), hex_char((u % 16) as int)]
    } else {
        seq![c]
    }
}

/// The escaped characters of a text.
pub open spec fn json_chars(s: Seq<char>) -> Seq<char>
    decreases s.len(),
{
    if s.len() == 0 {
        Seq::empty()
    } else {
        json_chars(s.drop_last()) + json_char(s.last())
    }
}

/// A text as a JSON string literal.
pub open spec fn json_str(s: Seq<char>) -> Seq<char> {
    seq!['"'] + json_chars(s) + seq!['"']
}

/// serde_json `to_string` of a string: the quoted, escaped literal.
#[verifier::external_body]
pub(crate) fn json_quote(s: &str) -> (r: String)
    ensures
        r@ == json_str(s@),
{
    serde_json::to_string(s).unwrap()
}

/// Whether serde_json reads `text` as a JSON document.
pub uninterp spec fn json_valid_spec(text: Seq<char>) -> bool;

/// The string member `key` of the JSON object `text` (serde_json), if any.
pub uninterp spec fn json_str_field(text: Seq<char>, key: Seq<char>) -> Option<Seq<char>>;

/// The non-negative integer member `key` of the JSON object `text`
/// (serde_json), if any.
pub uninterp spec fn json_u64_field(text: Seq<char>, key: Seq<char>) -> Option<u64>;

/// serde_json `from_str::<Value>(text).is_ok()`.
#[verifier::external_body]
fn json_valid(text: &str) -> (r: bool)
    ensures
        r == json_valid_spec(text@),
{
    serde_json::from_str::<serde_json::Value>(text).is_ok()
}

/// serde_json: parse `text` and take `value[key].as_str()`.
#[verifier::external_body]
pub(crate) fn json_get_str(text: &str, key: &str) -> (r: Option<String>)
    ensures
        match (r, json_str_field(text@, key@)) {
            (None, None) => true,
            (Some(a), Some(b)) => a@ == b,
            _ => false,
        },
{
    match serde_json::from_str::<serde_json::Value>(text) {
        Ok(v) => v[key].as_str().map(|x| x.to_owned()),
        Err(_) => None,
    }
}

/// serde_json: parse `text` and take `value[key].as_u64()`.
#[verifier::external_body]
fn json_get_u64(text: &str, key: &str) -> (r: Option<u64>)
    ensures
        r == json_u64_field(text@, key@),
{
    match serde_json::from_str::<serde_json::Value>(text) {
        Ok(v) => v[key].as_u64(),
        Err(_) => None,
    }
}

/// Body of the token request: `{"deviceId":"..."}`.
pub fn token_body(device_id: &str) -> (r: String)
    ensures
        r@ == "{\"deviceId\":"@ + json_str(device_id@) + "}"@,
{
    let mut s = String::from_str("{\"deviceId\":");
    let q = json_quote(device_id);
    s.append(q.as_str());
    s.append("}");
    s
}

/// Body of one upload (members in key order, as serde_json writes an object).
pub open spec fn report_body_spec(p: crate::state::ReportPayload) -> Seq<char> {
    "{\"exp_per_hour\":"@ + int_dec(p.exp_per_hour as int) + ",\"job\":"@ + json_str(p.job@) + ",\"level\":"@
        + dec(p.level as nat) + ",\"map\":"@ + json_str(p.map@) + ",\"mode\":"@ + (if p.mode_solo {
        "\"solo\""@
    } else {
        "\"party\""@
    }) + ",\"note\":"@ + json_str(p.note@) + ",\"power\":"@ + dec(p.power as nat) + ",\"test_seconds\":"@
        + int_dec(p.exp_seconds as int) + "}"@
}

/// The JSON body of one upload (see [`report_body_spec`]).
pub fn report_json(p: &crate::state::ReportPayload) -> (r: String)
    ensures
        r@ == report_body_spec(*p),
{
    let mut s = String::from_str("{\"exp_per_hour\":");
    push_int(&mut s, p.exp_per_hour);
    s.append(",\"job\":");
    let j = json_quote(p.job.as_str());
    s.append(j.as_str());
    s.append(",\"level\":");
    push_dec(&mut s, p.level as u64);
    s.append(",\"map\":");
    let m = json_quote(p.map.as_str());
    s.append(m.as_str());
    s.append(",\"mode\":");
    s.append(if p.mode_solo {
        "\"solo\""
    } else {
        "\"party\""
    });
    s.append(",\"note\":");
    let n = json_quote(p.note.as_str());
    s.append(n.as_str());
    s.append(",\"power\":");
    push_dec(&mut s, p.power);
    s.append(",\"test_seconds\":");
    push_int(&mut s, p.exp_seconds);
    s.append("}");
    assert(s@ =~= report_body_spec(*p));
    s
}

/// Body of one PK report: `{"board_id":..,"exp_per_hour":..,"ts":..}`.
pub fn pk_json(board_id: &str, ts: i64, exp_per_hour: i64) -> (r: String)
    ensures
        r@ == "{\"board_id\":"@ + json_str(board_id@) + ",\"exp_per_hour\":"@ + int_dec(exp_per_hour as int)
            + ",\"ts\":"@ + int_dec(ts as int) + "}"@,
{
    let mut s = String::from_str("{\"board_id\":");
    let b = json_quote(board_id);
    s.append(b.as_str());
    s.append(",\"exp_per_hour\":");
    push_int(&mut s, exp_per_hour);
    s.append(",\"ts\":");
    push_int(&mut s, ts);
    s.append("}");
    assert(s@ =~= "{\"board_id\":"@ + json_str(board_id@) + ",\"exp_per_hour\":"@ + int_dec(exp_per_hour as int)
        + ",\"ts\":"@ + int_dec(ts as int) + "}"@);
    s
}

// ---------------------------------------------------------------------------
// Replies
// ---------------------------------------------------------------------------

/// A failed request: the HTTP status (none when the network failed) and a
/// message for the user.
#[derive(Debug)]
pub struct ApiError {
    pub status: Option<u16>,
    pub message: String,
}

/// Rank (1 = first) and number of participants (0 when not sent).
#[derive(Debug, Clone, Copy, PartialEq, Eq, Structural)]
pub struct PkRank {
    pub rank: u32,
    pub total: u32,
}

/// A member of the reply as text, or `dflt`.
pub open spec fn str_or(body: Seq<char>, key: Seq<char>, dflt: Seq<char>) -> Seq<char> {
    match json_str_field(body, key) {
        Some(v) => v,
        None => dflt,
    }
}

/// What a token reply means: `(token, lifetime in s)` or the reason.
pub open spec fn token_reply_spec(status: u16, body: Seq<char>) -> Result<(Seq<char>, u32), Seq<char>> {
    if !json_valid_spec(body) {
        Err("token 响应不是合法 JSON（HTTP "@ + dec(status as nat) + "）"@)
    } else if status == 200 {
        match json_str_field(body, "token"@) {
            None => Err("token 响应缺少 token 字段"@),
            Some(t) => match json_u64_field(body, "expiresIn"@) {
                None => Err("token 响应缺少 expiresIn 字段"@),
                Some(e) => Ok((t, (e % 0x1_0000_0000) as u32)),
            },
        }
    } else if status == 403 {
        Err("设备密钥错误（HTTP 403）："@ + str_or(body, "error"@, "未知原因"@))
    } else {
        Err("换取 token 失败（HTTP "@ + dec(status as nat) + "）："@ + str_or(body, "error"@, "未知原因"@))
    }
}

fn field_or(body: &str, key: &str, dflt: &str) -> (r: String)
    ensures
        r@ == str_or(body@, key@, dflt@),
{
    match json_get_str(body, key) {
        Some(v) => v,
        None => String::from_str(dflt),
    }
}

fn status_text(prefix: &str, status: u16, mid: &str, tail: &str) -> (r: String)
    ensures
        r@ == prefix@ + dec(status as nat) + mid@ + tail@,
{
    let mut s = String::from_str(prefix);
    push_dec(&mut s, status as u64);
    s.append(mid);
    s.append(tail);
    s
}

/// Reads a token reply (see [`token_reply_spec`]).
pub fn token_reply(status: u16, body: &str) -> (r: Result<(String, u32), String>)
    ensures
        match (r, token_reply_spec(status, body@)) {
            (Ok((t, e)), Ok((t2, e2))) => t@ == t2 && e == e2,
            (Err(m), Err(m2)) => m@ == m2,
            _ => false,
        },
{
    proof {
        reveal_strlit("");
    }
    if !json_valid(body) {
        return Err(status_text("token 响应不是合法 JSON（HTTP ", status, "）", ""));
    }
    if status == 200 {
        let tok = match json_get_str(body, "token") {
            Some(t) => t,
            None => return Err(String::from_str("token 响应缺少 token 字段")),
        };
        let exp = match json_get_u64(body, "expiresIn") {
            Some(e) => e,
            None => return Err(String::from_str("token 响应缺少 expiresIn 字段")),
        };
        Ok((tok, (exp % 0x1_0000_0000) as u32))
    } else {
        let err = field_or(body, "error", "未知原因");
        if status == 403 {
            let mut m = String::from_str("设备密钥错误（HTTP 403）：");
            m.append(err.as_str());
            Err(m)
        } else {
            Err(status_text("换取 token 失败（HTTP ", status, "）：", err.as_str()))
        }
    }
}

/// The message of a failed upload or PK report, by status.
pub open spec fn reply_error_text(status: u16, err: Seq<char>, what: Seq<char>) -> Seq<char> {
    if status == 401 {
        "令牌无效或已过期"@
    } else if status == 400 {
        "数据校验未通过："@ + err
    } else if status == 429 {
        "上报过于频繁（同一设备两次成功上报需间隔≥5秒），请稍后再试"@
    } else {
        what + "（HTTP "@ + dec(status as nat) + "）："@ + err
    }
}

fn reply_error(status: u16, body: &str, what: &str) -> (r: String)
    ensures
        r@ == reply_error_text(status, str_or(body@, "error"@, "服务器未返回具体原因"@), what@),
{
    let err = field_or(body, "error", "服务器未返回具体原因");
    if status == 401 {
        String::from_str("令牌无效或已过期")
    } else if status == 400 {
        let mut m = String::from_str("数据校验未通过：");
        m.append(err.as_str());
        m
    } else if status == 429 {
        String::from_str("上报过于频繁（同一设备两次成功上报需间隔≥5秒），请稍后再试")
    } else {
        let mut m = String::from_str(what);
        m.append("（HTTP ");
        push_dec(&mut m, status as u64);
        m.append("）：");
        m.append(err.as_str());
        m
    }
}

/// Reads an upload reply: the new record's id on 200, else the reason.
pub fn report_reply(status: u16, body: &str) -> (r: Result<String, ApiError>)
    ensures
        status == 200 ==> match (r, json_str_field(body@, "id"@)) {
            (Ok(id), Some(v)) => id@ == v,
            (Err(e), None) => e.status == Some(200u16) && e.message@ == "上报成功但响应缺少 id 字段"@,
            _ => false,
        },
        status != 200 ==> (r matches Err(e) && e.status == Some(status) && e.message@ == (if status == 413 {
            "请求体过大"@
        } else {
            reply_error_text(status, str_or(body@, "error"@, "服务器未返回具体原因"@), "上报失败"@)
        })),
{
    if status == 200 {
        return match json_get_str(body, "id") {
            Some(id) => Ok(id),
            None => Err(ApiError { status: Some(status), message: String::from_str("上报成功但响应缺少 id 字段") }),
        };
    }
    let message = if status == 413 {
        String::from_str("请求体过大")
    } else {
        reply_error(status, body, "上报失败")
    };
    Err(ApiError { status: Some(status), message })
}

/// Reads a PK reply: rank and total on 200, else the reason.
pub fn pk_reply(status: u16, body: &str) -> (r: Result<PkRank, ApiError>)
    ensures
        status == 200 ==> match (r, json_u64_field(body@, "rank"@)) {
            (Ok(k), Some(v)) => k.rank == (v % 0x1_0000_0000) as u32 && k.total == (match json_u64_field(
                body@,
                "total"@,
            ) {
                Some(t) => (t % 0x1_0000_0000) as u32,
                None => 0u32,
            }),
            (Err(e), None) => e.status == Some(200u16) && e.message@ == "PK 成功但响应缺少 rank 字段"@,
            _ => false,
        },
        status != 200 ==> (r matches Err(e) && e.status == Some(status) && e.message@ == reply_error_text(
            status,
            str_or(body@, "error"@, "服务器未返回具体原因"@),
            "PK 上报失败"@,
        )),
{
    if status == 200 {
        return match json_get_u64(body, "rank") {
            Some(rk) => {
                let total = match json_get_u64(body, "total") {
                    Some(t) => (t % 0x1_0000_0000) as u32,
                    None => 0,
                };
                Ok(PkRank { rank: (rk % 0x1_0000_0000) as u32, total })
            },
            None => Err(ApiError { status: Some(status), message: String::from_str("PK 成功但响应缺少 rank 字段") }),
        };
    }
    Err(ApiError { status: Some(status), message: reply_error(status, body, "PK 上报失败") })
}

/// A rejected token (401): trade for a new one and retry once.
pub fn is_auth_failure(e: &ApiError) -> (r: bool)
    ensures
        r == (e.status == Some(401u16)),
{
    match e.status {
        Some(s) => s == 401,
        None => false,
    }
}

/// A cached token is usable while more than `TOKEN_MARGIN` is left.
pub fn token_fresh(token: &Option<String>, exp: Option<u64>, now: u64) -> (r: bool)
    ensures
        r == (token is Some && (exp matches Some(e) && now + TOKEN_MARGIN < e)),
{
    match (token, exp) {
        (Some(_), Some(e)) => now <= u64::MAX - TOKEN_MARGIN && now + TOKEN_MARGIN < e,
        _ => false,
    }
}

/// Expiry time (ns) of a token `secs` seconds long obtained at `now`.
pub fn token_expiry(now: u64, secs: u32) -> (r: u64)
    ensures
        r == if now + secs * 1_000_000_000 > u64::MAX { u64::MAX as int } else { now + secs * 1_000_000_000 },
{
    let d = (secs as u64) * 1_000_000_000;
    if now > u64::MAX - d {
        u64::MAX
    } else {
        now + d
    }
}

// ---------------------------------------------------------------------------
// Device id
// ---------------------------------------------------------------------------

/// Board serials that are placeholders, not real serials.
pub open spec fn is_placeholder_spec(s: Seq<char>) -> bool {
    let t = lowercase(trim_spec(s));
    ||| t.len() == 0
    ||| t == "default string"@
    ||| t == "none"@
    ||| t == "not specified"@
    ||| t == "unknown"@
    ||| t == "default"@
    ||| contains_spec(t, "to be filled"@)
}

/// Whether a board serial is a placeholder (empty, "Default string",
/// "To be filled by O.E.M." and the like).
pub fn is_placeholder(s: &str) -> (r: bool)
    ensures
        r == is_placeholder_spec(s@),
{
    let t = to_lower(trim_str(s));
    let tv = char_vec(t.as_str());
    if tv.len() == 0 {
        return true;
    }
    let ts = t.as_str();
    if String::from_str(ts) == String::from_str("default string") || String::from_str(ts) == String::from_str(
        "none",
    ) || String::from_str(ts) == String::from_str("not specified") || String::from_str(ts) == String::from_str(
        "unknown",
    ) || String::from_str(ts) == String::from_str("default") {
        return true;
    }
    let needle = char_vec("to be filled");
    contains_chars(&tv, &needle)
}

/// The MD5 digest of the UTF-8 bytes of a text.
pub uninterp spec fn md5_of(s: Seq<char>) -> Seq<u8>;

/// md-5 `Md5::digest` of the text's UTF-8 bytes: 16 bytes.
#[verifier::external_body]
fn md5_digest(s: &str) -> (r: Vec<u8>)
    ensures
        r@ == md5_of(s@),
        r@.len() == 16,
{
    <md5::Md5 as md5::Digest>::digest(s.as_bytes()).to_vec()
}

/// Two lower-case hex digits per byte.
pub open spec fn hex_bytes(b: Seq<u8>) -> Seq<char>
    decreases b.len(),
{
    if b.len() == 0 {
        Seq::empty()
    } else {
        hex_bytes(b.drop_last()) + seq![hex_char((b.last() / 16) as int), hex_char((b.last() % 16) as int)]
    }
}

/// MD5 of a text as 32 lower-case hex digits.
pub fn hex_md5(s: &str) -> (r: String)
    ensures
        r@ == hex_bytes(md5_of(s@)),
{
    let d = md5_digest(s);
    let mut h = String::new();
    let mut i: usize = 0;
    while i < d.len()
        invariant
            i <= d@.len(),
            d@ == md5_of(s@),
            h@ == hex_bytes(d@.take(i as int)),
        decreases d@.len() - i,
    {
        let b = d[i];
        push_char(&mut h, hex_digit((b / 16) as u32));
        push_char(&mut h, hex_digit((b % 16) as u32));
        proof {
            assert(d@.take(i + 1).drop_last() =~= d@.take(i as int));
            assert(d@.take(i + 1).last() == b);
            assert(h@ =~= hex_bytes(d@.take(i + 1)));
        }
        i = i + 1;
    }
    assert(d@.take(d@.len() as int) =~= d@);
    h
}

/// Whether the id needs the machine GUID: the board serial could be read
/// but is a placeholder.
pub fn needs_guid(board: Option<&str>) -> (r: bool)
    ensures
        r == (board matches Some(b) && is_placeholder_spec(b@)),
{
    match board {
        Some(b) => is_placeholder(b),
        None => false,
    }
}

/// The device id from what the two system queries printed: MD5 of the
/// trimmed board serial unless it is a placeholder, else MD5 of the trimmed
/// machine GUID; `None` when the board query failed, or the GUID is needed
/// but its query failed or printed nothing.
pub fn compute_uid(board: Option<&str>, guid: Option<&str>) -> (r: Option<String>)
    ensures
        match board {
            None => r is None,
            Some(b) => if !is_placeholder_spec(trim_spec(b@)) {
                r matches Some(u) && u@ == hex_bytes(md5_of(trim_spec(b@)))
            } else {
                match guid {
                    None => r is None,
                    Some(g) => if trim_spec(g@).len() == 0 {
                        r is None
                    } else {
                        r matches Some(u) && u@ == hex_bytes(md5_of(trim_spec(g@)))
                    },
                }
            },
        },
{
    let b = match board {
        Some(b) => trim_str(b),
        None => return None,
    };
    if !is_placeholder(b) {
        return Some(hex_md5(b));
    }
    let g = match guid {
        Some(g) => trim_str(g),
        None => return None,
    };
    let gv = char_vec(g);
    if gv.len() == 0 {
        return None;
    }
    Some(hex_md5(g))
}

} // verus!
