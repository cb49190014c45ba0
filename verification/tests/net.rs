use mxd_bar::config::AppConfig;
use mxd_bar::net::{
    api_base, base_parts, compute_uid, hex_md5, is_auth_failure, is_placeholder, manage_url, needs_guid,
    official_site, pk_json, pk_reply, report_json, report_reply, share_url, token_body, token_expiry,
    token_fresh, token_reply, wcs, winhttp_msg, ApiError, PkRank,
};
use mxd_bar::state::ReportPayload;

#[test]
fn addresses() {
    let mut c = AppConfig::default();
    assert_eq!(api_base(&c, false), "https://mxd.zhuzhu.website");
    assert_eq!(api_base(&c, true), "http://127.0.0.1:3001");
    c.net_local = true;
    assert_eq!(api_base(&c, false), "http://127.0.0.1:3001");
    assert_eq!(official_site(), "https://mxd.zhuzhu.website");
    assert_eq!(share_url("https://a.b", "x1"), "https://a.b/exp.html?id=x1");
    assert_eq!(manage_url("https://a.b", Some("t")), "https://a.b/exp.html?token=t");
    assert_eq!(manage_url("https://a.b", None), "https://a.b/exp.html");
}

#[test]
fn base_parts_splits_and_rejects() {
    assert_eq!(base_parts("https://mxd.zhuzhu.website"), Ok(("mxd.zhuzhu.website".to_string(), 443, true)));
    assert_eq!(base_parts("http://127.0.0.1:3001"), Ok(("127.0.0.1".to_string(), 3001, false)));
    assert_eq!(base_parts("http://h/api?x"), Ok(("h".to_string(), 80, false)));
    assert_eq!(base_parts("ftp://h"), Err("服务地址必须以 http:// 或 https:// 开头".to_string()));
    assert_eq!(base_parts("https://"), Err("服务地址缺少主机名".to_string()));
    assert_eq!(base_parts("https://:80"), Err("服务地址缺少主机名".to_string()));
    assert_eq!(base_parts("http://h:99999"), Err("服务地址端口非法".to_string()));
}

#[test]
fn wcs_is_nul_terminated_utf16() {
    assert_eq!(wcs("ab"), vec![0x61, 0x62, 0]);
    assert_eq!(wcs("经"), vec![0x7ecf, 0]);
    assert_eq!(wcs("😀"), vec![0xd83d, 0xde00, 0]);
    let s = "POST /路径";
    let mut want: Vec<u16> = s.encode_utf16().collect();
    want.push(0);
    assert_eq!(wcs(s), want);
}

#[test]
fn winhttp_messages() {
    assert_eq!(winhttp_msg("发送请求失败", 0x80072efd), "发送请求失败：无法连接到服务器");
    assert_eq!(winhttp_msg("x", 0x1234abcd), "x（0x1234abcd）");
    assert_eq!(winhttp_msg("x", 5), "x（0x00000005）");
}

#[test]
fn token_replies() {
    assert_eq!(token_reply(200, r#"{"token":"T","expiresIn":7200}"#), Ok(("T".to_string(), 7200)));
    assert_eq!(token_reply(200, r#"{"expiresIn":7200}"#), Err("token 响应缺少 token 字段".to_string()));
    assert_eq!(token_reply(200, r#"{"token":"T"}"#), Err("token 响应缺少 expiresIn 字段".to_string()));
    assert_eq!(token_reply(403, r#"{"error":"bad secret"}"#), Err("设备密钥错误（HTTP 403）：bad secret".to_string()));
    assert_eq!(token_reply(500, r#"{}"#), Err("换取 token 失败（HTTP 500）：未知原因".to_string()));
    assert_eq!(token_reply(502, "<html>"), Err("token 响应不是合法 JSON（HTTP 502）".to_string()));
}

fn msg<T>(r: Result<T, ApiError>) -> (Option<u16>, String) {
    match r {
        Ok(_) => panic!("expected an error"),
        Err(e) => (e.status, e.message),
    }
}

#[test]
fn report_and_pk_replies() {
    assert_eq!(report_reply(200, r#"{"id":"abc"}"#).ok(), Some("abc".to_string()));
    assert_eq!(msg(report_reply(200, "{}")), (Some(200), "上报成功但响应缺少 id 字段".to_string()));
    assert_eq!(msg(report_reply(401, "{}")), (Some(401), "令牌无效或已过期".to_string()));
    assert_eq!(msg(report_reply(400, r#"{"error":"level"}"#)), (Some(400), "数据校验未通过：level".to_string()));
    assert_eq!(msg(report_reply(413, "")), (Some(413), "请求体过大".to_string()));
    assert_eq!(
        msg(report_reply(429, "")),
        (Some(429), "上报过于频繁（同一设备两次成功上报需间隔≥5秒），请稍后再试".to_string())
    );
    assert_eq!(msg(report_reply(500, "oops")), (Some(500), "上报失败（HTTP 500）：服务器未返回具体原因".to_string()));
    assert_eq!(pk_reply(200, r#"{"rank":2,"total":40}"#).ok(), Some(PkRank { rank: 2, total: 40 }));
    assert_eq!(pk_reply(200, r#"{"rank":2}"#).ok(), Some(PkRank { rank: 2, total: 0 }));
    assert_eq!(msg(pk_reply(200, "{}")), (Some(200), "PK 成功但响应缺少 rank 字段".to_string()));
    assert_eq!(msg(pk_reply(503, "{}")), (Some(503), "PK 上报失败（HTTP 503）：服务器未返回具体原因".to_string()));
    assert!(is_auth_failure(&ApiError { status: Some(401), message: String::new() }));
    assert!(!is_auth_failure(&ApiError { status: None, message: String::new() }));
}

#[test]
fn request_bodies() {
    assert_eq!(token_body("ab\"c"), r#"{"deviceId":"ab\"c"}"#);
    assert_eq!(pk_json("u1", 1700000000, 360000), r#"{"board_id":"u1","exp_per_hour":360000,"ts":1700000000}"#);
    let p = ReportPayload {
        level: 120,
        job: "主教".into(),
        map: "废都".into(),
        mode_solo: false,
        power: 4832,
        note: "a\nb".into(),
        vip: false,
        exp_per_hour: 360000,
        exp_seconds: 3600,
    };
    let body = report_json(&p);
    assert_eq!(
        body,
        r#"{"exp_per_hour":360000,"job":"主教","level":120,"map":"废都","mode":"party","note":"a\nb","power":4832,"test_seconds":3600}"#
    );
    let v: serde_json::Value = serde_json::from_str(&body).unwrap();
    assert_eq!(v["note"], "a\nb");
}

#[test]
fn token_lifetime() {
    let ns = 1_000_000_000u64;
    assert!(token_fresh(&Some("t".into()), Some(1000 * ns), 399 * ns));
    assert!(!token_fresh(&Some("t".into()), Some(1000 * ns), 400 * ns));
    assert!(!token_fresh(&None, Some(1000 * ns), 0));
    assert!(!token_fresh(&Some("t".into()), None, 0));
    assert_eq!(token_expiry(5, 2), 5 + 2 * ns);
    assert_eq!(token_expiry(u64::MAX - 1, 2), u64::MAX);
}

#[test]
fn device_id() {
    assert!(is_placeholder("  Default String "));
    assert!(is_placeholder("To Be Filled By O.E.M."));
    assert!(is_placeholder(""));
    assert!(!is_placeholder("PF2X9Z"));
    assert_eq!(hex_md5(""), "d41d8cd98f00b204e9800998ecf8427e");
    assert_eq!(hex_md5("abc"), "900150983cd24fb0d6963f7d28e17f72");
    assert_eq!(compute_uid(Some(" abc \n"), None), Some("900150983cd24fb0d6963f7d28e17f72".to_string()));
    assert_eq!(compute_uid(None, Some("abc")), None);
    assert!(needs_guid(Some("None")));
    assert!(!needs_guid(None));
    assert_eq!(compute_uid(Some("None"), Some(" abc ")), Some("900150983cd24fb0d6963f7d28e17f72".to_string()));
    assert_eq!(compute_uid(Some("None"), Some("  ")), None);
    assert_eq!(compute_uid(Some("None"), None), None);
}
