use mxd_bar::settings::{
    apply_patch, copy_val, device_id_from, ini_is_defaults, ini_to_settings, is_blank, member, merge_legacy, parse_i64,
    settings_to_ini, text_lt_exec, val_text_exec, SVal, Scalar, Settings,
};

const SAMPLE: &str = "[player]\nlevel=50\njob=Hero\n[potions]\n2000000=3\n[checkin]\nboss=1700000000\n\
[map]\nmapid=100\nname=Henesys\n[window]\nx=10\ny=-20\n";

fn leaf_int(s: &Settings, k: &str) -> Option<i64> {
    match member(s, k) {
        Some(SVal::Leaf(Scalar::Int(n))) => Some(*n),
        _ => None,
    }
}

fn leaf_text(s: &Settings, k: &str) -> Option<String> {
    match member(s, k) {
        Some(SVal::Leaf(Scalar::Text(t))) => Some(t.clone()),
        _ => None,
    }
}

fn is_null(s: &Settings, k: &str) -> bool {
    matches!(member(s, k), Some(SVal::Leaf(Scalar::Null)))
}

fn keys(s: &Settings) -> Vec<String> {
    s.members.iter().map(|(k, _)| k.clone()).collect()
}

#[test]
fn reads_every_section() {
    let s = ini_to_settings(SAMPLE);
    assert_eq!(leaf_int(&s, "level"), Some(50));
    assert_eq!(leaf_int(&s, "outLevel"), Some(1));
    assert_eq!(leaf_text(&s, "job").as_deref(), Some("Hero"));
    assert_eq!(leaf_text(&s, "expMode").as_deref(), Some("value"));
    assert_eq!(leaf_text(&s, "partyMode").as_deref(), Some("solo"));
    assert_eq!(leaf_int(&s, "boss"), Some(1_700_000_000));
    assert!(is_null(&s, "checkin999"));
    assert!(is_null(&s, "merchant"));
    match member(&s, "window") {
        Some(SVal::Arr(xs)) => {
            assert_eq!(xs.len(), 2);
            assert!(matches!(xs[0], Scalar::Int(10)));
            assert!(matches!(xs[1], Scalar::Int(-20)));
        }
        _ => panic!("window is an array"),
    }
    match member(&s, "potions") {
        Some(SVal::Obj(es)) => {
            assert_eq!(es.len(), 1);
            assert_eq!(es[0].0, "2000000");
            assert!(matches!(es[0].1, Scalar::Int(3)));
        }
        _ => panic!("potions is an object"),
    }
    match member(&s, "map") {
        Some(SVal::Obj(es)) => {
            assert_eq!(es.len(), 2);
            assert_eq!(es[0].0, "mapid");
            assert!(matches!(es[0].1, Scalar::Int(100)));
            assert_eq!(es[1].0, "name");
            assert!(matches!(&es[1].1, Scalar::Text(t) if t == "Henesys"));
        }
        _ => panic!("map is an object"),
    }
    // members sorted by key, as serde_json keeps them
    assert_eq!(
        keys(&s),
        vec!["boss", "checkin999", "expMode", "job", "level", "map", "merchant", "outLevel", "partyMode", "potions", "window"]
    );
}

#[test]
fn writes_sections_with_crlf() {
    let s = ini_to_settings(SAMPLE);
    assert_eq!(
        settings_to_ini(&s),
        "[window]\r\nx=10\r\ny=-20\r\n\r\n[player]\r\nlevel=50\r\noutLevel=1\r\njob=Hero\r\nexpMode=value\r\n\
partyMode=solo\r\n\r\n[potions]\r\n2000000=3\r\n\r\n[checkin]\r\nboss=1700000000\r\n\r\n[map]\r\nmapid=100\r\n\
name=Henesys\r\n\r\n"
    );
}

#[test]
fn written_settings_read_back() {
    let text = "; comment\n# other\n[player]\n level = 99 \njob= 主教\nlevel=abc\n[potions]\nb=x\na=7\nb=2\n\
[unknown]\nq=1\n[map]\nmapid=oops\nstreet=  [x  \n";
    let s = ini_to_settings(text);
    let again = ini_to_settings(&settings_to_ini(&s));
    assert_eq!(settings_to_ini(&again), settings_to_ini(&s));
    // the last level line wins and does not parse: the default 1
    assert_eq!(leaf_int(&again, "level"), Some(1));
    assert_eq!(leaf_text(&again, "job").as_deref(), Some("主教"));
    match member(&again, "potions") {
        Some(SVal::Obj(es)) => {
            assert_eq!(es.len(), 2);
            assert_eq!(es[0].0, "a");
            assert!(matches!(es[0].1, Scalar::Int(7)));
            assert!(matches!(es[1].1, Scalar::Int(2)));
        }
        _ => panic!("potions is an object"),
    }
}

#[test]
fn raw_section_names_and_empty_keys() {
    // a section header is taken as written between the brackets
    let s = ini_to_settings("[ player ]\nlevel=5\n[player]\n=x\n");
    assert_eq!(leaf_int(&s, "level"), Some(1));
    let t = ini_to_settings(&settings_to_ini(&s));
    assert_eq!(settings_to_ini(&t), settings_to_ini(&s));
}

#[test]
fn empty_text_is_the_default_shell() {
    let s = ini_to_settings("");
    assert!(ini_is_defaults(&s));
    let t = ini_to_settings("[player]\njob=Hero\n");
    assert!(!ini_is_defaults(&t));
    let u = ini_to_settings("[checkin]\nboss=1\n");
    assert!(!ini_is_defaults(&u));
}

#[test]
fn blank_values() {
    assert!(is_blank(&SVal::Leaf(Scalar::Null)));
    assert!(is_blank(&SVal::Leaf(Scalar::Text(String::new()))));
    assert!(!is_blank(&SVal::Leaf(Scalar::Text("a".into()))));
    assert!(is_blank(&SVal::Leaf(Scalar::Int(1))));
    assert!(!is_blank(&SVal::Leaf(Scalar::Int(2))));
    assert!(!is_blank(&SVal::Leaf(Scalar::Bool(false))));
    assert!(is_blank(&SVal::Obj(vec![])));
    assert!(is_blank(&SVal::Arr(vec![])));
    assert!(is_blank(&SVal::Arr(vec![Scalar::Int(0), Scalar::Int(0)])));
    assert!(!is_blank(&SVal::Arr(vec![Scalar::Int(0), Scalar::Int(5)])));
    assert!(!is_blank(&SVal::Arr(vec![Scalar::Text("0".into())])));
}

fn obj(pairs: Vec<(&str, SVal)>) -> Settings {
    let mut s = Settings::new();
    for (k, v) in pairs {
        s.put(k.to_string(), v);
    }
    s
}

#[test]
fn legacy_takes_over_default_shell() {
    let current = ini_to_settings("");
    let legacy = obj(vec![("level", SVal::Leaf(Scalar::Int(70))), ("job", SVal::Leaf(Scalar::Text("Hero".into())))]);
    let (r, write) = merge_legacy(Some(current), Some(legacy));
    assert!(write);
    assert_eq!(keys(&r), vec!["job", "level"]);
    assert_eq!(leaf_int(&r, "level"), Some(70));
}

#[test]
fn legacy_fills_only_unset_members() {
    let current = ini_to_settings("[player]\nlevel=80\njob=\n");
    let legacy = obj(vec![
        ("level", SVal::Leaf(Scalar::Int(70))),
        ("job", SVal::Leaf(Scalar::Text("Hero".into()))),
        ("expMode", SVal::Leaf(Scalar::Text(String::new()))),
        ("boss", SVal::Leaf(Scalar::Int(123))),
    ]);
    let (r, write) = merge_legacy(Some(current), Some(legacy));
    assert!(write);
    assert_eq!(leaf_int(&r, "level"), Some(80));
    assert_eq!(leaf_text(&r, "job").as_deref(), Some("Hero"));
    assert_eq!(leaf_text(&r, "expMode").as_deref(), Some("value"));
    assert_eq!(leaf_int(&r, "boss"), Some(123));
}

#[test]
fn missing_ini_takes_legacy_and_no_legacy_keeps_ini() {
    let legacy = obj(vec![("job", SVal::Leaf(Scalar::Text(String::new())))]);
    let (r, write) = merge_legacy(None, Some(legacy));
    assert!(write);
    assert_eq!(keys(&r), vec!["job"]);
    let (r2, write2) = merge_legacy(Some(ini_to_settings(SAMPLE)), None);
    assert!(!write2);
    assert_eq!(leaf_int(&r2, "level"), Some(50));
    let (r3, write3) = merge_legacy(None, None);
    assert!(!write3);
    assert!(r3.members.is_empty());
}

#[test]
fn patch_replaces_and_adds() {
    let mut s = ini_to_settings(SAMPLE);
    let patch = obj(vec![
        ("level", SVal::Leaf(Scalar::Int(51))),
        ("zoom", SVal::Leaf(Scalar::BigNum("1.5".into()))),
    ]);
    apply_patch(&mut s, &patch);
    assert_eq!(leaf_int(&s, "level"), Some(51));
    assert!(matches!(member(&s, "zoom"), Some(SVal::Leaf(Scalar::BigNum(t))) if t == "1.5"));
    assert_eq!(leaf_text(&s, "job").as_deref(), Some("Hero"));
    assert_eq!(keys(&s).len(), 12);
}

#[test]
fn non_text_values_are_written_as_json() {
    let v = SVal::Arr(vec![Scalar::Int(1), Scalar::Text("a\"b".into()), Scalar::Null, Scalar::Bool(true)]);
    assert_eq!(val_text_exec(&v), "[1,\"a\\\"b\",null,true]");
    let o = SVal::Obj(vec![("k".into(), Scalar::Composite("[1,2]".into()))]);
    assert_eq!(val_text_exec(&o), "{\"k\":[1,2]}");
    assert_eq!(val_text_exec(&SVal::Leaf(Scalar::Text("plain".into()))), "plain");
    let s = obj(vec![("level", v)]);
    assert_eq!(settings_to_ini(&s), "[player]\r\nlevel=[1,\"a\\\"b\",null,true]\r\n\r\n");
    assert!(matches!(copy_val(&o), SVal::Obj(es) if es.len() == 1 && es[0].0 == "k"));
}

#[test]
fn integer_parsing_follows_std() {
    assert_eq!(parse_i64("-5"), Some(-5));
    assert_eq!(parse_i64("+7"), Some(7));
    assert_eq!(parse_i64("007"), Some(7));
    assert_eq!(parse_i64("-"), None);
    assert_eq!(parse_i64(""), None);
    assert_eq!(parse_i64(" 1"), None);
    assert_eq!(parse_i64("abc"), None);
    assert_eq!(parse_i64("9223372036854775807"), Some(i64::MAX));
    assert_eq!(parse_i64("9223372036854775808"), None);
    assert_eq!(parse_i64("-9223372036854775808"), Some(i64::MIN));
    assert_eq!(parse_i64("-9223372036854775809"), None);
}

#[test]
fn key_order_is_by_code_point() {
    assert!(text_lt_exec("a", "b"));
    assert!(text_lt_exec("ab", "abc"));
    assert!(!text_lt_exec("abc", "ab"));
    assert!(!text_lt_exec("a", "a"));
    assert!(text_lt_exec("Z", "a"));
    assert!(text_lt_exec("z", "主"));
}

#[test]
fn device_id_prefers_machine_guid() {
    assert_eq!(
        device_id_from(Some("4C4C4544-0042-3510-8052-B4C04F"), Some("{\"deviceId\":\"x\"}")),
        Some("4c4c4544-0042-3510-8052-b4c04f".to_string())
    );
    assert_eq!(device_id_from(None, Some("{\"deviceId\":\"d-17\"}")), Some("d-17".to_string()));
    assert_eq!(device_id_from(None, Some("{\"deviceId\":17}")), None);
    assert_eq!(device_id_from(None, Some("not json")), None);
    assert_eq!(device_id_from(None, None), None);
}
