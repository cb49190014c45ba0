use mxd_bar::data::{filter_hunting, find_job, map_search, JobGroup, MapInfo, MAGIC_GROUP};

fn groups() -> Vec<JobGroup> {
    let g = |name: &str, jobs: &[&str]| JobGroup { group: name.into(), jobs: jobs.iter().map(|j| j.to_string()).collect() };
    vec![
        g("战士系", &["剑客", "勇士", "英雄"]),
        g("魔法师系", &["火毒法师", "冰雷法师", "牧师", "主教"]),
        g("弓箭手系", &["猎人", "弩弓手"]),
        g("飞侠系", &["刺客", "侠客"]),
        g("海盗系", &[]),
    ]
}

fn map(id: i64, name: &str, scene: &str) -> MapInfo {
    MapInfo { mapid: id, name: name.into(), scene: scene.into(), desc: None, street: Some("街".into()) }
}

fn maps() -> Vec<MapInfo> {
    vec![
        map(1, "废都森林", "hunting"),
        map(2, "射手村", "town"),
        map(3, "废都北入口", "hunting"),
        map(4, "Ant Tunnel", "hunting"),
        map(5, "废都广场", "town"),
    ]
}

// The job and map tables are data files read by the program; these tests use
// small tables of the same shape.

#[test]
fn magic_detection() {
    let groups = groups();
    let (gi, ji) = find_job(&groups, "火毒法师").expect("found");
    assert_eq!(groups[gi].jobs[ji], "火毒法师");
    assert_eq!(groups[gi].group, "魔法师系");
    assert!(find_job(&groups, "不存在").is_none());
    assert!(groups.iter().any(|g| g.jobs.contains(&"牧师".to_owned()) && g.group == MAGIC_GROUP));
}

#[test]
fn map_search_works() {
    let all = maps();
    let hunting = filter_hunting(&all);
    let hits = map_search(&hunting, "废都");
    assert!(!hits.is_empty());
    for h in &hits {
        assert!(h.name.contains("废都"));
    }
    assert!(map_search(&hunting, "").is_empty());
    assert!(map_search(&hunting, "不存在的图").is_empty());
}

#[test]
fn hunting_filter_keeps_order_and_fields() {
    let h = filter_hunting(&maps());
    let ids: Vec<i64> = h.iter().map(|m| m.mapid).collect();
    assert_eq!(ids, vec![1, 3, 4]);
    assert_eq!(h[0].street.as_deref(), Some("街"));
}

#[test]
fn search_is_trimmed_case_insensitive_and_capped() {
    let all = maps();
    let hits = map_search(&all, "  ant ");
    assert_eq!(hits.len(), 1);
    assert_eq!(hits[0].mapid, 4);
    let many: Vec<MapInfo> = (0..80).map(|i| map(i, "x废都", "hunting")).collect();
    let hits = map_search(&many, "废都");
    assert_eq!(hits.len(), 50);
    assert_eq!(hits[49].mapid, 49);
}

#[test]
fn first_group_listing_a_job_wins() {
    let mut g = groups();
    g.push(JobGroup { group: "x".into(), jobs: vec!["剑客".into()] });
    assert_eq!(find_job(&g, "剑客"), Some((0, 0)));
    assert_eq!(find_job(&g, "主教"), Some((1, 3)));
}
