//! The job and map tables (`jobs.json`, `maps.json`) and the lookups on
//! them. Reading and decoding the files is the application's job; the
//! tables arrive here as plain values.
use crate::text::{char_vec, contains_spec, contains_chars, lowercase, to_lower, trim_spec, trim_str};
use vstd::prelude::*;

verus! {

/// The mage group: a job is a mage when its group is exactly this name
/// (job names alone do not tell, e.g. the cleric line).
pub const MAGIC_GROUP: &'static str = "魔法师系";

/// One job group of `jobs.json`.
#[derive(Debug)]
pub struct JobGroup {
    pub group: String,
    pub jobs: Vec<String>,
}

/// One map of `maps.json` (`mapid`, `mapName`, `scene`, `mapDesc`, `street`).
#[derive(Debug)]
pub struct MapInfo {
    pub mapid: i64,
    pub name: String,
    pub scene: String,
    pub desc: Option<String>,
    pub street: Option<String>,
}

/// Job `ji` of group `gi` exists and is named `job`.
pub open spec fn job_at(groups: Seq<JobGroup>, gi: int, ji: int, job: Seq<char>) -> bool {
    0 <= gi < groups.len() && 0 <= ji < groups[gi].jobs@.len() && groups[gi].jobs@[ji]@ == job
}

/// Group `gi` lists `job`.
pub open spec fn group_has(groups: Seq<JobGroup>, gi: int, job: Seq<char>) -> bool {
    exists|ji: int| job_at(groups, gi, ji, job)
}

/// Position `(group, index in group)` of the first job named `job`, groups
/// in order, then jobs in order; `None` when no group lists it.
pub fn find_job(groups: &[JobGroup], job: &str) -> (r: Option<(usize, usize)>)
    ensures
        r is None <==> (forall|gi: int| 0 <= gi < groups@.len() ==> !group_has(groups@, gi, job@)),
        r matches Some((gi, ji)) ==> {
            &&& job_at(groups@, gi as int, ji as int, job@)
            &&& forall|g: int| 0 <= g < gi ==> !group_has(groups@, g, job@)
            &&& forall|j: int| 0 <= j < ji ==> groups@[gi as int].jobs@[j]@ != job@
        },
{
    let want = String::from_str(job);
    let mut gi: usize = 0;
    while gi < groups.len()
        invariant
            want@ == job@,
            gi <= groups@.len(),
            forall|g: int| 0 <= g < gi ==> !group_has(groups@, g, job@),
        decreases groups@.len() - gi,
    {
        let g = &groups[gi];
        let mut ji: usize = 0;
        while ji < g.jobs.len()
            invariant
                want@ == job@,
                gi < groups@.len(),
                *g == groups@[gi as int],
                ji <= g.jobs@.len(),
                forall|j: int| 0 <= j < ji ==> g.jobs@[j]@ != job@,
                forall|g: int| 0 <= g < gi ==> !group_has(groups@, g, job@),
            decreases g.jobs@.len() - ji,
        {
            if g.jobs[ji] == want {
                proof {
                    assert(job_at(groups@, gi as int, ji as int, job@));
                    assert(group_has(groups@, gi as int, job@));
                }
                return Some((gi, ji));
            }
            ji = ji + 1;
        }
        proof {
            assert(!group_has(groups@, gi as int, job@)) by {
                if group_has(groups@, gi as int, job@) {
                    let j = choose|j: int| job_at(groups@, gi as int, j, job@);
                    assert(g.jobs@[j]@ != job@);
                }
            }
        }
        gi = gi + 1;
    }
    None
}

/// A copy of a map entry.
pub fn copy_map(m: &MapInfo) -> (r: MapInfo)
    ensures
        r == *m,
{
    let desc = match &m.desc {
        Some(s) => Some(s.clone()),
        None => None,
    };
    let street = match &m.street {
        Some(s) => Some(s.clone()),
        None => None,
    };
    MapInfo { mapid: m.mapid, name: m.name.clone(), scene: m.scene.clone(), desc, street }
}

/// A hunting map: its scene is `hunting`.
pub open spec fn is_hunting(m: MapInfo) -> bool {
    m.scene@ == seq!['h', 'u', 'n', 't', 'i', 'n', 'g']
}

/// The hunting maps, in table order.
pub fn filter_hunting(maps: &[MapInfo]) -> (r: Vec<MapInfo>)
    ensures
        r@ == maps@.filter(|m: MapInfo| is_hunting(m)),
{
    let hunting = String::from_str("hunting");
    proof {
        reveal_strlit("hunting");
        assert(hunting@ =~= seq!['h', 'u', 'n', 't', 'i', 'n', 'g']);
    }
    let mut out: Vec<MapInfo> = Vec::new();
    let mut i: usize = 0;
    while i < maps.len()
        invariant
            hunting@ == seq!['h', 'u', 'n', 't', 'i', 'n', 'g'],
            i <= maps@.len(),
            out@ == maps@.take(i as int).filter(|m: MapInfo| is_hunting(m)),
        decreases maps@.len() - i,
    {
        proof {
            assert(maps@.take(i + 1).drop_last() =~= maps@.take(i as int));
            reveal(Seq::filter);
        }
        if maps[i].scene == hunting {
            out.push(copy_map(&maps[i]));
        }
        i = i + 1;
    }
    assert(maps@.take(maps@.len() as int) =~= maps@);
    out
}

/// Most hits a map search returns.
pub const SEARCH_MAX: usize = 50;

/// The search key: the query trimmed and lower-cased.
pub open spec fn search_key(query: Seq<char>) -> Seq<char> {
    lowercase(trim_spec(query))
}

/// A map matches a key when its lower-cased name contains it.
pub open spec fn map_matches(m: MapInfo, key: Seq<char>) -> bool {
    contains_spec(lowercase(m.name@), key)
}

/// Indices of the maps among the first `k` that match `key`, in order.
pub open spec fn match_indices(maps: Seq<MapInfo>, key: Seq<char>, k: int) -> Seq<int>
    decreases k,
{
    if k <= 0 {
        Seq::empty()
    } else if map_matches(maps[k - 1], key) {
        match_indices(maps, key, k - 1).push(k - 1)
    } else {
        match_indices(maps, key, k - 1)
    }
}

/// The hits of a search: none for an empty key, else the first 50 matching
/// maps in table order.
pub open spec fn search_hits(maps: Seq<MapInfo>, query: Seq<char>) -> Seq<int> {
    let key = search_key(query);
    if key.len() == 0 {
        Seq::empty()
    } else {
        let all = match_indices(maps, key, maps.len() as int);
        if all.len() > SEARCH_MAX { all.take(SEARCH_MAX as int) } else { all }
    }
}

proof fn lemma_match_indices_bounds(maps: Seq<MapInfo>, key: Seq<char>, k: int)
    requires
        0 <= k <= maps.len(),
    ensures
        forall|j: int| 0 <= j < match_indices(maps, key, k).len() ==> 0 <= #[trigger] match_indices(maps, key, k)[j] < k,
        match_indices(maps, key, k).len() <= k,
    decreases k,
{
    if k > 0 {
        lemma_match_indices_bounds(maps, key, k - 1);
    }
}

/// Case-insensitive substring search over map names (see [`search_hits`]).
pub fn map_search<'a>(maps: &'a [MapInfo], query: &str) -> (r: Vec<&'a MapInfo>)
    ensures
        r@.len() == search_hits(maps@, query@).len(),
        forall|k: int| 0 <= k < r@.len() ==> *r@[k] == maps@[search_hits(maps@, query@)[k]],
{
    let t = trim_str(query);
    let q = to_lower(t);
    let key = char_vec(q.as_str());
    let mut out: Vec<&'a MapInfo> = Vec::new();
    if key.len() == 0 {
        return out;
    }
    let ghost kq = key@;
    let mut i: usize = 0;
    while i < maps.len() && out.len() < SEARCH_MAX
        invariant
            kq == key@,
            kq == search_key(query@),
            kq.len() > 0,
            i <= maps@.len(),
            out@.len() <= SEARCH_MAX,
            out@.len() == match_indices(maps@, kq, i as int).len(),
            forall|k: int| 0 <= k < out@.len() ==> *out@[k] == maps@[match_indices(maps@, kq, i as int)[k]],
        decreases maps@.len() - i,
    {
        let name = to_lower(maps[i].name.as_str());
        let nv = char_vec(name.as_str());
        if contains_chars(&nv, &key) {
            out.push(&maps[i]);
        }
        i = i + 1;
    }
    proof {
        let all = match_indices(maps@, kq, maps@.len() as int);
        lemma_match_indices_prefix(maps@, kq, i as int, maps@.len() as int);
        if out@.len() < SEARCH_MAX {
            assert(i == maps@.len());
        }
    }
    out
}

/// Matches among a longer prefix extend those among a shorter one.
proof fn lemma_match_indices_prefix(maps: Seq<MapInfo>, key: Seq<char>, a: int, b: int)
    requires
        0 <= a <= b <= maps.len(),
    ensures
        match_indices(maps, key, a).len() <= match_indices(maps, key, b).len(),
        forall|j: int| 0 <= j < match_indices(maps, key, a).len() ==> match_indices(maps, key, b)[j]
            == #[trigger] match_indices(maps, key, a)[j],
    decreases b - a,
{
    if b > a {
        lemma_match_indices_prefix(maps, key, a, b - 1);
    }
}

} // verus!
