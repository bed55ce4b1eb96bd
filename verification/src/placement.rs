//! Placement: which hosts render the shards.
//!
//! Hosts that can run a container are ranked by the work they are known to have delivered, then by
//! load and freshness; shards go round the ranked hosts in turn. A shard is checked by a host other
//! than the one that rendered it.

use crate::order;
use crate::order::Ranked;
use crate::seqs;
use crate::text;
use vstd::prelude::*;

verus! {

/// A host as the mesh's atlas advertises it.
#[derive(Debug, PartialEq, Eq)]
pub struct AtlasEntry {
    pub node_id: String,
    pub cpu_cores: u32,
    pub mem_mb: u64,
    pub running_jobs: u32,
    /// Seconds since the host last advertised capacity.
    pub last_seen_secs: u64,
    pub tags: Vec<String>,
}

/// What an atlas entry says.
#[verifier::ext_equal]
pub struct Advert {
    pub node_id: Seq<char>,
    pub cpu_cores: u32,
    pub mem_mb: u64,
    pub running_jobs: u32,
    pub last_seen_secs: u64,
    pub tags: Seq<Seq<char>>,
}

impl View for AtlasEntry {
    type V = Advert;

    open spec fn view(&self) -> Advert {
        Advert {
            node_id: self.node_id@,
            cpu_cores: self.cpu_cores,
            mem_mb: self.mem_mb,
            running_jobs: self.running_jobs,
            last_seen_secs: self.last_seen_secs,
            tags: text::views(self.tags@),
        }
    }
}

impl Clone for AtlasEntry {
    fn clone(&self) -> (res: Self)
        ensures
            res@ == self@,
    {
        AtlasEntry {
            node_id: self.node_id.clone(),
            cpu_cores: self.cpu_cores,
            mem_mb: self.mem_mb,
            running_jobs: self.running_jobs,
            last_seen_secs: self.last_seen_secs,
            tags: text::clone_all(self.tags.as_slice()),
        }
    }
}

impl AtlasEntry {
    /// Whether the host advertises `tag`.
    pub fn has_tag(&self, tag: &str) -> (res: bool)
        ensures
            res == self@.tags.contains(tag@),
    {
        let mut i: usize = 0;
        while i < self.tags.len()
            invariant
                i <= self.tags@.len(),
                forall|k: int| 0 <= k < i ==> (#[trigger] self.tags@[k])@ != tag@,
            decreases self.tags@.len() - i,
        {
            if text::same(self.tags[i].as_str(), tag) {
                assert(self@.tags[i as int] == tag@);
                return true;
            }
            i = i + 1;
        }
        assert forall|k: int| 0 <= k < self@.tags.len() implies self@.tags[k] != tag@ by {
            assert(self.tags@[k]@ != tag@);
        }
        false
    }
}

/// A host as it is ranked.
#[derive(Debug, PartialEq, Eq)]
pub struct Candidate {
    pub node_id: String,
    /// Delivered work on record. More is better.
    pub delivered_work: u64,
    /// Seconds since the host last advertised capacity. Fewer is better.
    pub last_seen_secs: u64,
    /// Jobs running on the host. Fewer is better.
    pub running_jobs: u32,
}

/// What a candidate is ranked by.
#[verifier::ext_equal]
pub struct Standing {
    pub node_id: Seq<char>,
    pub delivered_work: u64,
    pub last_seen_secs: u64,
    pub running_jobs: u32,
}

impl View for Candidate {
    type V = Standing;

    open spec fn view(&self) -> Standing {
        Standing {
            node_id: self.node_id@,
            delivered_work: self.delivered_work,
            last_seen_secs: self.last_seen_secs,
            running_jobs: self.running_jobs,
        }
    }
}

impl Clone for Candidate {
    fn clone(&self) -> (res: Self)
        ensures
            res@ == self@,
    {
        Candidate {
            node_id: self.node_id.clone(),
            delivered_work: self.delivered_work,
            last_seen_secs: self.last_seen_secs,
            running_jobs: self.running_jobs,
        }
    }
}

/// Whether a host can run a container and has the tag that is asked for, if one is.
pub open spec fn eligible(host: Advert, select: Option<Seq<char>>) -> bool {
    &&& host.tags.contains("docker"@)
    &&& match select {
        Some(tag) => host.tags.contains(tag),
        None => true,
    }
}

/// Whether `a` ranks no later than `b`: more delivered work first, then fewer running jobs, then
/// seen more recently, then the lesser node id.
pub open spec fn ranks_no_later(a: Standing, b: Standing) -> bool {
    if a.delivered_work != b.delivered_work {
        a.delivered_work > b.delivered_work
    } else if a.running_jobs != b.running_jobs {
        a.running_jobs < b.running_jobs
    } else if a.last_seen_secs != b.last_seen_secs {
        a.last_seen_secs < b.last_seen_secs
    } else {
        text::text_leq(a.node_id, b.node_id)
    }
}

impl Ranked for Candidate {
    open spec fn leq(a: Standing, b: Standing) -> bool {
        ranks_no_later(a, b)
    }

    proof fn leq_is_total() {
        text::text_leq_is_total();
        let leq = |a: Standing, b: Standing| Self::leq(a, b);
        assert forall|a: Standing, b: Standing| #[trigger] leq(a, b) && #[trigger] leq(b, a) implies a
            == b by {
            assert(a =~= b);
        }
    }

    fn no_later(&self, other: &Self) -> (res: bool) {
        if self.delivered_work != other.delivered_work {
            self.delivered_work > other.delivered_work
        } else if self.running_jobs != other.running_jobs {
            self.running_jobs < other.running_jobs
        } else if self.last_seen_secs != other.last_seen_secs {
            self.last_seen_secs < other.last_seen_secs
        } else {
            text::no_later(self.node_id.as_str(), other.node_id.as_str())
        }
    }
}

/// Candidates best first.
pub open spec fn ranking(candidates: Seq<Standing>) -> Seq<Standing> {
    candidates.sort_by(|a: Standing, b: Standing| ranks_no_later(a, b))
}

/// The node ids of a sequence of candidates.
pub open spec fn node_ids(candidates: Seq<Standing>) -> Seq<Seq<char>> {
    candidates.map_values(|c: Standing| c.node_id)
}

/// The hosts of the shards: round the hosts in turn, and none where there is no host.
pub open spec fn round_robin(shard_count: nat, hosts: Seq<Seq<char>>) -> Seq<Seq<char>> {
    if hosts.len() == 0 {
        Seq::empty()
    } else {
        Seq::new(shard_count, |i: int| hosts[i % hosts.len() as int])
    }
}

/// The first host that is not `original`.
pub open spec fn other_host(original: Seq<char>, hosts: Seq<Seq<char>>) -> Option<Seq<char>>
    decreases hosts.len(),
{
    if hosts.len() == 0 {
        None
    } else if hosts.first() != original {
        Some(hosts.first())
    } else {
        other_host(original, hosts.drop_first())
    }
}

/// The hosts of the atlas that can run a container and have the tag that is asked for, if one is.
pub open spec fn able_hosts(atlas: Seq<Advert>, select: Option<Seq<char>>) -> Seq<Advert> {
    atlas.filter(|h: Advert| eligible(h, select))
}

/// The hosts of the atlas that can run a container and have the tag that is asked for, if one is.
pub fn candidates(atlas: &[AtlasEntry], select: Option<&str>) -> (res: Vec<AtlasEntry>)
    ensures
        order::item_views(res@) == able_hosts(order::item_views(atlas@), text::opt_view(select)),
{
    let mut out: Vec<AtlasEntry> = Vec::new();
    let mut i: usize = 0;
    let ghost all = order::item_views(atlas@);
    let ghost keep = |h: Advert| eligible(h, text::opt_view(select));
    proof {
        reveal(Seq::filter);
        assert(order::item_views(out@) =~= all.take(0).filter(keep));
    }
    while i < atlas.len()
        invariant
            i <= atlas@.len(),
            all == order::item_views(atlas@),
            keep == (|h: Advert| eligible(h, text::opt_view(select))),
            order::item_views(out@) == all.take(i as int).filter(keep),
        decreases atlas@.len() - i,
    {
        let ghost before = order::item_views(out@);
        proof {
            reveal(Seq::filter);
            assert(all.take(i + 1).drop_last() =~= all.take(i as int));
            assert(all.take(i + 1).last() == atlas@[i as int]@);
        }
        let wanted: bool = match select {
            Some(tag) => atlas[i].has_tag(tag),
            None => true,
        };
        if atlas[i].has_tag("docker") && wanted {
            out.push(atlas[i].clone());
            assert(order::item_views(out@) =~= before.push(atlas@[i as int]@));
        }
        i = i + 1;
    }
    assert(all.take(all.len() as int) =~= all);
    out
}

/// The candidates best first.
pub fn rank(candidates: &[Candidate]) -> (res: Vec<Candidate>)
    ensures
        order::item_views(res@) == ranking(order::item_views(candidates@)),
{
    let places: Vec<usize> = order::sort_order(candidates);
    let mut out: Vec<Candidate> = Vec::new();
    let mut i: usize = 0;
    while i < places.len()
        invariant
            i <= places@.len(),
            order::places(places@, candidates@.len()),
            out@.len() == i,
            forall|k: int|
                0 <= k < i ==> (#[trigger] out@[k])@ == candidates@[places@[k] as int]@,
        decreases places@.len() - i,
    {
        out.push(candidates[places[i]].clone());
        i = i + 1;
    }
    proof {
        assert(order::item_views(out@) =~= order::picked(candidates@, places@));
        assert((|a: Standing, b: Standing| Candidate::leq(a, b)) =~= (|a: Standing, b: Standing|
            ranks_no_later(a, b)));
    }
    out
}

/// The distinct texts of `names`, each where it first stands.
pub open spec fn distinct_names(names: Seq<Seq<char>>) -> Seq<Seq<char>>
    decreases names.len(),
{
    if names.len() == 0 {
        Seq::empty()
    } else {
        let before = distinct_names(names.drop_last());
        if before.contains(names.last()) {
            before
        } else {
            before.push(names.last())
        }
    }
}

/// The hosts to fan out to: the node ids of the best candidates, each once, and at most `n`.
pub open spec fn selection(candidates: Seq<Standing>, n: nat) -> Seq<Seq<char>> {
    let ids = distinct_names(node_ids(ranking(candidates)));
    if n < ids.len() {
        ids.take(n as int)
    } else {
        ids
    }
}

/// Whether `name` is among `names`.
fn listed(names: &Vec<String>, name: &str) -> (res: bool)
    ensures
        res == text::views(names@).contains(name@),
{
    let mut i: usize = 0;
    let ghost all = text::views(names@);
    while i < names.len()
        invariant
            i <= names@.len(),
            all == text::views(names@),
            forall|k: int| 0 <= k < i ==> #[trigger] all[k] != name@,
        decreases names@.len() - i,
    {
        assert(all[i as int] == names@[i as int]@);
        if text::same(names[i].as_str(), name) {
            return true;
        }
        i = i + 1;
    }
    false
}

/// The distinct strings of `names`, each where it first stands.
pub fn distinct(names: &[String]) -> (res: Vec<String>)
    ensures
        text::views(res@) == distinct_names(text::views(names@)),
{
    let mut out: Vec<String> = Vec::new();
    let mut i: usize = 0;
    let ghost all = text::views(names@);
    assert(text::views(out@) =~= distinct_names(all.take(0)));
    while i < names.len()
        invariant
            i <= names@.len(),
            all == text::views(names@),
            text::views(out@) == distinct_names(all.take(i as int)),
        decreases names@.len() - i,
    {
        let ghost before = text::views(out@);
        assert(all.take(i + 1).drop_last() =~= all.take(i as int));
        assert(all.take(i + 1).last() == names@[i as int]@);
        if !listed(&out, names[i].as_str()) {
            out.push(names[i].clone());
            assert(text::views(out@) =~= before.push(names@[i as int]@));
        }
        i = i + 1;
    }
    assert(all.take(all.len() as int) =~= all);
    out
}

/// The first `n` of `names`, or all if there are fewer.
pub fn first_names(names: &[String], n: usize) -> (res: Vec<String>)
    ensures
        text::views(res@) == (if n < names@.len() {
            text::views(names@).take(n as int)
        } else {
            text::views(names@)
        }),
{
    let mut out: Vec<String> = Vec::new();
    let mut i: usize = 0;
    while i < names.len() && i < n
        invariant
            i <= names@.len(),
            i <= n,
            out@.len() == i,
            forall|k: int| 0 <= k < i ==> (#[trigger] out@[k])@ == names@[k]@,
        decreases names@.len() - i,
    {
        out.push(names[i].clone());
        i = i + 1;
    }
    assert(text::views(out@) =~= (if n < names@.len() {
        text::views(names@).take(n as int)
    } else {
        text::views(names@)
    }));
    out
}

/// The node ids of `candidates`, in their order.
pub fn ids_of(candidates: &[Candidate]) -> (res: Vec<String>)
    ensures
        text::views(res@) == node_ids(order::item_views(candidates@)),
{
    let mut out: Vec<String> = Vec::new();
    let mut i: usize = 0;
    while i < candidates.len()
        invariant
            i <= candidates@.len(),
            out@.len() == i,
            forall|k: int| 0 <= k < i ==> (#[trigger] out@[k])@ == candidates@[k].node_id@,
        decreases candidates@.len() - i,
    {
        out.push(candidates[i].node_id.clone());
        i = i + 1;
    }
    assert(text::views(out@) =~= node_ids(order::item_views(candidates@)));
    out
}

/// The node ids of the best candidates, each once, and at most `n` of them.
pub fn select(candidates: &[Candidate], n: usize) -> (res: Vec<String>)
    ensures
        text::views(res@) == selection(order::item_views(candidates@), n as nat),
{
    let ranked: Vec<Candidate> = rank(candidates);
    let ids: Vec<String> = ids_of(ranked.as_slice());
    let distinct_ids: Vec<String> = distinct(ids.as_slice());
    assert(text::views(distinct_ids@).len() == distinct_ids@.len());
    first_names(distinct_ids.as_slice(), n)
}

/// For each of `shard_count` shards the host that renders it: round the hosts in turn. Without hosts
/// there is no assignment.
pub fn assign(shard_count: usize, hosts: &[String]) -> (res: Vec<String>)
    ensures
        text::views(res@) == round_robin(shard_count as nat, text::views(hosts@)),
{
    let mut out: Vec<String> = Vec::new();
    let ghost names = text::views(hosts@);
    if hosts.len() == 0 {
        assert(text::views(out@) =~= round_robin(shard_count as nat, names));
        return out;
    }
    let mut i: usize = 0;
    while i < shard_count
        invariant
            i <= shard_count,
            hosts@.len() > 0,
            names == text::views(hosts@),
            out@.len() == i,
            forall|k: int|
                0 <= k < i ==> (#[trigger] out@[k])@ == names[k % names.len() as int],
        decreases shard_count - i,
    {
        let at: usize = i % hosts.len();
        out.push(hosts[at].clone());
        i = i + 1;
    }
    assert(text::views(out@) =~= round_robin(shard_count as nat, names));
    out
}

/// A host to check what `original` rendered: the first that is another one. `None` if there is none.
pub fn verifier_for(original: &str, hosts: &[String]) -> (res: Option<String>)
    ensures
        text::opt_string_view(res) == other_host(original@, text::views(hosts@)),
{
    let ghost names = text::views(hosts@);
    let mut i: usize = 0;
    assert(names.skip(0) =~= names);
    while i < hosts.len()
        invariant
            i <= hosts@.len(),
            names == text::views(hosts@),
            other_host(original@, names) == other_host(original@, names.skip(i as int)),
        decreases hosts@.len() - i,
    {
        assert(names.skip(i as int).drop_first() =~= names.skip(i + 1));
        assert(names.skip(i as int).first() == hosts@[i as int]@);
        if !text::same(hosts[i].as_str(), original) {
            return Some(hosts[i].clone());
        }
        i = i + 1;
    }
    None
}

/// What an atlas entry and its delivered work make as a candidate.
pub open spec fn standing_of(host: Advert, delivered_work: u64) -> Standing {
    Standing {
        node_id: host.node_id,
        delivered_work,
        last_seen_secs: host.last_seen_secs,
        running_jobs: host.running_jobs,
    }
}

/// The candidate that an atlas entry and its delivered work make.
pub fn to_candidate(host: &AtlasEntry, delivered_work: u64) -> (res: Candidate)
    ensures
        res@ == standing_of(host@, delivered_work),
{
    Candidate {
        node_id: host.node_id.clone(),
        delivered_work,
        last_seen_secs: host.last_seen_secs,
        running_jobs: host.running_jobs,
    }
}

/// A ranking holds the candidates it was given, each as often as it was given, and none stands after
/// one that it should precede.
pub proof fn ranking_is_sorted_rearrangement(candidates: Seq<Standing>)
    ensures
        ranking(candidates).to_multiset() == candidates.to_multiset(),
        ranking(candidates).len() == candidates.len(),
        forall|i: int, j: int|
            0 <= i < j < ranking(candidates).len() ==> ranks_no_later(
                #[trigger] ranking(candidates)[i],
                #[trigger] ranking(candidates)[j],
            ),
{
    let leq = |a: Standing, b: Standing| ranks_no_later(a, b);
    Candidate::leq_is_total();
    assert((|a: Standing, b: Standing| Candidate::leq(a, b)) =~= leq);
    candidates.lemma_sort_by_ensures(leq);
    candidates.to_multiset_ensures();
    ranking(candidates).to_multiset_ensures();
    assert forall|i: int, j: int| 0 <= i < j < ranking(candidates).len() implies ranks_no_later(
        #[trigger] ranking(candidates)[i],
        #[trigger] ranking(candidates)[j],
    ) by {
        assert(leq(ranking(candidates)[i], ranking(candidates)[j]));
    }
}

/// The ranking does not depend on the order in which the candidates are given.
pub proof fn ranking_ignores_input_order(a: Seq<Standing>, b: Seq<Standing>)
    requires
        a.to_multiset() == b.to_multiset(),
    ensures
        ranking(a) == ranking(b),
{
    let leq = |x: Standing, y: Standing| ranks_no_later(x, y);
    Candidate::leq_is_total();
    assert((|x: Standing, y: Standing| Candidate::leq(x, y)) =~= leq);
    a.lemma_sort_by_ensures(leq);
    b.lemma_sort_by_ensures(leq);
    vstd::seq_lib::lemma_sorted_unique(ranking(a), ranking(b), leq);
}

/// A verifier is one of the hosts and never the host that it checks; there is none exactly when every
/// host is that one.
pub proof fn verifier_is_another_host(original: Seq<char>, hosts: Seq<Seq<char>>)
    ensures
        match other_host(original, hosts) {
            Some(v) => v != original && hosts.contains(v),
            None => forall|i: int| 0 <= i < hosts.len() ==> #[trigger] hosts[i] == original,
        },
    decreases hosts.len(),
{
    if hosts.len() > 0 {
        let rest = hosts.drop_first();
        verifier_is_another_host(original, rest);
        match other_host(original, hosts) {
            Some(v) => {
                if hosts.first() != original {
                    assert(hosts[0] == v);
                } else {
                    let i = choose|i: int| 0 <= i < rest.len() && rest[i] == v;
                    assert(hosts[i + 1] == v);
                }
            },
            None => {
                assert forall|i: int| 0 <= i < hosts.len() implies #[trigger] hosts[i]
                    == original by {
                    if i > 0 {
                        assert(rest[i - 1] == hosts[i]);
                    }
                }
            },
        }
    }
}

/// The distinct texts of a sequence are distinct and are all of its texts; a sequence without repeats
/// is its own distinct texts.
pub proof fn distinct_names_are_distinct(names: Seq<Seq<char>>)
    ensures
        distinct_names(names).no_duplicates(),
        forall|x: Seq<char>| #[trigger] distinct_names(names).contains(x) <==> names.contains(x),
        names.no_duplicates() ==> distinct_names(names) == names,
    decreases names.len(),
{
    if names.len() > 0 {
        let t = names.drop_last();
        let before = distinct_names(t);
        let all = distinct_names(names);
        distinct_names_are_distinct(t);
        assert forall|x: Seq<char>| #[trigger] all.contains(x) <==> names.contains(x) by {
            if names.contains(x) {
                let i = choose|i: int| 0 <= i < names.len() && names[i] == x;
                if i < t.len() {
                    assert(t[i] == x);
                    assert(before.contains(x));
                    let k = choose|k: int| 0 <= k < before.len() && before[k] == x;
                    assert(all[k] == x);
                } else if !before.contains(x) {
                    assert(all[before.len() as int] == x);
                }
            }
            if all.contains(x) {
                if before.contains(x) {
                    assert(t.contains(x));
                    let i = choose|i: int| 0 <= i < t.len() && t[i] == x;
                    assert(names[i] == x);
                } else {
                    let k = choose|k: int| 0 <= k < all.len() && all[k] == x;
                    if k < before.len() {
                        assert(before[k] == x);
                    }
                    assert(names[names.len() - 1] == x);
                }
            }
        }
        if names.no_duplicates() {
            assert(t.no_duplicates()) by {
                assert forall|i: int, j: int|
                    0 <= i < t.len() && 0 <= j < t.len() && i != j implies t[i] != t[j] by {
                    assert(names[i] != names[j]);
                }
            }
            assert(!t.contains(names.last())) by {
                assert forall|i: int| 0 <= i < t.len() implies t[i] != names.last() by {
                    assert(names[i] != names[names.len() - 1]);
                }
            }
            assert(all =~= names);
        }
    } else {
        assert(distinct_names(names) =~= names);
    }
}

/// The hosts that are selected are distinct, at most as many as are asked for, and each is a
/// candidate's; where no two candidates share a node id they are the first of the ranking.
pub proof fn selected_hosts_are_distinct(candidates: Seq<Standing>, n: nat)
    ensures
        selection(candidates, n).no_duplicates(),
        selection(candidates, n).len() <= n,
        forall|i: int|
            0 <= i < selection(candidates, n).len() ==> node_ids(ranking(candidates)).contains(
                #[trigger] selection(candidates, n)[i],
            ),
        node_ids(ranking(candidates)).no_duplicates() && n <= candidates.len() ==> selection(
            candidates,
            n,
        ) == node_ids(ranking(candidates)).take(n as int),
{
    let ids = node_ids(ranking(candidates));
    let all = distinct_names(ids);
    let s = selection(candidates, n);
    distinct_names_are_distinct(ids);
    ranking_is_sorted_rearrangement(candidates);
    assert forall|i: int, j: int| 0 <= i < s.len() && 0 <= j < s.len() && i != j implies s[i]
        != s[j] by {
        assert(s[i] == all[i] && s[j] == all[j]);
    }
    assert forall|i: int| 0 <= i < s.len() implies ids.contains(#[trigger] s[i]) by {
        assert(s[i] == all[i]);
        assert(all.contains(all[i]));
    }
    if n == candidates.len() {
        assert(ids.take(n as int) =~= ids);
    }
}

/// Of two hosts in a ranking the earlier has delivered at least as much work; where both have delivered
/// as much it runs no more jobs; where these too are as many it was seen no longer ago; and where all
/// three are equal its node id is the beginning of the other, or the lesser where they first differ.
pub proof fn ranking_goes_by_work_then_load_then_freshness(
    candidates: Seq<Standing>,
    i: int,
    j: int,
)
    requires
        0 <= i < j < ranking(candidates).len(),
    ensures
        ({
            let a = ranking(candidates)[i];
            let b = ranking(candidates)[j];
            &&& a.delivered_work >= b.delivered_work
            &&& a.delivered_work == b.delivered_work ==> a.running_jobs <= b.running_jobs
            &&& a.delivered_work == b.delivered_work && a.running_jobs == b.running_jobs
                ==> a.last_seen_secs <= b.last_seen_secs
            &&& a.delivered_work == b.delivered_work && a.running_jobs == b.running_jobs
                && a.last_seen_secs == b.last_seen_secs ==> {
                ||| a.node_id.is_prefix_of(b.node_id)
                ||| exists|k: int|
                    0 <= k < a.node_id.len() && k < b.node_id.len() && a.node_id.take(k)
                        == b.node_id.take(k) && (#[trigger] a.node_id[k] as u32) < (
                    b.node_id[k] as u32)
            }
        }),
{
    let a = ranking(candidates)[i];
    let b = ranking(candidates)[j];
    ranking_is_sorted_rearrangement(candidates);
    assert(ranks_no_later(a, b));
    text::text_leq_is_lexicographic(a.node_id, b.node_id);
}

/// A ranking names each candidate by its node id, in its place.
pub proof fn ranked_ids_are_the_candidates(candidates: Seq<Standing>)
    ensures
        node_ids(ranking(candidates)).len() == candidates.len(),
        forall|i: int|
            0 <= i < candidates.len() ==> #[trigger] node_ids(ranking(candidates))[i] == ranking(
                candidates,
            )[i].node_id,
        forall|c: Standing| #[trigger] ranking(candidates).contains(c) <==> candidates.contains(c),
{
    let r = ranking(candidates);
    ranking_is_sorted_rearrangement(candidates);
    candidates.to_multiset_ensures();
    r.to_multiset_ensures();
    assert forall|c: Standing| #[trigger] r.contains(c) <==> candidates.contains(c) by {
        assert(r.to_multiset().count(c) == candidates.to_multiset().count(c));
    }
}

/// A host of the atlas may run a job exactly when one of its tags is `docker` and, where a tag is asked
/// for, one of its tags is that one, wherever among its tags they stand. The hosts that may are those
/// of the atlas that do, and none is added.
pub proof fn candidates_have_the_tags(atlas: Seq<Advert>, select: Option<Seq<char>>, host: Advert)
    ensures
        able_hosts(atlas, select).contains(host) <==> {
            &&& atlas.contains(host)
            &&& exists|i: int| 0 <= i < host.tags.len() && #[trigger] host.tags[i] == "docker"@
            &&& select is Some ==> exists|i: int|
                0 <= i < host.tags.len() && #[trigger] host.tags[i] == select->0
        },
{
    broadcast use vstd::seq_lib::group_filter_ensures;

    let keep = |h: Advert| eligible(h, select);
    let kept = atlas.filter(keep);
    if kept.contains(host) {
        let k = choose|k: int| 0 <= k < kept.len() && kept[k] == host;
        assert(keep(kept[k]));
        assert(atlas.contains(kept[k])) by {
            seqs::lemma_filter_in_order(atlas, keep, |a: Advert, b: Advert| true);
        }
        let i = choose|i: int| 0 <= i < host.tags.len() && host.tags[i] == "docker"@;
        assert(host.tags[i] == "docker"@);
        if let Some(tag) = select {
            let i = choose|i: int| 0 <= i < host.tags.len() && host.tags[i] == tag;
            assert(host.tags[i] == tag);
        }
    }
    if atlas.contains(host) && keep(host) {
        let k = choose|k: int| 0 <= k < atlas.len() && atlas[k] == host;
        assert(kept.contains(atlas[k]));
    }
}

/// In what order a host lists its tags does not matter, nor do the other things that it says of itself.
pub proof fn order_of_tags_does_not_matter(a: Advert, b: Advert, select: Option<Seq<char>>)
    requires
        forall|tag: Seq<char>| a.tags.contains(tag) <==> #[trigger] b.tags.contains(tag),
    ensures
        eligible(a, select) == eligible(b, select),
{
    assert(a.tags.contains("docker"@) == b.tags.contains("docker"@));
    if let Some(tag) = select {
        assert(a.tags.contains(tag) == b.tags.contains(tag));
    }
}

/// The hosts that may run a job stand in the order of the atlas, and one more host at its end is one
/// more of them or none, as its tags are.
pub proof fn candidates_keep_the_order_of_the_atlas(
    atlas: Seq<Advert>,
    host: Advert,
    select: Option<Seq<char>>,
)
    ensures
        ({
            let before = able_hosts(atlas, select);
            let able = host.tags.contains("docker"@) && (select is Some ==> host.tags.contains(
                select->0,
            ));
            able_hosts(atlas.push(host), select) == (if able {
                before.push(host)
            } else {
                before
            })
        }),
{
    reveal(Seq::filter);
    assert(atlas.push(host).drop_last() =~= atlas);
}

/// The shards go round the hosts: the first shards go to the hosts in their order, and each later shard
/// to the host of the shard that is as many places before it as there are hosts.
pub proof fn shards_go_round_the_hosts(shard_count: nat, hosts: Seq<Seq<char>>)
    ensures
        ({
            let dealt = round_robin(shard_count, hosts);
            let n = hosts.len() as int;
            &&& n == 0 ==> dealt.len() == 0
            &&& n > 0 ==> dealt.len() == shard_count
            &&& forall|i: int| 0 <= i < n && i < shard_count ==> #[trigger] dealt[i] == hosts[i]
            &&& forall|i: int|
                n > 0 && n <= i < shard_count ==> #[trigger] dealt[i] == dealt[i - n]
        }),
{
    let dealt = round_robin(shard_count, hosts);
    let n = hosts.len() as int;
    assert forall|i: int| 0 <= i < n && i < shard_count implies #[trigger] dealt[i] == hosts[i] by {
        vstd::arithmetic::div_mod::lemma_small_mod(i as nat, n as nat);
    }
    assert forall|i: int| n > 0 && n <= i < shard_count implies #[trigger] dealt[i] == dealt[i
        - n] by {
        vstd::arithmetic::div_mod::lemma_mod_sub_multiples_vanish(i, n);
    }
}

/// The host that checks is the first of the hosts that is not the one that rendered.
pub proof fn verifier_is_the_first_other_host(
    original: Seq<char>,
    hosts: Seq<Seq<char>>,
    k: int,
)
    requires
        0 <= k < hosts.len(),
        forall|i: int| 0 <= i < k ==> #[trigger] hosts[i] == original,
        hosts[k] != original,
    ensures
        other_host(original, hosts) == Some(hosts[k]),
    decreases k,
{
    if k > 0 {
        let rest = hosts.drop_first();
        assert(hosts[0] == original);
        assert forall|i: int| 0 <= i < k - 1 implies #[trigger] rest[i] == original by {
            assert(rest[i] == hosts[i + 1]);
        }
        verifier_is_the_first_other_host(original, rest, k - 1);
    }
}

/// A name that comes again is passed over, and one that is new is put at the end.
pub proof fn repeated_names_are_passed_over(names: Seq<Seq<char>>, name: Seq<char>)
    ensures
        distinct_names(names.push(name)) == (if names.contains(name) {
            distinct_names(names)
        } else {
            distinct_names(names).push(name)
        }),
{
    distinct_names_are_distinct(names);
    assert(names.push(name).drop_last() =~= names);
}

/// The hosts that are selected are the first of the ranking, repeats aside, and as many as are asked
/// for where there are so many.
pub proof fn selection_is_the_head_of_the_ranking(candidates: Seq<Standing>, n: nat)
    ensures
        ({
            let ids = distinct_names(node_ids(ranking(candidates)));
            let chosen = selection(candidates, n);
            &&& chosen.len() == (if n < ids.len() {
                n
            } else {
                ids.len()
            })
            &&& forall|i: int| 0 <= i < chosen.len() ==> #[trigger] chosen[i] == ids[i]
        }),
{
}

/// A host is ranked under its own node id, with the work that it has delivered and the load and the
/// freshness that it advertises.
pub proof fn host_is_ranked_by_its_own_record(host: Advert, delivered_work: u64)
    ensures
        standing_of(host, delivered_work).node_id == host.node_id,
        standing_of(host, delivered_work).delivered_work == delivered_work,
        standing_of(host, delivered_work).running_jobs == host.running_jobs,
        standing_of(host, delivered_work).last_seen_secs == host.last_seen_secs,
{
}

/// What is known of a host is what its entry says: each tag, in its place, and every other field.
pub proof fn entry_is_read_whole(entry: AtlasEntry)
    ensures
        entry@.node_id == entry.node_id@,
        entry@.cpu_cores == entry.cpu_cores,
        entry@.mem_mb == entry.mem_mb,
        entry@.running_jobs == entry.running_jobs,
        entry@.last_seen_secs == entry.last_seen_secs,
        entry@.tags.len() == entry.tags@.len(),
        forall|i: int| 0 <= i < entry.tags@.len() ==> #[trigger] entry@.tags[i] == entry.tags@[i]@,
{
}

/// A candidate stands by its own fields.
pub proof fn candidate_is_read_whole(candidate: Candidate)
    ensures
        candidate@.node_id == candidate.node_id@,
        candidate@.delivered_work == candidate.delivered_work,
        candidate@.running_jobs == candidate.running_jobs,
        candidate@.last_seen_secs == candidate.last_seen_secs,
{
}

} // verus!
