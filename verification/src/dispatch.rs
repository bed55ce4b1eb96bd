//! Carrying out a plan: every shard is deployed on its host, then each shard to be checked is deployed
//! again on another one, and what came back is put together.
//!
//! A job's course is the log of the replies to its deployments, in the order in which these are made:
//! first one for each shard, then one for each check. A reply is an output, or nothing where the
//! deployment failed. The log so far decides what is deployed next, and the whole log decides the
//! manifest.

use crate::farm;
use crate::farm::{BidSpec, DeployParams, Layout, Plan, ShardOutcome, Terms};
use crate::fraction::Fraction;
use crate::manifest;
use crate::manifest::{Assembly, FrameEntry, FrameResult, ResultManifest};
use crate::number;
use crate::placement;
use crate::proto::Kind;
use crate::seqs;
use crate::shard;
use crate::shard::{FrameRange, Shard};
use crate::text;
use crate::verify;
use crate::verify::Verdict;
use vstd::prelude::*;

verus! {

/// What a deployment came back with: its output, or nothing where it failed.
pub type Reply = Option<Seq<char>>;

/// A deployment to be made.
#[derive(Debug, PartialEq, Eq)]
pub struct Deployment {
    pub host: String,
    pub spec: BidSpec,
}

/// A deployment to be made, with texts taken as character sequences.
#[verifier::ext_equal]
pub struct Errand {
    pub host: Seq<char>,
    pub terms: Terms,
}

impl View for Deployment {
    type V = Errand;

    open spec fn view(&self) -> Errand {
        Errand { host: self.host@, terms: self.spec@ }
    }
}

/// The last of the first `n` shards that is numbered `index` and was rendered.
pub open spec fn rendered_as(plan: Layout, renders: Seq<Reply>, index: u32, n: nat) -> Option<int>
    decreases n,
{
    if n == 0 {
        None
    } else if plan.shards[n - 1].index == index && renders[n - 1] is Some {
        Some(n - 1)
    } else {
        rendered_as(plan, renders, index, (n - 1) as nat)
    }
}

/// The shard whose output a check of shard `c` compares with, if it was rendered.
pub open spec fn first_render_of(plan: Layout, renders: Seq<Reply>, c: usize) -> Option<int> {
    rendered_as(plan, renders, c as u32, plan.shards.len())
}

/// The host that checks shard `c`: the first that did not render it. There is none where the shard
/// was not rendered or no other host is at hand.
pub open spec fn second_host_of(plan: Layout, renders: Seq<Reply>, c: usize) -> Option<Seq<char>> {
    match first_render_of(plan, renders, c) {
        Some(j) => placement::other_host(plan.assignment[j], plan.hosts),
        None => None,
    }
}

/// The shards that are checked, given what the shards' own deployments came back with.
pub open spec fn checks_of(plan: Layout, renders: Seq<Reply>) -> Seq<usize> {
    plan.canary.filter(|c: usize| second_host_of(plan, renders, c) is Some)
}

/// The replies to the shards' own deployments.
pub open spec fn renders_of(plan: Layout, log: Seq<Reply>) -> Seq<Reply> {
    log.take(plan.shards.len() as int)
}

/// The deployment that follows on `log`.
pub open spec fn next_of(plan: Layout, params: DeployParams, log: Seq<Reply>) -> Option<Errand> {
    let n = plan.shards.len() as int;
    if log.len() < n {
        let i = log.len() as int;
        Some(Errand { host: plan.assignment[i], terms: farm::terms_of(plan, i, params) })
    } else {
        let renders = renders_of(plan, log);
        let checks = checks_of(plan, renders);
        let k = log.len() - n;
        if k < checks.len() {
            let c = checks[k];
            Some(
                Errand {
                    host: second_host_of(plan, renders, c)->0,
                    terms: farm::terms_of(plan, c as int, params),
                },
            )
        } else {
            None
        }
    }
}

/// Whether `log` is a whole course: a reply for each shard and for each check.
pub open spec fn finished(plan: Layout, log: Seq<Reply>) -> bool {
    &&& log.len() >= plan.shards.len()
    &&& log.len() == plan.shards.len() + checks_of(plan, renders_of(plan, log)).len()
}

/// What the `k`th check says: nothing where it failed, else whether the two outputs agree.
pub open spec fn check_result(plan: Layout, log: Seq<Reply>, k: int) -> Option<bool> {
    let renders = renders_of(plan, log);
    let c = checks_of(plan, renders)[k];
    match log[plan.shards.len() + k] {
        Some(rerun) => {
            let original = renders[first_render_of(plan, renders, c)->0]->0;
            Some(verify::verdict_of(original, rerun) == Verdict::Agree)
        },
        None => None,
    }
}

/// What the last of the first `k` checks that says anything of `frame` says of it.
pub open spec fn mark_of(plan: Layout, log: Seq<Reply>, frame: u32, k: nat) -> Option<bool>
    decreases k,
{
    if k == 0 {
        None
    } else {
        let c = checks_of(plan, renders_of(plan, log))[k - 1];
        let said = check_result(plan, log, k - 1);
        if said is Some && c < plan.shards.len() && plan.shards[c as int].range.has(frame as int) {
            said
        } else {
            mark_of(plan, log, frame, (k - 1) as nat)
        }
    }
}

/// What the checks say of `frame`: what the last says that says anything of it.
pub open spec fn verified_of(plan: Layout, log: Seq<Reply>, frame: u32) -> Option<bool> {
    mark_of(plan, log, frame, checks_of(plan, renders_of(plan, log)).len())
}

/// Whether a reply brought an output.
pub open spec fn brings_output(reply: Reply) -> bool {
    match reply {
        Some(cid) => cid.len() > 0,
        None => false,
    }
}

/// What comes of frame `frame` of shard `j`, where the shard brought an output.
pub open spec fn entry_of(plan: Layout, log: Seq<Reply>, j: int, frame: u32) -> FrameEntry {
    FrameEntry {
        frame,
        host: plan.assignment[j],
        output_cid: log[j]->0,
        verified: verified_of(plan, log, frame),
    }
}

/// The results of the first `n` shards: each frame of a shard that brought an output has that output.
/// A shard that brought none has no results.
pub open spec fn results_of(plan: Layout, log: Seq<Reply>, n: nat) -> Seq<FrameEntry>
    decreases n,
{
    if n == 0 {
        Seq::empty()
    } else {
        let before = results_of(plan, log, (n - 1) as nat);
        if brings_output(log[n - 1]) {
            before + plan.shards[n - 1].range.frames().map_values(
                |f: u32| entry_of(plan, log, n - 1, f),
            )
        } else {
            before
        }
    }
}

/// The manifest that a whole course makes.
pub open spec fn outcome_of(plan: Layout, log: Seq<Reply>) -> Assembly {
    manifest::assembled(plan.range, results_of(plan, log, plan.shards.len()))
}

/// Whether a plan can be carried out whatever comes back: each shard has a host and a number of frames
/// that can be counted, and what is to be checked is a shard of the plan.
pub open spec fn runnable(plan: Layout) -> bool {
    &&& plan.assignment.len() >= plan.shards.len()
    &&& forall|j: int| 0 <= j < plan.shards.len() ==> (#[trigger] plan.shards[j]).range.countable()
    &&& forall|k: int, j: int|
        #![trigger plan.canary[k], plan.shards[j]]
        0 <= k < plan.canary.len() && 0 <= j < plan.shards.len() && plan.shards[j].index
            == plan.canary[k] as u32 && placement::other_host(plan.assignment[j], plan.hosts)
            is Some ==> plan.canary[k] < plan.shards.len()
}

proof fn lemma_rendered_as(plan: Layout, renders: Seq<Reply>, index: u32, n: nat)
    ensures
        match rendered_as(plan, renders, index, n) {
            Some(j) => {
                &&& 0 <= j < n
                &&& plan.shards[j].index == index
                &&& renders[j] is Some
            },
            None => forall|j: int|
                0 <= j < n ==> (#[trigger] plan.shards[j]).index != index || renders[j] is None,
        },
    decreases n,
{
    if n > 0 {
        lemma_rendered_as(plan, renders, index, (n - 1) as nat);
    }
}

/// A check is of a shard of the plan, which was rendered.
proof fn lemma_check(plan: Layout, renders: Seq<Reply>, k: int)
    requires
        runnable(plan),
        0 <= k < checks_of(plan, renders).len(),
    ensures
        ({
            let c = checks_of(plan, renders)[k];
            &&& c < plan.shards.len()
            &&& plan.canary.contains(c)
            &&& second_host_of(plan, renders, c) is Some
            &&& first_render_of(plan, renders, c) is Some
            &&& 0 <= first_render_of(plan, renders, c)->0 < plan.shards.len()
            &&& renders[first_render_of(plan, renders, c)->0] is Some
        }),
{
    broadcast use vstd::seq_lib::group_filter_ensures;

    let checks = checks_of(plan, renders);
    let c = checks[k];
    let keep = |c: usize| second_host_of(plan, renders, c) is Some;
    assert(keep(checks[k]));
    seqs::lemma_filter_in_order(plan.canary, keep, |a: usize, b: usize| true);
    assert(plan.canary.contains(c));
    lemma_rendered_as(plan, renders, c as u32, plan.shards.len());
    let i = choose|i: int| 0 <= i < plan.canary.len() && plan.canary[i] == c;
    let j = first_render_of(plan, renders, c)->0;
    assert(plan.shards[j].index == plan.canary[i] as u32);
}

/// The replies, with texts taken as character sequences.
pub open spec fn replies(log: Seq<Option<String>>) -> Seq<Reply> {
    log.map_values(|r: Option<String>| text::opt_string_view(r))
}

/// What the shard that a check of shard `c` compares with came back with, if it was rendered.
pub fn first_render(plan: &Plan, log: &Vec<Option<String>>, c: usize) -> (res: Option<ShardOutcome>)
    requires
        runnable(plan@),
        log@.len() >= plan.shards@.len(),
    ensures
        match first_render_of(plan@, renders_of(plan@, replies(log@)), c) {
            Some(j) => match res {
                Some(o) => {
                    &&& o.shard_index == plan.shards@[j].index
                    &&& o.host@ == plan@.assignment[j]
                    &&& Some(o.output_cid@) == replies(log@)[j]
                },
                None => false,
            },
            None => res is None,
        },
{
    let ghost renders = renders_of(plan@, replies(log@));
    let mut i: usize = plan.shards.len();
    while i > 0
        invariant
            i <= plan.shards@.len(),
            log@.len() >= plan.shards@.len(),
            runnable(plan@),
            renders == renders_of(plan@, replies(log@)),
            first_render_of(plan@, renders, c) == rendered_as(plan@, renders, c as u32, i as nat),
        decreases i,
    {
        let j: usize = i - 1;
        assert(renders[j as int] == text::opt_string_view(log@[j as int]));
        if plan.shards[j].index == c as u32 {
            if let Some(cid) = &log[j] {
                return Some(
                    ShardOutcome {
                        shard_index: plan.shards[j].index,
                        host: plan.assignment[j].clone(),
                        output_cid: cid.clone(),
                    },
                );
            }
        }
        i = j;
    }
    None
}

/// The host that checks shard `c`, if it can be checked.
pub fn second_host(plan: &Plan, log: &Vec<Option<String>>, c: usize) -> (res: Option<String>)
    requires
        runnable(plan@),
        log@.len() >= plan.shards@.len(),
    ensures
        text::opt_string_view(res) == second_host_of(plan@, renders_of(plan@, replies(log@)), c),
{
    match first_render(plan, log, c) {
        Some(o) => placement::verifier_for(o.host.as_str(), plan.hosts.as_slice()),
        None => None,
    }
}

/// The shards that are checked.
pub fn checks(plan: &Plan, log: &Vec<Option<String>>) -> (res: Vec<usize>)
    requires
        runnable(plan@),
        log@.len() >= plan.shards@.len(),
    ensures
        res@ == checks_of(plan@, renders_of(plan@, replies(log@))),
{
    let mut out: Vec<usize> = Vec::new();
    let mut i: usize = 0;
    let ghost renders = renders_of(plan@, replies(log@));
    let ghost keep = |c: usize| second_host_of(plan@, renders, c) is Some;
    let ghost all = plan.canary@;
    proof {
        reveal(Seq::filter);
        assert(out@ =~= all.take(0).filter(keep));
    }
    while i < plan.canary.len()
        invariant
            i <= plan.canary@.len(),
            log@.len() >= plan.shards@.len(),
            runnable(plan@),
            renders == renders_of(plan@, replies(log@)),
            keep == (|c: usize| second_host_of(plan@, renders, c) is Some),
            all == plan.canary@,
            out@ == all.take(i as int).filter(keep),
        decreases plan.canary@.len() - i,
    {
        proof {
            reveal(Seq::filter);
            assert(all.take(i + 1).drop_last() =~= all.take(i as int));
        }
        if second_host(plan, log, plan.canary[i]).is_some() {
            out.push(plan.canary[i]);
        }
        i = i + 1;
    }
    assert(all.take(all.len() as int) =~= all);
    out
}

/// A job under way.
pub struct Run<'a> {
    plan: &'a Plan,
    params: &'a DeployParams,
    log: Vec<Option<String>>,
    checks: Vec<usize>,
}

impl<'a> Run<'a> {
    /// The plan that is carried out.
    pub closed spec fn plan(&self) -> Layout {
        self.plan@
    }

    /// The resources and the bid of each deployment.
    pub closed spec fn params(&self) -> DeployParams {
        *self.params
    }

    /// The replies so far.
    pub closed spec fn log(&self) -> Seq<Reply> {
        replies(self.log@)
    }

    /// Whether the job's state is sound.
    pub closed spec fn wf(&self) -> bool {
        &&& runnable(self.plan@)
        &&& self.log@.len() >= self.plan.shards@.len() ==> {
            &&& self.checks@ == checks_of(self.plan@, renders_of(self.plan@, replies(self.log@)))
            &&& self.log@.len() <= self.plan.shards@.len() + self.checks@.len()
        }
    }

    /// A job of which nothing is deployed yet.
    pub fn start(plan: &'a Plan, params: &'a DeployParams) -> (res: Self)
        requires
            runnable(plan@),
        ensures
            res.wf(),
            res.plan() == plan@,
            res.params() == *params,
            res.log() == Seq::<Reply>::empty(),
    {
        let log: Vec<Option<String>> = Vec::new();
        assert(replies(log@) =~= Seq::<Reply>::empty());
        let checks: Vec<usize> = if plan.shards.len() == 0 {
            checks(plan, &log)
        } else {
            Vec::new()
        };
        Run { plan, params, log, checks }
    }

    /// The deployment to make now; `None` where the job is finished.
    pub fn next(&self) -> (res: Option<Deployment>)
        requires
            self.wf(),
        ensures
            match res {
                Some(d) => next_of(self.plan(), self.params(), self.log()) == Some(d@),
                None => next_of(self.plan(), self.params(), self.log()) is None && finished(
                    self.plan(),
                    self.log(),
                ),
            },
    {
        let total: usize = self.plan.shards.len();
        let at: usize = self.log.len();
        if at < total {
            return Some(
                Deployment {
                    host: self.plan.assignment[at].clone(),
                    spec: farm::shard_spec(self.plan, at, self.params),
                },
            );
        }
        let k: usize = at - total;
        if k < self.checks.len() {
            let c: usize = self.checks[k];
            proof {
                lemma_check(self.plan@, renders_of(self.plan@, self.log()), k as int);
                assert(self.plan@.shards[c as int].range.countable());
            }
            match second_host(self.plan, &self.log, c) {
                Some(host) => {
                    return Some(
                        Deployment { host, spec: farm::shard_spec(self.plan, c, self.params) },
                    );
                },
                None => {},
            }
        }
        None
    }

    /// Takes note of what the deployment to be made came back with.
    pub fn record(&mut self, reply: Option<String>)
        requires
            old(self).wf(),
            !finished(old(self).plan(), old(self).log()),
        ensures
            final(self).wf(),
            final(self).plan() == old(self).plan(),
            final(self).params() == old(self).params(),
            final(self).log() == old(self).log().push(text::opt_string_view(reply)),
    {
        let ghost before = replies(self.log@);
        let ghost total = self.plan.shards@.len() as int;
        self.log.push(reply);
        assert(replies(self.log@) =~= before.push(text::opt_string_view(reply)));
        if self.log.len() == self.plan.shards.len() {
            self.checks = checks(self.plan, &self.log);
        } else {
            assert(self.log@.len() > total ==> replies(self.log@).take(total) =~= before.take(
                total,
            ));
        }
    }

    /// What each check says.
    fn judgements(&self) -> (res: Vec<Option<bool>>)
        requires
            self.wf(),
            finished(self.plan(), self.log()),
        ensures
            res@.len() == self.checks@.len(),
            forall|k: int|
                0 <= k < res@.len() ==> #[trigger] res@[k] == check_result(
                    self.plan(),
                    self.log(),
                    k,
                ),
    {
        let total: usize = self.plan.shards.len();
        let length: usize = self.log.len();
        let mut out: Vec<Option<bool>> = Vec::new();
        let mut k: usize = 0;
        while k < self.checks.len()
            invariant
                self.wf(),
                finished(self.plan(), self.log()),
                total == self.plan.shards@.len(),
                length == self.log@.len(),
                k <= self.checks@.len(),
                out@.len() == k,
                forall|i: int|
                    0 <= i < k ==> #[trigger] out@[i] == check_result(self.plan(), self.log(), i),
            decreases self.checks@.len() - k,
        {
            let ghost renders = renders_of(self.plan@, self.log());
            proof {
                lemma_check(self.plan@, renders, k as int);
            }
            let said: Option<bool> = match &self.log[total + k] {
                Some(rerun) => {
                    assert(self.log()[total + k] == Some(rerun@));
                    match first_render(self.plan, &self.log, self.checks[k]) {
                        Some(o) => {
                            let verdict: Verdict = verify::agrees(
                                o.output_cid.as_str(),
                                rerun.as_str(),
                            );
                            Some(verdict == Verdict::Agree)
                        },
                        None => None,
                    }
                },
                None => None,
            };
            assert(said == check_result(self.plan(), self.log(), k as int));
            out.push(said);
            k = k + 1;
        }
        out
    }

    /// What the checks say of `frame`.
    fn verified(&self, judgements: &Vec<Option<bool>>, frame: u32) -> (res: Option<bool>)
        requires
            self.wf(),
            finished(self.plan(), self.log()),
            judgements@.len() == self.checks@.len(),
            forall|k: int|
                0 <= k < judgements@.len() ==> #[trigger] judgements@[k] == check_result(
                    self.plan(),
                    self.log(),
                    k,
                ),
        ensures
            res == verified_of(self.plan(), self.log(), frame),
    {
        let mut k: usize = self.checks.len();
        while k > 0
            invariant
                self.wf(),
                finished(self.plan(), self.log()),
                k <= self.checks@.len(),
                judgements@.len() == self.checks@.len(),
                forall|i: int|
                    0 <= i < judgements@.len() ==> #[trigger] judgements@[i] == check_result(
                        self.plan(),
                        self.log(),
                        i,
                    ),
                verified_of(self.plan(), self.log(), frame) == mark_of(
                    self.plan(),
                    self.log(),
                    frame,
                    k as nat,
                ),
            decreases k,
        {
            let i: usize = k - 1;
            let c: usize = self.checks[i];
            assert(judgements@[i as int] == check_result(self.plan(), self.log(), i as int));
            if judgements[i].is_some() && c < self.plan.shards.len() {
                let range: FrameRange = self.plan.shards[c].range;
                if range.start <= frame && frame <= range.end {
                    return judgements[i];
                }
            }
            k = i;
        }
        None
    }

    /// The manifest of the finished job.
    pub fn finish(&self) -> (res: ResultManifest)
        requires
            self.wf(),
            finished(self.plan(), self.log()),
        ensures
            res@ == outcome_of(self.plan(), self.log()),
    {
        let judgements: Vec<Option<bool>> = self.judgements();
        let ghost plan = self.plan();
        let ghost log = self.log();
        let mut results: Vec<FrameResult> = Vec::new();
        let mut i: usize = 0;
        assert(manifest::entries(results@) =~= Seq::<FrameEntry>::empty());
        while i < self.plan.shards.len()
            invariant
                self.wf(),
                plan == self.plan(),
                log == self.log(),
                finished(plan, log),
                judgements@.len() == self.checks@.len(),
                forall|k: int|
                    0 <= k < judgements@.len() ==> #[trigger] judgements@[k] == check_result(
                        plan,
                        log,
                        k,
                    ),
                i <= self.plan.shards@.len(),
                manifest::entries(results@) == results_of(plan, log, i as nat),
            decreases self.plan.shards@.len() - i,
        {
            assert(log[i as int] == text::opt_string_view(self.log@[i as int]));
            if let Some(cid) = &self.log[i] {
                if !cid.as_str().is_empty() {
                    let range: FrameRange = self.plan.shards[i].range;
                    let ghost before = manifest::entries(results@);
                    let ghost entry = |f: u32| entry_of(plan, log, i as int, f);
                    let mut next: u64 = range.start as u64;
                    assert(before + range.frames().take(0).map_values(entry) =~= before);
                    while next <= range.end as u64
                        invariant
                            self.wf(),
                            plan == self.plan(),
                            log == self.log(),
                            finished(plan, log),
                            judgements@.len() == self.checks@.len(),
                            forall|k: int|
                                0 <= k < judgements@.len() ==> #[trigger] judgements@[k]
                                    == check_result(plan, log, k),
                            i < self.plan.shards@.len(),
                            log[i as int] == Some(cid@),
                            range == self.plan.shards@[i as int].range,
                            range.start <= next,
                            range.start <= range.end ==> next <= range.end + 1,
                            range.start > range.end ==> next == range.start,
                            entry == (|f: u32| entry_of(plan, log, i as int, f)),
                            manifest::entries(results@) == before + range.frames().take(
                                next - range.start,
                            ).map_values(entry),
                        decreases range.end + 1 - next,
                    {
                        let frame: u32 = next as u32;
                        let ghost so_far = manifest::entries(results@);
                        let ghost k = next - range.start;
                        results.push(
                            FrameResult {
                                frame,
                                host: self.plan.assignment[i].clone(),
                                output_cid: cid.clone(),
                                verified: self.verified(&judgements, frame),
                            },
                        );
                        proof {
                            assert(results@.last()@ == entry(frame));
                            assert(manifest::entries(results@) =~= so_far.push(entry(frame)));
                            assert(range.frames()[k] == frame);
                            assert(range.frames().take(k + 1).map_values(entry)
                                =~= range.frames().take(k).map_values(entry).push(entry(frame)));
                            assert(manifest::entries(results@) =~= before + range.frames().take(
                                k + 1,
                            ).map_values(entry));
                        }
                        next = next + 1;
                    }
                    assert(range.frames().take(range.size() as int) =~= range.frames());
                }
            }
            i = i + 1;
        }
        ResultManifest::assemble(self.plan.range, results.as_slice())
    }
}

/// One call of a deployer: what it was handed, and what it came back with.
#[verifier::ext_equal]
pub struct Call {
    pub errand: Errand,
    pub grant: Option<Seq<char>>,
    pub reply: Reply,
}

/// What an answer is as a reply: its output, or nothing where it says why there is none.
pub open spec fn reply_of(answer: Result<String, String>) -> Reply {
    match answer {
        Ok(cid) => Some(cid@),
        Err(_) => None,
    }
}

/// Something that places a shard's render on a host.
pub trait Deployer: Sized {
    /// Whether deployers of this kind keep a book of the calls made of them.
    open spec fn keeps_book() -> bool {
        false
    }

    /// The calls that were made of the deployer so far, where it keeps a book of them.
    open spec fn book(&self) -> Seq<Call> {
        Seq::empty()
    }

    /// Deploys `spec` on `host` and waits for its output, which is empty where the host produced none.
    /// `grant` is the capability chain that the host is shown. The error says why the deployment
    /// failed. A deployer that keeps a book enters this one call in it.
    fn deploy(&mut self, host: &str, spec: &BidSpec, grant: Option<&str>) -> (res: Result<
        String,
        String,
    >)
        ensures
            Self::keeps_book() ==> final(self).book() == old(self).book().push(
                Call {
                    errand: Errand { host: host@, terms: spec@ },
                    grant: text::opt_view(grant),
                    reply: reply_of(res),
                },
            ),
    ;
}

/// The calls that a course makes: for each reply of `log` the deployment that was due, once, with the
/// grant.
pub open spec fn calls_of(
    plan: Layout,
    params: DeployParams,
    grant: Option<Seq<char>>,
    log: Seq<Reply>,
) -> Seq<Call> {
    Seq::new(
        log.len(),
        |k: int|
            Call { errand: next_of(plan, params, log.take(k))->0, grant, reply: log[k] },
    )
}

/// Carries out a plan: deploys every shard on its host, renders the shards to be checked again on
/// another host, compares, and assembles the manifest. A shard whose deployment fails, or brings no
/// output, leaves its frames missing. Each deployment that is due is made once, in turn, and no other
/// is made: a deployer that keeps a book of its calls has these added to it and nothing else.
pub fn run<D: Deployer>(
    deployer: &mut D,
    plan: &Plan,
    params: &DeployParams,
    grant: Option<&str>,
) -> (res: ResultManifest)
    requires
        runnable(plan@),
    ensures
        exists|log: Seq<Reply>|
            {
                &&& #[trigger] finished(plan@, log)
                &&& res@ == outcome_of(plan@, log)
                &&& D::keeps_book() ==> final(deployer).book() == old(deployer).book() + calls_of(
                    plan@,
                    *params,
                    text::opt_view(grant),
                    log,
                )
            },
{
    let ghost shown = text::opt_view(grant);
    let ghost book = deployer.book();
    let mut job: Run = Run::start(plan, params);
    assert(book + calls_of(plan@, *params, shown, job.log()) =~= book);
    loop
        invariant
            job.wf(),
            job.plan() == plan@,
            job.params() == *params,
            book == old(deployer).book(),
            shown == text::opt_view(grant),
            D::keeps_book() ==> deployer.book() == book + calls_of(
                plan@,
                *params,
                shown,
                job.log(),
            ),
        decreases plan@.shards.len() + plan@.canary.len() - job.log().len(),
    {
        let ghost before = job.log();
        match job.next() {
            Some(d) => {
                let answer: Result<String, String> = deployer.deploy(
                    d.host.as_str(),
                    &d.spec,
                    grant,
                );
                proof {
                    let renders = renders_of(plan@, before);
                    seqs::lemma_filter_len(
                        plan@.canary,
                        |c: usize| second_host_of(plan@, renders, c) is Some,
                    );
                }
                let ghost call = Call { errand: d@, grant: shown, reply: reply_of(answer) };
                let reply: Option<String> = match answer {
                    Ok(cid) => Some(cid),
                    Err(_) => None,
                };
                job.record(reply);
                proof {
                    let log = job.log();
                    let made = calls_of(plan@, *params, shown, log);
                    let earlier = calls_of(plan@, *params, shown, before);
                    assert forall|k: int| 0 <= k < log.len() implies made[k] == earlier.push(
                        call,
                    )[k] by {
                        if k < before.len() {
                            assert(log.take(k) =~= before.take(k));
                        } else {
                            assert(log.take(k) =~= before);
                        }
                    }
                    assert(book + made =~= (book + earlier).push(call));
                }
            },
            None => {
                return job.finish();
            },
        }
    }
}

/// Whether a plan is one that [`Plan::build`] makes of a range and a shard size, the hosts aside: its
/// shards are those of the range, each has a host, and those to be checked are ascending shards of the
/// plan.
pub open spec fn orderly(plan: Layout, shard_size: u32) -> bool {
    &&& shard::shard_total(plan.range, shard_size) <= u32::MAX
    &&& plan.shards == shard::shards_of(plan.range, shard_size)
    &&& plan.assignment.len() == plan.shards.len()
    &&& forall|i: int| 0 <= i < plan.canary.len() ==> #[trigger] plan.canary[i] < plan.shards.len()
    &&& forall|i: int, j: int|
        0 <= i < j < plan.canary.len() ==> #[trigger] plan.canary[i] < #[trigger] plan.canary[j]
}

/// A plan that was built can be carried out, and its assignment goes round the hosts.
pub proof fn built_plan_is_orderly(
    range: FrameRange,
    shard_size: u32,
    hosts: Seq<Seq<char>>,
    pct: Fraction,
    beacon: Seq<char>,
    kind: Kind,
    image: Seq<char>,
    args: Seq<Seq<char>>,
)
    requires
        hosts.len() > 0,
        shard::shard_total(range, shard_size) <= u32::MAX,
    ensures
        match farm::planned(range, shard_size, hosts, pct, beacon, kind, image, args) {
            Ok(plan) => {
                &&& orderly(plan, shard_size)
                &&& runnable(plan)
                &&& forall|i: int|
                    0 <= i < plan.shards.len() ==> #[trigger] plan.assignment[i] == hosts[i
                        % hosts.len() as int]
            },
            Err(_) => false,
        },
{
    let total = shard::shard_total(range, shard_size);
    let plan = farm::planned(
        range,
        shard_size,
        hosts,
        pct,
        beacon,
        kind,
        image,
        args,
    )->Ok_0;
    verify::canaries_are_ascending(
        verify::keys_of(beacon, total),
        verify::wanted(total, pct),
    );
    orderly_plan_is_runnable(plan, shard_size);
}

/// An orderly plan can be carried out.
pub proof fn orderly_plan_is_runnable(plan: Layout, shard_size: u32)
    requires
        orderly(plan, shard_size),
    ensures
        runnable(plan),
{
    shard::shards_hold_at_most_the_size(plan.range, shard_size);
    assert forall|j: int| 0 <= j < plan.shards.len() implies (
    #[trigger] plan.shards[j]).range.countable() by {
        assert(shard::shards_of(plan.range, shard_size)[j].range.size() <= u32::MAX);
    }
}

proof fn lemma_first_render(plan: Layout, shard_size: u32, renders: Seq<Reply>, c: usize)
    requires
        orderly(plan, shard_size),
        c < plan.shards.len(),
    ensures
        first_render_of(plan, renders, c) == (if renders[c as int] is Some {
            Some(c as int)
        } else {
            None
        }),
{
    lemma_rendered_as(plan, renders, c as u32, plan.shards.len());
    assert forall|j: int| 0 <= j < plan.shards.len() implies (#[trigger] plan.shards[j]).index
        == j by {}
    assert(plan.shards[c as int].index == c as u32);
}

/// The checks of an orderly plan are distinct shards of it that were rendered.
proof fn lemma_checks(plan: Layout, shard_size: u32, renders: Seq<Reply>)
    requires
        orderly(plan, shard_size),
    ensures
        forall|a: int, b: int|
            0 <= a < b < checks_of(plan, renders).len() ==> #[trigger] checks_of(plan, renders)[a]
                < #[trigger] checks_of(plan, renders)[b],
        forall|k: int|
            0 <= k < checks_of(plan, renders).len() ==> {
                let c = #[trigger] checks_of(plan, renders)[k];
                &&& c < plan.shards.len()
                &&& renders[c as int] is Some
                &&& first_render_of(plan, renders, c) == Some(c as int)
                &&& second_host_of(plan, renders, c) is Some
            },
{
    let checks = checks_of(plan, renders);
    let keep = |c: usize| second_host_of(plan, renders, c) is Some;
    let less = |a: usize, b: usize| a < b;
    orderly_plan_is_runnable(plan, shard_size);
    seqs::lemma_filter_in_order(plan.canary, keep, less);
    assert forall|a: int, b: int| 0 <= a < b < checks.len() implies #[trigger] checks[a]
        < #[trigger] checks[b] by {
        assert(less(checks[a], checks[b]));
    }
    assert forall|k: int| 0 <= k < checks.len() implies {
        let c = #[trigger] checks[k];
        &&& c < plan.shards.len()
        &&& renders[c as int] is Some
        &&& first_render_of(plan, renders, c) == Some(c as int)
        &&& second_host_of(plan, renders, c) is Some
    } by {
        lemma_check(plan, renders, k);
        lemma_first_render(plan, shard_size, renders, checks[k]);
    }
}

proof fn lemma_mark(
    plan: Layout,
    shard_size: u32,
    log: Seq<Reply>,
    frame: u32,
    i: int,
    k: nat,
)
    requires
        orderly(plan, shard_size),
        0 <= i < plan.shards.len(),
        plan.shards[i].range.has(frame as int),
        k <= checks_of(plan, renders_of(plan, log)).len(),
    ensures
        (forall|p: int|
            0 <= p < k ==> #[trigger] checks_of(plan, renders_of(plan, log))[p] != i) ==> mark_of(
            plan,
            log,
            frame,
            k,
        ) is None,
        forall|p: int|
            0 <= p < k && #[trigger] checks_of(plan, renders_of(plan, log))[p] == i ==> mark_of(
                plan,
                log,
                frame,
                k,
            ) == check_result(plan, log, p),
    decreases k,
{
    if k > 0 {
        let renders = renders_of(plan, log);
        let checks = checks_of(plan, renders);
        lemma_mark(plan, shard_size, log, frame, i, (k - 1) as nat);
        lemma_checks(plan, shard_size, renders);
        shard::each_frame_is_in_one_shard(plan.range, shard_size, frame as int);
        let c = checks[k - 1];
        if c == i {
            assert forall|p: int| 0 <= p < k - 1 implies #[trigger] checks[p] != i by {
                assert(checks[p] < checks[k - 1]);
            }
        } else {
            assert(!plan.shards[c as int].range.has(frame as int));
        }
    }
}

proof fn lemma_latest_result(
    plan: Layout,
    shard_size: u32,
    log: Seq<Reply>,
    frame: u32,
    i: int,
    n: nat,
)
    requires
        orderly(plan, shard_size),
        0 <= i < plan.shards.len(),
        plan.shards[i].range.has(frame as int),
        n <= plan.shards.len(),
    ensures
        manifest::latest(results_of(plan, log, n), frame) == (if i < n && brings_output(log[i]) {
            Some(entry_of(plan, log, i, frame))
        } else {
            None
        }),
    decreases n,
{
    if n > 0 {
        lemma_latest_result(plan, shard_size, log, frame, i, (n - 1) as nat);
        if brings_output(log[n - 1]) {
            let before = results_of(plan, log, (n - 1) as nat);
            let frames = plan.shards[n - 1].range.frames();
            let entry = |f: u32| entry_of(plan, log, n - 1, f);
            let part = frames.map_values(entry);
            manifest::lemma_latest_concat(before, part, frame);
            manifest::lemma_latest_frame(part, frame);
            shard::each_frame_is_in_one_shard(plan.range, shard_size, frame as int);
            if n - 1 == i {
                let at = frame - plan.shards[i].range.start;
                assert(part[at].frame == frame);
                let e = manifest::latest(part, frame)->0;
                let x = choose|x: int| 0 <= x < part.len() && part[x] == e;
                assert(e == entry(frames[x]));
            } else {
                assert forall|x: int| 0 <= x < part.len() implies (#[trigger] part[x]).frame
                    != frame by {
                    assert(plan.shards[n - 1].range.has(frames[x] as int));
                }
            }
        }
    }
}

/// What becomes of a frame is decided by its shard alone: it has the shard's host and output where
/// the shard brought one, and it has none otherwise. It is marked with what the shard's check says,
/// and not at all where the shard is not checked.
pub proof fn frame_follows_its_shard(
    plan: Layout,
    shard_size: u32,
    log: Seq<Reply>,
    frame: u32,
    i: int,
)
    requires
        orderly(plan, shard_size),
        finished(plan, log),
        0 <= i < plan.shards.len(),
        plan.shards[i].range.has(frame as int),
    ensures
        ({
            let checks = checks_of(plan, renders_of(plan, log));
            let last = manifest::latest(results_of(plan, log, plan.shards.len()), frame);
            &&& last is Some <==> brings_output(log[i])
            &&& last is Some ==> {
                &&& last->0.frame == frame
                &&& last->0.host == plan.assignment[i]
                &&& Some(last->0.output_cid) == log[i]
                &&& last->0.verified == verified_of(plan, log, frame)
            }
            &&& forall|k: int|
                0 <= k < checks.len() && #[trigger] checks[k] == i ==> verified_of(plan, log, frame)
                    == check_result(plan, log, k)
            &&& (forall|k: int| 0 <= k < checks.len() ==> #[trigger] checks[k] != i) ==> verified_of(
                plan,
                log,
                frame,
            ) is None
        }),
{
    let checks = checks_of(plan, renders_of(plan, log));
    lemma_latest_result(plan, shard_size, log, frame, i, plan.shards.len());
    lemma_mark(plan, shard_size, log, frame, i, checks.len());
}

/// The frames of a shard whose deployment failed or brought no output are missing from the manifest;
/// the frames of any other shard are among its outputs, with the shard's host and output.
pub proof fn failed_shard_leaves_frames_missing(
    plan: Layout,
    shard_size: u32,
    log: Seq<Reply>,
    frame: u32,
    i: int,
)
    requires
        orderly(plan, shard_size),
        finished(plan, log),
        0 <= i < plan.shards.len(),
        plan.shards[i].range.has(frame as int),
    ensures
        outcome_of(plan, log).missing.contains(frame) <==> !brings_output(log[i]),
        brings_output(log[i]) ==> outcome_of(plan, log).outputs.contains(
            entry_of(plan, log, i, frame),
        ),
{
    let results = results_of(plan, log, plan.shards.len());
    lemma_latest_result(plan, shard_size, log, frame, i, plan.shards.len());
    shard::each_frame_is_in_one_shard(plan.range, shard_size, frame as int);
    manifest::every_frame_is_accounted_for(plan.range, results, frame);
}

/// A frame is listed as diverged exactly when its shard brought an output and the check of that shard
/// found another one.
pub proof fn diverged_shard_is_flagged(
    plan: Layout,
    shard_size: u32,
    log: Seq<Reply>,
    frame: u32,
    i: int,
)
    requires
        orderly(plan, shard_size),
        finished(plan, log),
        0 <= i < plan.shards.len(),
        plan.shards[i].range.has(frame as int),
    ensures
        ({
            let checks = checks_of(plan, renders_of(plan, log));
            outcome_of(plan, log).diverged.contains(frame) <==> brings_output(log[i]) && exists|
                k: int,
            |
                0 <= k < checks.len() && #[trigger] checks[k] == i && check_result(plan, log, k)
                    == Some(false)
        }),
{
    let results = results_of(plan, log, plan.shards.len());
    let checks = checks_of(plan, renders_of(plan, log));
    frame_follows_its_shard(plan, shard_size, log, frame, i);
    shard::each_frame_is_in_one_shard(plan.range, shard_size, frame as int);
    manifest::every_frame_is_accounted_for(plan.range, results, frame);
    if exists|k: int| 0 <= k < checks.len() && #[trigger] checks[k] == i {
        let k = choose|k: int| 0 <= k < checks.len() && #[trigger] checks[k] == i;
        assert(verified_of(plan, log, frame) == check_result(plan, log, k));
    }
}

/// What a check says: that the outputs agree exactly when the second host brought the very output
/// that the first one did, and it was not empty.
pub proof fn check_compares_outputs(plan: Layout, shard_size: u32, log: Seq<Reply>, k: int)
    requires
        orderly(plan, shard_size),
        finished(plan, log),
        0 <= k < checks_of(plan, renders_of(plan, log)).len(),
    ensures
        ({
            let c = checks_of(plan, renders_of(plan, log))[k] as int;
            let rerun = log[plan.shards.len() + k];
            check_result(plan, log, k) == (match rerun {
                None => None,
                Some(_) => Some(rerun == log[c] && brings_output(rerun)),
            })
        }),
{
    let renders = renders_of(plan, log);
    lemma_checks(plan, shard_size, renders);
    let c = checks_of(plan, renders)[k];
    assert(renders[c as int] == log[c as int]);
}

/// The job is complete exactly when every shard brought an output and no check found another one.
pub proof fn complete_job(plan: Layout, shard_size: u32, log: Seq<Reply>)
    requires
        orderly(plan, shard_size),
        finished(plan, log),
    ensures
        outcome_of(plan, log).complete() <==> {
            &&& forall|i: int| 0 <= i < plan.shards.len() ==> brings_output(#[trigger] log[i])
            &&& forall|k: int|
                0 <= k < checks_of(plan, renders_of(plan, log)).len() ==> #[trigger] check_result(
                    plan,
                    log,
                    k,
                ) != Some(false)
        },
{
    let results = results_of(plan, log, plan.shards.len());
    let checks = checks_of(plan, renders_of(plan, log));
    manifest::complete_means_every_frame(plan.range, results);
    lemma_checks(plan, shard_size, renders_of(plan, log));
    shard::shards_hold_at_most_the_size(plan.range, shard_size);
    if outcome_of(plan, log).complete() {
        assert forall|i: int| 0 <= i < plan.shards.len() implies brings_output(
            #[trigger] log[i],
        ) by {
            let frame = plan.shards[i].range.start;
            assert(plan.shards[i].range.size() > 0);
            frame_follows_its_shard(plan, shard_size, log, frame, i);
            shard::each_frame_is_in_one_shard(plan.range, shard_size, frame as int);
            assert(manifest::latest(results, frame) is Some);
        }
        assert forall|k: int| 0 <= k < checks.len() implies #[trigger] check_result(plan, log, k)
            != Some(false) by {
            let i = checks[k] as int;
            let frame = plan.shards[i].range.start;
            assert(plan.shards[i].range.size() > 0);
            frame_follows_its_shard(plan, shard_size, log, frame, i);
            shard::each_frame_is_in_one_shard(plan.range, shard_size, frame as int);
            assert(manifest::latest(results, frame) is Some);
            assert(!manifest::diverges(results, frame));
        }
    }
    if (forall|i: int| 0 <= i < plan.shards.len() ==> brings_output(#[trigger] log[i])) && (forall|
        k: int,
    |
        0 <= k < checks.len() ==> #[trigger] check_result(plan, log, k) != Some(false)) {
        assert forall|f: u32| plan.range.has(f as int) implies (#[trigger] manifest::latest(
            results,
            f,
        )) is Some && !manifest::diverges(results, f) by {
            shard::each_frame_is_in_one_shard(plan.range, shard_size, f as int);
            let i = choose|i: int|
                0 <= i < plan.shards.len() && (#[trigger] plan.shards[i]).range.has(f as int);
            frame_follows_its_shard(plan, shard_size, log, f, i);
            assert(brings_output(log[i]));
            if exists|k: int| 0 <= k < checks.len() && #[trigger] checks[k] == i {
                let k = choose|k: int| 0 <= k < checks.len() && #[trigger] checks[k] == i;
                assert(check_result(plan, log, k) != Some(false));
            }
        }
    }
}

/// A job whose shards all bring an output, and whose checks each bring the output that they check or
/// fail, is complete.
pub proof fn honest_job_is_complete(plan: Layout, shard_size: u32, log: Seq<Reply>)
    requires
        orderly(plan, shard_size),
        finished(plan, log),
        forall|i: int| 0 <= i < plan.shards.len() ==> brings_output(#[trigger] log[i]),
        forall|k: int|
            #![trigger checks_of(plan, renders_of(plan, log))[k]]
            0 <= k < checks_of(plan, renders_of(plan, log)).len() ==> {
                let c = checks_of(plan, renders_of(plan, log))[k] as int;
                let rerun = log[plan.shards.len() + k];
                rerun is None || rerun == log[c]
            },
    ensures
        outcome_of(plan, log).complete(),
{
    let checks = checks_of(plan, renders_of(plan, log));
    assert forall|k: int| 0 <= k < checks.len() implies #[trigger] check_result(plan, log, k)
        != Some(false) by {
        check_compares_outputs(plan, shard_size, log, k);
        lemma_checks(plan, shard_size, renders_of(plan, log));
        assert(brings_output(log[checks[k] as int]));
    }
    complete_job(plan, shard_size, log);
}

/// A shard that brought an output, and of which the checking host brings another one, is caught: all
/// its frames are listed as diverged, and the job is not complete.
pub proof fn differing_output_is_caught(plan: Layout, shard_size: u32, log: Seq<Reply>, k: int)
    requires
        orderly(plan, shard_size),
        finished(plan, log),
        0 <= k < checks_of(plan, renders_of(plan, log)).len(),
        log[plan.shards.len() + k] is Some,
        ({
            let c = checks_of(plan, renders_of(plan, log))[k] as int;
            brings_output(log[c]) && log[plan.shards.len() + k] != log[c]
        }),
    ensures
        ({
            let c = checks_of(plan, renders_of(plan, log))[k] as int;
            &&& !outcome_of(plan, log).complete()
            &&& forall|f: u32|
                plan.shards[c].range.has(f as int) ==> #[trigger] outcome_of(
                    plan,
                    log,
                ).diverged.contains(f)
        }),
{
    let checks = checks_of(plan, renders_of(plan, log));
    let c = checks[k] as int;
    check_compares_outputs(plan, shard_size, log, k);
    lemma_checks(plan, shard_size, renders_of(plan, log));
    complete_job(plan, shard_size, log);
    assert(check_result(plan, log, k) == Some(false));
    assert forall|f: u32| plan.shards[c].range.has(f as int) implies #[trigger] outcome_of(
        plan,
        log,
    ).diverged.contains(f) by {
        diverged_shard_is_flagged(plan, shard_size, log, f, c);
        assert(checks[k] == c);
    }
}

/// A check goes to one of the job's hosts, and never to the host whose output it checks.
pub proof fn check_goes_to_another_host(
    plan: Layout,
    shard_size: u32,
    params: DeployParams,
    log: Seq<Reply>,
)
    requires
        orderly(plan, shard_size),
        log.len() >= plan.shards.len(),
    ensures
        match next_of(plan, params, log) {
            Some(errand) => {
                let c = checks_of(plan, renders_of(plan, log))[log.len() - plan.shards.len()] as int;
                &&& errand.host != plan.assignment[c]
                &&& plan.hosts.contains(errand.host)
                &&& errand.terms == farm::terms_of(plan, c, params)
            },
            None => true,
        },
{
    let renders = renders_of(plan, log);
    let checks = checks_of(plan, renders);
    let k = log.len() - plan.shards.len();
    if k < checks.len() {
        lemma_checks(plan, shard_size, renders);
        let c = checks[k];
        placement::verifier_is_another_host(plan.assignment[c as int], plan.hosts);
    }
}

/// A shard to be checked is checked exactly when it was rendered and a host other than its own is at
/// hand.
pub proof fn canary_is_checked(plan: Layout, shard_size: u32, log: Seq<Reply>, c: usize)
    requires
        orderly(plan, shard_size),
        log.len() >= plan.shards.len(),
        plan.canary.contains(c),
    ensures
        checks_of(plan, renders_of(plan, log)).contains(c) <==> log[c as int] is Some && exists|
            h: int,
        |
            0 <= h < plan.hosts.len() && #[trigger] plan.hosts[h] != plan.assignment[c as int],
{
    broadcast use vstd::seq_lib::group_filter_ensures;

    let renders = renders_of(plan, log);
    let checks = checks_of(plan, renders);
    let keep = |c: usize| second_host_of(plan, renders, c) is Some;
    let i = choose|i: int| 0 <= i < plan.canary.len() && plan.canary[i] == c;
    assert(renders[c as int] == log[c as int]);
    lemma_first_render(plan, shard_size, renders, c);
    placement::verifier_is_another_host(plan.assignment[c as int], plan.hosts);
    if keep(plan.canary[i]) {
        assert(checks.contains(plan.canary[i]));
    }
    if checks.contains(c) {
        let k = choose|k: int| 0 <= k < checks.len() && checks[k] == c;
        assert(keep(checks[k]));
    }
    if let Some(v) = placement::other_host(plan.assignment[c as int], plan.hosts) {
        let h = choose|h: int| 0 <= h < plan.hosts.len() && plan.hosts[h] == v;
        assert(plan.hosts[h] != plan.assignment[c as int]);
    }
}

/// The calls of a whole course, one by one: first each shard's own, on its host, whatever the others
/// came back with; then, for each check in turn, one on the host that checks it.
pub proof fn calls_follow_the_plan(
    plan: Layout,
    params: DeployParams,
    grant: Option<Seq<char>>,
    log: Seq<Reply>,
)
    requires
        finished(plan, log),
    ensures
        ({
            let n = plan.shards.len() as int;
            let renders = renders_of(plan, log);
            let checks = checks_of(plan, renders);
            let calls = calls_of(plan, params, grant, log);
            &&& calls.len() == n + checks.len()
            &&& forall|i: int|
                0 <= i < n ==> (#[trigger] calls[i]).errand == (Errand {
                    host: plan.assignment[i],
                    terms: farm::terms_of(plan, i, params),
                })
            &&& forall|k: int|
                #![trigger checks[k]]
                0 <= k < checks.len() ==> calls[n + k].errand == (Errand {
                    host: second_host_of(plan, renders, checks[k])->0,
                    terms: farm::terms_of(plan, checks[k] as int, params),
                })
            &&& forall|k: int|
                0 <= k < calls.len() ==> (#[trigger] calls[k]).grant == grant && calls[k].reply
                    == log[k]
        }),
{
    let n = plan.shards.len() as int;
    let renders = renders_of(plan, log);
    let checks = checks_of(plan, renders);
    let calls = calls_of(plan, params, grant, log);
    assert forall|k: int| #![trigger checks[k]] 0 <= k < checks.len() implies calls[n + k].errand
        == (Errand {
        host: second_host_of(plan, renders, checks[k])->0,
        terms: farm::terms_of(plan, checks[k] as int, params),
    }) by {
        assert(renders_of(plan, log.take(n + k)) =~= renders);
    }
}

/// A job makes one deployment for each shard and at most one for each shard to be checked.
pub proof fn deployments_are_bounded(plan: Layout, log: Seq<Reply>)
    requires
        finished(plan, log),
    ensures
        plan.shards.len() <= log.len() <= plan.shards.len() + plan.canary.len(),
{
    let renders = renders_of(plan, log);
    seqs::lemma_filter_len(plan.canary, |c: usize| second_host_of(plan, renders, c) is Some);
}

proof fn lemma_results_bring_output(plan: Layout, log: Seq<Reply>, n: nat)
    ensures
        forall|x: int|
            0 <= x < results_of(plan, log, n).len() ==> (#[trigger] results_of(
                plan,
                log,
                n,
            )[x]).output_cid.len() > 0,
    decreases n,
{
    if n > 0 {
        lemma_results_bring_output(plan, log, (n - 1) as nat);
    }
}

/// No output of a manifest is empty: a frame whose host produced nothing is missing, not collected.
pub proof fn outputs_are_never_empty(plan: Layout, log: Seq<Reply>)
    ensures
        forall|x: int|
            0 <= x < outcome_of(plan, log).outputs.len() ==> (#[trigger] outcome_of(
                plan,
                log,
            ).outputs[x]).output_cid.len() > 0,
{
    let results = results_of(plan, log, plan.shards.len());
    let m = outcome_of(plan, log);
    lemma_results_bring_output(plan, log, plan.shards.len());
    assert forall|x: int| 0 <= x < m.outputs.len() implies (
    #[trigger] m.outputs[x]).output_cid.len() > 0 by {
        let frame = m.outputs[x].frame;
        manifest::every_frame_is_accounted_for(plan.range, results, frame);
        manifest::lemma_latest_frame(results, frame);
        assert(results.contains(m.outputs[x]));
    }
}

/// The sum of the bids of the first `n` shards.
pub open spec fn bids_sum(plan: Layout, params: DeployParams, n: nat) -> int
    decreases n,
{
    if n == 0 {
        0
    } else {
        bids_sum(plan, params, (n - 1) as nat) + farm::terms_of(plan, n - 1, params).bid
    }
}

proof fn lemma_bids_sum(plan: Layout, params: DeployParams, n: nat)
    requires
        n <= plan.shards.len(),
        forall|i: int|
            0 <= i < plan.shards.len() ==> i128::MIN <= params.bid_per_frame.value() * (
            #[trigger] plan.shards[i]).range.size() <= i128::MAX,
    ensures
        bids_sum(plan, params, n) == params.bid_per_frame.value() * shard::sizes_sum(
            plan.shards.take(n as int),
        ),
    decreases n,
{
    let unit = params.bid_per_frame.value() as int;
    if n > 0 {
        lemma_bids_sum(plan, params, (n - 1) as nat);
        let head = plan.shards.take(n as int);
        assert(head.drop_last() =~= plan.shards.take(n - 1));
        let a = shard::sizes_sum(plan.shards.take(n - 1)) as int;
        let b = plan.shards[n - 1].range.size() as int;
        assert(farm::terms_of(plan, n - 1, params).bid == unit * b);
        assert(head.last() == plan.shards[n - 1]);
        assert(unit * (a + b) == unit * a + unit * b) by (nonlinear_arith);
    } else {
        assert(plan.shards.take(0) =~= Seq::<Shard>::empty());
        assert(unit * 0 == 0);
    }
}

/// The bids of all shards add up to the bid per frame times the number of frames, unless a shard's
/// bid is more than an amount can hold.
pub proof fn bids_add_up(plan: Layout, shard_size: u32, params: DeployParams)
    requires
        orderly(plan, shard_size),
        forall|i: int|
            0 <= i < plan.shards.len() ==> i128::MIN <= params.bid_per_frame.value() * (
            #[trigger] plan.shards[i]).range.size() <= i128::MAX,
    ensures
        bids_sum(plan, params, plan.shards.len()) == params.bid_per_frame.value()
            * plan.range.size(),
{
    lemma_bids_sum(plan, params, plan.shards.len());
    assert(plan.shards.take(plan.shards.len() as int) =~= plan.shards);
    shard::shards_partition_range(plan.range, shard_size);
}

/// A reply brings an output where the deployment succeeded and its output is not empty, and nowhere
/// else.
pub proof fn empty_output_is_none(reply: Reply)
    ensures
        brings_output(reply) <==> reply is Some && reply->0.len() > 0,
{
}

/// The manifest of a job is for the frames of its plan. A frame of a shard that came back with an
/// output has that output and the shard's host in it; a frame of a shard that failed, or came back
/// with an empty output, is missing from it.
pub proof fn manifest_has_what_came_back(
    plan: Layout,
    shard_size: u32,
    log: Seq<Reply>,
    frame: u32,
    i: int,
)
    requires
        orderly(plan, shard_size),
        finished(plan, log),
        0 <= i < plan.shards.len(),
        plan.shards[i].range.start <= frame <= plan.shards[i].range.end,
    ensures
        ({
            let m = outcome_of(plan, log);
            let came = log[i] is Some && log[i]->0.len() > 0;
            &&& m.range == plan.range
            &&& came ==> exists|x: int|
                0 <= x < m.outputs.len() && (#[trigger] m.outputs[x]).frame == frame
                    && m.outputs[x].host == plan.assignment[i] && m.outputs[x].output_cid
                    == log[i]->0
            &&& forall|x: int|
                0 <= x < m.outputs.len() && (#[trigger] m.outputs[x]).frame == frame ==> came
                    && m.outputs[x].host == plan.assignment[i] && m.outputs[x].output_cid
                    == log[i]->0
            &&& m.missing.contains(frame) <==> !came
        }),
{
    let results = results_of(plan, log, plan.shards.len());
    let m = outcome_of(plan, log);
    failed_shard_leaves_frames_missing(plan, shard_size, log, frame, i);
    frame_follows_its_shard(plan, shard_size, log, frame, i);
    manifest::every_frame_is_accounted_for(plan.range, results, frame);
    if brings_output(log[i]) {
        let e = entry_of(plan, log, i, frame);
        let x = choose|x: int| 0 <= x < m.outputs.len() && m.outputs[x] == e;
        assert(m.outputs[x].frame == frame);
    }
}

/// A frame is marked as verified where its shard was rendered a second time with the same output, and
/// as diverged where with another; it is not marked where the shard was not rendered again or the
/// second render failed.
pub proof fn mark_is_what_the_second_render_says(
    plan: Layout,
    shard_size: u32,
    log: Seq<Reply>,
    x: int,
    i: int,
)
    requires
        orderly(plan, shard_size),
        finished(plan, log),
        0 <= x < outcome_of(plan, log).outputs.len(),
        0 <= i < plan.shards.len(),
        plan.shards[i].range.start <= outcome_of(plan, log).outputs[x].frame
            <= plan.shards[i].range.end,
    ensures
        ({
            let n = plan.shards.len() as int;
            let checks = checks_of(plan, renders_of(plan, log));
            let mark = outcome_of(plan, log).outputs[x].verified;
            &&& forall|k: int|
                0 <= k < checks.len() && #[trigger] checks[k] == i ==> mark == (match log[n + k] {
                    Some(again) => Some(again == log[i]->0),
                    None => None,
                })
            &&& (forall|k: int| 0 <= k < checks.len() ==> #[trigger] checks[k] != i) ==> mark is None
        }),
{
    let n = plan.shards.len() as int;
    let results = results_of(plan, log, plan.shards.len());
    let checks = checks_of(plan, renders_of(plan, log));
    let frame = outcome_of(plan, log).outputs[x].frame;
    frame_follows_its_shard(plan, shard_size, log, frame, i);
    manifest::every_frame_is_accounted_for(plan.range, results, frame);
    assert(manifest::latest(results, frame) == Some(outcome_of(plan, log).outputs[x]));
    assert forall|k: int| 0 <= k < checks.len() && #[trigger] checks[k] == i implies outcome_of(
        plan,
        log,
    ).outputs[x].verified == (match log[n + k] {
        Some(again) => Some(again == log[i]->0),
        None => None,
    }) by {
        check_compares_outputs(plan, shard_size, log, k);
    }
}

/// The checks come in the order of the shards, each shard once, and all are among those that the plan
/// picks.
pub proof fn checks_are_picked_shards_in_order(plan: Layout, shard_size: u32, log: Seq<Reply>)
    requires
        orderly(plan, shard_size),
    ensures
        ({
            let checks = checks_of(plan, renders_of(plan, log));
            &&& forall|a: int, b: int|
                0 <= a < b < checks.len() ==> #[trigger] checks[a] < #[trigger] checks[b]
            &&& forall|k: int|
                0 <= k < checks.len() ==> plan.canary.contains(#[trigger] checks[k]) && checks[k]
                    < plan.shards.len()
        }),
{
    let renders = renders_of(plan, log);
    let checks = checks_of(plan, renders);
    lemma_checks(plan, shard_size, renders);
    orderly_plan_is_runnable(plan, shard_size);
    assert forall|k: int| 0 <= k < checks.len() implies plan.canary.contains(#[trigger] checks[k])
        && checks[k] < plan.shards.len() by {
        lemma_check(plan, renders, k);
    }
}

/// The host of a check is the first of the job's hosts that is not the one that rendered the shard.
pub proof fn check_goes_to_the_first_other_host(
    plan: Layout,
    shard_size: u32,
    log: Seq<Reply>,
    k: int,
    h: int,
)
    requires
        orderly(plan, shard_size),
        finished(plan, log),
        0 <= k < checks_of(plan, renders_of(plan, log)).len(),
        0 <= h < plan.hosts.len(),
        ({
            let c = checks_of(plan, renders_of(plan, log))[k] as int;
            &&& plan.hosts[h] != plan.assignment[c]
            &&& forall|g: int| 0 <= g < h ==> #[trigger] plan.hosts[g] == plan.assignment[c]
        }),
    ensures
        forall|params: DeployParams, grant: Option<Seq<char>>|
            (#[trigger] calls_of(plan, params, grant, log))[plan.shards.len() + k].errand.host
                == plan.hosts[h],
{
    let renders = renders_of(plan, log);
    let c = checks_of(plan, renders)[k];
    lemma_checks(plan, shard_size, renders);
    placement::verifier_is_the_first_other_host(plan.assignment[c as int], plan.hosts, h);
    assert forall|params: DeployParams, grant: Option<Seq<char>>|
        (#[trigger] calls_of(plan, params, grant, log))[plan.shards.len() + k].errand.host
        == plan.hosts[h] by {
        calls_follow_the_plan(plan, params, grant, log);
        assert(checks_of(plan, renders)[k] == c);
    }
}

/// Every deployment of a shard, the first and the second alike, carries the command that renders that
/// shard's own frames, and the bid for them.
pub proof fn deployed_command_renders_the_shard(
    plan: Layout,
    shard_size: u32,
    params: DeployParams,
    grant: Option<Seq<char>>,
    log: Seq<Reply>,
    at: int,
)
    requires
        orderly(plan, shard_size),
        finished(plan, log),
        0 <= at < log.len(),
        !(plan.kind is Custom),
    ensures
        ({
            let n = plan.shards.len() as int;
            let i = if at < n {
                at
            } else {
                checks_of(plan, renders_of(plan, log))[at - n] as int
            };
            let errand = calls_of(plan, params, grant, log)[at].errand;
            &&& at < n ==> errand.host == plan.assignment[i]
            &&& number::natural(errand.terms.cmd[6]) == Some(plan.shards[i].range.start as nat)
            &&& number::natural(errand.terms.cmd[8]) == Some(plan.shards[i].range.end as nat)
            &&& errand.terms == farm::terms_of(plan, i, params)
        }),
{
    let n = plan.shards.len() as int;
    let checks = checks_of(plan, renders_of(plan, log));
    calls_follow_the_plan(plan, params, grant, log);
    lemma_checks(plan, shard_size, renders_of(plan, log));
    if at < n {
        farm::shard_is_told_its_own_frames(plan, at, params);
    } else {
        let c = checks[at - n];
        farm::shard_is_told_its_own_frames(plan, c as int, params);
    }
}

/// A deployment and the replies to the deployments are read whole; an answer that is an error is no
/// reply, and any other is its output.
pub proof fn replies_are_read_whole(
    deployment: Deployment,
    log: Seq<Option<String>>,
    answer: Result<String, String>,
)
    ensures
        deployment@.host == deployment.host@,
        deployment@.terms == deployment.spec@,
        replies(log).len() == log.len(),
        forall|i: int|
            0 <= i < log.len() ==> {
                &&& (#[trigger] replies(log)[i]) is Some <==> log[i] is Some
                &&& log[i] is Some ==> replies(log)[i]->0 == log[i]->0@
            },
        reply_of(answer) is Some <==> answer is Ok,
        answer is Ok ==> reply_of(answer)->0 == answer->Ok_0@,
{
}

/// Where shards share a number, a check compares with the last of them that was rendered.
pub proof fn check_compares_with_the_last_render(
    plan: Layout,
    renders: Seq<Reply>,
    c: usize,
    j: int,
)
    requires
        0 <= j < plan.shards.len(),
        plan.shards[j].index == c as u32,
        renders[j] is Some,
        forall|i: int|
            j < i < plan.shards.len() ==> (#[trigger] plan.shards[i]).index != c as u32
                || renders[i] is None,
    ensures
        first_render_of(plan, renders, c) == Some(j),
{
    lemma_last_render(plan, renders, c as u32, j, plan.shards.len());
}

proof fn lemma_last_render(plan: Layout, renders: Seq<Reply>, index: u32, j: int, n: nat)
    requires
        0 <= j < n <= plan.shards.len(),
        plan.shards[j].index == index,
        renders[j] is Some,
        forall|i: int|
            j < i < plan.shards.len() ==> (#[trigger] plan.shards[i]).index != index || renders[i]
                is None,
    ensures
        rendered_as(plan, renders, index, n) == Some(j),
    decreases n,
{
    if n - 1 > j {
        assert(plan.shards[n - 1].index != index || renders[n - 1] is None);
        lemma_last_render(plan, renders, index, j, (n - 1) as nat);
    }
}

/// Where shards share a frame, the last of them that brought an output has it, with its own host.
pub proof fn later_shard_supersedes(plan: Layout, log: Seq<Reply>, n: nat, frame: u32)
    requires
        0 < n,
    ensures
        ({
            let range = plan.shards[n - 1].range;
            let last = manifest::latest(results_of(plan, log, n), frame);
            if range.start <= frame <= range.end && log[n - 1] is Some && log[n - 1]->0.len() > 0 {
                last == Some(
                    FrameEntry {
                        frame,
                        host: plan.assignment[n - 1],
                        output_cid: log[n - 1]->0,
                        verified: verified_of(plan, log, frame),
                    },
                )
            } else {
                last == manifest::latest(results_of(plan, log, (n - 1) as nat), frame)
            }
        }),
{
    if brings_output(log[n - 1]) {
        let before = results_of(plan, log, (n - 1) as nat);
        let range = plan.shards[n - 1].range;
        let frames = range.frames();
        let entry = |f: u32| entry_of(plan, log, n - 1, f);
        let part = frames.map_values(entry);
        manifest::lemma_latest_concat(before, part, frame);
        manifest::lemma_latest_frame(part, frame);
        if range.start <= frame <= range.end {
            assert(part[frame - range.start].frame == frame);
            let e = manifest::latest(part, frame)->0;
            let x = choose|x: int| 0 <= x < part.len() && part[x] == e;
            assert(e == entry(frames[x]));
        } else {
            assert forall|x: int| 0 <= x < part.len() implies (#[trigger] part[x]).frame
                != frame by {
                assert(range.start <= frames[x] <= range.end);
            }
        }
    }
}

/// Where checks are of shards that share a frame, the last that says anything of it decides.
pub proof fn later_check_decides(plan: Layout, log: Seq<Reply>, frame: u32, k: nat)
    requires
        0 < k,
    ensures
        ({
            let c = checks_of(plan, renders_of(plan, log))[k - 1];
            let said = check_result(plan, log, k - 1);
            let concerns = c < plan.shards.len() && plan.shards[c as int].range.start <= frame
                <= plan.shards[c as int].range.end;
            &&& mark_of(plan, log, frame, 0) is None
            &&& said is Some && concerns ==> mark_of(plan, log, frame, k) == said
            &&& !(said is Some && concerns) ==> mark_of(plan, log, frame, k) == mark_of(
                plan,
                log,
                frame,
                (k - 1) as nat,
            )
        }),
{
}

} // verus!
