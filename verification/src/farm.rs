//! The farm: the plan of a job, what each deployment asks of a host, and where hosts are found.
//!
//! A plan says which host renders which shard and which shards are rendered a second time. It is made
//! before anything is deployed; [`crate::dispatch`] carries it out.

pub use crate::dispatch::{run, Deployer};

use crate::config::{ConfigError, ConfigFault, RenderConfig};
use crate::fraction::Fraction;
use crate::number;
use crate::order;
use crate::placement;
use crate::placement::{AtlasEntry, Candidate};
use crate::proto;
use crate::proto::Kind;
use crate::shard;
use crate::shard::{FrameRange, RangeFault, Shard};
use crate::text;
use crate::verify;
use vstd::prelude::*;
use vstd::string::*;

verus! {

/// An amount of money, in base units.
#[derive(Debug, Clone, Copy, PartialEq, Eq, Structural)]
pub struct Amount {
    units: i128,
}

impl Amount {
    /// The amount in base units.
    pub closed spec fn value(self) -> i128 {
        self.units
    }

    /// The amount of `units` base units.
    pub fn from_base(units: i128) -> (res: Self)
        ensures
            res.value() == units,
    {
        Amount { units }
    }

    /// The amount in base units.
    pub fn base(self) -> (res: i128)
        ensures
            res == self.value(),
    {
        self.units
    }
}

/// What a deployment asks of a host: the image and its command, the resources, and the bid.
#[derive(Debug, Clone, PartialEq, Eq)]
pub struct BidSpec {
    pub image: String,
    pub cmd: Vec<String>,
    pub cpu_cores: u32,
    pub mem_mb: u64,
    pub duration_secs: u64,
    pub bid: Amount,
}

/// What a deployment asks of a host, with texts taken as character sequences.
#[verifier::ext_equal]
pub struct Terms {
    pub image: Seq<char>,
    pub cmd: Seq<Seq<char>>,
    pub cpu_cores: u32,
    pub mem_mb: u64,
    pub duration_secs: u64,
    pub bid: int,
}

impl View for BidSpec {
    type V = Terms;

    open spec fn view(&self) -> Terms {
        Terms {
            image: self.image@,
            cmd: text::views(self.cmd@),
            cpu_cores: self.cpu_cores,
            mem_mb: self.mem_mb,
            duration_secs: self.duration_secs,
            bid: self.bid.value() as int,
        }
    }
}

/// The resources and the bid of every deployment of a job.
#[derive(Debug, Clone, Copy, PartialEq, Eq, Structural)]
pub struct DeployParams {
    pub cpu_cores: u32,
    pub mem_mb: u64,
    pub duration_secs: u64,
    /// What is bid per frame; a shard's bid is this times its frames.
    pub bid_per_frame: Amount,
}

/// The plan of a job.
#[derive(Debug, PartialEq, Eq)]
pub struct Plan {
    pub range: FrameRange,
    pub shards: Vec<Shard>,
    /// The hosts of the job, best first; a shard is checked by one of these.
    pub hosts: Vec<String>,
    /// For each shard the host that renders it.
    pub assignment: Vec<String>,
    /// The shards that are rendered a second time.
    pub canary: Vec<usize>,
    pub kind: Kind,
    pub image: String,
    pub args: Vec<String>,
}

/// What a plan says.
#[verifier::ext_equal]
pub struct Layout {
    pub range: FrameRange,
    pub shards: Seq<Shard>,
    pub hosts: Seq<Seq<char>>,
    pub assignment: Seq<Seq<char>>,
    pub canary: Seq<usize>,
    pub kind: Kind,
    pub image: Seq<char>,
    pub args: Seq<Seq<char>>,
}

impl View for Plan {
    type V = Layout;

    open spec fn view(&self) -> Layout {
        Layout {
            range: self.range,
            shards: self.shards@,
            hosts: text::views(self.hosts@),
            assignment: text::views(self.assignment@),
            canary: self.canary@,
            kind: self.kind,
            image: self.image@,
            args: text::views(self.args@),
        }
    }
}

impl Clone for Plan {
    fn clone(&self) -> (res: Self)
        ensures
            res@ == self@,
    {
        let mut canary: Vec<usize> = Vec::new();
        let mut i: usize = 0;
        while i < self.canary.len()
            invariant
                i <= self.canary@.len(),
                canary@ == self.canary@.take(i as int),
            decreases self.canary@.len() - i,
        {
            canary.push(self.canary[i]);
            i = i + 1;
        }
        let mut shards: Vec<Shard> = Vec::new();
        i = 0;
        while i < self.shards.len()
            invariant
                i <= self.shards@.len(),
                shards@ == self.shards@.take(i as int),
            decreases self.shards@.len() - i,
        {
            shards.push(self.shards[i]);
            i = i + 1;
        }
        proof {
            assert(self.canary@.take(self.canary@.len() as int) =~= self.canary@);
            assert(self.shards@.take(self.shards@.len() as int) =~= self.shards@);
        }
        Plan {
            range: self.range,
            shards,
            hosts: text::clone_all(self.hosts.as_slice()),
            assignment: text::clone_all(self.assignment.as_slice()),
            canary,
            kind: self.kind,
            image: self.image.clone(),
            args: text::clone_all(self.args.as_slice()),
        }
    }
}

/// Why there is no plan.
#[derive(Debug, Clone, PartialEq, Eq)]
pub enum PlanFault<S> {
    /// The frames are not a range.
    Frames { fault: RangeFault<S> },
    /// There is no host to render on.
    NoHosts,
}

/// Why there is no plan.
pub type PlanError = PlanFault<String>;

impl View for PlanFault<String> {
    type V = PlanFault<Seq<char>>;

    open spec fn view(&self) -> PlanFault<Seq<char>> {
        match *self {
            PlanFault::Frames { fault } => PlanFault::Frames { fault: fault@ },
            PlanFault::NoHosts => PlanFault::NoHosts,
        }
    }
}

/// What a refusal to plan says.
pub open spec fn plan_message(fault: PlanFault<Seq<char>>) -> Seq<char> {
    match fault {
        PlanFault::Frames { fault } => shard::range_message(fault),
        PlanFault::NoHosts => "no candidate hosts to place render shards on"@,
    }
}

impl PlanFault<String> {
    /// What the refusal says.
    pub fn message(&self) -> (res: String)
        ensures
            res@ == plan_message(self@),
    {
        match self {
            PlanFault::Frames { fault } => fault.message(),
            PlanFault::NoHosts => "no candidate hosts to place render shards on".to_owned(),
        }
    }
}

/// The outcome of planning, with texts taken as character sequences.
pub open spec fn plan_outcome(r: Result<Plan, PlanError>) -> Result<Layout, PlanFault<Seq<char>>> {
    match r {
        Ok(plan) => Ok(plan@),
        Err(e) => Err(e@),
    }
}

/// The plan for a range of frames: its shards, dealt round the hosts in turn, and the shards that the
/// beacon picks to be checked, of which there are the fraction `pct`.
pub open spec fn planned(
    range: FrameRange,
    shard_size: u32,
    hosts: Seq<Seq<char>>,
    pct: Fraction,
    beacon: Seq<char>,
    kind: Kind,
    image: Seq<char>,
    args: Seq<Seq<char>>,
) -> Result<Layout, PlanFault<Seq<char>>> {
    if hosts.len() == 0 {
        Err(PlanFault::NoHosts)
    } else {
        let total = shard::shard_total(range, shard_size);
        Ok(
            Layout {
                range,
                shards: shard::shards_of(range, shard_size),
                hosts,
                assignment: placement::round_robin(total, hosts),
                canary: verify::canaries(
                    verify::keys_of(beacon, total),
                    verify::wanted(total, pct),
                ),
                kind,
                image,
                args,
            },
        )
    }
}

impl Plan {
    /// Plans a job: splits the range, deals the shards round the hosts, and picks the shards to be
    /// checked.
    pub fn build(
        range: FrameRange,
        shard_size: u32,
        hosts: &[String],
        verify_pct: Fraction,
        beacon_hash: &str,
        kind: Kind,
        image: String,
        args: Vec<String>,
    ) -> (res: Result<Plan, PlanError>)
        requires
            hosts@.len() > 0 ==> shard::shard_total(range, shard_size) <= u32::MAX
                && verify::drawable(
                shard::shard_total(range, shard_size),
                verify_pct,
                beacon_hash@,
            ),
        ensures
            plan_outcome(res) == planned(
                range,
                shard_size,
                text::views(hosts@),
                verify_pct,
                beacon_hash@,
                kind,
                image@,
                text::views(args@),
            ),
    {
        if hosts.len() == 0 {
            return Err(PlanFault::NoHosts);
        }
        let shards: Vec<Shard> = shard::split(range, shard_size);
        let total: usize = shards.len();
        let assignment: Vec<String> = placement::assign(total, hosts);
        let canary: Vec<usize> = verify::canary_set(total, verify_pct, beacon_hash);
        Ok(
            Plan {
                range,
                shards,
                hosts: text::clone_all(hosts),
                assignment,
                canary,
                kind,
                image,
                args,
            },
        )
    }

    /// The command that renders shard `i`.
    pub fn argv(&self, i: usize) -> (res: Vec<String>)
        requires
            i < self.shards@.len(),
        ensures
            text::views(res@) == command_of(self@, i as int),
    {
        proto::render_argv(self.kind, self.shards[i].range, self.args.as_slice())
    }
}

/// The command that renders shard `i` of a plan.
pub open spec fn command_of(plan: Layout, i: int) -> Seq<Seq<char>> {
    proto::argv_of(plan.kind, plan.shards[i].range, plan.args)
}

/// `v`, or the nearest that an amount can hold.
pub open spec fn saturated(v: int) -> int {
    if v > i128::MAX {
        i128::MAX as int
    } else if v < i128::MIN {
        i128::MIN as int
    } else {
        v
    }
}

/// What shard `i` asks of the host that renders it: its bid is the bid per frame times its frames.
pub open spec fn terms_of(plan: Layout, i: int, params: DeployParams) -> Terms {
    Terms {
        image: plan.image,
        cmd: command_of(plan, i),
        cpu_cores: params.cpu_cores,
        mem_mb: params.mem_mb,
        duration_secs: params.duration_secs,
        bid: saturated(params.bid_per_frame.value() * plan.shards[i].range.size()),
    }
}

/// `a` times `b`, or the nearest amount.
fn saturating_product(a: i128, b: u32) -> (res: i128)
    ensures
        res == saturated(a * b),
{
    match a.checked_mul(b as i128) {
        Some(v) => v,
        None => {
            if a < 0 {
                assert(a * b <= 0) by (nonlinear_arith)
                    requires
                        a < 0,
                        b >= 0,
                ;
                i128::MIN
            } else {
                assert(a * b >= 0) by (nonlinear_arith)
                    requires
                        a >= 0,
                        b >= 0,
                ;
                i128::MAX
            }
        },
    }
}

/// What shard `i` asks of the host that renders it.
pub fn shard_spec(plan: &Plan, i: usize, params: &DeployParams) -> (res: BidSpec)
    requires
        i < plan.shards@.len(),
        plan.shards@[i as int].range.countable(),
    ensures
        res@ == terms_of(plan@, i as int, *params),
{
    let frames: u32 = plan.shards[i].count();
    let bid: Amount = Amount::from_base(saturating_product(params.bid_per_frame.base(), frames));
    BidSpec {
        image: plan.image.clone(),
        cmd: plan.argv(i),
        cpu_cores: params.cpu_cores,
        mem_mb: params.mem_mb,
        duration_secs: params.duration_secs,
        bid,
    }
}

/// What one shard's deployment gave: who rendered it, and its output; the output is empty where the
/// host produced none.
#[derive(Debug, Clone, PartialEq, Eq)]
pub struct ShardOutcome {
    pub shard_index: u32,
    pub host: String,
    pub output_cid: String,
}

/// Whether `params` are the resources and the bid that a configuration asks for.
pub open spec fn asks_for(cfg: RenderConfig, params: DeployParams) -> bool {
    &&& number::amount_of(cfg.bid_per_frame@) == Some(params.bid_per_frame.value() as int)
    &&& params.cpu_cores == cfg.cpu_cores
    &&& params.mem_mb == cfg.mem_mb
    &&& params.duration_secs == cfg.frame_secs
}

/// The resources and the bid that a configuration asks for. The bid must fit an amount.
pub fn deploy_params(cfg: &RenderConfig) -> (res: Result<DeployParams, ConfigError>)
    ensures
        match res {
            Ok(params) => asks_for(*cfg, params),
            Err(e) => e@ == ConfigFault::<Seq<char>>::BidOutOfRange && number::amount_of(
                cfg.bid_per_frame@,
            ) is None,
        },
{
    match number::read_amount(cfg.bid_per_frame.as_str()) {
        Some(units) => Ok(
            DeployParams {
                cpu_cores: cfg.cpu_cores,
                mem_mb: cfg.mem_mb,
                duration_secs: cfg.frame_secs,
                bid_per_frame: Amount::from_base(units),
            },
        ),
        None => Err(ConfigFault::BidOutOfRange),
    }
}

/// What is said where no host of the atlas will do.
pub open spec fn no_match_message(select: Option<Seq<char>>) -> Seq<char> {
    match select {
        Some(tag) => "no matching hosts in the atlas (need 'docker' + '"@ + tag + "')"@,
        None => "no matching hosts in the atlas (need 'docker')"@,
    }
}

/// The hosts of the atlas that a job may run on. There must be one; the refusal is what to say if
/// there is none.
pub fn eligible_hosts(atlas: &[AtlasEntry], select: Option<&str>) -> (res: Result<
    Vec<AtlasEntry>,
    String,
>)
    ensures
        ({
            let hosts = placement::able_hosts(order::item_views(atlas@), text::opt_view(select));
            match res {
                Ok(pool) => hosts.len() > 0 && order::item_views(pool@) == hosts,
                Err(message) => hosts.len() == 0 && message@ == no_match_message(
                    text::opt_view(select),
                ),
            }
        }),
{
    let pool: Vec<AtlasEntry> = placement::candidates(atlas, select);
    assert(order::item_views(pool@).len() == pool@.len());
    if pool.len() > 0 {
        return Ok(pool);
    }
    match select {
        Some(tag) => {
            let mut out: String = "no matching hosts in the atlas (need 'docker' + '".to_owned();
            out.append(tag);
            out.append("')");
            Err(out)
        },
        None => Err("no matching hosts in the atlas (need 'docker')".to_owned()),
    }
}

/// What the hosts of a pool and their delivered work make as candidates.
pub open spec fn standings(pool: Seq<placement::Advert>, work: Seq<u64>) -> Seq<
    placement::Standing,
> {
    Seq::new(pool.len(), |i: int| placement::standing_of(pool[i], work[i]))
}

/// The node ids of the hosts of a pool, best first. `work` is what each has delivered.
pub open spec fn host_ranking(pool: Seq<placement::Advert>, work: Seq<u64>) -> Seq<Seq<char>> {
    placement::node_ids(placement::ranking(standings(pool, work)))
}

/// The node ids of the hosts of a pool, best first. `work` is what each has delivered.
pub fn rank_hosts(pool: &[AtlasEntry], work: &[u64]) -> (res: Vec<String>)
    requires
        work@.len() == pool@.len(),
    ensures
        text::views(res@) == host_ranking(order::item_views(pool@), work@),
{
    let mut cands: Vec<Candidate> = Vec::new();
    let mut i: usize = 0;
    while i < pool.len()
        invariant
            i <= pool@.len(),
            work@.len() == pool@.len(),
            cands@.len() == i,
            forall|k: int|
                0 <= k < i ==> (#[trigger] cands@[k])@ == placement::standing_of(
                    pool@[k]@,
                    work@[k],
                ),
        decreases pool@.len() - i,
    {
        cands.push(placement::to_candidate(&pool[i], work[i]));
        i = i + 1;
    }
    assert(order::item_views(cands@) =~= standings(order::item_views(pool@), work@));
    let ranked: Vec<Candidate> = placement::rank(cands.as_slice());
    placement::ids_of(ranked.as_slice())
}

/// The plan that a configuration asks for, on the first of the `ranked` hosts.
pub open spec fn configured(
    cfg: &RenderConfig,
    ranked: Seq<Seq<char>>,
    beacon: Seq<char>,
) -> Result<Layout, PlanFault<Seq<char>>> {
    match shard::parsed_range(cfg.frames@) {
        Err(fault) => Err(PlanFault::Frames { fault }),
        Ok(range) => planned(
            range,
            cfg.shard_size,
            if cfg.hosts < ranked.len() {
                ranked.take(cfg.hosts as int)
            } else {
                ranked
            },
            cfg.verify,
            beacon,
            cfg.kind,
            cfg.image_used(),
            text::views(cfg.args@),
        ),
    }
}

/// Plans the job that a configuration describes, on the best of the `ranked` hosts and no more of
/// them than it allows.
pub fn build_plan(cfg: &RenderConfig, ranked: &[String], beacon_hash: &str) -> (res: Result<
    Plan,
    PlanError,
>)
    requires
        match shard::parsed_range(cfg.frames@) {
            Ok(range) => cfg.hosts > 0 && ranked@.len() > 0 ==> shard::shard_total(
                range,
                cfg.shard_size,
            ) <= u32::MAX && verify::drawable(
                shard::shard_total(range, cfg.shard_size),
                cfg.verify,
                beacon_hash@,
            ),
            Err(_) => true,
        },
    ensures
        plan_outcome(res) == configured(cfg, text::views(ranked@), beacon_hash@),
{
    match cfg.range() {
        Err(fault) => Err(PlanFault::Frames { fault }),
        Ok(range) => {
            let chosen: Vec<String> = placement::first_names(ranked, cfg.hosts);
            assert(text::views(chosen@).len() == chosen@.len());
            Plan::build(
                range,
                cfg.shard_size,
                chosen.as_slice(),
                cfg.verify,
                beacon_hash,
                cfg.kind,
                cfg.image(),
                text::clone_all(cfg.args.as_slice()),
            )
        },
    }
}

/// How often a deployed job is asked for its status before it is given up.
pub const POLL_LIMIT: u32 = 600;

/// What follows from asking a deployed job for its status.
#[derive(Debug, PartialEq, Eq)]
pub enum Poll<S> {
    /// The job is done, with this output.
    Output(S),
    /// The job failed; this is what to say.
    Failed(S),
    /// The job is not done: ask again after a pause.
    Again,
    /// The job is not done and has been asked often enough; this is what to say.
    Expired(S),
}

impl View for Poll<String> {
    type V = Poll<Seq<char>>;

    open spec fn view(&self) -> Poll<Seq<char>> {
        match *self {
            Poll::Output(s) => Poll::Output(s@),
            Poll::Failed(s) => Poll::Failed(s@),
            Poll::Again => Poll::Again,
            Poll::Expired(s) => Poll::Expired(s@),
        }
    }
}

/// What follows from the `polls`th answer of a job. Without an answer the job counts as not done. A
/// job that is done has an empty output: its status does not tell where its output is.
pub open spec fn polled(job_id: Seq<char>, polls: nat, status: Option<Seq<char>>) -> Poll<Seq<char>> {
    let done = Some("completed"@) == status || Some("settled"@) == status || Some("exited"@)
        == status;
    let failed = Some("failed"@) == status || Some("error"@) == status;
    if done {
        Poll::Output(Seq::empty())
    } else if failed {
        Poll::Failed("job "@ + job_id + " failed (status "@ + status->0 + ")"@)
    } else if polls < POLL_LIMIT {
        Poll::Again
    } else {
        Poll::Expired("job "@ + job_id + " did not complete within the deadline"@)
    }
}

/// What follows from the `polls`th answer of a job; `status` is `None` where the answer did not come.
pub fn judge_poll(job_id: &str, polls: u32, status: Option<&str>) -> (res: Poll<String>)
    ensures
        res@ == polled(job_id@, polls as nat, text::opt_view(status)),
{
    if let Some(s) = status {
        proof {
            reveal_strlit("completed");
            reveal_strlit("settled");
            reveal_strlit("exited");
            reveal_strlit("failed");
            reveal_strlit("error");
        }
        if text::same(s, "completed") || text::same(s, "settled") || text::same(s, "exited") {
            return Poll::Output(String::new());
        }
        if text::same(s, "failed") || text::same(s, "error") {
            let mut out: String = "job ".to_owned();
            out.append(job_id);
            out.append(" failed (status ");
            out.append(s);
            out.append(")");
            return Poll::Failed(out);
        }
    }
    if polls < POLL_LIMIT {
        return Poll::Again;
    }
    let mut out: String = "job ".to_owned();
    out.append(job_id);
    out.append(" did not complete within the deadline");
    Poll::Expired(out)
}

/// A plan is refused exactly where there is no host. Otherwise its shards are those of the range, each
/// has one host, dealt round the hosts in turn; the shards to be checked are those that the beacon
/// picks, and are shards of the plan; and the rest is what was asked for.
pub proof fn plan_is_made_of_its_parts(
    range: FrameRange,
    shard_size: u32,
    hosts: Seq<Seq<char>>,
    pct: Fraction,
    beacon: Seq<char>,
    kind: Kind,
    image: Seq<char>,
    args: Seq<Seq<char>>,
)
    requires
        range.valid(),
        range.end - range.start < u32::MAX || shard_size >= 2,
    ensures
        ({
            let plan = planned(range, shard_size, hosts, pct, beacon, kind, image, args);
            &&& shard::shard_total(range, shard_size) <= u32::MAX
            &&& plan is Err <==> hosts.len() == 0
            &&& plan matches Err(fault) ==> fault == PlanFault::<Seq<char>>::NoHosts
            &&& plan matches Ok(p) ==> {
                let total = p.shards.len();
                &&& p.shards == shard::shards_of(range, shard_size)
                &&& p.assignment == placement::round_robin(total, hosts)
                &&& p.assignment.len() == total
                &&& p.canary == verify::canaries(
                    verify::keys_of(beacon, total),
                    verify::wanted(total, pct),
                )
                &&& forall|i: int| 0 <= i < p.canary.len() ==> #[trigger] p.canary[i] < total
                &&& p.range == range
                &&& p.hosts == hosts
                &&& p.kind == kind
                &&& p.image == image
                &&& p.args == args
            }
        }),
{
    let total = shard::shard_total(range, shard_size);
    shard::shards_can_be_numbered(range, shard_size);
    verify::canaries_are_ascending(verify::keys_of(beacon, total), verify::wanted(total, pct));
}

/// A bid that a configuration is accepted with is never negative, and is the amount bid per frame
/// unless it is more than an amount can hold; then there is none.
pub proof fn accepted_bid_is_bid(bid: Seq<char>, units: nat)
    requires
        number::natural_up_to(bid, u128::MAX as nat) == Some(units),
    ensures
        number::amount_of(bid) == (if units <= i128::MAX {
            Some(units as int)
        } else {
            None
        }),
{
    if bid.len() > 0 && bid[0] == '-' {
        assert(number::is_digit(bid[0]));
    }
}

/// A job is asked for its status until it is done or has failed, and no more often than the limit.
pub proof fn polling_ends(job_id: Seq<char>, polls: nat, status: Option<Seq<char>>)
    ensures
        polled(job_id, polls, status) is Again ==> polls < POLL_LIMIT,
        polled(job_id, polls, status) is Expired ==> polls >= POLL_LIMIT,
        status is None ==> polled(job_id, polls, status) is Again || polled(
            job_id,
            polls,
            status,
        ) is Expired,
{
}

/// What a shard asks of its host is what the plan and the parameters say, and its bid is the bid per
/// frame for each of its frames, or the most or the least that an amount can hold where that is beyond.
pub proof fn terms_are_those_of_the_job(plan: Layout, i: int, params: DeployParams)
    ensures
        ({
            let terms = terms_of(plan, i, params);
            let range = plan.shards[i].range;
            let unit = params.bid_per_frame.value() as int;
            let frames = range.end - range.start + 1;
            &&& terms.image == plan.image
            &&& terms.cpu_cores == params.cpu_cores
            &&& terms.mem_mb == params.mem_mb
            &&& terms.duration_secs == params.duration_secs
            &&& range.start <= range.end ==> {
                &&& -0x8000_0000_0000_0000_0000_0000_0000_0000 <= unit * frames
                    <= 0x7fff_ffff_ffff_ffff_ffff_ffff_ffff_ffff ==> terms.bid == unit * frames
                &&& unit * frames > 0x7fff_ffff_ffff_ffff_ffff_ffff_ffff_ffff ==> terms.bid
                    == 0x7fff_ffff_ffff_ffff_ffff_ffff_ffff_ffff
                &&& unit * frames < -0x8000_0000_0000_0000_0000_0000_0000_0000 ==> terms.bid
                    == -0x8000_0000_0000_0000_0000_0000_0000_0000
            }
        }),
{
}

/// Every shard is told to render its own frames: in the command that is deployed for it, the number
/// after the start flag reads as the shard's first frame and that after the end flag as its last. In a
/// custom command the shard's own frames stand for the placeholders.
pub proof fn shard_is_told_its_own_frames(plan: Layout, i: int, params: DeployParams)
    requires
        0 <= i < plan.shards.len(),
    ensures
        ({
            let command = terms_of(plan, i, params).cmd;
            let range = plan.shards[i].range;
            &&& !(plan.kind is Custom) ==> {
                &&& command[5] == (if plan.kind is Blender {
                    "-s"@
                } else {
                    "--from"@
                })
                &&& number::natural(command[6]) == Some(range.start as nat)
                &&& command[7] == (if plan.kind is Blender {
                    "-e"@
                } else {
                    "--to"@
                })
                &&& number::natural(command[8]) == Some(range.end as nat)
                &&& plan.kind is Blender ==> command.skip(10) == plan.args && command[0]
                    == "blender"@
                &&& plan.kind is Chrome ==> command.skip(9) == plan.args && command[0]
                    == "ce-render-chrome"@
            }
            &&& plan.kind is Custom ==> command.len() == plan.args.len() && forall|k: int|
                0 <= k < plan.args.len() ==> #[trigger] command[k] == proto::substituted(
                    plan.args[k],
                    range,
                )
        }),
{
    proto::command_tells_its_frames(plan.shards[i].range, plan.args);
    proto::custom_command_has_its_words(plan.shards[i].range, plan.args);
}

/// The frames that the commands of the first `n` shards tell their hosts to render, laid end to end:
/// of each command those from the number after its start flag to the number after its end flag.
pub open spec fn frames_told(plan: Layout, params: DeployParams, n: nat) -> Seq<u32>
    decreases n,
{
    if n == 0 {
        Seq::empty()
    } else {
        let command = terms_of(plan, n - 1, params).cmd;
        let told = FrameRange {
            start: number::natural(command[6])->0 as u32,
            end: number::natural(command[8])->0 as u32,
        };
        frames_told(plan, params, (n - 1) as nat) + told.frames()
    }
}

proof fn lemma_frames_told(plan: Layout, params: DeployParams, n: nat)
    requires
        !(plan.kind is Custom),
        n <= plan.shards.len(),
    ensures
        frames_told(plan, params, n) == shard::frames_of(plan.shards.take(n as int)),
    decreases n,
{
    if n > 0 {
        lemma_frames_told(plan, params, (n - 1) as nat);
        shard_is_told_its_own_frames(plan, n - 1, params);
        assert(plan.shards.take(n as int).drop_last() =~= plan.shards.take(n - 1));
        assert(plan.shards.take(n as int).last() == plan.shards[n - 1]);
    } else {
        assert(plan.shards.take(0) =~= Seq::<Shard>::empty());
    }
}

/// The commands of a job, taken together, tell the hosts to render exactly the frames of the job, each
/// once and in order: none is left out and none is rendered twice.
pub proof fn commands_cover_the_job(
    range: FrameRange,
    shard_size: u32,
    hosts: Seq<Seq<char>>,
    pct: Fraction,
    beacon: Seq<char>,
    kind: Kind,
    image: Seq<char>,
    args: Seq<Seq<char>>,
    params: DeployParams,
)
    requires
        range.valid(),
        range.end - range.start < u32::MAX || shard_size >= 2,
        hosts.len() > 0,
        !(kind is Custom),
    ensures
        match planned(range, shard_size, hosts, pct, beacon, kind, image, args) {
            Ok(plan) => {
                let told = frames_told(plan, params, plan.shards.len());
                &&& told.len() == range.end - range.start + 1
                &&& forall|i: int| 0 <= i < told.len() ==> #[trigger] told[i] == range.start + i
            },
            Err(_) => false,
        },
{
    let plan = planned(range, shard_size, hosts, pct, beacon, kind, image, args)->Ok_0;
    plan_is_made_of_its_parts(range, shard_size, hosts, pct, beacon, kind, image, args);
    lemma_frames_told(plan, params, plan.shards.len());
    assert(plan.shards.take(plan.shards.len() as int) =~= plan.shards);
    shard::shards_partition_range(range, shard_size);
}

/// The plan of a configuration has its frames, its shard size, its kind, image and arguments, and the
/// best of the ranked hosts, no more than it allows. It is refused where the frames are no range, or
/// where there is no host or none is allowed.
pub proof fn configured_plan_is_as_configured(
    cfg: RenderConfig,
    ranked: Seq<Seq<char>>,
    beacon: Seq<char>,
)
    ensures
        match configured(&cfg, ranked, beacon) {
            Ok(plan) => {
                &&& shard::parsed_range(cfg.frames@) == Ok::<FrameRange, RangeFault<Seq<char>>>(
                    plan.range,
                )
                &&& plan.shards == shard::shards_of(plan.range, cfg.shard_size)
                &&& plan.hosts.len() == (if cfg.hosts < ranked.len() {
                    cfg.hosts as nat
                } else {
                    ranked.len()
                })
                &&& plan.hosts.len() > 0
                &&& forall|i: int|
                    0 <= i < plan.hosts.len() ==> #[trigger] plan.hosts[i] == ranked[i]
                &&& plan.assignment == placement::round_robin(plan.shards.len(), plan.hosts)
                &&& plan.kind == cfg.kind
                &&& plan.image == cfg.image_used()
                &&& plan.args.len() == cfg.args@.len()
                &&& forall|i: int|
                    0 <= i < plan.args.len() ==> #[trigger] plan.args[i] == cfg.args@[i]@
            },
            Err(PlanFault::Frames { fault }) => shard::parsed_range(cfg.frames@) == Err::<
                FrameRange,
                RangeFault<Seq<char>>,
            >(fault),
            Err(PlanFault::NoHosts) => shard::parsed_range(cfg.frames@) is Ok && (ranked.len() == 0
                || cfg.hosts == 0),
        },
{
}

/// As many shards of a configured plan are checked as its own verify fraction makes of them: none
/// where it is zero, all where it is one, and otherwise its share of them, rounded up, but at least
/// one. Which they are, the beacon decides.
pub proof fn configured_dial_decides_how_many_are_checked(
    cfg: RenderConfig,
    ranked: Seq<Seq<char>>,
    beacon: Seq<char>,
)
    requires
        configured(&cfg, ranked, beacon) is Ok,
        configured(&cfg, ranked, beacon)->Ok_0.shards.len() <= u32::MAX,
    ensures
        ({
            let plan = configured(&cfg, ranked, beacon)->Ok_0;
            let total = plan.shards.len();
            let share = cfg.verify.share_of(total);
            &&& plan.canary == verify::canaries(
                verify::keys_of(beacon, total),
                verify::wanted(total, cfg.verify),
            )
            &&& plan.canary.len() == verify::wanted(total, cfg.verify)
            &&& cfg.verify.bits == 0 || cfg.verify.bits == 0x8000_0000 ==> plan.canary.len() == 0
            &&& cfg.verify.bits == 0x3f80_0000 ==> plan.canary.len() == total
            &&& total > 0 && 0 < cfg.verify.bits < 0x3f80_0000 ==> plan.canary.len() == (if share
                < 1 {
                1
            } else if share > total {
                total
            } else {
                share
            })
        }),
{
    let plan = configured(&cfg, ranked, beacon)->Ok_0;
    let total = plan.shards.len();
    verify::as_many_are_wanted_as_the_fraction_makes(total, cfg.verify);
    verify::canaries_are_as_many_as_wanted(
        verify::keys_of(beacon, total),
        verify::wanted(total, cfg.verify),
    );
}

/// Of two configurations that ask for the same frames in the same shards, the one with the greater
/// fraction has every shard checked that the other has.
pub proof fn greater_configured_dial_adds_checks(
    low: RenderConfig,
    high: RenderConfig,
    ranked: Seq<Seq<char>>,
    beacon: Seq<char>,
    i: usize,
)
    requires
        low.frames@ == high.frames@,
        low.shard_size == high.shard_size,
        !low.verify.is_nan(),
        !high.verify.is_nan(),
        low.verify.scaled() <= high.verify.scaled(),
        configured(&low, ranked, beacon) is Ok,
        configured(&high, ranked, beacon) is Ok,
        configured(&low, ranked, beacon)->Ok_0.shards.len() <= u32::MAX,
        configured(&low, ranked, beacon)->Ok_0.canary.contains(i),
    ensures
        configured(&high, ranked, beacon)->Ok_0.canary.contains(i),
{
    let total = configured(&low, ranked, beacon)->Ok_0.shards.len();
    verify::higher_dial_keeps_canaries(beacon, total, low.verify, high.verify);
}

/// The hosts of a pool are ranked each under its own node id and by its own delivered work.
pub proof fn pool_is_ranked_by_its_own_record(pool: Seq<placement::Advert>, work: Seq<u64>)
    ensures
        standings(pool, work).len() == pool.len(),
        forall|i: int|
            0 <= i < pool.len() ==> {
                &&& (#[trigger] standings(pool, work)[i]).node_id == pool[i].node_id
                &&& standings(pool, work)[i].delivered_work == work[i]
                &&& standings(pool, work)[i].running_jobs == pool[i].running_jobs
                &&& standings(pool, work)[i].last_seen_secs == pool[i].last_seen_secs
            },
{
}

/// A job is done exactly where its status is one of the three that say so, and then it has no output
/// to tell; it has failed exactly where its status is one of the two that say so. Whatever else its
/// status is, and where there is none, it is asked again up to the six hundredth time.
pub proof fn poll_follows_the_status(job_id: Seq<char>, polls: nat, status: Option<Seq<char>>)
    ensures
        ({
            let done = status is Some && (status->0 == "completed"@ || status->0 == "settled"@
                || status->0 == "exited"@);
            let failed = status is Some && (status->0 == "failed"@ || status->0 == "error"@);
            match polled(job_id, polls, status) {
                Poll::Output(cid) => done && cid.len() == 0,
                Poll::Failed(message) => !done && failed && message == "job "@ + job_id
                    + " failed (status "@ + status->0 + ")"@,
                Poll::Again => !done && !failed && polls < 600,
                Poll::Expired(message) => !done && !failed && polls >= 600 && message == "job "@
                    + job_id + " did not complete within the deadline"@,
            }
        }),
{
}

/// What is said where no host will do names the tag that was asked for, if one was.
pub proof fn refusal_names_the_tag(tag: Seq<char>)
    ensures
        no_match_message(None) == "no matching hosts in the atlas (need 'docker')"@,
        no_match_message(Some(tag)) == "no matching hosts in the atlas (need 'docker' + '"@ + tag
            + "')"@,
{
}

/// The resources and the bid of a job are those that are configured: the bid is the one that the text
/// reads as.
pub proof fn params_are_as_configured(cfg: RenderConfig, params: DeployParams, units: nat)
    requires
        asks_for(cfg, params),
        number::natural(cfg.bid_per_frame@) == Some(units),
    ensures
        params.cpu_cores == cfg.cpu_cores,
        params.mem_mb == cfg.mem_mb,
        params.duration_secs == cfg.frame_secs,
        params.bid_per_frame.value() == units,
{
    let bid = cfg.bid_per_frame@;
    number::numbers_are_read_within_their_limits(bid, units);
    if bid.len() > 0 && bid[0] == '-' {
        number::only_numerals_read(bid);
        assert(!('0' as u32 <= bid[0] as u32 <= '9' as u32));
    }
}

/// The hosts of a pool come out each under its own node id, in the order of their own records: of two,
/// the earlier has delivered no less work, and where both have delivered as much it runs no more jobs,
/// and where these are as many it was seen no longer ago.
pub proof fn hosts_come_out_by_their_records(
    pool: Seq<placement::Advert>,
    work: Seq<u64>,
) -> (places: Seq<int>)
    requires
        work.len() == pool.len(),
    ensures
        host_ranking(pool, work).len() == pool.len(),
        places.len() == pool.len(),
        forall|i: int|
            0 <= i < pool.len() ==> 0 <= #[trigger] places[i] < pool.len() && host_ranking(
                pool,
                work,
            )[i] == pool[places[i]].node_id,
        forall|i: int, j: int|
            0 <= i < j < pool.len() ==> {
                let a = #[trigger] places[i];
                let b = #[trigger] places[j];
                &&& work[a] >= work[b]
                &&& work[a] == work[b] ==> pool[a].running_jobs <= pool[b].running_jobs
                &&& work[a] == work[b] && pool[a].running_jobs == pool[b].running_jobs
                    ==> pool[a].last_seen_secs <= pool[b].last_seen_secs
            },
{
    let all = standings(pool, work);
    let ranked = placement::ranking(all);
    placement::ranked_ids_are_the_candidates(all);
    placement::ranking_is_sorted_rearrangement(all);
    let places = Seq::new(
        pool.len(),
        |i: int| choose|k: int| 0 <= k < all.len() && all[k] == ranked[i],
    );
    assert forall|i: int| 0 <= i < pool.len() implies 0 <= #[trigger] places[i] < pool.len()
        && all[places[i]] == ranked[i] && host_ranking(pool, work)[i]
        == pool[places[i]].node_id by {
        assert(ranked.contains(ranked[i]));
        assert(all.contains(ranked[i]));
    }
    assert forall|i: int, j: int| 0 <= i < j < pool.len() implies {
        let a = #[trigger] places[i];
        let b = #[trigger] places[j];
        &&& work[a] >= work[b]
        &&& work[a] == work[b] ==> pool[a].running_jobs <= pool[b].running_jobs
        &&& work[a] == work[b] && pool[a].running_jobs == pool[b].running_jobs
            ==> pool[a].last_seen_secs <= pool[b].last_seen_secs
    } by {
        assert(all[places[i]] == ranked[i] && all[places[j]] == ranked[j]);
        placement::ranking_goes_by_work_then_load_then_freshness(all, i, j);
    }
    places
}

/// What a deployment asks is read whole.
pub proof fn terms_are_read_whole(spec: BidSpec)
    ensures
        spec@.image == spec.image@,
        spec@.cmd.len() == spec.cmd@.len(),
        forall|i: int| 0 <= i < spec.cmd@.len() ==> #[trigger] spec@.cmd[i] == spec.cmd@[i]@,
        spec@.cpu_cores == spec.cpu_cores,
        spec@.mem_mb == spec.mem_mb,
        spec@.duration_secs == spec.duration_secs,
        spec@.bid == spec.bid.value(),
{
}

/// A plan is read whole.
pub proof fn plan_is_read_whole(plan: Plan)
    ensures
        plan@.range == plan.range,
        plan@.shards == plan.shards@,
        plan@.canary == plan.canary@,
        plan@.kind == plan.kind,
        plan@.image == plan.image@,
        plan@.hosts.len() == plan.hosts@.len(),
        forall|i: int| 0 <= i < plan.hosts@.len() ==> #[trigger] plan@.hosts[i] == plan.hosts@[i]@,
        plan@.assignment.len() == plan.assignment@.len(),
        forall|i: int|
            0 <= i < plan.assignment@.len() ==> #[trigger] plan@.assignment[i]
                == plan.assignment@[i]@,
        plan@.args.len() == plan.args@.len(),
        forall|i: int| 0 <= i < plan.args@.len() ==> #[trigger] plan@.args[i] == plan.args@[i]@,
{
}

} // verus!
