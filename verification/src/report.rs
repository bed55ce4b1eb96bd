//! What is told to the user: the ranked hosts, the plan, the outcome of a job, and what was fetched.
//!
//! Every report is a text whose lines each end in a newline.

use crate::config::RenderConfig;
use crate::farm;
use crate::farm::Plan;
use crate::manifest;
use crate::manifest::{OutputEntry, ResultManifest};
use crate::number;
use crate::placement;
use crate::proto::Kind;
use crate::shard::FrameRange;
use crate::text;
use vstd::prelude::*;
use vstd::string::*;
use vstd::utf8::*;

verus! {

broadcast use vstd::string::group_string_axioms;

/// Whether the first twelve bytes of an identifier end where a character does.
pub open spec fn shortable(id: Seq<char>) -> bool {
    encode_utf8(id).len() > 12 ==> is_char_boundary(encode_utf8(id), 12)
}

/// The first twelve bytes of an identifier, or all of it if it has no more.
pub open spec fn short_of(id: Seq<char>) -> Seq<char> {
    if encode_utf8(id).len() <= 12 {
        id
    } else {
        decode_utf8(encode_utf8(id).take(12))
    }
}

/// The first twelve bytes of an identifier, or all of it if it has no more.
pub fn short(id: &str) -> (res: &str)
    requires
        shortable(id@),
    ensures
        res@ == short_of(id@),
{
    let total: usize = id.as_bytes().len();
    if total <= 12 {
        return id;
    }
    let parts: (&str, &str) = id.split_at(12);
    proof {
        encode_utf8_decode_utf8(parts.0@);
    }
    parts.0
}

/// `s` with as many of `fill` before it as make it `width` characters long.
pub open spec fn right_aligned(s: Seq<char>, width: nat, fill: char) -> Seq<char> {
    if s.len() < width {
        Seq::new((width - s.len()) as nat, |i: int| fill) + s
    } else {
        s
    }
}

/// `s` with as many spaces after it as make it `width` characters long.
pub open spec fn left_aligned(s: Seq<char>, width: nat) -> Seq<char> {
    if s.len() < width {
        s + Seq::new((width - s.len()) as nat, |i: int| ' ')
    } else {
        s
    }
}

/// `count` times `fill`, which is one character.
fn repeat(fill: &str, count: usize) -> (res: String)
    requires
        fill@.len() == 1,
    ensures
        res@ == Seq::new(count as nat, |i: int| fill@[0]),
{
    let mut out: String = String::new();
    let mut i: usize = 0;
    while i < count
        invariant
            i <= count,
            fill@.len() == 1,
            out@ == Seq::new(i as nat, |k: int| fill@[0]),
        decreases count - i,
    {
        out.append(fill);
        i = i + 1;
        assert(out@ =~= Seq::new(i as nat, |k: int| fill@[0]));
    }
    assert(out@ =~= Seq::new(count as nat, |k: int| fill@[0]));
    out
}

/// `s` with as many of `fill`, which is one character, before it as make it `width` characters long.
fn align_right(s: &str, width: usize, fill: &str) -> (res: String)
    requires
        fill@.len() == 1,
    ensures
        res@ == right_aligned(s@, width as nat, fill@[0]),
{
    let length: usize = s.unicode_len();
    if length >= width {
        return s.to_owned();
    }
    let mut out: String = repeat(fill, width - length);
    out.append(s);
    assert(out@ =~= right_aligned(s@, width as nat, fill@[0]));
    out
}

/// `s` with as many spaces after it as make it `width` characters long.
fn align_left(s: &str, width: usize) -> (res: String)
    ensures
        res@ == left_aligned(s@, width as nat),
{
    let length: usize = s.unicode_len();
    if length >= width {
        return s.to_owned();
    }
    let mut out: String = s.to_owned();
    proof {
        reveal_strlit(" ");
    }
    let blanks: String = repeat(" ", width - length);
    out.append(blanks.as_str());
    assert(out@ =~= left_aligned(s@, width as nat));
    out
}

/// Numbers in base ten, with a comma and a space between each two.
pub open spec fn joined(frames: Seq<u32>) -> Seq<char>
    decreases frames.len(),
{
    if frames.len() == 0 {
        Seq::empty()
    } else if frames.len() == 1 {
        number::decimal(frames[0] as nat)
    } else {
        joined(frames.drop_last()) + ", "@ + number::decimal(frames.last() as nat)
    }
}

/// A list of frames in short: the first twenty, and how many more there are.
pub open spec fn brief_of(frames: Seq<u32>) -> Seq<char> {
    if frames.len() <= 20 {
        joined(frames)
    } else {
        joined(frames.take(20)) + ", ... ("@ + number::decimal((frames.len() - 20) as nat)
            + " more)"@
    }
}

/// A list of frames in short: the first twenty, and how many more there are.
pub fn brief(frames: &[u32]) -> (res: String)
    ensures
        res@ == brief_of(frames@),
{
    let total: usize = frames.len();
    let shown: usize = if total <= 20 {
        total
    } else {
        20
    };
    let mut out: String = String::new();
    let mut i: usize = 0;
    assert(out@ =~= joined(frames@.take(0)));
    while i < shown
        invariant
            i <= shown <= frames@.len(),
            out@ == joined(frames@.take(i as int)),
        decreases shown - i,
    {
        let ghost before = out@;
        if i > 0 {
            out.append(", ");
        }
        let number: String = number::decimal_text(frames[i] as u64);
        out.append(number.as_str());
        proof {
            assert(frames@.take(i + 1).drop_last() =~= frames@.take(i as int));
            assert(frames@.take(i + 1).last() == frames@[i as int]);
            if i == 0 {
                assert(out@ =~= joined(frames@.take(1)));
            } else {
                assert(out@ =~= joined(frames@.take(i + 1)));
            }
        }
        i = i + 1;
    }
    if total > 20 {
        out.append(", ... (");
        let more: String = number::decimal_text((total - 20) as u64);
        out.append(more.as_str());
        out.append(" more)");
    } else {
        assert(frames@.take(total as int) =~= frames@);
    }
    assert(out@ =~= brief_of(frames@));
    out
}

/// The rows of the first `n` hosts, each with its place.
pub open spec fn host_rows(ranked: Seq<Seq<char>>, n: nat) -> Seq<char>
    decreases n,
{
    if n == 0 {
        Seq::empty()
    } else {
        host_rows(ranked, (n - 1) as nat) + "  "@ + right_aligned(number::decimal(n), 2, ' ')
            + ". "@ + ranked[n - 1] + "\n"@
    }
}

/// The report on the ranked hosts.
pub open spec fn hosts_told(ranked: Seq<Seq<char>>) -> Seq<char> {
    if ranked.len() == 0 {
        "No candidate render hosts.\n"@
    } else {
        number::decimal(ranked.len()) + " ranked render host(s) (most-proven first):\n"@ + host_rows(
            ranked,
            ranked.len(),
        )
    }
}

/// The report on the ranked hosts.
pub fn hosts_report(ranked: &[String]) -> (res: String)
    ensures
        res@ == hosts_told(text::views(ranked@)),
{
    let total: usize = ranked.len();
    if total == 0 {
        return "No candidate render hosts.\n".to_owned();
    }
    let ghost names = text::views(ranked@);
    let mut out: String = number::decimal_text(total as u64);
    out.append(" ranked render host(s) (most-proven first):\n");
    let ghost head = out@;
    let mut i: usize = 0;
    assert(out@ =~= head + host_rows(names, 0));
    while i < total
        invariant
            i <= total,
            total == ranked@.len(),
            names == text::views(ranked@),
            out@ == head + host_rows(names, i as nat),
        decreases total - i,
    {
        proof {
            reveal_strlit(" ");
        }
        out.append("  ");
        let place: String = number::decimal_text(i as u64 + 1);
        let place: String = align_right(place.as_str(), 2, " ");
        out.append(place.as_str());
        out.append(". ");
        out.append(ranked[i].as_str());
        out.append("\n");
        i = i + 1;
        assert(out@ =~= head + host_rows(names, i as nat));
    }
    out
}

/// A kind's name.
pub open spec fn kind_name_of(kind: Kind) -> Seq<char> {
    match kind {
        Kind::Blender => "Blender"@,
        Kind::Chrome => "Chrome"@,
        Kind::Custom => "Custom"@,
    }
}

/// A kind's name.
pub fn kind_name(kind: Kind) -> (res: &'static str)
    ensures
        res@ == kind_name_of(kind),
{
    match kind {
        Kind::Blender => "Blender",
        Kind::Chrome => "Chrome",
        Kind::Custom => "Custom",
    }
}

/// The row of shard `i`: its number, its frames, its host, and whether it is to be checked.
pub open spec fn shard_row(plan: farm::Layout, i: int) -> Seq<char> {
    "  "@ + right_aligned(number::decimal(plan.shards[i].index as nat), 5, ' ') + "  "@
        + left_aligned(plan.shards[i].range.shown(), 8) + "  "@ + short_of(plan.assignment[i]) + (
    if plan.canary.contains(i as usize) {
        " [verify]"@
    } else {
        ""@
    }) + "\n"@
}

/// The rows of the first `n` shards.
pub open spec fn shard_rows(plan: farm::Layout, n: nat) -> Seq<char>
    decreases n,
{
    if n == 0 {
        Seq::empty()
    } else {
        shard_rows(plan, (n - 1) as nat) + shard_row(plan, n - 1)
    }
}

/// The head of the report on a plan.
pub open spec fn plan_head(
    kind: Kind,
    shard_size: u32,
    bid_per_frame: Seq<char>,
    plan: farm::Layout,
    percent: Seq<char>,
) -> Seq<char> {
    "Render plan:\n"@ + "  kind        "@ + kind_name_of(kind) + "\n  image       "@ + plan.image
        + "\n  frames      "@ + plan.range.shown() + " ("@ + number::decimal(plan.range.size())
        + " frames)\n  shards      "@ + number::decimal(plan.shards.len()) + " (size "@
        + number::decimal(shard_size as nat) + ")\n  hosts       "@ + number::decimal(
        placement::distinct_names(plan.assignment).len(),
    ) + "\n  verify      "@ + percent + "% ("@ + number::decimal(plan.canary.len())
        + " shard(s) canaried)\n  bid/frame   "@ + bid_per_frame
        + " base units\n\n  shard  frames    host\n"@
}

/// The report on a plan. `percent` is how the fraction to verify prints as a percentage.
pub open spec fn plan_told(cfg: &RenderConfig, plan: farm::Layout, percent: Seq<char>) -> Seq<char> {
    plan_head(cfg.kind, cfg.shard_size, cfg.bid_per_frame@, plan, percent) + shard_rows(
        plan,
        plan.shards.len(),
    )
}

/// Whether shard `i` is among `canary`.
fn is_canary(canary: &Vec<usize>, i: usize) -> (res: bool)
    ensures
        res == canary@.contains(i),
{
    let mut k: usize = 0;
    while k < canary.len()
        invariant
            k <= canary@.len(),
            forall|j: int| 0 <= j < k ==> #[trigger] canary@[j] != i,
        decreases canary@.len() - k,
    {
        if canary[k] == i {
            return true;
        }
        k = k + 1;
    }
    false
}

/// The report on a plan. `percent` is how the fraction to verify prints as a percentage.
pub fn plan_report(cfg: &RenderConfig, plan: &Plan, percent: &str) -> (res: String)
    requires
        plan.range.countable(),
        plan.assignment@.len() >= plan.shards@.len(),
        forall|i: int| 0 <= i < plan.shards@.len() ==> shortable(#[trigger] plan@.assignment[i]),
    ensures
        res@ == plan_told(cfg, plan@, percent@),
{
    let mut out: String = "Render plan:\n".to_owned();
    out.append("  kind        ");
    out.append(kind_name(cfg.kind));
    out.append("\n  image       ");
    out.append(plan.image.as_str());
    out.append("\n  frames      ");
    let range: String = plan.range.to_string();
    out.append(range.as_str());
    out.append(" (");
    let frames: String = number::decimal_text(plan.range.count() as u64);
    out.append(frames.as_str());
    out.append(" frames)\n  shards      ");
    let shards: String = number::decimal_text(plan.shards.len() as u64);
    out.append(shards.as_str());
    out.append(" (size ");
    let size: String = number::decimal_text(cfg.shard_size as u64);
    out.append(size.as_str());
    out.append(")\n  hosts       ");
    let hosts: Vec<String> = placement::distinct(plan.assignment.as_slice());
    assert(text::views(hosts@).len() == hosts@.len());
    let hosts: String = number::decimal_text(hosts.len() as u64);
    out.append(hosts.as_str());
    out.append("\n  verify      ");
    out.append(percent);
    out.append("% (");
    let checked: String = number::decimal_text(plan.canary.len() as u64);
    out.append(checked.as_str());
    out.append(" shard(s) canaried)\n  bid/frame   ");
    out.append(cfg.bid_per_frame.as_str());
    out.append(" base units\n\n  shard  frames    host\n");
    let ghost head = plan_head(cfg.kind, cfg.shard_size, cfg.bid_per_frame@, plan@, percent@);
    assert(out@ =~= head);
    let mut i: usize = 0;
    assert(out@ =~= head + shard_rows(plan@, 0));
    while i < plan.shards.len()
        invariant
            i <= plan.shards@.len(),
            plan.assignment@.len() >= plan.shards@.len(),
            forall|k: int|
                0 <= k < plan.shards@.len() ==> shortable(#[trigger] plan@.assignment[k]),
            out@ == head + shard_rows(plan@, i as nat),
        decreases plan.shards@.len() - i,
    {
        let ghost before = out@;
        proof {
            reveal_strlit(" ");
            assert(plan@.assignment[i as int] == plan.assignment@[i as int]@);
        }
        out.append("  ");
        let index: String = number::decimal_text(plan.shards[i].index as u64);
        let index: String = align_right(index.as_str(), 5, " ");
        out.append(index.as_str());
        out.append("  ");
        let range: String = plan.shards[i].range.to_string();
        let range: String = align_left(range.as_str(), 8);
        out.append(range.as_str());
        out.append("  ");
        out.append(short(plan.assignment[i].as_str()));
        if is_canary(&plan.canary, i) {
            out.append(" [verify]");
        } else {
            out.append("");
        }
        out.append("\n");
        assert(out@ =~= before + shard_row(plan@, i as int));
        i = i + 1;
        assert(out@ =~= head + shard_rows(plan@, i as nat));
    }
    out
}

/// The report on a job: how many of the frames were collected, and which are missing or diverged.
/// `path` is where the manifest was written.
pub open spec fn job_told(m: manifest::Assembly, frames: nat, path: Seq<char>) -> Seq<char> {
    "\nCollected "@ + number::decimal(m.outputs.len()) + "/"@ + number::decimal(frames)
        + " frame(s). "@ + number::decimal(m.missing.len()) + " missing, "@ + number::decimal(
        m.diverged.len(),
    ) + " diverged.\nManifest written to "@ + path + ".\n"@ + (if m.complete() {
        "Job complete. `ce-render fetch-all "@ + path + " -o out/` to pull the frames.\n"@
    } else {
        (if m.missing.len() > 0 {
            "Missing frames: "@ + brief_of(m.missing) + "\n"@
        } else {
            ""@
        }) + (if m.diverged.len() > 0 {
            "Diverged (fraud-suspect, unpaid) frames: "@ + brief_of(m.diverged) + "\n"@
        } else {
            ""@
        })
    })
}

/// The report on a job. `range` is the frames it was for, and `path` where its manifest was written.
pub fn job_report(m: &ResultManifest, range: FrameRange, path: &str) -> (res: String)
    requires
        range.countable(),
    ensures
        res@ == job_told(m@, range.size(), path@),
{
    proof {
        reveal_strlit("");
    }
    let mut out: String = "\nCollected ".to_owned();
    let collected: String = number::decimal_text(m.collected() as u64);
    out.append(collected.as_str());
    out.append("/");
    let frames: String = number::decimal_text(range.count() as u64);
    out.append(frames.as_str());
    out.append(" frame(s). ");
    let missing: String = number::decimal_text(m.missing.len() as u64);
    out.append(missing.as_str());
    out.append(" missing, ");
    let diverged: String = number::decimal_text(m.diverged.len() as u64);
    out.append(diverged.as_str());
    out.append(" diverged.\nManifest written to ");
    out.append(path);
    out.append(".\n");
    if m.is_complete() {
        out.append("Job complete. `ce-render fetch-all ");
        out.append(path);
        out.append(" -o out/` to pull the frames.\n");
    } else {
        if m.missing.len() > 0 {
            out.append("Missing frames: ");
            let list: String = brief(m.missing.as_slice());
            out.append(list.as_str());
            out.append("\n");
        }
        if m.diverged.len() > 0 {
            out.append("Diverged (fraud-suspect, unpaid) frames: ");
            let list: String = brief(m.diverged.as_slice());
            out.append(list.as_str());
            out.append("\n");
        }
    }
    assert(out@ =~= job_told(m@, range.size(), path@));
    out
}

/// A list of frames in short, or that there are none.
pub open spec fn brief_or_none(frames: Seq<u32>) -> Seq<char> {
    if frames.len() == 0 {
        "none"@
    } else {
        brief_of(frames)
    }
}

/// The row of an output: its frame, its host, where it is, and what a re-render said of it.
pub open spec fn output_row(e: manifest::FrameEntry) -> Seq<char> {
    "  "@ + right_aligned(number::decimal(e.frame as nat), 5, ' ') + "  "@ + short_of(e.host) + "  "@
        + e.output_cid + (match e.verified {
        Some(true) => " (verified)\n"@,
        Some(false) => " (DIVERGED)\n"@,
        None => "\n"@,
    })
}

/// The rows of the first `n` outputs.
pub open spec fn output_rows(outputs: Seq<manifest::FrameEntry>, n: nat) -> Seq<char>
    decreases n,
{
    if n == 0 {
        Seq::empty()
    } else {
        output_rows(outputs, (n - 1) as nat) + output_row(outputs[n - 1])
    }
}

/// The head of the report on a manifest.
pub open spec fn manifest_head(m: manifest::Assembly, path: Seq<char>) -> Seq<char> {
    "Manifest "@ + path + ":\n  range     "@ + m.range.shown() + "\n  collected "@
        + number::decimal(m.outputs.len()) + " frame(s)\n  missing   "@ + brief_or_none(m.missing)
        + "\n  diverged  "@ + brief_or_none(m.diverged) + "\n  complete  "@ + (if m.complete() {
        "true"@
    } else {
        "false"@
    }) + "\n\n  frame  host          cid\n"@
}

/// The report on a manifest that was read from `path`.
pub open spec fn manifest_told(m: manifest::Assembly, path: Seq<char>) -> Seq<char> {
    manifest_head(m, path) + output_rows(m.outputs, m.outputs.len())
}

/// The report on a manifest that was read from `path`.
pub fn manifest_report(m: &ResultManifest, path: &str) -> (res: String)
    requires
        forall|i: int| 0 <= i < m.outputs@.len() ==> shortable((#[trigger] m.outputs@[i]).host@),
    ensures
        res@ == manifest_told(m@, path@),
{
    let mut out: String = "Manifest ".to_owned();
    out.append(path);
    out.append(":\n  range     ");
    let range: String = m.range.to_string();
    out.append(range.as_str());
    out.append("\n  collected ");
    let collected: String = number::decimal_text(m.collected() as u64);
    out.append(collected.as_str());
    out.append(" frame(s)\n  missing   ");
    if m.missing.len() == 0 {
        out.append("none");
    } else {
        let list: String = brief(m.missing.as_slice());
        out.append(list.as_str());
    }
    out.append("\n  diverged  ");
    if m.diverged.len() == 0 {
        out.append("none");
    } else {
        let list: String = brief(m.diverged.as_slice());
        out.append(list.as_str());
    }
    out.append("\n  complete  ");
    if m.is_complete() {
        out.append("true");
    } else {
        out.append("false");
    }
    out.append("\n\n  frame  host          cid\n");
    let ghost head = manifest_head(m@, path@);
    assert(out@ =~= head);
    let mut i: usize = 0;
    assert(out@ =~= head + output_rows(m@.outputs, 0));
    while i < m.outputs.len()
        invariant
            i <= m.outputs@.len(),
            forall|k: int|
                0 <= k < m.outputs@.len() ==> shortable((#[trigger] m.outputs@[k]).host@),
            out@ == head + output_rows(m@.outputs, i as nat),
        decreases m.outputs@.len() - i,
    {
        let ghost before = out@;
        proof {
            reveal_strlit(" ");
        }
        let e: &OutputEntry = &m.outputs[i];
        assert(m@.outputs[i as int] == e@);
        out.append("  ");
        let frame: String = number::decimal_text(e.frame as u64);
        let frame: String = align_right(frame.as_str(), 5, " ");
        out.append(frame.as_str());
        out.append("  ");
        out.append(short(e.host.as_str()));
        out.append("  ");
        out.append(e.output_cid.as_str());
        match e.verified {
            Some(ok) => {
                if ok {
                    out.append(" (verified)\n");
                } else {
                    out.append(" (DIVERGED)\n");
                }
            },
            None => {
                out.append("\n");
            },
        }
        assert(out@ =~= before + output_row(e@));
        i = i + 1;
        assert(out@ =~= head + output_rows(m@.outputs, i as nat));
    }
    out
}

/// The name of the file that holds a fetched frame.
pub open spec fn file_name_of(frame: u32, cid: Seq<char>) -> Seq<char> {
    "frame_"@ + right_aligned(number::decimal(frame as nat), 5, '0') + "_"@ + short_of(cid)
        + ".bin"@
}

/// Whether an output can be fetched: one that is nowhere cannot.
pub fn is_fetchable(entry: &OutputEntry) -> (res: bool)
    ensures
        res == (entry.output_cid@.len() > 0),
{
    !entry.output_cid.as_str().is_empty()
}

/// The name of the file that holds a fetched frame.
pub fn file_name(entry: &OutputEntry) -> (res: String)
    requires
        shortable(entry.output_cid@),
    ensures
        res@ == file_name_of(entry.frame, entry.output_cid@),
{
    proof {
        reveal_strlit("0");
    }
    let mut out: String = "frame_".to_owned();
    let frame: String = number::decimal_text(entry.frame as u64);
    let frame: String = align_right(frame.as_str(), 5, "0");
    out.append(frame.as_str());
    out.append("_");
    out.append(short(entry.output_cid.as_str()));
    out.append(".bin");
    assert(out@ =~= file_name_of(entry.frame, entry.output_cid@));
    out
}

/// How many of the outcomes are `wanted`.
pub open spec fn tally(outcomes: Seq<bool>, wanted: bool) -> nat
    decreases outcomes.len(),
{
    if outcomes.len() == 0 {
        0
    } else if outcomes.last() == wanted {
        tally(outcomes.drop_last(), wanted) + 1
    } else {
        tally(outcomes.drop_last(), wanted)
    }
}

/// The report on what was fetched into `dir`.
pub open spec fn fetch_told(outcomes: Seq<bool>, dir: Seq<char>) -> Seq<char> {
    "Fetched "@ + number::decimal(tally(outcomes, true)) + " frame(s) into "@ + dir + " ("@
        + number::decimal(tally(outcomes, false)) + " failed).\n"@
}

/// Whether anything was fetched, or there was nothing to fetch.
pub open spec fn fetch_succeeded(outcomes: Seq<bool>) -> bool {
    tally(outcomes, true) > 0 || outcomes.len() == 0
}

/// The report on what was fetched into `dir`, and whether anything was, unless there was nothing to
/// fetch. `outcomes` says of each output of the manifest whether it was fetched.
pub fn fetch_report(outcomes: &[bool], dir: &str) -> (res: (String, bool))
    ensures
        res.0@ == fetch_told(outcomes@, dir@),
        res.1 == fetch_succeeded(outcomes@),
{
    let mut fetched: usize = 0;
    let mut failed: usize = 0;
    let mut i: usize = 0;
    while i < outcomes.len()
        invariant
            i <= outcomes@.len(),
            fetched <= i,
            failed <= i,
            fetched == tally(outcomes@.take(i as int), true),
            failed == tally(outcomes@.take(i as int), false),
        decreases outcomes@.len() - i,
    {
        assert(outcomes@.take(i + 1).drop_last() =~= outcomes@.take(i as int));
        if outcomes[i] {
            fetched = fetched + 1;
        } else {
            failed = failed + 1;
        }
        i = i + 1;
    }
    assert(outcomes@.take(outcomes@.len() as int) =~= outcomes@);
    let mut out: String = "Fetched ".to_owned();
    let count: String = number::decimal_text(fetched as u64);
    out.append(count.as_str());
    out.append(" frame(s) into ");
    out.append(dir);
    out.append(" (");
    let count: String = number::decimal_text(failed as u64);
    out.append(count.as_str());
    out.append(" failed).\n");
    assert(out@ =~= fetch_told(outcomes@, dir@));
    (out, fetched > 0 || outcomes.len() == 0)
}

/// An identifier is cut to its first twelve bytes, and to nothing less where it has no more.
pub proof fn short_is_the_first_bytes(id: Seq<char>)
    requires
        shortable(id),
    ensures
        encode_utf8(id).len() <= 12 ==> short_of(id) == id,
        encode_utf8(id).len() > 12 ==> encode_utf8(short_of(id)) == encode_utf8(id).take(12),
{
    let bytes = encode_utf8(id);
    if bytes.len() > 12 {
        encode_utf8_valid_utf8(id);
        valid_utf8_split(bytes, 12);
        assert(bytes.take(12) =~= bytes.subrange(0, 12));
        decode_utf8_encode_utf8(bytes.take(12));
    }
}

/// Aligned text is as wide as is asked for, or as it is where it is wider; it stands whole at its side,
/// with nothing but the fill at the other.
pub proof fn aligned_text_stands_at_its_side(s: Seq<char>, width: nat, fill: char)
    ensures
        ({
            let r = right_aligned(s, width, fill);
            let n = r.len() - s.len();
            &&& r.len() == (if s.len() < width {
                width
            } else {
                s.len()
            })
            &&& r.skip(n) == s
            &&& forall|i: int| 0 <= i < n ==> #[trigger] r[i] == fill
        }),
        ({
            let r = left_aligned(s, width);
            &&& r.len() == (if s.len() < width {
                width
            } else {
                s.len()
            })
            &&& r.take(s.len() as int) == s
            &&& forall|i: int| s.len() <= i < r.len() ==> #[trigger] r[i] == ' '
        }),
{
    let r = right_aligned(s, width, fill);
    assert(r.skip(r.len() - s.len()) =~= s);
    assert(left_aligned(s, width).take(s.len() as int) =~= s);
}

/// A list of frames is told frame by frame, each in base ten and with a comma before all but the first;
/// after the twentieth it is only told how many more there are.
pub proof fn list_is_told_frame_by_frame(frames: Seq<u32>, frame: u32)
    ensures
        brief_of(Seq::empty()) == Seq::<char>::empty(),
        frames.len() == 0 ==> brief_of(frames.push(frame)) == number::decimal(frame as nat),
        0 < frames.len() < 20 ==> brief_of(frames.push(frame)) == brief_of(frames) + ", "@
            + number::decimal(frame as nat),
        frames.len() >= 20 ==> brief_of(frames.push(frame)) == brief_of(frames.take(20))
            + ", ... ("@ + number::decimal((frames.len() - 19) as nat) + " more)"@,
{
    let more = frames.push(frame);
    assert(more.drop_last() =~= frames);
    if frames.len() >= 20 {
        assert(more.take(20) =~= frames.take(20));
    }
}

/// The list of hosts has a row for each, with its place and its whole name, in the order of the rank.
pub proof fn each_host_has_its_row(ranked: Seq<Seq<char>>, n: nat)
    requires
        n < ranked.len(),
    ensures
        host_rows(ranked, 0) == Seq::<char>::empty(),
        host_rows(ranked, n + 1) == host_rows(ranked, n) + ("  "@ + right_aligned(
            number::decimal(n + 1),
            2,
            ' ',
        ) + ". "@ + ranked[n as int] + "\n"@),
        hosts_told(ranked) == number::decimal(ranked.len())
            + " ranked render host(s) (most-proven first):\n"@ + host_rows(ranked, ranked.len()),
{
    assert(host_rows(ranked, n + 1) =~= host_rows(ranked, n) + ("  "@ + right_aligned(
        number::decimal(n + 1),
        2,
        ' ',
    ) + ". "@ + ranked[n as int] + "\n"@));
}

/// The row of a shard has its number, its frames and its host, and says that it is to be checked exactly
/// where the plan picks it.
pub proof fn each_shard_has_its_row(plan: farm::Layout, i: int)
    requires
        0 <= i < plan.shards.len() <= usize::MAX,
    ensures
        ({
            let named = "  "@ + right_aligned(
                number::decimal(plan.shards[i].index as nat),
                5,
                ' ',
            ) + "  "@ + left_aligned(plan.shards[i].range.shown(), 8) + "  "@ + short_of(
                plan.assignment[i],
            );
            shard_rows(plan, (i + 1) as nat) == shard_rows(plan, i as nat) + named + (if exists|
                k: int,
            |
                0 <= k < plan.canary.len() && #[trigger] plan.canary[k] == i {
                " [verify]"@
            } else {
                Seq::empty()
            }) + "\n"@
        }),
{
    reveal_strlit("");
    let named = "  "@ + right_aligned(number::decimal(plan.shards[i].index as nat), 5, ' ') + "  "@
        + left_aligned(plan.shards[i].range.shown(), 8) + "  "@ + short_of(plan.assignment[i]);
    if plan.canary.contains(i as usize) {
        let k = choose|k: int| 0 <= k < plan.canary.len() && plan.canary[k] == i as usize;
        assert(plan.canary[k] == i);
        assert(shard_rows(plan, (i + 1) as nat) =~= shard_rows(plan, i as nat) + named
            + " [verify]"@ + "\n"@);
    } else {
        assert forall|k: int| 0 <= k < plan.canary.len() implies #[trigger] plan.canary[k]
            != i by {
            assert(plan.canary.contains(plan.canary[k]));
        }
        assert(shard_rows(plan, (i + 1) as nat) =~= shard_rows(plan, i as nat) + named
            + Seq::<char>::empty() + "\n"@);
    }
}

/// The row of an output has its frame, its host and where it is, whole, and says whether a second render
/// agreed or diverged.
pub proof fn each_output_has_its_row(outputs: Seq<manifest::FrameEntry>, i: int)
    requires
        0 <= i < outputs.len(),
    ensures
        output_rows(outputs, (i + 1) as nat) == output_rows(outputs, i as nat) + "  "@
            + right_aligned(number::decimal(outputs[i].frame as nat), 5, ' ') + "  "@ + short_of(
            outputs[i].host,
        ) + "  "@ + outputs[i].output_cid + (if outputs[i].verified == Some(true) {
            " (verified)\n"@
        } else if outputs[i].verified == Some(false) {
            " (DIVERGED)\n"@
        } else {
            "\n"@
        }),
{
    let mark = if outputs[i].verified == Some(true) {
        " (verified)\n"@
    } else if outputs[i].verified == Some(false) {
        " (DIVERGED)\n"@
    } else {
        "\n"@
    };
    assert(output_rows(outputs, (i + 1) as nat) =~= output_rows(outputs, i as nat) + "  "@
        + right_aligned(number::decimal(outputs[i].frame as nat), 5, ' ') + "  "@ + short_of(
        outputs[i].host,
    ) + "  "@ + outputs[i].output_cid + mark);
}

/// The report on a job tells how many frames were collected and of how many, how many are missing and
/// how many diverged; it says that the job is complete exactly where none is and none did, and
/// otherwise lists those that are and those that did.
pub proof fn job_is_told_as_it_ended(m: manifest::Assembly, frames: nat, path: Seq<char>)
    ensures
        ({
            let counted = "\nCollected "@ + number::decimal(m.outputs.len()) + "/"@
                + number::decimal(frames) + " frame(s). "@ + number::decimal(m.missing.len())
                + " missing, "@ + number::decimal(m.diverged.len())
                + " diverged.\nManifest written to "@ + path + ".\n"@;
            let complete = "Job complete. `ce-render fetch-all "@ + path
                + " -o out/` to pull the frames.\n"@;
            let lost = "Missing frames: "@ + brief_of(m.missing) + "\n"@;
            let bad = "Diverged (fraud-suspect, unpaid) frames: "@ + brief_of(m.diverged) + "\n"@;
            let told = job_told(m, frames, path);
            &&& m.missing.len() == 0 && m.diverged.len() == 0 ==> told == counted + complete
            &&& m.missing.len() > 0 && m.diverged.len() == 0 ==> told == counted + lost
            &&& m.missing.len() == 0 && m.diverged.len() > 0 ==> told == counted + bad
            &&& m.missing.len() > 0 && m.diverged.len() > 0 ==> told == counted + lost + bad
        }),
{
    reveal_strlit("");
    let counted = "\nCollected "@ + number::decimal(m.outputs.len()) + "/"@ + number::decimal(frames)
        + " frame(s). "@ + number::decimal(m.missing.len()) + " missing, "@ + number::decimal(
        m.diverged.len(),
    ) + " diverged.\nManifest written to "@ + path + ".\n"@;
    let lost = "Missing frames: "@ + brief_of(m.missing) + "\n"@;
    let bad = "Diverged (fraud-suspect, unpaid) frames: "@ + brief_of(m.diverged) + "\n"@;
    assert(""@ =~= Seq::<char>::empty());
    assert(lost + ""@ =~= lost);
    assert(""@ + bad =~= bad);
    assert(counted + (lost + bad) =~= counted + lost + bad);
}

/// Every output was fetched or failed, and one more that was fetched, or that failed, is counted as
/// such.
pub proof fn every_fetch_is_counted(outcomes: Seq<bool>, fetched: bool)
    ensures
        tally(Seq::empty(), true) == 0 && tally(Seq::empty(), false) == 0,
        tally(outcomes.push(fetched), fetched) == tally(outcomes, fetched) + 1,
        tally(outcomes.push(fetched), !fetched) == tally(outcomes, !fetched),
{
    assert(outcomes.push(fetched).drop_last() =~= outcomes);
}

/// The file of a frame bears the frame's number, in five digits at least, and the head of its output.
pub proof fn file_bears_frame_and_output(frame: u32, cid: Seq<char>)
    ensures
        file_name_of(frame, cid) == "frame_"@ + right_aligned(
            number::decimal(frame as nat),
            5,
            '0',
        ) + "_"@ + short_of(cid) + ".bin"@,
{
}

/// The report on a plan begins with what the plan is for and how many shards, hosts and checks it has,
/// and has then a row for each shard.
pub proof fn plan_is_told_from_the_plan(cfg: RenderConfig, plan: farm::Layout, percent: Seq<char>)
    ensures
        ({
            let name = match cfg.kind {
                Kind::Blender => "Blender"@,
                Kind::Chrome => "Chrome"@,
                Kind::Custom => "Custom"@,
            };
            let head = "Render plan:\n"@ + "  kind        "@ + name + "\n  image       "@ + plan.image
                + "\n  frames      "@ + plan.range.shown() + " ("@ + number::decimal(
                plan.range.size(),
            ) + " frames)\n  shards      "@ + number::decimal(plan.shards.len()) + " (size "@
                + number::decimal(cfg.shard_size as nat) + ")\n  hosts       "@ + number::decimal(
                placement::distinct_names(plan.assignment).len(),
            ) + "\n  verify      "@ + percent + "% ("@ + number::decimal(plan.canary.len())
                + " shard(s) canaried)\n  bid/frame   "@ + cfg.bid_per_frame@
                + " base units\n\n  shard  frames    host\n"@;
            plan_told(&cfg, plan, percent) == head + shard_rows(plan, plan.shards.len())
        }),
{
}

/// The report on a manifest begins with its range, how many frames it has, which are missing or
/// diverged and whether it is complete, and has then a row for each output.
pub proof fn manifest_is_told_from_the_manifest(m: manifest::Assembly, path: Seq<char>)
    ensures
        ({
            let head = "Manifest "@ + path + ":\n  range     "@ + m.range.shown()
                + "\n  collected "@ + number::decimal(m.outputs.len())
                + " frame(s)\n  missing   "@ + (if m.missing.len() == 0 {
                "none"@
            } else {
                brief_of(m.missing)
            }) + "\n  diverged  "@ + (if m.diverged.len() == 0 {
                "none"@
            } else {
                brief_of(m.diverged)
            }) + "\n  complete  "@ + (if m.missing.len() == 0 && m.diverged.len() == 0 {
                "true"@
            } else {
                "false"@
            });
            let told = manifest_told(m, path);
            let rows = output_rows(m.outputs, m.outputs.len());
            &&& head.is_prefix_of(told)
            &&& rows.len() <= told.len() && told.skip(told.len() - rows.len()) == rows
        }),
{
    let head = "Manifest "@ + path + ":\n  range     "@ + m.range.shown() + "\n  collected "@
        + number::decimal(m.outputs.len()) + " frame(s)\n  missing   "@ + brief_or_none(m.missing)
        + "\n  diverged  "@ + brief_or_none(m.diverged) + "\n  complete  "@ + (if m.complete() {
        "true"@
    } else {
        "false"@
    });
    let told = manifest_told(m, path);
    let rows = output_rows(m.outputs, m.outputs.len());
    assert(head =~= told.subrange(0, head.len() as int));
    assert(told.skip(told.len() - rows.len()) =~= rows);
}

/// What was fetched is told by its counts and its place, and every output is in one of the counts.
pub proof fn fetch_is_told_by_its_counts(outcomes: Seq<bool>, dir: Seq<char>)
    ensures
        fetch_told(outcomes, dir) == "Fetched "@ + number::decimal(tally(outcomes, true))
            + " frame(s) into "@ + dir + " ("@ + number::decimal(tally(outcomes, false))
            + " failed).\n"@,
        tally(outcomes, true) + tally(outcomes, false) == outcomes.len(),
        fetch_succeeded(outcomes) <==> outcomes.len() == 0 || exists|i: int|
            0 <= i < outcomes.len() && #[trigger] outcomes[i],
    decreases outcomes.len(),
{
    if outcomes.len() > 0 {
        let t = outcomes.drop_last();
        fetch_is_told_by_its_counts(t, dir);
        if outcomes.last() {
            assert(outcomes[outcomes.len() - 1]);
        } else if exists|i: int| 0 <= i < outcomes.len() && #[trigger] outcomes[i] {
            let i = choose|i: int| 0 <= i < outcomes.len() && #[trigger] outcomes[i];
            assert(t[i]);
        } else if exists|i: int| 0 <= i < t.len() && #[trigger] t[i] {
            let i = choose|i: int| 0 <= i < t.len() && #[trigger] t[i];
            assert(outcomes[i]);
        }
    }
}

} // verus!
