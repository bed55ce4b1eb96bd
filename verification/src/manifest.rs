//! The result manifest: the outputs of a job's frames, put back in frame order.
//!
//! Hosts return frames in any order, some of them twice, some of them never. The manifest lists the
//! output of every frame that came back, the frames that did not, and those whose re-render on a
//! second host gave something else.

use crate::seqs;
use crate::shard::FrameRange;
use crate::text;
use std::collections::HashMap;
use vstd::prelude::*;

verus! {

broadcast use vstd::std_specs::hash::group_hash_axioms;

/// One frame's output: who rendered it, where the output is, and what a re-render said of it.
#[verifier::ext_equal]
pub struct FrameEntry {
    pub frame: u32,
    pub host: Seq<char>,
    pub output_cid: Seq<char>,
    pub verified: Option<bool>,
}

/// One rendered frame, as a host returned it. `verified` is `Some(true)` where a re-render on a
/// second host agreed, `Some(false)` where it did not, and `None` where there was none.
#[derive(Debug, PartialEq, Eq)]
pub struct FrameResult {
    pub frame: u32,
    pub host: String,
    pub output_cid: String,
    pub verified: Option<bool>,
}

impl View for FrameResult {
    type V = FrameEntry;

    open spec fn view(&self) -> FrameEntry {
        FrameEntry {
            frame: self.frame,
            host: self.host@,
            output_cid: self.output_cid@,
            verified: self.verified,
        }
    }
}

impl Clone for FrameResult {
    fn clone(&self) -> (res: Self)
        ensures
            res@ == self@,
    {
        FrameResult {
            frame: self.frame,
            host: self.host.clone(),
            output_cid: self.output_cid.clone(),
            verified: self.verified,
        }
    }
}

/// One entry of the manifest.
#[derive(Debug, PartialEq, Eq)]
pub struct OutputEntry {
    pub frame: u32,
    pub host: String,
    pub output_cid: String,
    pub verified: Option<bool>,
}

impl View for OutputEntry {
    type V = FrameEntry;

    open spec fn view(&self) -> FrameEntry {
        FrameEntry {
            frame: self.frame,
            host: self.host@,
            output_cid: self.output_cid@,
            verified: self.verified,
        }
    }
}

impl Clone for OutputEntry {
    fn clone(&self) -> (res: Self)
        ensures
            res@ == self@,
    {
        OutputEntry {
            frame: self.frame,
            host: self.host.clone(),
            output_cid: self.output_cid.clone(),
            verified: self.verified,
        }
    }
}

/// The result of a whole job: the outputs in frame order, the frames without one, and the frames
/// whose re-render diverged. The latter are among the outputs, but not to be trusted or paid for.
#[derive(Debug, Clone, PartialEq, Eq)]
pub struct ResultManifest {
    pub range: FrameRange,
    pub outputs: Vec<OutputEntry>,
    pub missing: Vec<u32>,
    pub diverged: Vec<u32>,
}

/// What a manifest says.
#[verifier::ext_equal]
pub struct Assembly {
    pub range: FrameRange,
    pub outputs: Seq<FrameEntry>,
    pub missing: Seq<u32>,
    pub diverged: Seq<u32>,
}

impl View for ResultManifest {
    type V = Assembly;

    open spec fn view(&self) -> Assembly {
        Assembly {
            range: self.range,
            outputs: self.outputs@.map_values(|e: OutputEntry| e@),
            missing: self.missing@,
            diverged: self.diverged@,
        }
    }
}

/// The results, with texts taken as character sequences.
pub open spec fn entries(results: Seq<FrameResult>) -> Seq<FrameEntry> {
    results.map_values(|r: FrameResult| r@)
}

/// The last result for `frame`.
pub open spec fn latest(results: Seq<FrameEntry>, frame: u32) -> Option<FrameEntry>
    decreases results.len(),
{
    if results.len() == 0 {
        None
    } else if results.last().frame == frame {
        Some(results.last())
    } else {
        latest(results.drop_last(), frame)
    }
}

/// Whether the last result for `frame` is one whose re-render diverged.
pub open spec fn diverges(results: Seq<FrameEntry>, frame: u32) -> bool {
    match latest(results, frame) {
        Some(e) => e.verified == Some(false),
        None => false,
    }
}

/// The frames of `range` that have a result, ascending.
pub open spec fn collected_frames(range: FrameRange, results: Seq<FrameEntry>) -> Seq<u32> {
    range.frames().filter(|f: u32| latest(results, f) is Some)
}

/// The frames of `range` that have no result, ascending.
pub open spec fn missing_frames(range: FrameRange, results: Seq<FrameEntry>) -> Seq<u32> {
    range.frames().filter(|f: u32| latest(results, f) is None)
}

/// The frames of `range` whose last result diverged, ascending.
pub open spec fn diverged_frames(range: FrameRange, results: Seq<FrameEntry>) -> Seq<u32> {
    range.frames().filter(|f: u32| diverges(results, f))
}

/// The manifest of `results` over `range`: of each frame the last result counts, and results for
/// frames outside the range do not.
pub open spec fn assembled(range: FrameRange, results: Seq<FrameEntry>) -> Assembly {
    Assembly {
        range,
        outputs: collected_frames(range, results).map_values(|f: u32| latest(results, f)->0),
        missing: missing_frames(range, results),
        diverged: diverged_frames(range, results),
    }
}

impl Assembly {
    /// Where the outputs are, in frame order.
    pub open spec fn fetch_list(self) -> Seq<Seq<char>> {
        self.outputs.map_values(|e: FrameEntry| e.output_cid)
    }

    /// Whether every frame has an output and none diverged.
    pub open spec fn complete(self) -> bool {
        self.missing.len() == 0 && self.diverged.len() == 0
    }
}

impl ResultManifest {
    /// Assembles the manifest of `results` over the frames of `range`.
    pub fn assemble(range: FrameRange, results: &[FrameResult]) -> (res: Self)
        ensures
            res@ == assembled(range, entries(results@)),
    {
        let ghost all = entries(results@);
        let mut by_frame: HashMap<u32, usize> = HashMap::new();
        let mut i: usize = 0;
        while i < results.len()
            invariant
                i <= results@.len(),
                all == entries(results@),
                forall|f: u32| #[trigger]
                    by_frame@.contains_key(f) ==> range.has(f as int) && by_frame@[f] < i && latest(
                        all.take(i as int),
                        f,
                    ) == Some(all[by_frame@[f] as int]),
                forall|f: u32|
                    range.has(f as int) && !#[trigger] by_frame@.contains_key(f) ==> latest(
                        all.take(i as int),
                        f,
                    ) is None,
            decreases results@.len() - i,
        {
            let frame: u32 = results[i].frame;
            assert(all.take(i + 1).drop_last() =~= all.take(i as int));
            assert(all.take(i + 1).last() == results@[i as int]@);
            if range.start <= frame && frame <= range.end {
                by_frame.insert(frame, i);
            }
            i = i + 1;
        }
        assert(all.take(all.len() as int) =~= all);

        let mut outputs: Vec<OutputEntry> = Vec::new();
        let mut missing: Vec<u32> = Vec::new();
        let mut diverged: Vec<u32> = Vec::new();
        let mut next: u64 = range.start as u64;
        let ghost frames = range.frames();
        let ghost kept = |f: u32| latest(all, f) is Some;
        let ghost lost = |f: u32| latest(all, f) is None;
        let ghost bad = |f: u32| diverges(all, f);
        let ghost entry = |f: u32| latest(all, f)->0;
        proof {
            reveal(Seq::filter);
            assert(outputs@.map_values(|e: OutputEntry| e@) =~= frames.take(0).filter(
                kept,
            ).map_values(entry));
        }
        while next <= range.end as u64
            invariant
                all == entries(results@),
                frames == range.frames(),
                kept == (|f: u32| latest(all, f) is Some),
                lost == (|f: u32| latest(all, f) is None),
                bad == (|f: u32| diverges(all, f)),
                entry == (|f: u32| latest(all, f)->0),
                range.start <= next,
                range.valid() ==> next <= range.end + 1,
                !range.valid() ==> next == range.start,
                forall|f: u32| #[trigger]
                    by_frame@.contains_key(f) ==> by_frame@[f] < results@.len() && latest(all, f)
                        == Some(all[by_frame@[f] as int]),
                forall|f: u32|
                    range.has(f as int) && !#[trigger] by_frame@.contains_key(f) ==> latest(all, f)
                        is None,
                outputs@.map_values(|e: OutputEntry| e@) == frames.take(
                    next - range.start,
                ).filter(kept).map_values(entry),
                missing@ == frames.take(next - range.start).filter(lost),
                diverged@ == frames.take(next - range.start).filter(bad),
            decreases range.end + 1 - next,
        {
            let frame: u32 = next as u32;
            let ghost k = next - range.start;
            let ghost before = outputs@.map_values(|e: OutputEntry| e@);
            proof {
                reveal(Seq::filter);
                assert(frames.take(k + 1).drop_last() =~= frames.take(k));
                assert(frames.take(k + 1).last() == frame);
            }
            match by_frame.get(&frame) {
                Some(at) => {
                    let r: &FrameResult = &results[*at];
                    outputs.push(
                        OutputEntry {
                            frame: r.frame,
                            host: r.host.clone(),
                            output_cid: r.output_cid.clone(),
                            verified: r.verified,
                        },
                    );
                    assert(outputs@.last()@ == all[*at as int]);
                    assert(outputs@.map_values(|e: OutputEntry| e@) =~= before.push(
                        outputs@.last()@,
                    ));
                    assert(frames.take(k + 1).filter(kept).map_values(entry) =~= frames.take(
                        k,
                    ).filter(kept).map_values(entry).push(entry(frame)));
                    if let Some(ok) = r.verified {
                        if !ok {
                            diverged.push(frame);
                        }
                    }
                },
                None => {
                    missing.push(frame);
                },
            }
            next = next + 1;
        }
        assert(frames.take(frames.len() as int) =~= frames);
        ResultManifest { range, outputs, missing, diverged }
    }

    /// Whether every frame has an output and none diverged.
    pub fn is_complete(&self) -> (res: bool)
        ensures
            res == self@.complete(),
    {
        self.missing.len() == 0 && self.diverged.len() == 0
    }

    /// The output identifiers in frame order: what is to be fetched.
    pub fn cids(&self) -> (res: Vec<String>)
        ensures
            text::views(res@) == self@.fetch_list(),
    {
        let mut out: Vec<String> = Vec::new();
        let mut i: usize = 0;
        while i < self.outputs.len()
            invariant
                i <= self.outputs@.len(),
                out@.len() == i,
                forall|k: int| 0 <= k < i ==> (#[trigger] out@[k])@ == self.outputs@[k].output_cid@,
            decreases self.outputs@.len() - i,
        {
            out.push(self.outputs[i].output_cid.clone());
            i = i + 1;
        }
        assert(text::views(out@) =~= self@.fetch_list());
        out
    }

    /// How many frames have an output, verified or not.
    pub fn collected(&self) -> (res: usize)
        ensures
            res == self@.outputs.len(),
    {
        self.outputs.len()
    }
}

/// Strictly ascending.
pub open spec fn ascending(s: Seq<u32>) -> bool {
    forall|i: int, j: int| 0 <= i < j < s.len() ==> #[trigger] s[i] < #[trigger] s[j]
}

proof fn lemma_filter_ascending(s: Seq<u32>, p: spec_fn(u32) -> bool)
    requires
        ascending(s),
    ensures
        ascending(s.filter(p)),
        forall|i: int| 0 <= i < s.filter(p).len() ==> s.contains(#[trigger] s.filter(p)[i]),
{
    let less = |a: u32, b: u32| a < b;
    seqs::lemma_filter_in_order(s, p, less);
    assert forall|i: int, j: int| 0 <= i < j < s.filter(p).len() implies #[trigger] s.filter(p)[i]
        < #[trigger] s.filter(p)[j] by {
        assert(less(s.filter(p)[i], s.filter(p)[j]));
    }
}

proof fn lemma_frames(range: FrameRange)
    ensures
        ascending(range.frames()),
        forall|f: u32| #[trigger] range.frames().contains(f) <==> range.has(f as int),
{
    assert forall|f: u32| range.has(f as int) implies #[trigger] range.frames().contains(f) by {
        assert(range.frames()[f - range.start] == f);
    }
}

/// The last result of a concatenation is the last of its second part, else of its first.
pub proof fn lemma_latest_concat(a: Seq<FrameEntry>, b: Seq<FrameEntry>, frame: u32)
    ensures
        latest(a + b, frame) == (if latest(b, frame) is Some {
            latest(b, frame)
        } else {
            latest(a, frame)
        }),
    decreases b.len(),
{
    if b.len() == 0 {
        assert(a + b =~= a);
    } else {
        assert((a + b).last() == b.last());
        assert((a + b).drop_last() =~= a + b.drop_last());
        lemma_latest_concat(a, b.drop_last(), frame);
    }
}

/// The last result for a frame is a result for that frame.
pub proof fn lemma_latest_frame(results: Seq<FrameEntry>, frame: u32)
    ensures
        latest(results, frame) matches Some(e) ==> e.frame == frame && results.contains(e),
        latest(results, frame) is None <==> forall|i: int|
            0 <= i < results.len() ==> (#[trigger] results[i]).frame != frame,
    decreases results.len(),
{
    if results.len() > 0 {
        let t = results.drop_last();
        lemma_latest_frame(t, frame);
        assert(results.contains(results.last())) by {
            assert(results[results.len() - 1] == results.last());
        }
        if results.last().frame != frame {
            if let Some(e) = latest(t, frame) {
                let i = choose|i: int| 0 <= i < t.len() && t[i] == e;
                assert(results[i] == e);
            } else {
                assert forall|i: int| 0 <= i < results.len() implies (#[trigger] results[i]).frame
                    != frame by {
                    if i < t.len() {
                        assert(t[i] == results[i]);
                    }
                }
            }
        }
    }
}

/// Two collections of results with the same last result for every frame of the range make the same
/// manifest.
pub proof fn latest_results_decide(range: FrameRange, a: Seq<FrameEntry>, b: Seq<FrameEntry>)
    requires
        forall|f: u32| range.has(f as int) ==> #[trigger] latest(a, f) == latest(b, f),
    ensures
        assembled(range, a) == assembled(range, b),
{
    let frames = range.frames();
    lemma_frames(range);
    assert forall|i: int| 0 <= i < frames.len() implies latest(a, #[trigger] frames[i]) == latest(
        b,
        frames[i],
    ) by {
        assert(frames.contains(frames[i]));
    }
    seqs::lemma_filter_agree(frames, |f: u32| latest(a, f) is Some, |f: u32| latest(b, f) is Some);
    seqs::lemma_filter_agree(frames, |f: u32| latest(a, f) is None, |f: u32| latest(b, f) is None);
    seqs::lemma_filter_agree(frames, |f: u32| diverges(a, f), |f: u32| diverges(b, f));
    let kept = collected_frames(range, a);
    lemma_filter_ascending(frames, |f: u32| latest(a, f) is Some);
    assert(kept == collected_frames(range, b));
    assert(kept.map_values(|f: u32| latest(a, f)->0) =~= kept.map_values(
        |f: u32| latest(b, f)->0,
    )) by {
        assert forall|i: int| 0 <= i < kept.len() implies latest(a, #[trigger] kept[i]) == latest(
            b,
            kept[i],
        ) by {
            assert(frames.contains(kept[i]));
        }
    }
}

/// Outputs, missing frames and diverged frames each stand in ascending order of frame, without
/// repetition.
pub proof fn manifest_is_in_frame_order(range: FrameRange, results: Seq<FrameEntry>)
    ensures
        ascending(assembled(range, results).outputs.map_values(|e: FrameEntry| e.frame)),
        ascending(assembled(range, results).missing),
        ascending(assembled(range, results).diverged),
{
    lemma_frames(range);
    let frames = range.frames();
    lemma_filter_ascending(frames, |f: u32| latest(results, f) is Some);
    lemma_filter_ascending(frames, |f: u32| latest(results, f) is None);
    lemma_filter_ascending(frames, |f: u32| diverges(results, f));
    let kept = collected_frames(range, results);
    let out = assembled(range, results).outputs.map_values(|e: FrameEntry| e.frame);
    assert(out =~= kept) by {
        broadcast use vstd::seq_lib::group_filter_ensures;

        assert forall|i: int| 0 <= i < kept.len() implies out[i] == #[trigger] kept[i] by {
            lemma_latest_frame(results, kept[i]);
        }
    }
}

/// Each frame of the range is accounted for once: it is among the outputs, with its last result, or
/// it is missing. No other frame is in the manifest.
pub proof fn every_frame_is_accounted_for(range: FrameRange, results: Seq<FrameEntry>, frame: u32)
    ensures
        ({
            let m = assembled(range, results);
            &&& m.outputs.len() + m.missing.len() == range.size()
            &&& m.missing.contains(frame) <==> range.has(frame as int) && latest(results, frame)
                is None
            &&& forall|i: int|
                0 <= i < m.outputs.len() && (#[trigger] m.outputs[i]).frame == frame
                    ==> range.has(frame as int) && latest(results, frame) == Some(m.outputs[i])
            &&& range.has(frame as int) && latest(results, frame) is Some ==> m.outputs.contains(
                latest(results, frame)->0,
            )
            &&& m.diverged.contains(frame) <==> range.has(frame as int) && diverges(results, frame)
        }),
{
    broadcast use vstd::seq_lib::group_filter_ensures;

    let frames = range.frames();
    let m = assembled(range, results);
    let kept = collected_frames(range, results);
    let p = |f: u32| latest(results, f) is Some;
    let q = |f: u32| latest(results, f) is None;
    let d = |f: u32| diverges(results, f);
    lemma_frames(range);
    seqs::lemma_filter_split(frames, p, q);
    lemma_filter_ascending(frames, p);
    lemma_filter_ascending(frames, q);
    lemma_filter_ascending(frames, d);
    assert forall|i: int|
        0 <= i < m.outputs.len() && (#[trigger] m.outputs[i]).frame == frame implies range.has(
        frame as int,
    ) && latest(results, frame) == Some(m.outputs[i]) by {
        assert(p(kept[i]));
        assert(frames.contains(kept[i]));
        lemma_latest_frame(results, kept[i]);
    }
    if range.has(frame as int) {
        assert(frames.contains(frame));
        let k = choose|k: int| 0 <= k < frames.len() && frames[k] == frame;
        if p(frame) {
            assert(kept.contains(frames[k]));
            let i = choose|i: int| 0 <= i < kept.len() && kept[i] == frame;
            assert(m.outputs[i] == latest(results, frame)->0);
        } else {
            assert(q(frames[k]));
            assert(m.missing.contains(frames[k]));
        }
        if d(frame) {
            assert(m.diverged.contains(frames[k]));
        }
    }
    if m.missing.contains(frame) {
        let i = choose|i: int| 0 <= i < m.missing.len() && m.missing[i] == frame;
        assert(q(m.missing[i]));
        assert(frames.contains(m.missing[i]));
    }
    if m.diverged.contains(frame) {
        let i = choose|i: int| 0 <= i < m.diverged.len() && m.diverged[i] == frame;
        assert(d(m.diverged[i]));
        assert(frames.contains(m.diverged[i]));
    }
}

/// A frame is listed as diverged exactly when it is among the outputs with a failed re-render.
pub proof fn diverged_frames_are_listed(range: FrameRange, results: Seq<FrameEntry>, frame: u32)
    ensures
        ({
            let m = assembled(range, results);
            m.diverged.contains(frame) <==> exists|i: int|
                0 <= i < m.outputs.len() && (#[trigger] m.outputs[i]).frame == frame
                    && m.outputs[i].verified == Some(false)
        }),
{
    let m = assembled(range, results);
    every_frame_is_accounted_for(range, results, frame);
    lemma_latest_frame(results, frame);
    if m.diverged.contains(frame) {
        let e = latest(results, frame)->0;
        let i = choose|i: int| 0 <= i < m.outputs.len() && m.outputs[i] == e;
        assert(m.outputs[i].frame == frame);
    }
}

/// A manifest is complete exactly when every frame of the range has a result and the last one of
/// each did not diverge.
pub proof fn complete_means_every_frame(range: FrameRange, results: Seq<FrameEntry>)
    ensures
        assembled(range, results).complete() <==> forall|f: u32|
            range.has(f as int) ==> (#[trigger] latest(results, f)) is Some && !diverges(
                results,
                f,
            ),
{
    let frames = range.frames();
    lemma_frames(range);
    seqs::lemma_filter_none(frames, |f: u32| latest(results, f) is None);
    seqs::lemma_filter_none(frames, |f: u32| diverges(results, f));
    if assembled(range, results).complete() {
        assert forall|f: u32| range.has(f as int) implies (#[trigger] latest(results, f)) is Some
            && !diverges(results, f) by {
            assert(frames.contains(f));
        }
    } else {
        if assembled(range, results).missing.len() != 0 {
            let i = choose|i: int|
                0 <= i < frames.len() && latest(results, #[trigger] frames[i]) is None;
            assert(frames.contains(frames[i]));
        } else {
            let i = choose|i: int|
                0 <= i < frames.len() && diverges(results, #[trigger] frames[i]);
            assert(frames.contains(frames[i]));
            assert(latest(results, frames[i]) is Some);
        }
    }
}

/// A later result supersedes an earlier one for the same frame: without the earlier one the
/// manifest is the same.
pub proof fn later_result_supersedes(
    range: FrameRange,
    before: Seq<FrameEntry>,
    stale: FrameEntry,
    after: Seq<FrameEntry>,
)
    requires
        latest(after, stale.frame) is Some,
    ensures
        assembled(range, before.push(stale) + after) == assembled(range, before + after),
{
    assert forall|f: u32| range.has(f as int) implies #[trigger] latest(
        before.push(stale) + after,
        f,
    ) == latest(before + after, f) by {
        lemma_latest_concat(before.push(stale), after, f);
        lemma_latest_concat(before, after, f);
        assert(before.push(stale).drop_last() =~= before);
    }
    latest_results_decide(range, before.push(stale) + after, before + after);
}

/// A result for a frame outside the range changes nothing.
pub proof fn stray_result_is_ignored(
    range: FrameRange,
    before: Seq<FrameEntry>,
    stray: FrameEntry,
    after: Seq<FrameEntry>,
)
    requires
        !range.has(stray.frame as int),
    ensures
        assembled(range, before.push(stray) + after) == assembled(range, before + after),
{
    assert forall|f: u32| range.has(f as int) implies #[trigger] latest(
        before.push(stray) + after,
        f,
    ) == latest(before + after, f) by {
        lemma_latest_concat(before.push(stray), after, f);
        lemma_latest_concat(before, after, f);
        assert(before.push(stray).drop_last() =~= before);
    }
    latest_results_decide(range, before.push(stray) + after, before + after);
}

/// Results for different frames may arrive in either order.
pub proof fn arrival_order_does_not_matter(
    range: FrameRange,
    before: Seq<FrameEntry>,
    x: FrameEntry,
    y: FrameEntry,
    after: Seq<FrameEntry>,
)
    requires
        x.frame != y.frame,
    ensures
        assembled(range, before.push(x).push(y) + after) == assembled(
            range,
            before.push(y).push(x) + after,
        ),
{
    let a = before.push(x).push(y);
    let b = before.push(y).push(x);
    assert forall|f: u32| range.has(f as int) implies #[trigger] latest(a + after, f) == latest(
        b + after,
        f,
    ) by {
        lemma_latest_concat(a, after, f);
        lemma_latest_concat(b, after, f);
        assert(a.drop_last() =~= before.push(x));
        assert(b.drop_last() =~= before.push(y));
        assert(before.push(x).drop_last() =~= before);
        assert(before.push(y).drop_last() =~= before);
        reveal_with_fuel(latest, 3);
    }
    latest_results_decide(range, a + after, b + after);
}

/// A manifest is for the range that it was made for. Of a frame of the range it has the last result,
/// just as it came back: its host, its output and what the re-render said of it.
pub proof fn manifest_has_the_results_as_they_came(
    range: FrameRange,
    results: Seq<FrameEntry>,
    at: int,
)
    requires
        0 <= at < results.len(),
        range.start <= results[at].frame <= range.end,
        forall|i: int| at < i < results.len() ==> (#[trigger] results[i]).frame != results[at].frame,
    ensures
        assembled(range, results).range == range,
        assembled(range, results).outputs.contains(results[at]),
        !assembled(range, results).missing.contains(results[at].frame),
        assembled(range, results).diverged.contains(results[at].frame) <==> results[at].verified
            == Some(false),
{
    let frame = results[at].frame;
    let head = results.take(at + 1);
    let tail = results.skip(at + 1);
    assert(results =~= head + tail);
    lemma_latest_concat(head, tail, frame);
    lemma_latest_frame(tail, frame);
    assert forall|i: int| 0 <= i < tail.len() implies (#[trigger] tail[i]).frame != frame by {
        assert(tail[i] == results[i + at + 1]);
    }
    assert(head.last() == results[at]);
    every_frame_is_accounted_for(range, results, frame);
}

/// A frame of the range that no result is for is missing, and has neither an output nor a divergence.
pub proof fn frame_without_result_is_missing(
    range: FrameRange,
    results: Seq<FrameEntry>,
    frame: u32,
)
    requires
        range.start <= frame <= range.end,
        forall|i: int| 0 <= i < results.len() ==> (#[trigger] results[i]).frame != frame,
    ensures
        assembled(range, results).missing.contains(frame),
        !assembled(range, results).diverged.contains(frame),
        forall|i: int|
            0 <= i < assembled(range, results).outputs.len() ==> (#[trigger] assembled(
                range,
                results,
            ).outputs[i]).frame != frame,
        !assembled(range, results).complete(),
{
    lemma_latest_frame(results, frame);
    every_frame_is_accounted_for(range, results, frame);
    let m = assembled(range, results);
    let k = choose|k: int| 0 <= k < m.missing.len() && m.missing[k] == frame;
    assert(m.missing.len() > 0);
}

/// A frame outside the range is nowhere in the manifest.
pub proof fn manifest_keeps_to_its_range(range: FrameRange, results: Seq<FrameEntry>, frame: u32)
    requires
        frame < range.start || frame > range.end,
    ensures
        !assembled(range, results).missing.contains(frame),
        !assembled(range, results).diverged.contains(frame),
        forall|i: int|
            0 <= i < assembled(range, results).outputs.len() ==> (#[trigger] assembled(
                range,
                results,
            ).outputs[i]).frame != frame,
{
    every_frame_is_accounted_for(range, results, frame);
}

/// A result and an output are read whole, and so is each of a sequence of results, in its place.
pub proof fn results_are_read_whole(
    result: FrameResult,
    output: OutputEntry,
    results: Seq<FrameResult>,
)
    ensures
        result@.frame == result.frame && result@.host == result.host@,
        result@.output_cid == result.output_cid@ && result@.verified == result.verified,
        output@.frame == output.frame && output@.host == output.host@,
        output@.output_cid == output.output_cid@ && output@.verified == output.verified,
        entries(results).len() == results.len(),
        forall|i: int| 0 <= i < results.len() ==> #[trigger] entries(results)[i] == results[i]@,
{
}

/// A manifest is read whole, and is complete exactly where it lists no frame as missing or diverged.
pub proof fn manifest_is_read_whole(m: ResultManifest)
    ensures
        m@.range == m.range,
        m@.missing == m.missing@,
        m@.diverged == m.diverged@,
        m@.outputs.len() == m.outputs@.len(),
        forall|i: int| 0 <= i < m.outputs@.len() ==> #[trigger] m@.outputs[i] == m.outputs@[i]@,
        m@.complete() <==> m.missing@.len() == 0 && m.diverged@.len() == 0,
{
}

/// What is to be fetched is every output of the manifest, in its order.
pub proof fn every_output_is_to_be_fetched(m: Assembly)
    ensures
        m.fetch_list().len() == m.outputs.len(),
        forall|i: int|
            0 <= i < m.outputs.len() ==> #[trigger] m.fetch_list()[i] == m.outputs[i].output_cid,
{
}

} // verus!
