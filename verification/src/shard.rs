//! Frame ranges and their division into shards.
//!
//! A job covers a contiguous, inclusive range of frames. It is split into shards of at most a given
//! number of frames, each of which one host renders. The shards partition the range: laid end to
//! end, their frames are exactly the frames of the range, in order.

use crate::number;
use crate::text;
use vstd::prelude::*;
use vstd::string::*;

verus! {

broadcast use vstd::string::group_string_axioms;

/// A contiguous, inclusive range of frames.
#[derive(Debug, Clone, Copy, PartialEq, Eq, Structural)]
pub struct FrameRange {
    pub start: u32,
    pub end: u32,
}

/// Why a frame range was refused. `S` is the text that was read, trimmed.
#[derive(Debug, Clone, PartialEq, Eq)]
pub enum RangeFault<S> {
    /// The last frame is before the first.
    Inverted { start: u32, end: u32 },
    /// What stands before the dash is not a frame number.
    BadStart { spec: S },
    /// What stands after the dash is not a frame number.
    BadEnd { spec: S },
    /// There is no dash, and the text is not a frame number.
    BadNumber { spec: S },
}

/// Why a frame range was refused.
pub type RangeError = RangeFault<String>;

impl View for RangeFault<String> {
    type V = RangeFault<Seq<char>>;

    open spec fn view(&self) -> RangeFault<Seq<char>> {
        match *self {
            RangeFault::Inverted { start, end } => RangeFault::Inverted { start, end },
            RangeFault::BadStart { spec } => RangeFault::BadStart { spec: spec@ },
            RangeFault::BadEnd { spec } => RangeFault::BadEnd { spec: spec@ },
            RangeFault::BadNumber { spec } => RangeFault::BadNumber { spec: spec@ },
        }
    }
}

/// The outcome of reading a range, with texts taken as character sequences.
pub open spec fn range_outcome(r: Result<FrameRange, RangeError>) -> Result<
    FrameRange,
    RangeFault<Seq<char>>,
> {
    match r {
        Ok(range) => Ok(range),
        Err(e) => Err(e@),
    }
}

/// The range from `start` to `end`, or its refusal when `end` comes first.
pub open spec fn ordered(start: u32, end: u32) -> Result<FrameRange, RangeFault<Seq<char>>> {
    if end < start {
        Err(RangeFault::Inverted { start, end })
    } else {
        Ok(FrameRange { start, end })
    }
}

/// The frame number that `s` spells, whitespace aside.
pub open spec fn frame_number(s: Seq<char>) -> Option<nat> {
    number::natural_up_to(text::trimmed(s), u32::MAX as nat)
}

/// The range that `text` denotes: `START-END`, or a single frame `N`.
pub open spec fn parsed_range(text: Seq<char>) -> Result<FrameRange, RangeFault<Seq<char>>> {
    let spec = text::trimmed(text);
    let dash = text::position(spec, '-') as int;
    if dash < spec.len() {
        match frame_number(spec.take(dash)) {
            None => Err(RangeFault::BadStart { spec }),
            Some(start) => match frame_number(spec.skip(dash + 1)) {
                None => Err(RangeFault::BadEnd { spec }),
                Some(end) => ordered(start as u32, end as u32),
            },
        }
    } else {
        match number::natural_up_to(spec, u32::MAX as nat) {
            None => Err(RangeFault::BadNumber { spec }),
            Some(n) => ordered(n as u32, n as u32),
        }
    }
}

/// What a refusal says.
pub open spec fn range_message(fault: RangeFault<Seq<char>>) -> Seq<char> {
    match fault {
        RangeFault::Inverted { start, end } => "invalid frame range "@ + number::decimal(start as nat)
            + "-"@ + number::decimal(end as nat) + ": end is before start"@,
        RangeFault::BadStart { spec } => "bad frame start in '"@ + spec + "'"@,
        RangeFault::BadEnd { spec } => "bad frame end in '"@ + spec + "'"@,
        RangeFault::BadNumber { spec } => "bad frame number '"@ + spec + "'"@,
    }
}

impl RangeFault<String> {
    /// What the refusal says.
    pub fn message(&self) -> (res: String)
        ensures
            res@ == range_message(self@),
    {
        let mut out: String = String::new();
        match self {
            RangeFault::Inverted { start, end } => {
                out.append("invalid frame range ");
                out.append(number::decimal_text(*start as u64).as_str());
                out.append("-");
                out.append(number::decimal_text(*end as u64).as_str());
                out.append(": end is before start");
            },
            RangeFault::BadStart { spec } => {
                out.append("bad frame start in '");
                out.append(spec.as_str());
                out.append("'");
            },
            RangeFault::BadEnd { spec } => {
                out.append("bad frame end in '");
                out.append(spec.as_str());
                out.append("'");
            },
            RangeFault::BadNumber { spec } => {
                out.append("bad frame number '");
                out.append(spec.as_str());
                out.append("'");
            },
        }
        assert(out@ =~= range_message(self@));
        out
    }
}

impl FrameRange {
    /// Whether the range holds a frame at all.
    pub open spec fn valid(self) -> bool {
        self.start <= self.end
    }

    /// Whether `frame` is in the range.
    pub open spec fn has(self, frame: int) -> bool {
        self.start <= frame <= self.end
    }

    /// How many frames the range holds.
    pub open spec fn size(self) -> nat {
        if self.start <= self.end {
            (self.end - self.start + 1) as nat
        } else {
            0
        }
    }

    /// Whether a `u32` can say how many frames the range holds, and it holds some.
    pub open spec fn countable(self) -> bool {
        0 < self.size() <= u32::MAX
    }

    /// The frames of the range, ascending.
    pub open spec fn frames(self) -> Seq<u32> {
        Seq::new(self.size(), |i: int| (self.start + i) as u32)
    }

    /// How the range is written: `START-END`, or the number alone for a single frame.
    pub open spec fn shown(self) -> Seq<char> {
        if self.start == self.end {
            number::decimal(self.start as nat)
        } else {
            number::decimal(self.start as nat) + seq!['-'] + number::decimal(self.end as nat)
        }
    }

    /// The inclusive range from `start` to `end`, which must not come before it.
    pub fn new(start: u32, end: u32) -> (res: Result<FrameRange, RangeError>)
        ensures
            range_outcome(res) == ordered(start, end),
    {
        if end < start {
            return Err(RangeFault::Inverted { start, end });
        }
        Ok(FrameRange { start, end })
    }

    /// Reads a `START-END` range or a single frame `N`, such as `1-500` or `42`.
    pub fn parse(spec: &str) -> (res: Result<FrameRange, RangeError>)
        ensures
            range_outcome(res) == parsed_range(spec@),
    {
        let spec: &str = text::trim(spec);
        let total: usize = spec.unicode_len();
        let dash: usize = text::find_char(spec, '-');
        if dash < total {
            let before: &str = spec.substring_char(0, dash);
            let after: &str = spec.substring_char(dash + 1, total);
            proof {
                assert(before@ =~= spec@.take(dash as int));
                assert(after@ =~= spec@.skip(dash + 1));
            }
            let start: u32 = match number::read_natural(text::trim(before), 0xffff_ffff) {
                Some(v) => v as u32,
                None => {
                    return Err(RangeFault::BadStart { spec: spec.to_owned() });
                },
            };
            let end: u32 = match number::read_natural(text::trim(after), 0xffff_ffff) {
                Some(v) => v as u32,
                None => {
                    return Err(RangeFault::BadEnd { spec: spec.to_owned() });
                },
            };
            Self::new(start, end)
        } else {
            match number::read_natural(spec, 0xffff_ffff) {
                Some(v) => Self::new(v as u32, v as u32),
                None => Err(RangeFault::BadNumber { spec: spec.to_owned() }),
            }
        }
    }

    /// How many frames the range holds.
    pub fn count(&self) -> (res: u32)
        requires
            self.countable(),
        ensures
            res == self.size(),
    {
        self.end - self.start + 1
    }

    /// The range as text: `START-END`, or the number alone for a single frame.
    pub fn to_string(&self) -> (res: String)
        ensures
            res@ == self.shown(),
    {
        let mut out: String = number::decimal_text(self.start as u64);
        if self.start != self.end {
            proof {
                reveal_strlit("-");
                assert("-"@ =~= seq!['-']);
            }
            out.append("-");
            let end: String = number::decimal_text(self.end as u64);
            out.append(end.as_str());
        }
        out
    }
}

/// One unit of work: a contiguous part of a job, placed on a single host. `index` is its place in
/// the job.
#[derive(Debug, Clone, Copy, PartialEq, Eq, Structural)]
pub struct Shard {
    pub index: u32,
    pub range: FrameRange,
}

impl Shard {
    /// How many frames the shard renders.
    pub fn count(&self) -> (res: u32)
        requires
            self.range.countable(),
        ensures
            res == self.range.size(),
    {
        self.range.count()
    }
}

/// The number of frames a shard holds when `shard_size` is asked for: never fewer than one.
pub open spec fn effective_size(shard_size: u32) -> int {
    if shard_size == 0 {
        1
    } else {
        shard_size as int
    }
}

/// How many shards a range makes: its frames divided by the shard size, rounded up.
pub open spec fn shard_total(range: FrameRange, shard_size: u32) -> nat {
    let size = effective_size(shard_size);
    ((range.size() + size - 1) / size) as nat
}

/// The `i`th shard of a range.
pub open spec fn shard_at(range: FrameRange, shard_size: u32, i: int) -> Shard {
    let size = effective_size(shard_size);
    let start = range.start + i * size;
    let end = if start + size - 1 <= range.end {
        start + size - 1
    } else {
        range.end as int
    };
    Shard { index: i as u32, range: FrameRange { start: start as u32, end: end as u32 } }
}

/// The shards of a range, in order.
pub open spec fn shards_of(range: FrameRange, shard_size: u32) -> Seq<Shard> {
    Seq::new(shard_total(range, shard_size), |i: int| shard_at(range, shard_size, i))
}

/// The frames of a sequence of shards, laid end to end.
pub open spec fn frames_of(shards: Seq<Shard>) -> Seq<u32>
    decreases shards.len(),
{
    if shards.len() == 0 {
        Seq::empty()
    } else {
        frames_of(shards.drop_last()) + shards.last().range.frames()
    }
}

proof fn lemma_shard_total(range: FrameRange, shard_size: u32)
    ensures
        ({
            let size = effective_size(shard_size);
            let n = shard_total(range, shard_size) as int;
            &&& range.size() <= n * size
            &&& range.size() > 0 ==> n > 0 && (n - 1) * size < range.size()
            &&& range.size() == 0 ==> n == 0
        }),
{
    let size = effective_size(shard_size);
    let total = range.size() as int;
    let n = (total + size - 1) / size;
    vstd::arithmetic::div_mod::lemma_fundamental_div_mod(total + size - 1, size);
    vstd::arithmetic::div_mod::lemma_mod_bound(total + size - 1, size);
    assert(size * n == n * size) by (nonlinear_arith);
    assert((n - 1) * size == n * size - size) by (nonlinear_arith);
    if total == 0 {
        assert(n == 0) by (nonlinear_arith)
            requires
                n == (size - 1) / size,
                size >= 1,
        ;
    }
    if total > 0 {
        assert(n > 0) by (nonlinear_arith)
            requires
                n * size >= total,
                total > 0,
                size >= 1,
        ;
    }
}

/// Splits `range` into shards of at most `shard_size` consecutive frames. A `shard_size` of zero
/// counts as one.
pub fn split(range: FrameRange, shard_size: u32) -> (res: Vec<Shard>)
    requires
        shard_total(range, shard_size) <= u32::MAX,
    ensures
        res@ == shards_of(range, shard_size),
{
    let size: u32 = if shard_size == 0 {
        1
    } else {
        shard_size
    };
    let mut shards: Vec<Shard> = Vec::new();
    proof {
        lemma_shard_total(range, shard_size);
    }
    if range.end < range.start {
        assert(shards@ =~= shards_of(range, shard_size));
        return shards;
    }
    let mut cursor: u32 = range.start;
    let mut index: u32 = 0;
    let ghost n = shard_total(range, shard_size) as int;
    assert(0 * size == 0);
    loop
        invariant_except_break
            range.start <= cursor <= range.end,
            index < n,
            cursor == range.start + index * size,
            shards@ == shards_of(range, shard_size).take(index as int),
        invariant
            range.start <= range.end,
            n == shard_total(range, shard_size),
            n <= u32::MAX,
            size == effective_size(shard_size),
            range.size() <= n * size,
            (n - 1) * size < range.size(),
        ensures
            shards@ == shards_of(range, shard_size),
        decreases n - index,
    {
        let left: u32 = range.end - cursor;
        let span: u32 = if size - 1 < left {
            size - 1
        } else {
            left
        };
        let shard_end: u32 = cursor + span;
        let ghost before = shards@;
        shards.push(Shard { index, range: FrameRange { start: cursor, end: shard_end } });
        assert(shards@.last() == shard_at(range, shard_size, index as int));
        assert(shards_of(range, shard_size).take(index + 1) =~= before.push(shards@.last()));
        assert((index + 1) * size == index * size + size) by (nonlinear_arith);
        if shard_end == range.end {
            assert(index + 1 == n) by (nonlinear_arith)
                requires
                    index < n,
                    (index + 1) * size == index * size + size,
                    (n - 1) * size < range.size(),
                    range.size() <= index * size + size,
                    size >= 1,
            ;
            assert(shards_of(range, shard_size).take(n) =~= shards_of(range, shard_size));
            break;
        }
        assert(index + 1 < n) by (nonlinear_arith)
            requires
                index < n,
                range.size() <= n * size,
                index * size + size < range.size(),
                size >= 1,
        ;
        cursor = shard_end + 1;
        index = index + 1;
    }
    shards
}

/// How many shards `split` makes of a range.
pub fn shard_count(range: FrameRange, shard_size: u32) -> (res: u32)
    requires
        shard_total(range, shard_size) <= u32::MAX,
    ensures
        res == shard_total(range, shard_size),
{
    let size: u64 = if shard_size == 0 {
        1
    } else {
        shard_size as u64
    };
    let count: u64 = if range.start <= range.end {
        (range.end - range.start) as u64 + 1
    } else {
        0
    };
    ((count + size - 1) / size) as u32
}

/// The shards of a range can be numbered, unless it holds every frame there is and each is a shard.
pub proof fn shards_can_be_numbered(range: FrameRange, shard_size: u32)
    requires
        range.end - range.start < u32::MAX || shard_size >= 2,
    ensures
        shard_total(range, shard_size) <= u32::MAX,
{
    let size = effective_size(shard_size);
    let n = shard_total(range, shard_size) as int;
    lemma_shard_total(range, shard_size);
    if n > 0 {
        assert(n - 1 <= (n - 1) * size) by (nonlinear_arith)
            requires
                size >= 1,
                n > 0,
        ;
        if size >= 2 {
            assert(2 * (n - 1) <= (n - 1) * size) by (nonlinear_arith)
                requires
                    size >= 2,
                    n > 0,
            ;
        }
    }
}

/// The sum of the sizes of a sequence of shards.
pub open spec fn sizes_sum(shards: Seq<Shard>) -> nat
    decreases shards.len(),
{
    if shards.len() == 0 {
        0
    } else {
        sizes_sum(shards.drop_last()) + shards.last().range.size()
    }
}

proof fn lemma_shard_at(range: FrameRange, shard_size: u32, i: int)
    requires
        0 <= i < shard_total(range, shard_size) <= u32::MAX,
    ensures
        ({
            let size = effective_size(shard_size);
            let n = shard_total(range, shard_size) as int;
            let s = shard_at(range, shard_size, i);
            &&& range.valid()
            &&& s.index == i
            &&& s.range.start == range.start + i * size
            &&& s.range.start <= s.range.end <= range.end
            &&& i < n - 1 ==> s.range.end == range.start + (i + 1) * size - 1
            &&& i == n - 1 ==> s.range.end == range.end
        }),
{
    let size = effective_size(shard_size);
    let n = shard_total(range, shard_size) as int;
    lemma_shard_total(range, shard_size);
    assert((i + 1) * size == i * size + size) by (nonlinear_arith);
    assert(i * size >= 0) by (nonlinear_arith)
        requires
            i >= 0,
            size >= 1,
    ;
    assert(i * size <= (n - 1) * size) by (nonlinear_arith)
        requires
            i <= n - 1,
            size >= 1,
    ;
    if i < n - 1 {
        assert((i + 1) * size <= (n - 1) * size) by (nonlinear_arith)
            requires
                i + 1 <= n - 1,
                size >= 1,
        ;
    } else {
        assert((i + 1) * size == n * size);
    }
}

proof fn lemma_frames_prefix(range: FrameRange, shard_size: u32, k: int)
    requires
        0 <= k <= shard_total(range, shard_size) <= u32::MAX,
    ensures
        ({
            let size = effective_size(shard_size);
            let covered = if k < shard_total(range, shard_size) {
                k * size
            } else {
                range.size() as int
            };
            &&& 0 <= covered <= range.size()
            &&& frames_of(shards_of(range, shard_size).take(k)) == range.frames().take(covered)
            &&& sizes_sum(shards_of(range, shard_size).take(k)) == covered
        }),
    decreases k,
{
    let size = effective_size(shard_size);
    let n = shard_total(range, shard_size) as int;
    let all = shards_of(range, shard_size);
    lemma_shard_total(range, shard_size);
    if k == 0 {
        assert(all.take(0) =~= Seq::<Shard>::empty());
        assert(0 * size == 0);
        assert(range.frames().take(0) =~= Seq::<u32>::empty());
    } else {
        lemma_frames_prefix(range, shard_size, k - 1);
        lemma_shard_at(range, shard_size, k - 1);
        assert(all.take(k).drop_last() =~= all.take(k - 1));
        let s = shard_at(range, shard_size, k - 1);
        assert(all.take(k).last() == s);
        let from = (k - 1) * size;
        let covered = if k < n {
            k * size
        } else {
            range.size() as int
        };
        assert(covered == from + s.range.size());
        assert(range.frames().take(covered) =~= range.frames().take(from) + s.range.frames());
    }
}

/// The shards partition the range: laid end to end, their frames are exactly the frames of the
/// range, in order, and their sizes add up to its size.
pub proof fn shards_partition_range(range: FrameRange, shard_size: u32)
    requires
        shard_total(range, shard_size) <= u32::MAX,
    ensures
        frames_of(shards_of(range, shard_size)) == range.frames(),
        sizes_sum(shards_of(range, shard_size)) == range.size(),
{
    let n = shard_total(range, shard_size) as int;
    lemma_frames_prefix(range, shard_size, n);
    assert(shards_of(range, shard_size).take(n) =~= shards_of(range, shard_size));
    assert(range.frames().take(range.size() as int) =~= range.frames());
}

/// The shards stand in order without gap or overlap: a range that holds a frame makes at least one
/// shard; they are numbered from zero, the first begins where the range does, each next one begins
/// right after the one before, and the last ends where the range does.
pub proof fn shards_are_contiguous(range: FrameRange, shard_size: u32)
    requires
        range.valid(),
        shard_total(range, shard_size) <= u32::MAX,
    ensures
        ({
            let shards = shards_of(range, shard_size);
            &&& shards.len() > 0
            &&& shards.first().range.start == range.start
            &&& shards.last().range.end == range.end
            &&& forall|i: int|
                0 <= i < shards.len() ==> {
                    &&& (#[trigger] shards[i]).index == i
                    &&& shards[i].range.valid()
                }
            &&& forall|i: int|
                #![trigger shards[i]]
                0 <= i < shards.len() - 1 ==> shards[i + 1].range.start == shards[i].range.end + 1
        }),
{
    let shards = shards_of(range, shard_size);
    let size = effective_size(shard_size);
    let n = shard_total(range, shard_size) as int;
    lemma_shard_total(range, shard_size);
    assert(0 * size == 0);
    lemma_shard_at(range, shard_size, 0);
    lemma_shard_at(range, shard_size, n - 1);
    assert forall|i: int| 0 <= i < shards.len() implies {
        &&& (#[trigger] shards[i]).index == i
        &&& shards[i].range.valid()
    } by {
        lemma_shard_at(range, shard_size, i);
    }
    assert forall|i: int|
        #![trigger shards[i]]
        0 <= i < shards.len() - 1 implies shards[i + 1].range.start == shards[i].range.end + 1 by {
        lemma_shard_at(range, shard_size, i);
        lemma_shard_at(range, shard_size, i + 1);
    }
}

/// Every shard but the last holds exactly the shard size, or one frame where that is zero, and the last
/// holds at least one frame and no more than that.
pub proof fn shards_hold_at_most_the_size(range: FrameRange, shard_size: u32)
    requires
        shard_total(range, shard_size) <= u32::MAX,
    ensures
        ({
            let shards = shards_of(range, shard_size);
            let most = if shard_size == 0 {
                1
            } else {
                shard_size as int
            };
            forall|i: int|
                0 <= i < shards.len() ==> {
                    &&& 0 < (#[trigger] shards[i]).range.size() <= most
                    &&& i < shards.len() - 1 ==> shards[i].range.size() == most
                }
        }),
{
    let shards = shards_of(range, shard_size);
    let size = effective_size(shard_size);
    assert forall|i: int| 0 <= i < shards.len() implies {
        &&& 0 < (#[trigger] shards[i]).range.size() <= size
        &&& i < shards.len() - 1 ==> shards[i].range.size() == size
    } by {
        lemma_shard_at(range, shard_size, i);
        assert((i + 1) * size == i * size + size) by (nonlinear_arith);
    }
}

/// Each frame of the range is in exactly one shard, and no shard holds any other frame.
pub proof fn each_frame_is_in_one_shard(range: FrameRange, shard_size: u32, frame: int)
    requires
        shard_total(range, shard_size) <= u32::MAX,
    ensures
        ({
            let shards = shards_of(range, shard_size);
            &&& range.has(frame) <==> exists|i: int|
                0 <= i < shards.len() && (#[trigger] shards[i]).range.has(frame)
            &&& forall|i: int, j: int|
                0 <= i < shards.len() && 0 <= j < shards.len() && (
                #[trigger] shards[i]).range.has(frame) && (#[trigger] shards[j]).range.has(frame)
                    ==> i == j
        }),
{
    let shards = shards_of(range, shard_size);
    let size = effective_size(shard_size);
    let n = shard_total(range, shard_size) as int;
    lemma_shard_total(range, shard_size);
    if range.has(frame) {
        let off = frame - range.start;
        let i = off / size;
        vstd::arithmetic::div_mod::lemma_fundamental_div_mod(off, size);
        vstd::arithmetic::div_mod::lemma_mod_bound(off, size);
        assert(size * i == i * size) by (nonlinear_arith);
        assert((i + 1) * size == i * size + size) by (nonlinear_arith);
        assert(i >= 0) by (nonlinear_arith)
            requires
                off >= 0,
                size >= 1,
                i == off / size,
        ;
        assert(i < n) by (nonlinear_arith)
            requires
                i * size <= off,
                off < n * size,
                size >= 1,
        ;
        lemma_shard_at(range, shard_size, i);
        assert(shards[i].range.has(frame));
    }
    assert forall|i: int|
        0 <= i < shards.len() && (#[trigger] shards[i]).range.has(frame) implies range.has(frame)
        && range.start + i * size <= frame < range.start + (i + 1) * size by {
        lemma_shard_at(range, shard_size, i);
        assert((i + 1) * size == i * size + size) by (nonlinear_arith);
        assert(i * size >= 0) by (nonlinear_arith)
            requires
                i >= 0,
                size >= 1,
        ;
    }
    assert forall|i: int, j: int|
        0 <= i < shards.len() && 0 <= j < shards.len() && (#[trigger] shards[i]).range.has(frame)
            && (#[trigger] shards[j]).range.has(frame) implies i == j by {
        assert(i == j) by (nonlinear_arith)
            requires
                i * size < (j + 1) * size,
                j * size < (i + 1) * size,
                size >= 1,
        ;
    }
}

proof fn lemma_digits_plain(n: nat)
    ensures
        number::decimal(n).len() > 0,
        forall|i: int|
            0 <= i < number::decimal(n).len() ==> number::is_digit(#[trigger] number::decimal(n)[i]) && number::decimal(n)[i] != '-'
                && !text::is_space(number::decimal(n)[i]),
        text::trimmed(number::decimal(n)) == number::decimal(n),
{
    number::lemma_decimal(n);
    let s = number::decimal(n);
    assert forall|i: int| 0 <= i < s.len() implies number::is_digit(#[trigger] s[i]) && s[i] != '-'
        && !text::is_space(s[i]) by {}
    text::lemma_trimmed_same(s);
}

/// A range, written out and read back, is the same range.
pub proof fn shown_range_reads_back(range: FrameRange)
    requires
        range.valid(),
    ensures
        parsed_range(range.shown()) == Ok::<FrameRange, RangeFault<Seq<char>>>(range),
{
    let a = number::decimal(range.start as nat);
    let b = number::decimal(range.end as nat);
    let s = range.shown();
    lemma_digits_plain(range.start as nat);
    lemma_digits_plain(range.end as nat);
    number::decimal_reads_back(range.start as nat, u32::MAX as nat);
    number::decimal_reads_back(range.end as nat, u32::MAX as nat);
    if range.start == range.end {
        text::lemma_position_at(s, '-', s.len() as int);
    } else {
        assert(s[0] == a[0]);
        assert(s.last() == b.last());
        text::lemma_trimmed_same(s);
        assert(s[a.len() as int] == '-');
        assert forall|i: int| 0 <= i < a.len() implies #[trigger] s[i] != '-' by {
            assert(s[i] == a[i]);
        }
        text::lemma_position_at(s, '-', a.len() as int);
        assert(s.take(a.len() as int) =~= a);
        assert(s.skip(a.len() as int + 1) =~= b);
    }
}

/// A range holds the frames from its first to its last, each once, ascending, and its size is how many
/// these are.
pub proof fn range_holds_its_frames(range: FrameRange)
    ensures
        range.start <= range.end ==> range.size() == range.end - range.start + 1,
        range.start > range.end ==> range.size() == 0,
        range.frames().len() == range.size(),
        forall|f: u32| #[trigger] range.frames().contains(f) <==> range.start <= f <= range.end,
        forall|i: int, j: int|
            0 <= i < j < range.frames().len() ==> #[trigger] range.frames()[i]
                < #[trigger] range.frames()[j],
        forall|f: int| #[trigger] range.has(f) <==> range.start <= f <= range.end,
{
    assert forall|f: u32| range.start <= f <= range.end implies #[trigger] range.frames().contains(
        f,
    ) by {
        assert(range.frames()[f - range.start] == f);
    }
}

/// There are as few shards as hold the frames: one fewer would not.
pub proof fn shards_are_as_few_as_hold_the_frames(range: FrameRange, shard_size: u32)
    requires
        range.start <= range.end,
    ensures
        ({
            let n = shard_total(range, shard_size) as int;
            let most = if shard_size == 0 {
                1
            } else {
                shard_size as int
            };
            let frames = range.end - range.start + 1;
            &&& (n - 1) * most < frames <= n * most
            &&& shards_of(range, shard_size).len() == n
        }),
{
    lemma_shard_total(range, shard_size);
}

/// A single frame is shown by its number alone, and any other range by its first and its last with a
/// dash between them.
pub proof fn range_is_shown_by_its_ends(range: FrameRange)
    ensures
        range.start == range.end ==> range.shown() == number::decimal(range.start as nat),
        range.start != range.end ==> range.shown() == number::decimal(range.start as nat)
            + seq!['-'] + number::decimal(range.end as nat),
{
}

proof fn lemma_trimmed_part(s: Seq<char>, a: int, b: int, from: int, to: int)
    requires
        0 <= from <= a <= b <= to <= s.len(),
        forall|i: int| 0 <= i < a ==> text::is_space(#[trigger] s[i]),
        forall|i: int| b <= i < s.len() ==> text::is_space(#[trigger] s[i]),
        a < b ==> !text::is_space(s[a]) && !text::is_space(s[b - 1]),
    ensures
        text::trimmed(s.subrange(from, to)) == text::trimmed(s),
{
    let t = s.subrange(from, to);
    text::lemma_trimmed_at(s, a, b);
    assert forall|i: int| 0 <= i < a - from implies text::is_space(#[trigger] t[i]) by {
        assert(t[i] == s[i + from]);
    }
    assert forall|i: int| b - from <= i < t.len() implies text::is_space(#[trigger] t[i]) by {
        assert(t[i] == s[i + from]);
    }
    text::lemma_trimmed_at(t, a - from, b - from);
    assert(t.subrange(a - from, b - from) =~= s.subrange(a, b));
}

/// A text with a dash denotes the range from the number before its first dash to the number after it,
/// whitespace aside. It is refused where the one or the other is no number that a `u32` holds, or
/// where the second is less than the first.
pub proof fn dashed_text_is_its_two_numbers(before: Seq<char>, after: Seq<char>)
    requires
        !before.contains('-'),
    ensures
        ({
            let all = before + seq!['-'] + after;
            let first = number::natural(text::trimmed(before));
            let last = number::natural(text::trimmed(after));
            let first_ok = first is Some && first->0 <= 0xffff_ffff;
            let last_ok = last is Some && last->0 <= 0xffff_ffff;
            match parsed_range(all) {
                Ok(r) => {
                    &&& first_ok && last_ok
                    &&& r.start == first->0
                    &&& r.end == last->0
                    &&& r.start <= r.end
                },
                Err(RangeFault::BadStart { spec }) => !first_ok && spec == text::trimmed(all),
                Err(RangeFault::BadEnd { spec }) => first_ok && !last_ok && spec == text::trimmed(
                    all,
                ),
                Err(RangeFault::Inverted { start, end }) => {
                    &&& first_ok && last_ok
                    &&& start == first->0
                    &&& end == last->0
                    &&& end < start
                },
                Err(RangeFault::BadNumber { .. }) => false,
            }
        }),
{
    let all = before + seq!['-'] + after;
    let n = before.len() as int;
    let (xa, xb) = text::trimming_takes_only_the_ends(before);
    let (ya, yb) = text::trimming_takes_only_the_ends(after);
    let a = if xa < xb {
        xa
    } else {
        n
    };
    let b = if ya < yb {
        n + 1 + yb
    } else {
        n + 1
    };
    assert(all[n] == '-');
    assert forall|i: int| 0 <= i < a implies text::is_space(#[trigger] all[i]) by {
        assert(all[i] == before[i]);
    }
    assert forall|i: int| b <= i < all.len() implies text::is_space(#[trigger] all[i]) by {
        assert(all[i] == after[i - n - 1]);
    }
    assert(a < n ==> all[a] == before[a]);
    assert(b > n + 1 ==> all[b - 1] == after[b - n - 2]);
    text::lemma_trimmed_at(all, a, b);
    let spec = text::trimmed(all);
    assert forall|i: int| 0 <= i < n - a implies #[trigger] spec[i] != '-' by {
        assert(spec[i] == before[a + i]);
        assert(before.contains(before[a + i]));
    }
    assert(spec[n - a] == '-');
    text::lemma_position_at(spec, '-', n - a);
    assert(spec.take(n - a) =~= before.subrange(a, n));
    assert(spec.skip(n - a + 1) =~= after.subrange(0, b - n - 1));
    if xa < xb {
        lemma_trimmed_part(before, xa, xb, a, n);
    } else {
        assert forall|i: int| 0 <= i < n implies text::is_space(#[trigger] before[i]) by {}
        lemma_trimmed_part(before, n, n, a, n);
    }
    if ya < yb {
        lemma_trimmed_part(after, ya, yb, 0, b - n - 1);
    } else {
        assert forall|i: int| 0 <= i < after.len() implies text::is_space(#[trigger] after[i]) by {}
        lemma_trimmed_part(after, 0, 0, 0, 0);
    }
}

/// A text without a dash denotes the one frame whose number it is, whitespace aside, and is refused
/// where it is no number that a `u32` holds.
pub proof fn undashed_text_is_one_frame(s: Seq<char>)
    requires
        !s.contains('-'),
    ensures
        ({
            let n = number::natural(text::trimmed(s));
            match parsed_range(s) {
                Ok(r) => n is Some && r.start == n->0 && r.end == n->0,
                Err(RangeFault::BadNumber { spec }) => (n is None || n->0 > 0xffff_ffff) && spec
                    == text::trimmed(s),
                Err(_) => false,
            }
        }),
{
    let spec = text::trimmed(s);
    let (a, b) = text::trimming_takes_only_the_ends(s);
    assert forall|i: int| 0 <= i < spec.len() implies #[trigger] spec[i] != '-' by {
        assert(spec[i] == s[a + i]);
        assert(s.contains(s[a + i]));
    }
    text::lemma_position_at(spec, '-', spec.len() as int);
}

/// What a refusal says quotes the text that was read, or names the two numbers.
pub proof fn message_quotes_what_was_read(spec: Seq<char>, start: u32, end: u32)
    ensures
        range_message(RangeFault::BadStart { spec }) == "bad frame start in '"@ + spec + "'"@,
        range_message(RangeFault::BadEnd { spec }) == "bad frame end in '"@ + spec + "'"@,
        range_message(RangeFault::BadNumber { spec }) == "bad frame number '"@ + spec + "'"@,
        text::occurs(
            number::decimal(start as nat) + "-"@ + number::decimal(end as nat),
            range_message(RangeFault::Inverted { start, end }),
        ),
{
    let a = number::decimal(start as nat);
    let b = number::decimal(end as nat);
    text::lemma_occurs_between("invalid frame range "@, a + "-"@ + b, ": end is before start"@);
    assert("invalid frame range "@ + (a + "-"@ + b) + ": end is before start"@ =~= range_message(
        RangeFault::Inverted { start, end },
    ));
}

} // verus!
