//! The render protocol: the ability a host asks for, and the command that renders one shard.

use crate::number;
use crate::shard::FrameRange;
use crate::text;
use vstd::prelude::*;
use vstd::string::*;

verus! {

broadcast use vstd::string::group_string_axioms;

/// The ability a host requires before it renders a shard for a requester.
pub const ABILITY_FRAME: &'static str = "render:frame";

/// The service under which a node that is willing to render advertises itself.
pub const SERVICE_HOST: &'static str = "render:host";

/// Where a shard's input is staged inside the container.
pub const INPUT_PATH: &'static str = "/work/input";

/// The directory inside the container whose contents are a shard's output.
pub const OUTPUT_DIR: &'static str = "/work/out";

/// Which renderer a job uses.
#[derive(Debug, Clone, Copy, PartialEq, Eq, Structural)]
pub enum Kind {
    /// Blender, over a range of frames.
    Blender,
    /// Headless Chromium, one capture per frame.
    Chrome,
    /// A command that the user supplies whole.
    Custom,
}

/// The image a kind runs in where none is configured.
pub open spec fn default_image_of(kind: Kind) -> Seq<char> {
    match kind {
        Kind::Blender => "ce-net/blender:latest"@,
        Kind::Chrome => "ce-net/headless-chrome:latest"@,
        Kind::Custom => "alpine:latest"@,
    }
}

impl Kind {
    /// The container image of this kind where none is configured.
    pub fn default_image(&self) -> (res: &'static str)
        ensures
            res@ == default_image_of(*self),
    {
        match self {
            Kind::Blender => "ce-net/blender:latest",
            Kind::Chrome => "ce-net/headless-chrome:latest",
            Kind::Custom => "alpine:latest",
        }
    }
}

/// One word of a custom command, with the placeholders `{start}`, `{end}`, `{input}` and `{out}`
/// replaced, in this order.
pub open spec fn substituted(word: Seq<char>, range: FrameRange) -> Seq<char> {
    let w1 = text::replaced(word, "{start}"@, number::decimal(range.start as nat));
    let w2 = text::replaced(w1, "{end}"@, number::decimal(range.end as nat));
    let w3 = text::replaced(w2, "{input}"@, INPUT_PATH@);
    text::replaced(w3, "{out}"@, OUTPUT_DIR@)
}

/// The command that renders the frames of `range`.
pub open spec fn argv_of(kind: Kind, range: FrameRange, extra: Seq<Seq<char>>) -> Seq<Seq<char>> {
    match kind {
        Kind::Blender => seq![
            "blender"@,
            "-b"@,
            INPUT_PATH@,
            "-o"@,
            OUTPUT_DIR@ + "/frame_"@,
            "-s"@,
            number::decimal(range.start as nat),
            "-e"@,
            number::decimal(range.end as nat),
            "-a"@,
        ] + extra,
        Kind::Chrome => seq![
            "ce-render-chrome"@,
            "--input"@,
            INPUT_PATH@,
            "--out"@,
            OUTPUT_DIR@,
            "--from"@,
            number::decimal(range.start as nat),
            "--to"@,
            number::decimal(range.end as nat),
        ] + extra,
        Kind::Custom => extra.map_values(|word: Seq<char>| substituted(word, range)),
    }
}

/// One word of a custom command with its placeholders replaced.
fn substitute(word: &str, range: FrameRange) -> (res: String)
    ensures
        res@ == substituted(word@, range),
{
    proof {
        reveal_strlit("{start}");
        reveal_strlit("{end}");
        reveal_strlit("{input}");
        reveal_strlit("{out}");
    }
    let start: String = number::decimal_text(range.start as u64);
    let end: String = number::decimal_text(range.end as u64);
    let w1: String = text::replace(word, "{start}", start.as_str());
    let w2: String = text::replace(w1.as_str(), "{end}", end.as_str());
    let w3: String = text::replace(w2.as_str(), "{input}", INPUT_PATH);
    text::replace(w3.as_str(), "{out}", OUTPUT_DIR)
}

/// The container command that renders the frames of `shard_range`.
///
/// `extra` is appended to the command as it is. For [`Kind::Custom`] it is the whole command, in
/// which `{start}`, `{end}`, `{input}` and `{out}` stand for the shard's frames and paths.
pub fn render_argv(kind: Kind, shard_range: FrameRange, extra: &[String]) -> (res: Vec<String>)
    ensures
        text::views(res@) == argv_of(kind, shard_range, text::views(extra@)),
{
    let mut v: Vec<String> = Vec::new();
    match kind {
        Kind::Blender => {
            v.push("blender".to_owned());
            v.push("-b".to_owned());
            v.push(INPUT_PATH.to_owned());
            v.push("-o".to_owned());
            let mut out: String = OUTPUT_DIR.to_owned();
            out.append("/frame_");
            v.push(out);
            v.push("-s".to_owned());
            v.push(number::decimal_text(shard_range.start as u64));
            v.push("-e".to_owned());
            v.push(number::decimal_text(shard_range.end as u64));
            v.push("-a".to_owned());
        },
        Kind::Chrome => {
            v.push("ce-render-chrome".to_owned());
            v.push("--input".to_owned());
            v.push(INPUT_PATH.to_owned());
            v.push("--out".to_owned());
            v.push(OUTPUT_DIR.to_owned());
            v.push("--from".to_owned());
            v.push(number::decimal_text(shard_range.start as u64));
            v.push("--to".to_owned());
            v.push(number::decimal_text(shard_range.end as u64));
        },
        Kind::Custom => {},
    }
    let ghost head = text::views(v@);
    let ghost words = text::views(extra@);
    let mut i: usize = 0;
    while i < extra.len()
        invariant
            i <= extra@.len(),
            words == text::views(extra@),
            text::views(v@) == head + (if kind == Kind::Custom {
                words.take(i as int).map_values(|word: Seq<char>| substituted(word, shard_range))
            } else {
                words.take(i as int)
            }),
        decreases extra@.len() - i,
    {
        let ghost before = text::views(v@);
        let ghost word = extra@[i as int]@;
        assert(words.take(i + 1) =~= words.take(i as int).push(word));
        if kind == Kind::Custom {
            v.push(substitute(extra[i].as_str(), shard_range));
            proof {
                let f = |word: Seq<char>| substituted(word, shard_range);
                assert(words.take(i + 1).map_values(f) =~= words.take(i as int).map_values(
                    f,
                ).push(substituted(word, shard_range)));
            }
        } else {
            v.push(extra[i].clone());
        }
        assert(text::views(v@) =~= before.push(v@.last()@));
        i = i + 1;
    }
    assert(words.take(words.len() as int) =~= words);
    assert(text::views(v@) =~= argv_of(kind, shard_range, words));
    v
}

/// The placeholders of a custom command.
pub open spec fn placeholders() -> Seq<Seq<char>> {
    seq!["{start}"@, "{end}"@, "{input}"@, "{out}"@]
}

/// Nothing of a frame number or a staged path can be taken for part of a placeholder.
proof fn lemma_replacements_are_plain(range: FrameRange, k: int)
    requires
        0 <= k < placeholders().len(),
    ensures
        ({
            let m = placeholders()[k];
            let a = number::decimal(range.start as nat);
            let b = number::decimal(range.end as nat);
            &&& m.len() > 0
            &&& a.len() > 0 && !m.contains(a.first()) && !a.contains(m.first())
            &&& b.len() > 0 && !m.contains(b.first()) && !b.contains(m.first())
            &&& INPUT_PATH@.len() > 0 && !m.contains(INPUT_PATH@.first()) && !INPUT_PATH@.contains(
                m.first(),
            )
            &&& OUTPUT_DIR@.len() > 0 && !m.contains(OUTPUT_DIR@.first()) && !OUTPUT_DIR@.contains(
                m.first(),
            )
        }),
{
    reveal_strlit("{start}");
    reveal_strlit("{end}");
    reveal_strlit("{input}");
    reveal_strlit("{out}");
    reveal_strlit("/work/input");
    reveal_strlit("/work/out");
    number::lemma_decimal(range.start as nat);
    number::lemma_decimal(range.end as nat);
    let m = placeholders()[k];
    let a = number::decimal(range.start as nat);
    let b = number::decimal(range.end as nat);
    assert(m.first() == '{');
    assert(number::is_digit(a[0]) && number::is_digit(b[0]));
    assert forall|i: int| 0 <= i < m.len() implies !number::is_digit(#[trigger] m[i]) && m[i]
        != '/' by {}
    assert forall|i: int| 0 <= i < a.len() implies a[i] != '{' by {
        assert(number::is_digit(a[i]));
    }
    assert forall|i: int| 0 <= i < b.len() implies b[i] != '{' by {
        assert(number::is_digit(b[i]));
    }
}

/// Every occurrence of every placeholder is replaced: none is left in the command.
pub proof fn placeholders_are_all_replaced(word: Seq<char>, range: FrameRange)
    ensures
        forall|k: int|
            0 <= k < placeholders().len() ==> !text::occurs(
                #[trigger] placeholders()[k],
                substituted(word, range),
            ),
{
    let m = placeholders();
    let a = number::decimal(range.start as nat);
    let b = number::decimal(range.end as nat);
    let w1 = text::replaced(word, m[0], a);
    let w2 = text::replaced(w1, m[1], b);
    let w3 = text::replaced(w2, m[2], INPUT_PATH@);
    lemma_replacements_are_plain(range, 0);
    lemma_replacements_are_plain(range, 1);
    lemma_replacements_are_plain(range, 2);
    lemma_replacements_are_plain(range, 3);
    text::lemma_replaced_free(word, m[0], a, m[0]);
    text::lemma_replaced_free(w1, m[1], b, m[0]);
    text::lemma_replaced_free(w1, m[1], b, m[1]);
    text::lemma_replaced_free(w2, m[2], INPUT_PATH@, m[0]);
    text::lemma_replaced_free(w2, m[2], INPUT_PATH@, m[1]);
    text::lemma_replaced_free(w2, m[2], INPUT_PATH@, m[2]);
    text::lemma_replaced_free(w3, m[3], OUTPUT_DIR@, m[0]);
    text::lemma_replaced_free(w3, m[3], OUTPUT_DIR@, m[1]);
    text::lemma_replaced_free(w3, m[3], OUTPUT_DIR@, m[2]);
    text::lemma_replaced_free(w3, m[3], OUTPUT_DIR@, m[3]);
}

/// A word without placeholders is passed on as it is.
pub proof fn plain_word_is_kept(word: Seq<char>, range: FrameRange)
    requires
        forall|k: int|
            0 <= k < placeholders().len() ==> !text::occurs(#[trigger] placeholders()[k], word),
    ensures
        substituted(word, range) == word,
{
    let m = placeholders();
    text::lemma_replaced_same(word, m[0], number::decimal(range.start as nat));
    text::lemma_replaced_same(word, m[1], number::decimal(range.end as nat));
    text::lemma_replaced_same(word, m[2], INPUT_PATH@);
    text::lemma_replaced_same(word, m[3], OUTPUT_DIR@);
}

/// A command tells the renderer which frames to render: the numbers after its start and its end flag
/// read as the first and the last frame of the range. The rest names the program, the staged input and
/// the output, and ends with the arguments given.
pub proof fn command_tells_its_frames(range: FrameRange, extra: Seq<Seq<char>>)
    ensures
        ({
            let blender = argv_of(Kind::Blender, range, extra);
            &&& blender.len() == 10 + extra.len()
            &&& blender[0] == "blender"@
            &&& blender[1] == "-b"@ && blender[2] == "/work/input"@
            &&& blender[3] == "-o"@ && blender[4] == "/work/out"@ + "/frame_"@
            &&& blender[5] == "-s"@ && number::natural(blender[6]) == Some(range.start as nat)
            &&& blender[7] == "-e"@ && number::natural(blender[8]) == Some(range.end as nat)
            &&& blender[9] == "-a"@
            &&& blender.skip(10) == extra
        }),
        ({
            let chrome = argv_of(Kind::Chrome, range, extra);
            &&& chrome.len() == 9 + extra.len()
            &&& chrome[0] == "ce-render-chrome"@
            &&& chrome[1] == "--input"@ && chrome[2] == "/work/input"@
            &&& chrome[3] == "--out"@ && chrome[4] == "/work/out"@
            &&& chrome[5] == "--from"@ && number::natural(chrome[6]) == Some(range.start as nat)
            &&& chrome[7] == "--to"@ && number::natural(chrome[8]) == Some(range.end as nat)
            &&& chrome.skip(9) == extra
        }),
{
    number::decimal_reads_back(range.start as nat, range.start as nat);
    number::decimal_reads_back(range.end as nat, range.end as nat);
    assert(argv_of(Kind::Blender, range, extra).skip(10) =~= extra);
    assert(argv_of(Kind::Chrome, range, extra).skip(9) =~= extra);
}

/// A custom command has the words that are given, each with the values of its placeholders in their
/// places, and in their order.
pub proof fn custom_command_has_its_words(range: FrameRange, extra: Seq<Seq<char>>)
    ensures
        argv_of(Kind::Custom, range, extra).len() == extra.len(),
        forall|i: int|
            0 <= i < extra.len() ==> #[trigger] argv_of(Kind::Custom, range, extra)[i]
                == substituted(extra[i], range),
{
}

/// What a placeholder stands for.
pub open spec fn values(range: FrameRange) -> Seq<Seq<char>> {
    seq![
        number::decimal(range.start as nat),
        number::decimal(range.end as nat),
        "/work/input"@,
        "/work/out"@,
    ]
}

proof fn lemma_other_placeholder_stays(k: int, j: int, s: Seq<char>, rep: Seq<char>)
    requires
        0 <= k < 4,
        0 <= j < 4,
        k != j,
    ensures
        text::replaced(placeholders()[k] + s, placeholders()[j], rep) == placeholders()[k]
            + text::replaced(s, placeholders()[j], rep),
{
    reveal_strlit("{start}");
    reveal_strlit("{end}");
    reveal_strlit("{input}");
    reveal_strlit("{out}");
    let m = placeholders()[k];
    let pat = placeholders()[j];
    let all = m + s;
    assert(m[0] == '{' && pat[0] == '{' && m[1] != pat[1]);
    if pat.is_prefix_of(all) {
        assert(pat[1] == all.subrange(0, pat.len() as int)[1]);
    }
    let t = m.drop_first();
    assert(!t.contains('{')) by {
        assert forall|i: int| 0 <= i < t.len() implies t[i] != '{' by {
            assert(t[i] == m[i + 1]);
        }
    }
    text::lemma_replaced_after(t, s, pat, rep);
    assert(all.drop_first() =~= t + s);
    assert(seq![all.first()] + (t + text::replaced(s, pat, rep)) =~= m + text::replaced(
        s,
        pat,
        rep,
    ));
}

proof fn lemma_placeholder_is_replaced(k: int, s: Seq<char>, rep: Seq<char>)
    requires
        0 <= k < 4,
    ensures
        text::replaced(placeholders()[k] + s, placeholders()[k], rep) == rep + text::replaced(
            s,
            placeholders()[k],
            rep,
        ),
{
    reveal_strlit("{start}");
    reveal_strlit("{end}");
    reveal_strlit("{input}");
    reveal_strlit("{out}");
    let m = placeholders()[k];
    let none = Seq::<char>::empty();
    text::first_occurrence_is_replaced(none, m, s, rep);
    assert(none + m + s =~= m + s);
    assert(none + rep =~= rep);
}

/// Every placeholder of a word becomes its value where it stands: what comes before it, up to the brace
/// that opens it, is kept, and what follows it is treated in the same way.
pub proof fn placeholder_becomes_its_value(
    before: Seq<char>,
    k: int,
    after: Seq<char>,
    range: FrameRange,
)
    requires
        0 <= k < placeholders().len(),
        !before.contains('{'),
    ensures
        substituted(before + placeholders()[k] + after, range) == before + values(range)[k]
            + substituted(after, range),
        substituted(before, range) == before,
{
    reveal_strlit("{start}");
    reveal_strlit("{end}");
    reveal_strlit("{input}");
    reveal_strlit("{out}");
    let m = placeholders();
    let v = values(range);
    let mark = m[k];
    let val = v[k];
    lemma_replacements_are_plain(range, 0);
    lemma_replacements_are_plain(range, 1);
    lemma_replacements_are_plain(range, 2);
    lemma_replacements_are_plain(range, 3);
    assert(m[0][0] == '{' && m[1][0] == '{' && m[2][0] == '{' && m[3][0] == '{');
    let plain = before + val;
    assert(!plain.contains('{')) by {
        assert forall|i: int| 0 <= i < plain.len() implies plain[i] != '{' by {
            if i < before.len() {
                assert(before.contains(before[i]));
            } else {
                assert(val.contains(val[i - before.len()]));
            }
        }
    }
    let a0 = after;
    let a1 = text::replaced(a0, m[0], v[0]);
    let a2 = text::replaced(a1, m[1], v[1]);
    let a3 = text::replaced(a2, m[2], v[2]);
    lemma_step(before, mark, val, a0, range, k, 0);
    lemma_step(before, mark, val, a1, range, k, 1);
    lemma_step(before, mark, val, a2, range, k, 2);
    lemma_step(before, mark, val, a3, range, k, 3);
    lemma_plain_step(before, range, 0);
    lemma_plain_step(before, range, 1);
    lemma_plain_step(before, range, 2);
    lemma_plain_step(before, range, 3);
}

/// The word after the first `j` replacements, where the `k`th placeholder stood in it.
spec fn midway(before: Seq<char>, mark: Seq<char>, val: Seq<char>, k: int, j: int) -> Seq<char> {
    if k < j {
        before + val
    } else {
        before + mark
    }
}

proof fn lemma_plain_step(u: Seq<char>, range: FrameRange, j: int)
    requires
        0 <= j < 4,
        !u.contains('{'),
    ensures
        text::replaced(u, placeholders()[j], values(range)[j]) == u,
{
    reveal_strlit("{start}");
    reveal_strlit("{end}");
    reveal_strlit("{input}");
    reveal_strlit("{out}");
    let none = Seq::<char>::empty();
    text::lemma_replaced_after(u, none, placeholders()[j], values(range)[j]);
    assert(u + none =~= u);
    assert(u + text::replaced(none, placeholders()[j], values(range)[j]) =~= u);
}

proof fn lemma_step(
    before: Seq<char>,
    mark: Seq<char>,
    val: Seq<char>,
    after: Seq<char>,
    range: FrameRange,
    k: int,
    j: int,
)
    requires
        0 <= k < 4,
        0 <= j < 4,
        !before.contains('{'),
        mark == placeholders()[k],
        val == values(range)[k],
        !(before + val).contains('{'),
    ensures
        text::replaced(
            midway(before, mark, val, k, j) + after,
            placeholders()[j],
            values(range)[j],
        ) == midway(before, mark, val, k, j + 1) + text::replaced(
            after,
            placeholders()[j],
            values(range)[j],
        ),
{
    reveal_strlit("{start}");
    reveal_strlit("{end}");
    reveal_strlit("{input}");
    reveal_strlit("{out}");
    let pat = placeholders()[j];
    let rep = values(range)[j];
    let rest = text::replaced(after, pat, rep);
    if k < j {
        text::lemma_replaced_after(before + val, after, pat, rep);
    } else {
        assert(before + mark + after =~= before + (mark + after));
        text::lemma_replaced_after(before, mark + after, pat, rep);
        if k == j {
            lemma_placeholder_is_replaced(k, after, rep);
            assert(before + (val + rest) =~= before + val + rest);
        } else {
            lemma_other_placeholder_stays(k, j, after, rep);
            assert(before + (mark + rest) =~= before + mark + rest);
        }
    }
}

} // verus!
