//! The verify dial: which shards are rendered a second time, and what the comparison says.
//!
//! A render is reproducible, so a shard rendered again on another host must give the same output.
//! Which shards are checked is decided by the public beacon: nobody can tell beforehand, and
//! everybody can retrace it afterwards.

use crate::fraction;
use crate::fraction::Fraction;
use crate::order;
use crate::order::Ranked;
use crate::seqs;
use crate::text;
use sha2::{Digest, Sha256};
use vstd::prelude::*;
use vstd::string::*;
use vstd::utf8::*;

verus! {

/// The SHA-256 digest of `data`.
pub uninterp spec fn sha256(data: Seq<u8>) -> Seq<u8>;

/// Calls `sha2::Sha256::digest`, which hashes `data` whole and gives the thirty-two bytes of its
/// SHA-256 digest. The crate counts the message's bits in a `u64`, so the message is shorter than
/// two to the power of 61 bytes.
#[verifier::external_body]
fn sha256_digest(data: &[u8]) -> (res: [u8; 32])
    requires
        data@.len() < 0x2000_0000_0000_0000,
    ensures
        res@ == sha256(data@),
{
    Sha256::digest(data).into()
}

/// The eight bytes of `n`, most significant first.
pub open spec fn be_bytes(n: u64) -> Seq<u8> {
    seq![
        (n / 0x100_0000_0000_0000) as u8,
        ((n / 0x1_0000_0000_0000) % 256) as u8,
        ((n / 0x100_0000_0000) % 256) as u8,
        ((n / 0x1_0000_0000) % 256) as u8,
        ((n / 0x100_0000) % 256) as u8,
        ((n / 0x1_0000) % 256) as u8,
        ((n / 0x100) % 256) as u8,
        (n % 256) as u8,
    ]
}

/// The number that the first eight bytes of `d` make, most significant first.
pub open spec fn leading_number(d: Seq<u8>) -> u64 {
    (d[0] * 0x100_0000_0000_0000 + d[1] * 0x1_0000_0000_0000 + d[2] * 0x100_0000_0000 + d[3]
        * 0x1_0000_0000 + d[4] * 0x100_0000 + d[5] * 0x1_0000 + d[6] * 0x100 + d[7]) as u64
}

/// What is hashed for shard `i`: the beacon, a bar, and the shard's number in eight bytes.
pub open spec fn key_message(beacon: Seq<char>, i: u64) -> Seq<u8> {
    encode_utf8(beacon) + seq![0x7Cu8] + be_bytes(i)
}

/// Whether the beacon is short enough to be hashed.
pub open spec fn hashable(beacon: Seq<char>) -> bool {
    encode_utf8(beacon).len() + 9 < 0x2000_0000_0000_0000
}

/// Whether the beacon is short enough to be hashed, or need not be because the fraction `pct` checks
/// none of `total` shards or all of them.
pub open spec fn drawable(total: nat, pct: Fraction, beacon: Seq<char>) -> bool {
    0 < wanted(total, pct) < total ==> hashable(beacon)
}

/// The key by which the beacon shuffles shard `i`.
pub open spec fn key_of(beacon: Seq<char>, i: u64) -> u64 {
    leading_number(sha256(key_message(beacon, i)))
}

/// The keys of `total` shards.
pub open spec fn keys_of(beacon: Seq<char>, total: nat) -> Seq<u64> {
    Seq::new(total, |i: int| key_of(beacon, i as u64))
}

/// Whether shard `i` comes before shard `j` when they are shuffled by their keys: the lesser key
/// first, and the lesser number where the keys are equal.
pub open spec fn precedes(keys: Seq<u64>, i: int, j: int) -> bool {
    keys[i] < keys[j] || (keys[i] == keys[j] && i < j)
}

/// The shards that come before shard `i`.
pub open spec fn predecessors(keys: Seq<u64>, i: usize) -> Set<usize> {
    Set::new(|j: usize| j < keys.len() && precedes(keys, j as int, i as int))
}

/// The place of shard `i` in the shuffle.
pub open spec fn place_of(keys: Seq<u64>, i: usize) -> nat {
    predecessors(keys, i).len()
}

/// The numbers of `total` shards, ascending.
pub open spec fn shard_numbers(total: nat) -> Seq<usize> {
    Seq::new(total, |i: int| i as usize)
}

/// The shards that are checked: the first `want` of the shuffle, in ascending order.
pub open spec fn canaries(keys: Seq<u64>, want: nat) -> Seq<usize> {
    shard_numbers(keys.len()).filter(|i: usize| place_of(keys, i) < want)
}

/// How many of `total` shards are checked: the fraction `pct` of them, rounded up, but at least one
/// and at most all. None where the fraction is not above zero, and all where it is not below one.
pub open spec fn wanted(total: nat, pct: Fraction) -> nat {
    let share = pct.share_of(total);
    if total == 0 || pct.at_most_zero() {
        0
    } else if pct.at_least_one() || share > total {
        total
    } else if share < 1 {
        1
    } else {
        share
    }
}

/// A shard with the key by which it is shuffled.
#[derive(Clone, Copy)]
pub struct Keyed {
    pub key: u64,
    pub index: usize,
}

impl View for Keyed {
    type V = (u64, usize);

    open spec fn view(&self) -> (u64, usize) {
        (self.key, self.index)
    }
}

impl Ranked for Keyed {
    open spec fn leq(a: (u64, usize), b: (u64, usize)) -> bool {
        a.0 < b.0 || (a.0 == b.0 && a.1 <= b.1)
    }

    proof fn leq_is_total() {
    }

    fn no_later(&self, other: &Self) -> (res: bool) {
        self.key < other.key || (self.key == other.key && self.index <= other.index)
    }
}

/// The shards with their keys.
spec fn keyed(keys: Seq<u64>) -> Seq<(u64, usize)> {
    Seq::new(keys.len(), |i: int| (keys[i], i as usize))
}

/// The shards with their keys, shuffled.
spec fn shuffled(keys: Seq<u64>) -> Seq<(u64, usize)> {
    keyed(keys).sort_by(|a: (u64, usize), b: (u64, usize)| Keyed::leq(a, b))
}

/// The numbers of the shards in the order of the shuffle.
spec fn shuffled_numbers(keys: Seq<u64>) -> Seq<usize> {
    shuffled(keys).map_values(|k: (u64, usize)| k.1)
}

proof fn lemma_shuffled(keys: Seq<u64>)
    requires
        keys.len() <= usize::MAX,
    ensures
        shuffled(keys).len() == keys.len(),
        shuffled_numbers(keys).no_duplicates(),
        forall|k: int|
            #![trigger shuffled(keys)[k]]
            0 <= k < keys.len() ==> {
                let e = shuffled(keys)[k];
                e.1 < keys.len() && e.0 == keys[e.1 as int]
            },
        forall|i: usize| i < keys.len() ==> #[trigger] shuffled_numbers(keys).contains(i),
        forall|a: int, b: int|
            0 <= a < b < keys.len() ==> precedes(
                keys,
                #[trigger] shuffled_numbers(keys)[a] as int,
                #[trigger] shuffled_numbers(keys)[b] as int,
            ),
{
    let items = keyed(keys);
    let s = shuffled(keys);
    let numbers = shuffled_numbers(keys);
    let leq = |a: (u64, usize), b: (u64, usize)| Keyed::leq(a, b);
    Keyed::leq_is_total();
    items.lemma_sort_by_ensures(leq);
    items.to_multiset_ensures();
    s.to_multiset_ensures();
    assert(items.no_duplicates());
    items.lemma_multiset_has_no_duplicates();
    s.lemma_multiset_has_no_duplicates_conv();
    assert forall|k: int| #![trigger s[k]] 0 <= k < keys.len() implies s[k].1 < keys.len()
        && s[k].0 == keys[s[k].1 as int] by {
        assert(s.contains(s[k]));
        assert(items.contains(s[k]));
        let i = choose|i: int| 0 <= i < items.len() && items[i] == s[k];
        assert(items[i] == (keys[i], i as usize));
    }
    assert forall|i: usize| i < keys.len() implies #[trigger] numbers.contains(i) by {
        assert(items[i as int] == (keys[i as int], i));
        assert(items.contains((keys[i as int], i)));
        assert(s.to_multiset().count((keys[i as int], i)) > 0);
        assert(s.contains((keys[i as int], i)));
        let k = choose|k: int| 0 <= k < s.len() && s[k] == (keys[i as int], i);
        assert(numbers[k] == i);
    }
    assert forall|a: int, b: int| 0 <= a < b < keys.len() implies precedes(
        keys,
        #[trigger] numbers[a] as int,
        #[trigger] numbers[b] as int,
    ) by {
        assert(leq(s[a], s[b]));
        assert(s[a] != s[b]);
        assert(s[a].0 == keys[s[a].1 as int]);
        assert(s[b].0 == keys[s[b].1 as int]);
    }
    assert(numbers.no_duplicates()) by {
        assert forall|a: int, b: int|
            0 <= a < numbers.len() && 0 <= b < numbers.len() && a != b implies numbers[a]
            != numbers[b] by {
            if a < b {
                assert(precedes(keys, numbers[a] as int, numbers[b] as int));
            } else {
                assert(precedes(keys, numbers[b] as int, numbers[a] as int));
            }
        }
    }
}

/// The place of a shard in the shuffle is where it stands there.
proof fn lemma_place(keys: Seq<u64>, k: int)
    requires
        keys.len() <= usize::MAX,
        0 <= k < keys.len(),
    ensures
        place_of(keys, shuffled_numbers(keys)[k]) == k,
{
    lemma_shuffled(keys);
    let numbers = shuffled_numbers(keys);
    let here = numbers[k];
    let head = numbers.take(k);
    assert(head.to_set() =~= predecessors(keys, here)) by {
        assert forall|j: usize| predecessors(keys, here).contains(j) implies #[trigger] head.contains(
            j,
        ) by {
            assert(numbers.contains(j));
            let a = choose|a: int| 0 <= a < numbers.len() && numbers[a] == j;
            if a > k {
                assert(precedes(keys, numbers[k] as int, numbers[a] as int));
            }
            assert(a < k);
            assert(head[a] == j);
        }
        assert forall|j: usize| head.contains(j) implies #[trigger] predecessors(
            keys,
            here,
        ).contains(j) by {
            let a = choose|a: int| 0 <= a < head.len() && head[a] == j;
            assert(numbers[a] == j);
            assert(precedes(keys, numbers[a] as int, numbers[k] as int));
            assert(shuffled(keys)[a].1 == j);
        }
    }
    assert(head.no_duplicates()) by {
        assert forall|a: int, b: int|
            0 <= a < head.len() && 0 <= b < head.len() && a != b implies head[a] != head[b] by {
            assert(numbers[a] != numbers[b]);
        }
    }
    head.unique_seq_to_set();
}

/// A shard is among the first `want` of the shuffle exactly when its place is less than `want`.
proof fn lemma_chosen(keys: Seq<u64>, want: int, i: usize)
    requires
        keys.len() <= usize::MAX,
        0 <= want <= keys.len(),
        i < keys.len(),
    ensures
        shuffled_numbers(keys).take(want).contains(i) <==> place_of(keys, i) < want,
        place_of(keys, i) < keys.len(),
{
    lemma_shuffled(keys);
    let numbers = shuffled_numbers(keys);
    let k = choose|k: int| 0 <= k < numbers.len() && numbers[k] == i;
    assert(numbers.contains(i));
    lemma_place(keys, k);
    let head = numbers.take(want);
    if head.contains(i) {
        let a = choose|a: int| 0 <= a < head.len() && head[a] == i;
        assert(numbers[a] == i);
        assert(a == k);
    }
    if k < want {
        assert(head[k] == i);
    }
}

/// The number that the first eight bytes of a digest make.
pub fn key_from_digest(digest: &[u8; 32]) -> (res: u64)
    ensures
        res == leading_number(digest@),
{
    (digest[0] as u64) * 0x100_0000_0000_0000 + (digest[1] as u64) * 0x1_0000_0000_0000 + (
    digest[2] as u64) * 0x100_0000_0000 + (digest[3] as u64) * 0x1_0000_0000 + (digest[4] as u64)
        * 0x100_0000 + (digest[5] as u64) * 0x1_0000 + (digest[6] as u64) * 0x100 + (
    digest[7] as u64)
}

/// What is hashed for shard `i`.
pub fn message_for(beacon_hash: &str, i: usize) -> (res: Vec<u8>)
    ensures
        res@ == key_message(beacon_hash@, i as u64),
{
    let mut message: Vec<u8> = beacon_hash.as_bytes_vec();
    let n: u64 = i as u64;
    message.push(0x7C);
    message.push((n / 0x100_0000_0000_0000) as u8);
    message.push(((n / 0x1_0000_0000_0000) % 256) as u8);
    message.push(((n / 0x100_0000_0000) % 256) as u8);
    message.push(((n / 0x1_0000_0000) % 256) as u8);
    message.push(((n / 0x100_0000) % 256) as u8);
    message.push(((n / 0x1_0000) % 256) as u8);
    message.push(((n / 0x100) % 256) as u8);
    message.push((n % 256) as u8);
    assert(message@ =~= key_message(beacon_hash@, n));
    message
}

/// The key by which the beacon shuffles shard `i`.
pub fn key(beacon_hash: &str, i: usize) -> (res: u64)
    requires
        hashable(beacon_hash@),
    ensures
        res == key_of(beacon_hash@, i as u64),
{
    let message: Vec<u8> = message_for(beacon_hash, i);
    let digest: [u8; 32] = sha256_digest(message.as_slice());
    key_from_digest(&digest)
}

/// The first `want` shards in the order of their keys, by ascending number.
pub fn select_canaries(keys: &[u64], want: usize) -> (res: Vec<usize>)
    ensures
        res@ == canaries(keys@, want as nat),
{
    let total: usize = keys.len();
    let count: usize = if want < total {
        want
    } else {
        total
    };
    let mut items: Vec<Keyed> = Vec::new();
    let mut i: usize = 0;
    while i < total
        invariant
            total == keys@.len(),
            i <= total,
            items@.len() == i,
            forall|k: int| 0 <= k < i ==> (#[trigger] items@[k])@ == (keys@[k], k as usize),
        decreases total - i,
    {
        items.push(Keyed { key: keys[i], index: i });
        i = i + 1;
    }
    let places: Vec<usize> = order::sort_order(items.as_slice());
    let ghost numbers = shuffled_numbers(keys@);
    proof {
        assert(order::item_views(items@) =~= keyed(keys@));
        lemma_shuffled(keys@);
        assert forall|k: int| 0 <= k < places@.len() implies #[trigger] places@[k]
            == numbers[k] by {
            assert(order::picked(items@, places@)[k] == shuffled(keys@)[k]);
        }
    }
    let mut chosen: Vec<bool> = Vec::new();
    i = 0;
    while i < total
        invariant
            i <= total,
            chosen@.len() == i,
            forall|k: int| 0 <= k < i ==> !(#[trigger] chosen@[k]),
        decreases total - i,
    {
        chosen.push(false);
        i = i + 1;
    }
    i = 0;
    while i < count
        invariant
            i <= count <= total,
            total == keys@.len(),
            places@.len() == total,
            chosen@.len() == total,
            order::places(places@, total as nat),
            numbers == shuffled_numbers(keys@),
            forall|k: int| 0 <= k < places@.len() ==> #[trigger] places@[k] == numbers[k],
            numbers.len() == total,
            forall|k: usize|
                k < total ==> (#[trigger] chosen@[k as int] <==> numbers.take(i as int).contains(k)),
        decreases count - i,
    {
        let at: usize = places[i];
        let ghost before = chosen@;
        chosen.set(at, true);
        proof {
            let head = numbers.take(i as int);
            let more = numbers.take(i + 1);
            assert(more =~= head.push(at));
            assert forall|k: usize| k < total implies (#[trigger] chosen@[k as int]
                <==> more.contains(k)) by {
                if head.contains(k) {
                    let a = choose|a: int| 0 <= a < head.len() && head[a] == k;
                    assert(more[a] == k);
                }
                if k == at {
                    assert(more[i as int] == k);
                }
                if more.contains(k) && k != at {
                    let a = choose|a: int| 0 <= a < more.len() && more[a] == k;
                    assert(head[a] == k);
                }
                assert(k != at ==> chosen@[k as int] == before[k as int]);
            }
        }
        i = i + 1;
    }
    let mut out: Vec<usize> = Vec::new();
    let ghost all = shard_numbers(keys@.len());
    let ghost keep = |i: usize| place_of(keys@, i) < count;
    proof {
        reveal(Seq::filter);
        assert(out@ =~= all.take(0).filter(keep));
    }
    i = 0;
    while i < total
        invariant
            i <= total,
            total == keys@.len(),
            count <= total,
            chosen@.len() == total,
            numbers == shuffled_numbers(keys@),
            forall|k: usize|
                k < total ==> (#[trigger] chosen@[k as int] <==> numbers.take(
                    count as int,
                ).contains(k)),
            all == shard_numbers(keys@.len()),
            keep == (|i: usize| place_of(keys@, i) < count),
            out@ == all.take(i as int).filter(keep),
        decreases total - i,
    {
        proof {
            reveal(Seq::filter);
            assert(all.take(i + 1).drop_last() =~= all.take(i as int));
            assert(all.take(i + 1).last() == i);
            lemma_chosen(keys@, count as int, i);
        }
        if chosen[i] {
            out.push(i);
        }
        i = i + 1;
    }
    proof {
        assert(all.take(all.len() as int) =~= all);
        assert forall|k: int| 0 <= k < all.len() implies keep(#[trigger] all[k]) == (place_of(
            keys@,
            all[k],
        ) < want) by {
            lemma_chosen(keys@, count as int, all[k]);
        }
        seqs::lemma_filter_agree(all, keep, |i: usize| place_of(keys@, i) < want);
    }
    out
}

/// How many of `total` shards are checked.
pub fn wanted_count(total: usize, pct: Fraction) -> (res: usize)
    ensures
        res == wanted(total as nat, pct),
{
    if total == 0 || pct.is_at_most_zero() {
        return 0;
    }
    if pct.is_at_least_one() {
        return total;
    }
    let share: u128 = pct.share(total);
    if share > total as u128 {
        total
    } else if share < 1 {
        1
    } else {
        share as usize
    }
}

/// The numbers of the shards to render again, ascending. `pct` is the fraction of the `total` shards
/// to check, which is rounded up; `beacon_hash` is what nobody could foresee. None are checked where
/// the fraction is not above zero, all where it is not below one, and otherwise at least one.
pub fn canary_set(total: usize, pct: Fraction, beacon_hash: &str) -> (res: Vec<usize>)
    requires
        drawable(total as nat, pct, beacon_hash@),
    ensures
        res@ == canaries(
            keys_of(beacon_hash@, total as nat),
            wanted(total as nat, pct),
        ),
{
    let want: usize = wanted_count(total, pct);
    let ghost expected = keys_of(beacon_hash@, total as nat);
    if want == 0 {
        proof {
            canaries_are_as_many_as_wanted(expected, 0);
        }
        let out: Vec<usize> = Vec::new();
        assert(out@ =~= canaries(expected, 0));
        return out;
    }
    let mut keys: Vec<u64> = Vec::new();
    let mut i: usize = 0;
    if want == total {
        let mut out: Vec<usize> = Vec::new();
        while i < total
            invariant
                i <= total,
                out@.len() == i,
                forall|k: int| 0 <= k < i ==> #[trigger] out@[k] == k,
            decreases total - i,
        {
            out.push(i);
            i = i + 1;
        }
        proof {
            let all = shard_numbers(total as nat);
            assert(out@ =~= all);
            assert forall|k: int| 0 <= k < all.len() implies place_of(expected, #[trigger] all[k])
                < total by {
                lemma_chosen(expected, total as int, all[k]);
            }
            seqs::lemma_filter_all(all, |i: usize| place_of(expected, i) < total as nat);
        }
        return out;
    }
    while i < total
        invariant
            i <= total,
            hashable(beacon_hash@),
            keys@.len() == i,
            forall|k: int| 0 <= k < i ==> #[trigger] keys@[k] == key_of(beacon_hash@, k as u64),
        decreases total - i,
    {
        keys.push(key(beacon_hash, i));
        i = i + 1;
    }
    assert(keys@ =~= expected);
    select_canaries(keys.as_slice(), want)
}

/// What comparing a render with its re-render says.
#[derive(Debug, Clone, Copy, PartialEq, Eq, Structural)]
pub enum Verdict {
    /// The outputs are the same.
    Agree,
    /// The outputs differ, or there is none: at least one host is suspect.
    Diverge,
}

/// The verdict on two outputs: they agree if they are the same and not empty.
pub open spec fn verdict_of(original_cid: Seq<char>, rerun_cid: Seq<char>) -> Verdict {
    if original_cid == rerun_cid && original_cid.len() > 0 {
        Verdict::Agree
    } else {
        Verdict::Diverge
    }
}

/// Compares a frame's output with that of its re-render.
pub fn agrees(original_cid: &str, rerun_cid: &str) -> (res: Verdict)
    ensures
        res == verdict_of(original_cid@, rerun_cid@),
{
    if text::same(original_cid, rerun_cid) && !original_cid.is_empty() {
        Verdict::Agree
    } else {
        Verdict::Diverge
    }
}

/// The shards that are checked are distinct, stand in ascending order, and are shards of the job.
pub proof fn canaries_are_ascending(keys: Seq<u64>, want: nat)
    requires
        keys.len() <= usize::MAX,
    ensures
        forall|i: int, j: int|
            0 <= i < j < canaries(keys, want).len() ==> #[trigger] canaries(keys, want)[i]
                < #[trigger] canaries(keys, want)[j],
        forall|i: int|
            0 <= i < canaries(keys, want).len() ==> #[trigger] canaries(keys, want)[i] < keys.len(),
{
    let all = shard_numbers(keys.len());
    let keep = |i: usize| place_of(keys, i) < want;
    seqs::lemma_filter_in_order(
        all,
        keep,
        |a: usize, b: usize| a < b,
    );
    let c = canaries(keys, want);
    let less = |a: usize, b: usize| a < b;
    assert forall|i: int, j: int| 0 <= i < j < c.len() implies #[trigger] c[i] < #[trigger] c[j] by {
        assert(less(c[i], c[j]));
    }
    assert forall|i: int| 0 <= i < c.len() implies #[trigger] c[i] < keys.len() by {
        assert(all.contains(c[i]));
    }
}

/// A shard is checked exactly when it is a shard of the job and its place in the shuffle is among
/// the first that are wanted.
pub proof fn canaries_come_first(keys: Seq<u64>, want: nat, i: usize)
    requires
        keys.len() <= usize::MAX,
    ensures
        canaries(keys, want).contains(i) <==> i < keys.len() && place_of(keys, i) < want,
{
    broadcast use vstd::seq_lib::group_filter_ensures;

    let all = shard_numbers(keys.len());
    let keep = |i: usize| place_of(keys, i) < want;
    let c = canaries(keys, want);
    if c.contains(i) {
        let k = choose|k: int| 0 <= k < c.len() && c[k] == i;
        assert(keep(c[k]));
        canaries_are_ascending(keys, want);
    }
    if i < keys.len() && place_of(keys, i) < want {
        assert(all[i as int] == i);
        assert(keep(all[i as int]));
        assert(c.contains(all[i as int]));
    }
}

/// As many shards are checked as are wanted, or all if there are fewer.
pub proof fn canaries_are_as_many_as_wanted(keys: Seq<u64>, want: nat)
    requires
        keys.len() <= usize::MAX,
    ensures
        canaries(keys, want).len() == (if want < keys.len() {
            want
        } else {
            keys.len()
        }),
{
    let count = if want < keys.len() {
        want as int
    } else {
        keys.len() as int
    };
    let c = canaries(keys, want);
    let head = shuffled_numbers(keys).take(count);
    lemma_shuffled(keys);
    canaries_are_ascending(keys, want);
    assert(c.no_duplicates()) by {
        assert forall|a: int, b: int| 0 <= a < c.len() && 0 <= b < c.len() && a != b implies c[a]
            != c[b] by {
            if a < b {
                assert(c[a] < c[b]);
            } else {
                assert(c[b] < c[a]);
            }
        }
    }
    assert(head.no_duplicates()) by {
        assert forall|a: int, b: int|
            0 <= a < head.len() && 0 <= b < head.len() && a != b implies head[a] != head[b] by {
            assert(shuffled_numbers(keys)[a] != shuffled_numbers(keys)[b]);
        }
    }
    assert(c.to_set() =~= head.to_set()) by {
        assert forall|i: usize| c.contains(i) <==> #[trigger] head.contains(i) by {
            canaries_come_first(keys, want, i);
            if i < keys.len() {
                lemma_chosen(keys, count, i);
            } else if head.contains(i) {
                let a = choose|a: int| 0 <= a < head.len() && head[a] == i;
                assert(shuffled(keys)[a].1 == i);
            }
        }
    }
    c.unique_seq_to_set();
    head.unique_seq_to_set();
}

/// Of two fractions the greater wants no fewer shards, and equal ones want as many.
pub proof fn higher_dial_wants_no_fewer(total: nat, p: Fraction, q: Fraction)
    requires
        !p.is_nan(),
        !q.is_nan(),
        p.scaled() <= q.scaled(),
    ensures
        wanted(total, p) <= wanted(total, q),
        p.scaled() == q.scaled() ==> wanted(total, p) == wanted(total, q),
{
    fraction::greater_fraction_makes_no_smaller_share(p, q, total);
}

/// Turning the dial up only adds shards: what is checked at one fraction is checked at any greater one,
/// and at an equal one the same is checked.
pub proof fn higher_dial_keeps_canaries(beacon: Seq<char>, total: nat, p: Fraction, q: Fraction)
    requires
        total <= usize::MAX,
        !p.is_nan(),
        !q.is_nan(),
        p.scaled() <= q.scaled(),
    ensures
        ({
            let keys = keys_of(beacon, total);
            let lower = canaries(keys, wanted(total, p));
            let higher = canaries(keys, wanted(total, q));
            &&& forall|i: usize| #[trigger] lower.contains(i) ==> higher.contains(i)
            &&& p.scaled() == q.scaled() ==> lower == higher
        }),
{
    let keys = keys_of(beacon, total);
    let lower = canaries(keys, wanted(total, p));
    higher_dial_wants_no_fewer(total, p, q);
    assert forall|i: usize| #[trigger] lower.contains(i) implies canaries(
        keys,
        wanted(total, q),
    ).contains(i) by {
        canaries_come_first(keys, wanted(total, p), i);
        canaries_come_first(keys, wanted(total, q), i);
    }
}

/// The dial's ends and its middle: where the fraction is not above zero nothing is checked, where it
/// is not below one every shard is, and in between as many shards as the fraction makes, rounded up,
/// but at least one and no more than all.
pub proof fn dial_checks_none_all_or_some(beacon: Seq<char>, total: nat, pct: Fraction)
    requires
        total <= usize::MAX,
    ensures
        ({
            let c = canaries(keys_of(beacon, total), wanted(total, pct));
            &&& pct.at_most_zero() ==> c.len() == 0
            &&& pct.at_least_one() ==> c.len() == total
            &&& total > 0 && !pct.at_most_zero() ==> 1 <= c.len() <= total
            &&& !pct.at_most_zero() && !pct.at_least_one() && 1 <= pct.share_of(total) <= total
                ==> c.len() == pct.share_of(total)
        }),
{
    let keys = keys_of(beacon, total);
    canaries_are_as_many_as_wanted(keys, wanted(total, pct));
    vstd::arithmetic::power2::lemma_pow2_pos(149);
}

/// Outputs agree only with themselves, whichever is taken first, and an empty output agrees with
/// nothing.
pub proof fn agreement_is_equality_of_outputs(a: Seq<char>, b: Seq<char>)
    ensures
        verdict_of(a, b) == verdict_of(b, a),
        verdict_of(a, b) == Verdict::Agree ==> a == b,
        a.len() > 0 ==> verdict_of(a, a) == Verdict::Agree,
        a.len() == 0 ==> verdict_of(a, b) == Verdict::Diverge,
{
}

/// The eight bytes of a number are its digits in base 256, the most significant first: a number that
/// is 256 times as much and `last` more has the same bytes one place further on, and then `last`.
pub proof fn bytes_are_written_in_256s(n: u64, last: u8)
    requires
        n < 0x100_0000_0000_0000,
    ensures
        be_bytes(0) == Seq::new(8, |i: int| 0u8),
        be_bytes(n).len() == 8,
        be_bytes((n * 256 + last) as u64) == be_bytes(n).drop_first().push(last),
{
    let m = (n * 256 + last) as u64;
    assert(m == n * 256 + last);
    assert(be_bytes(0) =~= Seq::new(8, |i: int| 0u8));
    assert(m % 256 == last && m / 256 == n);
    vstd::arithmetic::div_mod::lemma_div_denominator(m as int, 256, 0x100);
    vstd::arithmetic::div_mod::lemma_div_denominator(m as int, 256, 0x1_0000);
    vstd::arithmetic::div_mod::lemma_div_denominator(m as int, 256, 0x100_0000);
    vstd::arithmetic::div_mod::lemma_div_denominator(m as int, 256, 0x1_0000_0000);
    vstd::arithmetic::div_mod::lemma_div_denominator(m as int, 256, 0x100_0000_0000);
    vstd::arithmetic::div_mod::lemma_div_denominator(m as int, 256, 0x1_0000_0000_0000);
    assert((n / 0x1_0000_0000_0000) % 256 == n / 0x1_0000_0000_0000);
    assert(be_bytes(m) =~= be_bytes(n).drop_first().push(last));
}

proof fn lemma_one_byte_on(n: int, unit: int, head: int, last: u8)
    requires
        n >= 0,
        unit > 0,
        n / unit == head * 256 + last,
    ensures
        n / (unit * 256) == head,
        (n / unit) % 256 == last as int,
{
    vstd::arithmetic::div_mod::lemma_div_denominator(n, unit, 256);
}

proof fn lemma_head_bytes(d: Seq<u8>)
    requires
        d.len() >= 8,
    ensures
        be_bytes(leading_number(d)) == d.take(8),
{
    let p0 = d[0] as int;
    let p1 = p0 * 256 + d[1];
    let p2 = p1 * 256 + d[2];
    let p3 = p2 * 256 + d[3];
    let p4 = p3 * 256 + d[4];
    let p5 = p4 * 256 + d[5];
    let p6 = p5 * 256 + d[6];
    let p7 = p6 * 256 + d[7];
    let n = leading_number(d) as int;
    assert(n == p7);
    lemma_one_byte_on(n, 1, p6, d[7]);
    lemma_one_byte_on(n, 0x100, p5, d[6]);
    lemma_one_byte_on(n, 0x1_0000, p4, d[5]);
    lemma_one_byte_on(n, 0x100_0000, p3, d[4]);
    lemma_one_byte_on(n, 0x1_0000_0000, p2, d[3]);
    lemma_one_byte_on(n, 0x100_0000_0000, p1, d[2]);
    lemma_one_byte_on(n, 0x1_0000_0000_0000, p0, d[1]);
    assert(be_bytes(leading_number(d)) =~= d.take(8));
}

proof fn lemma_last_byte(n: int, unit: int)
    requires
        n >= 0,
        unit > 0,
    ensures
        n / unit == 256 * (n / (unit * 256)) + (n / unit) % 256,
{
    vstd::arithmetic::div_mod::lemma_div_denominator(n, unit, 256);
    vstd::arithmetic::div_mod::lemma_fundamental_div_mod(n / unit, 256);
}

proof fn lemma_read_back(n: u64)
    ensures
        leading_number(be_bytes(n)) == n,
{
    let m = n as int;
    lemma_last_byte(m, 1);
    lemma_last_byte(m, 0x100);
    lemma_last_byte(m, 0x1_0000);
    lemma_last_byte(m, 0x100_0000);
    lemma_last_byte(m, 0x1_0000_0000);
    lemma_last_byte(m, 0x100_0000_0000);
    lemma_last_byte(m, 0x1_0000_0000_0000);
}

/// What is hashed for a shard begins with all the bytes of the beacon and ends with the shard's number,
/// so it tells both: no other beacon and no other shard has the same hashed for it.
pub proof fn message_tells_beacon_and_shard(a: Seq<char>, b: Seq<char>, i: u64, j: u64)
    ensures
        encode_utf8(a).is_prefix_of(key_message(a, i)),
        key_message(a, i).len() == encode_utf8(a).len() + 9,
        key_message(a, i)[encode_utf8(a).len() as int] == '|' as u8,
        key_message(a, i).skip(encode_utf8(a).len() as int + 1) == be_bytes(i),
        key_message(a, i) == key_message(b, j) ==> a == b && i == j,
{
    let x = encode_utf8(a);
    let y = encode_utf8(b);
    let s = key_message(a, i);
    let t = key_message(b, j);
    assert(x =~= s.subrange(0, x.len() as int));
    assert(s.skip(x.len() as int + 1) =~= be_bytes(i));
    if s == t {
        assert(x.len() == y.len());
        assert(y =~= t.subrange(0, y.len() as int));
        assert(t.skip(y.len() as int + 1) =~= be_bytes(j));
        encode_utf8_decode_utf8(a);
        encode_utf8_decode_utf8(b);
        lemma_read_back(i);
        lemma_read_back(j);
    }
}

/// The key of a shard is the number whose eight bytes are the first of the digest of what is hashed for
/// it, and the keys of a job are those of its shards, in order.
pub proof fn keys_are_heads_of_digests(beacon: Seq<char>, total: nat, i: u64)
    requires
        sha256(key_message(beacon, i)).len() >= 8,
    ensures
        be_bytes(key_of(beacon, i)) == sha256(key_message(beacon, i)).take(8),
        keys_of(beacon, total).len() == total,
        i < total ==> keys_of(beacon, total)[i as int] == key_of(beacon, i),
{
    lemma_head_bytes(sha256(key_message(beacon, i)));
}

/// The shards that are checked have the least keys: none that is not checked has a lesser one, nor an
/// equal one and a lesser number.
pub proof fn canaries_have_the_least_keys(keys: Seq<u64>, want: nat, i: usize, j: usize)
    requires
        keys.len() <= usize::MAX,
        i < keys.len(),
        j < keys.len(),
        canaries(keys, want).contains(i),
        !canaries(keys, want).contains(j),
    ensures
        keys[i as int] < keys[j as int] || (keys[i as int] == keys[j as int] && i < j),
{
    canaries_come_first(keys, want, i);
    canaries_come_first(keys, want, j);
    lemma_shuffled(keys);
    let numbers = shuffled_numbers(keys);
    assert(numbers.contains(i) && numbers.contains(j));
    let a = choose|a: int| 0 <= a < numbers.len() && numbers[a] == i;
    let b = choose|b: int| 0 <= b < numbers.len() && numbers[b] == j;
    lemma_place(keys, a);
    lemma_place(keys, b);
    assert(precedes(keys, numbers[a] as int, numbers[b] as int));
}

/// How many shards are checked, by the fraction: none where it is zero or less, all where it is one or
/// more, and otherwise the fraction of them in single precision, rounded up, or one where that makes
/// none and all where it makes more. A fraction that is no number checks one.
pub proof fn as_many_are_wanted_as_the_fraction_makes(total: nat, pct: Fraction)
    ensures
        total == 0 ==> wanted(total, pct) == 0,
        pct.bits == 0 || 0x8000_0000 <= pct.bits <= 0xff80_0000 ==> wanted(total, pct) == 0,
        0x3f80_0000 <= pct.bits <= 0x7f80_0000 ==> wanted(total, pct) == total,
        total > 0 && (0x7f80_0000 < pct.bits < 0x8000_0000 || pct.bits > 0xff80_0000) ==> wanted(
            total,
            pct,
        ) == 1,
        total > 0 && 0 < pct.bits < 0x3f80_0000 ==> {
            let share = pct.share_of(total);
            &&& share == 0 ==> wanted(total, pct) == 1
            &&& 1 <= share <= total ==> wanted(total, pct) == share
            &&& share > total ==> wanted(total, pct) == total
        },
{
    fraction::bits_tell_where_a_fraction_stands(pct);
}

} // verus!
