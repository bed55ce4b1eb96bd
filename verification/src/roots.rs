//! The root keys whose capability chains a host accepts.
//!
//! A roots file lists one key to a line, as sixty-four hexadecimal digits. What follows a `#` on a
//! line is a comment, and a line that is not a key is passed over.

use crate::text;
use vstd::prelude::*;
use vstd::string::*;

verus! {

broadcast use vstd::string::group_string_axioms;

/// The value of a hexadecimal digit.
pub open spec fn hex_value(c: char) -> Option<int> {
    let v = c as u32;
    if 48 <= v <= 57 {
        Some(v - 48)
    } else if 65 <= v <= 70 {
        Some(v - 55)
    } else if 97 <= v <= 102 {
        Some(v - 87)
    } else {
        None
    }
}

/// An even number of hexadecimal digits.
pub open spec fn is_hex(s: Seq<char>) -> bool {
    &&& s.len() % 2 == 0
    &&& forall|i: int| 0 <= i < s.len() ==> hex_value(#[trigger] s[i]) is Some
}

/// The bytes that pairs of hexadecimal digits make.
pub open spec fn hex_bytes(s: Seq<char>) -> Seq<u8> {
    Seq::new(
        s.len() / 2,
        |i: int| (16 * hex_value(s[2 * i])->0 + hex_value(s[2 * i + 1])->0) as u8,
    )
}

/// Calls `hex::decode`, which reads digits of either case in pairs, the high half of a byte first,
/// and refuses a text of odd length or with anything else in it.
#[verifier::external_body]
fn hex_decode(s: &str) -> (res: Option<Vec<u8>>)
    ensures
        match res {
            Some(bytes) => is_hex(s@) && bytes@ == hex_bytes(s@),
            None => !is_hex(s@),
        },
{
    hex::decode(s).ok()
}

/// The key that a line of a roots file holds.
pub open spec fn root_of(line: Seq<char>) -> Option<Seq<u8>> {
    let digits = text::trimmed(line.take(text::position(line, '#') as int));
    if is_hex(digits) && digits.len() == 64 {
        Some(hex_bytes(digits))
    } else {
        None
    }
}

/// The keys that a roots file holds, in the order of its lines.
pub open spec fn roots_of(file: Seq<char>) -> Seq<Seq<u8>> {
    text::lines_of(file).filter_map(|line: Seq<char>| root_of(line))
}

/// The bytes of a sequence of keys.
pub open spec fn key_views(keys: Seq<[u8; 32]>) -> Seq<Seq<u8>> {
    keys.map_values(|k: [u8; 32]| k@)
}

/// The key that a line of a roots file holds, if it holds one.
pub fn read_root(line: &str) -> (res: Option<[u8; 32]>)
    ensures
        match res {
            Some(key) => root_of(line@) == Some(key@),
            None => root_of(line@) is None,
        },
{
    let end: usize = text::find_char(line, '#');
    let entry: &str = line.substring_char(0, end);
    assert(entry@ =~= line@.take(end as int));
    let digits: &str = text::trim(entry);
    if digits.is_empty() {
        return None;
    }
    match hex_decode(digits) {
        Some(bytes) => {
            if bytes.len() != 32 {
                return None;
            }
            let mut key: [u8; 32] = [0u8; 32];
            let mut i: usize = 0;
            while i < 32
                invariant
                    i <= 32,
                    bytes@.len() == 32,
                    forall|k: int| 0 <= k < i ==> #[trigger] key@[k] == bytes@[k],
                decreases 32 - i,
            {
                key[i] = bytes[i];
                i = i + 1;
            }
            assert(key@ =~= bytes@);
            Some(key)
        },
        None => None,
    }
}

/// The keys that a roots file holds; none where there is no file.
pub fn load_roots(file: Option<&str>) -> (res: Vec<[u8; 32]>)
    ensures
        key_views(res@) == (match file {
            Some(text) => roots_of(text@),
            None => Seq::empty(),
        }),
{
    let mut out: Vec<[u8; 32]> = Vec::new();
    assert(key_views(out@) =~= Seq::empty());
    let content: &str = match file {
        Some(content) => content,
        None => {
            return out;
        },
    };
    let lines: Vec<&str> = text::lines(content);
    let ghost all = text::lines_of(content@);
    let ghost root = |line: Seq<char>| root_of(line);
    let mut i: usize = 0;
    assert(all.take(0).filter_map(root) =~= Seq::empty());
    while i < lines.len()
        invariant
            i <= lines@.len(),
            all == text::slice_views(lines@),
            root == (|line: Seq<char>| root_of(line)),
            key_views(out@) == all.take(i as int).filter_map(root),
        decreases lines@.len() - i,
    {
        let ghost before = key_views(out@);
        proof {
            all.lemma_filter_map_take_succ(root, i as int);
            assert(all[i as int] == lines@[i as int]@);
        }
        if let Some(key) = read_root(lines[i]) {
            out.push(key);
            assert(key_views(out@) =~= before + seq![key@]);
        }
        i = i + 1;
    }
    assert(all.take(all.len() as int) =~= all);
    out
}

/// Every key has thirty-two bytes.
pub proof fn roots_are_whole_keys(file: Seq<char>)
    ensures
        forall|i: int| 0 <= i < roots_of(file).len() ==> (#[trigger] roots_of(file)[i]).len() == 32,
{
    lemma_keys_whole(text::lines_of(file));
}

proof fn lemma_keys_whole(lines: Seq<Seq<char>>)
    ensures
        ({
            let keys = lines.filter_map(|line: Seq<char>| root_of(line));
            forall|i: int| 0 <= i < keys.len() ==> (#[trigger] keys[i]).len() == 32
        }),
    decreases lines.len(),
{
    let root = |line: Seq<char>| root_of(line);
    if lines.len() > 0 {
        let k = lines.len() - 1;
        lemma_keys_whole(lines.take(k));
        lines.lemma_filter_map_take_succ(root, k);
        assert(lines.take(k + 1) =~= lines);
    } else {
        assert(lines.filter_map(root) =~= Seq::empty());
    }
}

/// A comment at the end of a line does not change the key that the line holds.
pub proof fn comment_is_passed_over(line: Seq<char>, comment: Seq<char>)
    requires
        !line.contains('#'),
    ensures
        root_of(line + seq!['#'] + comment) == root_of(line),
{
    let all = line + seq!['#'] + comment;
    let n = line.len() as int;
    assert forall|i: int| 0 <= i < n implies #[trigger] all[i] != '#' by {
        assert(all[i] == line[i]);
        assert(line.contains(line[i]));
    }
    assert forall|i: int| 0 <= i < n implies #[trigger] line[i] != '#' by {
        assert(line.contains(line[i]));
    }
    assert(all[n] == '#');
    text::lemma_position_at(all, '#', n);
    text::lemma_position_at(line, '#', n);
    assert(all.take(n) =~= line.take(n));
}

/// A line holds a key exactly where, the comment and the whitespace at the ends aside, it is sixty-four
/// hexadecimal digits; each two of them, in order, make a byte of the key, the first the sixteens.
pub proof fn line_of_digits_is_a_key(before: Seq<char>, digits: Seq<char>, after: Seq<char>)
    requires
        forall|i: int| 0 <= i < before.len() ==> text::is_space(#[trigger] before[i]),
        forall|i: int| 0 <= i < after.len() ==> text::is_space(#[trigger] after[i]),
        digits.len() == 64,
        forall|i: int| 0 <= i < 64 ==> hex_value(#[trigger] digits[i]) is Some,
    ensures
        root_of(before + digits + after) is Some,
        root_of(before + digits + after)->0.len() == 32,
        forall|i: int|
            0 <= i < 32 ==> (#[trigger] root_of(before + digits + after)->0[i]) as int == 16
                * hex_value(digits[2 * i])->0 + hex_value(digits[2 * i + 1])->0,
{
    let line = before + digits + after;
    let a = before.len() as int;
    assert forall|i: int| 0 <= i < line.len() implies #[trigger] line[i] != '#' by {
        if i < a {
            assert(line[i] == before[i]);
        } else if i < a + 64 {
            assert(line[i] == digits[i - a]);
        } else {
            assert(line[i] == after[i - a - 64]);
        }
    }
    text::lemma_position_at(line, '#', line.len() as int);
    assert(line.take(line.len() as int) =~= line);
    assert forall|i: int| 0 <= i < a implies text::is_space(#[trigger] line[i]) by {
        assert(line[i] == before[i]);
    }
    assert forall|i: int| a + 64 <= i < line.len() implies text::is_space(#[trigger] line[i]) by {
        assert(line[i] == after[i - a - 64]);
    }
    assert(line[a] == digits[0] && line[a + 63] == digits[63]);
    text::lemma_trimmed_at(line, a, a + 64);
    assert(line.subrange(a, a + 64) =~= digits);
    assert forall|i: int| 0 <= i < 32 implies (#[trigger] hex_bytes(digits)[i]) as int == 16
        * hex_value(digits[2 * i])->0 + hex_value(digits[2 * i + 1])->0 by {
        assert(hex_value(digits[2 * i]) is Some && hex_value(digits[2 * i + 1]) is Some);
    }
}

/// A line that holds a key has, before any comment and without the whitespace at its ends, sixty-four
/// characters, each a hexadecimal digit.
pub proof fn only_digits_are_a_key(line: Seq<char>) -> (n: int)
    requires
        root_of(line) is Some,
    ensures
        0 <= n <= line.len(),
        forall|i: int| 0 <= i < n ==> #[trigger] line[i] != '#',
        n < line.len() ==> line[n] == '#',
        text::trimmed(line.take(n)).len() == 64,
        forall|i: int|
            0 <= i < 64 ==> hex_value(#[trigger] text::trimmed(line.take(n))[i]) is Some,
{
    text::lemma_position(line, '#');
    text::position(line, '#') as int
}

/// The keys of a file are those of its lines, in their order: one line is its key or none, and of two
/// files with a newline between them the keys are those of the one and then those of the other.
pub proof fn keys_stand_in_the_order_of_the_lines(a: Seq<char>, b: Seq<char>)
    ensures
        !a.contains('\n') ==> roots_of(a) == (match root_of(a) {
            Some(key) => seq![key],
            None => Seq::empty(),
        }),
        roots_of(a + seq!['\n'] + b) == roots_of(a) + roots_of(b),
{
    let root = |line: Seq<char>| root_of(line);
    text::lines_add_up(a, b);
    lemma_keys_add_up(text::lines_of(a), text::lines_of(b));
    if !a.contains('\n') {
        assert forall|i: int| 0 <= i < a.len() implies #[trigger] a[i] != '\n' by {
            assert(a.contains(a[i]));
        }
        text::lemma_position_at(a, '\n', a.len() as int);
        let one = seq![a];
        assert(text::lines_of(a) =~= one);
        one.lemma_filter_map_take_succ(root, 0);
        assert(one.take(0) =~= Seq::empty());
        assert(one.take(0).filter_map(root) =~= Seq::empty());
        assert(one.take(1) =~= one);
        assert(roots_of(a) =~= (match root_of(a) {
            Some(key) => seq![key],
            None => Seq::empty(),
        }));
    }
}

proof fn lemma_keys_add_up(a: Seq<Seq<char>>, b: Seq<Seq<char>>)
    ensures
        (a + b).filter_map(|line: Seq<char>| root_of(line)) == a.filter_map(
            |line: Seq<char>| root_of(line),
        ) + b.filter_map(|line: Seq<char>| root_of(line)),
    decreases b.len(),
{
    let root = |line: Seq<char>| root_of(line);
    let all = a + b;
    if b.len() > 0 {
        let k = b.len() - 1;
        let rest = b.take(k);
        lemma_keys_add_up(a, rest);
        all.lemma_filter_map_take_succ(root, a.len() + k);
        b.lemma_filter_map_take_succ(root, k);
        assert(all.take(a.len() + k) =~= a + rest);
        assert(all.take(a.len() + k + 1) =~= all);
        assert(b.take(k + 1) =~= b);
        assert(all.filter_map(root) =~= a.filter_map(root) + b.filter_map(root));
    } else {
        assert(all =~= a);
        assert(b.filter_map(root) =~= Seq::empty());
        assert(all.filter_map(root) =~= a.filter_map(root) + b.filter_map(root));
    }
}

/// A hexadecimal digit is worth its number, and a letter from `a` to `f` of either case ten to fifteen;
/// nothing else is a digit.
pub proof fn digits_are_worth_their_place(c: char)
    ensures
        hex_value(c) is Some <==> {
            ||| '0' as u32 <= c as u32 <= '9' as u32
            ||| 'a' as u32 <= c as u32 <= 'f' as u32
            ||| 'A' as u32 <= c as u32 <= 'F' as u32
        },
        '0' as u32 <= c as u32 <= '9' as u32 ==> hex_value(c) == Some(c as u32 - '0' as u32),
        'a' as u32 <= c as u32 <= 'f' as u32 ==> hex_value(c) == Some(10 + (c as u32 - 'a' as u32)),
        'A' as u32 <= c as u32 <= 'F' as u32 ==> hex_value(c) == Some(10 + (c as u32 - 'A' as u32)),
{
}

} // verus!
