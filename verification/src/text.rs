//! Text helpers: whitespace trimming, comparison, and substitution, each stated over the sequence
//! of characters a string holds.

use vstd::prelude::*;
use vstd::string::*;
use vstd::utf8::*;

verus! {

broadcast use vstd::string::group_string_axioms;

/// The texts of a sequence of strings.
pub open spec fn views(strings: Seq<String>) -> Seq<Seq<char>> {
    strings.map_values(|s: String| s@)
}

/// The characters with the Unicode `White_Space` property.
pub open spec fn is_space(c: char) -> bool {
    let v = c as u32;
    ||| 0x09 <= v <= 0x0D
    ||| v == 0x20
    ||| v == 0x85
    ||| v == 0xA0
    ||| v == 0x1680
    ||| 0x2000 <= v <= 0x200A
    ||| v == 0x2028
    ||| v == 0x2029
    ||| v == 0x202F
    ||| v == 0x205F
    ||| v == 0x3000
}

/// Whether `c` is whitespace.
pub fn space(c: char) -> (res: bool)
    ensures
        res == is_space(c),
{
    let v: u32 = c as u32;
    (0x09 <= v && v <= 0x0D) || v == 0x20 || v == 0x85 || v == 0xA0 || v == 0x1680 || (0x2000 <= v
        && v <= 0x200A) || v == 0x2028 || v == 0x2029 || v == 0x202F || v == 0x205F || v == 0x3000
}

/// `s` without its leading whitespace.
pub open spec fn trimmed_front(s: Seq<char>) -> Seq<char>
    decreases s.len(),
{
    if s.len() > 0 && is_space(s.first()) {
        trimmed_front(s.drop_first())
    } else {
        s
    }
}

/// `s` without its trailing whitespace.
pub open spec fn trimmed_back(s: Seq<char>) -> Seq<char>
    decreases s.len(),
{
    if s.len() > 0 && is_space(s.last()) {
        trimmed_back(s.drop_last())
    } else {
        s
    }
}

/// `s` without the whitespace at its two ends.
pub open spec fn trimmed(s: Seq<char>) -> Seq<char> {
    trimmed_back(trimmed_front(s))
}

proof fn lemma_trimmed_front_at(s: Seq<char>, a: int)
    requires
        0 <= a <= s.len(),
        forall|i: int| 0 <= i < a ==> is_space(#[trigger] s[i]),
        a < s.len() ==> !is_space(s[a]),
    ensures
        trimmed_front(s) == s.subrange(a, s.len() as int),
    decreases a,
{
    if a > 0 {
        let t = s.drop_first();
        assert forall|i: int| 0 <= i < a - 1 implies is_space(#[trigger] t[i]) by {
            assert(t[i] == s[i + 1]);
        }
        lemma_trimmed_front_at(t, a - 1);
        assert(is_space(s[0]));
        assert(t.subrange(a - 1, t.len() as int) =~= s.subrange(a, s.len() as int));
    } else {
        assert(s.subrange(0, s.len() as int) =~= s);
    }
}

proof fn lemma_trimmed_back_at(s: Seq<char>, b: int)
    requires
        0 <= b <= s.len(),
        forall|i: int| b <= i < s.len() ==> is_space(#[trigger] s[i]),
        b > 0 ==> !is_space(s[b - 1]),
    ensures
        trimmed_back(s) == s.subrange(0, b),
    decreases s.len() - b,
{
    if b < s.len() {
        let t = s.drop_last();
        lemma_trimmed_back_at(t, b);
        assert(is_space(s[s.len() - 1]));
        assert(t.subrange(0, b) =~= s.subrange(0, b));
    } else {
        assert(s.subrange(0, b) =~= s);
    }
}

/// What is between the leading and the trailing whitespace is the trimmed text.
pub proof fn lemma_trimmed_at(s: Seq<char>, a: int, b: int)
    requires
        0 <= a <= b <= s.len(),
        forall|i: int| 0 <= i < a ==> is_space(#[trigger] s[i]),
        forall|i: int| b <= i < s.len() ==> is_space(#[trigger] s[i]),
        a < b ==> !is_space(s[a]) && !is_space(s[b - 1]),
    ensures
        trimmed(s) == s.subrange(a, b),
{
    if a < b {
        lemma_trimmed_front_at(s, a);
        let t = s.subrange(a, s.len() as int);
        lemma_trimmed_back_at(t, b - a);
        assert(t.subrange(0, b - a) =~= s.subrange(a, b));
    } else {
        assert forall|i: int| 0 <= i < s.len() implies is_space(#[trigger] s[i]) by {}
        lemma_trimmed_front_at(s, s.len() as int);
        let t = s.subrange(s.len() as int, s.len() as int);
        assert(t =~= s.subrange(a, b));
        assert(trimmed_back(t) == t);
    }
}

/// Text with no whitespace at its ends is its own trimmed form.
pub proof fn lemma_trimmed_same(s: Seq<char>)
    requires
        s.len() > 0 ==> !is_space(s.first()) && !is_space(s.last()),
    ensures
        trimmed(s) == s,
{
    lemma_trimmed_at(s, 0, s.len() as int);
    assert(s.subrange(0, s.len() as int) =~= s);
}

/// The part of `s` between its leading and trailing whitespace.
pub fn trim(s: &str) -> (res: &str)
    ensures
        res@ == trimmed(s@),
{
    let mut from: usize = 0;
    let mut to: usize = 0;
    let mut pos: usize = 0;
    let total: usize = s.unicode_len();
    let ghost text = s@;
    for c in it: s.chars()
        invariant
            text == s@,
            it.seq() == text,
            total == text.len(),
            pos == it.index(),
            from <= to <= pos,
            forall|i: int| 0 <= i < from ==> is_space(#[trigger] text[i]),
            forall|i: int| to <= i < pos ==> is_space(#[trigger] text[i]),
            from < to ==> !is_space(text[from as int]) && !is_space(text[to - 1]),
            from == to ==> from == 0,
    {
        if !space(c) {
            if from == to {
                from = pos;
            }
            to = pos + 1;
        }
        pos = pos + 1;
    }
    proof {
        lemma_trimmed_at(text, from as int, to as int);
    }
    s.substring_char(from, to)
}

/// Whether two strings hold the same text.
pub fn same(a: &str, b: &str) -> (res: bool)
    ensures
        res == (a@ == b@),
{
    let x: &[u8] = a.as_bytes();
    let y: &[u8] = b.as_bytes();
    proof {
        encode_utf8_decode_utf8(a@);
        encode_utf8_decode_utf8(b@);
    }
    if x.len() != y.len() {
        return false;
    }
    let mut i: usize = 0;
    while i < x.len()
        invariant
            i <= x.len(),
            x.len() == y.len(),
            x@ == a.spec_bytes(),
            y@ == b.spec_bytes(),
            forall|k: int| 0 <= k < i ==> x@[k] == y@[k],
        decreases x.len() - i,
    {
        if x[i] != y[i] {
            return false;
        }
        i = i + 1;
    }
    assert(x@ =~= y@);
    true
}

/// Where `c` first stands in `s`; the length of `s` if it does not.
pub open spec fn position(s: Seq<char>, c: char) -> nat
    decreases s.len(),
{
    if s.len() == 0 || s.first() == c {
        0
    } else {
        1 + position(s.drop_first(), c)
    }
}

/// The place before which `c` does not stand, and at which it does or the text ends.
pub proof fn lemma_position_at(s: Seq<char>, c: char, k: int)
    requires
        0 <= k <= s.len(),
        forall|i: int| 0 <= i < k ==> #[trigger] s[i] != c,
        k < s.len() ==> s[k] == c,
    ensures
        position(s, c) == k,
    decreases k,
{
    if k > 0 {
        let t = s.drop_first();
        assert forall|i: int| 0 <= i < k - 1 implies #[trigger] t[i] != c by {
            assert(t[i] == s[i + 1]);
        }
        assert(s[0] != c);
        lemma_position_at(t, c, k - 1);
    }
}

/// Where `c` first stands in `s`; the length of `s` if it does not.
pub fn find_char(s: &str, c: char) -> (res: usize)
    ensures
        res == position(s@, c),
        res <= s@.len(),
{
    let mut pos: usize = 0;
    let total: usize = s.unicode_len();
    let ghost text = s@;
    for x in it: s.chars()
        invariant
            text == s@,
            it.seq() == text,
            total == text.len(),
            pos == it.index(),
            forall|i: int| 0 <= i < pos ==> #[trigger] text[i] != c,
    {
        if x == c {
            proof {
                lemma_position_at(text, c, pos as int);
            }
            return pos;
        }
        pos = pos + 1;
    }
    proof {
        lemma_position_at(text, c, pos as int);
    }
    pos
}

/// Whether `c` stands in `s`.
pub fn has_char(s: &str, c: char) -> (res: bool)
    ensures
        res == s@.contains(c),
{
    let ghost text = s@;
    for x in it: s.chars()
        invariant
            text == s@,
            it.seq() == text,
            forall|i: int| 0 <= i < it.index() ==> #[trigger] text[i] != c,
    {
        if x == c {
            assert(text[it.index()] == c);
            return true;
        }
    }
    false
}

/// The characters of `s`, in order.
pub fn chars_of(s: &str) -> (res: Vec<char>)
    ensures
        res@ == s@,
{
    let mut out: Vec<char> = Vec::new();
    let ghost text = s@;
    for c in it: s.chars()
        invariant
            text == s@,
            it.seq() == text,
            out@ == text.take(it.index()),
    {
        out.push(c);
        assert(text.take(it.index() + 1) =~= text.take(it.index()).push(text[it.index()]));
    }
    assert(text.take(text.len() as int) =~= text);
    out
}

/// A copy of each of `strings`.
pub fn clone_all(strings: &[String]) -> (res: Vec<String>)
    ensures
        views(res@) == views(strings@),
{
    let mut out: Vec<String> = Vec::new();
    let mut i: usize = 0;
    while i < strings.len()
        invariant
            i <= strings@.len(),
            out@.len() == i,
            forall|k: int| 0 <= k < i ==> (#[trigger] out@[k])@ == strings@[k]@,
        decreases strings@.len() - i,
    {
        out.push(strings[i].clone());
        i = i + 1;
    }
    assert(views(out@) =~= views(strings@));
    out
}

/// The text of an optional string.
pub open spec fn opt_view(s: Option<&str>) -> Option<Seq<char>> {
    match s {
        Some(t) => Some(t@),
        None => None,
    }
}

/// The text of an optional owned string.
pub open spec fn opt_string_view(s: Option<String>) -> Option<Seq<char>> {
    match s {
        Some(t) => Some(t@),
        None => None,
    }
}

/// Lexicographic order by code point.
pub open spec fn text_leq(a: Seq<char>, b: Seq<char>) -> bool
    decreases a.len(),
{
    if a.len() == 0 {
        true
    } else if b.len() == 0 {
        false
    } else if a.first() == b.first() {
        text_leq(a.drop_first(), b.drop_first())
    } else {
        (a.first() as u32) < (b.first() as u32)
    }
}

proof fn lemma_text_leq_reflexive(a: Seq<char>)
    ensures
        text_leq(a, a),
    decreases a.len(),
{
    if a.len() > 0 {
        lemma_text_leq_reflexive(a.drop_first());
    }
}

proof fn lemma_text_leq_antisymmetric(a: Seq<char>, b: Seq<char>)
    requires
        text_leq(a, b),
        text_leq(b, a),
    ensures
        a == b,
    decreases a.len(),
{
    if a.len() > 0 && b.len() > 0 {
        lemma_text_leq_antisymmetric(a.drop_first(), b.drop_first());
        assert(a =~= seq![a.first()] + a.drop_first());
        assert(b =~= seq![b.first()] + b.drop_first());
    } else {
        assert(a =~= b);
    }
}

proof fn lemma_text_leq_transitive(a: Seq<char>, b: Seq<char>, c: Seq<char>)
    requires
        text_leq(a, b),
        text_leq(b, c),
    ensures
        text_leq(a, c),
    decreases a.len(),
{
    if a.len() > 0 && b.len() > 0 && c.len() > 0 {
        if a.first() == b.first() && b.first() == c.first() {
            lemma_text_leq_transitive(a.drop_first(), b.drop_first(), c.drop_first());
        }
    }
}

proof fn lemma_text_leq_connected(a: Seq<char>, b: Seq<char>)
    ensures
        text_leq(a, b) || text_leq(b, a),
    decreases a.len(),
{
    if a.len() > 0 && b.len() > 0 {
        lemma_text_leq_connected(a.drop_first(), b.drop_first());
        char_u32_cast(a.first(), a.first() as u32);
        char_u32_cast(b.first(), b.first() as u32);
    }
}

/// Lexicographic order is a total order.
pub proof fn text_leq_is_total()
    ensures
        forall|a: Seq<char>| #[trigger] text_leq(a, a),
        forall|a: Seq<char>, b: Seq<char>| #[trigger]
            text_leq(a, b) && #[trigger] text_leq(b, a) ==> a == b,
        forall|a: Seq<char>, b: Seq<char>, c: Seq<char>| #[trigger]
            text_leq(a, b) && #[trigger] text_leq(b, c) ==> text_leq(a, c),
        forall|a: Seq<char>, b: Seq<char>| #[trigger] text_leq(a, b) || text_leq(b, a),
{
    assert forall|a: Seq<char>| #[trigger] text_leq(a, a) by {
        lemma_text_leq_reflexive(a);
    }
    assert forall|a: Seq<char>, b: Seq<char>| #[trigger]
        text_leq(a, b) && #[trigger] text_leq(b, a) implies a == b by {
        lemma_text_leq_antisymmetric(a, b);
    }
    assert forall|a: Seq<char>, b: Seq<char>, c: Seq<char>| #[trigger]
        text_leq(a, b) && #[trigger] text_leq(b, c) implies text_leq(a, c) by {
        lemma_text_leq_transitive(a, b, c);
    }
    assert forall|a: Seq<char>, b: Seq<char>| #[trigger] text_leq(a, b) || text_leq(b, a) by {
        lemma_text_leq_connected(a, b);
    }
}

/// Whether `a` comes no later than `b` in lexicographic order.
pub fn no_later(a: &str, b: &str) -> (res: bool)
    ensures
        res == text_leq(a@, b@),
{
    let x: Vec<char> = chars_of(a);
    let y: Vec<char> = chars_of(b);
    let mut i: usize = 0;
    assert(x@.skip(0) =~= x@);
    assert(y@.skip(0) =~= y@);
    while i < x.len() && i < y.len()
        invariant
            i <= x@.len(),
            i <= y@.len(),
            x@ == a@,
            y@ == b@,
            text_leq(x@, y@) == text_leq(x@.skip(i as int), y@.skip(i as int)),
        decreases x@.len() - i,
    {
        let ghost p = x@.skip(i as int);
        let ghost q = y@.skip(i as int);
        assert(p.drop_first() =~= x@.skip(i + 1));
        assert(q.drop_first() =~= y@.skip(i + 1));
        let c: char = x[i];
        let d: char = y[i];
        if c != d {
            return (c as u32) < (d as u32);
        }
        i = i + 1;
    }
    i == x.len()
}

/// `s` with every occurrence of `pat`, taken from the left without overlap, replaced by `rep`.
pub open spec fn replaced(s: Seq<char>, pat: Seq<char>, rep: Seq<char>) -> Seq<char>
    decreases s.len(),
{
    if s.len() == 0 || pat.len() == 0 {
        s
    } else if pat.is_prefix_of(s) {
        rep + replaced(s.skip(pat.len() as int), pat, rep)
    } else {
        seq![s.first()] + replaced(s.drop_first(), pat, rep)
    }
}

/// Whether `pat` stands somewhere in `s`.
pub open spec fn occurs(pat: Seq<char>, s: Seq<char>) -> bool {
    exists|i: int| 0 <= i <= s.len() && pat.is_prefix_of(#[trigger] s.skip(i))
}

/// Whether `pat` stands in `chars` at position `at`.
fn stands_at(chars: &Vec<char>, pat: &Vec<char>, at: usize) -> (res: bool)
    requires
        at <= chars@.len(),
    ensures
        res == pat@.is_prefix_of(chars@.skip(at as int)),
{
    let ghost rest = chars@.skip(at as int);
    let total: usize = chars.len();
    if total - at < pat.len() {
        return false;
    }
    let mut k: usize = 0;
    while k < pat.len()
        invariant
            total == chars@.len(),
            at <= total,
            pat@.len() <= total - at,
            k <= pat@.len(),
            rest == chars@.skip(at as int),
            forall|j: int| 0 <= j < k ==> pat@[j] == #[trigger] rest[j],
        decreases pat@.len() - k,
    {
        assert(rest[k as int] == chars@[at + k]);
        if pat[k] != chars[at + k] {
            assert(rest.subrange(0, pat@.len() as int)[k as int] == rest[k as int]);
            return false;
        }
        k = k + 1;
    }
    assert(pat@ =~= rest.subrange(0, pat@.len() as int));
    true
}

/// `s` with every occurrence of `pat`, taken from the left without overlap, replaced by `rep`.
pub fn replace(s: &str, pat: &str, rep: &str) -> (res: String)
    requires
        pat@.len() > 0,
    ensures
        res@ == replaced(s@, pat@, rep@),
{
    let chars: Vec<char> = chars_of(s);
    let marks: Vec<char> = chars_of(pat);
    let mut out: String = String::new();
    let mut done: usize = 0;
    let mut i: usize = 0;
    proof {
        assert(s@.skip(0) =~= s@);
        assert(out@ + s@.subrange(0, 0) + replaced(s@, pat@, rep@) =~= replaced(s@, pat@, rep@));
    }
    while i < chars.len()
        invariant
            chars@ == s@,
            marks@ == pat@,
            pat@.len() > 0,
            done <= i <= s@.len(),
            replaced(s@, pat@, rep@) == out@ + s@.subrange(done as int, i as int) + replaced(
                s@.skip(i as int),
                pat@,
                rep@,
            ),
        decreases s@.len() - i,
    {
        let ghost rest = s@.skip(i as int);
        let ghost before = out@;
        if stands_at(&chars, &marks, i) {
            out.append(s.substring_char(done, i));
            out.append(rep);
            proof {
                assert(rest.skip(pat@.len() as int) =~= s@.skip(i + pat@.len()));
                assert(s@.subrange(i + pat@.len(), i + pat@.len()) =~= Seq::<char>::empty());
                assert(replaced(s@, pat@, rep@) =~= out@ + s@.subrange(
                    i + pat@.len(),
                    i + pat@.len(),
                ) + replaced(s@.skip(i + pat@.len()), pat@, rep@));
            }
            i = i + marks.len();
            done = i;
        } else {
            proof {
                assert(rest.drop_first() =~= s@.skip(i + 1));
                assert(replaced(s@, pat@, rep@) =~= out@ + s@.subrange(done as int, i + 1)
                    + replaced(s@.skip(i + 1), pat@, rep@));
            }
            i = i + 1;
        }
    }
    out.append(s.substring_char(done, i));
    assert(replaced(s@.skip(i as int), pat@, rep@) =~= Seq::<char>::empty());
    assert(out@ =~= replaced(s@, pat@, rep@));
    out
}

proof fn lemma_prefix_survives(t: Seq<char>, s: Seq<char>, pat: Seq<char>, rep: Seq<char>)
    requires
        pat.len() > 0,
        rep.len() > 0,
        !t.contains(rep.first()),
        t.is_prefix_of(replaced(s, pat, rep)),
    ensures
        t.is_prefix_of(s),
    decreases s.len(),
{
    let r = replaced(s, pat, rep);
    if t.len() > 0 && s.len() > 0 {
        assert(t[0] == r.subrange(0, t.len() as int)[0]);
        if pat.is_prefix_of(s) {
            assert(r[0] == rep[0]);
            assert(t.contains(t[0]));
        } else {
            let u = t.drop_first();
            let rest = replaced(s.drop_first(), pat, rep);
            assert(u =~= rest.subrange(0, u.len() as int)) by {
                assert forall|k: int| 0 <= k < u.len() implies u[k] == #[trigger] rest[k] by {
                    assert(u[k] == t[k + 1]);
                    assert(t[k + 1] == r.subrange(0, t.len() as int)[k + 1]);
                    assert(r[k + 1] == rest[k]);
                }
            }
            assert(!u.contains(rep.first())) by {
                assert forall|k: int| 0 <= k < u.len() implies u[k] != rep.first() by {
                    assert(t.contains(t[k + 1]));
                }
            }
            lemma_prefix_survives(u, s.drop_first(), pat, rep);
            assert(t =~= s.subrange(0, t.len() as int)) by {
                assert forall|k: int| 0 <= k < t.len() implies t[k] == #[trigger] s[k] by {
                    if k > 0 {
                        assert(t[k] == u[k - 1]);
                        assert(u[k - 1] == s.drop_first().subrange(0, u.len() as int)[k - 1]);
                    }
                }
            }
        }
    } else {
        assert(t =~= s.subrange(0, t.len() as int));
    }
}

/// After replacing `pat`, `mark` does not occur, provided that it is `pat` or did not occur before,
/// and that no part of the replacement can be taken for a part of it.
pub proof fn lemma_replaced_free(s: Seq<char>, pat: Seq<char>, rep: Seq<char>, mark: Seq<char>)
    requires
        pat.len() > 0,
        mark.len() > 0,
        rep.len() > 0,
        !mark.contains(rep.first()),
        !rep.contains(mark.first()),
        mark == pat || !occurs(mark, s),
    ensures
        !occurs(mark, replaced(s, pat, rep)),
    decreases s.len(),
{
    let r = replaced(s, pat, rep);
    assert forall|i: int| 0 <= i <= r.len() implies !mark.is_prefix_of(#[trigger] r.skip(i)) by {
        if mark.is_prefix_of(r.skip(i)) {
            assert(mark[0] == r.skip(i).subrange(0, mark.len() as int)[0]);
            assert(r[i] == mark[0]);
            if pat.is_prefix_of(s) {
                let rest = s.skip(pat.len() as int);
                if mark != pat {
                    assert forall|k: int| 0 <= k <= rest.len() implies !mark.is_prefix_of(
                        #[trigger] rest.skip(k),
                    ) by {
                        assert(rest.skip(k) =~= s.skip(k + pat.len()));
                    }
                }
                lemma_replaced_free(rest, pat, rep, mark);
                if i < rep.len() {
                    assert(rep[i] == mark[0]);
                    assert(rep.contains(mark.first()));
                } else {
                    let tail = replaced(rest, pat, rep);
                    assert(tail.skip(i - rep.len()) =~= r.skip(i));
                    assert(occurs(mark, tail));
                }
            } else {
                let rest = s.drop_first();
                if mark != pat {
                    assert forall|k: int| 0 <= k <= rest.len() implies !mark.is_prefix_of(
                        #[trigger] rest.skip(k),
                    ) by {
                        assert(rest.skip(k) =~= s.skip(k + 1));
                    }
                }
                lemma_replaced_free(rest, pat, rep, mark);
                if i > 0 {
                    let tail = replaced(rest, pat, rep);
                    assert(tail.skip(i - 1) =~= r.skip(i));
                    assert(occurs(mark, tail));
                } else {
                    assert(r.skip(0) =~= r);
                    lemma_prefix_survives(mark, s, pat, rep);
                    assert(s.skip(0) =~= s);
                    assert(occurs(mark, s));
                }
            }
        }
    }
}

/// Where `pat` does not occur, replacing it changes nothing.
pub proof fn lemma_replaced_same(s: Seq<char>, pat: Seq<char>, rep: Seq<char>)
    requires
        !occurs(pat, s),
    ensures
        replaced(s, pat, rep) == s,
    decreases s.len(),
{
    if s.len() > 0 && pat.len() > 0 {
        let rest = s.drop_first();
        assert(s.skip(0) =~= s);
        assert forall|k: int| 0 <= k <= rest.len() implies !pat.is_prefix_of(
            #[trigger] rest.skip(k),
        ) by {
            assert(rest.skip(k) =~= s.skip(k + 1));
        }
        lemma_replaced_same(rest, pat, rep);
        assert(seq![s.first()] + rest =~= s);
    }
}

/// The lines of `s`: what stands between its newlines.
pub open spec fn lines_of(s: Seq<char>) -> Seq<Seq<char>>
    decreases s.len(),
{
    let k = position(s, '\n') as int;
    if k < s.len() {
        seq![s.take(k)] + lines_of(s.skip(k + 1))
    } else {
        seq![s]
    }
}

/// The texts of a sequence of string slices.
pub open spec fn slice_views(slices: Seq<&str>) -> Seq<Seq<char>> {
    slices.map_values(|s: &str| s@)
}

/// The lines of `s`: what stands between its newlines.
pub fn lines(s: &str) -> (res: Vec<&str>)
    ensures
        slice_views(res@) == lines_of(s@),
{
    let mut out: Vec<&str> = Vec::new();
    let total: usize = s.unicode_len();
    let mut from: usize = 0;
    assert(s@.skip(0) =~= s@);
    assert(slice_views(out@) + lines_of(s@) =~= lines_of(s@));
    loop
        invariant
            total == s@.len(),
            from <= total,
            lines_of(s@) == slice_views(out@) + lines_of(s@.skip(from as int)),
        decreases total - from,
    {
        let rest: &str = s.substring_char(from, total);
        assert(rest@ =~= s@.skip(from as int));
        let at: usize = find_char(rest, '\n');
        let ghost before = slice_views(out@);
        if at == total - from {
            out.push(rest);
            assert(slice_views(out@) =~= before.push(rest@));
            assert(slice_views(out@) =~= lines_of(s@));
            return out;
        }
        let line: &str = rest.substring_char(0, at);
        out.push(line);
        proof {
            assert(line@ =~= rest@.take(at as int));
            assert(rest@.skip(at + 1) =~= s@.skip(from + at + 1));
            assert(slice_views(out@) =~= before.push(line@));
            assert(lines_of(s@) =~= slice_views(out@) + lines_of(s@.skip(from + at + 1)));
        }
        from = from + at + 1;
    }
}

proof fn lemma_trimmed_front_ends(s: Seq<char>)
    ensures
        trimmed_front(s).len() > 0 ==> !is_space(trimmed_front(s).first()),
    decreases s.len(),
{
    if s.len() > 0 && is_space(s.first()) {
        lemma_trimmed_front_ends(s.drop_first());
    }
}

proof fn lemma_trimmed_back_ends(s: Seq<char>)
    ensures
        trimmed_back(s).len() > 0 ==> !is_space(trimmed_back(s).last()),
        trimmed_back(s).is_prefix_of(s),
    decreases s.len(),
{
    if s.len() > 0 && is_space(s.last()) {
        lemma_trimmed_back_ends(s.drop_last());
        let t = trimmed_back(s);
        assert(t =~= s.subrange(0, t.len() as int));
    } else {
        assert(s =~= s.subrange(0, s.len() as int));
    }
}

/// Trimmed text has no whitespace at its ends, so trimming it again changes nothing.
pub proof fn lemma_trimmed_twice(s: Seq<char>)
    ensures
        trimmed(s).len() > 0 ==> !is_space(trimmed(s).first()) && !is_space(trimmed(s).last()),
        trimmed(trimmed(s)) == trimmed(s),
{
    let f = trimmed_front(s);
    let t = trimmed(s);
    lemma_trimmed_front_ends(s);
    lemma_trimmed_back_ends(f);
    if t.len() > 0 {
        assert(t[0] == f.subrange(0, t.len() as int)[0]);
    }
    lemma_trimmed_same(t);
}

/// Whitespace is the tab, the four line separators that follow it, the space, the next-line and
/// no-break characters, and the wider spaces and separators of Unicode; nothing else is.
pub proof fn whitespace_is_known(c: char)
    ensures
        is_space(c) <==> {
            ||| c == '\t' || c == '\n' || c == '\u{b}' || c == '\u{c}' || c == '\r' || c == ' '
            ||| c == '\u{85}' || c == '\u{a0}' || c == '\u{1680}'
            ||| c == '\u{2000}' || c == '\u{2001}' || c == '\u{2002}' || c == '\u{2003}'
            ||| c == '\u{2004}' || c == '\u{2005}' || c == '\u{2006}' || c == '\u{2007}'
            ||| c == '\u{2008}' || c == '\u{2009}' || c == '\u{200a}' || c == '\u{2028}'
            ||| c == '\u{2029}' || c == '\u{202f}' || c == '\u{205f}' || c == '\u{3000}'
        },
{
    char_u32_cast(c, c as u32);
}

/// Trimming takes whitespace off the two ends and nothing else: there is only whitespace before and
/// after what is left, which begins and ends with something else.
pub proof fn trimming_takes_only_the_ends(s: Seq<char>) -> (ends: (int, int))
    ensures
        0 <= ends.0 <= ends.1 <= s.len(),
        trimmed(s) == s.subrange(ends.0, ends.1),
        forall|i: int| 0 <= i < ends.0 ==> is_space(#[trigger] s[i]),
        forall|i: int| ends.1 <= i < s.len() ==> is_space(#[trigger] s[i]),
        ends.0 < ends.1 ==> !is_space(s[ends.0]) && !is_space(s[ends.1 - 1]),
        trimmed(s).len() == 0 <==> forall|i: int| 0 <= i < s.len() ==> is_space(#[trigger] s[i]),
{
    let a = lemma_first_other(s);
    let b = lemma_last_other(s, a);
    lemma_trimmed_at(s, a, b);
    (a, b)
}

proof fn lemma_first_other(s: Seq<char>) -> (a: int)
    ensures
        0 <= a <= s.len(),
        forall|i: int| 0 <= i < a ==> is_space(#[trigger] s[i]),
        a < s.len() ==> !is_space(s[a]),
    decreases s.len(),
{
    if s.len() == 0 || !is_space(s[0]) {
        0
    } else {
        let t = s.drop_first();
        let k = lemma_first_other(t);
        assert forall|i: int| 0 <= i < k + 1 implies is_space(#[trigger] s[i]) by {
            if i > 0 {
                assert(t[i - 1] == s[i]);
            }
        }
        k + 1
    }
}

proof fn lemma_last_other(s: Seq<char>, a: int) -> (b: int)
    requires
        0 <= a <= s.len(),
        a < s.len() ==> !is_space(s[a]),
    ensures
        a <= b <= s.len(),
        forall|i: int| b <= i < s.len() ==> is_space(#[trigger] s[i]),
        a < b ==> !is_space(s[b - 1]),
        a < s.len() ==> a < b,
    decreases s.len(),
{
    if s.len() == a || !is_space(s.last()) {
        s.len() as int
    } else {
        let t = s.drop_last();
        let b = lemma_last_other(t, a);
        assert forall|i: int| b <= i < s.len() implies is_space(#[trigger] s[i]) by {
            if i < t.len() {
                assert(t[i] == s[i]);
            }
        }
        b
    }
}

/// One text comes no later than another exactly when it is its beginning, or has the lesser code point
/// where the two first differ.
pub proof fn text_leq_is_lexicographic(a: Seq<char>, b: Seq<char>)
    ensures
        text_leq(a, b) <==> {
            ||| a.is_prefix_of(b)
            ||| exists|k: int|
                0 <= k < a.len() && k < b.len() && a.take(k) == b.take(k) && (
                #[trigger] a[k] as u32) < (b[k] as u32)
        },
    decreases a.len(),
{
    if a.len() == 0 {
        assert(a =~= b.subrange(0, 0));
    } else if b.len() > 0 {
        let c = a.drop_first();
        let d = b.drop_first();
        text_leq_is_lexicographic(c, d);
        if a.first() == b.first() {
            if c.is_prefix_of(d) {
                assert(a =~= b.subrange(0, a.len() as int)) by {
                    assert forall|i: int| 0 <= i < a.len() implies a[i] == b[i] by {
                        if i > 0 {
                            assert(c[i - 1] == d.subrange(0, c.len() as int)[i - 1]);
                        }
                    }
                }
            }
            if a.is_prefix_of(b) {
                assert(c =~= d.subrange(0, c.len() as int)) by {
                    assert forall|i: int| 0 <= i < c.len() implies c[i] == d[i] by {
                        assert(a[i + 1] == b.subrange(0, a.len() as int)[i + 1]);
                    }
                }
            }
            if exists|k: int|
                0 <= k < c.len() && k < d.len() && c.take(k) == d.take(k) && (#[trigger] c[k] as u32)
                    < (d[k] as u32) {
                let k = choose|k: int|
                    0 <= k < c.len() && k < d.len() && c.take(k) == d.take(k) && (
                    #[trigger] c[k] as u32) < (d[k] as u32);
                assert(a.take(k + 1) =~= seq![a.first()] + c.take(k));
                assert(b.take(k + 1) =~= seq![b.first()] + d.take(k));
                assert((a[k + 1] as u32) < (b[k + 1] as u32));
            }
            if exists|k: int|
                0 <= k < a.len() && k < b.len() && a.take(k) == b.take(k) && (#[trigger] a[k] as u32)
                    < (b[k] as u32) {
                let k = choose|k: int|
                    0 <= k < a.len() && k < b.len() && a.take(k) == b.take(k) && (
                    #[trigger] a[k] as u32) < (b[k] as u32);
                assert(k > 0);
                assert(c.take(k - 1) =~= a.take(k).drop_first());
                assert(d.take(k - 1) =~= b.take(k).drop_first());
                assert((c[k - 1] as u32) < (d[k - 1] as u32));
            }
        } else {
            assert(a.take(0) =~= b.take(0));
            if a.is_prefix_of(b) {
                assert(a[0] == b.subrange(0, a.len() as int)[0]);
            }
            if exists|k: int|
                0 <= k < a.len() && k < b.len() && a.take(k) == b.take(k) && (#[trigger] a[k] as u32)
                    < (b[k] as u32) {
                let k = choose|k: int|
                    0 <= k < a.len() && k < b.len() && a.take(k) == b.take(k) && (
                    #[trigger] a[k] as u32) < (b[k] as u32);
                if k > 0 {
                    assert(a.take(k)[0] == b.take(k)[0]);
                }
            }
            if (a[0] as u32) < (b[0] as u32) {
                assert((a[0] as u32) < (b[0] as u32) && a.take(0) == b.take(0));
            }
        }
    } else if a.is_prefix_of(b) {
        assert(a.len() <= b.len());
    }
}

/// What stands before the first occurrence of a pattern is kept, the occurrence is replaced, and what
/// follows it is treated in the same way.
pub proof fn first_occurrence_is_replaced(
    before: Seq<char>,
    pat: Seq<char>,
    after: Seq<char>,
    rep: Seq<char>,
)
    requires
        pat.len() > 0,
        forall|i: int|
            0 <= i < before.len() ==> !pat.is_prefix_of(#[trigger] (before + pat + after).skip(i)),
    ensures
        replaced(before + pat + after, pat, rep) == before + rep + replaced(after, pat, rep),
    decreases before.len(),
{
    let s = before + pat + after;
    if before.len() == 0 {
        assert(pat =~= s.subrange(0, pat.len() as int));
        assert(s.skip(pat.len() as int) =~= after);
        assert(before + rep =~= rep);
    } else {
        assert(s.skip(0) =~= s);
        let t = before.drop_first();
        assert(s.drop_first() =~= t + pat + after);
        assert forall|i: int| 0 <= i < t.len() implies !pat.is_prefix_of(
            #[trigger] (t + pat + after).skip(i),
        ) by {
            assert((t + pat + after).skip(i) =~= s.skip(i + 1));
        }
        first_occurrence_is_replaced(t, pat, after, rep);
        assert(seq![s.first()] + (t + rep + replaced(after, pat, rep)) =~= before + rep + replaced(
            after,
            pat,
            rep,
        ));
    }
}

/// Where a pattern cannot begin, nothing is replaced.
pub proof fn lemma_replaced_after(u: Seq<char>, s: Seq<char>, pat: Seq<char>, rep: Seq<char>)
    requires
        pat.len() > 0,
        !u.contains(pat.first()),
    ensures
        replaced(u + s, pat, rep) == u + replaced(s, pat, rep),
    decreases u.len(),
{
    if u.len() == 0 {
        assert(u + s =~= s);
        assert(u + replaced(s, pat, rep) =~= replaced(s, pat, rep));
    } else {
        let t = u.drop_first();
        let all = u + s;
        if pat.is_prefix_of(all) {
            assert(pat[0] == all.subrange(0, pat.len() as int)[0]);
            assert(u[0] == pat.first());
            assert(u.contains(u[0]));
        }
        assert(!t.contains(pat.first())) by {
            assert forall|i: int| 0 <= i < t.len() implies t[i] != pat.first() by {
                assert(u.contains(u[i + 1]));
            }
        }
        lemma_replaced_after(t, s, pat, rep);
        assert(all.drop_first() =~= t + s);
        assert(seq![all.first()] + (t + replaced(s, pat, rep)) =~= u + replaced(s, pat, rep));
    }
}

/// The lines of a text, put together again with a newline between each two, are the text.
pub open spec fn rejoined(lines: Seq<Seq<char>>) -> Seq<char>
    decreases lines.len(),
{
    if lines.len() == 0 {
        Seq::empty()
    } else if lines.len() == 1 {
        lines[0]
    } else {
        lines[0] + seq!['\n'] + rejoined(lines.drop_first())
    }
}

/// A character first stands where it is found, and nowhere before.
pub proof fn lemma_position(s: Seq<char>, c: char)
    ensures
        position(s, c) <= s.len(),
        position(s, c) < s.len() ==> s[position(s, c) as int] == c,
        forall|i: int| 0 <= i < position(s, c) ==> #[trigger] s[i] != c,
    decreases s.len(),
{
    if s.len() > 0 && s.first() != c {
        let t = s.drop_first();
        lemma_position(t, c);
        assert forall|i: int| 0 <= i < position(s, c) implies #[trigger] s[i] != c by {
            if i > 0 {
                assert(t[i - 1] == s[i]);
            }
        }
    }
}

/// No line holds a newline, and the lines put together again are the text.
pub proof fn lines_are_what_newlines_part(s: Seq<char>)
    ensures
        lines_of(s).len() > 0,
        forall|i: int| 0 <= i < lines_of(s).len() ==> !(#[trigger] lines_of(s)[i]).contains('\n'),
        rejoined(lines_of(s)) == s,
    decreases s.len(),
{
    let k = position(s, '\n') as int;
    let lines = lines_of(s);
    lemma_position(s, '\n');
    if k < s.len() {
        let rest = s.skip(k + 1);
        lines_are_what_newlines_part(rest);
        assert(lines.drop_first() =~= lines_of(rest));
        assert forall|i: int| 0 <= i < lines.len() implies !(#[trigger] lines[i]).contains(
            '\n',
        ) by {
            if i > 0 {
                assert(lines[i] == lines_of(rest)[i - 1]);
            }
        }
        assert(s.take(k) + seq!['\n'] + rest =~= s);
    } else {
        assert forall|i: int| 0 <= i < lines.len() implies !(#[trigger] lines[i]).contains(
            '\n',
        ) by {
            assert(lines[i] == s);
        }
    }
}

/// Two texts with a newline between them have the lines of the one and then those of the other.
pub proof fn lines_add_up(a: Seq<char>, b: Seq<char>)
    ensures
        lines_of(a + seq!['\n'] + b) == lines_of(a) + lines_of(b),
    decreases a.len(),
{
    let s = a + seq!['\n'] + b;
    let k = position(a, '\n') as int;
    lemma_position(a, '\n');
    assert forall|i: int| 0 <= i < k implies #[trigger] s[i] != '\n' by {
        assert(s[i] == a[i]);
    }
    if k < a.len() {
        assert(s[k] == a[k]);
        lemma_position_at(s, '\n', k);
        assert(s.skip(k + 1) =~= a.skip(k + 1) + seq!['\n'] + b);
        lines_add_up(a.skip(k + 1), b);
        assert(s.take(k) =~= a.take(k));
        assert(lines_of(s) =~= lines_of(a) + lines_of(b));
    } else {
        assert(s[k] == '\n');
        lemma_position_at(s, '\n', k);
        assert(s.take(k) =~= a);
        assert(s.skip(k + 1) =~= b);
    }
}

/// The texts of a sequence of strings are as many, each that of its string.
pub proof fn views_are_the_texts(strings: Seq<String>)
    ensures
        views(strings).len() == strings.len(),
        forall|i: int| 0 <= i < strings.len() ==> #[trigger] views(strings)[i] == strings[i]@,
{
}

/// What stands between two texts occurs in the whole.
pub proof fn lemma_occurs_between(before: Seq<char>, s: Seq<char>, after: Seq<char>)
    ensures
        occurs(s, before + s + after),
{
    let all = before + s + after;
    let at = before.len() as int;
    assert(s =~= all.skip(at).subrange(0, s.len() as int));
    assert(s.is_prefix_of(all.skip(at)));
}

} // verus!
