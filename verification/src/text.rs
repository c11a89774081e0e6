//! Text helpers over character sequences.
//!
//! Every function here is stated over the view of a string, a `Seq<char>`, and
//! works on strings of any content, ASCII or not.

use vstd::prelude::*;
use vstd::std_specs::iter::IteratorSpec;
use vstd::string::StringExecFns;
use vstd::string::StringSliceAdditionalSpecFns;
use vstd::utf8::encode_utf8;

verus! {

broadcast use vstd::string::group_string_axioms;

/// Index of the first occurrence of `c` in `s`, or -1 when `c` does not occur.
pub open spec fn first_pos(s: Seq<char>, c: char) -> int
    decreases s.len(),
{
    if s.len() == 0 {
        -1
    } else {
        let before = first_pos(s.drop_last(), c);
        if before >= 0 {
            before
        } else if s.last() == c {
            s.len() - 1
        } else {
            -1
        }
    }
}

/// Index of the last occurrence of `c` in `s`, or -1 when `c` does not occur.
pub open spec fn last_pos(s: Seq<char>, c: char) -> int
    decreases s.len(),
{
    if s.len() == 0 {
        -1
    } else if s.last() == c {
        s.len() - 1
    } else {
        last_pos(s.drop_last(), c)
    }
}

/// What `first_pos` finds is in range, holds `c`, and nothing before it does.
pub proof fn lemma_first_pos(s: Seq<char>, c: char)
    ensures
        -1 <= first_pos(s, c) < s.len(),
        first_pos(s, c) >= 0 ==> s[first_pos(s, c)] == c,
        forall|j: int| 0 <= j < s.len() && s[j] == c ==> 0 <= first_pos(s, c) <= j,
    decreases s.len(),
{
    if s.len() > 0 {
        let t = s.drop_last();
        lemma_first_pos(t, c);
        assert forall|j: int| 0 <= j < s.len() && s[j] == c implies 0 <= first_pos(s, c) <= j by {
            if j < t.len() {
                assert(t[j] == c);
            }
        }
    }
}

/// What `last_pos` finds is in range, holds `c`, and nothing after it does.
pub proof fn lemma_last_pos(s: Seq<char>, c: char)
    ensures
        -1 <= last_pos(s, c) < s.len(),
        last_pos(s, c) >= 0 ==> s[last_pos(s, c)] == c,
        forall|j: int| 0 <= j < s.len() && s[j] == c ==> j <= last_pos(s, c),
    decreases s.len(),
{
    if s.len() > 0 {
        let t = s.drop_last();
        lemma_last_pos(t, c);
        assert forall|j: int| 0 <= j < s.len() && s[j] == c implies j <= last_pos(s, c) by {
            if j < t.len() {
                assert(t[j] == c);
            }
        }
    }
}

/// Where a text is put together from a head, the character `c` and a tail
/// without `c`, the last `c` is the one in between.
pub proof fn lemma_last_pos_joined(head: Seq<char>, c: char, tail: Seq<char>)
    requires
        !tail.contains(c),
    ensures
        last_pos(head + seq![c] + tail, c) == head.len(),
        before_last(head + seq![c] + tail, c) == head,
        after_last(head + seq![c] + tail, c) == tail,
{
    let joined = head + seq![c] + tail;
    lemma_last_pos(joined, c);
    let p = last_pos(joined, c);
    assert(joined[head.len() as int] == c);
    if p > head.len() {
        assert(joined[p] == tail[p - head.len() - 1]);
        assert(tail.contains(joined[p]));
    }
    assert(joined.take(p) =~= head);
    assert(joined.skip(p + 1) =~= tail);
}

/// The part of `s` after the last `c`; all of `s` when `c` does not occur.
pub open spec fn after_last(s: Seq<char>, c: char) -> Seq<char> {
    s.skip(last_pos(s, c) + 1)
}

/// The part of `s` before the last `c`; empty when `c` does not occur.
pub open spec fn before_last(s: Seq<char>, c: char) -> Seq<char> {
    if last_pos(s, c) >= 0 {
        s.take(last_pos(s, c))
    } else {
        Seq::empty()
    }
}

/// `s` without one trailing carriage return.
pub open spec fn strip_cr(s: Seq<char>) -> Seq<char> {
    if s.len() > 0 && s.last() == '\r' {
        s.drop_last()
    } else {
        s
    }
}

/// The first line of `s`: the text up to the first line feed, less one
/// carriage return before it; all of `s` when it holds no line feed.
pub open spec fn first_line(s: Seq<char>) -> Seq<char> {
    let p = first_pos(s, '\n');
    if p < 0 {
        s
    } else {
        strip_cr(s.take(p))
    }
}

/// `s` without its leading run of `c`.
pub open spec fn trim_start_char(s: Seq<char>, c: char) -> Seq<char>
    decreases s.len(),
{
    if s.len() > 0 && s[0] == c {
        trim_start_char(s.drop_first(), c)
    } else {
        s
    }
}

/// `s` without its trailing run of `c`.
pub open spec fn trim_end_char(s: Seq<char>, c: char) -> Seq<char>
    decreases s.len(),
{
    if s.len() > 0 && s.last() == c {
        trim_end_char(s.drop_last(), c)
    } else {
        s
    }
}

/// `s` without its leading and trailing runs of `c`.
pub open spec fn trim_char(s: Seq<char>, c: char) -> Seq<char> {
    trim_end_char(trim_start_char(s, c), c)
}

/// `s` with every leading repetition of the non-empty `prefix` removed.
pub open spec fn strip_repeated_prefix(s: Seq<char>, prefix: Seq<char>) -> Seq<char>
    decreases s.len(),
{
    if prefix.len() > 0 && prefix.is_prefix_of(s) {
        strip_repeated_prefix(s.skip(prefix.len() as int), prefix)
    } else {
        s
    }
}

/// Whether `needle` occurs in `s` as a contiguous run.
pub open spec fn contains_text(s: Seq<char>, needle: Seq<char>) -> bool {
    exists|i: int| 0 <= i && i + needle.len() <= s.len() && #[trigger] s.subrange(i, i + needle.len()) == needle
}

/// The characters of `s`, in order.
pub fn chars_of(s: &str) -> (out: Vec<char>)
    ensures
        out@ == s@,
{
    let mut out: Vec<char> = Vec::new();
    let chars = s.chars();
    for c in it: chars
        invariant
            out@ == s@.take(it.index() as int),
            it.seq() == s@,
    {
        out.push(c);
        assert(s@.take(it.index() + 1) =~= s@.take(it.index() as int).push(c));
    }
    assert(s@.take(s@.len() as int) =~= s@);
    out
}

/// The text of `s` from character `from` up to character `to`.
pub fn slice_chars(s: &str, from: usize, to: usize) -> (out: String)
    requires
        from <= to <= s@.len(),
    ensures
        out@ == s@.subrange(from as int, to as int),
{
    String::from_str(s.substring_char(from, to))
}

/// Whether `a` and `b` hold the same text.
pub fn str_eq(a: &str, b: &str) -> (same: bool)
    ensures
        same == (a@ == b@),
{
    let x = a.as_bytes();
    let y = b.as_bytes();
    proof {
        vstd::utf8::encode_utf8_decode_utf8(a@);
        vstd::utf8::encode_utf8_decode_utf8(b@);
    }
    if x.len() != y.len() {
        return false;
    }
    let mut i: usize = 0;
    while i < x.len()
        invariant
            i <= x.len(),
            x.len() == y.len(),
            x@ == a.spec_bytes(),
            y@ == b.spec_bytes(),
            forall|k: int| 0 <= k < i ==> x@[k] == y@[k],
        decreases x.len() - i,
    {
        if x[i] != y[i] {
            return false;
        }
        i += 1;
    }
    assert(x@ =~= y@);
    true
}

/// Position of the first `c` at or after `from`, counted from `from`.
pub fn find_first_from(cs: &Vec<char>, from: usize, c: char) -> (found: Option<usize>)
    requires
        from <= cs.len(),
    ensures
        match found {
            Some(k) => first_pos(cs@.skip(from as int), c) == k && from + k < cs.len(),
            None => first_pos(cs@.skip(from as int), c) == -1,
        },
{
    let ghost s = cs@.skip(from as int);
    let mut i: usize = from;
    while i < cs.len()
        invariant
            from <= i <= cs.len(),
            s == cs@.skip(from as int),
            first_pos(s.take(i - from), c) == -1,
        decreases cs.len() - i,
    {
        assert(s.take(i - from + 1).drop_last() =~= s.take(i - from));
        if cs[i] == c {
            proof {
                lemma_first_pos_extends(s, c, i - from + 1);
            }
            return Some(i - from);
        }
        i += 1;
    }
    assert(s.take(i - from) =~= s);
    None
}

/// Once a prefix of `s` holds `c`, the first position is settled.
pub proof fn lemma_first_pos_extends(s: Seq<char>, c: char, n: int)
    requires
        0 <= n <= s.len(),
        first_pos(s.take(n), c) >= 0,
    ensures
        first_pos(s, c) == first_pos(s.take(n), c),
    decreases s.len() - n,
{
    if n < s.len() {
        assert(s.take(n + 1).drop_last() =~= s.take(n));
        lemma_first_pos_extends(s, c, n + 1);
    } else {
        assert(s.take(n) =~= s);
    }
}

/// Position of the last `c` in `cs`.
pub fn find_last(cs: &Vec<char>, c: char) -> (found: Option<usize>)
    ensures
        match found {
            Some(k) => last_pos(cs@, c) == k && k < cs.len(),
            None => last_pos(cs@, c) == -1,
        },
{
    let mut found: Option<usize> = None;
    let mut i: usize = 0;
    while i < cs.len()
        invariant
            i <= cs.len(),
            match found {
                Some(k) => last_pos(cs@.take(i as int), c) == k && k < i,
                None => last_pos(cs@.take(i as int), c) == -1,
            },
        decreases cs.len() - i,
    {
        assert(cs@.take(i + 1).drop_last() =~= cs@.take(i as int));
        if cs[i] == c {
            found = Some(i);
        }
        i += 1;
    }
    assert(cs@.take(i as int) =~= cs@);
    found
}

/// The part of `s` after its last `c`.
pub fn text_after_last(s: &str, c: char) -> (out: String)
    ensures
        out@ == after_last(s@, c),
{
    let cs = chars_of(s);
    match find_last(&cs, c) {
        Some(k) => {
            let out = slice_chars(s, k + 1, cs.len());
            out
        },
        None => {
            assert(s@.skip(0) =~= s@);
            String::from_str(s)
        },
    }
}

/// The parts of `s` before and after its last `c`, if `c` occurs.
pub fn split_at_last(s: &str, c: char) -> (out: Option<(String, String)>)
    ensures
        match out {
            Some((head, tail)) => last_pos(s@, c) >= 0 && head@ == before_last(s@, c) && tail@
                == after_last(s@, c),
            None => last_pos(s@, c) == -1,
        },
{
    let cs = chars_of(s);
    match find_last(&cs, c) {
        Some(k) => {
            let head = slice_chars(s, 0, k);
            let tail = slice_chars(s, k + 1, cs.len());
            Some((head, tail))
        },
        None => None,
    }
}

/// The first line of `s`.
pub fn text_first_line(s: &str) -> (out: String)
    ensures
        out@ == first_line(s@),
{
    let cs = chars_of(s);
    assert(cs@.skip(0) =~= cs@);
    match find_first_from(&cs, 0, '\n') {
        Some(p) => {
            if p > 0 && cs[p - 1] == '\r' {
                assert(s@.take(p as int).drop_last() =~= s@.subrange(0, p - 1));
                slice_chars(s, 0, p - 1)
            } else {
                slice_chars(s, 0, p)
            }
        },
        None => String::from_str(s),
    }
}

/// `s` without its leading and trailing runs of `c`.
pub fn text_trim_char(s: &str, c: char) -> (out: String)
    ensures
        out@ == trim_char(s@, c),
{
    let cs = chars_of(s);
    let mut lo: usize = 0;
    assert(s@.skip(0) =~= s@);
    while lo < cs.len() && cs[lo] == c
        invariant
            lo <= cs.len(),
            cs@ == s@,
            trim_start_char(s@, c) == trim_start_char(s@.skip(lo as int), c),
        decreases cs.len() - lo,
    {
        assert(s@.skip(lo as int).drop_first() =~= s@.skip(lo + 1));
        lo += 1;
    }
    assert(trim_start_char(s@, c) == s@.skip(lo as int));
    let ghost rest = s@.skip(lo as int);
    let mut hi: usize = cs.len();
    assert(rest.take(rest.len() as int) =~= rest);
    while hi > lo && cs[hi - 1] == c
        invariant
            lo <= hi <= cs.len(),
            cs@ == s@,
            rest == s@.skip(lo as int),
            trim_end_char(rest, c) == trim_end_char(rest.take(hi - lo), c),
        decreases hi,
    {
        assert(rest.take(hi - lo).drop_last() =~= rest.take(hi - lo - 1));
        hi -= 1;
    }
    assert(rest.take(hi - lo) =~= s@.subrange(lo as int, hi as int));
    slice_chars(s, lo, hi)
}

/// `s` without its leading run of `c`.
pub fn text_trim_start_char(s: &str, c: char) -> (out: String)
    ensures
        out@ == trim_start_char(s@, c),
{
    let cs = chars_of(s);
    let mut lo: usize = 0;
    assert(s@.skip(0) =~= s@);
    while lo < cs.len() && cs[lo] == c
        invariant
            lo <= cs.len(),
            cs@ == s@,
            trim_start_char(s@, c) == trim_start_char(s@.skip(lo as int), c),
        decreases cs.len() - lo,
    {
        assert(s@.skip(lo as int).drop_first() =~= s@.skip(lo + 1));
        lo += 1;
    }
    assert(s@.skip(lo as int) =~= s@.subrange(lo as int, s@.len() as int));
    slice_chars(s, lo, cs.len())
}

/// Whether `cs` holds `prefix` at position `at`.
pub fn holds_at(cs: &Vec<char>, at: usize, prefix: &Vec<char>) -> (yes: bool)
    requires
        at <= cs.len(),
    ensures
        yes == (at + prefix.len() <= cs.len() && cs@.subrange(at as int, at + prefix.len())
            == prefix@),
{
    if prefix.len() > cs.len() - at {
        return false;
    }
    let mut i: usize = 0;
    while i < prefix.len()
        invariant
            i <= prefix.len(),
            at + prefix.len() <= cs.len(),
            forall|k: int| 0 <= k < i ==> cs@[at + k] == prefix@[k],
        decreases prefix.len() - i,
    {
        if cs[at + i] != prefix[i] {
            assert(cs@.subrange(at as int, at + prefix.len())[i as int] != prefix@[i as int]);
            return false;
        }
        i += 1;
    }
    assert(cs@.subrange(at as int, at + prefix.len()) =~= prefix@);
    true
}

/// Whether `s` begins with `prefix`.
pub fn text_starts_with(s: &str, prefix: &str) -> (yes: bool)
    ensures
        yes == prefix@.is_prefix_of(s@),
{
    let cs = chars_of(s);
    let ps = chars_of(prefix);
    let yes = holds_at(&cs, 0, &ps);
    proof {
        if prefix@.len() <= s@.len() {
            assert(s@.subrange(0, prefix@.len() as int) =~= s@.take(prefix@.len() as int));
        }
        if yes {
            assert(prefix@.is_prefix_of(s@));
        }
        if prefix@.is_prefix_of(s@) {
            assert(s@.subrange(0, prefix@.len() as int) =~= prefix@);
        }
    }
    yes
}

/// Whether `needle` occurs in `s`.
pub fn text_contains(s: &str, needle: &str) -> (yes: bool)
    ensures
        yes == contains_text(s@, needle@),
{
    let cs = chars_of(s);
    let ns = chars_of(needle);
    if ns.len() > cs.len() {
        return false;
    }
    let last: usize = cs.len() - ns.len();
    let mut i: usize = 0;
    loop
        invariant
            i <= last,
            last == cs.len() - ns.len(),
            cs@ == s@,
            ns@ == needle@,
            forall|k: int| 0 <= k < i ==> #[trigger] s@.subrange(k, k + needle@.len()) != needle@,
        decreases last - i,
    {
        if holds_at(&cs, i, &ns) {
            return true;
        }
        if i == last {
            return false;
        }
        i += 1;
    }
}

/// Whether `c` is white space: whether it has the Unicode property
/// `White_Space`. These are the controls from tab to carriage return, the
/// space, next line, the no-break spaces, the Ogham space mark, the spaces
/// from en quad to hair space, the line and paragraph separators, the
/// medium mathematical space and the ideographic space.
pub open spec fn is_white_space(c: char) -> bool {
    let code = c as u32;
    ||| 0x0009 <= code <= 0x000D
    ||| code == 0x0020
    ||| code == 0x0085
    ||| code == 0x00A0
    ||| code == 0x1680
    ||| 0x2000 <= code <= 0x200A
    ||| code == 0x2028
    ||| code == 0x2029
    ||| code == 0x202F
    ||| code == 0x205F
    ||| code == 0x3000
}

/// Whether `c` is white space. Stands for `char::is_whitespace`, which is
/// true of just the characters with the Unicode property `White_Space`.
#[verifier::external_body]
fn char_is_white_space(c: char) -> (yes: bool)
    ensures
        yes == is_white_space(c),
{
    c.is_whitespace()
}

/// `s` without its leading white space.
pub open spec fn trim_start_space(s: Seq<char>) -> Seq<char>
    decreases s.len(),
{
    if s.len() > 0 && is_white_space(s[0]) {
        trim_start_space(s.drop_first())
    } else {
        s
    }
}

/// `s` without its trailing white space.
pub open spec fn trim_end_space(s: Seq<char>) -> Seq<char>
    decreases s.len(),
{
    if s.len() > 0 && is_white_space(s.last()) {
        trim_end_space(s.drop_last())
    } else {
        s
    }
}

/// `s` without its leading and trailing white space.
pub open spec fn trim_space(s: Seq<char>) -> Seq<char> {
    trim_end_space(trim_start_space(s))
}

/// The characters `from..to` of `cs`, less the white space at both ends.
pub fn trim_space_between(s: &str, cs: &Vec<char>, from: usize, to: usize) -> (out: String)
    requires
        cs@ == s@,
        from <= to <= cs.len(),
    ensures
        out@ == trim_space(s@.subrange(from as int, to as int)),
{
    let ghost part = s@.subrange(from as int, to as int);
    let mut lo: usize = from;
    assert(part.skip(0) =~= part);
    while lo < to && char_is_white_space(cs[lo])
        invariant
            from <= lo <= to <= cs.len(),
            cs@ == s@,
            part == s@.subrange(from as int, to as int),
            trim_start_space(part) == trim_start_space(part.skip(lo - from)),
        decreases to - lo,
    {
        assert(part.skip(lo - from).drop_first() =~= part.skip(lo - from + 1));
        lo += 1;
    }
    let ghost rest = part.skip(lo - from);
    let mut hi: usize = to;
    assert(rest.take(rest.len() as int) =~= rest);
    while hi > lo && char_is_white_space(cs[hi - 1])
        invariant
            from <= lo <= hi <= to <= cs.len(),
            cs@ == s@,
            part == s@.subrange(from as int, to as int),
            rest == part.skip(lo - from),
            trim_end_space(rest) == trim_end_space(rest.take(hi - lo)),
        decreases hi,
    {
        assert(rest.take(hi - lo).drop_last() =~= rest.take(hi - lo - 1));
        hi -= 1;
    }
    assert(rest.take(hi - lo) =~= s@.subrange(lo as int, hi as int));
    slice_chars(s, lo, hi)
}

/// Where `cs` goes on after every repetition of `prefix` that stands at
/// `from`, within the first `to` characters.
pub fn skip_repeated(cs: &Vec<char>, from: usize, to: usize, prefix: &Vec<char>) -> (at: usize)
    requires
        from <= to <= cs.len(),
    ensures
        from <= at <= to,
        strip_repeated_prefix(cs@.subrange(from as int, to as int), prefix@) == cs@.subrange(
            at as int,
            to as int,
        ),
{
    let ghost part = cs@.subrange(from as int, to as int);
    let mut at: usize = from;
    assert(part.skip(0) =~= part);
    loop
        invariant
            from <= at <= to <= cs.len(),
            part == cs@.subrange(from as int, to as int),
            strip_repeated_prefix(part, prefix@) == strip_repeated_prefix(
                part.skip(at - from),
                prefix@,
            ),
        ensures
            from <= at <= to,
            strip_repeated_prefix(part, prefix@) == part.skip(at - from),
        decreases to - at,
    {
        let ghost here = part.skip(at - from);
        if prefix.len() == 0 || prefix.len() > to - at || !holds_at(cs, at, prefix) {
            proof {
                if prefix@.len() > 0 && prefix@.is_prefix_of(here) {
                    assert(cs@.subrange(at as int, at + prefix.len()) =~= here.take(
                        prefix@.len() as int,
                    ));
                }
            }
            break ;
        }
        assert(prefix@.is_prefix_of(here)) by {
            assert(cs@.subrange(at as int, at + prefix.len()) =~= here.take(prefix@.len() as int));
        }
        assert(here.skip(prefix@.len() as int) =~= part.skip(at - from + prefix@.len()));
        at += prefix.len();
    }
    assert(part.skip(at - from) =~= cs@.subrange(at as int, to as int));
    at
}

/// Whether `a` comes before `b` when the two are compared byte by byte, a
/// proper prefix before what it is a prefix of.
pub open spec fn bytes_lt(a: Seq<u8>, b: Seq<u8>) -> bool
    decreases a.len(),
{
    if b.len() == 0 {
        false
    } else if a.len() == 0 {
        true
    } else if a[0] != b[0] {
        a[0] < b[0]
    } else {
        bytes_lt(a.drop_first(), b.drop_first())
    }
}

/// Whether the text `a` sorts before the text `b`: whether its UTF-8 bytes
/// come first.
pub open spec fn text_lt(a: Seq<char>, b: Seq<char>) -> bool {
    bytes_lt(encode_utf8(a), encode_utf8(b))
}

/// Of two byte strings, at most one comes before the other, and neither
/// comes before itself.
pub proof fn lemma_bytes_lt_asymmetric(a: Seq<u8>, b: Seq<u8>)
    ensures
        !(bytes_lt(a, b) && bytes_lt(b, a)),
        bytes_lt(a, b) ==> a != b,
    decreases a.len(),
{
    if a.len() > 0 && b.len() > 0 && a[0] == b[0] {
        lemma_bytes_lt_asymmetric(a.drop_first(), b.drop_first());
        if a == b {
            assert(a.drop_first() == b.drop_first());
        }
    }
}

/// Of two different byte strings, one comes before the other.
pub proof fn lemma_bytes_lt_connected(a: Seq<u8>, b: Seq<u8>)
    requires
        a != b,
    ensures
        bytes_lt(a, b) || bytes_lt(b, a),
    decreases a.len(),
{
    if a.len() > 0 && b.len() > 0 && a[0] == b[0] {
        assert(a.drop_first() != b.drop_first()) by {
            if a.drop_first() == b.drop_first() {
                assert(a =~= seq![a[0]] + a.drop_first());
                assert(b =~= seq![b[0]] + b.drop_first());
            }
        }
        lemma_bytes_lt_connected(a.drop_first(), b.drop_first());
    } else if a.len() == 0 && b.len() == 0 {
        assert(a =~= b);
    }
}

/// Order among byte strings carries over from one pair to the next.
pub proof fn lemma_bytes_lt_transitive(a: Seq<u8>, b: Seq<u8>, c: Seq<u8>)
    requires
        bytes_lt(a, b),
        bytes_lt(b, c),
    ensures
        bytes_lt(a, c),
    decreases a.len(),
{
    if a.len() > 0 && b.len() > 0 && c.len() > 0 && a[0] == b[0] && b[0] == c[0] {
        lemma_bytes_lt_transitive(a.drop_first(), b.drop_first(), c.drop_first());
    }
}

/// Order among texts carries over from one pair to the next.
pub proof fn lemma_text_lt_transitive(a: Seq<char>, b: Seq<char>, c: Seq<char>)
    requires
        text_lt(a, b),
        text_lt(b, c),
    ensures
        text_lt(a, c),
{
    lemma_bytes_lt_transitive(encode_utf8(a), encode_utf8(b), encode_utf8(c));
}

/// Of two texts, at most one comes before the other, none comes before
/// itself, and of two different ones, one comes first.
pub proof fn lemma_text_lt_total(a: Seq<char>, b: Seq<char>)
    ensures
        !(text_lt(a, b) && text_lt(b, a)),
        text_lt(a, b) ==> a != b,
        a != b ==> text_lt(a, b) || text_lt(b, a),
{
    lemma_bytes_lt_asymmetric(encode_utf8(a), encode_utf8(b));
    if a != b {
        vstd::utf8::encode_utf8_decode_utf8(a);
        vstd::utf8::encode_utf8_decode_utf8(b);
        lemma_bytes_lt_connected(encode_utf8(a), encode_utf8(b));
    }
}

/// Whether `a` sorts before `b`.
pub fn str_lt(a: &str, b: &str) -> (yes: bool)
    ensures
        yes == text_lt(a@, b@),
{
    let x = a.as_bytes();
    let y = b.as_bytes();
    let mut i: usize = 0;
    assert(x@.skip(0) =~= x@);
    assert(y@.skip(0) =~= y@);
    loop
        invariant
            i <= x.len(),
            i <= y.len(),
            x@ == a.spec_bytes(),
            y@ == b.spec_bytes(),
            text_lt(a@, b@) == bytes_lt(x@.skip(i as int), y@.skip(i as int)),
        decreases x.len() - i,
    {
        if i == y.len() {
            return false;
        }
        if i == x.len() {
            return true;
        }
        assert(x@.skip(i as int)[0] == x@[i as int]);
        assert(y@.skip(i as int)[0] == y@[i as int]);
        if x[i] != y[i] {
            return x[i] < y[i];
        }
        assert(x@.skip(i as int).drop_first() =~= x@.skip(i + 1));
        assert(y@.skip(i as int).drop_first() =~= y@.skip(i + 1));
        i += 1;
    }
}

/// The decimal digit for `d`.
pub open spec fn digit_text(d: nat) -> Seq<char> {
    if d == 0 {
        "0"@
    } else if d == 1 {
        "1"@
    } else if d == 2 {
        "2"@
    } else if d == 3 {
        "3"@
    } else if d == 4 {
        "4"@
    } else if d == 5 {
        "5"@
    } else if d == 6 {
        "6"@
    } else if d == 7 {
        "7"@
    } else if d == 8 {
        "8"@
    } else {
        "9"@
    }
}

/// `n` written in decimal, without leading zeros.
pub open spec fn decimal(n: nat) -> Seq<char>
    decreases n,
{
    if n < 10 {
        digit_text(n)
    } else {
        decimal(n / 10) + digit_text(n % 10)
    }
}

/// The decimal digit for `d`.
fn digit_str(d: usize) -> (out: &'static str)
    requires
        d < 10,
    ensures
        out@ == digit_text(d as nat),
{
    if d == 0 {
        "0"
    } else if d == 1 {
        "1"
    } else if d == 2 {
        "2"
    } else if d == 3 {
        "3"
    } else if d == 4 {
        "4"
    } else if d == 5 {
        "5"
    } else if d == 6 {
        "6"
    } else if d == 7 {
        "7"
    } else if d == 8 {
        "8"
    } else {
        "9"
    }
}

/// `n` written in decimal.
pub fn decimal_text(n: usize) -> (out: String)
    ensures
        out@ == decimal(n as nat),
    decreases n,
{
    if n < 10 {
        String::from_str(digit_str(n))
    } else {
        let mut out = decimal_text(n / 10);
        out.append(digit_str(n % 10));
        out
    }
}

/// The lower-case form of `s`.
pub uninterp spec fn lowercase(s: Seq<char>) -> Seq<char>;

/// The lower-case form of `s`. Stands for `str::to_lowercase`, which goes
/// by the Unicode property `Lowercase`; `lowercase` names its result.
#[verifier::external_body]
pub(crate) fn to_lowercase(s: &str) -> (out: String)
    ensures
        out@ == lowercase(s@),
{
    s.to_lowercase()
}

} // verus!
