//! Character-level text operations and the sequences that describe them.
use vstd::prelude::*;
use vstd::slice::*;
use vstd::string::*;
use vstd::utf8::*;

verus! {

// ---------------------------------------------------------------------------
// Sequences of characters
// ---------------------------------------------------------------------------

/// The views of a sequence of strings.
pub open spec fn views(s: Seq<String>) -> Seq<Seq<char>> {
    s.map_values(|x: String| x@)
}

/// `s` without its longest prefix of characters that satisfy `p`.
pub open spec fn strip_start(s: Seq<char>, p: spec_fn(char) -> bool) -> Seq<char>
    decreases s.len(),
{
    if s.len() > 0 && p(s[0]) {
        strip_start(s.drop_first(), p)
    } else {
        s
    }
}

/// `s` without its longest suffix of characters that satisfy `p`.
pub open spec fn strip_end(s: Seq<char>, p: spec_fn(char) -> bool) -> Seq<char>
    decreases s.len(),
{
    if s.len() > 0 && p(s.last()) {
        strip_end(s.drop_last(), p)
    } else {
        s
    }
}

/// The characters with the Unicode property `White_Space`.
pub open spec fn is_white_space(c: char) -> bool {
    ||| '\u{9}' <= c <= '\u{d}'
    ||| c == '\u{20}'
    ||| c == '\u{85}'
    ||| c == '\u{a0}'
    ||| c == '\u{1680}'
    ||| '\u{2000}' <= c <= '\u{200a}'
    ||| c == '\u{2028}'
    ||| c == '\u{2029}'
    ||| c == '\u{202f}'
    ||| c == '\u{205f}'
    ||| c == '\u{3000}'
}

/// `s` without leading and trailing white space.
pub open spec fn trimmed(s: Seq<char>) -> Seq<char> {
    strip_end(strip_start(s, |c: char| is_white_space(c)), |c: char| is_white_space(c))
}

/// `s` without the NUL characters at its end.
pub open spec fn without_trailing_nuls(s: Seq<char>) -> Seq<char> {
    strip_end(s, |c: char| c == '\0')
}

/// How many characters stand before the first line feed of `s`; all of them
/// when there is none.
pub open spec fn line_length(s: Seq<char>) -> nat
    decreases s.len(),
{
    if s.len() == 0 || s[0] == '\n' {
        0
    } else {
        1 + line_length(s.drop_first())
    }
}

/// The pieces of `s` that its line feeds end, and the unfinished last one
/// when it is not empty.
pub open spec fn lines_of(s: Seq<char>) -> Seq<Seq<char>>
    decreases s.len(),
{
    if s.len() == 0 {
        Seq::empty()
    } else {
        let n = line_length(s);
        if n < s.len() {
            seq![s.take(n as int)] + lines_of(s.skip(n as int + 1))
        } else {
            seq![s]
        }
    }
}

/// The lines of `s`, trimmed, without the blank ones.
pub open spec fn nonblank_lines(s: Seq<char>) -> Seq<Seq<char>> {
    lines_of(s).map_values(|l: Seq<char>| trimmed(l)).filter(|l: Seq<char>| l.len() > 0)
}

/// The first `n` elements of `s`, or all of `s` when it is shorter.
pub open spec fn at_most<A>(s: Seq<A>, n: nat) -> Seq<A> {
    if s.len() <= n {
        s
    } else {
        s.take(n as int)
    }
}

/// Whether `needle` occurs somewhere in `hay`.
pub open spec fn occurs_in(needle: Seq<char>, hay: Seq<char>) -> bool {
    exists|i: int|
        0 <= i && i + needle.len() <= hay.len() && #[trigger] hay.subrange(i, i + needle.len())
            == needle
}

/// The character of a decimal digit.
pub open spec fn digit(d: nat) -> char {
    (48 + d) as char
}

/// The decimal numeral of `n`, without leading zeros.
pub open spec fn decimal(n: nat) -> Seq<char>
    decreases n,
{
    if n < 10 {
        seq![digit(n)]
    } else {
        decimal(n / 10).push(digit(n % 10))
    }
}

// ---------------------------------------------------------------------------
// Lemmas
// ---------------------------------------------------------------------------

proof fn lemma_encode_concat(a: Seq<char>, b: Seq<char>)
    ensures
        encode_utf8(a + b) == encode_utf8(a) + encode_utf8(b),
    decreases a.len(),
{
    if a.len() == 0 {
        assert(a + b == b);
    } else {
        lemma_encode_concat(a.drop_first(), b);
        assert((a + b).drop_first() == a.drop_first() + b);
    }
}

/// The encoding of `p` starts the encoding of `s` exactly when `p` starts `s`.
proof fn lemma_encode_prefix(p: Seq<char>, s: Seq<char>)
    ensures
        encode_utf8(p).is_prefix_of(encode_utf8(s)) <==> p.is_prefix_of(s),
{
    let bp = encode_utf8(p);
    let bs = encode_utf8(s);
    let n = bp.len() as int;
    encode_utf8_valid_utf8(p);
    encode_utf8_valid_utf8(s);
    if p.is_prefix_of(s) {
        let rest = s.skip(p.len() as int);
        assert(s == p + rest);
        lemma_encode_concat(p, rest);
    }
    if bp.is_prefix_of(bs) {
        let tail = bs.subrange(n, bs.len() as int);
        if !valid_utf8(tail) {
            partial_valid_partial_invalid_utf8(bs, n);
        }
        let rest = decode_utf8(tail);
        decode_utf8_encode_utf8(tail);
        lemma_encode_concat(p, rest);
        assert(bs == bp + tail);
        encode_utf8_decode_utf8(s);
        encode_utf8_decode_utf8(p + rest);
        assert(s == p + rest);
        assert(p == s.subrange(0, p.len() as int));
    }
}

proof fn lemma_encode_injective(a: Seq<char>, b: Seq<char>)
    ensures
        encode_utf8(a) == encode_utf8(b) <==> a == b,
{
    encode_utf8_decode_utf8(a);
    encode_utf8_decode_utf8(b);
}

proof fn lemma_strip_end(s: Seq<char>, p: spec_fn(char) -> bool, k: int)
    requires
        0 <= k <= s.len(),
        forall|i: int| k <= i < s.len() ==> p(#[trigger] s[i]),
        k == 0 || !p(s[k - 1]),
    ensures
        strip_end(s, p) == s.take(k),
    decreases s.len(),
{
    if k < s.len() {
        lemma_strip_end(s.drop_last(), p, k);
        assert(s.drop_last().take(k) == s.take(k));
    } else {
        assert(s.take(k) == s);
    }
}

proof fn lemma_strip_start(s: Seq<char>, p: spec_fn(char) -> bool, k: int)
    requires
        0 <= k <= s.len(),
        forall|i: int| 0 <= i < k ==> p(#[trigger] s[i]),
        k == s.len() || !p(s[k]),
    ensures
        strip_start(s, p) == s.skip(k),
    decreases s.len(),
{
    if k > 0 {
        let t = s.drop_first();
        assert forall|i: int| 0 <= i < k - 1 implies p(#[trigger] t[i]) by {
            assert(t[i] == s[i + 1]);
        }
        lemma_strip_start(t, p, k - 1);
        assert(t.skip(k - 1) == s.skip(k));
    } else {
        assert(s.skip(0) == s);
    }
}

/// Stripping the end twice is stripping it once.
pub proof fn lemma_strip_end_idempotent(s: Seq<char>, p: spec_fn(char) -> bool)
    ensures
        strip_end(strip_end(s, p), p) == strip_end(s, p),
    decreases s.len(),
{
    if s.len() > 0 && p(s.last()) {
        lemma_strip_end_idempotent(s.drop_last(), p);
    }
}

/// A text without the NULs at its end is the prefix that does not end in a NUL
/// and that only NULs follow.
pub proof fn law_stripped_of_nuls(s: Seq<char>, t: Seq<char>)
    ensures
        without_trailing_nuls(s) == t <==> {
            &&& t.is_prefix_of(s)
            &&& t.len() > 0 ==> t.last() != '\0'
            &&& forall|i: int| t.len() <= i < s.len() ==> #[trigger] s[i] == '\0'
        },
{
    let p = |c: char| c == '\0';
    lemma_strip_end_shape(s, p);
    if t.is_prefix_of(s) && (t.len() > 0 ==> t.last() != '\0') && (forall|i: int|
        t.len() <= i < s.len() ==> #[trigger] s[i] == '\0') {
        if t.len() > 0 {
            assert(t.last() == s[t.len() - 1]);
        }
        lemma_strip_end(s, p, t.len() as int);
        assert(s.take(t.len() as int) =~= t);
    }
}

proof fn lemma_strip_end_shape(s: Seq<char>, p: spec_fn(char) -> bool)
    ensures
        strip_end(s, p).is_prefix_of(s),
        strip_end(s, p).len() > 0 ==> !p(strip_end(s, p).last()),
        forall|i: int| strip_end(s, p).len() <= i < s.len() ==> p(#[trigger] s[i]),
    decreases s.len(),
{
    if s.len() > 0 && p(s.last()) {
        let init = s.drop_last();
        lemma_strip_end_shape(init, p);
        assert forall|i: int| strip_end(s, p).len() <= i < s.len() implies p(#[trigger] s[i]) by {
            if i < init.len() {
                assert(init[i] == s[i]);
            }
        }
        assert(strip_end(s, p) =~= s.subrange(0, strip_end(s, p).len() as int));
    } else {
        assert(s =~= s.subrange(0, s.len() as int));
    }
}

proof fn lemma_line_length(s: Seq<char>, k: int)
    requires
        0 <= k <= s.len(),
        forall|i: int| 0 <= i < k ==> #[trigger] s[i] != '\n',
        k == s.len() || s[k] == '\n',
    ensures
        line_length(s) == k,
    decreases s.len(),
{
    if k > 0 {
        let t = s.drop_first();
        assert forall|i: int| 0 <= i < k - 1 implies #[trigger] t[i] != '\n' by {
            assert(t[i] == s[i + 1]);
        }
        lemma_line_length(t, k - 1);
    }
}

/// One more line at the front adds its trimmed text, when that is not empty.
proof fn lemma_nonblank_lines_step(s: Seq<char>)
    requires
        s.len() > 0,
    ensures
        ({
            let n = line_length(s);
            let first = trimmed(s.take(n as int));
            let rest = if n < s.len() {
                nonblank_lines(s.skip(n as int + 1))
            } else {
                Seq::empty()
            };
            nonblank_lines(s) == if first.len() > 0 {
                seq![first] + rest
            } else {
                rest
            }
        }),
{
    let n = line_length(s);
    lemma_line_length_bound(s);
    let f = |l: Seq<char>| trimmed(l);
    let p = |l: Seq<char>| l.len() > 0;
    let head = seq![s.take(n as int)];
    let tail = if n < s.len() {
        lines_of(s.skip(n as int + 1))
    } else {
        Seq::empty()
    };
    if n >= s.len() {
        assert(s.take(n as int) == s);
        assert(tail.map_values(f) =~= Seq::<Seq<char>>::empty());
        assert(tail.map_values(f).filter(p) =~= Seq::<Seq<char>>::empty()) by {
            reveal(Seq::filter);
        }
    }
    assert(lines_of(s) =~= head + tail);
    assert((head + tail).map_values(f) =~= head.map_values(f) + tail.map_values(f));
    Seq::filter_distributes_over_add(head.map_values(f), tail.map_values(f), p);
    let mapped = head.map_values(f);
    assert(mapped =~= seq![trimmed(s.take(n as int))]);
    assert(mapped.drop_last() =~= Seq::<Seq<char>>::empty());
    assert(mapped.filter(p) =~= if trimmed(s.take(n as int)).len() > 0 {
        mapped
    } else {
        Seq::empty()
    }) by {
        reveal_with_fuel(Seq::filter, 2);
    }
}

proof fn lemma_line_length_bound(s: Seq<char>)
    ensures
        line_length(s) <= s.len(),
    decreases s.len(),
{
    if s.len() > 0 && s[0] != '\n' {
        lemma_line_length_bound(s.drop_first());
    }
}

proof fn lemma_line_length_shape(s: Seq<char>)
    ensures
        line_length(s) <= s.len(),
        forall|i: int| 0 <= i < line_length(s) ==> #[trigger] s[i] != '\n',
        line_length(s) < s.len() ==> s[line_length(s) as int] == '\n',
    decreases s.len(),
{
    if s.len() > 0 && s[0] != '\n' {
        let t = s.drop_first();
        lemma_line_length_shape(t);
        assert forall|i: int| 0 <= i < line_length(s) implies #[trigger] s[i] != '\n' by {
            if i > 0 {
                assert(t[i - 1] == s[i]);
            }
        }
        assert(line_length(t) < t.len() ==> t[line_length(t) as int] == s[line_length(s) as int]);
    }
}

/// A line feed parts what is before it from what is after it: the lines of both
/// parts follow one another.
pub proof fn law_line_feed_parts_lines(a: Seq<char>, b: Seq<char>)
    ensures
        nonblank_lines(a + seq!['\n'] + b) == nonblank_lines(a) + nonblank_lines(b),
    decreases a.len(),
{
    let s = a + seq!['\n'] + b;
    let n = line_length(a) as int;
    lemma_line_length_shape(a);
    assert(s[a.len() as int] == '\n');
    assert forall|i: int| 0 <= i < n implies #[trigger] s[i] != '\n' by {
        assert(s[i] == a[i]);
    }
    if n < a.len() {
        assert(s[n] == a[n]);
    }
    lemma_line_length(s, n);
    lemma_nonblank_lines_step(s);
    assert(s.take(n) =~= a.take(n));
    if a.len() == 0 {
        lemma_no_lines();
        assert(a =~= Seq::<char>::empty());
        assert(s.skip(1) =~= b);
        assert(trimmed(s.take(0)).len() == 0) by {
            assert(s.take(0) =~= Seq::<char>::empty());
        }
        assert(nonblank_lines(a) + nonblank_lines(b) =~= nonblank_lines(b));
    } else {
        lemma_nonblank_lines_step(a);
        if n < a.len() {
            assert(s.skip(n + 1) =~= a.skip(n + 1) + seq!['\n'] + b);
            law_line_feed_parts_lines(a.skip(n + 1), b);
            let first = trimmed(a.take(n));
            let rest = nonblank_lines(a.skip(n + 1));
            assert(seq![first] + (rest + nonblank_lines(b)) =~= (seq![first] + rest)
                + nonblank_lines(b));
        } else {
            assert(s.skip(n + 1) =~= b);
            let first = trimmed(a.take(n));
            let none = Seq::<Seq<char>>::empty();
            assert((seq![first] + none) + nonblank_lines(b) =~= seq![first] + nonblank_lines(b));
            assert(none + nonblank_lines(b) =~= nonblank_lines(b));
        }
    }
}

/// A text without line feeds is one line, unless it is blank.
pub proof fn law_text_without_line_feed_is_one_line(a: Seq<char>)
    requires
        forall|i: int| 0 <= i < a.len() ==> #[trigger] a[i] != '\n',
    ensures
        nonblank_lines(a) == if trimmed(a).len() > 0 {
            seq![trimmed(a)]
        } else {
            Seq::empty()
        },
{
    if a.len() == 0 {
        lemma_no_lines();
        assert(a =~= Seq::<char>::empty());
    } else {
        lemma_line_length(a, a.len() as int);
        lemma_nonblank_lines_step(a);
        assert(a.take(a.len() as int) =~= a);
        assert(seq![trimmed(a)] + Seq::<Seq<char>>::empty() =~= seq![trimmed(a)]);
    }
}

proof fn lemma_strip_start_shape(s: Seq<char>, p: spec_fn(char) -> bool) -> (k: int)
    ensures
        0 <= k <= s.len(),
        strip_start(s, p) == s.skip(k),
        k < s.len() ==> !p(s[k]),
        forall|i: int| 0 <= i < k ==> p(#[trigger] s[i]),
    decreases s.len(),
{
    if s.len() > 0 && p(s[0]) {
        let t = s.drop_first();
        let k = lemma_strip_start_shape(t, p);
        assert(t.skip(k) =~= s.skip(k + 1));
        assert forall|i: int| 0 <= i < k + 1 implies p(#[trigger] s[i]) by {
            if i > 0 {
                assert(t[i - 1] == s[i]);
            }
        }
        k + 1
    } else {
        assert(s.skip(0) =~= s);
        0
    }
}

/// A trimmed text is a stretch of the text that neither starts nor ends with
/// white space and that only white space surrounds.
pub proof fn law_trimmed_is_what_white_space_surrounds(s: Seq<char>)
    ensures
        exists|i: int, j: int|
            0 <= i <= j <= s.len() && trimmed(s) == #[trigger] s.subrange(i, j) && (i < j
                ==> !is_white_space(s[i]) && !is_white_space(s[j - 1])) && (forall|k: int|
                0 <= k < i || j <= k < s.len() ==> is_white_space(#[trigger] s[k])),
{
    let p = |c: char| is_white_space(c);
    let i = lemma_strip_start_shape(s, p);
    let rest = s.skip(i);
    lemma_strip_end_shape(rest, p);
    let n = trimmed(s).len() as int;
    let j = i + n;
    assert(trimmed(s) =~= s.subrange(i, j));
    assert forall|k: int| 0 <= k < i || j <= k < s.len() implies is_white_space(
        #[trigger] s[k],
    ) by {
        if k < i {
            assert(p(s[k]));
        } else {
            assert(rest[k - i] == s[k]);
            assert(p(rest[k - i]));
        }
    }
    if n > 0 {
        assert(trimmed(s).last() == s[j - 1]);
        assert(!p(trimmed(s).last()));
        assert(!p(s[i]));
    }
}

/// The first elements of a sequence are its prefix, as long as asked for or as
/// the sequence is.
pub proof fn law_at_most<A>(s: Seq<A>, n: nat)
    ensures
        at_most(s, n).is_prefix_of(s),
        at_most(s, n).len() <= n,
        at_most(s, n).len() == n || at_most(s, n) == s,
{
    assert(at_most(s, n) =~= s.subrange(0, at_most(s, n).len() as int));
}

/// A text occurs in another exactly when the other is that text with something
/// before and after it.
pub proof fn law_occurrence(needle: Seq<char>, hay: Seq<char>, before: Seq<char>, after: Seq<char>)
    ensures
        occurs_in(needle, before + needle + after),
        occurs_in(needle, hay) ==> exists|i: int|
            0 <= i <= hay.len() - needle.len() && hay == #[trigger] hay.take(i) + needle + hay.skip(
                i + needle.len(),
            ),
{
    let whole = before + needle + after;
    let at = before.len() as int;
    assert(whole.subrange(at, at + needle.len()) =~= needle);
    if occurs_in(needle, hay) {
        let i = choose|i: int|
            0 <= i && i + needle.len() <= hay.len() && #[trigger] hay.subrange(i, i + needle.len())
                == needle;
        assert(hay =~= hay.take(i) + needle + hay.skip(i + needle.len()));
    }
}

/// A numeral stands for one number only.
pub proof fn lemma_decimal_injective(a: nat, b: nat)
    requires
        decimal(a) == decimal(b),
    ensures
        a == b,
    decreases a,
{
    lemma_decimal_nonempty(a);
    lemma_decimal_nonempty(b);
    lemma_decimal_nonempty(a / 10);
    lemma_decimal_nonempty(b / 10);
    assert(decimal(a).last() == digit(a % 10));
    assert(decimal(b).last() == digit(b % 10));
    if a >= 10 && b >= 10 {
        assert(decimal(a).drop_last() == decimal(a / 10));
        assert(decimal(b).drop_last() == decimal(b / 10));
        lemma_decimal_injective(a / 10, b / 10);
    }
}

proof fn lemma_decimal_nonempty(n: nat)
    ensures
        decimal(n).len() > 0,
{
}

// ---------------------------------------------------------------------------
// Executable operations
// ---------------------------------------------------------------------------

/// Whether `prefix` starts `bytes`.
fn bytes_start_with(bytes: &[u8], prefix: &[u8]) -> (r: bool)
    ensures
        r == prefix@.is_prefix_of(bytes@),
{
    if prefix.len() > bytes.len() {
        return false;
    }
    let mut i: usize = 0;
    while i < prefix.len()
        invariant
            i <= prefix.len() <= bytes.len(),
            forall|j: int| 0 <= j < i ==> #[trigger] prefix@[j] == bytes@[j],
        decreases prefix.len() - i,
    {
        if prefix[i] != bytes[i] {
            assert(prefix@[i as int] != bytes@.subrange(0, prefix@.len() as int)[i as int]);
            return false;
        }
        i += 1;
    }
    assert(prefix@ =~= bytes@.subrange(0, prefix@.len() as int));
    true
}

/// Whether two byte strings are equal.
pub fn bytes_eq(a: &[u8], b: &[u8]) -> (r: bool)
    ensures
        r == (a@ == b@),
{
    let r = a.len() == b.len() && bytes_start_with(a, b);
    assert(a@.len() == b@.len() ==> a@.subrange(0, b@.len() as int) =~= a@);
    r
}

/// Whether two strings are equal.
pub fn str_eq(a: &str, b: &str) -> (r: bool)
    ensures
        r == (a@ == b@),
{
    proof {
        lemma_encode_injective(a@, b@);
    }
    bytes_eq(a.as_bytes(), b.as_bytes())
}

/// Whether `s` starts with `prefix`.
pub fn starts_with(s: &str, prefix: &str) -> (r: bool)
    ensures
        r == prefix@.is_prefix_of(s@),
{
    proof {
        lemma_encode_prefix(prefix@, s@);
    }
    bytes_start_with(s.as_bytes(), prefix.as_bytes())
}

/// Whether `c` is one of the Unicode white space characters.
pub fn is_whitespace(c: char) -> (r: bool)
    ensures
        r == is_white_space(c),
{
    ('\u{9}' <= c && c <= '\u{d}') || c == '\u{20}' || c == '\u{85}' || c == '\u{a0}' || c
        == '\u{1680}' || ('\u{2000}' <= c && c <= '\u{200a}') || c == '\u{2028}' || c == '\u{2029}'
        || c == '\u{202f}' || c == '\u{205f}' || c == '\u{3000}'
}

/// The characters of a string, one per element.
fn to_chars(s: &str) -> (chars: Vec<char>)
    ensures
        chars@ == s@,
{
    let mut chars: Vec<char> = Vec::new();
    for c in it: s.chars()
        invariant
            it.seq() == s@,
            chars@ == s@.take(it.index() as int),
    {
        chars.push(c);
    }
    assert(s@.take(s@.len() as int) == s@);
    chars
}

/// Whether `needle` occurs somewhere in `hay`.
pub fn contains(hay: &str, needle: &str) -> (r: bool)
    ensures
        r == occurs_in(needle@, hay@),
{
    let h = to_chars(hay);
    let n = to_chars(needle);
    if n.len() > h.len() {
        return false;
    }
    let last: usize = h.len() - n.len();
    let mut i: usize = 0;
    while i <= last
        invariant
            h@ == hay@,
            n@ == needle@,
            last == h.len() - n.len(),
            i <= last + 1,
            forall|k: int| 0 <= k < i ==> #[trigger] h@.subrange(k, k + n@.len()) != n@,
        decreases last + 1 - i,
    {
        let mut j: usize = 0;
        while j < n.len() && h[i + j] == n[j]
            invariant
                last == h.len() - n.len(),
                i <= last,
                j <= n.len(),
                forall|k: int| 0 <= k < j ==> h@[i + k] == #[trigger] n@[k],
            decreases n.len() - j,
        {
            j += 1;
        }
        let ghost window = h@.subrange(i as int, i + n@.len());
        if j == n.len() {
            assert(window =~= n@);
            return true;
        }
        assert(window[j as int] != n@[j as int]);
        if i == last {
            assert forall|k: int|
                0 <= k && k + needle@.len() <= hay@.len() implies #[trigger] hay@.subrange(
                k,
                k + needle@.len(),
            ) != needle@ by {
                assert(k <= i);
            }
            return false;
        }
        i += 1;
    }
    false
}

/// The text without the NUL characters at its end.
pub fn trim_end_nuls(s: &str) -> (r: String)
    ensures
        r@ == without_trailing_nuls(s@),
{
    let mut keep: usize = 0;
    let mut seen: usize = 0;
    let total = s.unicode_len();
    for c in it: s.chars()
        invariant
            it.seq() == s@,
            seen == it.index(),
            total == s@.len(),
            keep <= seen,
            forall|i: int| keep <= i < seen ==> #[trigger] s@[i] == '\0',
            keep == 0 || s@[keep - 1] != '\0',
    {
        seen += 1;
        if c != '\0' {
            keep = seen;
        }
    }
    proof {
        lemma_strip_end(s@, |c: char| c == '\0', keep as int);
        assert(s@.subrange(0, keep as int) =~= s@.take(keep as int));
    }
    s.substring_char(0, keep).to_owned()
}

/// The bounds of the trimmed part of `chars[from..to]`.
fn trim_bounds(chars: &Vec<char>, from: usize, to: usize) -> (r: (usize, usize))
    requires
        from <= to <= chars.len(),
    ensures
        from <= r.0 <= r.1 <= to,
        chars@.subrange(r.0 as int, r.1 as int) == trimmed(chars@.subrange(from as int, to as int)),
{
    let ghost p = |c: char| is_white_space(c);
    let ghost part = chars@.subrange(from as int, to as int);
    let mut a: usize = from;
    while a < to && is_whitespace(chars[a])
        invariant
            from <= a <= to <= chars.len(),
            forall|i: int| from <= i < a ==> is_white_space(#[trigger] chars@[i]),
        decreases to - a,
    {
        a += 1;
    }
    proof {
        assert forall|i: int| 0 <= i < a - from implies p(#[trigger] part[i]) by {
            assert(part[i] == chars@[from + i]);
        }
        lemma_strip_start(part, p, a - from);
    }
    let ghost rest = part.skip(a - from);
    let mut b: usize = to;
    while a < b && is_whitespace(chars[b - 1])
        invariant
            from <= a <= b <= to <= chars.len(),
            forall|i: int| b <= i < to ==> is_white_space(#[trigger] chars@[i]),
        decreases b - a,
    {
        b -= 1;
    }
    proof {
        assert forall|i: int| b - a <= i < rest.len() implies p(#[trigger] rest[i]) by {
            assert(rest[i] == chars@[a + i]);
        }
        lemma_strip_end(rest, p, b - a);
        assert(rest.take(b - a) =~= chars@.subrange(a as int, b as int));
    }
    (a, b)
}

/// The first `limit` lines of `text` that are not blank, each trimmed.
pub fn first_nonblank_lines(text: &str, limit: usize) -> (r: Vec<String>)
    ensures
        views(r@) == at_most(nonblank_lines(text@), limit as nat),
{
    let chars = to_chars(text);
    let mut out: Vec<String> = Vec::new();
    let mut start: usize = 0;
    assert(text@.skip(0) == text@);
    assert(views(out@) + nonblank_lines(text@) =~= nonblank_lines(text@));
    while start < chars.len() && out.len() < limit
        invariant
            chars@ == text@,
            start <= chars.len(),
            out.len() <= limit,
            views(out@) + nonblank_lines(text@.skip(start as int)) == nonblank_lines(text@),
        decreases chars.len() - start,
    {
        let mut end: usize = start;
        while end < chars.len() && chars[end] != '\n'
            invariant
                start <= end <= chars.len(),
                forall|i: int| start <= i < end ==> #[trigger] chars@[i] != '\n',
            decreases chars.len() - end,
        {
            end += 1;
        }
        let ghost rest = text@.skip(start as int);
        let ghost before = views(out@);
        proof {
            assert forall|i: int| 0 <= i < end - start implies #[trigger] rest[i] != '\n' by {
                assert(rest[i] == chars@[start + i]);
            }
            lemma_line_length(rest, end - start);
            lemma_nonblank_lines_step(rest);
            assert(rest.take(end - start) =~= chars@.subrange(start as int, end as int));
        }
        let (a, b) = trim_bounds(&chars, start, end);
        if a < b {
            let line = text.substring_char(a, b).to_owned();
            out.push(line);
            assert(views(out@) =~= before.push(line@));
        }
        if end < chars.len() {
            assert(rest.skip(end - start + 1) =~= text@.skip(end + 1));
            assert(views(out@) + nonblank_lines(text@.skip(end + 1)) =~= before + nonblank_lines(
                rest,
            ));
            start = end + 1;
        } else {
            proof {
                lemma_no_lines();
            }
            assert(text@.skip(end as int) =~= Seq::<char>::empty());
            assert(views(out@) + nonblank_lines(text@.skip(end as int)) =~= before
                + nonblank_lines(rest));
            start = end;
        }
    }
    proof {
        if start >= chars.len() {
            assert(text@.skip(start as int) =~= Seq::<char>::empty());
            lemma_no_lines();
        }
        let all = nonblank_lines(text@);
        if all.len() <= limit as nat {
            if start < chars.len() {
                assert(nonblank_lines(text@.skip(start as int)).len() == 0);
            }
            assert(views(out@) =~= all);
        } else {
            assert(views(out@) =~= all.take(limit as int));
        }
    }
    out
}

proof fn lemma_no_lines()
    ensures
        nonblank_lines(Seq::empty()) == Seq::<Seq<char>>::empty(),
{
    reveal(Seq::filter);
    assert(lines_of(Seq::empty()).map_values(|l: Seq<char>| trimmed(l)) =~= Seq::<
        Seq<char>,
    >::empty());
}

/// The digit of a number below ten.
fn digit_str(d: u8) -> (s: &'static str)
    requires
        d < 10,
    ensures
        s@ == seq![digit(d as nat)],
{
    proof {
        reveal_strlit("0");
        reveal_strlit("1");
        reveal_strlit("2");
        reveal_strlit("3");
        reveal_strlit("4");
        reveal_strlit("5");
        reveal_strlit("6");
        reveal_strlit("7");
        reveal_strlit("8");
        reveal_strlit("9");
    }
    match d {
        0 => "0",
        1 => "1",
        2 => "2",
        3 => "3",
        4 => "4",
        5 => "5",
        6 => "6",
        7 => "7",
        8 => "8",
        _ => "9",
    }
}

/// `prefix` followed by the decimal numeral of `n`.
pub fn numbered(prefix: &str, n: u8) -> (r: String)
    ensures
        r@ == prefix@ + decimal(n as nat),
{
    let mut s = prefix.to_owned();
    proof {
        reveal_with_fuel(decimal, 3);
    }
    if n >= 100 {
        s.append(digit_str(n / 100));
    }
    if n >= 10 {
        s.append(digit_str(n / 10 % 10));
    }
    s.append(digit_str(n % 10));
    assert(s@ =~= prefix@ + decimal(n as nat));
    s
}

} // verus!
