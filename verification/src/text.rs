use vstd::prelude::*;
use vstd::string::StrSliceExecFns;
use vstd::string::StringSliceAdditionalSpecFns;

verus! {

// Source text is handled as bytes throughout the crate: the parser reports
// node positions as byte offsets, so a byte sequence is the honest model of
// a file's content.

pub const NL: u8 = 10;
pub const QUOTE: u8 = 34;
pub const SPACE: u8 = 32;
pub const TAB: u8 = 9;
pub const CR: u8 = 13;
pub const SLASH: u8 = 47;
pub const UNDERSCORE: u8 = 95;
pub const DOT: u8 = 46;
pub const LPAREN: u8 = 40;
pub const RPAREN: u8 = 41;

/// The needle `n` occurs in `h` starting at position `i`.
pub open spec fn match_at(h: Seq<u8>, n: Seq<u8>, i: int) -> bool {
    0 <= i && i + n.len() <= h.len() && h.subrange(i, i + n.len()) == n
}

/// The needle `n` occurs somewhere in `h`.
pub open spec fn has_sub(h: Seq<u8>, n: Seq<u8>) -> bool {
    exists|i: int| match_at(h, n, i)
}

pub open spec fn is_ws(b: u8) -> bool {
    b == SPACE || (9 <= b && b <= 13)
}

pub open spec fn is_lower_byte(b: u8) -> bool {
    97 <= b && b <= 122
}

pub open spec fn is_upper_byte(b: u8) -> bool {
    65 <= b && b <= 90
}

pub open spec fn is_digit_byte(b: u8) -> bool {
    48 <= b && b <= 57
}

/// Convert the bytes of a string literal into an owned byte vector.
pub fn lit_bytes(s: &str) -> (r: Vec<u8>)
    ensures
        r@ == s.spec_bytes(),
{
    s.as_bytes_vec()
}

/// For byte vectors the deep view and the plain view agree.
pub broadcast proof fn lemma_bytes_deep(v: Vec<u8>)
    ensures
        #[trigger] v.deep_view() == v@,
{
    assert(v.deep_view() =~= v@);
}

pub fn eq_bytes(a: &Vec<u8>, b: &Vec<u8>) -> (r: bool)
    ensures
        r == (a@ == b@),
{
    if a.len() != b.len() {
        return false;
    }
    let mut i: usize = 0;
    while i < a.len()
        invariant
            a@.len() == b@.len(),
            i <= a@.len(),
            forall|j: int| 0 <= j < i ==> a@[j] == b@[j],
        decreases a@.len() - i,
    {
        if a[i] != b[i] {
            return false;
        }
        i += 1;
    }
    proof {
        assert(a@ =~= b@);
    }
    true
}

/// Check whether `n` occurs in `h` at position `i`.
fn eq_at(h: &Vec<u8>, n: &Vec<u8>, i: usize) -> (r: bool)
    requires
        i + n@.len() <= h@.len(),
    ensures
        r == match_at(h@, n@, i as int),
{
    proof {
        assert(h@.len() <= usize::MAX) by {
            assert(h.len() == h@.len());
        }
    }
    let mut j: usize = 0;
    while j < n.len()
        invariant
            i + n@.len() <= h@.len(),
            h@.len() <= usize::MAX,
            j <= n@.len(),
            forall|k: int| 0 <= k < j ==> h@[i + k] == n@[k],
        decreases n@.len() - j,
    {
        if h[i + j] != n[j] {
            proof {
                assert(h@.subrange(i as int, i + n@.len()) != n@) by {
                    assert(h@.subrange(i as int, i + n@.len())[j as int] == h@[i + j]);
                }
            }
            return false;
        }
        j += 1;
    }
    proof {
        assert(h@.subrange(i as int, i + n@.len()) =~= n@);
    }
    true
}

/// Position of the leftmost occurrence of `n` in `h`, if any.
pub fn find_sub(h: &Vec<u8>, n: &Vec<u8>) -> (r: Option<usize>)
    ensures
        match r {
            Some(i) => match_at(h@, n@, i as int) && forall|j: int|
                0 <= j < i ==> !match_at(h@, n@, j),
            None => !has_sub(h@, n@),
        },
{
    if n.len() > h.len() {
        return None;
    }
    if n.len() == 0 {
        proof {
            assert(h@.subrange(0, 0) =~= n@);
        }
        return Some(0);
    }
    proof {
        assert(h@.len() <= usize::MAX) by {
            assert(h.len() == h@.len());
        }
    }
    let last = h.len() - n.len();
    let mut i: usize = 0;
    while i <= last
        invariant
            1 <= n@.len() <= h@.len(),
            h@.len() <= usize::MAX,
            last == h@.len() - n@.len(),
            i <= last + 1,
            forall|j: int| 0 <= j < i ==> !match_at(h@, n@, j),
        decreases last - i + 1,
    {
        if eq_at(h, n, i) {
            return Some(i);
        }
        i += 1;
    }
    proof {
        assert forall|j: int| !match_at(h@, n@, j) by {
            if j > last {
            }
        }
    }
    None
}

/// Whether `n` occurs in `h` at exactly position `i`.
pub fn match_at_check(h: &Vec<u8>, n: &Vec<u8>, i: usize) -> (r: bool)
    ensures
        r == match_at(h@, n@, i as int),
{
    proof {
        assert(h@.len() <= usize::MAX) by {
            assert(h.len() == h@.len());
        }
    }
    if n.len() > h.len() || i > h.len() - n.len() {
        return false;
    }
    eq_at(h, n, i)
}

/// End of the run of whitespace bytes starting at `i`.
pub open spec fn ws_end(s: Seq<u8>, i: int) -> int
    decreases s.len() - i,
{
    if 0 <= i < s.len() && is_ws(s[i]) {
        ws_end(s, i + 1)
    } else {
        i
    }
}

pub proof fn lemma_ws_end(s: Seq<u8>, i: int)
    requires
        0 <= i <= s.len(),
    ensures
        i <= ws_end(s, i) <= s.len(),
        forall|t: int| i <= t < ws_end(s, i) ==> is_ws(s[t]),
        ws_end(s, i) < s.len() ==> !is_ws(s[ws_end(s, i)]),
    decreases s.len() - i,
{
    if 0 <= i < s.len() && is_ws(s[i]) {
        lemma_ws_end(s, i + 1);
    }
}

pub fn ws_end_exec(s: &Vec<u8>, i: usize) -> (r: usize)
    requires
        i <= s@.len(),
    ensures
        r == ws_end(s@, i as int),
        i <= r <= s@.len(),
{
    proof {
        assert(s@.len() <= usize::MAX) by {
            assert(s.len() == s@.len());
        }
    }
    let mut j: usize = i;
    while j < s.len() && (s[j] == SPACE || (9 <= s[j] && s[j] <= 13))
        invariant
            i <= j <= s@.len(),
            s@.len() <= usize::MAX,
            ws_end(s@, i as int) == ws_end(s@, j as int),
        decreases s@.len() - j,
    {
        j += 1;
    }
    proof {
        lemma_ws_end(s@, j as int);
    }
    j
}

/// Position of the first occurrence of byte `b` at or after `i`, or -1.
pub open spec fn find_byte_from(s: Seq<u8>, b: u8, i: int) -> int
    decreases s.len() + 1 - i,
{
    if i < 0 || i >= s.len() {
        -1
    } else if s[i] == b {
        i
    } else {
        find_byte_from(s, b, i + 1)
    }
}

pub proof fn lemma_find_byte_from(s: Seq<u8>, b: u8, i: int)
    requires
        i >= 0,
    ensures
        find_byte_from(s, b, i) >= 0 ==> i <= find_byte_from(s, b, i) < s.len() && s[find_byte_from(
            s,
            b,
            i,
        )] == b,
    decreases s.len() + 1 - i,
{
    if 0 <= i < s.len() && s[i] != b {
        lemma_find_byte_from(s, b, i + 1);
    }
}

pub fn find_byte_from_exec(s: &Vec<u8>, b: u8, i: usize) -> (r: Option<usize>)
    ensures
        match r {
            Some(p) => find_byte_from(s@, b, i as int) == p as int && i <= p < s@.len(),
            None => find_byte_from(s@, b, i as int) == -1,
        },
{
    proof {
        assert(s@.len() <= usize::MAX) by {
            assert(s.len() == s@.len());
        }
    }
    let mut p: usize = i;
    while p < s.len()
        invariant
            i <= p,
            p <= s@.len() || p == i,
            s@.len() <= usize::MAX,
            find_byte_from(s@, b, i as int) == find_byte_from(s@, b, p as int),
        decreases s@.len() + 1 - p,
    {
        if s[p] == b {
            proof {
                lemma_find_byte_from(s@, b, i as int);
            }
            return Some(p);
        }
        p += 1;
    }
    None
}

pub fn contains_sub(h: &Vec<u8>, n: &Vec<u8>) -> (r: bool)
    ensures
        r == has_sub(h@, n@),
{
    find_sub(h, n).is_some()
}

pub open spec fn starts_with(h: Seq<u8>, n: Seq<u8>) -> bool {
    match_at(h, n, 0)
}

pub open spec fn ends_with(h: Seq<u8>, n: Seq<u8>) -> bool {
    n.len() <= h.len() && match_at(h, n, h.len() - n.len())
}

pub fn check_starts_with(h: &Vec<u8>, n: &Vec<u8>) -> (r: bool)
    ensures
        r == starts_with(h@, n@),
{
    if n.len() > h.len() {
        return false;
    }
    eq_at(h, n, 0)
}

pub fn check_ends_with(h: &Vec<u8>, n: &Vec<u8>) -> (r: bool)
    ensures
        r == ends_with(h@, n@),
{
    if n.len() > h.len() {
        return false;
    }
    eq_at(h, n, h.len() - n.len())
}

/// Copy of `v[start..end]`.
pub fn subvec(v: &Vec<u8>, start: usize, end: usize) -> (r: Vec<u8>)
    requires
        start <= end,
        end <= v@.len(),
    ensures
        r@ == v@.subrange(start as int, end as int),
{
    let mut r: Vec<u8> = Vec::new();
    let mut i: usize = start;
    while i < end
        invariant
            start <= i <= end,
            end <= v@.len(),
            r@ == v@.subrange(start as int, i as int),
        decreases end - i,
    {
        r.push(v[i]);
        proof {
            assert(r@ =~= v@.subrange(start as int, i + 1));
        }
        i += 1;
    }
    r
}

/// An owned copy of a byte vector.
pub fn clone_bytes(v: &Vec<u8>) -> (r: Vec<u8>)
    ensures
        r@ == v@,
{
    let r = subvec(v, 0, v.len());
    proof {
        assert(v@.subrange(0, v@.len() as int) =~= v@);
    }
    r
}

pub fn append_bytes(dst: &mut Vec<u8>, src: &Vec<u8>)
    ensures
        final(dst)@ == old(dst)@ + src@,
{
    let mut i: usize = 0;
    while i < src.len()
        invariant
            i <= src@.len(),
            dst@ == old(dst)@ + src@.subrange(0, i as int),
        decreases src@.len() - i,
    {
        dst.push(src[i]);
        proof {
            assert(old(dst)@ + src@.subrange(0, i + 1) =~= (old(dst)@ + src@.subrange(
                0,
                i as int,
            )).push(src@[i as int]));
        }
        i += 1;
    }
    proof {
        assert(src@.subrange(0, src@.len() as int) =~= src@);
    }
}

/// Index of the first newline byte in `s`, or `s.len()` if there is none.
pub open spec fn first_nl(s: Seq<u8>) -> int
    decreases s.len(),
{
    if s.len() == 0 {
        0
    } else if s[0] == NL {
        0
    } else {
        1 + first_nl(s.skip(1))
    }
}

pub proof fn lemma_first_nl(s: Seq<u8>)
    ensures
        0 <= first_nl(s) <= s.len(),
        first_nl(s) < s.len() ==> s[first_nl(s)] == NL,
        forall|j: int| 0 <= j < first_nl(s) ==> s[j] != NL,
    decreases s.len(),
{
    if s.len() == 0 {
    } else if s[0] == NL {
    } else {
        lemma_first_nl(s.skip(1));
        assert forall|j: int| 0 <= j < first_nl(s) implies s[j] != NL by {
            if j > 0 {
                assert(s.skip(1)[j - 1] == s[j]);
            }
        }
    }
}

pub proof fn lemma_first_nl_is(s: Seq<u8>, k: int)
    requires
        0 <= k <= s.len(),
        k < s.len() ==> s[k] == NL,
        k == s.len() || s[k] == NL,
        forall|j: int| 0 <= j < k ==> s[j] != NL,
    ensures
        first_nl(s) == k,
    decreases s.len(),
{
    if s.len() == 0 {
    } else if s[0] == NL {
        assert(k == 0);
    } else {
        assert(k >= 1);
        assert forall|j: int| 0 <= j < k - 1 implies s.skip(1)[j] != NL by {
            assert(s.skip(1)[j] == s[j + 1]);
        }
        lemma_first_nl_is(s.skip(1), k - 1);
    }
}

/// A line with one carriage return stripped from its end, as a newline
/// ending `\r\n` leaves it.
pub open spec fn strip_cr(l: Seq<u8>) -> Seq<u8> {
    if l.len() > 0 && l.last() == CR {
        l.drop_last()
    } else {
        l
    }
}

/// The lines of `s`, split at newline bytes, a carriage return before each
/// newline stripped; a trailing newline does not produce a final empty
/// line, and a final line without a newline keeps its bytes as they are.
pub open spec fn split_lines_spec(s: Seq<u8>) -> Seq<Seq<u8>>
    decreases s.len(),
{
    if s.len() == 0 {
        Seq::empty()
    } else {
        let k = first_nl(s);
        if 0 <= k && k < s.len() {
            seq![strip_cr(s.take(k))] + split_lines_spec(s.skip(k + 1))
        } else {
            seq![s]
        }
    }
}

pub proof fn lemma_split_lines_step(s: Seq<u8>, k: int)
    requires
        0 <= k < s.len(),
        s[k] == NL,
        forall|j: int| 0 <= j < k ==> s[j] != NL,
    ensures
        split_lines_spec(s) == seq![strip_cr(s.take(k))] + split_lines_spec(s.skip(k + 1)),
{
    lemma_first_nl_is(s, k);
}

pub proof fn lemma_split_lines_last(s: Seq<u8>)
    requires
        s.len() > 0,
        forall|j: int| 0 <= j < s.len() ==> s[j] != NL,
    ensures
        split_lines_spec(s) == seq![s],
{
    lemma_first_nl_is(s, s.len() as int);
}

pub fn split_lines(v: &Vec<u8>) -> (r: Vec<Vec<u8>>)
    ensures
        r.deep_view() == split_lines_spec(v@),
{
    let mut r: Vec<Vec<u8>> = Vec::new();
    let mut start: usize = 0;
    let mut i: usize = 0;
    proof {
        assert(v@.len() <= usize::MAX) by {
            assert(v.len() == v@.len());
        }
        assert(v@.skip(0) =~= v@);
    }
    while i < v.len()
        invariant
            start <= i <= v@.len(),
            v@.len() <= usize::MAX,
            r.deep_view() + split_lines_spec(v@.skip(start as int)) == split_lines_spec(v@),
            forall|j: int| start <= j < i ==> v@[j] != NL,
        decreases v@.len() - i,
    {
        if v[i] == NL {
            let line = if i > start && v[i - 1] == CR {
                subvec(v, start, i - 1)
            } else {
                subvec(v, start, i)
            };
            let ghost prev = r.deep_view();
            r.push(line);
            proof {
                assert(line@ == strip_cr(v@.subrange(start as int, i as int))) by {
                    if i > start && v@[i - 1] == CR {
                        assert(v@.subrange(start as int, i - 1) =~= v@.subrange(
                            start as int,
                            i as int,
                        ).drop_last());
                        assert(v@.subrange(start as int, i as int).last() == v@[i - 1]);
                    }
                }
                assert(line.deep_view() =~= line@);
                assert(r.deep_view() =~= prev.push(line@));
                let tail = v@.skip(start as int);
                assert forall|j: int| 0 <= j < i - start implies tail[j] != NL by {
                    assert(tail[j] == v@[start + j]);
                }
                assert(tail[i - start] == v@[i as int]);
                lemma_split_lines_step(tail, i - start);
                assert(tail.take(i - start) =~= v@.subrange(start as int, i as int));
                assert(tail.skip(i - start + 1) =~= v@.skip(i + 1));
                assert(prev + (seq![line@] + split_lines_spec(v@.skip(i + 1))) =~= prev.push(
                    line@,
                ) + split_lines_spec(v@.skip(i + 1)));
            }
            start = i + 1;
        }
        i += 1;
    }
    if start < v.len() {
        let line = subvec(v, start, v.len());
        let ghost prev = r.deep_view();
        r.push(line);
        proof {
            let tail = v@.skip(start as int);
            assert forall|j: int| 0 <= j < tail.len() implies tail[j] != NL by {
                assert(tail[j] == v@[start + j]);
            }
            lemma_split_lines_last(tail);
            assert(line.deep_view() =~= line@);
            assert(line@ =~= tail);
            assert(r.deep_view() =~= prev.push(line@));
            assert(prev + seq![line@] =~= prev.push(line@));
        }
    } else {
        proof {
            assert(v@.skip(start as int) =~= Seq::<u8>::empty());
            assert(r.deep_view() + Seq::<Seq<u8>>::empty() =~= r.deep_view());
        }
    }
    r
}

/// Concatenation of `parts` with `sep` between consecutive elements.
pub open spec fn join_sep_spec(parts: Seq<Seq<u8>>, sep: Seq<u8>) -> Seq<u8>
    decreases parts.len(),
{
    if parts.len() == 0 {
        Seq::empty()
    } else if parts.len() == 1 {
        parts[0]
    } else {
        parts[0] + sep + join_sep_spec(parts.skip(1), sep)
    }
}

pub proof fn lemma_join_snoc(parts: Seq<Seq<u8>>, sep: Seq<u8>, x: Seq<u8>)
    ensures
        join_sep_spec(parts.push(x), sep) == if parts.len() == 0 {
            x
        } else {
            join_sep_spec(parts, sep) + sep + x
        },
    decreases parts.len(),
{
    let p = parts.push(x);
    if parts.len() == 0 {
        assert(p[0] == x);
    } else if parts.len() == 1 {
        assert(p.skip(1) =~= seq![x]);
        assert(join_sep_spec(p.skip(1), sep) == x);
    } else {
        assert(p.skip(1) =~= parts.skip(1).push(x));
        lemma_join_snoc(parts.skip(1), sep, x);
    }
}

pub fn join_sep(parts: &Vec<Vec<u8>>, sep: &Vec<u8>) -> (r: Vec<u8>)
    ensures
        r@ == join_sep_spec(parts.deep_view(), sep@),
{
    let ghost dv = parts.deep_view();
    let mut r: Vec<u8> = Vec::new();
    let mut i: usize = 0;
    while i < parts.len()
        invariant
            i <= parts@.len(),
            dv == parts.deep_view(),
            dv.len() == parts@.len(),
            r@ == join_sep_spec(dv.take(i as int), sep@),
        decreases parts@.len() - i,
    {
        if i > 0 {
            append_bytes(&mut r, sep);
        }
        let part = &parts[i];
        append_bytes(&mut r, part);
        proof {
            assert(parts@[i as int]@ == dv[i as int]);
            assert(dv.take(i as int).push(dv[i as int]) =~= dv.take(i + 1));
            lemma_join_snoc(dv.take(i as int), sep@, dv[i as int]);
        }
        i += 1;
    }
    proof {
        assert(dv.take(parts@.len() as int) =~= dv);
    }
    r
}

/// Number of leading bytes of `s` satisfying `p`, where `p` selects
/// whitespace or quote bytes.
pub open spec fn count_leading(s: Seq<u8>, quotes: bool) -> int
    decreases s.len(),
{
    if s.len() == 0 {
        0
    } else if (if quotes {
        s[0] == QUOTE
    } else {
        is_ws(s[0])
    }) {
        1 + count_leading(s.skip(1), quotes)
    } else {
        0
    }
}

pub open spec fn count_trailing(s: Seq<u8>, quotes: bool) -> int
    decreases s.len(),
{
    count_leading(s.reverse(), quotes)
}

/// `s` with leading and trailing whitespace (or quote) bytes removed.
pub open spec fn trim_spec(s: Seq<u8>, quotes: bool) -> Seq<u8> {
    let a = count_leading(s, quotes);
    let b = count_trailing(s, quotes);
    if a + b >= s.len() {
        Seq::empty()
    } else {
        s.subrange(a, s.len() - b)
    }
}

proof fn lemma_count_leading(s: Seq<u8>, quotes: bool)
    ensures
        0 <= count_leading(s, quotes) <= s.len(),
        forall|j: int|
            0 <= j < count_leading(s, quotes) ==> (if quotes {
                s[j] == QUOTE
            } else {
                is_ws(s[j])
            }),
        count_leading(s, quotes) < s.len() ==> !(if quotes {
            s[count_leading(s, quotes)] == QUOTE
        } else {
            is_ws(s[count_leading(s, quotes)])
        }),
    decreases s.len(),
{
    if s.len() == 0 {
    } else {
        lemma_count_leading(s.skip(1), quotes);
        assert forall|j: int| 0 <= j < count_leading(s, quotes) implies (if quotes {
            s[j] == QUOTE
        } else {
            is_ws(s[j])
        }) by {
            if j > 0 {
                assert(s.skip(1)[j - 1] == s[j]);
            }
        }
    }
}

proof fn lemma_count_leading_is(s: Seq<u8>, quotes: bool, k: int)
    requires
        0 <= k <= s.len(),
        forall|j: int|
            0 <= j < k ==> (if quotes {
                s[j] == QUOTE
            } else {
                is_ws(s[j])
            }),
        k < s.len() ==> !(if quotes {
            s[k] == QUOTE
        } else {
            is_ws(s[k])
        }),
    ensures
        count_leading(s, quotes) == k,
    decreases s.len(),
{
    if s.len() == 0 {
    } else if k == 0 {
    } else {
        assert forall|j: int| 0 <= j < k - 1 implies (if quotes {
            s.skip(1)[j] == QUOTE
        } else {
            is_ws(s.skip(1)[j])
        }) by {
            assert(s.skip(1)[j] == s[j + 1]);
        }
        assert(k - 1 < s.skip(1).len() ==> s.skip(1)[k - 1] == s[k]);
        lemma_count_leading_is(s.skip(1), quotes, k - 1);
    }
}

fn byte_matches(b: u8, quotes: bool) -> (r: bool)
    ensures
        r == (if quotes {
            b == QUOTE
        } else {
            is_ws(b)
        }),
{
    if quotes {
        b == QUOTE
    } else {
        b == SPACE || (9 <= b && b <= 13)
    }
}

fn trim_impl(v: &Vec<u8>, quotes: bool) -> (r: Vec<u8>)
    ensures
        r@ == trim_spec(v@, quotes),
{
    let n = v.len();
    let mut a: usize = 0;
    while a < n && byte_matches(v[a], quotes)
        invariant
            n == v@.len(),
            a <= n,
            forall|j: int|
                0 <= j < a ==> (if quotes {
                    v@[j] == QUOTE
                } else {
                    is_ws(v@[j])
                }),
        decreases n - a,
    {
        a += 1;
    }
    proof {
        lemma_count_leading_is(v@, quotes, a as int);
    }
    let mut b: usize = 0;
    while b < n - a && byte_matches(v[n - 1 - b], quotes)
        invariant
            n == v@.len(),
            a <= n,
            b <= n - a,
            forall|j: int|
                0 <= j < b ==> (if quotes {
                    #[trigger] v@[n - 1 - j] == QUOTE
                } else {
                    is_ws(v@[n - 1 - j])
                }),
        decreases n - a - b,
    {
        b += 1;
    }
    proof {
        let rv = v@.reverse();
        if a == n {
            // fully matched: count_trailing may exceed n - a, but the result
            // is empty either way
            assert(v@.subrange(a as int, a as int) =~= Seq::<u8>::empty());
            lemma_count_leading(rv, quotes);
            assert(count_leading(v@, quotes) + count_trailing(v@, quotes) >= v@.len());
        } else {
            assert forall|j: int| 0 <= j < b implies (if quotes {
                rv[j] == QUOTE
            } else {
                is_ws(rv[j])
            }) by {
                assert(rv[j] == v@[n - 1 - j]);
            }
            if b == n - a {
                // impossible: the byte at index a does not match, yet the
                // backward scan would have covered it
                assert(v@[n - 1 - (b - 1)] == v@[a as int]);
                assert(false);
            }
            assert(rv[b as int] == v@[n - 1 - b]);
            assert(!(if quotes {
                rv[b as int] == QUOTE
            } else {
                is_ws(rv[b as int])
            }));
            lemma_count_leading_is(rv, quotes, b as int);
        }
    }
    if a >= n - b {
        Vec::new()
    } else {
        subvec(v, a, n - b)
    }
}

/// `v` with leading and trailing ASCII whitespace removed.
pub fn trim_ws(v: &Vec<u8>) -> (r: Vec<u8>)
    ensures
        r@ == trim_spec(v@, false),
{
    trim_impl(v, false)
}

/// `v` with leading and trailing double-quote bytes removed.
pub fn trim_quotes(v: &Vec<u8>) -> (r: Vec<u8>)
    ensures
        r@ == trim_spec(v@, true),
{
    trim_impl(v, true)
}

/// Decimal digits of `n`, most significant first.
pub open spec fn dec_digits(n: nat) -> Seq<u8>
    decreases n,
{
    if n < 10 {
        seq![(48 + n) as u8]
    } else {
        dec_digits(n / 10).push((48 + n % 10) as u8)
    }
}

pub fn usize_to_dec(n: usize) -> (r: Vec<u8>)
    ensures
        r@ == dec_digits(n as nat),
{
    let mut tmp: Vec<u8> = Vec::new();
    let mut m: usize = n;
    while m >= 10
        invariant
            dec_digits(n as nat) == dec_digits(m as nat) + tmp@.reverse(),
        decreases m,
    {
        let d: u8 = (m % 10) as u8;
        tmp.push(48 + d);
        proof {
            assert(tmp@.reverse() =~= seq![(48 + (m as nat) % 10) as u8] + tmp@.drop_last().reverse());
            assert(dec_digits((m as nat) / 10) + (seq![(48 + (m as nat) % 10) as u8]
                + tmp@.drop_last().reverse()) =~= (dec_digits((m as nat) / 10).push(
                (48 + (m as nat) % 10) as u8,
            )) + tmp@.drop_last().reverse());
        }
        m = m / 10;
    }
    let mut r: Vec<u8> = Vec::new();
    let d: u8 = m as u8;
    r.push(48 + d);
    proof {
        assert(r@ =~= dec_digits(m as nat));
    }
    let mut i: usize = tmp.len();
    while i > 0
        invariant
            i <= tmp@.len(),
            r@ == dec_digits(m as nat) + tmp@.reverse().take(tmp@.len() - i),
        decreases i,
    {
        i -= 1;
        r.push(tmp[i]);
        proof {
            assert(tmp@.reverse()[tmp@.len() - i - 1] == tmp@[i as int]);
            assert((dec_digits(m as nat) + tmp@.reverse().take(tmp@.len() - i - 1)).push(
                tmp@[i as int],
            ) =~= dec_digits(m as nat) + tmp@.reverse().take(tmp@.len() - i));
        }
    }
    proof {
        assert(tmp@.reverse().take(tmp@.len() as int) =~= tmp@.reverse());
        assert(r@ =~= dec_digits(n as nat));
    }
    r
}

} // verus!
