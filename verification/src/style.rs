use vstd::prelude::*;
use vstd::string::StringSliceAdditionalSpecFns;
use crate::config::Config;
use crate::issue::Issue;
use crate::issue::IssueModel;
use crate::issue::IssueType;
use crate::issue::Severity;
use crate::parser::GoFile;
use crate::parser::NodeKind;
use crate::parser::kind_indices;
use crate::parser::lemma_kind_indices;
use crate::parser::node_wf;
use crate::parser::line_at;
use crate::parser::column_at;
use crate::dead_code::node_text;
use crate::dead_code::node_snippet;
use crate::text::SPACE;
use crate::text::TAB;
use crate::text::UNDERSCORE;
use crate::text::append_bytes;
use crate::text::clone_bytes;
use crate::text::is_digit_byte;
use crate::text::is_lower_byte;
use crate::text::is_upper_byte;
use crate::text::lit_bytes;
use crate::text::split_lines;
use crate::text::split_lines_spec;
use crate::text::subvec;

verus! {

broadcast use crate::text::lemma_bytes_deep;

// ---------------------------------------------------------------------------
// The snake-case pattern. A match is a maximal run of lowercase letters,
// an underscore, a lowercase letter and then lowercase letters or digits,
// delimited by non-word bytes on both sides.
// ---------------------------------------------------------------------------

pub open spec fn is_word_byte(b: u8) -> bool {
    is_lower_byte(b) || is_upper_byte(b) || is_digit_byte(b) || b == UNDERSCORE
}

/// End of the run of lowercase letters starting at `i`.
pub open spec fn lower_end(s: Seq<u8>, i: int) -> int
    decreases s.len() - i,
{
    if 0 <= i < s.len() && is_lower_byte(s[i]) {
        lower_end(s, i + 1)
    } else {
        i
    }
}

/// End of the run of lowercase letters and digits starting at `i`.
pub open spec fn ldigit_end(s: Seq<u8>, i: int) -> int
    decreases s.len() - i,
{
    if 0 <= i < s.len() && (is_lower_byte(s[i]) || is_digit_byte(s[i])) {
        ldigit_end(s, i + 1)
    } else {
        i
    }
}

pub proof fn lemma_lower_end(s: Seq<u8>, i: int)
    requires
        0 <= i <= s.len(),
    ensures
        i <= lower_end(s, i) <= s.len(),
        forall|t: int| i <= t < lower_end(s, i) ==> is_lower_byte(s[t]),
        lower_end(s, i) < s.len() ==> !is_lower_byte(s[lower_end(s, i)]),
    decreases s.len() - i,
{
    if 0 <= i < s.len() && is_lower_byte(s[i]) {
        lemma_lower_end(s, i + 1);
    }
}

pub proof fn lemma_ldigit_end(s: Seq<u8>, i: int)
    requires
        0 <= i <= s.len(),
    ensures
        i <= ldigit_end(s, i) <= s.len(),
        forall|t: int| i <= t < ldigit_end(s, i) ==> (is_lower_byte(s[t]) || is_digit_byte(s[t])),
        ldigit_end(s, i) < s.len() ==> !(is_lower_byte(s[ldigit_end(s, i)]) || is_digit_byte(
            s[ldigit_end(s, i)],
        )),
    decreases s.len() - i,
{
    if 0 <= i < s.len() && (is_lower_byte(s[i]) || is_digit_byte(s[i])) {
        lemma_ldigit_end(s, i + 1);
    }
}

/// A snake-case segment begins at `a`.
pub open spec fn snake_at(s: Seq<u8>, a: int) -> bool {
    &&& 0 <= a < s.len()
    &&& (a == 0 || !is_word_byte(s[a - 1]))
    &&& is_lower_byte(s[a])
    &&& {
        let b = lower_end(s, a);
        &&& b < s.len()
        &&& s[b] == UNDERSCORE
        &&& b + 1 < s.len()
        &&& is_lower_byte(s[b + 1])
        &&& {
            let c = ldigit_end(s, b + 2);
            c == s.len() || !is_word_byte(s[c])
        }
    }
}

pub open spec fn has_snake(s: Seq<u8>) -> bool {
    exists|a: int| snake_at(s, a)
}

fn word_byte(b: u8) -> (r: bool)
    ensures
        r == is_word_byte(b),
{
    (97 <= b && b <= 122) || (65 <= b && b <= 90) || (48 <= b && b <= 57) || b == UNDERSCORE
}

fn lower_byte(b: u8) -> (r: bool)
    ensures
        r == is_lower_byte(b),
{
    97 <= b && b <= 122
}

fn ldigit_byte(b: u8) -> (r: bool)
    ensures
        r == (is_lower_byte(b) || is_digit_byte(b)),
{
    (97 <= b && b <= 122) || (48 <= b && b <= 57)
}

fn lower_end_exec(s: &Vec<u8>, i: usize) -> (r: usize)
    requires
        i <= s@.len(),
    ensures
        r == lower_end(s@, i as int),
        i <= r <= s@.len(),
{
    proof {
        assert(s@.len() <= usize::MAX) by {
            assert(s.len() == s@.len());
        }
    }
    let mut j: usize = i;
    while j < s.len() && lower_byte(s[j])
        invariant
            i <= j <= s@.len(),
            s@.len() <= usize::MAX,
            lower_end(s@, i as int) == lower_end(s@, j as int),
        decreases s@.len() - j,
    {
        j += 1;
    }
    proof {
        lemma_lower_end(s@, j as int);
    }
    j
}

fn ldigit_end_exec(s: &Vec<u8>, i: usize) -> (r: usize)
    requires
        i <= s@.len(),
    ensures
        r == ldigit_end(s@, i as int),
        i <= r <= s@.len(),
{
    proof {
        assert(s@.len() <= usize::MAX) by {
            assert(s.len() == s@.len());
        }
    }
    let mut j: usize = i;
    while j < s.len() && ldigit_byte(s[j])
        invariant
            i <= j <= s@.len(),
            s@.len() <= usize::MAX,
            ldigit_end(s@, i as int) == ldigit_end(s@, j as int),
        decreases s@.len() - j,
    {
        j += 1;
    }
    proof {
        lemma_ldigit_end(s@, j as int);
    }
    j
}

/// Whether a snake-case segment begins at `a`.
fn snake_at_exec(s: &Vec<u8>, a: usize) -> (r: bool)
    requires
        a < s@.len(),
    ensures
        r == snake_at(s@, a as int),
{
    if !(a == 0 || !word_byte(s[a - 1])) {
        return false;
    }
    if !lower_byte(s[a]) {
        return false;
    }
    let b = lower_end_exec(s, a);
    if !(b < s.len() && s[b] == UNDERSCORE) {
        return false;
    }
    if !(b + 1 < s.len() && lower_byte(s[b + 1])) {
        return false;
    }
    let c = ldigit_end_exec(s, b + 2);
    c == s.len() || !word_byte(s[c])
}

/// Whether the snake-case pattern occurs anywhere in `s`.
pub fn has_snake_exec(s: &Vec<u8>) -> (r: bool)
    ensures
        r == has_snake(s@),
{
    let mut a: usize = 0;
    while a < s.len()
        invariant
            a <= s@.len(),
            forall|t: int| 0 <= t < a ==> !snake_at(s@, t),
        decreases s@.len() - a,
    {
        if snake_at_exec(s, a) {
            return true;
        }
        a += 1;
    }
    proof {
        assert forall|t: int| !snake_at(s@, t) by {
            if 0 <= t < s@.len() {
            }
        }
    }
    false
}

/// Position of the first snake-case segment at or after `i`, or -1.
pub open spec fn first_snake(s: Seq<u8>, i: int) -> int
    decreases s.len() - i,
{
    if i < 0 || i >= s.len() {
        -1
    } else if snake_at(s, i) {
        i
    } else {
        first_snake(s, i + 1)
    }
}

pub proof fn lemma_first_snake(s: Seq<u8>, i: int)
    requires
        0 <= i,
    ensures
        first_snake(s, i) == -1 ==> forall|t: int| i <= t < s.len() ==> !snake_at(s, t),
        first_snake(s, i) != -1 ==> i <= first_snake(s, i) < s.len() && snake_at(
            s,
            first_snake(s, i),
        ) && forall|t: int| i <= t < first_snake(s, i) ==> !snake_at(s, t),
    decreases s.len() - i,
{
    if i < s.len() && !snake_at(s, i) {
        lemma_first_snake(s, i + 1);
    }
}

pub open spec fn upper_of(b: u8) -> u8 {
    (b - 32) as u8
}

/// `s` from position `i` on, with every snake-case segment rewritten to
/// camel case: the underscore removed and the following letter raised.
pub open spec fn camel_fix_from(s: Seq<u8>, i: int) -> Seq<u8>
    decreases s.len() - i,
    when 0 <= i <= s.len()
    via camel_fix_dec
{
    let a = first_snake(s, i);
    if a < 0 {
        s.subrange(i, s.len() as int)
    } else {
        let b = lower_end(s, a);
        let c = ldigit_end(s, b + 2);
        s.subrange(i, a) + s.subrange(a, b) + seq![upper_of(s[b + 1])] + s.subrange(b + 2, c)
            + camel_fix_from(s, c)
    }
}

#[via_fn]
proof fn camel_fix_dec(s: Seq<u8>, i: int) {
    let a = first_snake(s, i);
    if a >= 0 {
        lemma_first_snake(s, i);
        lemma_lower_end(s, a);
        lemma_ldigit_end(s, lower_end(s, a) + 2);
    }
}

/// The whole of `s` with snake-case segments rewritten to camel case.
pub open spec fn camel_fix(s: Seq<u8>) -> Seq<u8> {
    camel_fix_from(s, 0)
}

fn first_snake_exec(s: &Vec<u8>, i: usize) -> (r: Option<usize>)
    requires
        i <= s@.len(),
    ensures
        match r {
            Some(a) => first_snake(s@, i as int) == a as int && i <= a < s@.len(),
            None => first_snake(s@, i as int) == -1,
        },
{
    proof {
        assert(s@.len() <= usize::MAX) by {
            assert(s.len() == s@.len());
        }
    }
    let mut j: usize = i;
    while j < s.len()
        invariant
            i <= j,
            j <= s@.len(),
            s@.len() <= usize::MAX,
            first_snake(s@, i as int) == first_snake(s@, j as int),
        decreases s@.len() - j,
    {
        if snake_at_exec(s, j) {
            return Some(j);
        }
        j += 1;
    }
    None
}

/// Rewrite every snake-case identifier segment of a line to camel case.
pub fn fix_camel_case(line: &Vec<u8>) -> (r: Vec<u8>)
    ensures
        r@ == camel_fix(line@),
{
    proof {
        assert(line@.len() <= usize::MAX) by {
            assert(line.len() == line@.len());
        }
    }
    let mut out: Vec<u8> = Vec::new();
    let mut i: usize = 0;
    proof {
        assert(out@ + camel_fix_from(line@, 0) =~= camel_fix_from(line@, 0));
    }
    while i < line.len()
        invariant
            i <= line@.len(),
            line@.len() <= usize::MAX,
            camel_fix(line@) == out@ + camel_fix_from(line@, i as int),
        decreases line@.len() - i,
    {
        match first_snake_exec(line, i) {
            Some(a) => {
                proof {
                    lemma_first_snake(line@, i as int);
                    lemma_lower_end(line@, a as int);
                    lemma_ldigit_end(line@, lower_end(line@, a as int) + 2);
                }
                let b = lower_end_exec(line, a);
                let c = ldigit_end_exec(line, b + 2);
                let ghost pre = out@;
                let piece1 = subvec(line, i, a);
                append_bytes(&mut out, &piece1);
                let piece2 = subvec(line, a, b);
                append_bytes(&mut out, &piece2);
                out.push(line[b + 1] - 32);
                let piece3 = subvec(line, b + 2, c);
                append_bytes(&mut out, &piece3);
                proof {
                    assert(is_lower_byte(line@[b + 1]));
                    assert(out@ =~= pre + (line@.subrange(i as int, a as int) + line@.subrange(
                        a as int,
                        b as int,
                    ) + seq![upper_of(line@[b + 1])] + line@.subrange(b + 2, c as int)));
                    assert(camel_fix(line@) == out@ + camel_fix_from(line@, c as int)) by {
                        assert(pre + camel_fix_from(line@, i as int) =~= out@ + camel_fix_from(
                            line@,
                            c as int,
                        ));
                    }
                }
                i = c;
            },
            None => {
                let rest = subvec(line, i, line.len());
                append_bytes(&mut out, &rest);
                proof {
                    assert(out@ =~= camel_fix(line@));
                }
                return out;
            },
        }
    }
    proof {
        assert(line@.subrange(i as int, line@.len() as int) =~= Seq::<u8>::empty());
        assert(out@ =~= camel_fix(line@));
    }
    out
}

proof fn lemma_lower_end_is(s: Seq<u8>, i: int, e: int)
    requires
        0 <= i <= e <= s.len(),
        forall|t: int| i <= t < e ==> is_lower_byte(s[t]),
        e == s.len() || !is_lower_byte(s[e]),
    ensures
        lower_end(s, i) == e,
    decreases e - i,
{
    if i < e {
        lemma_lower_end_is(s, i + 1, e);
    }
}

proof fn lemma_ldigit_end_is(s: Seq<u8>, i: int, e: int)
    requires
        0 <= i <= e <= s.len(),
        forall|t: int| i <= t < e ==> is_lower_byte(s[t]) || is_digit_byte(s[t]),
        e == s.len() || !(is_lower_byte(s[e]) || is_digit_byte(s[e])),
    ensures
        ldigit_end(s, i) == e,
    decreases e - i,
{
    if i < e {
        lemma_ldigit_end_is(s, i + 1, e);
    }
}

/// The rewritten suffix starts with the source byte it starts from.
proof fn lemma_camel_first_byte(s: Seq<u8>, i: int)
    requires
        0 <= i < s.len(),
    ensures
        camel_fix_from(s, i).len() > 0,
        camel_fix_from(s, i)[0] == s[i],
{
    lemma_first_snake(s, i);
    let a = first_snake(s, i);
    if a >= 0 {
        lemma_lower_end(s, a);
        lemma_ldigit_end(s, lower_end(s, a) + 2);
        if a == i {
            assert(lower_end(s, a) > a) by {
                lemma_lower_end(s, a);
            }
        }
    }
}

/// No byte of a snake-case segment is outside the word class, and none is
/// uppercase.
proof fn lemma_snake_bytes(s: Seq<u8>, a: int)
    requires
        snake_at(s, a),
    ensures
        ({
            let c = ldigit_end(s, lower_end(s, a) + 2);
            forall|t: int| a <= t < c ==> is_word_byte(#[trigger] s[t]) && !is_upper_byte(s[t])
        }),
{
    let b = lower_end(s, a);
    let c = ldigit_end(s, b + 2);
    lemma_lower_end(s, a);
    lemma_ldigit_end(s, b + 2);
}

/// Law (fix idempotence, camel casing): the snake-case pattern does not
/// occur anywhere in a line the camel fix has rewritten.
#[verifier::rlimit(100)]
pub proof fn lemma_camel_fix_idempotent(s: Seq<u8>, i: int)
    requires
        0 <= i <= s.len(),
        i == 0 || i == s.len() || !is_lower_byte(s[i]),
    ensures
        forall|q: int| !snake_at(#[trigger] camel_fix_from(s, i), q),
    decreases s.len() - i,
{
    lemma_first_snake(s, i);
    let r = camel_fix_from(s, i);
    let a = first_snake(s, i);
    if a < 0 {
        assert forall|q: int| !snake_at(r, q) by {
            if snake_at(r, q) {
                let b_r = lower_end(r, q);
                let c_r = ldigit_end(r, b_r + 2);
                lemma_lower_end(r, q);
                lemma_ldigit_end(r, b_r + 2);
                // the same pattern would stand in the source at i + q
                assert forall|t: int| 0 <= t < r.len() implies #[trigger] r[t] == s[i + t] by {
                    assert(r[t] == s.subrange(i, s.len() as int)[t]);
                }
                if q == 0 && i > 0 && i < s.len() {
                    assert(is_lower_byte(r[0]));
                    assert(r[0] == s[i + 0]);
                    assert(false);
                }
                assert(snake_at(s, i + q)) by {
                    assert forall|t2: int|
                        i + q <= t2 < i + b_r implies is_lower_byte(#[trigger] s[t2]) by {
                        assert(r[t2 - i] == s[i + (t2 - i)]);
                    }
                    assert(s[i + b_r] == r[b_r]);
                    lemma_lower_end_is(s, i + q, i + b_r);
                    assert forall|t2: int|
                        i + b_r + 2 <= t2 < i + c_r implies is_lower_byte(#[trigger] s[t2])
                        || is_digit_byte(s[t2]) by {
                        assert(r[t2 - i] == s[i + (t2 - i)]);
                    }
                    if c_r < r.len() {
                        assert(s[i + c_r] == r[c_r]);
                    }
                    lemma_ldigit_end_is(s, i + b_r + 2, i + c_r);
                    assert(s[i + b_r + 1] == r[b_r + 1]);
                    if q > 0 {
                        assert(r[q - 1] == s[i + (q - 1)]);
                    }
                }
                assert(false);
            }
        }
    } else {
        let b = lower_end(s, a);
        let c = ldigit_end(s, b + 2);
        lemma_lower_end(s, a);
        lemma_ldigit_end(s, b + 2);
        lemma_snake_bytes(s, a);
        assert(c == s.len() || !is_word_byte(s[c]));
        lemma_camel_fix_idempotent(s, c);
        let rec = camel_fix_from(s, c);
        let b0 = a - i;  // relative start of the kept lowercase run
        let b1 = b0 + (b - a);  // relative position of the raised letter
        let b2 = b1 + 1;  // relative start of the kept tail run
        let b3 = b2 + (c - (b + 2));  // relative start of the rewritten rest
        assert(r == s.subrange(i, a) + s.subrange(a, b) + seq![upper_of(s[b + 1])] + s.subrange(
            b + 2,
            c,
        ) + rec);
        assert forall|t: int| 0 <= t < r.len() implies #[trigger] r[t] == (if t < b1 {
            s[i + t]
        } else if t == b1 {
            upper_of(s[b + 1])
        } else if t < b3 {
            s[b + 2 + (t - b2)]
        } else {
            rec[t - b3]
        }) by {}
        assert(is_upper_byte(upper_of(s[b + 1]))) by {
            assert(is_lower_byte(s[b + 1]));
        }
        assert forall|q: int| !snake_at(r, q) by {
            if snake_at(r, q) {
                let b_r = lower_end(r, q);
                let c_r = ldigit_end(r, b_r + 2);
                lemma_lower_end(r, q);
                lemma_ldigit_end(r, b_r + 2);
                // every byte of the pattern is a non-uppercase word byte,
                // so the raised letter is not inside it
                assert(!(q <= b1 < c_r)) by {
                    if q <= b1 < b_r {
                        assert(is_lower_byte(r[b1]));
                    } else if b1 == b_r {
                        assert(r[b_r] == UNDERSCORE);
                    } else if b_r < b1 < c_r {
                        assert(is_lower_byte(r[b1]) || is_digit_byte(r[b1]) || r[b1]
                            == UNDERSCORE || b1 == b_r + 1);
                        assert(is_word_byte(r[b1]) && !is_upper_byte(r[b1]));
                    }
                }
                if c_r <= b1 {
                    // wholly inside the unchanged front: the pattern stood
                    // in the source before the first rewrite, against
                    // minimality
                    if q == 0 && i > 0 {
                        assert(is_lower_byte(r[0]));
                        assert(r[0] == s[i + 0]);
                        assert(false);
                    }
                    // the run cannot stop exactly at the raised letter: that
                    // letter is a word byte and no valid right boundary
                    assert(c_r != b1) by {
                        if c_r == b1 {
                            assert(r[c_r] == upper_of(s[b + 1]));
                        }
                    }
                    assert(snake_at(s, i + q)) by {
                        assert forall|t2: int|
                            i + q <= t2 < i + b_r implies is_lower_byte(#[trigger] s[t2]) by {
                            assert(r[t2 - i] == s[i + (t2 - i)]);
                        }
                        assert(s[i + b_r] == r[b_r]);
                        lemma_lower_end_is(s, i + q, i + b_r);
                        assert forall|t2: int|
                            i + b_r + 2 <= t2 < i + c_r implies is_lower_byte(#[trigger] s[t2])
                            || is_digit_byte(s[t2]) by {
                            assert(r[t2 - i] == s[i + (t2 - i)]);
                        }
                        assert(s[i + c_r] == r[c_r]);
                        lemma_ldigit_end_is(s, i + b_r + 2, i + c_r);
                        assert(s[i + b_r + 1] == r[b_r + 1]);
                        if q > 0 {
                            assert(r[q - 1] == s[i + (q - 1)]);
                        }
                    }
                    assert(i + q < a);
                    assert(false);
                } else {
                    // wholly inside the rewritten rest
                    assert(q > b1);
                    if q < b3 {
                        // starts in the kept tail run: the underscore lies
                        // beyond it, and the rest's first byte is not a
                        // word byte
                        assert(forall|t: int| b2 <= t < b3 ==> #[trigger] r[t] != UNDERSCORE)
                            by {
                            assert forall|t: int| b2 <= t < b3 implies #[trigger] r[t]
                                != UNDERSCORE by {
                                assert(is_lower_byte(r[t]) || is_digit_byte(r[t]));
                            }
                        }
                        assert(b_r >= b3);
                        // the pattern covers position b3, whose byte is not
                        // a word byte
                        assert(c < s.len());
                        lemma_camel_first_byte(s, c);
                        assert(r[b3] == s[c]);
                        assert(q <= b3 <= b_r < c_r);
                        assert(is_word_byte(r[b3])) by {
                            if b3 < b_r {
                                assert(is_lower_byte(r[b3]));
                            } else if b3 == b_r {
                                assert(r[b3] == UNDERSCORE);
                            } else {
                                assert(is_lower_byte(r[b3]) || is_digit_byte(r[b3]) || b3 == b_r
                                    + 1);
                            }
                        }
                        assert(false);
                    } else {
                        // a pattern inside the rewritten rest, against the
                        // recursive claim
                        let q2 = q - b3;
                        assert(snake_at(rec, q2)) by {
                            assert(r.len() == b3 + rec.len());
                            assert forall|t: int| b3 <= t < r.len() implies #[trigger] r[t]
                                == rec[t - b3] by {}
                            if q2 == 0 {
                                assert(c < s.len());
                                lemma_camel_first_byte(s, c);
                                assert(r[b3] == rec[0]);
                                assert(rec[0] == s[c]);
                                assert(is_lower_byte(r[q]));
                                assert(!is_word_byte(s[c]));
                                assert(false);
                            }
                            assert forall|t2: int|
                                q2 <= t2 < b_r - b3 implies is_lower_byte(#[trigger] rec[t2]) by {
                                assert(r[b3 + t2] == rec[(b3 + t2) - b3]);
                            }
                            assert(rec[b_r - b3] == r[b_r]);
                            lemma_lower_end_is(rec, q2, b_r - b3);
                            assert forall|t2: int|
                                b_r - b3 + 2 <= t2 < c_r - b3 implies is_lower_byte(
                                #[trigger] rec[t2],
                            ) || is_digit_byte(rec[t2]) by {
                                assert(r[b3 + t2] == rec[(b3 + t2) - b3]);
                            }
                            if c_r < r.len() {
                                assert(rec[c_r - b3] == r[c_r]);
                            }
                            lemma_ldigit_end_is(rec, b_r - b3 + 2, c_r - b3);
                            assert(rec[b_r - b3 + 1] == r[b_r + 1]);
                            if q2 > 0 {
                                assert(rec[q2 - 1] == r[q - 1]);
                            }
                        }
                        assert(false);
                    }
                }
            }
        }
    }
}

/// Law (fix idempotence, camel casing): the snake-case check finds nothing
/// in a line the camel fix has rewritten.
pub proof fn lemma_camel_fix_detection_clean(l: Seq<u8>)
    ensures
        !has_snake(camel_fix(l)),
{
    lemma_camel_fix_idempotent(l, 0);
    if has_snake(camel_fix(l)) {
        let a = choose|a: int| snake_at(camel_fix(l), a);
        assert(false);
    }
}

// ---------------------------------------------------------------------------
// Naming-convention findings.
// ---------------------------------------------------------------------------

/// The finding an identifier node contributes: snake-cased names longer
/// than two bytes that are not exported get an Info finding.
pub open spec fn naming_issue_at(f: GoFile, path: Seq<u8>, j: int, is_func: bool) -> Option<
    IssueModel,
> {
    let name = node_text(f, j);
    if name.len() > 0 && is_upper_byte(name[0]) {
        None
    } else if name.len() <= 2 {
        None
    } else if has_snake(name) {
        Some(
            IssueModel {
                file_path: path,
                line: line_at(f.content@, f.nodes@[j].start as int),
                column: column_at(f.content@, f.nodes@[j].start as int),
                issue_type: IssueType::Style,
                severity: Severity::Info,
                message: (if is_func {
                    "function name should be camelCase: ".spec_bytes()
                } else {
                    "variable name should be camelCase: ".spec_bytes()
                }) + name,
                code: name,
                fix_available: true,
            },
        )
    } else {
        None
    }
}

pub open spec fn opt_to_seq(o: Option<IssueModel>) -> Seq<IssueModel> {
    match o {
        Some(x) => seq![x],
        None => Seq::empty(),
    }
}

/// Naming findings of the identifier children of a name-list node.
pub open spec fn child_naming_findings(f: GoFile, path: Seq<u8>, kids: Seq<usize>) -> Seq<
    IssueModel,
>
    decreases kids.len(),
{
    if kids.len() == 0 {
        Seq::empty()
    } else {
        let c = kids.last() as int;
        child_naming_findings(f, path, kids.drop_last()) + (if f.nodes@[c].kind
            == NodeKind::Identifier {
            opt_to_seq(naming_issue_at(f, path, c, false))
        } else {
            Seq::empty()
        })
    }
}

pub open spec fn var_naming_adds(f: GoFile, path: Seq<u8>, i: int) -> Seq<IssueModel> {
    let n = f.nodes@[i];
    let under_var_decl = match n.parent {
        Some(p) => f.nodes@[p as int].kind == NodeKind::VarDeclaration,
        None => false,
    };
    if under_var_decl {
        match n.f_name {
            Some(nm) => child_naming_findings(f, path, f.nodes@[nm as int].children@),
            None => Seq::empty(),
        }
    } else {
        Seq::empty()
    }
}

pub open spec fn short_var_naming_adds(f: GoFile, path: Seq<u8>, i: int) -> Seq<IssueModel> {
    match f.nodes@[i].f_left {
        Some(l) => child_naming_findings(f, path, f.nodes@[l as int].children@),
        None => Seq::empty(),
    }
}

pub open spec fn var_naming_upto(f: GoFile, path: Seq<u8>, t: int) -> Seq<IssueModel>
    decreases t,
{
    if t <= 0 {
        Seq::empty()
    } else {
        var_naming_upto(f, path, t - 1) + var_naming_adds(
            f,
            path,
            kind_indices(f.nodes@, NodeKind::VarSpec)[t - 1] as int,
        )
    }
}

pub open spec fn short_var_naming_upto(f: GoFile, path: Seq<u8>, t: int) -> Seq<IssueModel>
    decreases t,
{
    if t <= 0 {
        Seq::empty()
    } else {
        short_var_naming_upto(f, path, t - 1) + short_var_naming_adds(
            f,
            path,
            kind_indices(f.nodes@, NodeKind::ShortVarDeclaration)[t - 1] as int,
        )
    }
}

pub open spec fn func_naming_upto(f: GoFile, path: Seq<u8>, t: int) -> Seq<IssueModel>
    decreases t,
{
    if t <= 0 {
        Seq::empty()
    } else {
        let i = kind_indices(f.nodes@, NodeKind::FunctionDeclaration)[t - 1] as int;
        func_naming_upto(f, path, t - 1) + (match f.nodes@[i].f_name {
            Some(nm) => opt_to_seq(naming_issue_at(f, path, nm as int, true)),
            None => Seq::empty(),
        })
    }
}

/// All naming-convention findings: variable names first, then functions.
pub open spec fn naming_findings(f: GoFile, path: Seq<u8>) -> Seq<IssueModel> {
    var_naming_upto(f, path, kind_indices(f.nodes@, NodeKind::VarSpec).len() as int)
        + short_var_naming_upto(
        f,
        path,
        kind_indices(f.nodes@, NodeKind::ShortVarDeclaration).len() as int,
    ) + func_naming_upto(f, path, kind_indices(f.nodes@, NodeKind::FunctionDeclaration).len() as int)
}

/// Append the naming finding of one identifier node, if any.
fn push_naming_issue(ast: &GoFile, j: usize, is_func: bool, issues: &mut Vec<Issue>)
    requires
        ast.wf(),
        j < ast.nodes@.len(),
    ensures
        final(issues).deep_view() == old(issues).deep_view() + opt_to_seq(
            naming_issue_at(*ast, ast.path@, j as int, is_func),
        ),
{
    let name = node_snippet(ast, j);
    let skip_upper = name.len() > 0 && {
        let b = name[0];
        65 <= b && b <= 90
    };
    if skip_upper || name.len() <= 2 {
        proof {
            assert(issues.deep_view() =~= old(issues).deep_view() + opt_to_seq(
                naming_issue_at(*ast, ast.path@, j as int, is_func),
            ));
        }
        return ;
    }
    if has_snake_exec(&name) {
        let pos = ast.get_position(ast.nodes[j].start);
        let mut msg = if is_func {
            lit_bytes("function name should be camelCase: ")
        } else {
            lit_bytes("variable name should be camelCase: ")
        };
        append_bytes(&mut msg, &name);
        let ghost pre = issues.deep_view();
        issues.push(
            Issue {
                file_path: ast.path.clone(),
                line: pos.0,
                column: pos.1,
                issue_type: IssueType::Style,
                severity: Severity::Info,
                message: msg,
                code: name,
                fix_available: true,
            },
        );
        proof {
            assert(issues.deep_view() =~= pre + opt_to_seq(
                naming_issue_at(*ast, ast.path@, j as int, is_func),
            ));
        }
    } else {
        proof {
            assert(issues.deep_view() =~= old(issues).deep_view() + opt_to_seq(
                naming_issue_at(*ast, ast.path@, j as int, is_func),
            ));
        }
    }
}

/// Append the naming findings of the identifier children of node `nm`.
fn push_child_naming(ast: &GoFile, nm: usize, issues: &mut Vec<Issue>)
    requires
        ast.wf(),
        nm < ast.nodes@.len(),
    ensures
        final(issues).deep_view() == old(issues).deep_view() + child_naming_findings(
            *ast,
            ast.path@,
            ast.nodes@[nm as int].children@,
        ),
{
    proof {
        assert(node_wf(ast.nodes@, ast.content@.len() as int, nm as int));
    }
    let ghost kids = ast.nodes@[nm as int].children@;
    proof {
        assert(kids.take(0) =~= Seq::<usize>::empty());
        assert(issues.deep_view() + Seq::<IssueModel>::empty() =~= issues.deep_view());
    }
    let mut ci: usize = 0;
    while ci < ast.nodes[nm].children.len()
        invariant
            ast.wf(),
            nm < ast.nodes@.len(),
            kids == ast.nodes@[nm as int].children@,
            ci <= kids.len(),
            forall|u: int| 0 <= u < kids.len() ==> #[trigger] kids[u] < ast.nodes@.len(),
            issues.deep_view() == old(issues).deep_view() + child_naming_findings(
                *ast,
                ast.path@,
                kids.take(ci as int),
            ),
        decreases kids.len() - ci,
    {
        let c = ast.nodes[nm].children[ci];
        proof {
            assert(kids.take(ci + 1).drop_last() =~= kids.take(ci as int));
            assert(kids.take(ci + 1).last() == kids[ci as int]);
        }
        let ghost pre = issues.deep_view();
        if ast.nodes[c].kind == NodeKind::Identifier {
            push_naming_issue(ast, c, false, issues);
        }
        proof {
            assert(issues.deep_view() =~= old(issues).deep_view() + child_naming_findings(
                *ast,
                ast.path@,
                kids.take(ci + 1),
            ));
        }
        ci += 1;
    }
    proof {
        assert(kids.take(kids.len() as int) =~= kids);
    }
}

fn check_naming_conventions(ast: &GoFile, issues: &mut Vec<Issue>)
    requires
        ast.wf(),
    ensures
        final(issues).deep_view() == old(issues).deep_view() + naming_findings(*ast, ast.path@),
{
    let var_specs = ast.find_nodes(NodeKind::VarSpec);
    let shorts = ast.find_nodes(NodeKind::ShortVarDeclaration);
    let funcs = ast.find_nodes(NodeKind::FunctionDeclaration);
    proof {
        assert(ast.nodes@.len() <= usize::MAX) by {
            assert(ast.nodes.len() == ast.nodes@.len());
        }
        lemma_kind_indices(ast.nodes@, NodeKind::VarSpec);
        lemma_kind_indices(ast.nodes@, NodeKind::ShortVarDeclaration);
        lemma_kind_indices(ast.nodes@, NodeKind::FunctionDeclaration);
        assert(issues.deep_view() + Seq::<IssueModel>::empty() =~= issues.deep_view());
    }
    let mut t: usize = 0;
    while t < var_specs.len()
        invariant
            ast.wf(),
            t <= var_specs@.len(),
            var_specs@ == kind_indices(ast.nodes@, NodeKind::VarSpec),
            forall|u: int| 0 <= u < var_specs@.len() ==> #[trigger] var_specs@[u] < ast.nodes@.len(),
            issues.deep_view() == old(issues).deep_view() + var_naming_upto(
                *ast,
                ast.path@,
                t as int,
            ),
        decreases var_specs@.len() - t,
    {
        let i = var_specs[t];
        proof {
            assert(node_wf(ast.nodes@, ast.content@.len() as int, i as int));
        }
        let n = &ast.nodes[i];
        let under_var_decl: bool = match n.parent {
            Some(p) => ast.nodes[p].kind == NodeKind::VarDeclaration,
            None => false,
        };
        let ghost pre = issues.deep_view();
        if under_var_decl {
            match n.f_name {
                Some(nm) => {
                    push_child_naming(ast, nm, issues);
                },
                None => {},
            }
        }
        proof {
            assert(issues.deep_view() =~= old(issues).deep_view() + var_naming_upto(
                *ast,
                ast.path@,
                t + 1,
            ));
        }
        t += 1;
    }
    let ghost after_vars = issues.deep_view();
    let mut t1: usize = 0;
    while t1 < shorts.len()
        invariant
            ast.wf(),
            t1 <= shorts@.len(),
            shorts@ == kind_indices(ast.nodes@, NodeKind::ShortVarDeclaration),
            forall|u: int| 0 <= u < shorts@.len() ==> #[trigger] shorts@[u] < ast.nodes@.len(),
            after_vars == old(issues).deep_view() + var_naming_upto(
                *ast,
                ast.path@,
                kind_indices(ast.nodes@, NodeKind::VarSpec).len() as int,
            ),
            issues.deep_view() == after_vars + short_var_naming_upto(*ast, ast.path@, t1 as int),
        decreases shorts@.len() - t1,
    {
        let i = shorts[t1];
        proof {
            assert(node_wf(ast.nodes@, ast.content@.len() as int, i as int));
        }
        let n = &ast.nodes[i];
        match n.f_left {
            Some(l) => {
                push_child_naming(ast, l, issues);
            },
            None => {},
        }
        proof {
            assert(issues.deep_view() =~= after_vars + short_var_naming_upto(
                *ast,
                ast.path@,
                t1 + 1,
            ));
        }
        t1 += 1;
    }
    let ghost after_shorts = issues.deep_view();
    let mut t2: usize = 0;
    while t2 < funcs.len()
        invariant
            ast.wf(),
            t2 <= funcs@.len(),
            funcs@ == kind_indices(ast.nodes@, NodeKind::FunctionDeclaration),
            forall|u: int| 0 <= u < funcs@.len() ==> #[trigger] funcs@[u] < ast.nodes@.len(),
            after_shorts == old(issues).deep_view() + var_naming_upto(
                *ast,
                ast.path@,
                kind_indices(ast.nodes@, NodeKind::VarSpec).len() as int,
            ) + short_var_naming_upto(
                *ast,
                ast.path@,
                kind_indices(ast.nodes@, NodeKind::ShortVarDeclaration).len() as int,
            ),
            issues.deep_view() == after_shorts + func_naming_upto(*ast, ast.path@, t2 as int),
        decreases funcs@.len() - t2,
    {
        let i = funcs[t2];
        proof {
            assert(node_wf(ast.nodes@, ast.content@.len() as int, i as int));
        }
        let n = &ast.nodes[i];
        match n.f_name {
            Some(nm) => {
                push_naming_issue(ast, nm, true, issues);
            },
            None => {},
        }
        proof {
            assert(issues.deep_view() =~= after_shorts + func_naming_upto(
                *ast,
                ast.path@,
                t2 + 1,
            ));
        }
        t2 += 1;
    }
    proof {
        assert(issues.deep_view() =~= old(issues).deep_view() + naming_findings(*ast, ast.path@));
    }
}

// ---------------------------------------------------------------------------
// Control-statement spacing, brace style, indentation.
// ---------------------------------------------------------------------------

/// The text of a 1-based line of the content; empty when out of range.
pub open spec fn line_text_at(content: Seq<u8>, line: int) -> Seq<u8> {
    let ls = split_lines_spec(content);
    if 1 <= line <= ls.len() {
        ls[line - 1]
    } else {
        Seq::empty()
    }
}

#[derive(Clone, Copy, PartialEq, Eq, Structural, Debug)]
pub enum SpacingKw {
    IfKw,
    ForKw,
    SwitchKw,
}

pub open spec fn kw_node_kind(k: SpacingKw) -> NodeKind {
    match k {
        SpacingKw::IfKw => NodeKind::IfStatement,
        SpacingKw::ForKw => NodeKind::ForStatement,
        SpacingKw::SwitchKw => NodeKind::SwitchStatement,
    }
}

pub open spec fn kw_pattern(k: SpacingKw) -> Seq<u8> {
    match k {
        SpacingKw::IfKw => "if(".spec_bytes(),
        SpacingKw::ForKw => "for(".spec_bytes(),
        SpacingKw::SwitchKw => "switch(".spec_bytes(),
    }
}

pub open spec fn kw_message(k: SpacingKw) -> Seq<u8> {
    match k {
        SpacingKw::IfKw => "missing space after control statement: if".spec_bytes(),
        SpacingKw::ForKw => "missing space after control statement: for".spec_bytes(),
        SpacingKw::SwitchKw => "missing space after control statement: switch".spec_bytes(),
    }
}

/// The finding one control-statement node contributes: its line must not
/// hold the keyword glued to an opening parenthesis.
pub open spec fn spacing_issue_at(f: GoFile, path: Seq<u8>, i: int, k: SpacingKw) -> Seq<
    IssueModel,
> {
    let n = f.nodes@[i];
    let line = line_at(f.content@, n.start as int);
    let lc = line_text_at(f.content@, line);
    if crate::text::has_sub(lc, kw_pattern(k)) {
        seq![
            IssueModel {
                file_path: path,
                line,
                column: column_at(f.content@, n.start as int),
                issue_type: IssueType::Style,
                severity: Severity::Info,
                message: kw_message(k),
                code: lc,
                fix_available: true,
            },
        ]
    } else {
        Seq::empty()
    }
}

pub open spec fn spacing_upto(f: GoFile, path: Seq<u8>, k: SpacingKw, t: int) -> Seq<IssueModel>
    decreases t,
{
    if t <= 0 {
        Seq::empty()
    } else {
        spacing_upto(f, path, k, t - 1) + spacing_issue_at(
            f,
            path,
            kind_indices(f.nodes@, kw_node_kind(k))[t - 1] as int,
            k,
        )
    }
}

pub open spec fn spacing_all(f: GoFile, path: Seq<u8>, k: SpacingKw) -> Seq<IssueModel> {
    spacing_upto(f, path, k, kind_indices(f.nodes@, kw_node_kind(k)).len() as int)
}

/// All control-statement spacing findings: if, for, then switch.
pub open spec fn spacing_findings(f: GoFile, path: Seq<u8>) -> Seq<IssueModel> {
    spacing_all(f, path, SpacingKw::IfKw) + spacing_all(f, path, SpacingKw::ForKw) + spacing_all(
        f,
        path,
        SpacingKw::SwitchKw,
    )
}

fn kw_node_kind_exec(k: SpacingKw) -> (r: NodeKind)
    ensures
        r == kw_node_kind(k),
{
    match k {
        SpacingKw::IfKw => NodeKind::IfStatement,
        SpacingKw::ForKw => NodeKind::ForStatement,
        SpacingKw::SwitchKw => NodeKind::SwitchStatement,
    }
}

fn kw_pattern_exec(k: SpacingKw) -> (r: Vec<u8>)
    ensures
        r@ == kw_pattern(k),
{
    match k {
        SpacingKw::IfKw => lit_bytes("if("),
        SpacingKw::ForKw => lit_bytes("for("),
        SpacingKw::SwitchKw => lit_bytes("switch("),
    }
}

fn kw_message_exec(k: SpacingKw) -> (r: Vec<u8>)
    ensures
        r@ == kw_message(k),
{
    match k {
        SpacingKw::IfKw => lit_bytes("missing space after control statement: if"),
        SpacingKw::ForKw => lit_bytes("missing space after control statement: for"),
        SpacingKw::SwitchKw => lit_bytes("missing space after control statement: switch"),
    }
}

/// The text of 1-based line `line` out of the split content.
fn line_text_exec(lines: &Vec<Vec<u8>>, line: usize, Ghost(content): Ghost<Seq<u8>>) -> (r: Vec<
    u8,
>)
    requires
        lines.deep_view() == split_lines_spec(content),
    ensures
        r@ == line_text_at(content, line as int),
{
    if 1 <= line && line <= lines.len() {
        clone_bytes(&lines[line - 1])
    } else {
        Vec::new()
    }
}

fn check_spacing_kind(ast: &GoFile, k: SpacingKw, lines: &Vec<Vec<u8>>, issues: &mut Vec<Issue>)
    requires
        ast.wf(),
        lines.deep_view() == split_lines_spec(ast.content@),
    ensures
        final(issues).deep_view() == old(issues).deep_view() + spacing_all(*ast, ast.path@, k),
{
    let kind = kw_node_kind_exec(k);
    let idxs = ast.find_nodes(kind);
    let pat = kw_pattern_exec(k);
    proof {
        assert(ast.nodes@.len() <= usize::MAX) by {
            assert(ast.nodes.len() == ast.nodes@.len());
        }
        lemma_kind_indices(ast.nodes@, kind);
        assert(issues.deep_view() + Seq::<IssueModel>::empty() =~= issues.deep_view());
    }
    let mut t: usize = 0;
    while t < idxs.len()
        invariant
            ast.wf(),
            lines.deep_view() == split_lines_spec(ast.content@),
            t <= idxs@.len(),
            idxs@ == kind_indices(ast.nodes@, kw_node_kind(k)),
            pat@ == kw_pattern(k),
            forall|u: int| 0 <= u < idxs@.len() ==> #[trigger] idxs@[u] < ast.nodes@.len(),
            issues.deep_view() == old(issues).deep_view() + spacing_upto(
                *ast,
                ast.path@,
                k,
                t as int,
            ),
        decreases idxs@.len() - t,
    {
        let i = idxs[t];
        proof {
            assert(node_wf(ast.nodes@, ast.content@.len() as int, i as int));
        }
        let n = &ast.nodes[i];
        let pos = ast.get_position(n.start);
        let lc = line_text_exec(lines, pos.0, Ghost(ast.content@));
        let ghost pre = issues.deep_view();
        if crate::text::contains_sub(&lc, &pat) {
            let msg = kw_message_exec(k);
            issues.push(
                Issue {
                    file_path: ast.path.clone(),
                    line: pos.0,
                    column: pos.1,
                    issue_type: IssueType::Style,
                    severity: Severity::Info,
                    message: msg,
                    code: lc,
                    fix_available: true,
                },
            );
        }
        proof {
            assert(issues.deep_view() =~= pre + spacing_issue_at(*ast, ast.path@, i as int, k));
            assert(issues.deep_view() =~= old(issues).deep_view() + spacing_upto(
                *ast,
                ast.path@,
                k,
                t + 1,
            ));
        }
        t += 1;
    }
}

#[derive(Clone, Copy, PartialEq, Eq, Structural, Debug)]
pub enum BraceKind {
    FuncBrace,
    IfBrace,
    ForBrace,
}

pub open spec fn brace_node_kind(b: BraceKind) -> NodeKind {
    match b {
        BraceKind::FuncBrace => NodeKind::FunctionDeclaration,
        BraceKind::IfBrace => NodeKind::IfStatement,
        BraceKind::ForBrace => NodeKind::ForStatement,
    }
}

pub open spec fn brace_body_of(f: GoFile, i: int, b: BraceKind) -> Option<usize> {
    match b {
        BraceKind::FuncBrace => f.nodes@[i].f_body,
        BraceKind::IfBrace => f.nodes@[i].f_consequence,
        BraceKind::ForBrace => f.nodes@[i].f_body,
    }
}

pub open spec fn brace_message(b: BraceKind) -> Seq<u8> {
    match b {
        BraceKind::FuncBrace => "Opening brace should be on the same line as function declaration".spec_bytes(),
        BraceKind::IfBrace => "Opening brace should be on the same line as if statement declaration".spec_bytes(),
        BraceKind::ForBrace => "Opening brace should be on the same line as for loop declaration".spec_bytes(),
    }
}

/// The finding one declaration contributes when its opening brace sits more
/// than one line below the declaration's own line.
pub open spec fn brace_issue_at(f: GoFile, path: Seq<u8>, i: int, b: BraceKind) -> Seq<
    IssueModel,
> {
    match brace_body_of(f, i, b) {
        Some(bd) => {
            let n = f.nodes@[i];
            let node_line = line_at(f.content@, n.start as int);
            let body_line = line_at(f.content@, f.nodes@[bd as int].start as int);
            if body_line > node_line + 1 {
                seq![
                    IssueModel {
                        file_path: path,
                        line: node_line,
                        column: column_at(f.content@, n.start as int),
                        issue_type: IssueType::Style,
                        severity: Severity::Info,
                        message: brace_message(b),
                        code: line_text_at(f.content@, node_line),
                        fix_available: false,
                    },
                ]
            } else {
                Seq::empty()
            }
        },
        None => Seq::empty(),
    }
}

pub open spec fn brace_upto(f: GoFile, path: Seq<u8>, b: BraceKind, t: int) -> Seq<IssueModel>
    decreases t,
{
    if t <= 0 {
        Seq::empty()
    } else {
        brace_upto(f, path, b, t - 1) + brace_issue_at(
            f,
            path,
            kind_indices(f.nodes@, brace_node_kind(b))[t - 1] as int,
            b,
        )
    }
}

pub open spec fn brace_all(f: GoFile, path: Seq<u8>, b: BraceKind) -> Seq<IssueModel> {
    brace_upto(f, path, b, kind_indices(f.nodes@, brace_node_kind(b)).len() as int)
}

/// All brace-style findings: functions, if statements, for loops.
pub open spec fn brace_findings(f: GoFile, path: Seq<u8>) -> Seq<IssueModel> {
    brace_all(f, path, BraceKind::FuncBrace) + brace_all(f, path, BraceKind::IfBrace) + brace_all(
        f,
        path,
        BraceKind::ForBrace,
    )
}

fn brace_node_kind_exec(b: BraceKind) -> (r: NodeKind)
    ensures
        r == brace_node_kind(b),
{
    match b {
        BraceKind::FuncBrace => NodeKind::FunctionDeclaration,
        BraceKind::IfBrace => NodeKind::IfStatement,
        BraceKind::ForBrace => NodeKind::ForStatement,
    }
}

fn brace_message_exec(b: BraceKind) -> (r: Vec<u8>)
    ensures
        r@ == brace_message(b),
{
    match b {
        BraceKind::FuncBrace => lit_bytes(
            "Opening brace should be on the same line as function declaration",
        ),
        BraceKind::IfBrace => lit_bytes(
            "Opening brace should be on the same line as if statement declaration",
        ),
        BraceKind::ForBrace => lit_bytes(
            "Opening brace should be on the same line as for loop declaration",
        ),
    }
}

fn check_brace_kind(ast: &GoFile, b: BraceKind, lines: &Vec<Vec<u8>>, issues: &mut Vec<Issue>)
    requires
        ast.wf(),
        lines.deep_view() == split_lines_spec(ast.content@),
    ensures
        final(issues).deep_view() == old(issues).deep_view() + brace_all(*ast, ast.path@, b),
{
    let kind = brace_node_kind_exec(b);
    let idxs = ast.find_nodes(kind);
    proof {
        assert(ast.nodes@.len() <= usize::MAX) by {
            assert(ast.nodes.len() == ast.nodes@.len());
        }
        lemma_kind_indices(ast.nodes@, kind);
        assert(issues.deep_view() + Seq::<IssueModel>::empty() =~= issues.deep_view());
    }
    let mut t: usize = 0;
    while t < idxs.len()
        invariant
            ast.wf(),
            lines.deep_view() == split_lines_spec(ast.content@),
            t <= idxs@.len(),
            idxs@ == kind_indices(ast.nodes@, brace_node_kind(b)),
            forall|u: int| 0 <= u < idxs@.len() ==> #[trigger] idxs@[u] < ast.nodes@.len(),
            issues.deep_view() == old(issues).deep_view() + brace_upto(
                *ast,
                ast.path@,
                b,
                t as int,
            ),
        decreases idxs@.len() - t,
    {
        let i = idxs[t];
        proof {
            assert(node_wf(ast.nodes@, ast.content@.len() as int, i as int));
        }
        let n = &ast.nodes[i];
        let body: Option<usize> = match b {
            BraceKind::FuncBrace => n.f_body,
            BraceKind::IfBrace => n.f_consequence,
            BraceKind::ForBrace => n.f_body,
        };
        let ghost pre = issues.deep_view();
        match body {
            Some(bd) => {
                let pos = ast.get_position(n.start);
                let body_pos = ast.get_position(ast.nodes[bd].start);
                if body_pos.0 > pos.0 && body_pos.0 - pos.0 > 1 {
                    let lc = line_text_exec(lines, pos.0, Ghost(ast.content@));
                    let msg = brace_message_exec(b);
                    issues.push(
                        Issue {
                            file_path: ast.path.clone(),
                            line: pos.0,
                            column: pos.1,
                            issue_type: IssueType::Style,
                            severity: Severity::Info,
                            message: msg,
                            code: lc,
                            fix_available: false,
                        },
                    );
                }
                proof {
                    lemma_line_at_bound(ast.content@, n.start as int);
                }
            },
            None => {},
        }
        proof {
            assert(issues.deep_view() =~= pre + brace_issue_at(*ast, ast.path@, i as int, b));
            assert(issues.deep_view() =~= old(issues).deep_view() + brace_upto(
                *ast,
                ast.path@,
                b,
                t + 1,
            ));
        }
        t += 1;
    }
}

proof fn lemma_line_at_bound(s: Seq<u8>, off: int)
    ensures
        line_at(s, off) >= 1,
{
    crate::parser::lemma_pos_bounds(
        s.take(crate::parser::clip_offset(off, s.len() as int)),
    );
}

/// One Info finding per non-blank line indented with spaces.
pub open spec fn indent_issue_at(path: Seq<u8>, line: Seq<u8>, idx: int) -> Seq<IssueModel> {
    if crate::text::trim_spec(line, false).len() != 0 && line.len() > 0 && line[0] == SPACE {
        seq![
            IssueModel {
                file_path: path,
                line: idx + 1,
                column: 1,
                issue_type: IssueType::Style,
                severity: Severity::Info,
                message: "Use tabs for indentation in Go, not spaces".spec_bytes(),
                code: line,
                fix_available: true,
            },
        ]
    } else {
        Seq::empty()
    }
}

pub open spec fn indent_upto(path: Seq<u8>, lines: Seq<Seq<u8>>, t: int) -> Seq<IssueModel>
    decreases t,
{
    if t <= 0 {
        Seq::empty()
    } else {
        indent_upto(path, lines, t - 1) + indent_issue_at(path, lines[t - 1], t - 1)
    }
}

pub open spec fn indent_findings(f: GoFile, path: Seq<u8>) -> Seq<IssueModel> {
    let lines = split_lines_spec(f.content@);
    indent_upto(path, lines, lines.len() as int)
}

fn check_indentation(ast: &GoFile, lines: &Vec<Vec<u8>>, issues: &mut Vec<Issue>)
    requires
        ast.wf(),
        lines.deep_view() == split_lines_spec(ast.content@),
    ensures
        final(issues).deep_view() == old(issues).deep_view() + indent_findings(*ast, ast.path@),
{
    proof {
        assert(issues.deep_view() + Seq::<IssueModel>::empty() =~= issues.deep_view());
    }
    let ghost ldv = lines.deep_view();
    let mut t: usize = 0;
    while t < lines.len()
        invariant
            ast.wf(),
            t <= lines@.len(),
            ldv == lines.deep_view(),
            ldv == split_lines_spec(ast.content@),
            ldv.len() == lines@.len(),
            issues.deep_view() == old(issues).deep_view() + indent_upto(
                ast.path@,
                ldv,
                t as int,
            ),
        decreases lines@.len() - t,
    {
        let line = &lines[t];
        let trimmed = crate::text::trim_ws(line);
        let ghost pre = issues.deep_view();
        if trimmed.len() != 0 && line.len() > 0 && line[0] == SPACE {
            let msg = lit_bytes("Use tabs for indentation in Go, not spaces");
            issues.push(
                Issue {
                    file_path: ast.path.clone(),
                    line: t + 1,
                    column: 1,
                    issue_type: IssueType::Style,
                    severity: Severity::Info,
                    message: msg,
                    code: clone_bytes(line),
                    fix_available: true,
                },
            );
        }
        proof {
            assert(issues.deep_view() =~= pre + indent_issue_at(ast.path@, ldv[t as int], t as int));
            assert(issues.deep_view() =~= old(issues).deep_view() + indent_upto(
                ast.path@,
                ldv,
                t + 1,
            ));
        }
        t += 1;
    }
}

/// All findings of the style pass, per the enabled rule toggles.
pub open spec fn style_findings(f: GoFile, path: Seq<u8>, r: crate::config::StyleRules) -> Seq<
    IssueModel,
> {
    (if r.enforce_camel_case {
        naming_findings(f, path)
    } else {
        Seq::empty()
    }) + (if r.space_after_control_statements {
        spacing_findings(f, path)
    } else {
        Seq::empty()
    }) + (if r.enforce_consistent_naming {
        brace_findings(f, path) + indent_findings(f, path)
    } else {
        Seq::empty()
    })
}

/// Run the style pass: naming conventions, control-statement spacing, then
/// brace style and indentation.
#[verifier::rlimit(60)]
pub fn analyze(ast: &GoFile, config: &Config, issues: &mut Vec<Issue>)
    requires
        ast.wf(),
    ensures
        final(issues).deep_view() == old(issues).deep_view() + style_findings(
            *ast,
            ast.path@,
            config.rules.style,
        ),
{
    let lines = split_lines(&ast.content);
    let ghost base = issues.deep_view();
    if config.rules.style.enforce_camel_case {
        check_naming_conventions(ast, issues);
    }
    let ghost p1: Seq<IssueModel> = if config.rules.style.enforce_camel_case {
        naming_findings(*ast, ast.path@)
    } else {
        Seq::empty()
    };
    proof {
        assert(issues.deep_view() =~= base + p1);
    }
    if config.rules.style.space_after_control_statements {
        check_spacing_kind(ast, SpacingKw::IfKw, &lines, issues);
        check_spacing_kind(ast, SpacingKw::ForKw, &lines, issues);
        check_spacing_kind(ast, SpacingKw::SwitchKw, &lines, issues);
    }
    let ghost p2: Seq<IssueModel> = if config.rules.style.space_after_control_statements {
        spacing_findings(*ast, ast.path@)
    } else {
        Seq::empty()
    };
    proof {
        assert(issues.deep_view() =~= base + p1 + p2);
    }
    if config.rules.style.enforce_consistent_naming {
        check_brace_kind(ast, BraceKind::FuncBrace, &lines, issues);
        check_brace_kind(ast, BraceKind::IfBrace, &lines, issues);
        check_brace_kind(ast, BraceKind::ForBrace, &lines, issues);
        check_indentation(ast, &lines, issues);
    }
    let ghost p3: Seq<IssueModel> = if config.rules.style.enforce_consistent_naming {
        brace_findings(*ast, ast.path@) + indent_findings(*ast, ast.path@)
    } else {
        Seq::empty()
    };
    proof {
        assert(issues.deep_view() =~= base + p1 + p2 + p3);
        assert(base + p1 + p2 + p3 =~= base + style_findings(*ast, ast.path@, config.rules.style));
    }
}

} // verus!
