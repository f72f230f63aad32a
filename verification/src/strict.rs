//! Strict mode: the output is built from lowercase letters, digits and
//! single hyphens only, never starts or ends with a hyphen, and never holds
//! two hyphens in a row.

use vstd::prelude::*;
use crate::ascii::DASH;
use crate::ascii::ascii_bytes_to_string;
use crate::ascii::chars_of_bytes;
use crate::ascii::is_lower_or_digit;
use crate::ascii::is_upper;
use crate::ascii::lower_byte;
use crate::translit::expand;
use crate::translit::expand_char;
use crate::translit::lemma_expand_ascii;
use crate::translit::lemma_expand_take_succ;
use crate::translit::transliterate_char;

verus! {

/// The bytes strict output is built from.
pub open spec fn is_strict_byte(x: u8) -> bool {
    is_lower_or_digit(x) || x == DASH
}

/// What one byte adds to the strict output, given whether the last emitted
/// byte was a hyphen: letters and digits pass (uppercase lowered byte-wise),
/// anything else becomes one `-`, suppressed right after another.
pub open spec fn strict_emit(prev_dash: bool, x: u8) -> Seq<u8> {
    if is_lower_or_digit(x) {
        seq![x]
    } else if is_upper(x) {
        seq![lower_byte(x)]
    } else if prev_dash {
        Seq::empty()
    } else {
        seq![DASH]
    }
}

/// The hyphen flag after one byte is classified: cleared by letters and
/// digits, set by everything else.
pub open spec fn strict_next(prev_dash: bool, x: u8) -> bool {
    !(is_lower_or_digit(x) || is_upper(x))
}

/// The strict output for a byte stream, scanned left to right from a given
/// hyphen flag.
pub open spec fn strict_scan(bs: Seq<u8>, prev_dash: bool) -> Seq<u8>
    decreases bs.len(),
{
    if bs.len() == 0 {
        Seq::empty()
    } else {
        strict_emit(prev_dash, bs.first()) + strict_scan(
            bs.drop_first(),
            strict_next(prev_dash, bs.first()),
        )
    }
}

/// The hyphen flag after a whole byte stream is scanned.
pub open spec fn strict_after(bs: Seq<u8>, prev_dash: bool) -> bool
    decreases bs.len(),
{
    if bs.len() == 0 {
        prev_dash
    } else {
        strict_after(bs.drop_first(), strict_next(prev_dash, bs.first()))
    }
}

/// Scanning a concatenation scans the first part, then the second from the
/// flag the first part left behind.
pub proof fn lemma_strict_scan_concat(a: Seq<u8>, b: Seq<u8>, st: bool)
    ensures
        strict_scan(a + b, st) == strict_scan(a, st) + strict_scan(b, strict_after(a, st)),
        strict_after(a + b, st) == strict_after(b, strict_after(a, st)),
    decreases a.len(),
{
    if a.len() == 0 {
        assert(a + b =~= b);
        assert(strict_scan(a, st) + strict_scan(b, st) =~= strict_scan(b, st));
    } else {
        assert((a + b).first() == a.first());
        assert((a + b).drop_first() =~= a.drop_first() + b);
        lemma_strict_scan_concat(a.drop_first(), b, strict_next(st, a.first()));
        assert(strict_scan(a + b, st) =~= strict_scan(a, st) + strict_scan(
            b,
            strict_after(a, st),
        ));
    }
}

/// Scanning one more byte appends what that byte emits from the current flag.
pub proof fn lemma_strict_scan_snoc(bs: Seq<u8>, st: bool, x: u8)
    ensures
        strict_scan(bs.push(x), st) == strict_scan(bs, st) + strict_emit(
            strict_after(bs, st),
            x,
        ),
        strict_after(bs.push(x), st) == strict_next(strict_after(bs, st), x),
{
    lemma_strict_scan_concat(bs, seq![x], st);
    assert(bs + seq![x] =~= bs.push(x));
    let st2 = strict_after(bs, st);
    assert(seq![x].first() == x);
    assert(seq![x].drop_first() =~= Seq::<u8>::empty());
    assert(strict_scan(seq![x], st2) == strict_emit(st2, x) + strict_scan(
        Seq::<u8>::empty(),
        strict_next(st2, x),
    ));
    assert(strict_emit(st2, x) + Seq::<u8>::empty() =~= strict_emit(st2, x));
    assert(strict_after(Seq::<u8>::empty(), strict_next(st2, x)) == strict_next(st2, x));
    assert(strict_after(seq![x], st2) == strict_next(st2, x));
}

/// Every byte of a strict output is a lowercase letter, digit or hyphen.
pub open spec fn strict_bytes_ok(s: Seq<u8>) -> bool {
    forall|i: int| 0 <= i < s.len() ==> is_strict_byte(#[trigger] s[i])
}

/// No two adjacent hyphens.
pub open spec fn no_double_dash(s: Seq<u8>) -> bool {
    forall|i: int| #![trigger s[i], s[i + 1]] 0 <= i && i + 1 < s.len() ==> !(s[i] == DASH && s[i + 1] == DASH)
}

/// The byte-level shape of a finished strict slug.
pub open spec fn is_strict_slug_bytes(s: Seq<u8>) -> bool {
    &&& strict_bytes_ok(s)
    &&& no_double_dash(s)
    &&& (s.len() > 0 ==> s[0] != DASH && s.last() != DASH)
}

/// The structural facts the scan maintains: output alphabet, no doubled
/// hyphen, the final flag tells whether the output ends in a hyphen, and a
/// scan begun with the flag set never leads with a hyphen.
pub proof fn lemma_strict_scan_props(bs: Seq<u8>, st: bool)
    ensures
        strict_bytes_ok(strict_scan(bs, st)),
        no_double_dash(strict_scan(bs, st)),
        strict_scan(bs, st).len() == 0 ==> strict_after(bs, st) == st,
        strict_scan(bs, st).len() > 0 ==> (strict_scan(bs, st).last() == DASH <==> strict_after(
            bs,
            st,
        )),
        st && strict_scan(bs, st).len() > 0 ==> strict_scan(bs, st)[0] != DASH,
    decreases bs.len(),
{
    if bs.len() > 0 {
        let e = strict_emit(st, bs.first());
        let st1 = strict_next(st, bs.first());
        let rest = strict_scan(bs.drop_first(), st1);
        lemma_strict_scan_props(bs.drop_first(), st1);
        assert(strict_scan(bs, st) == e + rest);
        assert forall|i: int| 0 <= i < (e + rest).len() implies is_strict_byte(
            #[trigger] (e + rest)[i],
        ) by {
            if i >= e.len() {
                assert((e + rest)[i] == rest[i - e.len()]);
            }
        }
        assert forall|i: int| #![trigger (e + rest)[i], (e + rest)[i + 1]]
            0 <= i && i + 1 < (e + rest).len() implies !((e + rest)[i] == DASH && (e + rest)[i
            + 1] == DASH) by {
            if i + 1 == e.len() {
                // the emitted byte against the head of the rest
                assert((e + rest)[i] == e[i]);
                assert((e + rest)[i + 1] == rest[0]);
                if e[i] == DASH {
                    assert(st1);
                    assert(rest[0] != DASH);
                }
            } else if i >= e.len() {
                let j = i - e.len();
                assert((e + rest)[i] == rest[j]);
                assert((e + rest)[i + 1] == rest[j + 1]);
                assert(!(rest[j] == DASH && rest[j + 1] == DASH));
            }
        }
        if rest.len() > 0 {
            assert((e + rest).last() == rest.last());
        } else {
            if e.len() > 0 {
                assert((e + rest).last() == e.last());
            }
        }
        if (e + rest).len() > 0 && st {
            if e.len() > 0 {
                assert((e + rest)[0] == e[0]);
            } else {
                assert(st1 == st);
                assert((e + rest)[0] == rest[0]);
            }
        }
    }
}

/// A byte stream that already has the shape of a strict slug scans to
/// itself, provided the flag does not suppress its first byte.
pub proof fn lemma_strict_scan_fixpoint(t: Seq<u8>, st: bool)
    requires
        strict_bytes_ok(t),
        no_double_dash(t),
        t.len() > 0 ==> t.last() != DASH,
        st && t.len() > 0 ==> t[0] != DASH,
    ensures
        strict_scan(t, st) == t,
    decreases t.len(),
{
    if t.len() == 0 {
        assert(strict_scan(t, st) =~= t);
    } else {
        let x = t.first();
        let st1 = strict_next(st, x);
        assert(is_strict_byte(t[0]));
        let tail = t.drop_first();
        assert(forall|i: int| 0 <= i < tail.len() ==> tail[i] == t[i + 1]);
        if tail.len() > 0 {
            assert(tail.last() == t.last());
        }
        if is_lower_or_digit(x) {
            assert(strict_emit(st, x) =~= seq![x]);
            lemma_strict_scan_fixpoint(tail, st1);
        } else {
            assert(x == DASH);
            assert(!is_lower_or_digit(x) && !is_upper(x));
            assert(!st);
            assert(strict_emit(st, x) =~= seq![DASH]);
            assert(tail.len() > 0);
            assert(tail[0] == t[1]);
            assert(t[1] != DASH);
            lemma_strict_scan_fixpoint(tail, st1);
        }
        assert(strict_scan(t, st) =~= t);
    }
}

/// Two bytes that are the same up to ASCII letter case.
pub open spec fn ascii_case_eq_byte(x: u8, y: u8) -> bool {
    ||| x == y
    ||| (is_upper(x) && y == lower_byte(x))
    ||| (is_upper(y) && x == lower_byte(y))
}

/// Two characters that are the same up to ASCII letter case; non-ASCII
/// characters must be identical.
pub open spec fn ascii_case_eq_char(a: char, b: char) -> bool {
    ||| a == b
    ||| ((a as u32) < 128 && (b as u32) < 128 && ascii_case_eq_byte(a as u8, b as u8))
}

/// The scan does not tell two byte streams apart that differ only in ASCII
/// letter case.
pub proof fn lemma_strict_scan_case(a: Seq<u8>, b: Seq<u8>, st: bool)
    requires
        a.len() == b.len(),
        forall|i: int| 0 <= i < a.len() ==> ascii_case_eq_byte(#[trigger] a[i], b[i]),
    ensures
        strict_scan(a, st) == strict_scan(b, st),
        strict_after(a, st) == strict_after(b, st),
    decreases a.len(),
{
    if a.len() > 0 {
        assert(ascii_case_eq_byte(a[0], b[0]));
        assert(strict_emit(st, a.first()) == strict_emit(st, b.first()));
        assert(strict_next(st, a.first()) == strict_next(st, b.first()));
        assert(forall|i: int|
            0 <= i < a.drop_first().len() ==> ascii_case_eq_byte(
                #[trigger] a.drop_first()[i],
                b.drop_first()[i],
            ));
        lemma_strict_scan_case(a.drop_first(), b.drop_first(), strict_next(st, a.first()));
    }
}

/// One trailing hyphen, if any, is removed after the scan; the scan never
/// leaves more than one.
pub open spec fn trim_trailing_dash(s: Seq<u8>) -> Seq<u8> {
    if s.len() > 0 && s.last() == DASH {
        s.drop_last()
    } else {
        s
    }
}

/// The finished strict output, as bytes: the whole input expanded, scanned
/// with the flag initially set (so no hyphen can lead), and trimmed.
pub open spec fn strict_slug_bytes(cs: Seq<char>) -> Seq<u8> {
    trim_trailing_dash(strict_scan(expand(cs), true))
}

/// What `slugify` returns: the strict output bytes, read as characters.
pub open spec fn spec_slugify(cs: Seq<char>) -> Seq<char> {
    chars_of_bytes(strict_slug_bytes(cs))
}

/// Classifies one byte and appends what it emits, updating the hyphen flag.
fn push_strict_byte(slug: &mut Vec<u8>, prev_dash: &mut bool, x: u8)
    ensures
        final(slug)@ == old(slug)@ + strict_emit(*old(prev_dash), x),
        *final(prev_dash) == strict_next(*old(prev_dash), x),
{
    if ('a' as u8 <= x && x <= 'z' as u8) || ('0' as u8 <= x && x <= '9' as u8) {
        *prev_dash = false;
        slug.push(x);
        proof {
            assert(old(slug)@.push(x) =~= old(slug)@ + strict_emit(*old(prev_dash), x));
        }
    } else if 'A' as u8 <= x && x <= 'Z' as u8 {
        *prev_dash = false;
        slug.push(x + 32);
        proof {
            assert(old(slug)@.push(lower_byte(x)) =~= old(slug)@ + strict_emit(
                *old(prev_dash),
                x,
            ));
        }
    } else if !*prev_dash {
        *prev_dash = true;
        slug.push(DASH);
        proof {
            assert(old(slug)@.push(DASH) =~= old(slug)@ + strict_emit(*old(prev_dash), x));
        }
    } else {
        proof {
            assert(old(slug)@ + strict_emit(*old(prev_dash), x) =~= old(slug)@);
        }
    }
}

/// Feeds one input character through transliteration and the strict
/// classifier.
fn push_strict_char(slug: &mut Vec<u8>, prev_dash: &mut bool, c: char)
    ensures
        final(slug)@ == old(slug)@ + strict_scan(expand_char(c), *old(prev_dash)),
        *final(prev_dash) == strict_after(expand_char(c), *old(prev_dash)),
{
    let ghost st0 = *prev_dash;
    let u = c as u32;
    if u < 128 {
        proof {
            lemma_strict_scan_snoc(Seq::<u8>::empty(), st0, c as u8);
            assert(Seq::<u8>::empty().push(c as u8) =~= expand_char(c));
            assert(strict_scan(Seq::<u8>::empty(), st0) + strict_emit(st0, c as u8)
                =~= strict_emit(st0, c as u8));
        }
        push_strict_byte(slug, prev_dash, u as u8);
    } else {
        match transliterate_char(c) {
            Some(bs) => {
                let ghost base = slug@;
                let mut j: usize = 0;
                while j < bs.len()
                    invariant
                        j <= bs@.len(),
                        slug@ == base + strict_scan(bs@.take(j as int), st0),
                        *prev_dash == strict_after(bs@.take(j as int), st0),
                    decreases bs@.len() - j,
                {
                    let x = bs[j];
                    proof {
                        lemma_strict_scan_snoc(bs@.take(j as int), st0, x);
                        assert(bs@.take(j as int).push(x) =~= bs@.take(j + 1 as int));
                    }
                    push_strict_byte(slug, prev_dash, x);
                    j += 1;
                }
                proof {
                    assert(bs@.take(bs@.len() as int) =~= bs@);
                    assert(expand_char(c) == bs@);
                }
            },
            None => {
                proof {
                    lemma_strict_scan_snoc(Seq::<u8>::empty(), st0, DASH);
                    assert(Seq::<u8>::empty().push(DASH) =~= expand_char(c));
                    assert(strict_scan(Seq::<u8>::empty(), st0) + strict_emit(st0, DASH)
                        =~= strict_emit(st0, DASH));
                }
                push_strict_byte(slug, prev_dash, DASH);
            },
        }
    }
}

/// Converts any text to a strict ASCII slug: lowercase letters, digits and
/// single hyphens, with no hyphen leading or trailing. Non-ASCII characters
/// are transliterated first; anything the table cannot map degrades to a
/// separator, never an error.
pub fn slugify(s: &str) -> (out: String)
    ensures
        out@ == spec_slugify(s@),
{
    let n = s.unicode_len();
    let mut slug: Vec<u8> = Vec::new();
    let mut prev_dash = true;
    let mut i: usize = 0;
    while i < n
        invariant
            i <= n,
            n == s@.len(),
            slug@ == strict_scan(expand(s@.take(i as int)), true),
            prev_dash == strict_after(expand(s@.take(i as int)), true),
        decreases n - i,
    {
        let c = s.get_char(i);
        proof {
            lemma_expand_take_succ(s@, i as int);
            lemma_strict_scan_concat(expand(s@.take(i as int)), expand_char(s@[i as int]), true);
        }
        push_strict_char(&mut slug, &mut prev_dash, c);
        i += 1;
    }
    proof {
        assert(s@.take(n as int) =~= s@);
        lemma_strict_scan_props(expand(s@), true);
    }
    if slug.len() > 0 && slug[slug.len() - 1] == DASH {
        slug.pop();
    }
    proof {
        assert(slug@ == strict_slug_bytes(s@));
        assert(forall|i: int| 0 <= i < slug@.len() ==> slug@[i] < 128);
    }
    ascii_bytes_to_string(slug)
}

/// The finished strict output keeps the slug shape at the byte level.
pub proof fn lemma_strict_slug_bytes_wf(cs: Seq<char>)
    ensures
        is_strict_slug_bytes(strict_slug_bytes(cs)),
{
    let t = strict_scan(expand(cs), true);
    let u = strict_slug_bytes(cs);
    lemma_strict_scan_props(expand(cs), true);
    assert(forall|i: int| 0 <= i < u.len() ==> u[i] == t[i]);
    assert(strict_bytes_ok(u));
    assert(no_double_dash(u));
    if u.len() > 0 {
        assert(u[0] == t[0]);
        if t.len() > 0 && t.last() == DASH {
            // one byte was dropped; the one before it is not a hyphen
            assert(u.last() == t[t.len() - 2]);
            assert(!(t[t.len() - 2] == DASH && t[t.len() - 2 + 1] == DASH));
        }
    }
}

/// The shape every non-empty strict slug has: lowercase letters, digits and
/// hyphens only, no doubled hyphen, and no hyphen leading or trailing — the
/// language of `[a-z0-9]+(-[a-z0-9]+)*`.
pub open spec fn is_strict_slug(s: Seq<char>) -> bool {
    &&& forall|i: int|
        0 <= i < s.len() ==> ('a' <= #[trigger] s[i] <= 'z' || '0' <= s[i] <= '9' || s[i] == '-')
    &&& forall|i: int| #![trigger s[i], s[i + 1]]
        0 <= i && i + 1 < s.len() ==> !(s[i] == '-' && s[i + 1] == '-')
    &&& (s.len() > 0 ==> s[0] != '-' && s.last() != '-')
}

/// A byte sequence of slug shape reads as characters of slug shape.
proof fn lemma_strict_slug_bytes_to_chars(t: Seq<u8>)
    requires
        is_strict_slug_bytes(t),
    ensures
        is_strict_slug(chars_of_bytes(t)),
{
    let u = chars_of_bytes(t);
    assert(forall|i: int| 0 <= i < u.len() ==> u[i] == (#[trigger] t[i]) as char);
    assert forall|i: int| 0 <= i < u.len() implies ('a' <= #[trigger] u[i] <= 'z' || '0' <= u[i]
        <= '9' || u[i] == '-') by {
        assert(is_strict_byte(t[i]));
    }
    assert forall|i: int| #![trigger u[i], u[i + 1]]
        0 <= i && i + 1 < u.len() implies !(u[i] == '-' && u[i + 1] == '-') by {
        assert(!(t[i] == DASH && t[i + 1] == DASH));
    }
    if u.len() > 0 {
        assert(t[0] != DASH && t.last() != DASH);
    }
}

/// The strict output always has the slug shape — it is drawn from lowercase
/// letters, digits and hyphens, never doubles a hyphen, and never starts or
/// ends with one (or is empty).
pub proof fn lemma_slugify_well_formed(cs: Seq<char>)
    ensures
        is_strict_slug(spec_slugify(cs)),
{
    lemma_strict_slug_bytes_wf(cs);
    lemma_strict_slug_bytes_to_chars(strict_slug_bytes(cs));
}

/// Slugifying is idempotent: a strict slug is a fixed point, so running the
/// conversion on its own output changes nothing.
pub proof fn lemma_slugify_idempotent(cs: Seq<char>)
    ensures
        spec_slugify(spec_slugify(cs)) == spec_slugify(cs),
{
    let t = strict_slug_bytes(cs);
    let u = chars_of_bytes(t);
    lemma_strict_slug_bytes_wf(cs);
    assert(forall|i: int| 0 <= i < u.len() ==> u[i] == (#[trigger] t[i]) as char);
    assert forall|i: int| 0 <= i < u.len() implies (#[trigger] u[i] as u32) < 128 by {
        assert(is_strict_byte(t[i]));
    }
    lemma_expand_ascii(u);
    assert(expand(u) =~= t);
    lemma_strict_scan_fixpoint(t, true);
    assert(strict_slug_bytes(u) == t);
}

/// Scanning the expansions of two inputs that differ only in ASCII letter
/// case gives the same output and flag.
proof fn lemma_strict_scan_expand_case(a: Seq<char>, b: Seq<char>, st: bool)
    requires
        a.len() == b.len(),
        forall|i: int| 0 <= i < a.len() ==> ascii_case_eq_char(#[trigger] a[i], b[i]),
    ensures
        strict_scan(expand(a), st) == strict_scan(expand(b), st),
        strict_after(expand(a), st) == strict_after(expand(b), st),
    decreases a.len(),
{
    if a.len() > 0 {
        let a1 = a.drop_last();
        let b1 = b.drop_last();
        assert(forall|i: int| 0 <= i < a1.len() ==> ascii_case_eq_char(#[trigger] a1[i], b1[i]));
        lemma_strict_scan_expand_case(a1, b1, st);
        lemma_strict_scan_concat(expand(a1), expand_char(a.last()), st);
        lemma_strict_scan_concat(expand(b1), expand_char(b.last()), st);
        let stm = strict_after(expand(a1), st);
        assert(ascii_case_eq_char(a[a.len() - 1], b[b.len() - 1]));
        if a.last() == b.last() {
        } else {
            let x = a.last() as u8;
            let y = b.last() as u8;
            assert(expand_char(a.last()) == seq![x]);
            assert(expand_char(b.last()) == seq![y]);
            assert(forall|i: int|
                0 <= i < seq![x].len() ==> ascii_case_eq_byte(#[trigger] seq![x][i], seq![y][i]));
            lemma_strict_scan_case(seq![x], seq![y], stm);
        }
    }
}

/// Strict mode is case-insensitive: swapping the case of ASCII letters
/// anywhere in the input leaves the output unchanged.
pub proof fn lemma_slugify_case_insensitive(cs1: Seq<char>, cs2: Seq<char>)
    requires
        cs1.len() == cs2.len(),
        forall|i: int| 0 <= i < cs1.len() ==> ascii_case_eq_char(#[trigger] cs1[i], cs2[i]),
    ensures
        spec_slugify(cs1) == spec_slugify(cs2),
{
    lemma_strict_scan_expand_case(cs1, cs2, true);
}

} // verus!
