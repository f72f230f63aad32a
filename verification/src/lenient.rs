//! Lenient mode: a wider alphabet (letters of either case, digits, hyphen,
//! space, dot, underscore), with consecutive duplicates of each separator
//! class collapsed, and an optional preservation of letter case.

use vstd::prelude::*;
use crate::ascii::DASH;
use crate::ascii::DOT;
use crate::ascii::SPACE;
use crate::ascii::UNDERSCORE;
use crate::ascii::ascii_bytes_to_string;
use crate::ascii::chars_of_bytes;
use crate::ascii::is_lower_or_digit;
use crate::ascii::is_upper;
use crate::ascii::is_ws_byte;
use crate::ascii::lower_byte;
use crate::strict::no_double_dash;
use crate::translit::expand;
use crate::translit::expand_char;
use crate::translit::lemma_expand_take_succ;
use crate::translit::transliterate_char;

verus! {

/// The collapsing state of one lenient pass: whether the last emitted byte
/// was a hyphen, a whitespace-class byte (space or underscore), or a dot.
/// Suppressing a byte leaves the whole state unchanged.
#[derive(Clone, Copy)]
pub struct LenientFlags {
    pub prev_dash: bool,
    pub prev_ws: bool,
    pub prev_dot: bool,
}

/// Shorthand for a state value.
pub open spec fn flags(prev_dash: bool, prev_ws: bool, prev_dot: bool) -> LenientFlags {
    LenientFlags { prev_dash, prev_ws, prev_dot }
}

/// The state a pass begins in: hyphen and whitespace flags set, so that no
/// separator or whitespace can lead the output; a dot may.
pub open spec fn lenient_init() -> LenientFlags {
    flags(true, true, false)
}

/// The bytes lenient output is built from; uppercase letters only where case
/// is preserved.
pub open spec fn is_lenient_byte(x: u8, keep_case: bool) -> bool {
    ||| is_lower_or_digit(x)
    ||| (keep_case && is_upper(x))
    ||| is_ws_byte(x)
    ||| x == DOT
    ||| x == DASH
}

/// What one byte adds to the lenient output: letters and digits pass (case
/// kept or lowered), a space or underscore passes unless the last emitted
/// byte was of the whitespace class, a dot passes unless the last emitted
/// byte was a dot, and anything else becomes one `-` unless the last emitted
/// byte was a hyphen.
pub open spec fn lenient_emit(st: LenientFlags, keep_case: bool, x: u8) -> Seq<u8> {
    if is_lower_or_digit(x) {
        seq![x]
    } else if is_upper(x) {
        if keep_case {
            seq![x]
        } else {
            seq![lower_byte(x)]
        }
    } else if is_ws_byte(x) {
        if st.prev_ws {
            Seq::empty()
        } else {
            seq![x]
        }
    } else if x == DOT {
        if st.prev_dot {
            Seq::empty()
        } else {
            seq![x]
        }
    } else {
        if st.prev_dash {
            Seq::empty()
        } else {
            seq![DASH]
        }
    }
}

/// The state after one byte: emitting a byte of one class sets that class's
/// flag and clears the other two; a suppressed byte changes nothing.
pub open spec fn lenient_next(st: LenientFlags, x: u8) -> LenientFlags {
    if is_lower_or_digit(x) || is_upper(x) {
        flags(false, false, false)
    } else if is_ws_byte(x) {
        if st.prev_ws {
            st
        } else {
            flags(false, true, false)
        }
    } else if x == DOT {
        if st.prev_dot {
            st
        } else {
            flags(false, false, true)
        }
    } else {
        if st.prev_dash {
            st
        } else {
            flags(true, false, false)
        }
    }
}

/// The lenient output for a byte stream, scanned left to right.
pub open spec fn lenient_scan(bs: Seq<u8>, st: LenientFlags, keep_case: bool) -> Seq<u8>
    decreases bs.len(),
{
    if bs.len() == 0 {
        Seq::empty()
    } else {
        lenient_emit(st, keep_case, bs.first()) + lenient_scan(
            bs.drop_first(),
            lenient_next(st, bs.first()),
            keep_case,
        )
    }
}

/// The state after a whole byte stream is scanned.
pub open spec fn lenient_after(bs: Seq<u8>, st: LenientFlags) -> LenientFlags
    decreases bs.len(),
{
    if bs.len() == 0 {
        st
    } else {
        lenient_after(bs.drop_first(), lenient_next(st, bs.first()))
    }
}

/// Scanning a concatenation scans the first part, then the second from the
/// state the first part left behind.
pub proof fn lemma_lenient_scan_concat(a: Seq<u8>, b: Seq<u8>, st: LenientFlags, keep_case: bool)
    ensures
        lenient_scan(a + b, st, keep_case) == lenient_scan(a, st, keep_case) + lenient_scan(
            b,
            lenient_after(a, st),
            keep_case,
        ),
        lenient_after(a + b, st) == lenient_after(b, lenient_after(a, st)),
    decreases a.len(),
{
    if a.len() == 0 {
        assert(a + b =~= b);
        assert(lenient_scan(a, st, keep_case) + lenient_scan(b, st, keep_case) =~= lenient_scan(
            b,
            st,
            keep_case,
        ));
    } else {
        assert((a + b).first() == a.first());
        assert((a + b).drop_first() =~= a.drop_first() + b);
        lemma_lenient_scan_concat(a.drop_first(), b, lenient_next(st, a.first()), keep_case);
        assert(lenient_scan(a + b, st, keep_case) =~= lenient_scan(a, st, keep_case)
            + lenient_scan(b, lenient_after(a, st), keep_case));
    }
}

/// Scanning one more byte appends what that byte emits from the current
/// state.
pub proof fn lemma_lenient_scan_snoc(bs: Seq<u8>, st: LenientFlags, keep_case: bool, x: u8)
    ensures
        lenient_scan(bs.push(x), st, keep_case) == lenient_scan(bs, st, keep_case) + lenient_emit(
            lenient_after(bs, st),
            keep_case,
            x,
        ),
        lenient_after(bs.push(x), st) == lenient_next(lenient_after(bs, st), x),
{
    lemma_lenient_scan_concat(bs, seq![x], st, keep_case);
    assert(bs + seq![x] =~= bs.push(x));
    let st2 = lenient_after(bs, st);
    assert(seq![x].first() == x);
    assert(seq![x].drop_first() =~= Seq::<u8>::empty());
    assert(lenient_scan(seq![x], st2, keep_case) == lenient_emit(st2, keep_case, x)
        + lenient_scan(Seq::<u8>::empty(), lenient_next(st2, x), keep_case));
    assert(lenient_emit(st2, keep_case, x) + Seq::<u8>::empty() =~= lenient_emit(
        st2,
        keep_case,
        x,
    ));
    assert(lenient_after(Seq::<u8>::empty(), lenient_next(st2, x)) == lenient_next(st2, x));
    assert(lenient_after(seq![x], st2) == lenient_next(st2, x));
}

/// No two adjacent whitespace-class bytes.
pub open spec fn no_double_ws(s: Seq<u8>) -> bool {
    forall|i: int| #![trigger s[i], s[i + 1]]
        0 <= i && i + 1 < s.len() ==> !(is_ws_byte(s[i]) && is_ws_byte(s[i + 1]))
}

/// No two adjacent dots.
pub open spec fn no_double_dot(s: Seq<u8>) -> bool {
    forall|i: int| #![trigger s[i], s[i + 1]]
        0 <= i && i + 1 < s.len() ==> !(s[i] == DOT && s[i + 1] == DOT)
}

/// The structural facts the lenient scan maintains: output alphabet, no
/// doubled byte of any separator class, the final state tells what class the
/// output ends in, and flags set on entry keep that class from leading.
pub proof fn lemma_lenient_scan_props(bs: Seq<u8>, st: LenientFlags, keep_case: bool)
    ensures
        forall|i: int|
            0 <= i < lenient_scan(bs, st, keep_case).len() ==> is_lenient_byte(
                #[trigger] lenient_scan(bs, st, keep_case)[i],
                keep_case,
            ),
        no_double_dash(lenient_scan(bs, st, keep_case)),
        no_double_ws(lenient_scan(bs, st, keep_case)),
        no_double_dot(lenient_scan(bs, st, keep_case)),
        lenient_scan(bs, st, keep_case).len() == 0 ==> lenient_after(bs, st) == st,
        lenient_scan(bs, st, keep_case).len() > 0 ==> ((lenient_scan(bs, st, keep_case).last()
            == DASH <==> lenient_after(bs, st).prev_dash) && (is_ws_byte(
            lenient_scan(bs, st, keep_case).last(),
        ) <==> lenient_after(bs, st).prev_ws) && (lenient_scan(bs, st, keep_case).last() == DOT
            <==> lenient_after(bs, st).prev_dot)),
        st.prev_dash && lenient_scan(bs, st, keep_case).len() > 0 ==> lenient_scan(
            bs,
            st,
            keep_case,
        )[0] != DASH,
        st.prev_ws && lenient_scan(bs, st, keep_case).len() > 0 ==> !is_ws_byte(
            lenient_scan(bs, st, keep_case)[0],
        ),
        st.prev_dot && lenient_scan(bs, st, keep_case).len() > 0 ==> lenient_scan(
            bs,
            st,
            keep_case,
        )[0] != DOT,
    decreases bs.len(),
{
    if bs.len() > 0 {
        let e = lenient_emit(st, keep_case, bs.first());
        let st1 = lenient_next(st, bs.first());
        let rest = lenient_scan(bs.drop_first(), st1, keep_case);
        lemma_lenient_scan_props(bs.drop_first(), st1, keep_case);
        assert(lenient_scan(bs, st, keep_case) == e + rest);
        assert forall|i: int| 0 <= i < (e + rest).len() implies is_lenient_byte(
            #[trigger] (e + rest)[i],
            keep_case,
        ) by {
            if i >= e.len() {
                assert((e + rest)[i] == rest[i - e.len()]);
            }
        }
        assert forall|i: int| #![trigger (e + rest)[i], (e + rest)[i + 1]]
            0 <= i && i + 1 < (e + rest).len() implies !((e + rest)[i] == DASH && (e + rest)[i
            + 1] == DASH) && !(is_ws_byte((e + rest)[i]) && is_ws_byte((e + rest)[i + 1])) && !((e
            + rest)[i] == DOT && (e + rest)[i + 1] == DOT) by {
            if i + 1 == e.len() {
                assert((e + rest)[i] == e[i]);
                assert((e + rest)[i + 1] == rest[0]);
                if e[i] == DASH {
                    assert(st1.prev_dash);
                    assert(rest[0] != DASH);
                }
                if is_ws_byte(e[i]) {
                    assert(st1.prev_ws);
                    assert(!is_ws_byte(rest[0]));
                }
                if e[i] == DOT {
                    assert(st1.prev_dot);
                    assert(rest[0] != DOT);
                }
            } else if i >= e.len() {
                let j = i - e.len();
                assert((e + rest)[i] == rest[j]);
                assert((e + rest)[i + 1] == rest[j + 1]);
                assert(!(rest[j] == DASH && rest[j + 1] == DASH));
                assert(!(is_ws_byte(rest[j]) && is_ws_byte(rest[j + 1])));
                assert(!(rest[j] == DOT && rest[j + 1] == DOT));
            }
        }
        if rest.len() > 0 {
            assert((e + rest).last() == rest.last());
        } else {
            if e.len() > 0 {
                assert((e + rest).last() == e.last());
            }
        }
        if (e + rest).len() > 0 {
            if e.len() > 0 {
                assert((e + rest)[0] == e[0]);
            } else {
                assert(st1 == st);
                assert((e + rest)[0] == rest[0]);
            }
        }
    }
}

/// Trailing hyphens and spaces are removed after the scan, whichever order
/// they stand in; a trailing underscore or dot stays.
pub open spec fn trim_trailing(s: Seq<u8>) -> Seq<u8>
    decreases s.len(),
{
    if s.len() > 0 && (s.last() == DASH || s.last() == SPACE) {
        trim_trailing(s.drop_last())
    } else {
        s
    }
}

/// The byte-level shape of a finished lenient slug.
pub open spec fn is_lenient_slug_bytes(s: Seq<u8>, keep_case: bool) -> bool {
    &&& forall|i: int| 0 <= i < s.len() ==> is_lenient_byte(#[trigger] s[i], keep_case)
    &&& no_double_dash(s)
    &&& no_double_ws(s)
    &&& no_double_dot(s)
    &&& (s.len() > 0 ==> s[0] != DASH && !is_ws_byte(s[0]) && s.last() != DASH && s.last()
        != SPACE)
}

/// Trimming keeps the alphabet, the no-duplicate facts and the first byte,
/// and leaves neither a hyphen nor a space at the end.
proof fn lemma_trim_trailing_props(s: Seq<u8>, keep_case: bool)
    requires
        forall|i: int| 0 <= i < s.len() ==> is_lenient_byte(#[trigger] s[i], keep_case),
        no_double_dash(s),
        no_double_ws(s),
        no_double_dot(s),
        s.len() > 0 ==> s[0] != DASH && !is_ws_byte(s[0]),
    ensures
        is_lenient_slug_bytes(trim_trailing(s), keep_case),
    decreases s.len(),
{
    if s.len() > 0 && (s.last() == DASH || s.last() == SPACE) {
        let t = s.drop_last();
        assert(forall|i: int| 0 <= i < t.len() ==> t[i] == s[i]);
        lemma_trim_trailing_props(t, keep_case);
    }
}

/// The finished lenient output, as bytes: the whole input expanded, scanned
/// from the initial state, and trimmed.
pub open spec fn lenient_slug_bytes(cs: Seq<char>, keep_case: bool) -> Seq<u8> {
    trim_trailing(lenient_scan(expand(cs), lenient_init(), keep_case))
}

/// What `slugify_normal` returns: the lenient output bytes, read as
/// characters.
pub open spec fn spec_slugify_normal(cs: Seq<char>, keep_case: bool) -> Seq<char> {
    chars_of_bytes(lenient_slug_bytes(cs, keep_case))
}

/// The finished lenient output keeps the slug shape at the byte level.
pub proof fn lemma_lenient_slug_bytes_wf(cs: Seq<char>, keep_case: bool)
    ensures
        is_lenient_slug_bytes(lenient_slug_bytes(cs, keep_case), keep_case),
{
    lemma_lenient_scan_props(expand(cs), lenient_init(), keep_case);
    lemma_trim_trailing_props(lenient_scan(expand(cs), lenient_init(), keep_case), keep_case);
}

/// Classifies one byte and appends what it emits, updating the state.
fn push_lenient_byte(slug: &mut Vec<u8>, st: &mut LenientFlags, keep_case: bool, x: u8)
    ensures
        final(slug)@ == old(slug)@ + lenient_emit(*old(st), keep_case, x),
        *final(st) == lenient_next(*old(st), x),
{
    let ghost st0 = *st;
    if ('a' as u8 <= x && x <= 'z' as u8) || ('0' as u8 <= x && x <= '9' as u8) {
        *st = LenientFlags { prev_dash: false, prev_ws: false, prev_dot: false };
        slug.push(x);
        proof {
            assert(old(slug)@.push(x) =~= old(slug)@ + lenient_emit(st0, keep_case, x));
        }
    } else if 'A' as u8 <= x && x <= 'Z' as u8 {
        *st = LenientFlags { prev_dash: false, prev_ws: false, prev_dot: false };
        if keep_case {
            slug.push(x);
            proof {
                assert(old(slug)@.push(x) =~= old(slug)@ + lenient_emit(st0, keep_case, x));
            }
        } else {
            slug.push(x + 32);
            proof {
                assert(old(slug)@.push(lower_byte(x)) =~= old(slug)@ + lenient_emit(
                    st0,
                    keep_case,
                    x,
                ));
            }
        }
    } else if x == SPACE || x == UNDERSCORE {
        if !st.prev_ws {
            *st = LenientFlags { prev_dash: false, prev_ws: true, prev_dot: false };
            slug.push(x);
            proof {
                assert(old(slug)@.push(x) =~= old(slug)@ + lenient_emit(st0, keep_case, x));
            }
        } else {
            proof {
                assert(old(slug)@ + lenient_emit(st0, keep_case, x) =~= old(slug)@);
            }
        }
    } else if x == DOT {
        if !st.prev_dot {
            *st = LenientFlags { prev_dash: false, prev_ws: false, prev_dot: true };
            slug.push(x);
            proof {
                assert(old(slug)@.push(x) =~= old(slug)@ + lenient_emit(st0, keep_case, x));
            }
        } else {
            proof {
                assert(old(slug)@ + lenient_emit(st0, keep_case, x) =~= old(slug)@);
            }
        }
    } else {
        if !st.prev_dash {
            *st = LenientFlags { prev_dash: true, prev_ws: false, prev_dot: false };
            slug.push(DASH);
            proof {
                assert(old(slug)@.push(DASH) =~= old(slug)@ + lenient_emit(st0, keep_case, x));
            }
        } else {
            proof {
                assert(old(slug)@ + lenient_emit(st0, keep_case, x) =~= old(slug)@);
            }
        }
    }
}

/// Feeds one input character through transliteration and the lenient
/// classifier.
fn push_lenient_char(slug: &mut Vec<u8>, st: &mut LenientFlags, keep_case: bool, c: char)
    ensures
        final(slug)@ == old(slug)@ + lenient_scan(expand_char(c), *old(st), keep_case),
        *final(st) == lenient_after(expand_char(c), *old(st)),
{
    let ghost st0 = *st;
    let u = c as u32;
    if u < 128 {
        proof {
            lemma_lenient_scan_snoc(Seq::<u8>::empty(), st0, keep_case, c as u8);
            assert(Seq::<u8>::empty().push(c as u8) =~= expand_char(c));
            assert(lenient_scan(Seq::<u8>::empty(), st0, keep_case) + lenient_emit(
                st0,
                keep_case,
                c as u8,
            ) =~= lenient_emit(st0, keep_case, c as u8));
        }
        push_lenient_byte(slug, st, keep_case, u as u8);
    } else {
        match transliterate_char(c) {
            Some(bs) => {
                let ghost base = slug@;
                let mut j: usize = 0;
                while j < bs.len()
                    invariant
                        j <= bs@.len(),
                        slug@ == base + lenient_scan(bs@.take(j as int), st0, keep_case),
                        *st == lenient_after(bs@.take(j as int), st0),
                    decreases bs@.len() - j,
                {
                    let x = bs[j];
                    proof {
                        lemma_lenient_scan_snoc(bs@.take(j as int), st0, keep_case, x);
                        assert(bs@.take(j as int).push(x) =~= bs@.take(j + 1 as int));
                    }
                    push_lenient_byte(slug, st, keep_case, x);
                    j += 1;
                }
                proof {
                    assert(bs@.take(bs@.len() as int) =~= bs@);
                    assert(expand_char(c) == bs@);
                }
            },
            None => {
                proof {
                    lemma_lenient_scan_snoc(Seq::<u8>::empty(), st0, keep_case, DASH);
                    assert(Seq::<u8>::empty().push(DASH) =~= expand_char(c));
                    assert(lenient_scan(Seq::<u8>::empty(), st0, keep_case) + lenient_emit(
                        st0,
                        keep_case,
                        DASH,
                    ) =~= lenient_emit(st0, keep_case, DASH));
                }
                push_lenient_byte(slug, st, keep_case, DASH);
            },
        }
    }
}

/// Converts any text to a lenient ASCII slug: letters (case preserved when
/// `leave_size` is set, lowered otherwise), digits, hyphens, spaces, dots
/// and underscores; consecutive duplicates of each separator class collapse
/// into one, no hyphen or whitespace leads, and trailing hyphens and spaces
/// are removed.
pub fn slugify_normal(s: &str, leave_size: bool) -> (out: String)
    ensures
        out@ == spec_slugify_normal(s@, leave_size),
{
    let n = s.unicode_len();
    let mut slug: Vec<u8> = Vec::new();
    let mut st = LenientFlags { prev_dash: true, prev_ws: true, prev_dot: false };
    let mut i: usize = 0;
    while i < n
        invariant
            i <= n,
            n == s@.len(),
            slug@ == lenient_scan(expand(s@.take(i as int)), lenient_init(), leave_size),
            st == lenient_after(expand(s@.take(i as int)), lenient_init()),
        decreases n - i,
    {
        let c = s.get_char(i);
        proof {
            lemma_expand_take_succ(s@, i as int);
            lemma_lenient_scan_concat(
                expand(s@.take(i as int)),
                expand_char(s@[i as int]),
                lenient_init(),
                leave_size,
            );
        }
        push_lenient_char(&mut slug, &mut st, leave_size, c);
        i += 1;
    }
    proof {
        assert(s@.take(n as int) =~= s@);
    }
    let ghost full = lenient_scan(expand(s@), lenient_init(), leave_size);
    while slug.len() > 0 && (slug[slug.len() - 1] == DASH || slug[slug.len() - 1] == SPACE)
        invariant
            trim_trailing(slug@) == trim_trailing(full),
        decreases slug.len(),
    {
        slug.pop();
    }
    proof {
        assert(trim_trailing(slug@) == slug@);
        lemma_lenient_slug_bytes_wf(s@, leave_size);
        assert(forall|i: int| 0 <= i < slug@.len() ==> slug@[i] < 128);
    }
    ascii_bytes_to_string(slug)
}

/// The shape every lenient slug has: drawn from the lenient alphabet
/// (uppercase only where case is preserved), no two adjacent hyphens,
/// whitespace-class characters or dots, and neither a hyphen nor whitespace
/// leading, nor a hyphen or space trailing.
pub open spec fn is_lenient_slug(s: Seq<char>, keep_case: bool) -> bool {
    &&& forall|i: int|
        0 <= i < s.len() ==> ('a' <= #[trigger] s[i] <= 'z' || '0' <= s[i] <= '9' || (keep_case
            && 'A' <= s[i] <= 'Z') || s[i] == '-' || s[i] == ' ' || s[i] == '_' || s[i] == '.')
    &&& forall|i: int| #![trigger s[i], s[i + 1]]
        0 <= i && i + 1 < s.len() ==> !(s[i] == '-' && s[i + 1] == '-')
    &&& forall|i: int| #![trigger s[i], s[i + 1]]
        0 <= i && i + 1 < s.len() ==> !((s[i] == ' ' || s[i] == '_') && (s[i + 1] == ' ' || s[i
            + 1] == '_'))
    &&& forall|i: int| #![trigger s[i], s[i + 1]]
        0 <= i && i + 1 < s.len() ==> !(s[i] == '.' && s[i + 1] == '.')
    &&& (s.len() > 0 ==> s[0] != '-' && s[0] != ' ' && s[0] != '_' && s.last() != '-' && s.last()
        != ' ')
}

/// The lenient output always has the lenient slug shape: no doubled
/// separator of any class, nothing but the lenient alphabet, no leading
/// hyphen or whitespace, no trailing hyphen or space.
pub proof fn lemma_slugify_normal_well_formed(cs: Seq<char>, keep_case: bool)
    ensures
        is_lenient_slug(spec_slugify_normal(cs, keep_case), keep_case),
{
    lemma_lenient_slug_bytes_wf(cs, keep_case);
    let t = lenient_slug_bytes(cs, keep_case);
    let u = spec_slugify_normal(cs, keep_case);
    assert(forall|i: int| 0 <= i < u.len() ==> u[i] == (#[trigger] t[i]) as char);
    assert forall|i: int| 0 <= i < u.len() implies ('a' <= #[trigger] u[i] <= 'z' || '0' <= u[i]
        <= '9' || (keep_case && 'A' <= u[i] <= 'Z') || u[i] == '-' || u[i] == ' ' || u[i] == '_'
        || u[i] == '.') by {
        assert(is_lenient_byte(t[i], keep_case));
    }
    assert forall|i: int| #![trigger u[i], u[i + 1]]
        0 <= i && i + 1 < u.len() implies !(u[i] == '-' && u[i + 1] == '-') && !((u[i] == ' '
        || u[i] == '_') && (u[i + 1] == ' ' || u[i + 1] == '_')) && !(u[i] == '.' && u[i + 1]
        == '.') by {
        assert(!(t[i] == DASH && t[i + 1] == DASH));
        assert(!(is_ws_byte(t[i]) && is_ws_byte(t[i + 1])));
        assert(!(t[i] == DOT && t[i + 1] == DOT));
    }
    if u.len() > 0 {
        assert(t[0] != DASH && !is_ws_byte(t[0]) && t.last() != DASH && t.last() != SPACE);
    }
}

/// With case preservation off, the lenient output never holds an uppercase
/// letter.
pub proof fn lemma_slugify_normal_no_upper(cs: Seq<char>)
    ensures
        forall|i: int|
            0 <= i < spec_slugify_normal(cs, false).len() ==> !('A' <= #[trigger] spec_slugify_normal(
                cs,
                false,
            )[i] <= 'Z'),
{
    lemma_slugify_normal_well_formed(cs, false);
}

} // verus!
