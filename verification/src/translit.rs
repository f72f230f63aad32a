//! The transliteration collaborator: every non-ASCII character is turned
//! into a short ASCII byte sequence by a fixed lookup table, consumed here
//! through one operation.

use vstd::prelude::*;
use crate::ascii::DASH;

verus! {

/// The ASCII byte sequence that the transliteration table assigns to a
/// character, or `None` where the table has no mapping. The table is fixed
/// data, so the result depends on the character alone.
pub uninterp spec fn translit_of(c: char) -> Option<Seq<u8>>;

/// Relies on `deunicode::deunicode_char`: a pure lookup in a fixed built-in
/// transliteration table, returning an ASCII approximation of one character,
/// or `None` where the table maps nothing to it.
#[verifier::external_body]
pub(crate) fn transliterate_char(c: char) -> (r: Option<Vec<u8>>)
    ensures
        r is Some <==> translit_of(c) is Some,
        r matches Some(v) ==> translit_of(c) == Some(v@),
{
    deunicode::deunicode_char(c).map(|t| t.as_bytes().to_vec())
}

/// The bytes one input character contributes to the scanned stream: an ASCII
/// character is its own byte; any other character is what the table maps it
/// to, or a single `-` where the table has no mapping. A mapping to an empty
/// sequence contributes nothing, exactly like the table's empty entries.
pub open spec fn expand_char(c: char) -> Seq<u8> {
    if (c as u32) < 128 {
        seq![c as u8]
    } else {
        match translit_of(c) {
            Some(bs) => bs,
            None => seq![DASH],
        }
    }
}

/// The byte stream that a whole character sequence feeds into the collapsing
/// automaton: the concatenation of each character's expansion, in order.
pub open spec fn expand(cs: Seq<char>) -> Seq<u8>
    decreases cs.len(),
{
    if cs.len() == 0 {
        Seq::empty()
    } else {
        expand(cs.drop_last()) + expand_char(cs.last())
    }
}

/// Extending the input by one character appends that character's expansion.
pub proof fn lemma_expand_take_succ(cs: Seq<char>, i: int)
    requires
        0 <= i < cs.len(),
    ensures
        expand(cs.take(i + 1)) == expand(cs.take(i)) + expand_char(cs[i]),
{
    assert(cs.take(i + 1).drop_last() =~= cs.take(i));
    assert(cs.take(i + 1).last() == cs[i]);
}

/// A sequence of ASCII characters expands to exactly its own bytes.
pub proof fn lemma_expand_ascii(cs: Seq<char>)
    requires
        forall|i: int| 0 <= i < cs.len() ==> (#[trigger] cs[i] as u32) < 128,
    ensures
        expand(cs) =~= cs.map(|_i: int, c: char| c as u8),
    decreases cs.len(),
{
    if cs.len() > 0 {
        lemma_expand_ascii(cs.drop_last());
        assert(expand_char(cs.last()) =~= seq![cs.last() as u8]);
        assert(cs.drop_last().map(|_i: int, c: char| c as u8) =~= cs.map(
            |_i: int, c: char| c as u8,
        ).drop_last());
    }
}

} // verus!
