//! Code points of a string and the string of a code-point sequence.
use crate::primitives::{char_from_u32, is_scalar, push_char};
use vstd::prelude::*;

verus! {

broadcast use vstd::string::group_string_axioms;

/// The code points of a character sequence.
pub open spec fn cps_of(m: Seq<char>) -> Seq<u32> {
    Seq::new(m.len(), |i: int| m[i] as u32)
}

/// The characters of a code-point sequence.
pub open spec fn chars_of(cps: Seq<u32>) -> Seq<char> {
    Seq::new(cps.len(), |i: int| cps[i] as char)
}

pub fn codepoints(s: &str) -> (out: Vec<u32>)
    ensures
        out@ == cps_of(s@),
{
    let mut out: Vec<u32> = Vec::new();
    for c in it: s.chars()
        invariant
            it.seq() == s@,
            out@ == cps_of(it.seq().subrange(0, it.index() as int)),
    {
        out.push(c as u32);
    }
    out
}

/// Every element of `cps` is a Unicode scalar value.
pub open spec fn all_scalar(cps: Seq<u32>) -> bool {
    forall|i: int| 0 <= i < cps.len() ==> is_scalar(#[trigger] cps[i] as nat)
}

/// The code points of characters are scalar values, and turn back into the
/// same characters.
pub proof fn lemma_cps_of(m: Seq<char>)
    ensures
        all_scalar(cps_of(m)),
        chars_of(cps_of(m)) == m,
        cps_of(m).len() == m.len(),
{
    assert forall|i: int| 0 <= i < m.len() implies is_scalar(#[trigger] cps_of(m)[i] as nat) by {
        vstd::utf8::char_is_scalar(m[i]);
    }
    assert forall|i: int| 0 <= i < m.len() implies #[trigger] chars_of(cps_of(m))[i] == m[i] by {
        vstd::utf8::char_u32_cast(m[i], m[i] as u32);
    }
    assert(chars_of(cps_of(m)) =~= m);
}

/// The string whose characters have the code points `cps`.
pub fn string_of_scalars(cps: &[u32]) -> (s: String)
    requires
        all_scalar(cps@),
    ensures
        s@ == chars_of(cps@),
{
    let mut s = String::new();
    let mut i: usize = 0;
    while i < cps.len()
        invariant
            i <= cps@.len(),
            all_scalar(cps@),
            s@ == chars_of(cps@.subrange(0, i as int)),
        decreases cps@.len() - i,
    {
        let c = cps[i];
        assert(is_scalar(cps@[i as int] as nat));
        match char_from_u32(c) {
            Some(ch) => {
                push_char(&mut s, ch);
            },
            None => {},
        }
        proof {
            assert(chars_of(cps@.subrange(0, i + 1)) =~= chars_of(cps@.subrange(0, i as int)).push(
                c as char,
            ));
        }
        i = i + 1;
    }
    assert(cps@.subrange(0, i as int) =~= cps@);
    s
}

} // verus!
