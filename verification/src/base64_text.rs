//! Standard base64 (RFC 4648 alphabet, with padding) through the `base64`
//! crate's `STANDARD` engine, for the text form of v7 ciphertexts.
use base64::engine::general_purpose::STANDARD;
use base64::Engine;
use vstd::prelude::*;

verus! {

/// The base64 digit of a six-bit value.
pub open spec fn b64_digit(v: nat) -> char {
    if v < 26 {
        (65 + v) as char
    } else if v < 52 {
        (97 + v - 26) as char
    } else if v < 62 {
        (48 + v - 52) as char
    } else if v == 62 {
        '+'
    } else {
        '/'
    }
}

/// Standard base64 with `=` padding: each three bytes become four digits;
/// a final one or two bytes become two or three digits and padding.
pub open spec fn base64_encode(b: Seq<u8>) -> Seq<char>
    decreases b.len(),
{
    if b.len() == 0 {
        seq![]
    } else if b.len() == 1 {
        seq![b64_digit(b[0] as nat / 4), b64_digit((b[0] as nat % 4) * 16), '=', '=']
    } else if b.len() == 2 {
        seq![
            b64_digit(b[0] as nat / 4),
            b64_digit((b[0] as nat % 4) * 16 + b[1] as nat / 16),
            b64_digit((b[1] as nat % 16) * 4),
            '=',
        ]
    } else {
        seq![
            b64_digit(b[0] as nat / 4),
            b64_digit((b[0] as nat % 4) * 16 + b[1] as nat / 16),
            b64_digit((b[1] as nat % 16) * 4 + b[2] as nat / 64),
            b64_digit(b[2] as nat % 64),
        ] + base64_encode(b.subrange(3, b.len() as int))
    }
}

/// Calls `STANDARD.encode`. Claimed: the text is `base64_encode(bytes)`
/// (the `STANDARD` engine pads, per RFC 4648).
#[verifier::external_body]
pub fn base64_std_encode(bytes: &[u8]) -> (out: String)
    ensures
        out@ == base64_encode(bytes@),
{
    STANDARD.encode(bytes)
}

/// What `STANDARD.decode` gives for a text: the bytes, or the text of its
/// `DecodeError`. Its value on given inputs is left unstated.
pub uninterp spec fn base64_decode(text: Seq<char>) -> Result<Seq<u8>, Seq<char>>;

/// Calls `STANDARD.decode` on the text's bytes. Claimed: the result is
/// `base64_decode(text)`; it succeeds exactly on the texts that are the
/// encoding of some bytes (the engine requires canonical padding and no
/// trailing bits), and gives back bytes whose encoding is the text.
#[verifier::external_body]
pub fn base64_std_decode(text: &str) -> (r: Result<Vec<u8>, String>)
    ensures
        match r {
            Ok(v) => base64_decode(text@) == Ok::<Seq<u8>, Seq<char>>(v@) && base64_encode(v@)
                == text@,
            Err(e) => base64_decode(text@) == Err::<Seq<u8>, Seq<char>>(e@) && !(exists|b: Seq<u8>|
                #[trigger] base64_encode(b) == text@),
        },
{
    match STANDARD.decode(text.as_bytes()) {
        Ok(v) => Ok(v),
        Err(e) => Err(e.to_string()),
    }
}

proof fn lemma_b64_digit(v: nat, w: nat)
    requires
        v < 64,
        w < 64,
    ensures
        b64_digit(v) != '=',
        b64_digit(v) == b64_digit(w) ==> v == w,
{
}

proof fn lemma_group3(a0: u8, a1: u8, a2: u8, b0: u8, b1: u8, b2: u8)
    by (bit_vector)
    requires
        a0 / 4 == b0 / 4,
        (a0 % 4) * 16 + a1 / 16 == (b0 % 4) * 16 + b1 / 16,
        (a1 % 16) * 4 + a2 / 64 == (b1 % 16) * 4 + b2 / 64,
        a2 % 64 == b2 % 64,
    ensures
        a0 == b0 && a1 == b1 && a2 == b2,
{
}

proof fn lemma_group2(a0: u8, a1: u8, b0: u8, b1: u8)
    by (bit_vector)
    requires
        a0 / 4 == b0 / 4,
        (a0 % 4) * 16 + a1 / 16 == (b0 % 4) * 16 + b1 / 16,
        (a1 % 16) * 4 == (b1 % 16) * 4,
    ensures
        a0 == b0 && a1 == b1,
{
}

proof fn lemma_group1(a0: u8, b0: u8)
    by (bit_vector)
    requires
        a0 / 4 == b0 / 4,
        (a0 % 4) * 16 == (b0 % 4) * 16,
    ensures
        a0 == b0,
{
}

/// The encoding is at least as long as the bytes, and distinct byte
/// strings have distinct encodings.
pub proof fn lemma_base64_encode(a: Seq<u8>, b: Seq<u8>)
    ensures
        base64_encode(a).len() >= a.len(),
        base64_encode(a) == base64_encode(b) ==> a == b,
    decreases a.len(),
{
    let ea = base64_encode(a);
    let eb = base64_encode(b);
    if a.len() >= 3 {
        lemma_base64_encode(a.subrange(3, a.len() as int), a.subrange(3, a.len() as int));
    }
    if ea == eb && a.len() == 0 {
        if b.len() > 0 {
            assert(eb.len() > 0);
        }
        assert(a =~= b);
    }
    if ea == eb && a.len() > 0 {
        assert(eb.len() > 0);
        assert(b.len() > 0);
        let x0 = a[0] as nat / 4;
        let y0 = b[0] as nat / 4;
        lemma_b64_digit(x0, y0);
        let x1 = (a[0] as nat % 4) * 16 + (if a.len() >= 2 { a[1] as nat / 16 } else { 0 });
        let y1 = (b[0] as nat % 4) * 16 + (if b.len() >= 2 { b[1] as nat / 16 } else { 0 });
        lemma_b64_digit(x1, y1);
        assert(ea[0] == eb[0] && ea[1] == eb[1] && ea[2] == eb[2] && ea[3] == eb[3]);
        if a.len() == 1 {
            if b.len() >= 2 {
                let y2 = (b[1] as nat % 16) * 4 + (if b.len() >= 3 { b[2] as nat / 64 } else { 0 });
                lemma_b64_digit(y2, y2);
            }
            lemma_group1(a[0], b[0]);
            assert(a =~= b);
        } else if a.len() == 2 {
            let x2 = (a[1] as nat % 16) * 4;
            lemma_b64_digit(x2, x2);
            if b.len() >= 3 {
                lemma_b64_digit(b[2] as nat % 64, b[2] as nat % 64);
            }
            if b.len() == 2 {
                lemma_group2(a[0], a[1], b[0], b[1]);
                assert(a =~= b);
            } else if b.len() >= 3 {
                let y2 = (b[1] as nat % 16) * 4 + b[2] as nat / 64;
                lemma_b64_digit(x2, y2);
            }
        } else {
            let x2 = (a[1] as nat % 16) * 4 + a[2] as nat / 64;
            lemma_b64_digit(a[2] as nat % 64, a[2] as nat % 64);
            lemma_b64_digit(x2, x2);
            if b.len() >= 3 {
                let y2 = (b[1] as nat % 16) * 4 + b[2] as nat / 64;
                lemma_b64_digit(x2, y2);
                lemma_b64_digit(a[2] as nat % 64, b[2] as nat % 64);
                lemma_group3(a[0], a[1], a[2], b[0], b[1], b[2]);
                let ra = a.subrange(3, a.len() as int);
                let rb = b.subrange(3, b.len() as int);
                assert(ea.subrange(4, ea.len() as int) =~= base64_encode(ra));
                assert(eb.subrange(4, eb.len() as int) =~= base64_encode(rb));
                assert(base64_encode(ra) == base64_encode(rb));
                lemma_base64_encode(ra, rb);
                assert(ra == rb);
                assert(a.len() == b.len());
                assert forall|i: int| 0 <= i < a.len() implies a[i] == b[i] by {
                    if i >= 3 {
                        assert(a[i] == ra[i - 3]);
                        assert(b[i] == rb[i - 3]);
                    }
                }
                assert(a =~= b);
            }
        }
    }
}

} // verus!
