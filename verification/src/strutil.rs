//! Small verified string helpers shared across the crate: decimal rendering
//! of integers and ASCII byte/char conversion.

use vstd::prelude::*;

verus! {

/// The character for one decimal digit.
pub open spec fn digit_char(d: nat) -> char {
    ((48 + d % 10) as u8) as char
}

/// The decimal representation of `n`, most significant digit first.
pub open spec fn dec_str(n: nat) -> Seq<char>
    decreases n,
{
    if n < 10 {
        seq![digit_char(n)]
    } else {
        dec_str(n / 10).push(digit_char(n % 10))
    }
}

/// The characters of a reversed digit-byte sequence, read back to front.
pub open spec fn rev_chars(rev: Seq<u8>) -> Seq<char> {
    Seq::new(rev.len(), |k: int| (rev[rev.len() - 1 - k] as char))
}

/// Appends one character to a string.
/// Relies on String::push: it appends exactly the given character.
#[verifier::external_body]
pub fn push_char(s: &mut String, c: char)
    ensures
        final(s)@ == old(s)@.push(c),
{
    s.push(c)
}

/// Whether two string slices hold the same characters.
pub fn str_eq(a: &str, b: &str) -> (r: bool)
    ensures
        r == (a@ == b@),
{
    let alen = a.unicode_len();
    let blen = b.unicode_len();
    if alen != blen {
        proof {
            assert(a@ != b@);
        }
        return false;
    }
    let mut i: usize = 0;
    while i < alen
        invariant
            alen == a@.len(),
            blen == b@.len(),
            alen == blen,
            i <= alen,
            forall|k: int| 0 <= k < i ==> a@[k] == b@[k],
        decreases alen - i,
    {
        if a.get_char(i) != b.get_char(i) {
            return false;
        }
        i = i + 1;
    }
    proof {
        assert(a@ =~= b@);
    }
    true
}

/// Turns a vector of ASCII bytes into the string of the same code points.
/// Relies on String::from_utf8: bytes below 0x80 are valid UTF-8 and decode
/// one byte to one character.
#[verifier::external_body]
pub fn ascii_vec_to_string(v: Vec<u8>) -> (r: String)
    requires
        forall|i: int| 0 <= i < v@.len() ==> v@[i] < 128,
    ensures
        r@.len() == v@.len(),
        forall|i: int| 0 <= i < v@.len() ==> r@[i] == (v@[i] as char),
{
    String::from_utf8(v).unwrap_or_default()
}

/// Renders `n` in decimal.
pub fn u64_to_string(n: u64) -> (r: String)
    ensures
        r@ == dec_str(n as nat),
{
    let mut rev: Vec<u8> = Vec::new();
    let mut m: u64 = n;
    while m >= 10
        invariant
            dec_str(n as nat) == dec_str(m as nat) + rev_chars(rev@),
            forall|i: int| 0 <= i < rev@.len() ==> 48 <= #[trigger] rev@[i] < 58,
        decreases m,
    {
        let b: u8 = (m % 10) as u8 + 48;
        let ghost prev = rev@;
        rev.push(b);
        proof {
            assert(rev_chars(rev@) =~= seq![b as char] + rev_chars(prev));
            assert(dec_str(m as nat) =~= dec_str((m as nat) / 10).push(digit_char(
                (m as nat) % 10,
            )));
            assert(dec_str((m / 10) as nat) + rev_chars(rev@) =~= dec_str(m as nat) + rev_chars(
                prev,
            ));
        }
        m = m / 10;
    }
    let b: u8 = m as u8 + 48;
    let ghost prev = rev@;
    rev.push(b);
    proof {
        assert(rev_chars(rev@) =~= seq![b as char] + rev_chars(prev));
        assert(dec_str(n as nat) =~= rev_chars(rev@));
    }
    let mut out: Vec<u8> = Vec::new();
    let mut i: usize = rev.len();
    while i > 0
        invariant
            i <= rev@.len(),
            forall|k: int| 0 <= k < rev@.len() ==> 48 <= #[trigger] rev@[k] < 58,
            out@.len() == rev@.len() - i,
            forall|k: int| 0 <= k < out@.len() ==> #[trigger] out@[k] == rev@[rev@.len() - 1 - k],
        decreases i,
    {
        i = i - 1;
        out.push(rev[i]);
    }
    proof {
        assert(rev_chars(rev@) =~= Seq::new(out@.len(), |k: int| (out@[k] as char)));
    }
    let r = ascii_vec_to_string(out);
    proof {
        assert(r@ =~= rev_chars(rev@));
    }
    r
}

} // verus!
