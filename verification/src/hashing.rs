//! Replica keys: fixed-width digests derived from a resource identifier and a
//! replica index. The digest itself comes from the blake3 crate; everything
//! around it — rendering the replica index in decimal and appending it to the
//! identifier — is verified here.

use vstd::prelude::*;
use vstd::string::StringExecFns;

verus! {

/// The 32-byte digest that blake3 computes from the UTF-8 encoding of a
/// string: a pure function of the characters alone.
pub uninterp spec fn blake3_digest(s: Seq<char>) -> Seq<u8>;

/// Relies on `blake3::hash` and `blake3::Hash::as_bytes`: the 32-byte digest
/// of the input bytes, a deterministic function of the input alone.
#[verifier::external_body]
pub(crate) fn digest_of(s: &str) -> (r: Vec<u8>)
    ensures
        r@ == blake3_digest(s@),
{
    blake3::hash(s.as_bytes()).as_bytes().to_vec()
}

/// The character for one decimal digit.
pub open spec fn digit_char(d: nat) -> char {
    if d == 0 {
        '0'
    } else if d == 1 {
        '1'
    } else if d == 2 {
        '2'
    } else if d == 3 {
        '3'
    } else if d == 4 {
        '4'
    } else if d == 5 {
        '5'
    } else if d == 6 {
        '6'
    } else if d == 7 {
        '7'
    } else if d == 8 {
        '8'
    } else {
        '9'
    }
}

/// The decimal rendering of `n`, most significant digit first.
pub open spec fn dec_digits(n: nat) -> Seq<char>
    decreases n,
{
    if n < 10 {
        seq![digit_char(n)]
    } else {
        dec_digits(n / 10).push(digit_char(n % 10))
    }
}

/// The replica key for a given identifier and replica index: the digest of
/// the identifier with the index's decimal rendering appended.
pub open spec fn replica_key(id: Seq<char>, i: nat) -> Seq<u8> {
    blake3_digest(id + dec_digits(i))
}

fn digit_str(d: usize) -> (r: &'static str)
    requires
        d < 10,
    ensures
        r@ =~= seq![digit_char(d as nat)],
{
    proof {
        reveal_strlit("0");
        reveal_strlit("1");
        reveal_strlit("2");
        reveal_strlit("3");
        reveal_strlit("4");
        reveal_strlit("5");
        reveal_strlit("6");
        reveal_strlit("7");
        reveal_strlit("8");
        reveal_strlit("9");
    }
    if d == 0 {
        "0"
    } else if d == 1 {
        "1"
    } else if d == 2 {
        "2"
    } else if d == 3 {
        "3"
    } else if d == 4 {
        "4"
    } else if d == 5 {
        "5"
    } else if d == 6 {
        "6"
    } else if d == 7 {
        "7"
    } else if d == 8 {
        "8"
    } else {
        "9"
    }
}

/// Renders `n` in decimal.
pub fn dec_string(n: usize) -> (r: String)
    ensures
        r@ == dec_digits(n as nat),
    decreases n,
{
    if n < 10 {
        let r = digit_str(n).to_owned();
        proof {
            assert(r@ =~= dec_digits(n as nat));
        }
        r
    } else {
        let mut s = dec_string(n / 10);
        s.append(digit_str(n % 10));
        proof {
            assert(dec_digits((n / 10) as nat).push(digit_char((n % 10) as nat)) =~= dec_digits(
                (n / 10) as nat,
            ) + seq![digit_char((n % 10) as nat)]);
            assert(s@ =~= dec_digits(n as nat));
        }
        s
    }
}

/// Computes the replica key of `(id, i)`.
pub fn compute_replica_key(id: &str, i: usize) -> (r: Vec<u8>)
    ensures
        r@ == replica_key(id@, i as nat),
{
    let mut s = id.to_owned();
    let d = dec_string(i);
    s.append(d.as_str());
    proof {
        assert(s@ == id@ + dec_digits(i as nat));
    }
    digest_of(s.as_str())
}

} // verus!
