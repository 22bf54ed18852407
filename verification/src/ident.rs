//! Message identifiers.
//!
//! A message identifier is a byte string of the form local-part `@`
//! domain-part: both parts non-empty, exactly one `@`, and no whitespace,
//! control byte or angle bracket anywhere. On input an identifier may be
//! enclosed in one pair of angle brackets, as it is written in a header; the
//! stored form is the one without them.

use vstd::prelude::*;
use crate::error::{Error, ErrorKind, fails_with};
use crate::text::{
    append_bytes, copy_bytes, copy_range, decimal, decimal_digits, lemma_decimal_digits,
};

verus! {

/// The byte `@`.
pub const AT: u8 = 0x40;

/// The byte `<`.
pub const OPEN: u8 = 0x3c;

/// The byte `>`.
pub const CLOSE: u8 = 0x3e;

/// The value a content digest starts from.
pub const DIGEST_SEED: u64 = 0xcbf29ce484222325;

/// The multiplier of the content digest.
pub const DIGEST_PRIME: u64 = 0x100000001b3;

/// A byte that may stand in either part of an identifier: anything but
/// whitespace, control bytes, `@` and the angle brackets.
pub open spec fn is_id_byte(b: u8) -> bool {
    b > 0x20 && b != 0x7f && b != AT && b != OPEN && b != CLOSE
}

/// A non-empty run of identifier bytes: a local part or a domain part.
pub open spec fn is_id_part(s: Seq<u8>) -> bool {
    s.len() > 0 && forall|i: int| 0 <= i < s.len() ==> is_id_byte(#[trigger] s[i])
}

/// Whether `s` is an identifier in stored form.
pub open spec fn is_message_id(s: Seq<u8>) -> bool {
    exists|k: int|
        0 < k < s.len() - 1 && #[trigger] s[k] == AT && forall|i: int|
            0 <= i < s.len() && i != k ==> is_id_byte(#[trigger] s[i])
}

/// `raw` without one enclosing pair of angle brackets, if it has one.
pub open spec fn unbracketed(raw: Seq<u8>) -> Seq<u8> {
    if raw.len() >= 2 && raw[0] == OPEN && raw.last() == CLOSE {
        raw.subrange(1, raw.len() - 1)
    } else {
        raw
    }
}

/// The stored form of the identifier written as `raw`, if `raw` is one.
pub open spec fn canonical_id(raw: Seq<u8>) -> Option<Seq<u8>> {
    if is_message_id(unbracketed(raw)) {
        Some(unbracketed(raw))
    } else {
        None
    }
}

/// One step of the content digest.
pub open spec fn mix(h: u64, b: u8) -> u64 {
    (h ^ (b as u64)).wrapping_mul(DIGEST_PRIME)
}

/// The digest `h` after it has taken in the bytes of `s`, first to last.
pub open spec fn absorb(h: u64, s: Seq<u8>) -> u64
    decreases s.len(),
{
    if s.len() == 0 {
        h
    } else {
        mix(absorb(h, s.drop_last()), s.last())
    }
}

/// The identifier given to content whose digest is `digest`, on a server
/// whose domain is `domain`: the digest in decimal, `@`, the domain.
pub open spec fn derived_id(digest: u64, domain: Seq<u8>) -> Seq<u8> {
    decimal_digits(digest as nat).push(AT) + domain
}

/// A stored identifier is its own stored form: normalizing twice changes
/// nothing.
pub proof fn lemma_canonical_is_fixed(id: Seq<u8>)
    requires
        is_message_id(id),
    ensures
        canonical_id(id) == Some(id),
{
    let k = choose|k: int|
        0 < k < id.len() - 1 && #[trigger] id[k] == AT && forall|i: int|
            0 <= i < id.len() && i != k ==> is_id_byte(#[trigger] id[i]);
    assert(is_id_byte(id[0]));
}

/// What normalization yields is an identifier in stored form.
pub proof fn lemma_canonical_is_message_id(raw: Seq<u8>)
    ensures
        canonical_id(raw) matches Some(id) ==> is_message_id(id) && canonical_id(id) == Some(id),
{
    if canonical_id(raw) is Some {
        lemma_canonical_is_fixed(unbracketed(raw));
    }
}

/// A derived identifier is an identifier whenever the domain is a valid
/// domain part.
pub proof fn lemma_derived_is_message_id(digest: u64, domain: Seq<u8>)
    requires
        is_id_part(domain),
    ensures
        is_message_id(derived_id(digest, domain)),
{
    let d = decimal_digits(digest as nat);
    let id = derived_id(digest, domain);
    lemma_decimal_digits(digest as nat);
    let k = d.len() as int;
    assert(id[k] == AT);
    assert forall|i: int| 0 <= i < id.len() && i != k implies is_id_byte(#[trigger] id[i]) by {
        if i < k {
            assert(id[i] == d[i]);
        } else {
            assert(id[i] == domain[i - k - 1]);
        }
    }
}

/// Whether a byte may stand in either part of an identifier.
pub fn id_byte(b: u8) -> (r: bool)
    ensures
        r == is_id_byte(b),
{
    b > 0x20 && b != 0x7f && b != AT && b != OPEN && b != CLOSE
}

/// Whether `s` is a non-empty run of identifier bytes.
pub fn id_part(s: &[u8]) -> (r: bool)
    ensures
        r == is_id_part(s@),
{
    if s.len() == 0 {
        return false;
    }
    let mut i: usize = 0;
    while i < s.len()
        invariant
            i <= s.len(),
            forall|k: int| 0 <= k < i ==> is_id_byte(#[trigger] s@[k]),
        decreases s.len() - i,
    {
        if !id_byte(s[i]) {
            return false;
        }
        i += 1;
    }
    true
}

/// Whether `s` is an identifier in stored form.
pub fn message_id_ok(s: &[u8]) -> (r: bool)
    ensures
        r == is_message_id(s@),
{
    let n = s.len();
    let mut at: Option<usize> = None;
    let mut i: usize = 0;
    while i < n
        invariant
            n == s@.len(),
            i <= n,
            match at {
                Some(k) => k < i && s@[k as int] == AT,
                None => true,
            },
            forall|j: int| 0 <= j < i && at != Some(j as usize) ==> is_id_byte(#[trigger] s@[j]),
        decreases n - i,
    {
        let b = s[i];
        if b == AT {
            match at {
                Some(k) => {
                    assert(!is_id_byte(s@[k as int]) && !is_id_byte(s@[i as int]));
                    return false;
                },
                None => {
                    at = Some(i);
                },
            }
        } else if !id_byte(b) {
            assert(!is_id_byte(s@[i as int]));
            return false;
        }
        i += 1;
    }
    match at {
        Some(k) => {
            if 0 < k && k + 1 < n {
                assert(0 < k < s@.len() - 1 && s@[k as int] == AT);
                true
            } else {
                assert(!is_id_byte(s@[k as int]));
                false
            }
        },
        None => false,
    }
}

/// Validates an identifier and brings it into stored form.
///
/// Succeeds exactly on the inputs that, once an enclosing pair of angle
/// brackets is removed, are of the form local-part `@` domain-part; the
/// result is the input without those brackets. Any other input is refused
/// as a malformed identifier, and the failure carries the input.
pub fn normalize_message_id(raw: &[u8]) -> (r: Result<Vec<u8>, Error>)
    ensures
        match canonical_id(raw@) {
            Some(id) => r matches Ok(v) && v@ == id,
            None => fails_with(r, ErrorKind::MalformedIdentifier, raw@),
        },
{
    let n = raw.len();
    let core = if n >= 2 && raw[0] == OPEN && raw[n - 1] == CLOSE {
        copy_range(raw, 1, n - 1)
    } else {
        copy_bytes(raw)
    };
    if message_id_ok(core.as_slice()) {
        Ok(core)
    } else {
        Err(Error::MalformedIdentifier(copy_bytes(raw)))
    }
}

/// Takes the bytes of `s` into the digest `h`.
pub fn digest_bytes(h: u64, s: &[u8]) -> (r: u64)
    ensures
        r == absorb(h, s@),
{
    let mut acc: u64 = h;
    let mut i: usize = 0;
    while i < s.len()
        invariant
            i <= s.len(),
            acc == absorb(h, s@.take(i as int)),
        decreases s.len() - i,
    {
        assert(s@.take(i as int + 1).drop_last() =~= s@.take(i as int));
        acc = (acc ^ (s[i] as u64)).wrapping_mul(DIGEST_PRIME);
        i += 1;
    }
    assert(s@.take(s@.len() as int) =~= s@);
    acc
}

/// Builds the identifier for content with the given digest on the given
/// domain.
pub fn derive_message_id(digest: u64, domain: &[u8]) -> (r: Vec<u8>)
    ensures
        r@ == derived_id(digest, domain@),
{
    let mut out = decimal(digest);
    out.push(AT);
    append_bytes(&mut out, domain);
    out
}

} // verus!
