use crate::error::StoreError;
use vstd::prelude::*;

verus! {

/// Length of a random identifier.
pub const TOKEN_LEN: usize = 10;

/// How many random identifiers are tried before giving up.
pub const MAX_NAME_ATTEMPTS: u32 = 16;

/// An ASCII letter or digit.
pub open spec fn is_alphanumeric(c: char) -> bool {
    ('0' <= c && c <= '9') || ('A' <= c && c <= 'Z') || ('a' <= c && c <= 'z')
}

/// A random identifier: `TOKEN_LEN` ASCII letters and digits.
pub open spec fn is_token(s: Seq<char>) -> bool {
    s.len() == TOKEN_LEN && forall|i: int| 0 <= i < s.len() ==> is_alphanumeric(#[trigger] s[i])
}

/// Relies on `rand::distributions::Alphanumeric` sampled from `thread_rng`:
/// each draw is one of `A-Z`, `a-z`, `0-9`.
#[verifier::external_body]
fn random_alphanumeric(len: usize) -> (r: String)
    ensures
        r@.len() == len,
        forall|i: int| 0 <= i < r@.len() ==> is_alphanumeric(#[trigger] r@[i]),
{
    rand::Rng::sample_iter(rand::thread_rng(), &rand::distributions::Alphanumeric).take(
        len,
    ).map(char::from).collect()
}

/// Hands out random identifiers for the random-token policy, at most
/// `MAX_NAME_ATTEMPTS` of them; the caller asks again while the name it got is
/// already taken.
pub struct NameGenerator {
    attempts: u32,
}

impl NameGenerator {
    /// How many identifiers were handed out so far.
    pub closed spec fn attempts_spec(&self) -> nat {
        self.attempts as nat
    }

    /// No identifier handed out yet.
    pub fn new() -> (r: NameGenerator)
        ensures
            r.attempts_spec() == 0,
    {
        NameGenerator { attempts: 0 }
    }

    /// How many identifiers were handed out so far.
    pub fn attempts(&self) -> (r: u32)
        ensures
            r as nat == self.attempts_spec(),
    {
        self.attempts
    }

    /// A fresh random identifier, or `ResourceExhausted` once
    /// `MAX_NAME_ATTEMPTS` were handed out.
    pub fn propose(&mut self) -> (r: Result<String, StoreError>)
        ensures
            old(self).attempts_spec() < MAX_NAME_ATTEMPTS ==> {
                &&& r is Ok
                &&& is_token(r->Ok_0@)
                &&& final(self).attempts_spec() == old(self).attempts_spec() + 1
            },
            old(self).attempts_spec() >= MAX_NAME_ATTEMPTS ==> {
                &&& r == Err::<String, StoreError>(StoreError::ResourceExhausted)
                &&& final(self).attempts_spec() == old(self).attempts_spec()
            },
    {
        if self.attempts >= MAX_NAME_ATTEMPTS {
            return Err(StoreError::ResourceExhausted);
        }
        self.attempts = self.attempts + 1;
        Ok(random_alphanumeric(TOKEN_LEN))
    }
}

/// The SHA-256 digest of `data`.
pub uninterp spec fn sha256_of(data: Seq<u8>) -> Seq<u8>;

/// Relies on `openssl::sha::sha256`: the 32-byte digest of the data, a
/// function of the data alone.
#[verifier::external_body]
fn sha256_digest(data: &[u8]) -> (r: [u8; 32])
    ensures
        r@ == sha256_of(data@),
{
    openssl::sha::sha256(data)
}

/// The lowercase hexadecimal digit for `n < 16`.
pub open spec fn hex_digit(n: u8) -> char {
    if n < 10 {
        ('0' as u8 + n) as char
    } else {
        ('a' as u8 + n - 10) as char
    }
}

/// Lowercase hexadecimal text of `b`, two digits per byte, high nibble first.
pub open spec fn hex_lower(b: Seq<u8>) -> Seq<char>
    decreases b.len(),
{
    if b.len() == 0 {
        Seq::empty()
    } else {
        hex_lower(b.drop_last()) + seq![hex_digit(b.last() / 16), hex_digit(b.last() % 16)]
    }
}

/// A lowercase hex digit.
pub open spec fn is_lower_hex(c: char) -> bool {
    ('0' <= c && c <= '9') || ('a' <= c && c <= 'f')
}

/// The shape of a content-hash identifier: 64 lowercase hex digits.
pub open spec fn is_content_id(s: Seq<char>) -> bool {
    s.len() == 64 && forall|i: int| 0 <= i < s.len() ==> is_lower_hex(#[trigger] s[i])
}


/// Hex text has two digits per byte, each a lowercase hex digit.
pub proof fn lemma_hex_lower_shape(b: Seq<u8>)
    ensures
        hex_lower(b).len() == 2 * b.len(),
        forall|i: int| 0 <= i < hex_lower(b).len() ==> is_lower_hex(#[trigger] hex_lower(b)[i]),
    decreases b.len(),
{
    if b.len() > 0 {
        lemma_hex_lower_shape(b.drop_last());
        let x = b.last();
        assert(x / 16 < 16 && x % 16 < 16);
        let prev = hex_lower(b.drop_last());
        assert forall|i: int| 0 <= i < hex_lower(b).len() implies is_lower_hex(
            #[trigger] hex_lower(b)[i],
        ) by {
            if i >= prev.len() {
                let n: u8 = if i == prev.len() { x / 16 } else { x % 16 };
                assert(hex_lower(b)[i] == hex_digit(n));
            }
        }
    }
}

fn hex_digit_str(n: u8) -> (r: &'static str)
    requires
        n < 16,
    ensures
        r@ == seq![hex_digit(n)],
{
    let digits = "0123456789abcdef";
    proof {
        reveal_strlit("0123456789abcdef");
    }
    let r = digits.substring_char(n as usize, n as usize + 1);
    assert(r@ =~= seq![hex_digit(n)]);
    r
}

/// Lowercase hexadecimal text of a digest: the identifier of the
/// content-hash policy.
pub fn hex_identifier(digest: &[u8]) -> (r: String)
    ensures
        r@ == hex_lower(digest@),
{
    let mut out = String::new();
    let mut i: usize = 0;
    while i < digest.len()
        invariant
            i <= digest@.len(),
            out@ == hex_lower(digest@.subrange(0, i as int)),
        decreases digest@.len() - i,
    {
        let b = digest[i];
        out.append(hex_digit_str(b / 16));
        out.append(hex_digit_str(b % 16));
        assert(digest@.subrange(0, i as int + 1).drop_last() =~= digest@.subrange(0, i as int));
        i = i + 1;
    }
    assert(digest@.subrange(0, i as int) =~= digest@);
    out
}

/// The identifier of `data` under the content-hash policy: the lowercase hex
/// SHA-256 digest of the plaintext, 64 digits. Equal content always gives the
/// same identifier.
pub fn content_identifier(data: &[u8]) -> (r: String)
    ensures
        r@ == hex_lower(sha256_of(data@)),
        is_content_id(r@),
{
    let digest = sha256_digest(data);
    proof {
        lemma_hex_lower_shape(digest@);
    }
    hex_identifier(digest.as_slice())
}

} // verus!
