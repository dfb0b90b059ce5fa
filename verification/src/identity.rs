//! What makes two files the same scan target: the XXH3-128 digest of their contents, their size
//! and their extension.

use sha2::{Digest, Sha256};
use vstd::prelude::*;
use xxhash_rust::xxh3::Xxh3;

use crate::numbers::{
    decimal, format_decimal, format_hex, hex_digits, lemma_decimal_injective, lemma_decimal_shape,
    lemma_hex_digits_injective, lemma_hex_digits_shape, power_of_16,
};
use crate::paths::{extension, path_extension};
use crate::text::bytes_equal;

verus! {

/// The streaming hasher of the XXH3 family.
#[verifier::external_type_specification]
#[verifier::external_body]
pub struct ExXxh3(Xxh3);

/// The bytes that a hasher has been given, in order.
pub uninterp spec fn hashed_bytes(hasher: Xxh3) -> Seq<u8>;

/// Whether a hasher has the default seed and secret.
pub uninterp spec fn default_keyed(hasher: Xxh3) -> bool;

/// The 128 bits that XXH3 with the default seed and secret gives for some bytes.
pub uninterp spec fn xxh3_128(bytes: Seq<u8>) -> u128;

/// `Xxh3::new` makes a hasher with default settings that has been given nothing.
pub assume_specification[ Xxh3::new ]() -> (hasher: Xxh3)
    ensures
        default_keyed(hasher),
        hashed_bytes(hasher) == Seq::<u8>::empty(),
;

/// `Xxh3::update` gives a hasher more bytes; its settings stay.
pub assume_specification[ Xxh3::update ](hasher: &mut Xxh3, input: &[u8])
    ensures
        hashed_bytes(*final(hasher)) == hashed_bytes(*old(hasher)) + input@,
        default_keyed(*final(hasher)) == default_keyed(*old(hasher)),
;

/// `Xxh3::digest128` is a function of the bytes that the hasher was given, in however many pieces,
/// and of its settings, which are the default ones here.
pub assume_specification[ Xxh3::digest128 ](hasher: &Xxh3) -> (digest: u128)
    requires
        default_keyed(*hasher),
    ensures
        digest == xxh3_128(hashed_bytes(*hasher)),
;

/// The hasher of SHA-256.
#[verifier::external_type_specification]
#[verifier::external_body]
pub struct ExSha256(Sha256);

/// The bytes that a SHA-256 hasher has been given, in order.
pub uninterp spec fn sha256_bytes(hasher: Sha256) -> Seq<u8>;

/// The digest that SHA-256 gives for some bytes.
pub uninterp spec fn sha256(bytes: Seq<u8>) -> Seq<u8>;

/// The most bytes that SHA-256 is defined for.
pub const MAX_SHA256_BYTES: u64 = 0x1fff_ffff_ffff_ffff;

/// `sha2::Sha256::new` makes a hasher that has been given nothing.
#[verifier::external_body]
fn sha256_new() -> (hasher: Sha256)
    ensures
        sha256_bytes(hasher) == Seq::<u8>::empty(),
{
    Sha256::new()
}

/// `sha2::Sha256::update` gives a hasher more bytes. Its count of the bits that it has been given
/// has 64 bits, so the bytes are limited.
#[verifier::external_body]
fn sha256_update(hasher: &mut Sha256, input: &[u8])
    requires
        sha256_bytes(*old(hasher)).len() + input@.len() <= MAX_SHA256_BYTES,
    ensures
        sha256_bytes(*final(hasher)) == sha256_bytes(*old(hasher)) + input@,
{
    hasher.update(input);
}

/// `sha2::Sha256::finalize` gives the digest, which has 32 bytes and is a function of the bytes
/// that the hasher was given, in however many pieces.
#[verifier::external_body]
fn sha256_finalize(hasher: Sha256) -> (digest: Vec<u8>)
    requires
        sha256_bytes(hasher).len() <= MAX_SHA256_BYTES,
    ensures
        digest@ == sha256(sha256_bytes(hasher)),
        digest@.len() == 32,
{
    hasher.finalize().to_vec()
}

/// What identifies the contents of a file.
#[derive(Debug, PartialEq)]
pub struct FileIdentity {
    pub digest: u128,
    pub size: u64,
    pub extension: Option<Vec<u8>>,
}

/// An identity as a mathematical value.
pub struct IdentityView {
    pub digest: u128,
    pub size: u64,
    pub extension: Option<Seq<u8>>,
}

/// The view of bytes that may be missing.
pub open spec fn optional_bytes(bytes: Option<Vec<u8>>) -> Option<Seq<u8>> {
    match bytes {
        Some(bytes) => Some(bytes@),
        None => None,
    }
}

impl View for FileIdentity {
    type V = IdentityView;

    open spec fn view(&self) -> IdentityView {
        IdentityView {
            digest: self.digest,
            size: self.size,
            extension: optional_bytes(self.extension),
        }
    }
}

impl FileIdentity {
    /// Whether two identities are equal.
    pub fn same_as(&self, other: &FileIdentity) -> (same: bool)
        ensures
            same == (self@ == other@),
    {
        let same_extension = match (&self.extension, &other.extension) {
            (Some(left), Some(right)) => bytes_equal(left.as_slice(), right.as_slice()),
            (None, None) => true,
            _ => false,
        };
        self.digest == other.digest && self.size == other.size && same_extension
    }

    /// The key of the contents in the reuse cache. The extension is given as it is printed for
    /// debugging.
    pub open spec fn key_text(view: IdentityView, printed_extension: Seq<char>) -> Seq<char> {
        let digits = hex_digits(view.digest as nat, 32);
        Seq::new(digits.len(), |i: int| digits[i] as char).push(':') + decimal(
            view.size as nat,
        ).push(':') + printed_extension
    }

    /// The key of the contents in the reuse cache.
    pub fn cache_key(&self, printed_extension: &str) -> (key: String)
        ensures
            key@ == Self::key_text(self@, printed_extension@),
    {
        let digits = format_hex(self.digest, 32);
        let mut key = String::new();
        let mut i: usize = 0;
        while i < digits.len()
            invariant
                i <= digits@.len(),
                key@ == Seq::new(i as nat, |j: int| digits@[j] as char),
            decreases digits@.len() - i,
        {
            key.push(digits[i] as char);
            i += 1;
        }
        key.push(':');
        key.append(format_decimal(self.size).as_str());
        key.push(':');
        key.append(printed_extension);
        assert(key@ =~= Self::key_text(self@, printed_extension@));
        key
    }
}

/// Two cache keys are equal only where the digests, the sizes and the printed extensions are.
pub proof fn law_cache_keys_are_distinct(
    left: IdentityView,
    left_printed: Seq<char>,
    right: IdentityView,
    right_printed: Seq<char>,
)
    requires
        FileIdentity::key_text(left, left_printed) == FileIdentity::key_text(right, right_printed),
    ensures
        left.digest == right.digest,
        left.size == right.size,
        left_printed == right_printed,
{
    let lk = FileIdentity::key_text(left, left_printed);
    let rk = FileIdentity::key_text(right, right_printed);
    let ld = hex_digits(left.digest as nat, 32);
    let rd = hex_digits(right.digest as nat, 32);
    lemma_hex_digits_shape(left.digest as nat, 32);
    lemma_hex_digits_shape(right.digest as nat, 32);
    assert(ld == rd) by {
        assert forall|i: int| 0 <= i < 32 implies ld[i] == rd[i] by {
            assert(lk[i] == ld[i] as char);
            assert(rk[i] == rd[i] as char);
        }
        assert(ld =~= rd);
    }
    assert(left.digest < power_of_16(32) && right.digest < power_of_16(32)) by {
        reveal_with_fuel(power_of_16, 33);
    }
    lemma_hex_digits_injective(left.digest as nat, right.digest as nat, 32);
    let ls = decimal(left.size as nat);
    let rs = decimal(right.size as nat);
    lemma_decimal_shape(left.size as nat);
    lemma_decimal_shape(right.size as nat);
    assert(forall|i: int| 0 <= i < ls.len() ==> lk[33 + i] == ls[i]);
    assert(forall|i: int| 0 <= i < rs.len() ==> rk[33 + i] == rs[i]);
    assert(lk[33 + ls.len() as int] == ':');
    assert(rk[33 + rs.len() as int] == ':');
    assert(ls.len() == rs.len()) by {
        if ls.len() < rs.len() {
            assert(rs[ls.len() as int] == rk[33 + ls.len() as int]);
        } else if rs.len() < ls.len() {
            assert(ls[rs.len() as int] == lk[33 + rs.len() as int]);
        }
    }
    assert(ls =~= rs) by {
        assert forall|i: int| 0 <= i < ls.len() implies ls[i] == rs[i] by {
            assert(lk[33 + i] == rk[33 + i]);
        }
    }
    lemma_decimal_injective(left.size as nat, right.size as nat);
    let skip = 34 + ls.len();
    assert(left_printed =~= lk.skip(skip as int));
    assert(right_printed =~= rk.skip(skip as int));
}

/// SHA-256 of contents, as far as it is wanted and the contents are not too long for it.
enum Sha256State {
    Unwanted,
    TooLong,
    Running { hasher: Sha256, taken: u64 },
}

/// The contents of a file that are being hashed, piece by piece, in one pass.
pub struct ContentHasher {
    hasher: Xxh3,
    sha256: Sha256State,
}

impl View for ContentHasher {
    type V = Seq<u8>;

    closed spec fn view(&self) -> Seq<u8> {
        hashed_bytes(self.hasher)
    }
}

impl ContentHasher {
    #[verifier::type_invariant]
    spec fn inv(self) -> bool {
        &&& default_keyed(self.hasher)
        &&& match self.sha256 {
            Sha256State::Unwanted => true,
            Sha256State::TooLong => hashed_bytes(self.hasher).len() > MAX_SHA256_BYTES,
            Sha256State::Running { hasher, taken } => {
                &&& sha256_bytes(hasher) == hashed_bytes(self.hasher)
                &&& taken == hashed_bytes(self.hasher).len()
                &&& taken <= MAX_SHA256_BYTES
            },
        }
    }

    /// Whether SHA-256 is wanted too.
    pub closed spec fn wants_sha256(self) -> bool {
        !(self.sha256 is Unwanted)
    }

    /// Nothing hashed yet. SHA-256 is computed in the same pass where it is wanted, as it is for a
    /// cache that outlives the worker.
    pub fn new(wants_sha256: bool) -> (hasher: Self)
        ensures
            hasher@ == Seq::<u8>::empty(),
            hasher.wants_sha256() == wants_sha256,
    {
        let sha256 = if wants_sha256 {
            Sha256State::Running { hasher: sha256_new(), taken: 0 }
        } else {
            Sha256State::Unwanted
        };
        ContentHasher { hasher: Xxh3::new(), sha256 }
    }

    /// Takes the next piece of the contents.
    pub fn update(self, piece: &[u8]) -> (next: Self)
        ensures
            next@ == self@ + piece@,
            next.wants_sha256() == self.wants_sha256(),
    {
        proof {
            use_type_invariant(&self);
        }
        let mut hasher = self.hasher;
        hasher.update(piece);
        let more: u64 = piece.len() as u64;
        let sha256 = match self.sha256 {
            Sha256State::Running { hasher: inner, taken } => if more > MAX_SHA256_BYTES - taken {
                Sha256State::TooLong
            } else {
                let mut inner = inner;
                sha256_update(&mut inner, piece);
                Sha256State::Running { hasher: inner, taken: taken + more }
            },
            other => other,
        };
        ContentHasher { hasher, sha256 }
    }

    /// The identity of a file of which all contents have been taken.
    pub fn identify(&self, size: u64, path: &[u8]) -> (identity: FileIdentity)
        ensures
            identity@ == (IdentityView {
                digest: xxh3_128(self@),
                size,
                extension: path_extension(path@),
            }),
    {
        proof {
            use_type_invariant(self);
        }
        FileIdentity { digest: self.hasher.digest128(), size, extension: extension(path) }
    }

    /// The SHA-256 digest of all contents that have been taken, where it is wanted and the contents
    /// are not too long for it.
    pub fn sha256(self) -> (digest: Option<Vec<u8>>)
        ensures
            match digest {
                Some(bytes) => {
                    &&& self.wants_sha256()
                    &&& self@.len() <= MAX_SHA256_BYTES
                    &&& bytes@ == sha256(self@)
                    &&& bytes@.len() == 32
                },
                None => !self.wants_sha256() || self@.len() > MAX_SHA256_BYTES,
            },
    {
        proof {
            use_type_invariant(&self);
        }
        match self.sha256 {
            Sha256State::Running { hasher, taken } => Some(sha256_finalize(hasher)),
            _ => None,
        }
    }
}

} // verus!
