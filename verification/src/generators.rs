//! Deterministic and seeded value generators for workload scripts: integer
//! hashing, hash-based selection, seeded random blobs and text, and the
//! current timestamp.

use vstd::prelude::*;
use vstd::string::StrSliceExecFns;
use vstd::string::StringExecFns;

use core::hash::Hash;
use core::hash::Hasher;
use metrohash::MetroHash64;
use rand::Rng;
use rand::SeedableRng;

verus! {

/// Declares rand's `SmallRng` so that the seeded-generator wrappers can
/// carry it; the verifier sees nothing of its inside.
#[verifier::external_type_specification]
#[verifier::external_body]
pub struct ExSmallRng(rand::rngs::SmallRng);

/// The 64-bit MetroHash digest of one hashed integer.
pub uninterp spec fn metro_hash_one(i: i64) -> u64;

/// The 64-bit MetroHash digest of two hashed integers.
pub uninterp spec fn metro_hash_two(a: i64, b: i64) -> u64;

/// Relies on metrohash's `MetroHash64`: the digest of the written value
/// depends on that value alone.
#[verifier::external_body]
fn metro_hash_one_call(i: i64) -> (r: u64)
    ensures
        r == metro_hash_one(i),
{
    let mut h = MetroHash64::new();
    i.hash(&mut h);
    h.finish()
}

/// Relies on metrohash's `MetroHash64`: the digest of the written values
/// depends on those values alone.
#[verifier::external_body]
fn metro_hash_two_call(a: i64, b: i64) -> (r: u64)
    ensures
        r == metro_hash_two(a, b),
{
    let mut h = MetroHash64::new();
    a.hash(&mut h);
    b.hash(&mut h);
    h.finish()
}

/// The digest folded into the non-negative `i64` range.
pub open spec fn spec_hash_value(digest: u64) -> i64 {
    (digest & 0x7fff_ffff_ffff_ffff) as i64
}

/// Computes a hash of an integer value `i`, in the range `0..i64::MAX`.
pub fn hash(i: i64) -> (r: i64)
    ensures
        r == spec_hash_value(metro_hash_one(i)),
        0 <= r,
{
    let d = metro_hash_one_call(i);
    let m: u64 = d & 0x7fff_ffff_ffff_ffff;
    proof {
        assert(d & 0x7fff_ffff_ffff_ffff < 0x8000_0000_0000_0000) by (bit_vector);
    }
    m as i64
}

/// Computes a hash of two integer values, in the range `0..i64::MAX`.
pub fn hash2(a: i64, b: i64) -> (r: i64)
    ensures
        r == spec_hash_value(metro_hash_two(a, b)),
        0 <= r,
{
    let d = metro_hash_two_call(a, b);
    let m: u64 = d & 0x7fff_ffff_ffff_ffff;
    proof {
        assert(d & 0x7fff_ffff_ffff_ffff < 0x8000_0000_0000_0000) by (bit_vector);
    }
    m as i64
}

/// Computes a hash of an integer value `i`, reduced by the modulus `max`;
/// for a positive modulus the result lies in `0..max`.
pub fn hash_range(i: i64, max: i64) -> (r: i64)
    requires
        max != 0,
    ensures
        r == spec_hash_value(metro_hash_one(i)) % max,
        max >= 1 ==> 0 <= r < max,
{
    let h = hash(i);
    h % max
}

/// Selects one item of the collection based on the hash of the given value.
pub fn hash_select<'a, T>(i: i64, collection: &'a Vec<T>) -> (r: &'a T)
    requires
        1 <= collection@.len() <= i64::MAX,
    ensures
        *r == collection@[(spec_hash_value(metro_hash_one(i)) as int) % (collection@.len() as int)],
{
    let h = hash(i);
    let n = collection.len() as i64;
    let idx = h % n;
    proof {
        assert(0 <= idx < n);
    }
    &collection[idx as usize]
}

/// Relies on rand's `SmallRng::seed_from_u64`: builds a generator from the
/// seed.
#[verifier::external_body]
fn rng_from_seed(seed: u64) -> rand::rngs::SmallRng {
    rand::rngs::SmallRng::seed_from_u64(seed)
}

/// Relies on rand's `Rng::gen`: one byte of the generator's stream; nothing
/// is promised of its value.
#[verifier::external_body]
fn rng_next_byte(rng: &mut rand::rngs::SmallRng) -> u8 {
    rng.gen::<u8>()
}

/// Relies on rand's `Rng::gen_range`: a value drawn from `0..bound`.
#[verifier::external_body]
fn rng_next_index(rng: &mut rand::rngs::SmallRng, bound: usize) -> (r: usize)
    requires
        bound >= 1,
    ensures
        r < bound,
{
    rng.gen_range(0..bound)
}

/// Generates a blob of `len` random bytes, seeded with `seed`.
pub fn blob(seed: i64, len: usize) -> (r: Vec<u8>)
    ensures
        r@.len() == len,
{
    let mut rng = rng_from_seed(seed as u64);
    let mut out: Vec<u8> = Vec::new();
    let mut i: usize = 0;
    while i < len
        invariant
            i <= len,
            out@.len() == i,
        decreases len - i,
    {
        let b = rng_next_byte(&mut rng);
        out.push(b);
        i = i + 1;
    }
    out
}

/// The characters random text is drawn from.
pub open spec fn spec_text_charset() -> Seq<char> {
    "abcdefghijklmnopqrstuvwxyzABCDEFGHIJKLMNOPQRSTUVWXYZ0123456789!@#$%^&*()_+-=[]{}|;:',.<>?/"@
}

/// Generates a string of `len` random characters from the text charset,
/// seeded with `seed`.
pub fn text(seed: i64, len: usize) -> (r: String)
    ensures
        r@.len() == len,
        forall|j: int| 0 <= j < len ==> spec_text_charset().contains(#[trigger] r@[j]),
{
    let charset: &str =
        "abcdefghijklmnopqrstuvwxyzABCDEFGHIJKLMNOPQRSTUVWXYZ0123456789!@#$%^&*()_+-=[]{}|;:',.<>?/";
    proof {
        reveal_strlit(
            "abcdefghijklmnopqrstuvwxyzABCDEFGHIJKLMNOPQRSTUVWXYZ0123456789!@#$%^&*()_+-=[]{}|;:',.<>?/",
        );
    }
    let charset_len = charset.unicode_len();
    let mut rng = rng_from_seed(seed as u64);
    let mut out = String::new();
    let mut i: usize = 0;
    while i < len
        invariant
            i <= len,
            out@.len() == i,
            charset@ == spec_text_charset(),
            charset_len == charset@.len(),
            charset_len >= 1,
            forall|j: int| 0 <= j < i ==> spec_text_charset().contains(#[trigger] out@[j]),
        decreases len - i,
    {
        let idx = rng_next_index(&mut rng, charset_len);
        let piece = charset.substring_char(idx, idx + 1);
        proof {
            assert(piece@ =~= seq![charset@[idx as int]]);
            assert(spec_text_charset().contains(charset@[idx as int]));
        }
        out.append(piece);
        i = i + 1;
    }
    out
}

/// Relies on chrono's `Utc::now`: the current time as a Unix timestamp in
/// seconds; nothing is promised of its value.  On a host whose clock is set
/// before the Unix epoch, `Utc::now` itself panics — an environmental
/// condition outside any caller's control.
#[verifier::external_body]
pub fn now_timestamp() -> i64 {
    chrono::Utc::now().timestamp()
}

} // verus!
