use vstd::prelude::*;

use rand::rngs::StdRng;
use rand::{Rng, SeedableRng};
use vstd::string::StringSliceAdditionalSpecFns;
use vstd::utf8::encode_utf8;

verus! {

#[verifier::external_type_specification]
#[verifier::external_body]
pub struct ExStdRng(StdRng);

#[verifier::external_type_specification]
#[verifier::external_body]
pub struct ExFromHexError(hex::FromHexError);

/// ASCII code of the lowercase hex digit for `n` (`0 <= n < 16`).
pub open spec fn hex_code(n: int) -> u8 {
    if n < 10 {
        (48 + n) as u8
    } else {
        (87 + n) as u8
    }
}

/// Value of a hex digit given by its ASCII code, either case.
pub open spec fn hex_val(c: u8) -> int {
    if 48 <= c <= 57 {
        c - 48
    } else if 97 <= c <= 102 {
        c - 87
    } else if 65 <= c <= 70 {
        c - 55
    } else {
        0
    }
}

/// A hex digit of either case.
pub open spec fn is_hex_byte(c: u8) -> bool {
    (48 <= c <= 57) || (97 <= c <= 102) || (65 <= c <= 70)
}

/// A lowercase hex digit.
pub open spec fn is_lower_hex_byte(c: u8) -> bool {
    (48 <= c <= 57) || (97 <= c <= 102)
}

/// The `k`-th nibble of `b`, high nibble of each byte first.
pub open spec fn nibble(b: Seq<u8>, k: int) -> int {
    if k % 2 == 0 {
        b[k / 2] as int / 16
    } else {
        b[k / 2] as int % 16
    }
}

/// Lowercase hex text of `b`, as ASCII codes: two digits per byte.
pub open spec fn hex_text(b: Seq<u8>) -> Seq<u8> {
    Seq::new(2 * b.len(), |k: int| hex_code(nibble(b, k)))
}

/// Bytes denoted by hex text `t`, two digits per byte.
pub open spec fn hex_value(t: Seq<u8>) -> Seq<u8> {
    Seq::new(t.len() / 2, |i: int| (hex_val(t[2 * i]) * 16 + hex_val(t[2 * i + 1])) as u8)
}

/// Lowercase hex text of `b`, as characters.
pub open spec fn hex_chars(b: Seq<u8>) -> Seq<char> {
    hex_text(b).map_values(|c: u8| c as char)
}

/// Text that denotes a seed: exactly 64 lowercase hex digits.
pub open spec fn is_seed_text(t: Seq<u8>) -> bool {
    t.len() == 64 && forall|i: int| 0 <= i < t.len() ==> is_lower_hex_byte(#[trigger] t[i])
}

/// Relies on `hex::encode`: two lowercase hex digits per byte, high nibble
/// first.
#[verifier::external_body]
fn encode_hex(b: &[u8]) -> (r: String)
    ensures
        r@ == hex_chars(b@),
{
    hex::encode(b)
}

/// Relies on `hex::decode`: text of even length made of hex digits of either
/// case decodes to one byte per two digits; any other text is an error.
#[verifier::external_body]
fn decode_hex(t: &[u8]) -> (r: Result<Vec<u8>, hex::FromHexError>)
    ensures
        r.is_ok() <==> (t@.len() % 2 == 0 && forall|i: int|
            0 <= i < t@.len() ==> is_hex_byte(#[trigger] t@[i])),
        r matches Ok(v) ==> v@ == hex_value(t@),
{
    hex::decode(t)
}

/// Relies on `rand::thread_rng().gen()`: 32 bytes from the operating
/// system's entropy source; nothing is known of their values.
#[verifier::external_body]
fn random_bytes() -> (r: [u8; 32]) {
    rand::thread_rng().gen::<[u8; 32]>()
}

/// Relies on `SeedableRng::from_seed` for `StdRng`: a generator whose stream
/// is determined by the seed.
#[verifier::external_body]
fn std_rng_from_seed(seed: [u8; 32]) -> (r: StdRng) {
    StdRng::from_seed(seed)
}

/// Relies on `Rng::gen_range` for `i32`: a value in `[low, high)`; it panics
/// unless `low < high`.
#[verifier::external_body]
fn std_gen_range_i32(rng: &mut StdRng, low: i32, high: i32) -> (r: i32)
    requires
        low < high,
    ensures
        low <= r < high,
{
    rng.gen_range(low, high)
}

/// Relies on `Rng::gen_range` for `usize`: a value in `[low, high)`; it
/// panics unless `low < high`.
#[verifier::external_body]
fn std_gen_range_usize(rng: &mut StdRng, low: usize, high: usize) -> (r: usize)
    requires
        low < high,
    ensures
        low <= r < high,
{
    rng.gen_range(low, high)
}

/// A 32-byte seed from which a board is generated.
#[derive(Debug, Clone, Copy, PartialEq, Eq)]
pub struct GameSeed([u8; 32]);

/// A seed text that is not 64 lowercase hex digits.
#[derive(Debug, Clone, Copy, PartialEq, Eq)]
pub struct InvalidSeedError;

impl View for GameSeed {
    type V = Seq<u8>;

    closed spec fn view(&self) -> Seq<u8> {
        self.0@
    }
}

impl GameSeed {
    /// A fresh seed drawn from the operating system's entropy source.
    pub fn new() -> (r: Self)
        ensures
            r@.len() == 32,
    {
        Self(random_bytes())
    }

    /// Parses a seed from its text form (see `from_str`).
    pub fn from_string(s: String) -> (r: Result<Self, InvalidSeedError>)
        ensures
            r.is_ok() <==> is_seed_text(encode_utf8(s@)),
            r matches Ok(seed) ==> seed@ == hex_value(encode_utf8(s@)),
    {
        let t = s.as_str();
        assert(t.spec_bytes() == encode_utf8(s@));
        Self::from_str(t)
    }

    /// Parses a seed from its text form: exactly 64 lowercase hex digits.
    pub fn from_str(s: &str) -> (r: Result<Self, InvalidSeedError>)
        ensures
            r.is_ok() <==> is_seed_text(s.spec_bytes()),
            r matches Ok(seed) ==> seed@ == hex_value(s.spec_bytes()),
    {
        let t = s.as_bytes();
        if t.len() != 64 {
            return Err(InvalidSeedError);
        }
        let mut i: usize = 0;
        while i < t.len()
            invariant
                t@ == s.spec_bytes(),
                t@.len() == 64,
                i <= t@.len(),
                forall|j: int| 0 <= j < i ==> is_lower_hex_byte(#[trigger] t@[j]),
            decreases t@.len() - i,
        {
            let c = t[i];
            if !((48 <= c && c <= 57) || (97 <= c && c <= 102)) {
                return Err(InvalidSeedError);
            }
            i += 1;
        }
        let seed = match decode_hex(t) {
            Ok(seed) => {
                if seed.len() != 32 {
                    return Err(InvalidSeedError);
                }
                seed
            },
            Err(_) => {
                assert(forall|j: int| 0 <= j < t@.len() ==> is_hex_byte(#[trigger] t@[j])) by {
                    assert forall|j: int| 0 <= j < t@.len() implies is_hex_byte(
                        #[trigger] t@[j],
                    ) by {
                        assert(is_lower_hex_byte(t@[j]));
                    }
                }
                return Err(InvalidSeedError);
            },
        };
        let r = Self::from_slice(seed.as_slice());
        assert(r@ =~= hex_value(t@));
        Ok(r)
    }

    /// The seed made of the first 32 bytes of `s`.
    pub fn from_slice(s: &[u8]) -> (r: Self)
        requires
            s@.len() >= 32,
        ensures
            r@ == s@.subrange(0, 32),
    {
        let mut seed: [u8; 32] = [0; 32];
        let mut i: usize = 0;
        while i < 32
            invariant
                i <= 32,
                s@.len() >= 32,
                forall|j: int| 0 <= j < i ==> seed@[j] == s@[j],
            decreases 32 - i,
        {
            seed[i] = s[i];
            i += 1;
        }
        let r = Self(seed);
        assert(r@ =~= s@.subrange(0, 32));
        r
    }

    /// Text form of the seed: 64 lowercase hex digits.
    pub fn to_string(&self) -> (r: String)
        ensures
            r@ == hex_chars(self@),
            r@.len() == 64,
    {
        encode_hex(self.0.as_slice())
    }
}

impl Default for GameSeed {
    fn default() -> (r: Self)
        ensures
            r@ == Seq::new(32, |i: int| 0u8),
    {
        let r = Self([0; 32]);
        assert(r@ =~= Seq::new(32, |i: int| 0u8));
        r
    }
}

/// Seed round trip: the text form of any 32 bytes is seed text, and decoding
/// it gives back the same bytes.
pub proof fn lemma_seed_round_trip(b: Seq<u8>)
    requires
        b.len() == 32,
    ensures
        is_seed_text(hex_text(b)),
        hex_value(hex_text(b)) == b,
{
    let t = hex_text(b);
    assert forall|i: int| 0 <= i < t.len() implies is_lower_hex_byte(#[trigger] t[i]) by {
        let n = nibble(b, i);
        assert(0 <= n < 16);
    }
    assert forall|i: int| 0 <= i < 32 implies #[trigger] hex_value(t)[i] == b[i] by {
        let hi: int = b[i] as int / 16;
        let lo: int = b[i] as int % 16;
        assert(nibble(b, 2 * i) == hi);
        assert(nibble(b, 2 * i + 1) == lo);
        assert(hex_val(hex_code(hi)) == hi);
        assert(hex_val(hex_code(lo)) == lo);
        assert(hi * 16 + lo == b[i]);
    }
    assert(hex_value(t) =~= b);
}

/// Seed round trip on text: the text form of a seed reads back as the same
/// seed.
pub proof fn lemma_seed_text_round_trip(seed: GameSeed, s: Seq<char>)
    requires
        s == hex_chars(seed@),
    ensures
        is_seed_text(encode_utf8(s)),
        hex_value(encode_utf8(s)) == seed@,
{
    let t = hex_text(seed@);
    assert(seed@.len() == 32);
    assert forall|i: int| 0 <= i < t.len() implies 0 <= #[trigger] t[i] < 128 by {
        let n = nibble(seed@, i);
        assert(0 <= n < 16);
    }
    assert(vstd::utf8::is_ascii_chars(s));
    vstd::utf8::is_ascii_chars_encode_utf8(s);
    assert(encode_utf8(s) =~= t);
    lemma_seed_round_trip(seed@);
}

/// A deterministic random stream together with the seed it started from.
pub struct GameRng(StdRng, GameSeed);

impl GameRng {
    /// The seed this stream started from.
    pub closed spec fn spec_seed(&self) -> GameSeed {
        self.1
    }

    pub fn seed(&self) -> (r: &GameSeed)
        ensures
            *r == self.spec_seed(),
    {
        &self.1
    }

    /// The stream determined by `gs`.
    pub fn from(gs: GameSeed) -> (r: Self)
        ensures
            r.spec_seed() == gs,
    {
        Self(std_rng_from_seed(gs.0), gs)
    }

    /// Next draw from the stream, uniform in `[low, high)`.
    pub fn gen_range_i32(&mut self, low: i32, high: i32) -> (r: i32)
        requires
            low < high,
        ensures
            low <= r < high,
            final(self).spec_seed() == old(self).spec_seed(),
    {
        std_gen_range_i32(&mut self.0, low, high)
    }

    /// Next draw from the stream, uniform in `[low, high)`.
    pub fn gen_range_usize(&mut self, low: usize, high: usize) -> (r: usize)
        requires
            low < high,
        ensures
            low <= r < high,
            final(self).spec_seed() == old(self).spec_seed(),
    {
        std_gen_range_usize(&mut self.0, low, high)
    }
}

} // verus!
