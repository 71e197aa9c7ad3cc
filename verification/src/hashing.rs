use vstd::prelude::*;

verus! {

use vstd::arithmetic::div_mod::lemma_add_mod_noop;
use vstd::wrapping::u64_specs;

/// FNV-1a 64-bit offset basis.
pub const FNV_OFFSET: u64 = 0xcbf2_9ce4_8422_2325;

/// FNV-1a 64-bit prime.
pub const FNV_PRIME: u64 = 0x100_0000_01b3;

/// Stride added between consecutive probes (the 32-bit golden-ratio
/// constant), combined with the base hash modulo 2^64.
pub const PROBE_STRIDE: u64 = 0x9e37_79b9;

/// The six ASCII whitespace bytes: space, tab, line feed, vertical tab,
/// form feed, carriage return. Word normalization trims exactly these.
pub open spec fn is_ascii_space(b: u8) -> bool {
    b == 0x20 || b == 0x09 || b == 0x0a || b == 0x0b || b == 0x0c || b == 0x0d
}

/// ASCII lowercasing of a single byte; bytes outside `A..=Z` pass through.
pub open spec fn lower_byte(b: u8) -> u8 {
    if 0x41 <= b && b <= 0x5a {
        (b + 0x20) as u8
    } else {
        b
    }
}

/// The first index at or after `from` holding a non-whitespace byte,
/// or `s.len()` if all remaining bytes are whitespace.
pub open spec fn skip_ws(s: Seq<u8>, from: int) -> int
    decreases s.len() - from,
{
    if from < 0 || from >= s.len() {
        s.len() as int
    } else if is_ascii_space(s[from]) {
        skip_ws(s, from + 1)
    } else {
        from
    }
}

/// The end (exclusive) of the text once trailing whitespace below `upto`
/// is dropped: the largest `e <= upto` with `s[e - 1]` non-whitespace,
/// or `0` if everything below `upto` is whitespace.
pub open spec fn ws_end(s: Seq<u8>, upto: int) -> int
    decreases upto,
{
    if upto <= 0 {
        0
    } else if is_ascii_space(s[upto - 1]) {
        ws_end(s, upto - 1)
    } else {
        upto
    }
}

/// `s` with leading and trailing ASCII whitespace removed.
pub open spec fn trimmed(s: Seq<u8>) -> Seq<u8> {
    let lo = skip_ws(s, 0);
    let hi = ws_end(s, s.len() as int);
    if lo < hi {
        s.subrange(lo, hi)
    } else {
        Seq::empty()
    }
}

/// The normalization rule applied to every inserted and every queried word:
/// trim ASCII whitespace, then lowercase ASCII letters. Both sides of a
/// membership query go through the same rule, so case and surrounding
/// whitespace never affect a membership answer.
pub open spec fn normalized(s: Seq<u8>) -> Seq<u8> {
    trimmed(s).map_values(|b: u8| lower_byte(b))
}

/// One FNV-1a round: xor the byte in, multiply by the prime modulo 2^64.
pub open spec fn fnv1a_step(h: u64, b: u8) -> u64 {
    u64_specs::wrapping_mul(h ^ (b as u64), FNV_PRIME)
}

/// FNV-1a folded over `s[i..]` starting from state `h`.
pub open spec fn fnv1a_from(h: u64, s: Seq<u8>, i: int) -> u64
    decreases s.len() - i,
{
    if i < 0 || i >= s.len() {
        h
    } else {
        fnv1a_from(fnv1a_step(h, s[i]), s, i + 1)
    }
}

/// The FNV-1a 64-bit hash of a byte sequence: a fixed, fully deterministic
/// function, identical across processes and machines, as the on-disk filter
/// format requires.
pub open spec fn fnv1a(s: Seq<u8>) -> u64 {
    fnv1a_from(FNV_OFFSET, s, 0)
}

/// The 64-bit base hash of a word: FNV-1a of its normalized bytes.
pub open spec fn base_hash_of(w: Seq<u8>) -> u64 {
    fnv1a(normalized(w))
}

/// The bit-array index of probe `i` for a word with base hash `base` in a
/// bit array of size `m`: `(base + i * PROBE_STRIDE) mod 2^64, mod m`.
pub open spec fn probe_index(base: u64, i: nat, m: nat) -> nat
    recommends
        1 <= m,
{
    (((base as nat) + i * (PROBE_STRIDE as nat)) % (0x1_0000_0000_0000_0000 as nat)) % m
}

/// Every probe index falls inside the bit array.
pub proof fn lemma_probe_in_range(base: u64, i: nat, m: nat)
    requires
        1 <= m,
    ensures
        probe_index(base, i, m) < m,
{
    let c = ((base as nat) + i * (PROBE_STRIDE as nat)) % (0x1_0000_0000_0000_0000 as nat);
    vstd::arithmetic::div_mod::lemma_mod_division_less_than_divisor(c as int, m as int);
}

proof fn lemma_ws_end_bounds(s: Seq<u8>, upto: int)
    requires
        0 <= upto <= s.len(),
    ensures
        0 <= ws_end(s, upto) <= upto,
    decreases upto,
{
    if upto > 0 && is_ascii_space(s[upto - 1]) {
        lemma_ws_end_bounds(s, upto - 1);
    }
}

fn is_space_byte(b: u8) -> (r: bool)
    ensures
        r == is_ascii_space(b),
{
    b == 0x20 || b == 0x09 || b == 0x0a || b == 0x0b || b == 0x0c || b == 0x0d
}

fn to_lower_byte(b: u8) -> (r: u8)
    ensures
        r == lower_byte(b),
{
    if 0x41 <= b && b <= 0x5a {
        b + 0x20
    } else {
        b
    }
}

/// Trim ASCII whitespace from both ends and lowercase ASCII letters.
pub fn normalize(word: &[u8]) -> (r: Vec<u8>)
    ensures
        r@ == normalized(word@),
{
    let len = word.len();
    let mut lo: usize = 0;
    while lo < len && is_space_byte(word[lo])
        invariant
            0 <= lo <= len,
            len == word@.len(),
            skip_ws(word@, 0) == skip_ws(word@, lo as int),
        decreases len - lo,
    {
        proof {
            assert(skip_ws(word@, lo as int) == skip_ws(word@, lo as int + 1));
        }
        lo = lo + 1;
    }
    proof {
        assert(skip_ws(word@, lo as int) == lo as int || lo == len);
        assert(skip_ws(word@, 0) == lo as int);
    }
    let mut hi: usize = len;
    while hi > lo && is_space_byte(word[hi - 1])
        invariant
            lo <= hi <= len,
            len == word@.len(),
            skip_ws(word@, 0) == lo as int,
            lo < len ==> !is_ascii_space(word@[lo as int]),
            lo < len ==> lo < hi,
            ws_end(word@, len as int) == ws_end(word@, hi as int),
        decreases hi,
    {
        proof {
            assert(ws_end(word@, hi as int) == ws_end(word@, hi as int - 1));
        }
        hi = hi - 1;
    }
    let mut r: Vec<u8> = Vec::new();
    if lo < hi {
        proof {
            assert(ws_end(word@, hi as int) == hi as int);
            assert(trimmed(word@) == word@.subrange(lo as int, hi as int));
        }
        let mut j: usize = lo;
        while j < hi
            invariant
                lo <= j <= hi <= len,
                len == word@.len(),
                r@ == word@.subrange(lo as int, j as int).map_values(|b: u8| lower_byte(b)),
            decreases hi - j,
        {
            let b = to_lower_byte(word[j]);
            r.push(b);
            proof {
                assert(r@ =~= word@.subrange(lo as int, j as int + 1).map_values(
                    |b: u8| lower_byte(b),
                ));
            }
            j = j + 1;
        }
        proof {
            assert(r@ == normalized(word@));
        }
    } else {
        proof {
            // `hi` can only fall to `lo` when the whole input was whitespace,
            // in which case the trimmed word is empty
            lemma_ws_end_bounds(word@, len as int);
            assert(lo == len && hi == len);
            assert(trimmed(word@) =~= Seq::<u8>::empty());
            assert(r@ =~= normalized(word@));
        }
    }
    r
}

/// The base hash of a word: FNV-1a over the normalized bytes.
pub fn base_hash(word: &[u8]) -> (r: u64)
    ensures
        r == base_hash_of(word@),
{
    let n = normalize(word);
    let s = n.as_slice();
    let mut h: u64 = FNV_OFFSET;
    let mut i: usize = 0;
    while i < s.len()
        invariant
            0 <= i <= s@.len(),
            s@ == normalized(word@),
            fnv1a_from(h, s@, i as int) == fnv1a(s@),
        decreases s@.len() - i,
    {
        proof {
            assert(fnv1a_from(h, s@, i as int) == fnv1a_from(
                fnv1a_step(h, s@[i as int]),
                s@,
                i as int + 1,
            ));
        }
        let x = h ^ (s[i] as u64);
        h = x.wrapping_mul(FNV_PRIME);
        i = i + 1;
    }
    h
}

/// The bit-array index of probe `i`, computed with wrapping 64-bit
/// arithmetic exactly as `probe_index` states it.
pub fn probe(base: u64, i: u64, m: u64) -> (r: u64)
    requires
        1 <= m,
    ensures
        r == probe_index(base, i as nat, m as nat),
{
    let stride = i.wrapping_mul(PROBE_STRIDE);
    let combined = base.wrapping_add(stride);
    proof {
        lemma_add_mod_noop(base as int, (i * PROBE_STRIDE) as int, 0x1_0000_0000_0000_0000);
    }
    combined % m
}

} // verus!
