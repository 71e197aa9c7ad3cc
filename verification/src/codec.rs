use vstd::prelude::*;

verus! {

use crate::errors::SpellError;
use crate::filter::{Filter, FilterModel};
use vstd::arithmetic::div_mod::lemma_fundamental_div_mod;

/// The field delimiter of the record format, ASCII `.`.
pub const DOT: u8 = 0x2e;

/// The seven-byte header tag of the record format, ASCII `kkspell`.
pub open spec fn tag() -> Seq<u8> {
    seq![0x6b, 0x6b, 0x73, 0x70, 0x65, 0x6c, 0x6c]
}

/// ASCII decimal digit.
pub open spec fn is_digit(b: u8) -> bool {
    0x30 <= b && b <= 0x39
}

/// The numeric value of a digit byte.
pub open spec fn digit_of(b: u8) -> nat
    recommends
        is_digit(b),
{
    (b - 0x30) as nat
}

/// Every byte of `s` is a decimal digit.
pub open spec fn all_digits(s: Seq<u8>) -> bool {
    forall|j: int| 0 <= j < s.len() ==> is_digit(s[j])
}

/// The value of a digit string read as a decimal number.
pub open spec fn dec_value(s: Seq<u8>) -> nat
    decreases s.len(),
{
    if s.len() == 0 {
        0
    } else {
        dec_value(s.drop_last()) * 10 + digit_of(s.last())
    }
}

/// The canonical decimal digit string of `n`: no leading zeros, `"0"` for
/// zero.
pub open spec fn dec_repr(n: nat) -> Seq<u8>
    decreases n,
{
    if n < 10 {
        seq![(0x30 + n) as u8]
    } else {
        dec_repr(n / 10).push((0x30 + n % 10) as u8)
    }
}

/// The canonical digit string is non-empty and all digits.
pub proof fn lemma_dec_repr_wf(n: nat)
    ensures
        dec_repr(n).len() >= 1,
        all_digits(dec_repr(n)),
    decreases n,
{
    if n >= 10 {
        lemma_dec_repr_wf(n / 10);
    }
}

/// Reading the canonical digit string back gives the number itself.
pub proof fn lemma_dec_repr_value(n: nat)
    ensures
        dec_value(dec_repr(n)) == n,
    decreases n,
{
    if n < 10 {
        let s1 = seq![(0x30 + n) as u8];
        assert(dec_repr(n) == s1);
        assert(s1.len() == 1 && s1.last() == (0x30 + n) as u8);
        assert(dec_value(s1) == dec_value(s1.drop_last()) * 10 + digit_of(s1.last()));
        assert(s1.drop_last().len() == 0);
        assert(dec_value(s1.drop_last()) == 0);
        assert(digit_of((0x30 + n) as u8) == n);
    } else {
        lemma_dec_repr_value(n / 10);
        assert(dec_repr(n) == dec_repr(n / 10).push((0x30 + n % 10) as u8));
        assert(dec_repr(n).last() == (0x30 + n % 10) as u8);
        assert(dec_repr(n).drop_last() =~= dec_repr(n / 10));
        lemma_fundamental_div_mod(n as int, 10);
        assert(dec_value(dec_repr(n)) == (n / 10) * 10 + n % 10);
    }
}

/// A digit string is worth at least any of its prefixes.
pub proof fn lemma_dec_value_prefix(s: Seq<u8>, i: int)
    requires
        0 <= i <= s.len(),
    ensures
        dec_value(s.subrange(0, i)) <= dec_value(s),
    decreases s.len() - i,
{
    if i < s.len() {
        assert(s.subrange(0, i + 1).drop_last() =~= s.subrange(0, i));
        assert(dec_value(s.subrange(0, i)) <= dec_value(s.subrange(0, i + 1)));
        lemma_dec_value_prefix(s, i + 1);
    } else {
        assert(s.subrange(0, i) =~= s);
    }
}

/// The first index at or after `from` holding the delimiter, or `s.len()`
/// if none remains.
pub open spec fn dot_pos(s: Seq<u8>, from: int) -> int
    decreases s.len() - from,
{
    if from < 0 || from >= s.len() {
        s.len() as int
    } else if s[from] == DOT {
        from
    } else {
        dot_pos(s, from + 1)
    }
}

pub proof fn lemma_dot_pos_props(s: Seq<u8>, from: int)
    requires
        0 <= from <= s.len(),
    ensures
        from <= dot_pos(s, from) <= s.len(),
        dot_pos(s, from) < s.len() ==> s[dot_pos(s, from)] == DOT,
        forall|j: int| from <= j < dot_pos(s, from) ==> s[j] != DOT,
    decreases s.len() - from,
{
    if from < s.len() && s[from] != DOT {
        lemma_dot_pos_props(s, from + 1);
    }
}

/// The delimiter scan finds exactly the first delimiter.
pub proof fn lemma_dot_pos_unique(s: Seq<u8>, from: int, p: int)
    requires
        0 <= from <= p < s.len(),
        s[p] == DOT,
        forall|j: int| from <= j < p ==> s[j] != DOT,
    ensures
        dot_pos(s, from) == p,
    decreases p - from,
{
    if from < p {
        lemma_dot_pos_unique(s, from + 1, p);
    }
}

/// The byte a bit serializes to: `0x01` for set, `0x00` for clear.
pub open spec fn bit_byte(b: bool) -> u8 {
    if b {
        1
    } else {
        0
    }
}

/// The wire format of a filter: the `kkspell` tag, then the decimal values
/// of `k` and `m`, each preceded by a `.` delimiter, then a trailing `.`,
/// then `m` raw bytes, one per bit in index order.
pub open spec fn spec_serialize(f: FilterModel) -> Seq<u8> {
    tag() + seq![DOT] + dec_repr(f.k) + seq![DOT] + dec_repr(f.m) + seq![DOT]
        + f.bits.map_values(|b: bool| bit_byte(b))
}

/// The reading of a serialized record, `None` for every malformed input:
/// a missing or wrong tag, a missing, empty or non-numeric `k` or `m`
/// field, a value outside the machine word, a zero `k` or `m`, or fewer
/// than `m` bit bytes. When reading bits back, any non-zero byte counts as
/// a set bit. Bytes beyond the first `m` bit bytes are ignored.
pub open spec fn spec_parse(s: Seq<u8>) -> Option<FilterModel> {
    if s.len() < 8 || s.subrange(0, 7) != tag() || s[7] != DOT {
        None
    } else {
        let p1 = dot_pos(s, 8);
        let kf = s.subrange(8, p1);
        if p1 >= s.len() || kf.len() == 0 || !all_digits(kf) || dec_value(kf) > usize::MAX {
            None
        } else {
            let k = dec_value(kf);
            let p2 = dot_pos(s, p1 + 1);
            let mf = s.subrange(p1 + 1, p2);
            if p2 >= s.len() || mf.len() == 0 || !all_digits(mf) || dec_value(mf) > usize::MAX {
                None
            } else {
                let m = dec_value(mf);
                if k < 1 || m < 1 || s.len() - (p2 + 1) < m {
                    None
                } else {
                    Some(
                        FilterModel {
                            k,
                            m,
                            bits: s.subrange(p2 + 1, p2 + 1 + m).map_values(|b: u8| b != 0),
                        },
                    )
                }
            }
        }
    }
}

/// Append the canonical decimal digits of `n`.
fn push_dec(out: &mut Vec<u8>, n: usize)
    ensures
        final(out)@ == old(out)@ + dec_repr(n as nat),
    decreases n,
{
    if n >= 10 {
        push_dec(out, n / 10);
    }
    let d = (n % 10) as u8;
    out.push(0x30 + d);
    proof {
        if n < 10 {
            assert(final(out)@ =~= old(out)@ + dec_repr(n as nat));
        } else {
            assert(final(out)@ =~= old(out)@ + dec_repr(n as nat));
        }
    }
}

/// Scan for the next delimiter at or after `from`.
fn find_dot(bytes: &[u8], from: usize) -> (r: usize)
    requires
        from <= bytes@.len(),
    ensures
        r == dot_pos(bytes@, from as int),
        from <= r <= bytes@.len(),
{
    let n = bytes.len();
    let mut i: usize = from;
    while i < n && bytes[i] != DOT
        invariant
            from <= i <= n,
            n == bytes@.len(),
            dot_pos(bytes@, from as int) == dot_pos(bytes@, i as int),
        decreases n - i,
    {
        proof {
            assert(dot_pos(bytes@, i as int) == dot_pos(bytes@, i as int + 1));
        }
        i = i + 1;
    }
    i
}

/// Read the decimal field `bytes[start..end]`; `None` when the field is
/// empty, holds a non-digit, or its value does not fit the machine word.
fn parse_dec(bytes: &[u8], start: usize, end: usize) -> (r: Option<usize>)
    requires
        start <= end <= bytes@.len(),
    ensures
        ({
            let field = bytes@.subrange(start as int, end as int);
            match r {
                Some(v) => start < end && all_digits(field) && v as nat == dec_value(field),
                None => !(start < end && all_digits(field) && dec_value(field) <= usize::MAX),
            }
        }),
{
    let ghost field = bytes@.subrange(start as int, end as int);
    if start == end {
        return None;
    }
    let mut acc: usize = 0;
    let mut i: usize = start;
    while i < end
        invariant
            start <= i <= end <= bytes@.len(),
            field == bytes@.subrange(start as int, end as int),
            acc as nat == dec_value(field.subrange(0, i - start)),
            forall|j: int| 0 <= j < i - start ==> is_digit(field[j]),
        decreases end - i,
    {
        let b = bytes[i];
        proof {
            assert(field[i - start] == bytes@[i as int]);
        }
        if b < 0x30 || b > 0x39 {
            return None;
        }
        let d = (b - 0x30) as usize;
        proof {
            assert(field.subrange(0, i - start + 1).drop_last() =~= field.subrange(
                0,
                i - start,
            ));
            assert(dec_value(field.subrange(0, i - start + 1)) == acc * 10 + d);
        }
        if acc > (usize::MAX - d) / 10 {
            proof {
                // the running value already overflows, so the whole field does
                lemma_fundamental_div_mod((usize::MAX - d) as int, 10);
                assert(acc * 10 + d > usize::MAX);
                lemma_dec_value_prefix(field, i - start + 1);
            }
            return None;
        }
        proof {
            lemma_fundamental_div_mod((usize::MAX - d) as int, 10);
            assert(acc * 10 <= usize::MAX - d);
        }
        acc = acc * 10 + d;
        i = i + 1;
    }
    proof {
        assert(field.subrange(0, end - start) =~= field);
    }
    Some(acc)
}

impl Filter {
    /// Serialize the filter to its portable byte record: a pure function of
    /// the in-memory state, with no failure modes.
    pub fn serialize(&self) -> (r: Vec<u8>)
        requires
            self@.wf(),
        ensures
            r@ == spec_serialize(self@),
    {
        let mut out: Vec<u8> = Vec::new();
        out.push(0x6b);
        out.push(0x6b);
        out.push(0x73);
        out.push(0x70);
        out.push(0x65);
        out.push(0x6c);
        out.push(0x6c);
        out.push(DOT);
        proof {
            assert(out@ =~= tag() + seq![DOT]);
        }
        push_dec(&mut out, self.k());
        out.push(DOT);
        push_dec(&mut out, self.m());
        out.push(DOT);
        let ghost head = tag() + seq![DOT] + dec_repr(self@.k) + seq![DOT] + dec_repr(self@.m)
            + seq![DOT];
        proof {
            assert(out@ =~= head);
        }
        let m = self.m();
        let mut j: usize = 0;
        while j < m
            invariant
                0 <= j <= m,
                self@.wf(),
                m == self@.m,
                out@ == head + self@.bits.subrange(0, j as int).map_values(
                    |b: bool| bit_byte(b),
                ),
            decreases m - j,
        {
            let byte: u8 = if self.bit_at(j) {
                1
            } else {
                0
            };
            out.push(byte);
            proof {
                assert(out@ =~= head + self@.bits.subrange(0, j as int + 1).map_values(
                    |b: bool| bit_byte(b),
                ));
            }
            j = j + 1;
        }
        proof {
            assert(self@.bits.subrange(0, m as int) =~= self@.bits);
            assert(out@ =~= spec_serialize(self@));
        }
        out
    }

    /// Rebuild a filter from a serialized record.
    ///
    /// Returns the reconstructed filter exactly when `spec_parse` accepts
    /// the bytes, and `FormatError` on every malformed input; it never
    /// panics and never reads out of bounds.
    pub fn deserialize(bytes: &[u8]) -> (r: Result<Filter, SpellError>)
        ensures
            r is Ok <==> spec_parse(bytes@) is Some,
            r matches Ok(f) ==> spec_parse(bytes@) == Some(f@) && f@.wf(),
            r matches Err(e) ==> e == SpellError::FormatError,
    {
        let n = bytes.len();
        if n < 8 {
            return Err(SpellError::FormatError);
        }
        if bytes[0] != 0x6b || bytes[1] != 0x6b || bytes[2] != 0x73 || bytes[3] != 0x70
            || bytes[4] != 0x65 || bytes[5] != 0x6c || bytes[6] != 0x6c || bytes[7] != DOT {
            proof {
                if bytes@.subrange(0, 7) == tag() {
                    assert(forall|j: int|
                        0 <= j < 7 ==> bytes@[j] == #[trigger] bytes@.subrange(0, 7)[j]);
                }
            }
            return Err(SpellError::FormatError);
        }
        proof {
            assert(bytes@.subrange(0, 7) =~= tag());
        }
        let p1 = find_dot(bytes, 8);
        if p1 >= n {
            proof {
                lemma_dot_pos_props(bytes@, 8);
            }
            return Err(SpellError::FormatError);
        }
        let k = match parse_dec(bytes, 8, p1) {
            Some(v) => v,
            None => {
                return Err(SpellError::FormatError);
            },
        };
        let p2 = find_dot(bytes, p1 + 1);
        if p2 >= n {
            proof {
                lemma_dot_pos_props(bytes@, p1 as int + 1);
            }
            return Err(SpellError::FormatError);
        }
        let m = match parse_dec(bytes, p1 + 1, p2) {
            Some(v) => v,
            None => {
                return Err(SpellError::FormatError);
            },
        };
        if k < 1 || m < 1 {
            return Err(SpellError::FormatError);
        }
        if n - (p2 + 1) < m {
            return Err(SpellError::FormatError);
        }
        let off = p2 + 1;
        let mut bits: Vec<bool> = Vec::new();
        let mut j: usize = 0;
        while j < m
            invariant
                0 <= j <= m,
                off + m <= n,
                n == bytes@.len(),
                bits@ == bytes@.subrange(off as int, off as int + j).map_values(
                    |b: u8| b != 0,
                ),
            decreases m - j,
        {
            bits.push(bytes[off + j] != 0);
            proof {
                assert(bits@ =~= bytes@.subrange(off as int, off as int + j + 1).map_values(
                    |b: u8| b != 0,
                ));
            }
            j = j + 1;
        }
        let f = Filter::assemble(k, m, bits);
        proof {
            assert(spec_parse(bytes@)->Some_0 =~= f@);
        }
        Ok(f)
    }
}

/// Reading a serialized filter back yields the very filter that was
/// written: the round-trip law for every well-formed filter.
pub proof fn lemma_serialize_parse_round_trip(f: FilterModel)
    requires
        f.wf(),
    ensures
        spec_parse(spec_serialize(f)) == Some(f),
{
    let s = spec_serialize(f);
    let kd = dec_repr(f.k);
    let md = dec_repr(f.m);
    let bb = f.bits.map_values(|b: bool| bit_byte(b));
    lemma_dec_repr_wf(f.k);
    lemma_dec_repr_value(f.k);
    lemma_dec_repr_wf(f.m);
    lemma_dec_repr_value(f.m);
    let a = kd.len() as int;
    let b = md.len() as int;
    assert(s.len() == 8 + a + 1 + b + 1 + f.m);
    assert(s.subrange(0, 7) =~= tag());
    assert(s[7] == DOT);
    assert forall|j: int| 8 <= j < 8 + a implies s[j] != DOT by {
        assert(s[j] == kd[j - 8]);
        assert(is_digit(kd[j - 8]));
    }
    assert(s[8 + a] == DOT);
    lemma_dot_pos_unique(s, 8, 8 + a);
    assert(s.subrange(8, 8 + a) =~= kd);
    assert forall|j: int| 8 + a + 1 <= j < 8 + a + 1 + b implies s[j] != DOT by {
        assert(s[j] == md[j - (8 + a + 1)]);
        assert(is_digit(md[j - (8 + a + 1)]));
    }
    assert(s[8 + a + 1 + b] == DOT);
    lemma_dot_pos_unique(s, 8 + a + 1, 8 + a + 1 + b);
    assert(s.subrange(8 + a + 1, 8 + a + 1 + b) =~= md);
    let off = 8 + a + 1 + b + 1;
    assert(s.subrange(off, off + f.m as int) =~= bb);
    assert(spec_parse(s) is Some);
    assert(spec_parse(s)->Some_0.bits =~= f.bits) by {
        assert forall|j: int| 0 <= j < f.m implies bb.map_values(|x: u8| x != 0)[j]
            == f.bits[j] by {
            assert(bb[j] == bit_byte(f.bits[j]));
        }
    }
    assert(spec_parse(s)->Some_0 =~= f);
}

} // verus!
