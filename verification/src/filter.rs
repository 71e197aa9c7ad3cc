use vstd::prelude::*;

verus! {

use crate::errors::SpellError;
use crate::hashing::{base_hash, base_hash_of, lemma_probe_in_range, probe, probe_index};
use crate::params::{derive_params, k_of, m_of, params_ok};

/// The mathematical model of a Bloom filter: probe count `k`, bit-array
/// size `m`, and the `m` bits themselves.
#[verifier::ext_equal]
pub struct FilterModel {
    pub k: nat,
    pub m: nat,
    pub bits: Seq<bool>,
}

impl FilterModel {
    /// Well-formedness: positive probe count and size, both within the
    /// machine word, and exactly `m` bits.
    pub open spec fn wf(self) -> bool {
        &&& 1 <= self.k <= usize::MAX
        &&& 1 <= self.m <= usize::MAX
        &&& self.bits.len() == self.m
    }

    /// The fresh filter for the given parameters: all `m` bits clear.
    pub open spec fn empty(k: nat, m: nat) -> FilterModel {
        FilterModel { k, m, bits: Seq::new(m, |j: int| false) }
    }

    /// Whether some probe of word `w` lands on bit `j`.
    pub open spec fn hits(self, w: Seq<u8>, j: int) -> bool {
        exists|i: nat| i < self.k && probe_index(base_hash_of(w), i, self.m) == j
    }

    /// The filter after inserting `w`: every bit a probe of `w` lands on is
    /// set, every other bit is unchanged. Bits are never cleared.
    pub open spec fn with_word(self, w: Seq<u8>) -> FilterModel {
        FilterModel {
            bits: Seq::new(self.bits.len(), |j: int| self.bits[j] || self.hits(w, j)),
            ..self
        }
    }

    /// The filter after inserting every word of `ws` in order.
    pub open spec fn with_words(self, ws: Seq<Seq<u8>>) -> FilterModel
        decreases ws.len(),
    {
        if ws.len() == 0 {
            self
        } else {
            self.with_words(ws.drop_last()).with_word(ws.last())
        }
    }

    /// A membership test: all `k` probe bits of `w` are set.
    pub open spec fn contains_word(self, w: Seq<u8>) -> bool {
        forall|i: nat|
            i < self.k ==> self.bits[probe_index(base_hash_of(w), i, self.m) as int]
    }
}

/// Inserting a word preserves well-formedness and never clears a bit.
pub proof fn lemma_with_word_monotone(f: FilterModel, w: Seq<u8>)
    requires
        f.wf(),
    ensures
        f.with_word(w).wf(),
        forall|j: int| 0 <= j < f.m && f.bits[j] ==> f.with_word(w).bits[j],
{
}

/// Immediately after inserting `w`, the filter reports `w` as present.
pub proof fn lemma_with_word_contains(f: FilterModel, w: Seq<u8>)
    requires
        f.wf(),
    ensures
        f.with_word(w).contains_word(w),
{
    let g = f.with_word(w);
    assert forall|i: nat| i < g.k implies g.bits[probe_index(
        base_hash_of(w),
        i,
        g.m,
    ) as int] by {
        lemma_probe_in_range(base_hash_of(w), i, f.m);
        assert(i < g.k && probe_index(base_hash_of(w), i, g.m) == probe_index(
            base_hash_of(w),
            i,
            f.m,
        ));
        assert(g.hits(w, probe_index(base_hash_of(w), i, f.m) as int));
    }
}

/// Inserting further words preserves every earlier positive membership answer.
pub proof fn lemma_with_word_preserves(f: FilterModel, w: Seq<u8>, v: Seq<u8>)
    requires
        f.wf(),
        f.contains_word(v),
    ensures
        f.with_word(w).contains_word(v),
{
    let g = f.with_word(w);
    assert forall|i: nat| i < g.k implies g.bits[probe_index(
        base_hash_of(v),
        i,
        g.m,
    ) as int] by {
        lemma_probe_in_range(base_hash_of(v), i, f.m);
    }
}

/// A filter stays well-formed under any sequence of insertions.
pub proof fn lemma_with_words_wf(f: FilterModel, ws: Seq<Seq<u8>>)
    requires
        f.wf(),
    ensures
        f.with_words(ws).wf(),
    decreases ws.len(),
{
    if ws.len() > 0 {
        lemma_with_words_wf(f, ws.drop_last());
        lemma_with_word_monotone(f.with_words(ws.drop_last()), ws.last());
    }
}

/// Zero false negatives: a filter built by inserting the words of `ws`
/// reports every word of `ws` as present.
pub proof fn lemma_build_no_false_negatives(f: FilterModel, ws: Seq<Seq<u8>>, w: Seq<u8>)
    requires
        f.wf(),
        ws.contains(w),
    ensures
        f.with_words(ws).contains_word(w),
    decreases ws.len(),
{
    let prefix = ws.drop_last();
    lemma_with_words_wf(f, prefix);
    if w == ws.last() {
        lemma_with_word_contains(f.with_words(prefix), ws.last());
    } else {
        let i = choose|i: int| 0 <= i < ws.len() && ws[i] == w;
        assert(prefix[i] == w);
        lemma_build_no_false_negatives(f, prefix, w);
        lemma_with_word_preserves(f.with_words(prefix), ws.last(), w);
    }
}

/// A Bloom filter: the frozen parameters `(k, m)` and the `m`-bit array.
///
/// Built fresh by [`Filter::create`] and populated by [`Filter::insert`],
/// or reconstructed read-only by deserializing a stored record. Queried
/// with [`Filter::contains`], which applies the same normalization and the
/// same probe derivation as insertion.
pub struct Filter {
    k: usize,
    m: usize,
    bits: Vec<bool>,
}

impl View for Filter {
    type V = FilterModel;

    closed spec fn view(&self) -> FilterModel {
        FilterModel { k: self.k as nat, m: self.m as nat, bits: self.bits@ }
    }
}

impl Filter {
    /// The probe count this filter was built with.
    pub fn k(&self) -> (r: usize)
        ensures
            r == self@.k,
    {
        self.k
    }

    /// The bit-array size this filter was built with.
    pub fn m(&self) -> (r: usize)
        ensures
            r == self@.m,
    {
        self.m
    }

    /// The bit at index `j` of the array.
    pub fn bit_at(&self, j: usize) -> (r: bool)
        requires
            j < self@.m,
            self@.wf(),
        ensures
            r == self@.bits[j as int],
    {
        self.bits[j]
    }

    /// Reassemble a filter from parameters and bits already known to be
    /// coherent; used by the record decoder.
    pub(crate) fn assemble(k: usize, m: usize, bits: Vec<bool>) -> (r: Filter)
        requires
            1 <= k,
            1 <= m,
            bits@.len() == m,
        ensures
            r@ == (FilterModel { k: k as nat, m: m as nat, bits: bits@ }),
            r@.wf(),
    {
        Filter { k, m, bits }
    }

    /// Create an empty filter sized for `word_count` expected words at the
    /// fixed false-positive rate.
    ///
    /// Succeeds exactly when `params_ok(word_count)` holds — in particular
    /// an empty word list is rejected — and then yields the all-clear
    /// filter with `k = k_of(word_count)` and `m = m_of(word_count)`.
    pub fn create(word_count: usize) -> (r: Result<Filter, SpellError>)
        ensures
            r is Ok <==> params_ok(word_count as nat),
            r matches Ok(f) ==> f@ == FilterModel::empty(
                k_of(word_count as nat),
                m_of(word_count as nat),
            ) && f@.wf(),
            r matches Err(e) ==> e == SpellError::InvalidParameters,
    {
        let (k, m) = match derive_params(word_count) {
            Ok(p) => p,
            Err(e) => {
                return Err(e);
            },
        };
        let mut bits: Vec<bool> = Vec::new();
        let mut j: usize = 0;
        while j < m
            invariant
                0 <= j <= m,
                bits@ == Seq::new(j as nat, |x: int| false),
            decreases m - j,
        {
            bits.push(false);
            proof {
                assert(bits@ =~= Seq::new(j as nat + 1, |x: int| false));
            }
            j = j + 1;
        }
        let f = Filter { k, m, bits };
        proof {
            assert(f@ =~= FilterModel::empty(k_of(word_count as nat), m_of(word_count as nat)));
        }
        Ok(f)
    }

    /// Insert a word: normalize it, hash it, and set its `k` probe bits.
    /// Everything else in the filter is untouched; re-inserting a word is
    /// a no-op on bits already set.
    pub fn insert(&mut self, word: &[u8])
        requires
            old(self)@.wf(),
        ensures
            final(self)@ == old(self)@.with_word(word@),
            final(self)@.wf(),
    {
        let base = base_hash(word);
        let ghost pre = self@;
        let k = self.k;
        let m = self.m;
        let mut i: usize = 0;
        while i < k
            invariant
                0 <= i <= k,
                self.k == k,
                self.m == m,
                pre.wf(),
                pre.k == k as nat,
                pre.m == m as nat,
                base == base_hash_of(word@),
                self.bits@.len() == pre.bits.len(),
                forall|j: int| 0 <= j < pre.m && pre.bits[j] ==> self.bits@[j],
                forall|ii: nat| ii < i ==> self.bits@[probe_index(base, ii, pre.m) as int],
                forall|j: int|
                    0 <= j < pre.m && self.bits@[j] ==> pre.bits[j] || exists|ii: nat|
                        ii < i && probe_index(base, ii, pre.m) == j,
            decreases k - i,
        {
            proof {
                lemma_probe_in_range(base, i as nat, m as nat);
            }
            let idx = probe(base, i as u64, m as u64) as usize;
            self.bits[idx] = true;
            proof {
                assert(probe_index(base, i as nat, pre.m) == idx as nat);
                assert forall|ii: nat| ii < i + 1 implies self.bits@[probe_index(
                    base,
                    ii,
                    pre.m,
                ) as int] by {
                    lemma_probe_in_range(base, ii, pre.m);
                }
            }
            i = i + 1;
        }
        proof {
            assert forall|j: int| 0 <= j < pre.bits.len() implies self.bits@[j] == (pre.bits[j]
                || pre.hits(word@, j)) by {
                if pre.hits(word@, j) {
                    let ii = choose|ii: nat|
                        ii < pre.k && probe_index(base_hash_of(word@), ii, pre.m) == j;
                    assert(self.bits@[probe_index(base, ii, pre.m) as int]);
                }
            }
            assert(self@ =~= pre.with_word(word@));
        }
    }

    /// Query a word: normalize it, hash it, and test its `k` probe bits.
    /// Returns `true` exactly when every probe bit is set — so never
    /// `false` for a word inserted earlier, while an uninserted word gets
    /// `true` only by hash collision on all `k` probes.
    pub fn contains(&self, word: &[u8]) -> (r: bool)
        requires
            self@.wf(),
        ensures
            r == self@.contains_word(word@),
    {
        let base = base_hash(word);
        let k = self.k;
        let m = self.m;
        let mut i: usize = 0;
        while i < k
            invariant
                0 <= i <= k,
                self@.wf(),
                self.k == k,
                self.m == m,
                base == base_hash_of(word@),
                forall|ii: nat| ii < i ==> self.bits@[probe_index(base, ii, self@.m) as int],
            decreases k - i,
        {
            proof {
                lemma_probe_in_range(base, i as nat, m as nat);
            }
            let idx = probe(base, i as u64, m as u64) as usize;
            if !self.bits[idx] {
                proof {
                    assert(!self@.contains_word(word@));
                }
                return false;
            }
            i = i + 1;
        }
        true
    }
}

} // verus!
