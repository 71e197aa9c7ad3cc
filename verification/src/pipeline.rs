use vstd::prelude::*;

verus! {

use crate::codec::spec_parse;
use crate::errors::SpellError;
use crate::filter::{
    lemma_build_no_false_negatives, lemma_with_words_wf, Filter, FilterModel,
};
use crate::params::{k_of, m_of, params_ok};
use vstd::slice::slice_to_vec;

/// The two file paths a checking run works on: the document to check and
/// the dictionary filter to check it against.
pub struct Config {
    pub dict: String,
    pub file: String,
}

impl Config {
    /// Read a configuration from the raw argument list: exactly two
    /// arguments, the document first and the dictionary second.
    pub fn new(input: Vec<String>) -> (r: Option<Config>)
        ensures
            r is Some <==> input@.len() == 2,
            r matches Some(c) ==> c.file@ == input@[0]@ && c.dict@ == input@[1]@,
    {
        if input.len() != 2 {
            None
        } else {
            let mut input = input;
            let dict = input.pop().unwrap();
            let file = input.pop().unwrap();
            Some(Config { dict, file })
        }
    }
}

/// The words of a document that the filter reports as misspelled, in
/// document order: exactly those whose membership query is negative.
pub open spec fn misspelled_model(f: FilterModel, ws: Seq<Seq<u8>>) -> Seq<Seq<u8>>
    decreases ws.len(),
{
    if ws.len() == 0 {
        Seq::empty()
    } else {
        misspelled_model(f, ws.drop_last()) + if f.contains_word(ws.last()) {
            Seq::empty()
        } else {
            seq![ws.last()]
        }
    }
}

/// A document whose every word the filter holds yields an empty
/// misspelled list.
pub proof fn lemma_all_words_known_none_misspelled(f: FilterModel, ws: Seq<Seq<u8>>)
    requires
        forall|i: int| 0 <= i < ws.len() ==> f.contains_word(#[trigger] ws[i]),
    ensures
        misspelled_model(f, ws) == Seq::<Seq<u8>>::empty(),
    decreases ws.len(),
{
    if ws.len() > 0 {
        assert(f.contains_word(ws[ws.len() - 1]));
        lemma_all_words_known_none_misspelled(f, ws.drop_last());
        assert(misspelled_model(f, ws) =~= Seq::<Seq<u8>>::empty());
    }
}

/// Checking a document made only of dictionary words against the filter
/// built from that dictionary reports nothing as misspelled: the
/// no-false-negative law carried through the whole pipeline.
pub proof fn lemma_dictionary_document_clean(
    f: FilterModel,
    dict: Seq<Seq<u8>>,
    doc: Seq<Seq<u8>>,
)
    requires
        f.wf(),
        forall|i: int| 0 <= i < doc.len() ==> dict.contains(#[trigger] doc[i]),
    ensures
        misspelled_model(f.with_words(dict), doc) == Seq::<Seq<u8>>::empty(),
{
    let g = f.with_words(dict);
    lemma_with_words_wf(f, dict);
    assert forall|i: int| 0 <= i < doc.len() implies g.contains_word(#[trigger] doc[i]) by {
        lemma_build_no_false_negatives(f, dict, doc[i]);
    }
    lemma_all_words_known_none_misspelled(g, doc);
}

/// Build a filter from a word list: size it for the list's length at the
/// fixed rate and insert every word. Fails with `InvalidParameters`
/// exactly when the word count is degenerate — in particular on an empty
/// list.
pub fn build_filter(words: &Vec<Vec<u8>>) -> (r: Result<Filter, SpellError>)
    ensures
        r is Ok <==> params_ok(words@.len() as nat),
        r matches Ok(f) ==> f@ == FilterModel::empty(
            k_of(words@.len() as nat),
            m_of(words@.len() as nat),
        ).with_words(words.deep_view()) && f@.wf(),
        r matches Err(e) ==> e == SpellError::InvalidParameters,
{
    let mut filter = match Filter::create(words.len()) {
        Ok(f) => f,
        Err(e) => {
            return Err(e);
        },
    };
    let ghost f0 = filter@;
    let ghost all = words.deep_view();
    let mut i: usize = 0;
    while i < words.len()
        invariant
            0 <= i <= words@.len(),
            all == words.deep_view(),
            all.len() == words@.len(),
            filter@.wf(),
            filter@ == f0.with_words(all.subrange(0, i as int)),
            f0.wf(),
        decreases words@.len() - i,
    {
        let w = &words[i];
        proof {
            assert(all[i as int] == words@[i as int]@);
        }
        filter.insert(w.as_slice());
        proof {
            assert(all.subrange(0, i as int + 1).drop_last() =~= all.subrange(0, i as int));
            assert(all.subrange(0, i as int + 1).last() == all[i as int]);
            assert(filter@ == f0.with_words(all.subrange(0, i as int + 1)));
        }
        i = i + 1;
    }
    proof {
        assert(all.subrange(0, all.len() as int) =~= all);
    }
    Ok(filter)
}

/// Check every word of a document against the filter and collect, in
/// order, those the filter does not hold.
pub fn misspelled_words(filter: &Filter, words: &Vec<Vec<u8>>) -> (r: Vec<Vec<u8>>)
    requires
        filter@.wf(),
    ensures
        r.deep_view() == misspelled_model(filter@, words.deep_view()),
{
    let ghost all = words.deep_view();
    let mut r: Vec<Vec<u8>> = Vec::new();
    let mut i: usize = 0;
    while i < words.len()
        invariant
            0 <= i <= words@.len(),
            all == words.deep_view(),
            all.len() == words@.len(),
            filter@.wf(),
            r.deep_view() == misspelled_model(filter@, all.subrange(0, i as int)),
        decreases words@.len() - i,
    {
        let w = &words[i];
        proof {
            assert(all[i as int] == words@[i as int]@);
            assert(all.subrange(0, i as int + 1).drop_last() =~= all.subrange(0, i as int));
            assert(all.subrange(0, i as int + 1).last() == all[i as int]);
        }
        if !filter.contains(w.as_slice()) {
            r.push(slice_to_vec(w.as_slice()));
            proof {
                assert(r.deep_view() =~= misspelled_model(
                    filter@,
                    all.subrange(0, i as int + 1),
                ));
            }
        } else {
            proof {
                assert(r.deep_view() =~= misspelled_model(
                    filter@,
                    all.subrange(0, i as int + 1),
                ));
            }
        }
        i = i + 1;
    }
    proof {
        assert(all.subrange(0, all.len() as int) =~= all);
    }
    r
}

/// Load a serialized filter and check a document's words against it:
/// the whole check mode after file reading. Fails with `FormatError`
/// exactly when the record is malformed.
pub fn check_document(record: &[u8], words: &Vec<Vec<u8>>) -> (r: Result<
    Vec<Vec<u8>>,
    SpellError,
>)
    ensures
        r is Ok <==> spec_parse(record@) is Some,
        r matches Ok(out) ==> out.deep_view() == misspelled_model(
            spec_parse(record@)->Some_0,
            words.deep_view(),
        ),
        r matches Err(e) ==> e == SpellError::FormatError,
{
    let filter = match Filter::deserialize(record) {
        Ok(f) => f,
        Err(e) => {
            return Err(e);
        },
    };
    Ok(misspelled_words(&filter, words))
}

/// The `.spell` extension expected of a stored dictionary filter.
pub open spec fn spell_extension() -> Seq<u8> {
    seq![0x2e, 0x73, 0x70, 0x65, 0x6c, 0x6c]
}

/// Whether a path ends in the `.spell` extension.
pub fn has_spell_extension(path: &[u8]) -> (r: bool)
    ensures
        r == (path@.len() >= 6 && path@.subrange(path@.len() - 6, path@.len() as int)
            == spell_extension()),
{
    let n = path.len();
    if n < 6 {
        return false;
    }
    let ghost tail = path@.subrange(path@.len() - 6, path@.len() as int);
    let r = path[n - 6] == 0x2e && path[n - 5] == 0x73 && path[n - 4] == 0x70 && path[n - 3]
        == 0x65 && path[n - 2] == 0x6c && path[n - 1] == 0x6c;
    proof {
        if r {
            assert(tail =~= spell_extension());
        } else {
            if tail == spell_extension() {
                assert(forall|j: int| 0 <= j < 6 ==> #[trigger] tail[j] == path@[n - 6 + j]);
            }
        }
    }
    r
}

/// The length of `p` once a final `.extension` (a dot after the last path
/// separator) is dropped; the full length when there is none.
pub open spec fn stem_end(p: Seq<u8>, upto: int) -> int
    decreases upto,
{
    if upto <= 0 {
        p.len() as int
    } else if p[upto - 1] == 0x2f {
        p.len() as int
    } else if p[upto - 1] == 0x2e {
        upto - 1
    } else {
        stem_end(p, upto - 1)
    }
}

/// The output path a built filter is written to: the word-list path with
/// its extension replaced by `.spell`.
pub open spec fn spell_path_model(p: Seq<u8>) -> Seq<u8> {
    p.subrange(0, stem_end(p, p.len() as int)) + spell_extension()
}

/// Derive the output path for a built filter from the word-list path.
pub fn spell_path_for(path: &[u8]) -> (r: Vec<u8>)
    ensures
        r@ == spell_path_model(path@),
{
    let n = path.len();
    let mut cut: usize = n;
    let mut i: usize = n;
    let mut found = false;
    while i > 0 && !found
        invariant
            0 <= i <= n,
            n == path@.len(),
            !found ==> stem_end(path@, n as int) == stem_end(path@, i as int),
            found ==> 0 <= cut <= n && stem_end(path@, n as int) == cut as int,
            !found ==> cut == n,
        decreases i as int + (if found { 0int } else { 1int }),
    {
        let b = path[i - 1];
        if b == 0x2f {
            proof {
                assert(stem_end(path@, i as int) == path@.len() as int);
            }
            found = true;
            cut = n;
        } else if b == 0x2e {
            proof {
                assert(stem_end(path@, i as int) == i as int - 1);
            }
            found = true;
            cut = i - 1;
        } else {
            proof {
                assert(stem_end(path@, i as int) == stem_end(path@, i as int - 1));
            }
            i = i - 1;
        }
    }
    proof {
        if !found {
            assert(stem_end(path@, 0) == path@.len() as int);
            assert(cut as int == stem_end(path@, n as int));
        }
    }
    let mut r: Vec<u8> = Vec::new();
    let mut j: usize = 0;
    while j < cut
        invariant
            0 <= j <= cut <= n,
            n == path@.len(),
            r@ == path@.subrange(0, j as int),
        decreases cut - j,
    {
        r.push(path[j]);
        proof {
            assert(r@ =~= path@.subrange(0, j as int + 1));
        }
        j = j + 1;
    }
    r.push(0x2e);
    r.push(0x73);
    r.push(0x70);
    r.push(0x65);
    r.push(0x6c);
    r.push(0x6c);
    proof {
        assert(r@ =~= spell_path_model(path@));
    }
    r
}

} // verus!
