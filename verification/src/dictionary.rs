//! The dictionary index: a mapping from a digit value to the words that
//! spell it, with each key's words kept in word-list order.
//!
//! The index is built once from the word list and never changed afterwards.
//! Repeated words are kept, not deduplicated, and a word whose letters are
//! all skipped still gets an entry under the empty digit value.

use vstd::prelude::*;
use crate::encoding::word_digits;
use crate::encoding::word_to_number;

verus! {

/// One key of the index together with the words that spell it.
pub struct DictEntry {
    pub key: Vec<u8>,
    pub words: Vec<String>,
}

/// The dictionary index. Entry keys are pairwise distinct; the entries'
/// order in the vector carries no meaning.
pub struct Dictionary {
    pub entries: Vec<DictEntry>,
}

/// The mapping a sequence of entries stands for.
pub open spec fn entry_map(es: Seq<DictEntry>) -> Map<Seq<u8>, Seq<Seq<char>>>
    decreases es.len(),
{
    if es.len() == 0 {
        Map::empty()
    } else {
        entry_map(es.drop_last()).insert(es.last().key@, es.last().words.deep_view())
    }
}

/// Pairwise distinctness of entry keys.
pub open spec fn keys_distinct(es: Seq<DictEntry>) -> bool {
    forall|i: int, j: int| 0 <= i < j < es.len() ==> (#[trigger] es[i]).key@ != (#[trigger] es[j]).key@
}

/// The mapping the whole word list induces: each word is appended, in list
/// order, to the entry of its digit value.
pub open spec fn dict_of(words: Seq<Seq<char>>) -> Map<Seq<u8>, Seq<Seq<char>>>
    decreases words.len(),
{
    if words.len() == 0 {
        Map::<Seq<u8>, Seq<Seq<char>>>::empty()
    } else {
        let m = dict_of(words.drop_last());
        let w = words.last();
        let k = word_digits(w);
        let prev = if m.dom().contains(k) {
            m[k]
        } else {
            Seq::<Seq<char>>::empty()
        };
        m.insert(k, prev.push(w))
    }
}

/// Well-formedness of a dictionary mapping: every key has at least one
/// word, and every word under a key spells exactly that key.
pub open spec fn dict_wf(m: Map<Seq<u8>, Seq<Seq<char>>>) -> bool {
    forall|k: Seq<u8>| #[trigger] m.dom().contains(k) ==> m[k].len() >= 1 && (forall|j: int|
        0 <= j < m[k].len() ==> word_digits(#[trigger] m[k][j]) == k)
}

impl View for Dictionary {
    type V = Map<Seq<u8>, Seq<Seq<char>>>;

    open spec fn view(&self) -> Map<Seq<u8>, Seq<Seq<char>>> {
        entry_map(self.entries@)
    }
}

impl Dictionary {
    /// The structural invariant that construction establishes.
    pub open spec fn wf(&self) -> bool {
        keys_distinct(self.entries@) && dict_wf(self@)
    }

    /// The words stored under a digit value, if the value has any.
    pub fn lookup<'a>(&'a self, key: &Vec<u8>) -> (r: Option<&'a Vec<String>>)
        requires
            self.wf(),
        ensures
            match r {
                Some(ws) => self@.dom().contains(key@) && ws.deep_view() == self@[key@],
                None => !self@.dom().contains(key@),
            },
    {
        match find_entry(&self.entries, key) {
            Some(i) => {
                proof {
                    lemma_entry_map_at(self.entries@, i as int);
                }
                Some(&self.entries[i].words)
            },
            None => {
                proof {
                    lemma_entry_map_contains(self.entries@, key@);
                }
                None
            },
        }
    }
}

/// Whether two digit values are the same sequence.
fn keys_equal(a: &Vec<u8>, b: &Vec<u8>) -> (r: bool)
    ensures
        r == (a@ == b@),
{
    if a.len() != b.len() {
        return false;
    }
    let n = a.len();
    for i in 0..n
        invariant
            n == a@.len(),
            a@.len() == b@.len(),
            forall|j: int| 0 <= j < i ==> a@[j] == b@[j],
    {
        if a[i] != b[i] {
            return false;
        }
    }
    proof {
        assert(a@ =~= b@);
    }
    true
}

/// The position of the entry holding a key, if one does.
fn find_entry(entries: &Vec<DictEntry>, key: &Vec<u8>) -> (r: Option<usize>)
    ensures
        match r {
            Some(i) => i < entries@.len() && entries@[i as int].key@ == key@,
            None => forall|j: int| 0 <= j < entries@.len() ==> (#[trigger] entries@[j]).key@ != key@,
        },
{
    let n = entries.len();
    for i in 0..n
        invariant
            n == entries@.len(),
            forall|j: int| 0 <= j < i ==> (#[trigger] entries@[j]).key@ != key@,
    {
        if keys_equal(&entries[i].key, key) {
            return Some(i);
        }
    }
    None
}

/// A key is in the mapping exactly when some entry holds it.
pub proof fn lemma_entry_map_contains(es: Seq<DictEntry>, k: Seq<u8>)
    ensures
        entry_map(es).dom().contains(k) <==> exists|i: int|
            0 <= i < es.len() && (#[trigger] es[i]).key@ == k,
    decreases es.len(),
{
    if es.len() > 0 {
        lemma_entry_map_contains(es.drop_last(), k);
        if es.last().key@ == k {
            assert(es[es.len() - 1].key@ == k);
        } else if entry_map(es).dom().contains(k) {
            let i = choose|i: int| 0 <= i < es.drop_last().len() && (#[trigger] es.drop_last()[i]).key@ == k;
            assert(es[i].key@ == k);
        } else if exists|i: int| 0 <= i < es.len() && (#[trigger] es[i]).key@ == k {
            let i = choose|i: int| 0 <= i < es.len() && (#[trigger] es[i]).key@ == k;
            assert(es.drop_last()[i].key@ == k);
        }
    }
}

/// With distinct keys, the mapping sends each entry's key to its words.
pub proof fn lemma_entry_map_at(es: Seq<DictEntry>, i: int)
    requires
        keys_distinct(es),
        0 <= i < es.len(),
    ensures
        entry_map(es).dom().contains(es[i].key@),
        entry_map(es)[es[i].key@] == es[i].words.deep_view(),
    decreases es.len(),
{
    if i < es.len() - 1 {
        assert(keys_distinct(es.drop_last())) by {
            assert(forall|a: int, b: int|
                0 <= a < b < es.drop_last().len() ==> (#[trigger] es.drop_last()[a]).key@
                    != (#[trigger] es.drop_last()[b]).key@);
        }
        lemma_entry_map_at(es.drop_last(), i);
        assert(es.drop_last()[i] == es[i]);
        assert(es[i].key@ != es.last().key@);
    }
}

/// Replacing one entry by another with the same key updates the mapping at
/// that key alone.
pub proof fn lemma_entry_map_update(es: Seq<DictEntry>, i: int, e: DictEntry)
    requires
        keys_distinct(es),
        0 <= i < es.len(),
        e.key@ == es[i].key@,
    ensures
        entry_map(es.update(i, e)) == entry_map(es).insert(e.key@, e.words.deep_view()),
    decreases es.len(),
{
    let k = e.key@;
    if i == es.len() - 1 {
        assert(es.update(i, e).drop_last() =~= es.drop_last());
        assert(es.update(i, e).last() == e);
        assert(entry_map(es.drop_last()).insert(k, e.words.deep_view()) =~= entry_map(
            es,
        ).insert(k, e.words.deep_view()));
    } else {
        assert(keys_distinct(es.drop_last())) by {
            assert(forall|a: int, b: int|
                0 <= a < b < es.drop_last().len() ==> (#[trigger] es.drop_last()[a]).key@
                    != (#[trigger] es.drop_last()[b]).key@);
        }
        assert(es.drop_last()[i] == es[i]);
        lemma_entry_map_update(es.drop_last(), i, e);
        assert(es.update(i, e).drop_last() =~= es.drop_last().update(i, e));
        assert(es.update(i, e).last() == es.last());
        let lk = es.last().key@;
        let lw = es.last().words.deep_view();
        assert(lk != k);
        assert(entry_map(es.drop_last()).insert(k, e.words.deep_view()).insert(lk, lw)
            =~= entry_map(es.drop_last()).insert(lk, lw).insert(k, e.words.deep_view()));
    }
}

/// The mapping a word list induces is well formed.
pub proof fn lemma_dict_of_wf(words: Seq<Seq<char>>)
    ensures
        dict_wf(dict_of(words)),
    decreases words.len(),
{
    if words.len() > 0 {
        lemma_dict_of_wf(words.drop_last());
        let m = dict_of(words.drop_last());
        let w = words.last();
        let k = word_digits(w);
        let prev = if m.dom().contains(k) {
            m[k]
        } else {
            Seq::<Seq<char>>::empty()
        };
        assert forall|k2: Seq<u8>| #[trigger] dict_of(words).dom().contains(k2) implies dict_of(
            words,
        )[k2].len() >= 1 && (forall|j: int|
            0 <= j < dict_of(words)[k2].len() ==> word_digits(#[trigger] dict_of(words)[k2][j])
                == k2) by {
            if k2 == k {
                assert forall|j: int| 0 <= j < dict_of(words)[k2].len() implies word_digits(
                    #[trigger] dict_of(words)[k2][j],
                ) == k2 by {
                    if j < prev.len() {
                        assert(prev[j] == m[k][j]);
                    } else {
                        assert(dict_of(words)[k2][j] == w);
                    }
                }
            }
        }
    }
}

/// Builds the dictionary index from the word list: each word, in list
/// order, is appended to the entry of its digit value, the entry being
/// created if the value is new.
pub fn build_dictionary(words: &Vec<String>) -> (dict: Dictionary)
    ensures
        dict@ == dict_of(words.deep_view()),
        dict.wf(),
{
    let mut entries: Vec<DictEntry> = Vec::new();
    let n = words.len();
    for idx in 0..n
        invariant
            n == words@.len(),
            keys_distinct(entries@),
            entry_map(entries@) == dict_of(words.deep_view().subrange(0, idx as int)),
    {
        let key = word_to_number(words[idx].as_str());
        let ghost pre = words.deep_view().subrange(0, idx as int);
        let ghost post = words.deep_view().subrange(0, idx + 1);
        proof {
            assert(post.drop_last() =~= pre);
            assert(post.last() == words.deep_view()[idx as int]);
        }
        match find_entry(&entries, &key) {
            Some(i) => {
                let ghost es = entries@;
                let mut e = entries.remove(i);
                e.words.push(words[idx].clone());
                entries.insert(i, e);
                proof {
                    assert(entries@ =~= es.update(i as int, e));
                    lemma_entry_map_at(es, i as int);
                    lemma_entry_map_update(es, i as int, e);
                    assert(e.words.deep_view() =~= es[i as int].words.deep_view().push(
                        words.deep_view()[idx as int],
                    ));
                    assert(keys_distinct(entries@));
                    assert(entry_map(entries@) =~= dict_of(post));
                }
            },
            None => {
                let ghost es = entries@;
                let mut ws: Vec<String> = Vec::new();
                ws.push(words[idx].clone());
                let e = DictEntry { key, words: ws };
                entries.push(e);
                proof {
                    lemma_entry_map_contains(es, e.key@);
                    assert(entries@.drop_last() =~= es);
                    assert(entry_map(entries@) == entry_map(es).insert(e.key@, e.words.deep_view()));
                    assert(e.words.deep_view() =~= Seq::<Seq<char>>::empty().push(
                        words.deep_view()[idx as int],
                    ));
                    assert(keys_distinct(entries@));
                    assert(entry_map(entries@) =~= dict_of(post));
                }
            },
        }
    }
    proof {
        assert(words.deep_view().subrange(0, n as int) =~= words.deep_view());
        lemma_dict_of_wf(words.deep_view());
    }
    Dictionary { entries }
}

} // verus!
