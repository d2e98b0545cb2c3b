//! The dictionary data model: measure-word sub-records, word entries, the
//! term normalizers that derive search keys, and the content-identity hash.

use std::collections::HashMap;
use vstd::prelude::*;
use crate::collab::{
    despaced, lower_of, lowercase, prettified, remove_digits_and_punctuation,
    remove_digits_and_whitespace, remove_whitespace, sans_digits_punct, sans_digits_spaces,
};
use crate::text::{first_index, str_eq, views_of};

verus! {

broadcast use vstd::std_specs::hash::group_hash_axioms;

/// A classifier sub-record of a word entry.
#[derive(Hash, Debug)]
pub struct MeasureWord {
    pub traditional: String,
    pub simplified: String,
    pub pinyin_marks: String,
    pub pinyin_numbers: String,
}

/// The mathematical value of a [`MeasureWord`].
#[verifier::ext_equal]
pub struct MeasureWordV {
    pub traditional: Seq<char>,
    pub simplified: Seq<char>,
    pub pinyin_marks: Seq<char>,
    pub pinyin_numbers: Seq<char>,
}

impl View for MeasureWord {
    type V = MeasureWordV;

    open spec fn view(&self) -> MeasureWordV {
        MeasureWordV {
            traditional: self.traditional@,
            simplified: self.simplified@,
            pinyin_marks: self.pinyin_marks@,
            pinyin_numbers: self.pinyin_numbers@,
        }
    }
}

pub open spec fn mw_views(ms: Seq<MeasureWord>) -> Seq<MeasureWordV> {
    ms.map_values(|m: MeasureWord| m@)
}

/// One fully populated record of the dictionary.
#[derive(Debug)]
pub struct WordEntry {
    pub traditional: String,
    pub simplified: String,
    pub pinyin_marks: String,
    pub pinyin_numbers: String,
    pub english: Vec<String>,
    pub tone_marks: Vec<u8>,
    pub hash: u64,
    pub measure_words: Vec<MeasureWord>,
    pub hsk: u8,
    pub word_id: u32,
}

/// The mathematical value of a [`WordEntry`].
#[verifier::ext_equal]
pub struct WordEntryV {
    pub traditional: Seq<char>,
    pub simplified: Seq<char>,
    pub pinyin_marks: Seq<char>,
    pub pinyin_numbers: Seq<char>,
    pub english: Seq<Seq<char>>,
    pub tone_marks: Seq<u8>,
    pub hash: u64,
    pub measure_words: Seq<MeasureWordV>,
    pub hsk: u8,
    pub word_id: u32,
}

impl View for WordEntry {
    type V = WordEntryV;

    open spec fn view(&self) -> WordEntryV {
        WordEntryV {
            traditional: self.traditional@,
            simplified: self.simplified@,
            pinyin_marks: self.pinyin_marks@,
            pinyin_numbers: self.pinyin_numbers@,
            english: views_of(self.english@),
            tone_marks: self.tone_marks@,
            hash: self.hash,
            measure_words: mw_views(self.measure_words@),
            hsk: self.hsk,
            word_id: self.word_id,
        }
    }
}

pub open spec fn we_views(es: Seq<WordEntry>) -> Seq<WordEntryV> {
    es.map_values(|e: WordEntry| e@)
}

/// Opaque 64-bit content-identity digest of the parsed fields of an entry: a
/// pure function of those fields, used only as an identity tag.
pub uninterp spec fn content_hash(e: crate::cedict::CEDictEntryV) -> u64;

/// Relies on std's `DefaultHasher`, which `DefaultHasher::new` seeds with
/// fixed keys, fed through the derived `Hash` of the parsed fields: the
/// digest is a pure function of those fields.
#[verifier::external_body]
fn default_hash_entry(entry: &crate::cedict::CEDictEntry) -> (r: u64)
    ensures
        r == content_hash(entry@),
{
    let mut hasher = std::collections::hash_map::DefaultHasher::new();
    std::hash::Hash::hash(entry, &mut hasher);
    std::hash::Hasher::finish(&hasher)
}

/// The content-identity hash of a draft entry (`spec`: [`content_hash`]).
pub fn calculate_hash(entry: &crate::cedict::CEDictEntry) -> (r: u64)
    ensures
        r == content_hash(entry@),
{
    default_hash_entry(entry)
}

/// The three search keys derived from a romanization pair: the diacritic form
/// without whitespace, the digit form without whitespace, and the digit form
/// without whitespace or tone digits, each lower-cased.
pub open spec fn pinyin_keys(marks: Seq<char>, numbers: Seq<char>) -> Seq<Seq<char>> {
    seq![
        lower_of(despaced(marks)),
        lower_of(despaced(numbers)),
        lower_of(sans_digits_spaces(numbers)),
    ]
}

/// A gloss with its first balanced parenthetical span excised, together with
/// one adjacent character: the one before the span when the prefix is
/// non-empty, otherwise the one after it.
pub open spec fn excised(g: Seq<char>) -> Seq<char> {
    if g.contains('(') && g.contains(')') {
        let open = first_index(g, '(');
        let close = first_index(g, ')');
        let front = g.subrange(0, open);
        let back = g.subrange(close + 1, g.len() as int);
        if front.len() > 0 {
            front.drop_last() + back
        } else if back.len() > 0 {
            front + back.drop_first()
        } else {
            front + back
        }
    } else {
        g
    }
}

/// The normalized form begins with the infinitive marker `to` followed by one
/// space.
pub open spec fn starts_with_to(s: Seq<char>) -> bool {
    s.len() >= 3 && s[0] == 't' && s[1] == 'o' && s[2] == ' '
}

/// `s` with every space replaced by the literal three-character token `%20`.
pub open spec fn encode_spaces(s: Seq<char>) -> Seq<char>
    decreases s.len(),
{
    if s.len() == 0 {
        Seq::empty()
    } else {
        encode_spaces(s.drop_last()) + (if s.last() == ' ' {
            seq!['%', '2', '0']
        } else {
            seq![s.last()]
        })
    }
}

/// The search keys derived from one gloss: the excised, digit- and
/// punctuation-stripped, lower-cased, space-encoded form, and additionally
/// the same form with the infinitive marker removed when it begins with one.
pub open spec fn gloss_keys(g: Seq<char>) -> Seq<Seq<char>> {
    let stripped = lower_of(sans_digits_punct(excised(g)));
    let primary = encode_spaces(stripped);
    if starts_with_to(stripped) {
        seq![primary, encode_spaces(stripped.subrange(3, stripped.len() as int))]
    } else {
        seq![primary]
    }
}

/// The search keys of a gloss list, gloss by gloss in order.
pub open spec fn english_keys_all(gs: Seq<Seq<char>>) -> Seq<Seq<char>>
    decreases gs.len(),
{
    if gs.len() == 0 {
        Seq::empty()
    } else {
        english_keys_all(gs.drop_last()) + gloss_keys(gs.last())
    }
}

/// Derives the pinyin search keys of one entry (`spec`: [`pinyin_keys`]).
pub fn build_searchable_pinyin(marks: String, numbers: String) -> (r: Vec<String>)
    ensures
        views_of(r@) == pinyin_keys(marks@, numbers@),
{
    let mut searchable: Vec<String> = Vec::new();
    let w1 = remove_whitespace(marks.as_str());
    let k1 = lowercase(w1.as_str());
    searchable.push(k1);
    let w2 = remove_whitespace(numbers.as_str());
    let k2 = lowercase(w2.as_str());
    searchable.push(k2);
    let w3 = remove_digits_and_whitespace(numbers.as_str());
    let k3 = lowercase(w3.as_str());
    searchable.push(k3);
    proof {
        assert(views_of(searchable@) =~~= pinyin_keys(marks@, numbers@));
    }
    searchable
}

/// Excises the first parenthetical span of a gloss (`spec`: [`excised`]).
fn excise_parens(g: &str) -> (r: String)
    ensures
        r@ == excised(g@),
{
    let n = g.unicode_len();
    let open = crate::text::find_char(g, '(');
    let close = crate::text::find_char(g, ')');
    proof {
        crate::text::lemma_first_index_props(g@, '(');
        crate::text::lemma_first_index_props(g@, ')');
    }
    if open == n || close == n {
        return String::from_str(g);
    }
    if open > 0 {
        let mut r = String::from_str(g.substring_char(0, open - 1));
        r.append(g.substring_char(close + 1, n));
        proof {
            assert(g@.subrange(0, open as int).drop_last() =~= g@.subrange(0, open as int - 1));
            assert(r@ =~= excised(g@));
        }
        r
    } else if close + 1 < n {
        let r = String::from_str(g.substring_char(close + 2, n));
        proof {
            assert(g@.subrange(close as int + 1, n as int).drop_first() =~= g@.subrange(
                close as int + 2,
                n as int,
            ));
            assert(r@ =~= excised(g@));
        }
        r
    } else {
        let r = String::new();
        proof {
            assert(r@ =~= excised(g@));
        }
        r
    }
}

/// Replaces each space by `%20` (`spec`: [`encode_spaces`]).
fn encode_spaces_str(s: &str) -> (r: String)
    ensures
        r@ == encode_spaces(s@),
{
    let n = s.unicode_len();
    let mut r = String::new();
    proof {
        assert(s@.subrange(0, 0) =~= Seq::<char>::empty());
    }
    let mut i: usize = 0;
    while i < n
        invariant
            n == s@.len(),
            i <= n,
            r@ == encode_spaces(s@.subrange(0, i as int)),
        decreases n - i,
    {
        let c = s.get_char(i);
        proof {
            assert(s@.subrange(0, i as int + 1).drop_last() =~= s@.subrange(0, i as int));
            assert(s@.subrange(0, i as int + 1).last() == c);
            reveal_strlit("%20");
        }
        if c == ' ' {
            r.append("%20");
            proof {
                assert("%20"@ =~= seq!['%', '2', '0']);
                assert(r@ =~= encode_spaces(s@.subrange(0, i as int + 1)));
            }
        } else {
            let piece = s.substring_char(i, i + 1);
            proof {
                assert(piece@ =~= seq![c]);
            }
            r.append(piece);
            proof {
                assert(r@ =~= encode_spaces(s@.subrange(0, i as int + 1)));
            }
        }
        i += 1;
    }
    proof {
        assert(s@.subrange(0, n as int) =~= s@);
    }
    r
}

/// Derives the translated-gloss search keys of one entry, gloss by gloss
/// (`spec`: [`english_keys_all`]).
pub fn build_searchable_english(english: &Vec<String>) -> (r: Vec<String>)
    ensures
        views_of(r@) == english_keys_all(views_of(english@)),
{
    let mut searchable: Vec<String> = Vec::new();
    proof {
        assert(views_of(english@).subrange(0, 0) =~= Seq::<Seq<char>>::empty());
        assert(views_of(searchable@) =~~= english_keys_all(views_of(english@).subrange(0, 0)));
    }
    let mut i: usize = 0;
    while i < english.len()
        invariant
            i <= english@.len(),
            views_of(searchable@) == english_keys_all(views_of(english@).subrange(0, i as int)),
        decreases english@.len() - i,
    {
        let formatted = excise_parens(english[i].as_str());
        let stripped_raw = remove_digits_and_punctuation(formatted.as_str());
        let stripped = lowercase(stripped_raw.as_str());
        let primary = encode_spaces_str(stripped.as_str());
        searchable.push(primary);
        let slen = stripped.as_str().unicode_len();
        let has_marker = slen >= 3 && stripped.as_str().get_char(0) == 't'
            && stripped.as_str().get_char(1) == 'o' && stripped.as_str().get_char(2) == ' ';
        if has_marker {
            let verb = stripped.as_str().substring_char(3, slen);
            let secondary = encode_spaces_str(verb);
            searchable.push(secondary);
        }
        proof {
            assert(views_of(english@).subrange(0, i as int + 1).drop_last() =~= views_of(
                english@,
            ).subrange(0, i as int));
            assert(views_of(english@).subrange(0, i as int + 1).last() == english@[i as int]@);
            assert(views_of(searchable@) =~~= english_keys_all(
                views_of(english@).subrange(0, i as int + 1),
            ));
        }
        i += 1;
    }
    proof {
        assert(views_of(english@).subrange(0, english@.len() as int) =~= views_of(english@));
    }
    searchable
}

/// One inverted index: an association list from search key to the ordered
/// bucket of word identifiers, append-only and with pairwise-distinct keys.
pub struct SearchIndex {
    pub pairs: Vec<(String, Vec<u32>)>,
}

/// The mapping an association list denotes (later pairs would win; the
/// well-formedness below keeps keys distinct, so order never matters).
pub open spec fn map_of_pairs(ps: Seq<(String, Vec<u32>)>) -> Map<Seq<char>, Seq<u32>>
    decreases ps.len(),
{
    if ps.len() == 0 {
        Map::empty()
    } else {
        map_of_pairs(ps.drop_last()).insert(ps.last().0@, ps.last().1@)
    }
}

/// Keys are pairwise distinct.
pub open spec fn pairs_wf(ps: Seq<(String, Vec<u32>)>) -> bool {
    forall|i: int, j: int| 0 <= i < j < ps.len() ==> ps[i].0@ != ps[j].0@
}

impl View for SearchIndex {
    type V = Map<Seq<char>, Seq<u32>>;

    open spec fn view(&self) -> Map<Seq<char>, Seq<u32>> {
        map_of_pairs(self.pairs@)
    }
}

pub proof fn lemma_map_of_pairs_index(ps: Seq<(String, Vec<u32>)>)
    requires
        pairs_wf(ps),
    ensures
        forall|i: int|
            0 <= i < ps.len() ==> map_of_pairs(ps).contains_key(#[trigger] ps[i].0@)
                && map_of_pairs(ps)[ps[i].0@] == ps[i].1@,
        forall|k: Seq<char>| #[trigger]
            map_of_pairs(ps).contains_key(k) ==> exists|i: int|
                0 <= i < ps.len() && #[trigger] ps[i].0@ == k,
    decreases ps.len(),
{
    if ps.len() > 0 {
        assert(pairs_wf(ps.drop_last()));
        lemma_map_of_pairs_index(ps.drop_last());
        assert forall|i: int|
            0 <= i < ps.len() implies map_of_pairs(ps).contains_key(#[trigger] ps[i].0@)
            && map_of_pairs(ps)[ps[i].0@] == ps[i].1@ by {
            if i < ps.len() - 1 {
                assert(ps.drop_last()[i] == ps[i]);
                assert(ps[i].0@ != ps.last().0@);
            }
        }
        assert forall|k: Seq<char>| #[trigger]
            map_of_pairs(ps).contains_key(k) implies exists|i: int|
            0 <= i < ps.len() && #[trigger] ps[i].0@ == k by {
            if k != ps.last().0@ {
                assert(map_of_pairs(ps.drop_last()).contains_key(k));
                let i = choose|i: int|
                    0 <= i < ps.drop_last().len() && #[trigger] ps.drop_last()[i].0@ == k;
                assert(ps.drop_last()[i] == ps[i]);
                assert(ps[i].0@ == k);
            } else {
                assert(ps[ps.len() - 1].0@ == k);
            }
        }
    }
}

pub proof fn lemma_map_of_pairs_update(ps: Seq<(String, Vec<u32>)>, i: int, p: (String, Vec<u32>))
    requires
        pairs_wf(ps),
        0 <= i < ps.len(),
        p.0@ == ps[i].0@,
    ensures
        map_of_pairs(ps.update(i, p)) == map_of_pairs(ps).insert(ps[i].0@, p.1@),
        pairs_wf(ps.update(i, p)),
    decreases ps.len(),
{
    if i == ps.len() - 1 {
        assert(ps.update(i, p).drop_last() =~= ps.drop_last());
        assert(ps.update(i, p).last() == p);
        assert(map_of_pairs(ps.update(i, p)) =~= map_of_pairs(ps).insert(ps[i].0@, p.1@));
    } else {
        assert(pairs_wf(ps.drop_last()));
        lemma_map_of_pairs_update(ps.drop_last(), i, p);
        assert(ps.update(i, p).drop_last() =~= ps.drop_last().update(i, p));
        assert(ps.update(i, p).last() == ps.last());
        assert(ps[i].0@ != ps.last().0@);
        assert(map_of_pairs(ps.update(i, p)) =~= map_of_pairs(ps).insert(ps[i].0@, p.1@));
    }
    assert forall|x: int, y: int|
        0 <= x < y < ps.update(i, p).len() implies ps.update(i, p)[x].0@ != ps.update(
        i,
        p,
    )[y].0@ by {
        assert(ps[x].0@ != ps[y].0@);
    }
}

/// The bucket of `k` in `m`, or the empty bucket when `k` is not yet a key.
pub open spec fn bucket_or_empty(m: Map<Seq<char>, Seq<u32>>, k: Seq<char>) -> Seq<u32> {
    if m.contains_key(k) {
        m[k]
    } else {
        Seq::empty()
    }
}

/// `m` with `id` appended to the bucket of `k` (created when absent).
pub open spec fn bucket_append(m: Map<Seq<char>, Seq<u32>>, k: Seq<char>, id: u32) -> Map<
    Seq<char>,
    Seq<u32>,
> {
    m.insert(k, bucket_or_empty(m, k).push(id))
}

impl SearchIndex {
    pub open spec fn wf(&self) -> bool {
        pairs_wf(self.pairs@)
    }

    /// An empty index.
    pub fn new() -> (r: SearchIndex)
        ensures
            r@ == Map::<Seq<char>, Seq<u32>>::empty(),
            r.wf(),
            r.pairs@.len() == 0,
    {
        SearchIndex { pairs: Vec::new() }
    }

    /// Appends `id` to the bucket of `key`, creating the bucket when the key
    /// is new (`spec`: [`bucket_append`]).
    pub fn append_id(&mut self, key: &str, id: u32)
        requires
            old(self).wf(),
        ensures
            final(self).wf(),
            final(self)@ == bucket_append(old(self)@, key@, id),
    {
        proof {
            lemma_map_of_pairs_index(self.pairs@);
        }
        let ghost ps0 = self.pairs@;
        let n = self.pairs.len();
        let mut i: usize = 0;
        while i < n
            invariant
                self.pairs@ == ps0,
                ps0 == old(self).pairs@,
                pairs_wf(ps0),
                n == ps0.len(),
                i <= n,
                forall|j: int| 0 <= j < i ==> ps0[j].0@ != key@,
            decreases n - i,
        {
            let found = str_eq(self.pairs[i].0.as_str(), key);
            if found {
                proof {
                    assert(ps0[i as int].0@ == key@);
                }
                let mut pair = self.pairs.remove(i);
                pair.1.push(id);
                let ghost np = pair;
                self.pairs.insert(i, pair);
                proof {
                    lemma_map_of_pairs_index(ps0);
                    assert(np.0@ == ps0[i as int].0@);
                    assert(np.1@ == ps0[i as int].1@.push(id));
                    assert(self.pairs@ =~= ps0.update(i as int, np));
                    lemma_map_of_pairs_update(ps0, i as int, np);
                    assert(map_of_pairs(ps0).contains_key(key@));
                    assert(bucket_or_empty(map_of_pairs(ps0), key@) == ps0[i as int].1@);
                    assert(self@ =~= bucket_append(map_of_pairs(ps0), key@, id));
                }
                return ;
            }
            i += 1;
        }
        let mut bucket: Vec<u32> = Vec::new();
        bucket.push(id);
        self.pairs.push((String::from_str(key), bucket));
        proof {
            assert(self.pairs@.drop_last() =~= ps0);
            if map_of_pairs(ps0).contains_key(key@) {
                let j = choose|j: int| 0 <= j < ps0.len() && #[trigger] ps0[j].0@ == key@;
                assert(false);
            }
            assert(self@ =~= bucket_append(map_of_pairs(ps0), key@, id));
            assert forall|x: int, y: int|
                0 <= x < y < self.pairs@.len() implies self.pairs@[x].0@ != self.pairs@[y].0@ by {
                if y < self.pairs@.len() - 1 {
                    assert(ps0[x].0@ != ps0[y].0@);
                }
            }
        }
    }

    /// Looks a key up, returning its ordered identifier bucket when present.
    pub fn get(&self, key: &str) -> (r: Option<&Vec<u32>>)
        requires
            self.wf(),
        ensures
            match r {
                Some(b) => self@.contains_key(key@) && b@ == self@[key@],
                None => !self@.contains_key(key@),
            },
    {
        proof {
            lemma_map_of_pairs_index(self.pairs@);
        }
        let n = self.pairs.len();
        let mut i: usize = 0;
        while i < n
            invariant
                n == self.pairs@.len(),
                i <= n,
                self.wf(),
                forall|j: int| 0 <= j < i ==> self.pairs@[j].0@ != key@,
            decreases n - i,
        {
            let found = str_eq(self.pairs[i].0.as_str(), key);
            if found {
                proof {
                    lemma_map_of_pairs_index(self.pairs@);
                }
                let pair = &self.pairs[i];
                return Some(&pair.1);
            }
            i += 1;
        }
        proof {
            if map_of_pairs(self.pairs@).contains_key(key@) {
                let j = choose|j: int|
                    0 <= j < self.pairs@.len() && #[trigger] self.pairs@[j].0@ == key@;
                assert(false);
            }
        }
        None
    }
}

/// The complete dictionary: the primary record store and the four inverted
/// indices.
pub struct SyngDictionary {
    pub pinyin: SearchIndex,
    pub english: SearchIndex,
    pub simplified: SearchIndex,
    pub traditional: SearchIndex,
    pub data: HashMap<u32, WordEntry>,
}

/// The mathematical value of a [`SyngDictionary`].
#[verifier::ext_equal]
pub struct DictV {
    pub pinyin: Map<Seq<char>, Seq<u32>>,
    pub english: Map<Seq<char>, Seq<u32>>,
    pub simplified: Map<Seq<char>, Seq<u32>>,
    pub traditional: Map<Seq<char>, Seq<u32>>,
    pub data: Map<u32, WordEntryV>,
}

pub open spec fn data_view(m: Map<u32, WordEntry>) -> Map<u32, WordEntryV> {
    Map::new(|k: u32| m.contains_key(k), |k: u32| m[k]@)
}

impl View for SyngDictionary {
    type V = DictV;

    open spec fn view(&self) -> DictV {
        DictV {
            pinyin: self.pinyin@,
            english: self.english@,
            simplified: self.simplified@,
            traditional: self.traditional@,
            data: data_view(self.data@),
        }
    }
}

/// `m` with `id` appended to the bucket of every key in `ks`, in order.
pub open spec fn buckets_append(m: Map<Seq<char>, Seq<u32>>, ks: Seq<Seq<char>>, id: u32) -> Map<
    Seq<char>,
    Seq<u32>,
>
    decreases ks.len(),
{
    if ks.len() == 0 {
        m
    } else {
        bucket_append(buckets_append(m, ks.drop_last(), id), ks.last(), id)
    }
}

/// An entry as stored: its fields with the identifier overwritten.
pub open spec fn with_id(e: WordEntryV, id: u32) -> WordEntryV {
    WordEntryV { word_id: id, ..e }
}

/// One step of index construction: the identifier is appended to the bucket
/// of the raw traditional and simplified forms, of every derived English
/// key, and of every derived pinyin key; the entry is stored under the
/// identifier it now carries.
pub open spec fn add_entry_spec(d: DictV, e: WordEntryV, id: u32) -> DictV {
    DictV {
        traditional: bucket_append(d.traditional, e.traditional, id),
        simplified: bucket_append(d.simplified, e.simplified, id),
        english: buckets_append(d.english, english_keys_all(e.english), id),
        pinyin: buckets_append(d.pinyin, pinyin_keys(e.pinyin_marks, e.pinyin_numbers), id),
        data: d.data.insert(id, with_id(e, id)),
    }
}

pub open spec fn empty_dict() -> DictV {
    DictV {
        pinyin: Map::empty(),
        english: Map::empty(),
        simplified: Map::empty(),
        traditional: Map::empty(),
        data: Map::empty(),
    }
}

/// The dictionary built from an entry list: entries are processed in order
/// and receive sequential identifiers starting at zero.
pub open spec fn build_spec(es: Seq<WordEntryV>) -> DictV
    decreases es.len(),
{
    if es.len() == 0 {
        empty_dict()
    } else {
        add_entry_spec(build_spec(es.drop_last()), es.last(), (es.len() - 1) as u32)
    }
}

/// Assigns each entry the next sequential identifier starting at zero,
/// stores it, and appends the identifier into the bucket of each of its
/// index keys (`spec`: [`build_spec`]).
pub fn build_dictionary(word_list: Vec<WordEntry>) -> (r: SyngDictionary)
    requires
        word_list@.len() <= u32::MAX as int,
    ensures
        r@ == build_spec(we_views(word_list@)),
        dict_wf(r@),
        r.pinyin.wf(),
        r.english.wf(),
        r.simplified.wf(),
        r.traditional.wf(),
{
    let ghost orig = word_list@;
    let mut remaining = word_list;
    let mut stack: Vec<WordEntry> = Vec::new();
    proof {
        assert(remaining@ =~= orig.subrange(0, remaining@.len() as int));
    }
    while remaining.len() > 0
        invariant
            remaining@.len() + stack@.len() == orig.len(),
            remaining@ == orig.subrange(0, remaining@.len() as int),
            forall|j: int| 0 <= j < stack@.len() ==> stack@[j] == orig[orig.len() - 1 - j],
        decreases remaining@.len(),
    {
        let e = remaining.pop().unwrap();
        stack.push(e);
        proof {
            assert(remaining@ =~= orig.subrange(0, remaining@.len() as int));
        }
    }
    let mut dict = SyngDictionary {
        pinyin: SearchIndex::new(),
        english: SearchIndex::new(),
        simplified: SearchIndex::new(),
        traditional: SearchIndex::new(),
        data: HashMap::new(),
    };
    let mut id: u32 = 0;
    proof {
        assert(we_views(orig).subrange(0, 0) =~= Seq::<WordEntryV>::empty());
        assert(data_view(dict.data@) =~~= Map::<u32, WordEntryV>::empty());
        assert(dict@ =~~= build_spec(we_views(orig).subrange(0, 0)));
    }
    while stack.len() > 0
        invariant
            id as int == orig.len() - stack@.len(),
            stack@.len() <= orig.len() <= u32::MAX as int,
            forall|j: int| 0 <= j < stack@.len() ==> stack@[j] == orig[orig.len() - 1 - j],
            dict@ == build_spec(we_views(orig).subrange(0, id as int)),
            dict.pinyin.wf(),
            dict.english.wf(),
            dict.simplified.wf(),
            dict.traditional.wf(),
        decreases stack@.len(),
    {
        let mut entry = stack.pop().unwrap();
        let ghost ev = entry@;
        let ghost pre = dict@;
        proof {
            assert(entry == orig[id as int]);
            assert(ev == we_views(orig)[id as int]);
        }
        dict.traditional.append_id(entry.traditional.as_str(), id);
        dict.simplified.append_id(entry.simplified.as_str(), id);
        let searchable_english = build_searchable_english(&entry.english);
        let searchable_pinyin = build_searchable_pinyin(
            entry.pinyin_marks.clone(),
            entry.pinyin_numbers.clone(),
        );
        let ghost ekeys = views_of(searchable_english@);
        let ghost pkeys = views_of(searchable_pinyin@);
        proof {
            assert(ekeys == english_keys_all(ev.english));
            assert(pkeys == pinyin_keys(ev.pinyin_marks, ev.pinyin_numbers));
            assert(ekeys.subrange(0, 0) =~= Seq::<Seq<char>>::empty());
            assert(pkeys.subrange(0, 0) =~= Seq::<Seq<char>>::empty());
        }
        let mut t: usize = 0;
        while t < searchable_english.len()
            invariant
                t <= searchable_english@.len(),
                ekeys == views_of(searchable_english@),
                dict.english@ == buckets_append(pre.english, ekeys.subrange(0, t as int), id),
                dict.english.wf(),
                dict.pinyin@ == pre.pinyin,
                dict.pinyin.wf(),
                dict.traditional@ == bucket_append(pre.traditional, ev.traditional, id),
                dict.traditional.wf(),
                dict.simplified@ == bucket_append(pre.simplified, ev.simplified, id),
                dict.simplified.wf(),
                data_view(dict.data@) == pre.data,
            decreases searchable_english@.len() - t,
        {
            dict.english.append_id(searchable_english[t].as_str(), id);
            proof {
                assert(ekeys[t as int] == searchable_english@[t as int]@);
                assert(ekeys.subrange(0, t as int + 1) =~= ekeys.subrange(0, t as int).push(
                    ekeys[t as int],
                ));
                assert(ekeys.subrange(0, t as int + 1).drop_last() =~= ekeys.subrange(0, t as int));
                assert(ekeys.subrange(0, t as int + 1).last() == ekeys[t as int]);
                assert(dict.english@ == buckets_append(
                    pre.english,
                    ekeys.subrange(0, t as int + 1),
                    id,
                ));
            }
            t += 1;
        }
        let mut u: usize = 0;
        while u < searchable_pinyin.len()
            invariant
                u <= searchable_pinyin@.len(),
                pkeys == views_of(searchable_pinyin@),
                ekeys == views_of(searchable_english@),
                dict.pinyin@ == buckets_append(pre.pinyin, pkeys.subrange(0, u as int), id),
                dict.pinyin.wf(),
                dict.english@ == buckets_append(
                    pre.english,
                    ekeys.subrange(0, searchable_english@.len() as int),
                    id,
                ),
                dict.english.wf(),
                dict.traditional@ == bucket_append(pre.traditional, ev.traditional, id),
                dict.traditional.wf(),
                dict.simplified@ == bucket_append(pre.simplified, ev.simplified, id),
                dict.simplified.wf(),
                data_view(dict.data@) == pre.data,
            decreases searchable_pinyin@.len() - u,
        {
            dict.pinyin.append_id(searchable_pinyin[u].as_str(), id);
            proof {
                assert(pkeys[u as int] == searchable_pinyin@[u as int]@);
                assert(pkeys.subrange(0, u as int + 1) =~= pkeys.subrange(0, u as int).push(
                    pkeys[u as int],
                ));
                assert(pkeys.subrange(0, u as int + 1).drop_last() =~= pkeys.subrange(0, u as int));
                assert(pkeys.subrange(0, u as int + 1).last() == pkeys[u as int]);
                assert(dict.pinyin@ == buckets_append(
                    pre.pinyin,
                    pkeys.subrange(0, u as int + 1),
                    id,
                ));
            }
            u += 1;
        }
        entry.word_id = id;
        proof {
            assert(entry@ =~~= with_id(ev, id));
            assert(ekeys.subrange(0, searchable_english@.len() as int) =~= ekeys);
            assert(pkeys.subrange(0, searchable_pinyin@.len() as int) =~= pkeys);
        }
        dict.data.insert(id, entry);
        proof {
            assert(data_view(dict.data@) =~~= pre.data.insert(id, with_id(ev, id)));
            assert(we_views(orig).subrange(0, id as int + 1).drop_last() =~= we_views(
                orig,
            ).subrange(0, id as int));
            assert(we_views(orig).subrange(0, id as int + 1).last() == ev);
            assert(dict@ =~~= add_entry_spec(pre, ev, id));
            assert(dict@ =~~= build_spec(we_views(orig).subrange(0, id as int + 1)));
        }
        id += 1;
    }
    proof {
        assert(we_views(orig).subrange(0, orig.len() as int) =~= we_views(orig));
        lemma_build_spec_integrity(we_views(orig));
    }
    dict
}

/// Every identifier in every bucket of `m` is a key of the store.
pub open spec fn ids_covered(m: Map<Seq<char>, Seq<u32>>, data: Map<u32, WordEntryV>) -> bool {
    forall|k: Seq<char>, j: int|
        m.contains_key(k) && 0 <= j < m[k].len() ==> data.contains_key(#[trigger] m[k][j])
}

/// Referential integrity of a dictionary: every identifier appearing in any
/// index bucket is a key in the primary store.
pub open spec fn dict_wf(d: DictV) -> bool {
    &&& ids_covered(d.pinyin, d.data)
    &&& ids_covered(d.english, d.data)
    &&& ids_covered(d.simplified, d.data)
    &&& ids_covered(d.traditional, d.data)
}

proof fn lemma_ids_covered_data_grow(
    m: Map<Seq<char>, Seq<u32>>,
    data: Map<u32, WordEntryV>,
    id: u32,
    e: WordEntryV,
)
    requires
        ids_covered(m, data),
    ensures
        ids_covered(m, data.insert(id, e)),
{
}

proof fn lemma_bucket_append_ids(
    m: Map<Seq<char>, Seq<u32>>,
    k: Seq<char>,
    id: u32,
    data: Map<u32, WordEntryV>,
)
    requires
        ids_covered(m, data),
        data.contains_key(id),
    ensures
        ids_covered(bucket_append(m, k, id), data),
{
    let m2 = bucket_append(m, k, id);
    assert forall|k2: Seq<char>, j: int|
        m2.contains_key(k2) && 0 <= j < m2[k2].len() implies data.contains_key(
        #[trigger] m2[k2][j],
    ) by {
        if k2 == k {
            let b = bucket_or_empty(m, k);
            if j < b.len() {
                assert(m2[k2][j] == b[j]);
            } else {
                assert(m2[k2][j] == id);
            }
        }
    }
}

proof fn lemma_buckets_append_ids(
    m: Map<Seq<char>, Seq<u32>>,
    ks: Seq<Seq<char>>,
    id: u32,
    data: Map<u32, WordEntryV>,
)
    requires
        ids_covered(m, data),
        data.contains_key(id),
    ensures
        ids_covered(buckets_append(m, ks, id), data),
    decreases ks.len(),
{
    if ks.len() > 0 {
        lemma_buckets_append_ids(m, ks.drop_last(), id, data);
        lemma_bucket_append_ids(buckets_append(m, ks.drop_last(), id), ks.last(), id, data);
    }
}

/// Referential integrity of the built dictionary, and the exact domain of
/// its store: the identifiers 0 to the entry count, exclusive.
pub proof fn lemma_build_spec_integrity(es: Seq<WordEntryV>)
    requires
        es.len() <= u32::MAX as int,
    ensures
        dict_wf(build_spec(es)),
        forall|i: u32| #[trigger] build_spec(es).data.contains_key(i) <==> (i as int) < es.len(),
    decreases es.len(),
{
    if es.len() > 0 {
        lemma_build_spec_integrity(es.drop_last());
        let d = build_spec(es.drop_last());
        let id = (es.len() - 1) as u32;
        let data2 = d.data.insert(id, with_id(es.last(), id));
        assert forall|i: u32| #[trigger] data2.contains_key(i) <==> (i as int) < es.len() by {
            if i != id {
                assert(data2.contains_key(i) <==> d.data.contains_key(i));
            }
        }
        lemma_ids_covered_data_grow(d.traditional, d.data, id, with_id(es.last(), id));
        lemma_ids_covered_data_grow(d.simplified, d.data, id, with_id(es.last(), id));
        lemma_ids_covered_data_grow(d.english, d.data, id, with_id(es.last(), id));
        lemma_ids_covered_data_grow(d.pinyin, d.data, id, with_id(es.last(), id));
        lemma_bucket_append_ids(d.traditional, es.last().traditional, id, data2);
        lemma_bucket_append_ids(d.simplified, es.last().simplified, id, data2);
        lemma_buckets_append_ids(d.english, english_keys_all(es.last().english), id, data2);
        lemma_buckets_append_ids(
            d.pinyin,
            pinyin_keys(es.last().pinyin_marks, es.last().pinyin_numbers),
            id,
            data2,
        );
    }
}

proof fn lemma_bucket_append_preserves(
    m: Map<Seq<char>, Seq<u32>>,
    k: Seq<char>,
    id: u32,
    k0: Seq<char>,
    x: u32,
)
    requires
        m.contains_key(k0),
        m[k0].contains(x),
    ensures
        bucket_append(m, k, id).contains_key(k0),
        bucket_append(m, k, id)[k0].contains(x),
{
    if k0 == k {
        let b = bucket_or_empty(m, k);
        let j = choose|j: int| 0 <= j < b.len() && b[j] == x;
        assert(b.push(id)[j] == x);
    }
}

proof fn lemma_buckets_append_preserves(
    m: Map<Seq<char>, Seq<u32>>,
    ks: Seq<Seq<char>>,
    id: u32,
    k0: Seq<char>,
    x: u32,
)
    requires
        m.contains_key(k0),
        m[k0].contains(x),
    ensures
        buckets_append(m, ks, id).contains_key(k0),
        buckets_append(m, ks, id)[k0].contains(x),
    decreases ks.len(),
{
    if ks.len() > 0 {
        lemma_buckets_append_preserves(m, ks.drop_last(), id, k0, x);
        lemma_bucket_append_preserves(buckets_append(m, ks.drop_last(), id), ks.last(), id, k0, x);
    }
}

proof fn lemma_bucket_append_adds(m: Map<Seq<char>, Seq<u32>>, k: Seq<char>, id: u32)
    ensures
        bucket_append(m, k, id).contains_key(k),
        bucket_append(m, k, id)[k].contains(id),
{
    let b = bucket_or_empty(m, k);
    assert(b.push(id)[b.len() as int] == id);
}

/// Each entry's identifier equals its ordinal position, its record is stored
/// under that identifier, and the identifier stands in the buckets of its
/// raw traditional and simplified forms.
pub proof fn lemma_entry_in_buckets(es: Seq<WordEntryV>, i: int)
    requires
        0 <= i < es.len(),
        es.len() <= u32::MAX as int,
    ensures
        build_spec(es).traditional.contains_key(es[i].traditional),
        build_spec(es).traditional[es[i].traditional].contains(i as u32),
        build_spec(es).simplified.contains_key(es[i].simplified),
        build_spec(es).simplified[es[i].simplified].contains(i as u32),
        build_spec(es).data.contains_key(i as u32),
        build_spec(es).data[i as u32] == with_id(es[i], i as u32),
    decreases es.len(),
{
    let d = build_spec(es.drop_last());
    let id = (es.len() - 1) as u32;
    if i == es.len() - 1 {
        lemma_bucket_append_adds(d.traditional, es[i].traditional, id);
        lemma_bucket_append_adds(d.simplified, es[i].simplified, id);
    } else {
        assert(es.drop_last()[i] == es[i]);
        lemma_entry_in_buckets(es.drop_last(), i);
        lemma_bucket_append_preserves(d.traditional, es.last().traditional, id, es[i].traditional, i as u32);
        lemma_bucket_append_preserves(d.simplified, es.last().simplified, id, es[i].simplified, i as u32);
        assert(i as u32 != id);
    }
}

/// Two distinct entries with identical surface traditional and simplified
/// forms receive two distinct identifiers, and both identifiers appear in
/// the shared traditional and simplified buckets.
pub proof fn lemma_distinct_entries_share_buckets(es: Seq<WordEntryV>, i: int, j: int)
    requires
        0 <= i < j < es.len(),
        es.len() <= u32::MAX as int,
        es[i].traditional == es[j].traditional,
        es[i].simplified == es[j].simplified,
    ensures
        i as u32 != j as u32,
        build_spec(es).traditional[es[i].traditional].contains(i as u32),
        build_spec(es).traditional[es[i].traditional].contains(j as u32),
        build_spec(es).simplified[es[i].simplified].contains(i as u32),
        build_spec(es).simplified[es[i].simplified].contains(j as u32),
        build_spec(es).data.contains_key(i as u32),
        build_spec(es).data.contains_key(j as u32),
{
    lemma_entry_in_buckets(es, i);
    lemma_entry_in_buckets(es, j);
}

/// Determinism of the whole pipeline: parsing and index construction are
/// functions of the input lines' character content alone, so re-running on
/// identical input yields identical store and bucket contents.
pub proof fn lemma_pipeline_deterministic(a: Seq<Seq<char>>, b: Seq<Seq<char>>)
    requires
        a == b,
    ensures
        crate::cedict::entries_of_lines(a) == crate::cedict::entries_of_lines(b),
        build_spec(crate::cedict::entries_of_lines(a)) == build_spec(
            crate::cedict::entries_of_lines(b),
        ),
{
}

} // verus!
