//! The per-line entry parser: decomposes one lexicon source line into its
//! traditional form, simplified form, romanization block and gloss list,
//! extracts nested measure-word sub-records and tone numbers, and rejects
//! malformed lines.

use vstd::prelude::*;
use crate::collab::prettified;
use crate::dictionary::{mw_views, we_views, MeasureWord, MeasureWordV, WordEntry, WordEntryV};
use crate::text::{
    find_char, first_index, lemma_first_index_props, split_chars, split_on, views_of,
};

verus! {

/// The failure conditions of the pipeline that arise inside the library:
/// a source line that lacks a required delimiter or token.
#[derive(Clone, Copy, PartialEq, Eq, Structural, Debug)]
pub enum DictError {
    MalformedLine,
}

/// A gloss string that carries a classifier annotation: its first three
/// characters are the literal marker `CL:`.
pub open spec fn is_mw_gloss(g: Seq<char>) -> bool {
    g.len() >= 3 && g[0] == 'C' && g[1] == 'L' && g[2] == ':'
}

/// The space-separated tokens of a line; the first two are the traditional
/// and simplified forms.
pub open spec fn spec_tokens(line: Seq<char>) -> Seq<Seq<char>> {
    split_on(line, ' ')
}

/// `s` with every `[` character removed.
pub open spec fn sans_bracket(s: Seq<char>) -> Seq<char> {
    s.filter(|c: char| c != '[')
}

pub proof fn lemma_sans_bracket_push(s: Seq<char>, c: char)
    ensures
        sans_bracket(s.push(c)) == if c != '[' {
            sans_bracket(s).push(c)
        } else {
            sans_bracket(s)
        },
        sans_bracket(Seq::<char>::empty()) == Seq::<char>::empty(),
{
    reveal(Seq::filter);
    assert(s.push(c).drop_last() =~= s);
}

/// The romanization block: the span from the first `[` up to the first `]`,
/// with any further `[` characters stripped from its interior.
pub open spec fn spec_pinyin(line: Seq<char>) -> Seq<char> {
    sans_bracket(line.subrange(first_index(line, '['), first_index(line, ']')))
}

/// The non-empty parts of a split.
pub open spec fn nonempty_parts(ps: Seq<Seq<char>>) -> Seq<Seq<char>> {
    ps.filter(|t: Seq<char>| t.len() > 0)
}

pub proof fn lemma_nonempty_parts_push(ps: Seq<Seq<char>>, t: Seq<char>)
    ensures
        nonempty_parts(ps.push(t)) == if t.len() > 0 {
            nonempty_parts(ps).push(t)
        } else {
            nonempty_parts(ps)
        },
        nonempty_parts(Seq::<Seq<char>>::empty()) == Seq::<Seq<char>>::empty(),
{
    reveal(Seq::filter);
    assert(ps.push(t).drop_last() =~= ps);
}

/// The gloss strings of a line: the remainder from the first `/`, split on
/// `/`, empty parts discarded.
pub open spec fn spec_glosses(line: Seq<char>) -> Seq<Seq<char>> {
    nonempty_parts(split_on(line.subrange(first_index(line, '/'), line.len() as int), '/'))
}

/// A gloss list with the classifier-annotation strings removed.
pub open spec fn non_mw(gs: Seq<Seq<char>>) -> Seq<Seq<char>> {
    gs.filter(|g: Seq<char>| !is_mw_gloss(g))
}

pub proof fn lemma_non_mw_push(gs: Seq<Seq<char>>, g: Seq<char>)
    ensures
        non_mw(gs.push(g)) == if !is_mw_gloss(g) {
            non_mw(gs).push(g)
        } else {
            non_mw(gs)
        },
        non_mw(Seq::<Seq<char>>::empty()) == Seq::<Seq<char>>::empty(),
{
    reveal(Seq::filter);
    assert(gs.push(g).drop_last() =~= gs);
}

/// The comma-separated measure-word segments of a classifier gloss (the text
/// after the `CL:` marker).
pub open spec fn mw_segments(g: Seq<char>) -> Seq<Seq<char>> {
    split_on(g.subrange(3, g.len() as int), ',')
}

/// The part of a segment between its first `|` and the next `|` (or its
/// end): the raw simplified-form side of the segment.
pub open spec fn mw_rs(w: Seq<char>) -> Seq<char>
    recommends
        w.contains('|'),
{
    let rest = w.subrange(first_index(w, '|') + 1, w.len() as int);
    rest.subrange(0, first_index(rest, '|'))
}

/// A measure-word segment that the parser accepts: it holds a bracketed
/// romanization span, and when it carries a `|` separator the simplified
/// side holds a `[` as well.
pub open spec fn segment_ok(w: Seq<char>) -> bool {
    &&& w.contains('[')
    &&& w.contains(']')
    &&& first_index(w, '[') < first_index(w, ']')
    &&& (w.contains('|') ==> mw_rs(w).contains('['))
}

/// The digit-marked romanization of a segment: the characters strictly
/// between the first `[` and the first `]`.
pub open spec fn spec_mw_numbers(w: Seq<char>) -> Seq<char> {
    w.subrange(first_index(w, '[') + 1, first_index(w, ']'))
}

/// The traditional form of a segment: the text before the first `|` when one
/// is present, else the text before the first `[`.
pub open spec fn spec_mw_trad(w: Seq<char>) -> Seq<char> {
    if w.contains('|') {
        w.subrange(0, first_index(w, '|'))
    } else {
        w.subrange(0, first_index(w, '['))
    }
}

/// The simplified form of a segment: the text between `|` and the following
/// `[` when a `|` is present, else the same text as the traditional form.
pub open spec fn spec_mw_simp(w: Seq<char>) -> Seq<char> {
    if w.contains('|') {
        mw_rs(w).subrange(0, first_index(mw_rs(w), '['))
    } else {
        w.subrange(0, first_index(w, '['))
    }
}

/// The measure word that one well-formed segment denotes.
pub open spec fn mw_of_segment(w: Seq<char>) -> MeasureWordV {
    MeasureWordV {
        traditional: spec_mw_trad(w),
        simplified: spec_mw_simp(w),
        pinyin_marks: prettified(spec_mw_numbers(w)),
        pinyin_numbers: spec_mw_numbers(w),
    }
}

pub open spec fn mws_of_segments(ws: Seq<Seq<char>>) -> Seq<MeasureWordV> {
    ws.map_values(|w: Seq<char>| mw_of_segment(w))
}

/// The measure words of one classifier gloss, segment by segment.
pub open spec fn mws_of_gloss(g: Seq<char>) -> Seq<MeasureWordV> {
    mws_of_segments(mw_segments(g))
}

/// Every segment of a classifier gloss is well formed.
pub open spec fn gloss_ok(g: Seq<char>) -> bool {
    is_mw_gloss(g) ==> forall|i: int|
        0 <= i < mw_segments(g).len() ==> segment_ok(#[trigger] mw_segments(g)[i])
}

/// The measure words of a gloss list, in gloss order, segment order within
/// each gloss; non-classifier glosses contribute none.
pub open spec fn mws_of_glosses(gs: Seq<Seq<char>>) -> Seq<MeasureWordV>
    decreases gs.len(),
{
    if gs.len() == 0 {
        Seq::empty()
    } else {
        mws_of_glosses(gs.drop_last()) + (if is_mw_gloss(gs.last()) {
            mws_of_gloss(gs.last())
        } else {
            Seq::empty()
        })
    }
}

/// The lines that the parser accepts: a traditional and a simplified token
/// separated by a space, a non-empty `[`...`]` romanization block in order,
/// at least one gloss after the first `/`, and well-formed classifier
/// glosses.
pub open spec fn parse_ok(line: Seq<char>) -> bool {
    &&& spec_tokens(line).len() >= 2
    &&& spec_tokens(line)[0].len() > 0
    &&& spec_tokens(line)[1].len() > 0
    &&& line.contains('[')
    &&& line.contains(']')
    &&& first_index(line, '[') < first_index(line, ']')
    &&& spec_pinyin(line).len() > 0
    &&& line.contains('/')
    &&& spec_glosses(line).len() > 0
    &&& forall|i: int|
        0 <= i < spec_glosses(line).len() ==> gloss_ok(#[trigger] spec_glosses(line)[i])
}

/// The draft entry parsed from one line, before tone extraction and
/// identifier assignment.
#[derive(Hash, Debug)]
pub struct CEDictEntry {
    pub traditional: String,
    pub simplified: String,
    pub pinyin: String,
    pub english: Vec<String>,
    pub measure_words: Vec<MeasureWord>,
}

/// The mathematical value of a [`CEDictEntry`].
#[verifier::ext_equal]
pub struct CEDictEntryV {
    pub traditional: Seq<char>,
    pub simplified: Seq<char>,
    pub pinyin: Seq<char>,
    pub english: Seq<Seq<char>>,
    pub measure_words: Seq<MeasureWordV>,
}

impl View for CEDictEntry {
    type V = CEDictEntryV;

    open spec fn view(&self) -> CEDictEntryV {
        CEDictEntryV {
            traditional: self.traditional@,
            simplified: self.simplified@,
            pinyin: self.pinyin@,
            english: views_of(self.english@),
            measure_words: mw_views(self.measure_words@),
        }
    }
}

/// The draft entry that a well-formed line denotes.
pub open spec fn parsed_entry_of(line: Seq<char>) -> CEDictEntryV {
    CEDictEntryV {
        traditional: spec_tokens(line)[0],
        simplified: spec_tokens(line)[1],
        pinyin: spec_pinyin(line),
        english: non_mw(spec_glosses(line)),
        measure_words: mws_of_glosses(spec_glosses(line)),
    }
}

/// Whether a gloss string carries a classifier annotation
/// (`spec`: [`is_mw_gloss`]).
pub fn is_measure_word(line: &str) -> (r: bool)
    ensures
        r == is_mw_gloss(line@),
{
    let n = line.unicode_len();
    if n < 3 {
        return false;
    }
    line.get_char(0) == 'C' && line.get_char(1) == 'L' && line.get_char(2) == ':'
}

/// Removes every classifier-annotation string from a gloss list
/// (`spec`: [`non_mw`]).
pub fn prune_measure_words(english: Vec<String>) -> (r: Vec<String>)
    ensures
        views_of(r@) == non_mw(views_of(english@)),
{
    let mut kept: Vec<String> = Vec::new();
    proof {
        lemma_non_mw_push(Seq::<Seq<char>>::empty(), Seq::<char>::empty());
        assert(views_of(english@).subrange(0, 0) =~= Seq::<Seq<char>>::empty());
        assert(views_of(kept@) =~~= non_mw(views_of(english@).subrange(0, 0)));
    }
    let mut i: usize = 0;
    while i < english.len()
        invariant
            i <= english@.len(),
            views_of(kept@) == non_mw(views_of(english@).subrange(0, i as int)),
        decreases english@.len() - i,
    {
        proof {
            assert(views_of(english@).subrange(0, i as int + 1) =~= views_of(english@).subrange(
                0,
                i as int,
            ).push(english@[i as int]@));
            lemma_non_mw_push(views_of(english@).subrange(0, i as int), english@[i as int]@);
        }
        if !is_measure_word(english[i].as_str()) {
            kept.push(english[i].clone());
            proof {
                assert(views_of(kept@) =~~= non_mw(views_of(english@).subrange(0, i as int + 1)));
            }
        } else {
            proof {
                assert(views_of(kept@) =~~= non_mw(views_of(english@).subrange(0, i as int + 1)));
            }
        }
        i += 1;
    }
    proof {
        assert(views_of(english@).subrange(0, english@.len() as int) =~= views_of(english@));
    }
    kept
}

/// Splits one non-comment source line into a draft entry: traditional and
/// simplified tokens, romanization block, gloss list, and the measure words
/// of every classifier gloss. Returns `MalformedLine` exactly on the lines
/// that [`parse_ok`] rejects (`spec`: [`parsed_entry_of`]).
pub fn process_cedict_entry(raw_line: &str) -> (r: Result<CEDictEntry, DictError>)
    ensures
        match r {
            Ok(e) => parse_ok(raw_line@) && e@ == parsed_entry_of(raw_line@),
            Err(err) => !parse_ok(raw_line@) && err == DictError::MalformedLine,
        },
{
    let ghost line = raw_line@;
    let n = raw_line.unicode_len();
    let tokens = split_chars(raw_line, ' ');
    if tokens.len() < 2 {
        return Err(DictError::MalformedLine);
    }
    let traditional = tokens[0].clone();
    let simplified = tokens[1].clone();
    if traditional.as_str().unicode_len() == 0 || simplified.as_str().unicode_len() == 0 {
        return Err(DictError::MalformedLine);
    }
    let open_idx = find_char(raw_line, '[');
    let close_idx = find_char(raw_line, ']');
    proof {
        lemma_first_index_props(line, '[');
        lemma_first_index_props(line, ']');
    }
    if open_idx == n || close_idx == n || open_idx >= close_idx {
        return Err(DictError::MalformedLine);
    }
    let mut pinyin = String::new();
    proof {
        lemma_sans_bracket_push(Seq::<char>::empty(), ' ');
        assert(line.subrange(open_idx as int, open_idx as int) =~= Seq::<char>::empty());
        assert(pinyin@ =~= sans_bracket(line.subrange(open_idx as int, open_idx as int)));
    }
    let mut k: usize = open_idx;
    while k < close_idx
        invariant
            n == line.len(),
            line == raw_line@,
            open_idx <= k <= close_idx,
            close_idx < n,
            pinyin@ == sans_bracket(line.subrange(open_idx as int, k as int)),
        decreases close_idx - k,
    {
        let c = raw_line.get_char(k);
        proof {
            assert(line.subrange(open_idx as int, k as int + 1) =~= line.subrange(
                open_idx as int,
                k as int,
            ).push(c));
            lemma_sans_bracket_push(line.subrange(open_idx as int, k as int), c);
        }
        if c != '[' {
            let piece = raw_line.substring_char(k, k + 1);
            proof {
                assert(piece@ =~= seq![c]);
            }
            pinyin.append(piece);
        }
        proof {
            assert(pinyin@ =~= sans_bracket(line.subrange(open_idx as int, k as int + 1)));
        }
        k += 1;
    }
    if pinyin.as_str().unicode_len() == 0 {
        return Err(DictError::MalformedLine);
    }
    let slash_idx = find_char(raw_line, '/');
    proof {
        lemma_first_index_props(line, '/');
    }
    if slash_idx == n {
        return Err(DictError::MalformedLine);
    }
    let raw_english = raw_line.substring_char(slash_idx, n);
    let parts = split_chars(raw_english, '/');
    let mut glosses: Vec<String> = Vec::new();
    proof {
        lemma_nonempty_parts_push(Seq::<Seq<char>>::empty(), Seq::<char>::empty());
        assert(views_of(parts@).subrange(0, 0) =~= Seq::<Seq<char>>::empty());
        assert(views_of(glosses@) =~~= nonempty_parts(views_of(parts@).subrange(0, 0)));
    }
    let mut j: usize = 0;
    while j < parts.len()
        invariant
            j <= parts@.len(),
            views_of(glosses@) == nonempty_parts(views_of(parts@).subrange(0, j as int)),
        decreases parts@.len() - j,
    {
        proof {
            assert(views_of(parts@).subrange(0, j as int + 1) =~= views_of(parts@).subrange(
                0,
                j as int,
            ).push(parts@[j as int]@));
            lemma_nonempty_parts_push(views_of(parts@).subrange(0, j as int), parts@[j as int]@);
        }
        if parts[j].as_str().unicode_len() > 0 {
            glosses.push(parts[j].clone());
        }
        proof {
            assert(views_of(glosses@) =~~= nonempty_parts(views_of(parts@).subrange(0, j as int + 1)));
        }
        j += 1;
    }
    proof {
        assert(views_of(parts@).subrange(0, parts@.len() as int) =~= views_of(parts@));
        assert(views_of(glosses@) == spec_glosses(line));
    }
    if glosses.len() == 0 {
        return Err(DictError::MalformedLine);
    }
    let mut measure_words: Vec<MeasureWord> = Vec::new();
    proof {
        assert(spec_glosses(line).subrange(0, 0) =~= Seq::<Seq<char>>::empty());
        assert(mw_views(measure_words@) =~~= mws_of_glosses(spec_glosses(line).subrange(0, 0)));
    }
    let mut gi: usize = 0;
    while gi < glosses.len()
        invariant
            line == raw_line@,
            gi <= glosses@.len(),
            views_of(glosses@) == spec_glosses(line),
            mw_views(measure_words@) == mws_of_glosses(spec_glosses(line).subrange(0, gi as int)),
            forall|x: int| 0 <= x < gi ==> gloss_ok(#[trigger] spec_glosses(line)[x]),
        decreases glosses@.len() - gi,
    {
        let ghost gv = glosses@[gi as int]@;
        proof {
            assert(gv == spec_glosses(line)[gi as int]);
            assert(spec_glosses(line).subrange(0, gi as int + 1) =~= spec_glosses(line).subrange(
                0,
                gi as int,
            ).push(gv));
        }
        if is_measure_word(glosses[gi].as_str()) {
            let glen = glosses[gi].as_str().unicode_len();
            let content = glosses[gi].as_str().substring_char(3, glen);
            let segs = split_chars(content, ',');
            proof {
                assert(views_of(segs@) == mw_segments(gv));
            }
            let mut si: usize = 0;
            proof {
                assert(mw_segments(gv).subrange(0, 0) =~= Seq::<Seq<char>>::empty());
                assert(mw_views(measure_words@) =~~= mws_of_glosses(
                    spec_glosses(line).subrange(0, gi as int),
                ) + mws_of_segments(mw_segments(gv).subrange(0, 0)));
            }
            while si < segs.len()
                invariant
                    line == raw_line@,
                    si <= segs@.len(),
                    views_of(segs@) == mw_segments(gv),
                    gv == spec_glosses(line)[gi as int],
                    0 <= gi < spec_glosses(line).len(),
                    is_mw_gloss(gv),
                    views_of(glosses@) == spec_glosses(line),
                    mw_views(measure_words@) == mws_of_glosses(
                        spec_glosses(line).subrange(0, gi as int),
                    ) + mws_of_segments(mw_segments(gv).subrange(0, si as int)),
                    forall|x: int| 0 <= x < si ==> segment_ok(#[trigger] mw_segments(gv)[x]),
                    forall|x: int| 0 <= x < gi ==> gloss_ok(#[trigger] spec_glosses(line)[x]),
                decreases segs@.len() - si,
            {
                let w = segs[si].as_str();
                let ghost wv = w@;
                proof {
                    assert(wv == mw_segments(gv)[si as int]);
                }
                let wlen = w.unicode_len();
                let ob = find_char(w, '[');
                let cb = find_char(w, ']');
                proof {
                    lemma_first_index_props(wv, '[');
                    lemma_first_index_props(wv, ']');
                    lemma_first_index_props(wv, '|');
                }
                if ob == wlen || cb == wlen || ob >= cb {
                    proof {
                        assert(!segment_ok(mw_segments(gv)[si as int]));
                        assert(!gloss_ok(spec_glosses(line)[gi as int]));
                    }
                    return Err(DictError::MalformedLine);
                }
                let numbers = String::from_str(w.substring_char(ob + 1, cb));
                let marks = crate::collab::prettify_marks(numbers.as_str());
                let pipe = find_char(w, '|');
                let mw: MeasureWord;
                if pipe < wlen {
                    let trad = String::from_str(w.substring_char(0, pipe));
                    let rest = w.substring_char(pipe + 1, wlen);
                    let pipe2 = find_char(rest, '|');
                    proof {
                        lemma_first_index_props(rest@, '|');
                    }
                    let rs = rest.substring_char(0, pipe2);
                    proof {
                        assert(rs@ == mw_rs(wv));
                        lemma_first_index_props(rs@, '[');
                    }
                    let rslen = rs.unicode_len();
                    let sb = find_char(rs, '[');
                    if sb == rslen {
                        proof {
                            assert(wv.contains('|'));
                            assert(!mw_rs(wv).contains('['));
                            assert(!segment_ok(mw_segments(gv)[si as int]));
                            assert(!gloss_ok(spec_glosses(line)[gi as int]));
                        }
                        return Err(DictError::MalformedLine);
                    }
                    let simp = String::from_str(rs.substring_char(0, sb));
                    mw = MeasureWord {
                        traditional: trad,
                        simplified: simp,
                        pinyin_marks: marks,
                        pinyin_numbers: numbers,
                    };
                    proof {
                        assert(mw@ =~~= mw_of_segment(wv));
                    }
                } else {
                    let trad = String::from_str(w.substring_char(0, ob));
                    let simp = trad.clone();
                    mw = MeasureWord {
                        traditional: trad,
                        simplified: simp,
                        pinyin_marks: marks,
                        pinyin_numbers: numbers,
                    };
                    proof {
                        assert(!wv.contains('|'));
                        assert(mw@ =~~= mw_of_segment(wv));
                    }
                }
                let ghost prev = measure_words@;
                measure_words.push(mw);
                proof {
                    assert(mw_views(measure_words@) =~~= mw_views(prev).push(mw@));
                    assert(mw_segments(gv).subrange(0, si as int + 1) =~= mw_segments(gv).subrange(
                        0,
                        si as int,
                    ).push(wv));
                    assert(segment_ok(mw_segments(gv)[si as int]));
                    assert(mws_of_segments(mw_segments(gv).subrange(0, si as int + 1)) =~~=
                        mws_of_segments(mw_segments(gv).subrange(0, si as int)).push(
                        mw_of_segment(wv),
                    ));
                    assert(mw_views(measure_words@) =~~= mws_of_glosses(
                        spec_glosses(line).subrange(0, gi as int),
                    ) + mws_of_segments(mw_segments(gv).subrange(0, si as int + 1)));
                }
                si += 1;
            }
            proof {
                assert(mw_segments(gv).subrange(0, segs@.len() as int) =~= mw_segments(gv));
                assert(gloss_ok(spec_glosses(line)[gi as int]));
                assert(spec_glosses(line).subrange(0, gi as int + 1).drop_last() =~= spec_glosses(
                    line,
                ).subrange(0, gi as int));
                assert(mw_views(measure_words@) =~~= mws_of_glosses(
                    spec_glosses(line).subrange(0, gi as int + 1),
                ));
            }
        } else {
            proof {
                assert(gloss_ok(spec_glosses(line)[gi as int]));
                assert(spec_glosses(line).subrange(0, gi as int + 1).drop_last() =~= spec_glosses(
                    line,
                ).subrange(0, gi as int));
                assert(mw_views(measure_words@) =~~= mws_of_glosses(
                    spec_glosses(line).subrange(0, gi as int + 1),
                ));
            }
        }
        gi += 1;
    }
    proof {
        assert(spec_glosses(line).subrange(0, glosses@.len() as int) =~= spec_glosses(line));
    }
    let english = prune_measure_words(glosses);
    let entry = CEDictEntry { traditional, simplified, pinyin, english, measure_words };
    proof {
        assert(parse_ok(line));
        assert(entry@ =~~= parsed_entry_of(line));
    }
    Ok(entry)
}

/// The tone value a romanization character contributes, if any.
pub open spec fn tone_digit(c: char) -> Option<u8> {
    if c == '1' {
        Some(1u8)
    } else if c == '2' {
        Some(2u8)
    } else if c == '3' {
        Some(3u8)
    } else if c == '4' {
        Some(4u8)
    } else if c == '5' {
        Some(5u8)
    } else {
        None
    }
}

/// The ordered tone numbers of a romanization string: one per tone digit in
/// {1,...,5}, in document order; every other character is discarded.
pub open spec fn tones_of(s: Seq<char>) -> Seq<u8>
    decreases s.len(),
{
    if s.len() == 0 {
        Seq::empty()
    } else {
        tones_of(s.drop_last()) + (match tone_digit(s.last()) {
            Some(t) => seq![t],
            None => Seq::empty(),
        })
    }
}

/// Extracts the ordered tone numbers of a digit-marked romanization string
/// (`spec`: [`tones_of`]).
pub fn get_tone_marks(pinyin: &str) -> (r: Vec<u8>)
    ensures
        r@ == tones_of(pinyin@),
{
    let n = pinyin.unicode_len();
    let mut tone_marks: Vec<u8> = Vec::new();
    proof {
        assert(pinyin@.subrange(0, 0) =~= Seq::<char>::empty());
        assert(tone_marks@ =~= tones_of(pinyin@.subrange(0, 0)));
    }
    let mut i: usize = 0;
    while i < n
        invariant
            n == pinyin@.len(),
            i <= n,
            tone_marks@ == tones_of(pinyin@.subrange(0, i as int)),
        decreases n - i,
    {
        let c = pinyin.get_char(i);
        proof {
            assert(pinyin@.subrange(0, i as int + 1).drop_last() =~= pinyin@.subrange(0, i as int));
            assert(pinyin@.subrange(0, i as int + 1).last() == c);
        }
        if c == '1' {
            tone_marks.push(1);
        } else if c == '2' {
            tone_marks.push(2);
        } else if c == '3' {
            tone_marks.push(3);
        } else if c == '4' {
            tone_marks.push(4);
        } else if c == '5' {
            tone_marks.push(5);
        }
        proof {
            assert(tone_marks@ =~= tones_of(pinyin@.subrange(0, i as int + 1)));
        }
        i += 1;
    }
    proof {
        assert(pinyin@.subrange(0, n as int) =~= pinyin@);
    }
    tone_marks
}

/// The completed record that one well-formed line denotes: parsed fields,
/// diacritic romanization, tone numbers, proficiency level and content hash,
/// with the identifier still unset.
pub open spec fn entry_of_line(line: Seq<char>) -> WordEntryV {
    WordEntryV {
        traditional: spec_tokens(line)[0],
        simplified: spec_tokens(line)[1],
        pinyin_marks: prettified(spec_pinyin(line)),
        pinyin_numbers: spec_pinyin(line),
        english: non_mw(spec_glosses(line)),
        tone_marks: tones_of(spec_pinyin(line)),
        hash: crate::dictionary::content_hash(parsed_entry_of(line)),
        measure_words: mws_of_glosses(spec_glosses(line)),
        hsk: crate::collab::hsk_level_of(spec_tokens(line)[1]),
        word_id: 0,
    }
}

/// Parses one non-comment line and completes it into a record: tone
/// extraction, diacritic romanization, proficiency level and content hash
/// (`spec`: [`entry_of_line`]).
pub fn make_word_entry(raw_line: &str, hsk_list: &hsk::Hsk) -> (r: Result<
    WordEntry,
    DictError,
>)
    ensures
        match r {
            Ok(e) => parse_ok(raw_line@) && e@ == entry_of_line(raw_line@),
            Err(err) => !parse_ok(raw_line@) && err == DictError::MalformedLine,
        },
{
    match process_cedict_entry(raw_line) {
        Err(err) => Err(err),
        Ok(parsed) => {
            let hash = crate::dictionary::calculate_hash(&parsed);
            let tone_marks = get_tone_marks(parsed.pinyin.as_str());
            let level = crate::collab::hsk_level(hsk_list, parsed.simplified.as_str());
            let pinyin_marks = crate::collab::prettify_marks(parsed.pinyin.as_str());
            let entry = WordEntry {
                traditional: parsed.traditional,
                simplified: parsed.simplified,
                pinyin_marks,
                pinyin_numbers: parsed.pinyin,
                english: parsed.english,
                tone_marks,
                hash,
                measure_words: parsed.measure_words,
                hsk: level,
                word_id: 0,
            };
            proof {
                assert(entry@ =~~= entry_of_line(raw_line@));
            }
            Ok(entry)
        },
    }
}

/// A comment line of the source corpus: its first character is `#`.
pub open spec fn is_comment(l: Seq<char>) -> bool {
    l.len() > 0 && l[0] == '#'
}

/// The non-comment lines, in order.
pub open spec fn content_lines(ls: Seq<Seq<char>>) -> Seq<Seq<char>> {
    ls.filter(|l: Seq<char>| !is_comment(l))
}

pub proof fn lemma_content_lines_push(ls: Seq<Seq<char>>, l: Seq<char>)
    ensures
        content_lines(ls.push(l)) == if !is_comment(l) {
            content_lines(ls).push(l)
        } else {
            content_lines(ls)
        },
        content_lines(Seq::<Seq<char>>::empty()) == Seq::<Seq<char>>::empty(),
{
    reveal(Seq::filter);
    assert(ls.push(l).drop_last() =~= ls);
}

pub proof fn lemma_content_lines_contains(ls: Seq<Seq<char>>, i: int)
    requires
        0 <= i < ls.len(),
        !is_comment(ls[i]),
    ensures
        content_lines(ls).contains(ls[i]),
    decreases ls.len(),
{
    lemma_content_lines_push(ls.drop_last(), ls.last());
    assert(ls.drop_last().push(ls.last()) =~= ls);
    if i == ls.len() - 1 {
        let parts = content_lines(ls.drop_last()).push(ls.last());
        assert(parts[parts.len() - 1] == ls[i]);
    } else {
        assert(ls.drop_last()[i] == ls[i]);
        lemma_content_lines_contains(ls.drop_last(), i);
        let sub = content_lines(ls.drop_last());
        let j = choose|j: int| 0 <= j < sub.len() && sub[j] == ls[i];
        assert(content_lines(ls)[j] == ls[i]);
    }
}

/// Every non-comment line is well formed.
pub open spec fn lines_ok(ls: Seq<Seq<char>>) -> bool {
    forall|i: int|
        0 <= i < content_lines(ls).len() ==> parse_ok(#[trigger] content_lines(ls)[i])
}

/// The records that a sequence of source lines denotes, comments skipped.
pub open spec fn entries_of_lines(ls: Seq<Seq<char>>) -> Seq<WordEntryV> {
    content_lines(ls).map_values(|l: Seq<char>| entry_of_line(l))
}

/// Parses a batch of source lines, skipping comment lines, and completes
/// each record; the whole batch is rejected on the first malformed line
/// (`spec`: [`entries_of_lines`]).
pub fn parse_cedict_lines(lines: &Vec<String>) -> (r: Result<Vec<WordEntry>, DictError>)
    ensures
        match r {
            Ok(es) => lines_ok(views_of(lines@)) && we_views(es@) == entries_of_lines(
                views_of(lines@),
            ),
            Err(err) => !lines_ok(views_of(lines@)) && err == DictError::MalformedLine,
        },
{
    let hsk_list = crate::collab::load_hsk();
    let mut entries: Vec<WordEntry> = Vec::new();
    proof {
        lemma_content_lines_push(Seq::<Seq<char>>::empty(), Seq::<char>::empty());
        assert(views_of(lines@).subrange(0, 0) =~= Seq::<Seq<char>>::empty());
        assert(we_views(entries@) =~~= entries_of_lines(views_of(lines@).subrange(0, 0)));
    }
    let mut i: usize = 0;
    while i < lines.len()
        invariant
            i <= lines@.len(),
            we_views(entries@) == entries_of_lines(views_of(lines@).subrange(0, i as int)),
            forall|x: int|
                0 <= x < content_lines(views_of(lines@).subrange(0, i as int)).len() ==> parse_ok(
                    #[trigger] content_lines(views_of(lines@).subrange(0, i as int))[x],
                ),
        decreases lines@.len() - i,
    {
        let ghost lv = lines@[i as int]@;
        proof {
            assert(views_of(lines@).subrange(0, i as int + 1) =~= views_of(lines@).subrange(
                0,
                i as int,
            ).push(lv));
            lemma_content_lines_push(views_of(lines@).subrange(0, i as int), lv);
        }
        let l = lines[i].as_str();
        let comment = l.unicode_len() > 0 && l.get_char(0) == '#';
        if !comment {
            match make_word_entry(l, &hsk_list) {
                Ok(e) => {
                    let ghost prev = entries@;
                    entries.push(e);
                    proof {
                        assert(we_views(entries@) =~~= we_views(prev).push(e@));
                        assert(we_views(entries@) =~~= entries_of_lines(
                            views_of(lines@).subrange(0, i as int + 1),
                        ));
                    }
                },
                Err(err) => {
                    proof {
                        lemma_content_lines_contains(views_of(lines@), i as int);
                        let full = views_of(lines@);
                        let j = choose|j: int|
                            0 <= j < content_lines(full).len() && content_lines(full)[j] == lv;
                        assert(!parse_ok(content_lines(full)[j]));
                    }
                    return Err(err);
                },
            }
        } else {
            proof {
                assert(we_views(entries@) =~~= entries_of_lines(
                    views_of(lines@).subrange(0, i as int + 1),
                ));
            }
        }
        i += 1;
    }
    proof {
        assert(views_of(lines@).subrange(0, lines@.len() as int) =~= views_of(lines@));
    }
    Ok(entries)
}

} // verus!
