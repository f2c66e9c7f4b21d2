//! The substitution engine: the mapping store, the canonical resolver, the
//! case transformer, the text processor, and the statistics built on them.

use vstd::prelude::*;
use vstd::string::StringExecFns;

use crate::lookup::LookupTable;
use crate::lookup::table_map;
use crate::tokenize::affix_split;
use crate::tokenize::broad_word_tokens;
use crate::tokenize::broad_words;
use crate::tokenize::core_of;
use crate::tokenize::has_core;
use crate::tokenize::lemma_runs_content;
use crate::tokenize::lemma_runs_count;
use crate::tokenize::lemma_split_lines_total_len;
use crate::tokenize::non_white;
use crate::tokenize::prefix_of;
use crate::tokenize::seqs_total_len;
use crate::tokenize::split_content_lines;
use crate::tokenize::split_lines;
use crate::tokenize::split_whitespace_tokens;
use crate::tokenize::split_ws;
use crate::tokenize::str_views;
use crate::tokenize::string_from_range;
use crate::tokenize::suffix_of;
use crate::unicode::white;
use crate::unicode::chars_of;
use crate::unicode::char_is_upper;
use crate::unicode::char_to_upper;
use crate::unicode::lower_of;
use crate::unicode::push_char;
use crate::unicode::str_to_lower;
use crate::unicode::str_to_upper;
use crate::unicode::upper;
use crate::unicode::upper_of;
use crate::unicode::upper_seq_of_char;

verus! {

/// One canonical concept with its known synonyms.
#[derive(Debug, Clone)]
pub struct MappingInfo {
    pub canonical: String,
    pub synonyms: Vec<String>,
    pub frequency_rank: u32,
    pub domain: String,
}

/// Descriptive header of a loaded dictionary; informational only.
#[derive(Debug, Clone)]
pub struct Metadata {
    pub version: String,
    pub description: String,
    pub creation_date: String,
    pub total_mappings: u32,
    pub sources: Vec<String>,
    pub total_synonyms: u32,
}

/// A parsed dictionary: header, concept table, and the synonym-to-canonical
/// lookup the engine works from.
#[derive(Debug)]
pub struct MappingsData {
    pub metadata: Metadata,
    pub mappings: Vec<(String, MappingInfo)>,
    pub reverse_lookup: LookupTable,
}

/// One substitution: the word index it happened at, the core word found,
/// and the canonical string it resolved to (before case transformation).
#[derive(Debug, Clone)]
pub struct Replacement {
    pub position: usize,
    pub original: String,
    pub canonical: String,
}

/// Counts and records for one `process_text` call.  The replacement rate
/// is the ratio `replacements_made / total_words` (zero when no words).
#[derive(Debug, Clone)]
pub struct ProcessingStats {
    pub total_words: usize,
    pub replacements_made: usize,
    pub replacements: Vec<Replacement>,
}

/// Aggregate counts for one file-level run.
#[derive(Debug, Clone)]
pub struct FileProcessingStats {
    pub input_file: String,
    pub output_file: String,
    pub total_lines: usize,
    pub total_words: usize,
    pub total_replacements: usize,
}

/// Distinct-word statistics of a text before and after processing.  The
/// reduction saturates at the `i64` range.
#[derive(Debug, Clone)]
pub struct VocabularyStats {
    pub original_vocabulary_size: usize,
    pub processed_vocabulary_size: usize,
    pub vocabulary_reduction: i64,
    pub total_words: usize,
}

/// The text-processing engine: owns the synonym-to-canonical table and its
/// case-insensitive shadow index, both read-only after construction.
#[derive(Debug)]
pub struct CVCProcessor {
    reverse_lookup: LookupTable,
    mappings: Vec<(String, MappingInfo)>,
    metadata: Metadata,
    case_insensitive_lookup: LookupTable,
}

/// Every character of `s` is uppercase.
pub open spec fn all_upper(s: Seq<char>) -> bool {
    forall|i: int| 0 <= i < s.len() ==> upper(s[i])
}

/// The case transformer: how a canonical string is cased after the
/// original core word.  All-uppercase originals uppercase the whole
/// canonical; an original with just a leading uppercase letter uppercases
/// the canonical's first character only; anything else (a core without
/// characters included) lowercases the canonical.
pub open spec fn cased(orig: Seq<char>, canon: Seq<char>) -> Seq<char> {
    if orig.len() > 0 && all_upper(orig) {
        upper_of(canon)
    } else if orig.len() > 0 && upper(orig[0]) {
        if canon.len() == 0 {
            canon
        } else {
            upper_seq_of_char(canon[0]) + canon.skip(1)
        }
    } else {
        lower_of(canon)
    }
}

/// The pairs of the case-insensitive shadow index: each key lowercased,
/// in entry order.
pub open spec fn ci_pairs(ps: Seq<(Seq<char>, Seq<char>)>) -> Seq<(Seq<char>, Seq<char>)> {
    ps.map_values(|p: (Seq<char>, Seq<char>)| (lower_of(p.0), p.1))
}

/// A replacement record carries exactly this position, core word and
/// canonical string.
pub open spec fn replacement_matches(r: Replacement, e: (int, Seq<char>, Seq<char>)) -> bool {
    r.position as int == e.0 && r.original@ == e.1 && r.canonical@ == e.2
}

/// Tokens joined by single spaces: the shape of all processed output.
pub open spec fn join_tokens(ts: Seq<Seq<char>>) -> Seq<char>
    decreases ts.len(),
{
    if ts.len() == 0 {
        Seq::empty()
    } else if ts.len() == 1 {
        ts[0]
    } else {
        join_tokens(ts.drop_last()) + seq![' '] + ts.last()
    }
}

/// Count of whitespace tokens over a sequence of lines.
pub open spec fn words_total(ls: Seq<Seq<char>>) -> nat
    decreases ls.len(),
{
    if ls.len() == 0 {
        0
    } else {
        words_total(ls.drop_last()) + split_ws(ls.last()).len()
    }
}

pub proof fn lemma_words_total_le_chars(ls: Seq<Seq<char>>)
    ensures
        words_total(ls) <= seqs_total_len(ls),
    decreases ls.len(),
{
    if ls.len() > 0 {
        lemma_words_total_le_chars(ls.drop_last());
        lemma_runs_count(non_white(), ls.last());
    }
}

pub proof fn lemma_words_total_prefix(ls: Seq<Seq<char>>, i: int)
    requires
        0 <= i <= ls.len(),
    ensures
        words_total(ls.take(i)) <= words_total(ls),
    decreases ls.len() - i,
{
    if i == ls.len() {
        assert(ls.take(i) =~= ls);
    } else {
        lemma_words_total_prefix(ls, i + 1);
        assert(ls.take(i + 1).drop_last() =~= ls.take(i));
        assert(ls.take(i + 1).last() == ls[i]);
    }
}

/// An integer clamped into the `i64` range.
pub open spec fn clamp_to_i64(d: int) -> int {
    if d > i64::MAX {
        i64::MAX as int
    } else if d < i64::MIN {
        i64::MIN as int
    } else {
        d
    }
}

/// The difference `a - b`, saturating at the `i64` range.
fn signed_diff(a: usize, b: usize) -> (d: i64)
    ensures
        d as int == clamp_to_i64(a - b),
{
    if a >= b {
        let m = a - b;
        if (m as u64) <= (i64::MAX as u64) {
            m as i64
        } else {
            i64::MAX
        }
    } else {
        let m = b - a;
        if (m as u64) <= (i64::MAX as u64) {
            -(m as i64)
        } else {
            i64::MIN
        }
    }
}

proof fn lemma_to_set_push(s: Seq<Seq<char>>, x: Seq<char>)
    ensures
        s.push(x).to_set() == s.to_set().insert(x),
{
    assert(s.push(x)[s.len() as int] == x);
    assert(s.push(x).contains(x));
    assert forall|a: Seq<char>|
        #[trigger] s.push(x).to_set().contains(a) implies s.to_set().insert(x).contains(a) by {
        let i = choose|i: int| 0 <= i < s.push(x).len() && s.push(x)[i] == a;
        if i < s.len() {
            assert(s[i] == a);
            assert(s.contains(a));
        }
    }
    assert forall|a: Seq<char>|
        s.to_set().insert(x).contains(a) implies #[trigger] s.push(x).to_set().contains(a) by {
        if a != x {
            let i = choose|i: int| 0 <= i < s.len() && s[i] == a;
            assert(s.push(x)[i] == a);
            assert(s.push(x).contains(a));
        }
    }
    assert(s.push(x).to_set() =~= s.to_set().insert(x));
}

/// Whether one of the strings has the view `w@`.
#[verifier::loop_isolation(false)]
fn contains_string(v: &Vec<String>, w: &String) -> (r: bool)
    ensures
        r == str_views(v@).contains(w@),
{
    let mut i: usize = 0;
    while i < v.len()
        invariant
            i <= v.len(),
            forall|k: int| 0 <= k < i ==> str_views(v@)[k] != w@,
        decreases v.len() - i,
    {
        if v[i] == *w {
            proof {
                assert(str_views(v@)[i as int] == w@);
            }
            return true;
        }
        i = i + 1;
    }
    false
}

/// How many distinct views the strings have.
#[verifier::loop_isolation(false)]
fn distinct_count(words: &Vec<String>) -> (n: usize)
    ensures
        n == str_views(words@).to_set().len(),
{
    let mut seen: Vec<String> = Vec::new();
    let mut i: usize = 0;
    proof {
        assert(str_views(words@.take(0)) =~= Seq::<Seq<char>>::empty());
        assert(str_views(seen@) =~= Seq::<Seq<char>>::empty());
        assert(str_views(seen@).to_set() =~= str_views(words@.take(0)).to_set());
    }
    while i < words.len()
        invariant
            i <= words.len(),
            str_views(seen@).no_duplicates(),
            str_views(seen@).to_set() == str_views(words@.take(i as int)).to_set(),
        decreases words.len() - i,
    {
        let w = &words[i];
        let dup = contains_string(&seen, w);
        proof {
            assert(str_views(words@.take(i as int + 1)) =~= str_views(
                words@.take(i as int),
            ).push(w@));
            lemma_to_set_push(str_views(words@.take(i as int)), w@);
        }
        if !dup {
            let ghost old_views = str_views(seen@);
            seen.push(w.clone());
            proof {
                assert(str_views(seen@) =~= old_views.push(w@));
                lemma_to_set_push(old_views, w@);
                assert forall|p: int, q: int|
                    0 <= p < q < str_views(seen@).len() implies str_views(seen@)[p] != str_views(
                    seen@,
                )[q] by {
                    if q == str_views(seen@).len() - 1 {
                        assert(str_views(seen@)[p] == old_views[p]);
                        assert(!old_views.contains(w@));
                    }
                }
            }
        } else {
            proof {
                assert(str_views(seen@).to_set().contains(w@));
                assert(str_views(words@.take(i as int)).to_set().insert(w@) =~= str_views(
                    words@.take(i as int),
                ).to_set());
            }
        }
        i = i + 1;
    }
    proof {
        assert(words@.take(words@.len() as int) =~= words@);
        str_views(seen@).unique_seq_to_set();
    }
    seen.len()
}

/// Whether every character of `v` is uppercase.
#[verifier::loop_isolation(false)]
fn all_chars_upper(v: &Vec<char>) -> (r: bool)
    ensures
        r == all_upper(v@),
{
    let mut i: usize = 0;
    while i < v.len()
        invariant
            i <= v.len(),
            forall|k: int| 0 <= k < i ==> upper(v@[k]),
        decreases v.len() - i,
    {
        if !char_is_upper(v[i]) {
            return false;
        }
        i = i + 1;
    }
    true
}

impl CVCProcessor {
    /// The exact synonym-to-canonical map.
    pub closed spec fn rev_map(self) -> Map<Seq<char>, Seq<char>> {
        self.reverse_lookup@
    }

    /// The case-insensitive shadow map, keyed by lowercased synonyms.
    pub closed spec fn ci_map(self) -> Map<Seq<char>, Seq<char>> {
        self.case_insensitive_lookup@
    }

    /// The canonical resolver: an exact match wins; otherwise the
    /// lowercased word is tried against the shadow index.
    pub open spec fn resolve(self, w: Seq<char>) -> Option<Seq<char>> {
        if self.rev_map().contains_key(w) {
            Some(self.rev_map()[w])
        } else if self.ci_map().contains_key(lower_of(w)) {
            Some(self.ci_map()[lower_of(w)])
        } else {
            None
        }
    }

    /// Whether the token has a core word that resolves.
    pub open spec fn token_replaced(self, t: Seq<char>) -> bool {
        has_core(t) && self.resolve(core_of(t)) is Some
    }

    /// What one token becomes: unchanged unless its core word resolves,
    /// in which case the core is replaced between the untouched affixes.
    pub open spec fn processed_token(self, t: Seq<char>, pc: bool) -> Seq<char> {
        if self.token_replaced(t) {
            let canon = self.resolve(core_of(t))->0;
            prefix_of(t) + (if pc {
                cased(core_of(t), canon)
            } else {
                canon
            }) + suffix_of(t)
        } else {
            t
        }
    }

    /// Every token processed, in order.
    pub open spec fn processed_tokens(self, ts: Seq<Seq<char>>, pc: bool) -> Seq<Seq<char>> {
        ts.map_values(|t: Seq<char>| self.processed_token(t, pc))
    }

    /// The full output of processing a text: its whitespace tokens
    /// processed one by one and joined by single spaces.
    pub open spec fn processed_text(self, s: Seq<char>, pc: bool) -> Seq<char> {
        join_tokens(self.processed_tokens(split_ws(s), pc))
    }

    /// The replacement records of a token sequence: position, core word
    /// and canonical string of every token that resolves, in order.
    pub open spec fn replacements_spec(self, ts: Seq<Seq<char>>) -> Seq<(int, Seq<char>, Seq<char>)>
        decreases ts.len(),
    {
        if ts.len() == 0 {
            Seq::empty()
        } else {
            self.replacements_spec(ts.drop_last()) + (if self.token_replaced(ts.last()) {
                seq![(ts.len() - 1, core_of(ts.last()), self.resolve(core_of(ts.last()))->0)]
            } else {
                Seq::empty()
            })
        }
    }

    /// There are never more replacements than tokens.
    pub proof fn lemma_replacements_count(self, ts: Seq<Seq<char>>)
        ensures
            self.replacements_spec(ts).len() <= ts.len(),
        decreases ts.len(),
    {
        if ts.len() > 0 {
            self.lemma_replacements_count(ts.drop_last());
        }
    }

    /// Builds the engine from a parsed dictionary; the case-insensitive
    /// index is derived from the reverse lookup in entry order, a later
    /// entry winning when two keys collide after lowercasing.
    #[verifier::loop_isolation(false)]
    pub fn new(data: MappingsData) -> (p: CVCProcessor)
        ensures
            p.rev_map() == table_map(data.reverse_lookup.pairs()),
            p.ci_map() == table_map(ci_pairs(data.reverse_lookup.pairs())),
    {
        let ghost ps = data.reverse_lookup.pairs();
        let mut ci = LookupTable::new();
        let n = data.reverse_lookup.entry_count();
        let mut i: usize = 0;
        proof {
            assert(ci_pairs(ps.take(0)) =~= Seq::<(Seq<char>, Seq<char>)>::empty());
        }
        while i < n
            invariant
                i <= n,
                ci.pairs() == ci_pairs(ps.take(i as int)),
            decreases n - i,
        {
            let kv = data.reverse_lookup.entry_at(i);
            let low = str_to_lower(kv.0.as_str());
            ci.insert(low, kv.1);
            proof {
                assert(ci_pairs(ps.take(i + 1)) =~= ci_pairs(ps.take(i as int)).push(
                    (lower_of(ps[i as int].0), ps[i as int].1),
                ));
            }
            i = i + 1;
        }
        proof {
            assert(ps.take(n as int) =~= ps);
        }
        CVCProcessor {
            reverse_lookup: data.reverse_lookup,
            mappings: data.mappings,
            metadata: data.metadata,
            case_insensitive_lookup: ci,
        }
    }

    /// Resolves one core word, exact match first, case-insensitive match
    /// second.
    pub fn get_canonical(&self, word: &String) -> (r: Option<String>)
        ensures
            match r {
                Some(c) => self.resolve(word@) == Some(c@),
                None => self.resolve(word@) is None,
            },
    {
        match self.reverse_lookup.get(word) {
            Some(c) => Some(c),
            None => {
                let low = str_to_lower(word.as_str());
                self.case_insensitive_lookup.get(&low)
            },
        }
    }

    /// Applies the case transformer to a canonical string.
    pub fn preserve_case(&self, original: &str, canonical: &str) -> (r: String)
        ensures
            r@ == cased(original@, canonical@),
    {
        let ov = chars_of(original);
        if ov.len() > 0 && all_chars_upper(&ov) {
            str_to_upper(canonical)
        } else if ov.len() > 0 && char_is_upper(ov[0]) {
            let cv = chars_of(canonical);
            if cv.len() == 0 {
                canonical.to_owned()
            } else {
                let mut s = char_to_upper(cv[0]);
                let rest = string_from_range(&cv, 1, cv.len());
                s.append(rest.as_str());
                proof {
                    assert(cv@.subrange(1, cv@.len() as int) =~= canonical@.skip(1));
                }
                s
            }
        } else {
            str_to_lower(canonical)
        }
    }

    /// Splits a whitespace token into its leading affix, core word and
    /// trailing affix; `None` when it holds no word character.
    pub fn extract_word_parts(&self, word: &str) -> (r: Option<(String, String, String)>)
        ensures
            match r {
                Some(parts) => has_core(word@) && parts.0@ == prefix_of(word@) && parts.1@
                    == core_of(word@) && parts.2@ == suffix_of(word@),
                None => !has_core(word@),
            },
    {
        let wv = chars_of(word);
        match affix_split(&wv) {
            None => None,
            Some((p, e)) => {
                let pre = string_from_range(&wv, 0, p);
                let core = string_from_range(&wv, p, e);
                let suf = string_from_range(&wv, e, wv.len());
                proof {
                    assert(wv@.subrange(0, p as int) =~= prefix_of(word@));
                    assert(wv@.subrange(e as int, wv@.len() as int) =~= suffix_of(word@));
                }
                Some((pre, core, suf))
            },
        }
    }

    /// Processes one token: the string it becomes, and the core word and
    /// canonical string when a replacement happened.
    fn process_one(&self, tok: &str, preserve: bool) -> (res: (String, Option<(String, String)>))
        ensures
            res.0@ == self.processed_token(tok@, preserve),
            match res.1 {
                Some(pair) => self.token_replaced(tok@) && pair.0@ == core_of(tok@) && Some(
                    pair.1@,
                ) == self.resolve(core_of(tok@)),
                None => !self.token_replaced(tok@),
            },
    {
        let tv = chars_of(tok);
        match affix_split(&tv) {
            None => {
                let s = string_from_range(&tv, 0, tv.len());
                proof {
                    assert(tv@.subrange(0, tv@.len() as int) =~= tv@);
                }
                (s, None)
            },
            Some((p, e)) => {
                let core = string_from_range(&tv, p, e);
                match self.get_canonical(&core) {
                    None => {
                        let s = string_from_range(&tv, 0, tv.len());
                        proof {
                            assert(tv@.subrange(0, tv@.len() as int) =~= tv@);
                        }
                        (s, None)
                    },
                    Some(canon) => {
                        let piece = if preserve {
                            self.preserve_case(core.as_str(), canon.as_str())
                        } else {
                            canon.clone()
                        };
                        let mut out = string_from_range(&tv, 0, p);
                        out.append(piece.as_str());
                        let suf = string_from_range(&tv, e, tv.len());
                        out.append(suf.as_str());
                        proof {
                            assert(tv@.subrange(0, p as int) =~= prefix_of(tv@));
                            assert(tv@.subrange(e as int, tv@.len() as int) =~= suffix_of(tv@));
                        }
                        (out, Some((core, canon)))
                    },
                }
            },
        }
    }

    /// Processes a whole text: splits it on whitespace runs, substitutes
    /// each token's core word where it resolves, joins the results with
    /// single spaces, and records every replacement with its position.
    #[verifier::loop_isolation(false)]
    pub fn process_text(&self, text: &str, preserve_case: bool) -> (r: (String, ProcessingStats))
        ensures
            r.0@ == self.processed_text(text@, preserve_case),
            r.1.total_words == split_ws(text@).len(),
            r.1.replacements_made == self.replacements_spec(split_ws(text@)).len(),
            r.1.replacements_made <= r.1.total_words,
            r.1.replacements@.len() == r.1.replacements_made,
            forall|j: int|
                0 <= j < r.1.replacements@.len() ==> replacement_matches(
                    #[trigger] r.1.replacements@[j],
                    self.replacements_spec(split_ws(text@))[j],
                ),
    {
        let chars = chars_of(text);
        let toks = split_whitespace_tokens(&chars);
        let ghost ts = split_ws(text@);
        let ghost pts = self.processed_tokens(ts, preserve_case);
        let mut out = String::new();
        let mut repls: Vec<Replacement> = Vec::new();
        let mut i: usize = 0;
        proof {
            assert(pts.take(0) =~= Seq::<Seq<char>>::empty());
            assert(ts.take(0) =~= Seq::<Seq<char>>::empty());
        }
        while i < toks.len()
            invariant
                i <= toks.len(),
                out@ == join_tokens(pts.take(i as int)),
                repls@.len() == self.replacements_spec(ts.take(i as int)).len(),
                forall|j: int|
                    0 <= j < repls@.len() ==> replacement_matches(
                        #[trigger] repls@[j],
                        self.replacements_spec(ts.take(i as int))[j],
                    ),
            decreases toks.len() - i,
        {
            let (piece, rep) = self.process_one(toks[i].as_str(), preserve_case);
            proof {
                assert(toks@[i as int]@ == ts[i as int]);
                assert(pts[i as int] == self.processed_token(ts[i as int], preserve_case));
            }
            if i > 0 {
                push_char(&mut out, ' ');
            }
            let ghost out_before = out@;
            out.append(piece.as_str());
            proof {
                assert(pts.take(i as int + 1).drop_last() =~= pts.take(i as int));
                assert(pts.take(i as int + 1).last() == pts[i as int]);
                if i == 0 {
                    assert(join_tokens(pts.take(1)) == pts.take(1)[0]);
                    assert(Seq::<char>::empty() + piece@ =~= piece@);
                } else {
                    assert(out_before =~= join_tokens(pts.take(i as int)) + seq![' ']);
                    assert(join_tokens(pts.take(i as int + 1)) == join_tokens(pts.take(i as int))
                        + seq![' '] + pts[i as int]);
                }
            }
            proof {
                assert(ts.take(i as int + 1).drop_last() =~= ts.take(i as int));
                assert(ts.take(i as int + 1).last() == ts[i as int]);
            }
            let ghost rs_old = self.replacements_spec(ts.take(i as int));
            let ghost rs_new = self.replacements_spec(ts.take(i as int + 1));
            match rep {
                Some(pair) => {
                    repls.push(
                        Replacement { position: i, original: pair.0, canonical: pair.1 },
                    );
                    proof {
                        assert(rs_new == rs_old + seq![
                            (i as int, core_of(ts[i as int]), self.resolve(
                                core_of(ts[i as int]),
                            )->0),
                        ]);
                        assert(rs_new.len() == rs_old.len() + 1);
                        assert forall|j: int| 0 <= j < repls@.len() implies replacement_matches(
                            #[trigger] repls@[j],
                            rs_new[j],
                        ) by {
                            if j < rs_old.len() {
                                assert(repls@[j] == repls@.drop_last()[j]);
                                assert(rs_new[j] == rs_old[j]);
                            } else {
                                assert(repls@[j] == repls@.last());
                                assert(rs_new[j] == rs_new.last());
                            }
                        }
                    }
                },
                None => {
                    proof {
                        assert(rs_new =~= rs_old);
                    }
                },
            }
            i = i + 1;
        }
        proof {
            assert(pts.take(toks@.len() as int) =~= pts);
            assert(ts.take(toks@.len() as int) =~= ts);
            self.lemma_replacements_count(ts);
        }
        let total_words = toks.len();
        let replacements_made = repls.len();
        (out, ProcessingStats { total_words, replacements_made, replacements: repls })
    }

    /// Count of replacements over a sequence of lines.
    pub open spec fn repls_total(self, ls: Seq<Seq<char>>) -> nat
        decreases ls.len(),
    {
        if ls.len() == 0 {
            0
        } else {
            self.repls_total(ls.drop_last()) + self.replacements_spec(
                split_ws(ls.last()),
            ).len()
        }
    }

    /// The whole output written for a file: every line processed with case
    /// preservation and terminated by a newline.
    pub open spec fn file_output(self, ls: Seq<Seq<char>>) -> Seq<char>
        decreases ls.len(),
    {
        if ls.len() == 0 {
            Seq::empty()
        } else {
            self.file_output(ls.drop_last()) + self.processed_text(ls.last(), true) + seq!['\n']
        }
    }

    /// Processes a text line by line (case preservation always on),
    /// producing the full output to write and the aggregated counts.
    #[verifier::loop_isolation(false)]
    pub fn process_file(&self, input_file: &str, output_file: &str, content: &str) -> (r: (
        String,
        FileProcessingStats,
    ))
        ensures
            r.0@ == self.file_output(split_lines(content@)),
            r.1.input_file@ == input_file@,
            r.1.output_file@ == output_file@,
            r.1.total_lines == split_lines(content@).len(),
            r.1.total_words == words_total(split_lines(content@)),
            r.1.total_replacements == self.repls_total(split_lines(content@)),
            r.1.total_replacements <= r.1.total_words,
    {
        let chars = chars_of(content);
        let n_chars = chars.len();
        let lines = split_content_lines(&chars);
        let ghost ls = split_lines(content@);
        proof {
            lemma_words_total_le_chars(ls);
            lemma_split_lines_total_len(content@);
            assert(words_total(ls) <= n_chars);
            assert(ls.take(0) =~= Seq::<Seq<char>>::empty());
        }
        let mut out = String::new();
        let mut total_words: usize = 0;
        let mut total_replacements: usize = 0;
        let mut i: usize = 0;
        while i < lines.len()
            invariant
                i <= lines.len(),
                out@ == self.file_output(ls.take(i as int)),
                total_words == words_total(ls.take(i as int)),
                total_replacements == self.repls_total(ls.take(i as int)),
                total_replacements <= total_words,
            decreases lines.len() - i,
        {
            let (pl, st) = self.process_text(lines[i].as_str(), true);
            proof {
                assert(lines@[i as int]@ == ls[i as int]);
                assert(ls.take(i as int + 1).drop_last() =~= ls.take(i as int));
                assert(ls.take(i as int + 1).last() == ls[i as int]);
                lemma_words_total_prefix(ls, i as int + 1);
            }
            out.append(pl.as_str());
            push_char(&mut out, '\n');
            proof {
                assert(out@ =~= self.file_output(ls.take(i as int)) + self.processed_text(
                    ls[i as int],
                    true,
                ) + seq!['\n']);
            }
            total_words = total_words + st.total_words;
            total_replacements = total_replacements + st.replacements_made;
            i = i + 1;
        }
        proof {
            assert(ls.take(lines@.len() as int) =~= ls);
        }
        let stats = FileProcessingStats {
            input_file: input_file.to_owned(),
            output_file: output_file.to_owned(),
            total_lines: lines.len(),
            total_words,
            total_replacements,
        };
        (out, stats)
    }

    /// Vocabulary statistics of a text: distinct broad word counts of the
    /// lowercased content before and after processing, the saturating
    /// difference between them, and the broad word total of the original.
    pub fn get_vocabulary_stats(&self, content: &str) -> (stats: VocabularyStats)
        ensures
            stats.total_words == broad_words(lower_of(content@)).len(),
            stats.original_vocabulary_size == broad_words(lower_of(content@)).to_set().len(),
            stats.processed_vocabulary_size == broad_words(
                lower_of(self.processed_text(content@, true)),
            ).to_set().len(),
            stats.vocabulary_reduction as int == clamp_to_i64(
                stats.original_vocabulary_size - stats.processed_vocabulary_size,
            ),
    {
        let lowered = str_to_lower(content);
        let lchars = chars_of(lowered.as_str());
        let owords = broad_word_tokens(&lchars);
        let osize = distinct_count(&owords);
        let (ptext, _) = self.process_text(content, true);
        let plow = str_to_lower(ptext.as_str());
        let pchars = chars_of(plow.as_str());
        let pwords = broad_word_tokens(&pchars);
        let psize = distinct_count(&pwords);
        let reduction = signed_diff(osize, psize);
        VocabularyStats {
            original_vocabulary_size: osize,
            processed_vocabulary_size: psize,
            vocabulary_reduction: reduction,
            total_words: owords.len(),
        }
    }
}

/// A token whose core word does not resolve — or that has no core word at
/// all — comes out of processing exactly as it went in, interior
/// punctuation included.
pub proof fn lemma_unmatched_token_unchanged(p: CVCProcessor, t: Seq<char>, pc: bool)
    requires
        !p.token_replaced(t),
    ensures
        p.processed_token(t, pc) == t,
{
}

proof fn lemma_no_replacements(p: CVCProcessor, ts: Seq<Seq<char>>)
    requires
        forall|i: int| 0 <= i < ts.len() ==> !p.token_replaced(#[trigger] ts[i]),
    ensures
        p.replacements_spec(ts).len() == 0,
    decreases ts.len(),
{
    if ts.len() > 0 {
        assert forall|i: int|
            0 <= i < ts.drop_last().len() implies !p.token_replaced(
            #[trigger] ts.drop_last()[i],
        ) by {
            assert(ts.drop_last()[i] == ts[i]);
        }
        lemma_no_replacements(p, ts.drop_last());
        assert(!p.token_replaced(ts.last()));
    }
}

/// Processing a text in which no token's core word resolves is the
/// identity on the token sequence, whatever the case-preservation flag:
/// no replacement is recorded, and a text that is already the single-space
/// join of its own tokens comes back verbatim.
pub proof fn lemma_no_synonyms_identity(p: CVCProcessor, s: Seq<char>, pc: bool)
    requires
        forall|i: int| 0 <= i < split_ws(s).len() ==> !p.token_replaced(#[trigger] split_ws(s)[i]),
    ensures
        p.processed_text(s, pc) == join_tokens(split_ws(s)),
        p.replacements_spec(split_ws(s)).len() == 0,
        s == join_tokens(split_ws(s)) ==> p.processed_text(s, pc) == s,
{
    assert(p.processed_tokens(split_ws(s), pc) =~= split_ws(s));
    lemma_no_replacements(p, split_ws(s));
}

/// The three case-preservation rules, stated over the case transformer:
/// an all-uppercase original uppercases the whole canonical string; an
/// original with a leading uppercase letter (but not all uppercase)
/// uppercases exactly the canonical's first character, leaving the rest
/// untouched; any other original lowercases the whole canonical string.
pub proof fn lemma_case_rules(orig: Seq<char>, canon: Seq<char>)
    ensures
        (orig.len() > 0 && all_upper(orig)) ==> cased(orig, canon) == upper_of(canon),
        (orig.len() > 0 && !all_upper(orig) && upper(orig[0]) && canon.len() > 0) ==> cased(
            orig,
            canon,
        ) == upper_seq_of_char(canon[0]) + canon.skip(1),
        (orig.len() == 0 || (!all_upper(orig) && !upper(orig[0]))) ==> cased(orig, canon)
            == lower_of(canon),
{
}

/// Every whitespace token is nonempty and free of whitespace characters:
/// the engine's word count counts exactly these tokens, however dense
/// their interior punctuation is.
pub proof fn lemma_token_shape(s: Seq<char>, i: int)
    requires
        0 <= i < split_ws(s).len(),
    ensures
        split_ws(s)[i].len() > 0,
        forall|k: int| 0 <= k < split_ws(s)[i].len() ==> !white(#[trigger] split_ws(s)[i][k]),
{
    lemma_runs_content(non_white(), s, i);
    assert forall|k: int|
        0 <= k < split_ws(s)[i].len() implies !white(#[trigger] split_ws(s)[i][k]) by {
        assert((non_white())(split_ws(s)[i][k]));
    }
}

} // verus!
