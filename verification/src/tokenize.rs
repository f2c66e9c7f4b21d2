//! The two tokenization rules of the engine, plus line splitting.
//!
//! The substitution engine splits a text on whitespace runs and keeps each
//! token whole (`split_ws`); the vocabulary statistics use a broader rule
//! that collects every maximal run of word characters anywhere in the text
//! (`broad_words`).  The two rules are deliberately separate: their
//! divergence (for example on tokens with interior punctuation) is part of
//! the reported statistics.  Both are instances of `runs`, the sequence of
//! maximal runs of characters accepted by a predicate.

use vstd::prelude::*;

use crate::unicode::alnum;
use crate::unicode::char_is_alnum;
use crate::unicode::char_is_white;
use crate::unicode::push_char;
use crate::unicode::white;

verus! {

/// A word character: part of a core word or of a broad vocabulary token.
pub open spec fn word_char(c: char) -> bool {
    c == '_' || alnum(c)
}

/// Executable form of `word_char`.
pub fn is_word_char(c: char) -> (r: bool)
    ensures
        r == word_char(c),
{
    if c == '_' {
        true
    } else {
        char_is_alnum(c)
    }
}

/// The characters that whitespace-delimited tokens are made of.
pub open spec fn non_white() -> spec_fn(char) -> bool {
    |c: char| !white(c)
}

/// The characters that broad vocabulary tokens are made of.
pub open spec fn wordy() -> spec_fn(char) -> bool {
    |c: char| word_char(c)
}

/// The characters a line is made of.
pub open spec fn not_newline() -> spec_fn(char) -> bool {
    |c: char| c != '\n'
}

/// Length of the maximal leading run of characters accepted by `p`.
pub open spec fn run_len(p: spec_fn(char) -> bool, s: Seq<char>) -> nat
    decreases s.len(),
{
    if s.len() == 0 || !p(s[0]) {
        0
    } else {
        run_len(p, s.drop_first()) + 1
    }
}

/// The maximal runs of characters accepted by `p`, in order; characters
/// rejected by `p` separate the runs and are dropped.
pub open spec fn runs(p: spec_fn(char) -> bool, s: Seq<char>) -> Seq<Seq<char>>
    decreases s.len(),
    via runs_decreases
{
    if s.len() == 0 {
        Seq::empty()
    } else if !p(s[0]) {
        runs(p, s.drop_first())
    } else {
        seq![s.take(run_len(p, s) as int)] + runs(p, s.skip(run_len(p, s) as int))
    }
}

#[via_fn]
proof fn runs_decreases(p: spec_fn(char) -> bool, s: Seq<char>) {
    if s.len() > 0 && p(s[0]) {
        lemma_run_len_le(p, s);
        assert(run_len(p, s) >= 1);
    }
}

/// Tokens of the substitution engine: maximal runs of non-whitespace.
pub open spec fn split_ws(s: Seq<char>) -> Seq<Seq<char>> {
    runs(non_white(), s)
}

/// Tokens of the vocabulary statistics: maximal runs of word characters.
pub open spec fn broad_words(s: Seq<char>) -> Seq<Seq<char>> {
    runs(wordy(), s)
}

/// A line's trailing carriage return is dropped when the line was
/// terminated by a newline.
pub open spec fn strip_cr(l: Seq<char>) -> Seq<char> {
    if l.len() > 0 && l[l.len() - 1] == '\r' {
        l.drop_last()
    } else {
        l
    }
}

/// The lines of a text: pieces separated by newline characters, a trailing
/// carriage return removed from each terminated piece, and no final empty
/// piece when the text ends with a newline.
pub open spec fn split_lines(s: Seq<char>) -> Seq<Seq<char>>
    decreases s.len(),
{
    if s.len() == 0 {
        Seq::empty()
    } else {
        let n = run_len(not_newline(), s) as int;
        if n >= s.len() {
            seq![s]
        } else {
            seq![strip_cr(s.take(n))] + split_lines(s.skip(n + 1))
        }
    }
}

/// The characters of affixes: everything that is not a word character.
pub open spec fn not_wordy() -> spec_fn(char) -> bool {
    |c: char| !word_char(c)
}

/// Length of a token's leading run of non-word characters.
pub open spec fn pre_len(t: Seq<char>) -> nat {
    run_len(not_wordy(), t)
}

/// Length of a token's trailing run of non-word characters.
pub open spec fn suf_len(t: Seq<char>) -> nat {
    run_len(not_wordy(), t.reverse())
}

/// Whether the token holds a core word at all.
pub open spec fn has_core(t: Seq<char>) -> bool {
    exists|i: int| 0 <= i < t.len() && word_char(t[i])
}

/// The token's leading affix.
pub open spec fn prefix_of(t: Seq<char>) -> Seq<char> {
    t.take(pre_len(t) as int)
}

/// The token's core word: everything between the two affixes, interior
/// non-word characters included.
pub open spec fn core_of(t: Seq<char>) -> Seq<char> {
    t.subrange(pre_len(t) as int, t.len() - suf_len(t))
}

/// The token's trailing affix.
pub open spec fn suffix_of(t: Seq<char>) -> Seq<char> {
    t.skip(t.len() - suf_len(t))
}

/// The views of a sequence of strings.
pub open spec fn str_views(ss: Seq<String>) -> Seq<Seq<char>> {
    ss.map_values(|t: String| t@)
}

pub proof fn lemma_run_len_le(p: spec_fn(char) -> bool, s: Seq<char>)
    ensures
        run_len(p, s) <= s.len(),
    decreases s.len(),
{
    if s.len() > 0 && p(s[0]) {
        lemma_run_len_le(p, s.drop_first());
    }
}

/// The run length is the position of the first rejected character.
pub proof fn lemma_run_len_at(p: spec_fn(char) -> bool, s: Seq<char>, j: int)
    requires
        0 <= j <= s.len(),
        forall|k: int| 0 <= k < j ==> p(s[k]),
        j == s.len() || !p(s[j]),
    ensures
        run_len(p, s) == j,
    decreases s.len(),
{
    if j > 0 {
        let t = s.drop_first();
        assert forall|k: int| 0 <= k < j - 1 implies p(t[k]) by {
            assert(t[k] == s[k + 1]);
        }
        lemma_run_len_at(p, t, j - 1);
    }
}

/// Every character inside the leading run is accepted by `p`.
pub proof fn lemma_run_len_chars(p: spec_fn(char) -> bool, s: Seq<char>)
    ensures
        forall|k: int| 0 <= k < run_len(p, s) ==> p(s[k]),
    decreases s.len(),
{
    if s.len() > 0 && p(s[0]) {
        lemma_run_len_le(p, s);
        lemma_run_len_chars(p, s.drop_first());
        assert forall|k: int| 0 <= k < run_len(p, s) implies p(s[k]) by {
            if k > 0 {
                assert(0 <= k - 1 < run_len(p, s.drop_first()));
                assert(s.drop_first()[k - 1] == s[k]);
            }
        }
    }
}

/// Skipping one rejected character does not change the runs.
pub proof fn lemma_runs_skip_unmatched(p: spec_fn(char) -> bool, s: Seq<char>, i: int)
    requires
        0 <= i < s.len(),
        !p(s[i]),
    ensures
        runs(p, s.skip(i)) == runs(p, s.skip(i + 1)),
{
    assert(s.skip(i).drop_first() =~= s.skip(i + 1));
    assert(s.skip(i)[0] == s[i]);
}

/// Consuming one whole run prepends it to the runs of the rest.
pub proof fn lemma_runs_skip_run(p: spec_fn(char) -> bool, s: Seq<char>, i: int, j: int)
    requires
        0 <= i < j <= s.len(),
        forall|k: int| i <= k < j ==> p(s[k]),
        j == s.len() || !p(s[j]),
    ensures
        runs(p, s.skip(i)) == seq![s.subrange(i, j)] + runs(p, s.skip(j)),
{
    let t = s.skip(i);
    assert forall|k: int| 0 <= k < j - i implies p(t[k]) by {
        assert(t[k] == s[i + k]);
    }
    if j - i < t.len() {
        assert(t[j - i] == s[j]);
    }
    lemma_run_len_at(p, t, j - i);
    assert(t.take(j - i) =~= s.subrange(i, j));
    assert(t.skip(j - i) =~= s.skip(j));
}

/// There are never more runs than characters.
pub proof fn lemma_runs_count(p: spec_fn(char) -> bool, s: Seq<char>)
    ensures
        runs(p, s).len() <= s.len(),
    decreases s.len(),
{
    if s.len() == 0 {
    } else if !p(s[0]) {
        lemma_runs_count(p, s.drop_first());
    } else {
        lemma_run_len_le(p, s);
        lemma_runs_count(p, s.skip(run_len(p, s) as int));
    }
}

/// Every run is nonempty and made only of accepted characters.
pub proof fn lemma_runs_content(p: spec_fn(char) -> bool, s: Seq<char>, i: int)
    requires
        0 <= i < runs(p, s).len(),
    ensures
        runs(p, s)[i].len() > 0,
        forall|k: int| 0 <= k < runs(p, s)[i].len() ==> p(#[trigger] runs(p, s)[i][k]),
    decreases s.len(),
{
    if !p(s[0]) {
        lemma_runs_content(p, s.drop_first(), i);
    } else {
        let n = run_len(p, s) as int;
        lemma_run_len_le(p, s);
        lemma_run_len_chars(p, s);
        let first = s.take(n);
        if i == 0 {
            assert(runs(p, s)[0] == first);
            assert(first.len() > 0);
            assert forall|k: int| 0 <= k < first.len() implies p(#[trigger] first[k]) by {
                assert(first[k] == s[k]);
            }
        } else {
            lemma_runs_content(p, s.skip(n), i - 1);
            assert(runs(p, s)[i] == runs(p, s.skip(n))[i - 1]);
        }
    }
}

/// Total character count of a sequence of pieces.
pub open spec fn seqs_total_len(ls: Seq<Seq<char>>) -> nat
    decreases ls.len(),
{
    if ls.len() == 0 {
        0
    } else {
        seqs_total_len(ls.drop_last()) + ls.last().len()
    }
}

pub proof fn lemma_seqs_total_len_concat(a: Seq<Seq<char>>, b: Seq<Seq<char>>)
    ensures
        seqs_total_len(a + b) == seqs_total_len(a) + seqs_total_len(b),
    decreases b.len(),
{
    if b.len() == 0 {
        assert(a + b =~= a);
    } else {
        lemma_seqs_total_len_concat(a, b.drop_last());
        assert((a + b).drop_last() =~= a + b.drop_last());
        assert((a + b).last() == b.last());
    }
}

proof fn lemma_seqs_total_len_singleton(x: Seq<char>)
    ensures
        seqs_total_len(seq![x]) == x.len(),
{
    assert(seq![x].drop_last() =~= Seq::<Seq<char>>::empty());
    assert(seqs_total_len(Seq::<Seq<char>>::empty()) == 0);
    assert(seq![x].last() == x);
}

/// The lines of a text together hold no more characters than the text.
pub proof fn lemma_split_lines_total_len(s: Seq<char>)
    ensures
        seqs_total_len(split_lines(s)) <= s.len(),
    decreases s.len(),
{
    if s.len() > 0 {
        let n = run_len(not_newline(), s) as int;
        lemma_run_len_le(not_newline(), s);
        if n >= s.len() {
            lemma_seqs_total_len_singleton(s);
        } else {
            let head = strip_cr(s.take(n));
            lemma_split_lines_total_len(s.skip(n + 1));
            lemma_seqs_total_len_concat(seq![head], split_lines(s.skip(n + 1)));
            lemma_seqs_total_len_singleton(head);
            assert(s.take(n).len() == n);
            assert(head.len() <= n);
            assert(s.skip(n + 1).len() == s.len() - n - 1);
        }
    }
}

/// First position at or after `from` holding a whitespace character.
#[verifier::loop_isolation(false)]
fn scan_nonwhite(v: &Vec<char>, from: usize) -> (j: usize)
    requires
        from <= v@.len(),
    ensures
        from <= j <= v@.len(),
        forall|k: int| from <= k < j ==> !white(v@[k]),
        j == v@.len() || white(v@[j as int]),
{
    let mut j = from;
    while j < v.len()
        invariant
            from <= j <= v.len(),
            forall|k: int| from <= k < j ==> !white(v@[k]),
        decreases v.len() - j,
    {
        if char_is_white(v[j]) {
            return j;
        }
        j = j + 1;
    }
    j
}

/// First position at or after `from` holding a non-word character.
#[verifier::loop_isolation(false)]
fn scan_word(v: &Vec<char>, from: usize) -> (j: usize)
    requires
        from <= v@.len(),
    ensures
        from <= j <= v@.len(),
        forall|k: int| from <= k < j ==> word_char(v@[k]),
        j == v@.len() || !word_char(v@[j as int]),
{
    let mut j = from;
    while j < v.len()
        invariant
            from <= j <= v.len(),
            forall|k: int| from <= k < j ==> word_char(v@[k]),
        decreases v.len() - j,
    {
        if !is_word_char(v[j]) {
            return j;
        }
        j = j + 1;
    }
    j
}

/// First position at or after `from` holding a newline character.
#[verifier::loop_isolation(false)]
fn scan_line(v: &Vec<char>, from: usize) -> (j: usize)
    requires
        from <= v@.len(),
    ensures
        from <= j <= v@.len(),
        forall|k: int| from <= k < j ==> v@[k] != '\n',
        j == v@.len() || v@[j as int] == '\n',
{
    let mut j = from;
    while j < v.len()
        invariant
            from <= j <= v.len(),
            forall|k: int| from <= k < j ==> v@[k] != '\n',
        decreases v.len() - j,
    {
        if v[j] == '\n' {
            return j;
        }
        j = j + 1;
    }
    j
}

/// First position at or after `from` holding a word character.
#[verifier::loop_isolation(false)]
fn scan_nonword(v: &Vec<char>, from: usize) -> (j: usize)
    requires
        from <= v@.len(),
    ensures
        from <= j <= v@.len(),
        forall|k: int| from <= k < j ==> !word_char(v@[k]),
        j == v@.len() || word_char(v@[j as int]),
{
    let mut j = from;
    while j < v.len()
        invariant
            from <= j <= v.len(),
            forall|k: int| from <= k < j ==> !word_char(v@[k]),
        decreases v.len() - j,
    {
        if is_word_char(v[j]) {
            return j;
        }
        j = j + 1;
    }
    j
}

/// Position just after the last word character, scanning back from the
/// end; `low` must hold a word character, so the scan stops above it.
#[verifier::loop_isolation(false)]
fn scan_back_word(v: &Vec<char>, low: usize) -> (e: usize)
    requires
        low < v@.len(),
        word_char(v@[low as int]),
    ensures
        low < e <= v@.len(),
        forall|k: int| e <= k < v@.len() ==> !word_char(v@[k]),
        word_char(v@[e - 1]),
{
    let mut e = v.len();
    while e > low + 1
        invariant
            low + 1 <= e <= v.len(),
            forall|k: int| e <= k < v@.len() ==> !word_char(v@[k]),
        decreases e,
    {
        if is_word_char(v[e - 1]) {
            return e;
        }
        e = e - 1;
    }
    e
}

/// Splits a token into affixes and core word: `Some((p, e))` bounds the
/// core `t[p..e]`; `None` when the token has no word character at all.
pub fn affix_split(t: &Vec<char>) -> (r: Option<(usize, usize)>)
    ensures
        match r {
            Some(pe) => has_core(t@) && pe.0 == pre_len(t@) && pe.1 == t@.len() - suf_len(t@)
                && pe.0 < pe.1,
            None => !has_core(t@),
        },
{
    let p = scan_nonword(t, 0);
    if p == t.len() {
        proof {
            assert(!has_core(t@));
        }
        None
    } else {
        proof {
            assert(word_char(t@[p as int]));
            assert(has_core(t@));
            assert forall|k: int| 0 <= k < p implies (not_wordy())(t@[k]) by {}
            assert(!(not_wordy())(t@[p as int]));
            lemma_run_len_at(not_wordy(), t@, p as int);
        }
        let e = scan_back_word(t, p);
        proof {
            let rv = t@.reverse();
            let m = t@.len() - e;
            assert forall|k: int| 0 <= k < m implies (not_wordy())(rv[k]) by {
                assert(rv[k] == t@[t@.len() - 1 - k]);
                assert(e <= t@.len() - 1 - k < t@.len());
            }
            assert(rv[m] == t@[e - 1]);
            assert(!(not_wordy())(rv[m]));
            lemma_run_len_at(not_wordy(), rv, m);
        }
        Some((p, e))
    }
}

/// Builds the string of the characters `v[from..to]`.
#[verifier::loop_isolation(false)]
pub fn string_from_range(v: &Vec<char>, from: usize, to: usize) -> (s: String)
    requires
        from <= to <= v@.len(),
    ensures
        s@ == v@.subrange(from as int, to as int),
{
    let mut s = String::new();
    let mut i: usize = from;
    while i < to
        invariant
            from <= i <= to,
            s@ == v@.subrange(from as int, i as int),
        decreases to - i,
    {
        push_char(&mut s, v[i]);
        proof {
            assert(v@.subrange(from as int, i + 1 as int) =~= v@.subrange(
                from as int,
                i as int,
            ).push(v@[i as int]));
        }
        i = i + 1;
    }
    s
}

/// Splits on whitespace runs: the returned strings are exactly the tokens
/// of `split_ws`, in order.
#[verifier::loop_isolation(false)]
pub fn split_whitespace_tokens(v: &Vec<char>) -> (toks: Vec<String>)
    ensures
        str_views(toks@) == split_ws(v@),
        toks@.len() == split_ws(v@).len(),
        forall|i: int| 0 <= i < toks@.len() ==> (#[trigger] toks@[i])@ == split_ws(v@)[i],
{
    let mut toks: Vec<String> = Vec::new();
    let mut i: usize = 0;
    proof {
        assert(v@.skip(0) =~= v@);
        assert(str_views(toks@) =~= Seq::<Seq<char>>::empty());
    }
    while i < v.len()
        invariant
            i <= v.len(),
            str_views(toks@) + runs(non_white(), v@.skip(i as int)) == runs(non_white(), v@),
        decreases v.len() - i,
    {
        if char_is_white(v[i]) {
            proof {
                lemma_runs_skip_unmatched(non_white(), v@, i as int);
            }
            i = i + 1;
        } else {
            let start = i;
            let j = scan_nonwhite(v, i + 1);
            let tok = string_from_range(v, start, j);
            proof {
                lemma_runs_skip_run(non_white(), v@, start as int, j as int);
                assert(str_views(toks@.push(tok)) =~= str_views(toks@).push(tok@));
                assert(str_views(toks@).push(tok@) + runs(non_white(), v@.skip(j as int))
                    =~= str_views(toks@) + (seq![v@.subrange(start as int, j as int)] + runs(
                    non_white(),
                    v@.skip(j as int),
                )));
            }
            toks.push(tok);
            i = j;
        }
    }
    proof {
        assert(v@.skip(i as int) =~= Seq::<char>::empty());
    }
    toks
}

/// Collects the broad vocabulary tokens: the returned strings are exactly
/// the tokens of `broad_words`, in order.
#[verifier::loop_isolation(false)]
pub fn broad_word_tokens(v: &Vec<char>) -> (words: Vec<String>)
    ensures
        str_views(words@) == broad_words(v@),
        words@.len() == broad_words(v@).len(),
        forall|i: int| 0 <= i < words@.len() ==> (#[trigger] words@[i])@ == broad_words(v@)[i],
{
    let mut words: Vec<String> = Vec::new();
    let mut i: usize = 0;
    proof {
        assert(v@.skip(0) =~= v@);
        assert(str_views(words@) =~= Seq::<Seq<char>>::empty());
    }
    while i < v.len()
        invariant
            i <= v.len(),
            str_views(words@) + runs(wordy(), v@.skip(i as int)) == runs(wordy(), v@),
        decreases v.len() - i,
    {
        if !is_word_char(v[i]) {
            proof {
                lemma_runs_skip_unmatched(wordy(), v@, i as int);
            }
            i = i + 1;
        } else {
            let start = i;
            let j = scan_word(v, i + 1);
            let tok = string_from_range(v, start, j);
            proof {
                lemma_runs_skip_run(wordy(), v@, start as int, j as int);
                assert(str_views(words@.push(tok)) =~= str_views(words@).push(tok@));
                assert(str_views(words@).push(tok@) + runs(wordy(), v@.skip(j as int))
                    =~= str_views(words@) + (seq![v@.subrange(start as int, j as int)] + runs(
                    wordy(),
                    v@.skip(j as int),
                )));
            }
            words.push(tok);
            i = j;
        }
    }
    proof {
        assert(v@.skip(i as int) =~= Seq::<char>::empty());
    }
    words
}

proof fn lemma_split_lines_step(s: Seq<char>, i: int, j: int)
    requires
        0 <= i <= j < s.len(),
        forall|k: int| i <= k < j ==> s[k] != '\n',
        s[j] == '\n',
    ensures
        split_lines(s.skip(i)) == seq![strip_cr(s.subrange(i, j))] + split_lines(s.skip(j + 1)),
{
    let t = s.skip(i);
    assert forall|k: int| 0 <= k < j - i implies t[k] != '\n' by {
        assert(t[k] == s[i + k]);
    }
    assert(t[j - i] == s[j]);
    lemma_run_len_at(not_newline(), t, j - i);
    assert(t.take(j - i) =~= s.subrange(i, j));
    assert(t.skip(j - i + 1) =~= s.skip(j + 1));
}

proof fn lemma_split_lines_last(s: Seq<char>, i: int)
    requires
        0 <= i < s.len(),
        forall|k: int| i <= k < s.len() ==> s[k] != '\n',
    ensures
        split_lines(s.skip(i)) == seq![s.subrange(i, s.len() as int)],
{
    let t = s.skip(i);
    assert forall|k: int| 0 <= k < t.len() implies t[k] != '\n' by {
        assert(t[k] == s[i + k]);
    }
    lemma_run_len_at(not_newline(), t, t.len() as int);
    assert(t =~= s.subrange(i, s.len() as int));
}

/// Splits a text into its lines, as `split_lines` describes them.
#[verifier::loop_isolation(false)]
#[verifier::rlimit(50)]
pub fn split_content_lines(v: &Vec<char>) -> (lines: Vec<String>)
    ensures
        str_views(lines@) == split_lines(v@),
        lines@.len() == split_lines(v@).len(),
        forall|i: int| 0 <= i < lines@.len() ==> (#[trigger] lines@[i])@ == split_lines(v@)[i],
{
    let mut lines: Vec<String> = Vec::new();
    let mut i: usize = 0;
    proof {
        assert(v@.skip(0) =~= v@);
        assert(str_views(lines@) =~= Seq::<Seq<char>>::empty());
    }
    while i < v.len()
        invariant
            i <= v.len(),
            str_views(lines@) + split_lines(v@.skip(i as int)) == split_lines(v@),
        decreases v.len() - i,
    {
        let start = i;
        let j = scan_line(v, i);
        if j < v.len() {
            let end = if j > start && v[j - 1] == '\r' {
                j - 1
            } else {
                j
            };
            let line = string_from_range(v, start, end);
            proof {
                lemma_split_lines_step(v@, start as int, j as int);
                let piece = v@.subrange(start as int, j as int);
                if j > start && v@[j - 1] == '\r' {
                    assert(piece[piece.len() - 1] == v@[j - 1]);
                    assert(strip_cr(piece) =~= v@.subrange(start as int, end as int));
                } else {
                    assert(strip_cr(piece) =~= v@.subrange(start as int, end as int));
                }
                assert(str_views(lines@.push(line)) =~= str_views(lines@).push(line@));
                assert(str_views(lines@).push(line@) + split_lines(v@.skip(j + 1 as int))
                    =~= str_views(lines@) + (seq![strip_cr(piece)] + split_lines(
                    v@.skip(j + 1 as int),
                )));
            }
            lines.push(line);
            i = j + 1;
        } else {
            let line = string_from_range(v, start, j);
            proof {
                lemma_split_lines_last(v@, start as int);
                assert(str_views(lines@.push(line)) =~= str_views(lines@).push(line@));
                assert(v@.skip(j as int) =~= Seq::<char>::empty());
                assert(str_views(lines@).push(line@) + split_lines(v@.skip(j as int))
                    =~= str_views(lines@) + seq![v@.subrange(start as int, v@.len() as int)]);
            }
            lines.push(line);
            i = j;
        }
    }
    proof {
        assert(v@.skip(i as int) =~= Seq::<char>::empty());
    }
    lines
}

} // verus!
