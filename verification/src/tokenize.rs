//! Word segmentation: maps a text string to an ordered sequence of terms.
//!
//! The engine is parameterized by a named tokenizer capability so that
//! index-time and query-time segmentation are forced to be the same function:
//! a whitespace splitter, fully specified and verified here, and a
//! Chinese-language segmenter delegated to the `jieba_rs` crate.

use vstd::prelude::*;
use vstd::string::StrSliceExecFns;

verus! {

/// The views of a vector of owned terms.
pub open spec fn term_views(ts: Seq<String>) -> Seq<Seq<char>> {
    ts.map_values(|t: String| t@)
}

/// The length of the leading run of non-space characters of `s`.
pub open spec fn run_len(s: Seq<char>) -> int
    decreases s.len(),
{
    if s.len() == 0 || s[0] == ' ' {
        0
    } else {
        1 + run_len(s.skip(1))
    }
}

proof fn lemma_run_len_bounds(s: Seq<char>)
    ensures
        0 <= run_len(s) <= s.len(),
    decreases s.len(),
{
    if !(s.len() == 0 || s[0] == ' ') {
        lemma_run_len_bounds(s.skip(1));
    }
}

/// A run of `k` non-space characters ended by the end of `s` or by a space
/// is exactly the leading run.
proof fn lemma_run_len_is(s: Seq<char>, k: int)
    requires
        0 <= k <= s.len(),
        forall|j: int| 0 <= j < k ==> s[j] != ' ',
        k == s.len() || s[k] == ' ',
    ensures
        run_len(s) == k,
    decreases k,
{
    if k > 0 {
        lemma_run_len_is(s.skip(1), k - 1);
    }
}

/// Splitting on spaces: the maximal runs of non-space characters of `s`,
/// in order of appearance.
pub open spec fn ws_tokens(s: Seq<char>) -> Seq<Seq<char>>
    decreases s.len(),
    via ws_tokens_dec
{
    if s.len() == 0 {
        Seq::empty()
    } else if s[0] == ' ' {
        ws_tokens(s.skip(1))
    } else {
        seq![s.take(run_len(s))] + ws_tokens(s.skip(run_len(s)))
    }
}

#[via_fn]
proof fn ws_tokens_dec(s: Seq<char>) {
    if s.len() > 0 && s[0] != ' ' {
        lemma_run_len_bounds(s);
        lemma_run_len_bounds(s.skip(1));
    }
}

/// Splits `text` on spaces into its maximal non-space runs.
fn tokenize_ws(text: &str) -> (r: Vec<String>)
    ensures
        term_views(r@) == ws_tokens(text@),
{
    let n = text.unicode_len();
    let mut out: Vec<String> = Vec::new();
    let mut i: usize = 0;
    proof {
        assert(term_views(out@) =~= Seq::<Seq<char>>::empty());
        assert(text@.skip(0) =~= text@);
        assert(term_views(out@) + ws_tokens(text@.skip(0)) =~= ws_tokens(text@));
    }
    while i < n
        invariant
            n == text@.len(),
            i <= n,
            term_views(out@) + ws_tokens(text@.skip(i as int)) == ws_tokens(text@),
        decreases n - i,
    {
        if text.get_char(i) == ' ' {
            proof {
                assert(text@.skip(i as int).skip(1) =~= text@.skip(i + 1));
            }
            i += 1;
        } else {
            let start = i;
            i += 1;
            while i < n && text.get_char(i) != ' '
                invariant
                    n == text@.len(),
                    start < i <= n,
                    forall|j: int| start <= j < i ==> text@[j] != ' ',
                decreases n - i,
        {
                i += 1;
            }
            let tok = text.substring_char(start, i);
            let ghost prev = out@;
            out.push(tok.to_owned());
            proof {
                let rest = text@.skip(start as int);
                lemma_run_len_is(rest, i - start);
                assert(rest.take(i - start) =~= text@.subrange(start as int, i as int));
                assert(rest.skip(i - start) =~= text@.skip(i as int));
                assert(ws_tokens(rest) == seq![tok@] + ws_tokens(text@.skip(i as int)));
                assert(term_views(out@) =~= term_views(prev).push(tok@));
                assert(term_views(out@) + ws_tokens(text@.skip(i as int)) =~= term_views(prev)
                    + ws_tokens(rest));
            }
        }
    }
    proof {
        assert(text@.skip(n as int) =~= Seq::<char>::empty());
        assert(term_views(out@) =~= term_views(out@) + ws_tokens(text@.skip(n as int)));
    }
    out
}

/// What `jieba_rs` segmentation yields for a given text.
pub uninterp spec fn jieba_terms(text: Seq<char>) -> Seq<Seq<char>>;

/// Relies on `jieba_rs::Jieba::new` and `jieba_rs::Jieba::cut`: with the
/// bundled default dictionary and exact-mode segmentation (no hidden Markov
/// model), the token sequence is a pure function of the input text.
#[verifier::external_body]
fn jieba_cut(text: &str) -> (r: Vec<String>)
    ensures
        term_views(r@) == jieba_terms(text@),
{
    let jieba = jieba_rs::Jieba::new();
    jieba.cut(text, false).into_iter().map(|t| t.word.to_string()).collect()
}

/// A named segmentation capability. The same value is injected into both the
/// index builder and the query engine, which keeps the two sides consistent.
#[derive(Clone, Copy, PartialEq, Eq, Structural, Debug)]
pub enum Tokenizer {
    /// Split on spaces; a term is a maximal run of non-space characters.
    Whitespace,
    /// Chinese word segmentation through the `jieba_rs` crate.
    Jieba,
}

impl Tokenizer {
    /// The ordered terms this tokenizer yields for `text`.
    pub open spec fn spec_tokens(self, text: Seq<char>) -> Seq<Seq<char>> {
        match self {
            Tokenizer::Whitespace => ws_tokens(text),
            Tokenizer::Jieba => jieba_terms(text),
        }
    }

    /// Segments `text` into its ordered sequence of terms.
    pub fn tokenize(&self, text: &str) -> (r: Vec<String>)
        ensures
            term_views(r@) == self.spec_tokens(text@),
    {
        match self {
            Tokenizer::Whitespace => tokenize_ws(text),
            Tokenizer::Jieba => jieba_cut(text),
        }
    }
}

} // verus!
