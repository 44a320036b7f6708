//! Fuzzy matching of text: ranking items by how well their text fields
//! match a query, and short excerpts that show where a query matched.
//! The scoring itself is nucleo's; grapheme segmentation is
//! unicode-segmentation's. This module decides what is scored and what is
//! made of the scores.
use nucleo_matcher::pattern::{CaseMatching, Normalization, Pattern};
use nucleo_matcher::{Matcher, Utf32Str};
use unicode_segmentation::UnicodeSegmentation;
use vstd::prelude::*;
use vstd::string::*;

use crate::endpoint::strings_view;
use crate::service::list2;
use crate::text::{
    compact_whitespace, compact_ws, eq_ignore_ascii_case, lemma_compact_len, spec_eq_ignore_ascii_case,
    spec_trim, trim,
};
use crate::value::{
    duplicate_vals, keyword, lemma_vals_view, lemma_vals_view_push, string, val_view, vals_view, Val, ValView,
};

verus! {

/// The extended grapheme clusters of a text, in order.
pub uninterp spec fn extended_graphemes(s: Seq<char>) -> Seq<Seq<char>>;

/// The score and match positions that nucleo's smart-case, smart-normalizing
/// pattern `query` gives the characters `haystack`.
pub uninterp spec fn nucleo_indices(query: Seq<char>, haystack: Seq<char>) -> (Option<u32>, Seq<u32>);

/// The fields that nucleo's smart-case, smart-normalizing pattern `query`
/// matches among `texts`, each by its position in `texts`, with its score.
pub uninterp spec fn nucleo_match_list(query: Seq<char>, texts: Seq<Seq<char>>) -> Seq<(usize, u32)>;

/// The parts, one after another.
pub open spec fn concat_all(parts: Seq<Seq<char>>) -> Seq<char>
    decreases parts.len(),
{
    if parts.len() == 0 {
        Seq::empty()
    } else {
        concat_all(parts.drop_last()) + parts.last()
    }
}

/// `UnicodeSegmentation::graphemes(s, true)`: the extended grapheme clusters
/// of `s`. Each is a non-empty slice of `s`, and together, in order, they
/// make up `s`; which boundaries are chosen (UAX #29) is not stated.
#[verifier::external_body]
fn graphemes(s: &str) -> (r: Vec<String>)
    ensures
        strings_view(r@) == extended_graphemes(s@),
        concat_all(strings_view(r@)) == s@,
        forall|i: int| 0 <= i < r.len() ==> (#[trigger] r@[i])@.len() > 0,
{
    s.graphemes(true).map(String::from).collect()
}

/// `Pattern::parse(query, CaseMatching::Smart, Normalization::Smart)`
/// followed by `Pattern::indices` on `haystack` with a default `Matcher`:
/// the score, if the pattern matches, and the positions of the matched
/// characters, per word of the pattern, neither sorted nor deduplicated.
#[verifier::external_body]
fn pattern_indices(query: &str, haystack: &Vec<char>) -> (r: (Option<u32>, Vec<u32>))
    requires
        haystack.len() <= u32::MAX,
    ensures
        (r.0, r.1@) == nucleo_indices(query@, haystack@),
{
    let mut indices = Vec::new();
    let score = Pattern::parse(query, CaseMatching::Smart, Normalization::Smart).indices(
        Utf32Str::Unicode(haystack.as_slice()),
        &mut Matcher::default(),
        &mut indices,
    );
    (score, indices)
}

/// A text handed to nucleo, with its position among the texts.
struct Field {
    pos: usize,
    text: String,
}

impl Field {
    /// The text that the field holds.
    pub closed spec fn text_view(&self) -> Seq<char> {
        self.text@
    }
}

impl AsRef<str> for Field {
    fn as_ref(&self) -> (r: &str)
        ensures
            r@ == self.text_view(),
    {
        self.text.as_str()
    }
}

/// `Pattern::parse(query, CaseMatching::Smart, Normalization::Smart)`
/// followed by `Pattern::match_list` on `texts` with a default `Matcher`:
/// the texts that the pattern matches, each by its position, with its score.
/// Order and scores are nucleo's and not stated.
#[verifier::external_body]
fn match_list(query: &str, texts: &Vec<String>) -> (r: Vec<(usize, u32)>)
    requires
        forall|i: int| 0 <= i < texts.len() ==> (#[trigger] texts@[i])@.len() <= u32::MAX,
    ensures
        r@ == nucleo_match_list(query@, strings_view(texts@)),
        forall|k: int| 0 <= k < r.len() ==> (#[trigger] r@[k]).0 < texts.len(),
{
    let fields = texts.iter().enumerate().map(|(pos, text)| Field { pos, text: text.clone() });
    Pattern::parse(query, CaseMatching::Smart, Normalization::Smart).match_list(
        fields,
        &mut Matcher::default(),
    ).into_iter().map(|(field, score)| (field.pos, score)).collect()
}

/// Whether each element is smaller than the next.
pub open spec fn strictly_increasing(s: Seq<u32>) -> bool {
    forall|a: int, b: int| 0 <= a < b < s.len() ==> s[a] < s[b]
}

/// The smallest element of a non-empty sequence.
pub open spec fn seq_min(s: Seq<u32>) -> u32
    decreases s.len(),
{
    if s.len() <= 1 {
        s[0]
    } else {
        let m = seq_min(s.drop_last());
        if s.last() < m {
            s.last()
        } else {
            m
        }
    }
}

proof fn lemma_seq_min(s: Seq<u32>)
    requires
        s.len() > 0,
    ensures
        s.contains(seq_min(s)),
        forall|k: int| 0 <= k < s.len() ==> seq_min(s) <= s[k],
    decreases s.len(),
{
    if s.len() > 1 {
        lemma_seq_min(s.drop_last());
        let m = seq_min(s.drop_last());
        let k0 = choose|k: int| 0 <= k < s.drop_last().len() && s.drop_last()[k] == m;
        assert(s[k0] == m);
        assert forall|k: int| 0 <= k < s.len() implies seq_min(s) <= s[k] by {
            if k < s.len() - 1 {
                assert(s.drop_last()[k] == s[k]);
            }
        }
        if s.last() < m {
            assert(s[s.len() - 1] == s.last());
        }
    } else {
        assert(s[0] == seq_min(s));
    }
}

/// The distinct elements of `v`, in increasing order.
fn sorted_distinct(v: &Vec<u32>) -> (r: Vec<u32>)
    ensures
        strictly_increasing(r@),
        forall|x: u32| r@.contains(x) <==> v@.contains(x),
{
    let mut out: Vec<u32> = Vec::new();
    let mut i: usize = 0;
    while i < v.len()
        invariant
            i <= v.len(),
            strictly_increasing(out@),
            forall|x: u32| out@.contains(x) <==> v@.take(i as int).contains(x),
        decreases v.len() - i,
    {
        let x = v[i];
        let mut p: usize = 0;
        while p < out.len() && out[p] < x
            invariant
                p <= out.len(),
                forall|k: int| 0 <= k < p ==> out@[k] < x,
            decreases out.len() - p,
        {
            p = p + 1;
        }
        let ghost before = out@;
        let ghost skipped = p < before.len() && before[p as int] == x;
        if p < out.len() && out[p] == x {
        } else {
            out.insert(p, x);
        }
        proof {
            if skipped {
                assert(out@ == before);
                assert(before.contains(x));
            } else {
                assert(out@ == before.insert(p as int, x));
                assert forall|a: int, b: int| 0 <= a < b < out@.len() implies out@[a] < out@[b] by {
                    if b < p {
                        assert(out@[a] == before[a] && out@[b] == before[b]);
                    } else if b == p {
                        assert(out@[a] == before[a]);
                    } else if a < p {
                        assert(out@[a] == before[a] && out@[b] == before[b - 1]);
                        assert(before[p as int] > x || before[p as int] == x);
                        assert(before[p as int] <= before[b - 1]);
                    } else if a == p {
                        assert(out@[b] == before[b - 1]);
                        assert(before[p as int] <= before[b - 1]);
                    } else {
                        assert(out@[a] == before[a - 1] && out@[b] == before[b - 1]);
                    }
                }
            }
            assert forall|y: u32| out@.contains(y) <==> (before.contains(y) || y == x) by {
                if !skipped {
                    if out@.contains(y) {
                        let k = choose|k: int| 0 <= k < out@.len() && out@[k] == y;
                        if k < p {
                            assert(before[k] == y);
                        } else if k > p {
                            assert(before[k - 1] == y);
                        }
                    }
                    if before.contains(y) {
                        let k = choose|k: int| 0 <= k < before.len() && before[k] == y;
                        if k < p {
                            assert(out@[k] == y);
                        } else {
                            assert(out@[k + 1] == y);
                        }
                    }
                    if y == x {
                        assert(out@[p as int] == y);
                    }
                }
            }
        }
        proof {
            let t = v@.take(i + 1);
            assert(t =~= v@.take(i as int).push(x));
            assert forall|y: u32| out@.contains(y) <==> t.contains(y) by {
                if t.contains(y) {
                    let k = choose|k: int| 0 <= k < t.len() && t[k] == y;
                    if k < i {
                        assert(v@.take(i as int)[k] == y);
                    }
                }
                if v@.take(i as int).contains(y) {
                    let k = choose|k: int| 0 <= k < i && v@.take(i as int)[k] == y;
                    assert(t[k] == y);
                }
                if y == x {
                    assert(t[i as int] == y);
                }
                assert(before.contains(y) <==> v@.take(i as int).contains(y));
                assert(out@.contains(y) <==> (before.contains(y) || y == x));
                assert(t.contains(y) <==> (v@.take(i as int).contains(y) || y == x));
            }
        }
        i = i + 1;
    }
    proof {
        assert(v@.take(v.len() as int) =~= v@);
    }
    out
}

/// Whether the increasing `v` holds `x` (a binary search).
fn sorted_contains(v: &Vec<u32>, x: u32) -> (r: bool)
    requires
        strictly_increasing(v@),
    ensures
        r == v@.contains(x),
{
    let mut lo: usize = 0;
    let mut hi: usize = v.len();
    while lo < hi
        invariant
            lo <= hi <= v.len(),
            strictly_increasing(v@),
            forall|k: int| 0 <= k < lo ==> v@[k] < x,
            forall|k: int| hi <= k < v.len() ==> v@[k] > x,
        decreases hi - lo,
    {
        let mid = lo + (hi - lo) / 2;
        if v[mid] == x {
            return true;
        } else if v[mid] < x {
            lo = mid + 1;
        } else {
            hi = mid;
        }
    }
    proof {
        if v@.contains(x) {
            let k = choose|k: int| 0 <= k < v@.len() && v@[k] == x;
            assert(k < lo || k >= hi);
        }
    }
    false
}

/// The end of the run of positions from `i` on, before `end`, that all are
/// matched (`b`) or all unmatched (`!b`) by the match positions `idx`.
pub open spec fn run_end(idx: Seq<u32>, i: int, end: int, b: bool) -> int
    decreases end - i,
{
    if i + 1 >= end || idx.contains((i + 1) as u32) != b {
        i + 1
    } else {
        run_end(idx, i + 1, end, b)
    }
}

/// A run is never empty and never reaches past `end`.
pub proof fn lemma_run_end(idx: Seq<u32>, i: int, end: int, b: bool)
    ensures
        i < run_end(idx, i, end, b),
        i < end ==> run_end(idx, i, end, b) <= end,
    decreases end - i,
{
    if !(i + 1 >= end || idx.contains((i + 1) as u32) != b) {
        lemma_run_end(idx, i + 1, end, b);
    }
}

/// A span of an excerpt: its text, marked as `(:match TEXT)` where matched.
pub open spec fn span_view(text: Seq<char>, matched: bool) -> ValView {
    if matched {
        ValView::List(seq![ValView::Keyword("match"@), ValView::String(text)])
    } else {
        ValView::String(text)
    }
}

/// The spans of the graphemes `gs[i..end]`: their maximal runs of matched
/// and of unmatched graphemes, in order, each as its text.
pub open spec fn excerpt_spans(gs: Seq<Seq<char>>, idx: Seq<u32>, i: int, end: int) -> Seq<
    ValView,
>
    decreases end - i,
{
    if i >= end {
        Seq::empty()
    } else {
        let b = idx.contains(i as u32);
        let j = run_end(idx, i, end, b);
        proof {
            lemma_run_end(idx, i, end, b);
        }
        seq![span_view(concat_all(gs.subrange(i, j)), b)] + excerpt_spans(gs, idx, j, end)
    }
}

/// Where an excerpt starts: a little before the first match.
pub open spec fn excerpt_start(first: u32) -> int {
    if first >= 32 {
        first - 32
    } else {
        0
    }
}

/// Where an excerpt that starts at `start` ends, among `n` graphemes.
pub open spec fn excerpt_end(start: int, n: int) -> int {
    if start + 160 < n {
        start + 160
    } else {
        n
    }
}

/// The first character of each grapheme.
pub open spec fn heads(gs: Seq<Seq<char>>) -> Seq<char> {
    gs.map_values(|g: Seq<char>| g[0])
}

/// The excerpt of `text` that shows where `query` matches it: nil where the
/// query is blank or does not match; otherwise, of the text with its
/// whitespace compacted, up to 160 graphemes starting up to 32 before the
/// first match, as spans of matched and unmatched text, with an ellipsis
/// where text was left out before or after.
pub open spec fn spec_match_excerpt(query: Seq<char>, text: Seq<char>) -> ValView {
    let gs = extended_graphemes(compact_ws(text));
    if spec_trim(query).len() == 0 {
        ValView::Nil
    } else {
        spec_excerpt(gs, nucleo_indices(query, heads(gs)))
    }
}

/// The excerpt of the graphemes `gs` for what the matcher `found` in them
/// (its score and the positions of the matched graphemes): nil without a
/// match; otherwise up to 160 graphemes starting up to 32 before the first
/// matched one, as spans of matched and unmatched text, with an ellipsis
/// where graphemes were left out before or after.
pub open spec fn spec_excerpt(gs: Seq<Seq<char>>, found: (Option<u32>, Seq<u32>)) -> ValView {
    if found.0 is None || found.1.len() == 0 {
        ValView::Nil
    } else {
        let start = excerpt_start(seq_min(found.1));
        let end = excerpt_end(start, gs.len() as int);
        ValView::List(
            (if start > 0 {
                seq![ValView::String("\u{2026}"@)]
            } else {
                Seq::empty()
            }) + excerpt_spans(gs, found.1, start, end) + (if end < gs.len() {
                seq![ValView::String("\u{2026}"@)]
            } else {
                Seq::empty()
            }),
        )
    }
}

/// Non-empty parts make up at least as many characters as there are parts.
proof fn lemma_concat_len(parts: Seq<Seq<char>>)
    requires
        forall|i: int| 0 <= i < parts.len() ==> (#[trigger] parts[i]).len() > 0,
    ensures
        concat_all(parts).len() >= parts.len(),
    decreases parts.len(),
{
    if parts.len() > 0 {
        assert forall|i: int| 0 <= i < parts.drop_last().len() implies (
        #[trigger] parts.drop_last()[i]).len() > 0 by {
            assert(parts.drop_last()[i] == parts[i]);
        }
        lemma_concat_len(parts.drop_last());
        assert(parts.last() == parts[parts.len() - 1]);
    }
}

/// The first character of each of the non-empty strings.
fn first_chars(gs: &Vec<String>) -> (r: Vec<char>)
    requires
        forall|i: int| 0 <= i < gs.len() ==> (#[trigger] gs@[i])@.len() > 0,
    ensures
        r@ == heads(strings_view(gs@)),
{
    let mut r: Vec<char> = Vec::new();
    let mut k: usize = 0;
    while k < gs.len()
        invariant
            k <= gs.len(),
            forall|i: int| 0 <= i < gs.len() ==> (#[trigger] gs@[i])@.len() > 0,
            r@ =~= heads(strings_view(gs@)).take(k as int),
        decreases gs.len() - k,
    {
        let c = gs[k].as_str().get_char(0);
        r.push(c);
        k = k + 1;
    }
    r
}

/// The strings `gs[from..to]`, one after another.
fn join_range(gs: &Vec<String>, from: usize, to: usize) -> (r: String)
    requires
        from <= to <= gs.len(),
    ensures
        r@ == concat_all(strings_view(gs@).subrange(from as int, to as int)),
{
    let ghost sv = strings_view(gs@);
    let mut out = String::new();
    let mut k = from;
    proof {
        assert(sv.subrange(from as int, from as int) =~= Seq::<Seq<char>>::empty());
    }
    while k < to
        invariant
            from <= k <= to <= gs.len(),
            sv == strings_view(gs@),
            out@ == concat_all(sv.subrange(from as int, k as int)),
        decreases to - k,
    {
        out.append(gs[k].as_str());
        proof {
            assert(sv.subrange(from as int, k + 1).drop_last() =~= sv.subrange(from as int, k as int));
            assert(sv.subrange(from as int, k + 1).last() == gs@[k as int]@);
        }
        k = k + 1;
    }
    out
}

/// The excerpt of `text` that shows where `query` matches it (see
/// [spec_match_excerpt]).
pub fn match_excerpt(query: &str, text: &str) -> (r: Val)
    requires
        text@.len() <= u32::MAX,
    ensures
        r@ == spec_match_excerpt(query@, text@),
{
    if trim(query).unicode_len() == 0 {
        return Val::Nil;
    }
    let compact = compact_whitespace(text);
    let gs = graphemes(compact.as_str());
    let ghost gsv = strings_view(gs@);
    proof {
        lemma_compact_len(text@);
        lemma_concat_len(gsv);
        assert forall|i: int| 0 <= i < gsv.len() implies (#[trigger] gsv[i]).len() > 0 by {
            assert(gsv[i] == gs@[i]@);
        }
    }
    let chars = first_chars(&gs);
    let (score, indices) = pattern_indices(query, &chars);
    excerpt(&gs, score, &indices)
}

/// The excerpt of the graphemes `gs` for what the matcher found in them:
/// its `score` and the `indices` of the matched graphemes (see
/// [spec_excerpt]).
pub fn excerpt(gs: &Vec<String>, score: Option<u32>, indices: &Vec<u32>) -> (r: Val)
    requires
        gs.len() <= u32::MAX,
    ensures
        r@ == spec_excerpt(strings_view(gs@), (score, indices@)),
{
    let ghost gsv = strings_view(gs@);
    if score.is_none() || indices.len() == 0 {
        return Val::Nil;
    }
    let sorted = sorted_distinct(&indices);
    let ghost idx = indices@;
    proof {
        lemma_seq_min(idx);
        assert(sorted@.len() > 0) by {
            assert(idx.contains(idx[0]));
            assert(sorted@.contains(idx[0]));
        }
        assert(sorted@.contains(sorted@[0]));
        let m = seq_min(idx);
        assert(sorted@.contains(m));
        let k = choose|k: int| 0 <= k < sorted@.len() && sorted@[k] == m;
        if k > 0 {
            assert(sorted@[0] < sorted@[k]);
        }
        let j = choose|j: int| 0 <= j < idx.len() && idx[j] == sorted@[0];
        assert(m <= idx[j]);
    }
    let first = sorted[0];
    let start: usize = if first >= 32 {
        (first - 32) as usize
    } else {
        0
    };
    let n = gs.len();
    let end: usize = if (start as u64) + 160 < n as u64 {
        start + 160
    } else {
        n
    };
    let mut spans: Vec<Val> = Vec::new();
    let ghost lead: Seq<ValView> = if start > 0 {
        seq![ValView::String("\u{2026}"@)]
    } else {
        Seq::empty()
    };
    if start > 0 {
        spans.push(string("\u{2026}"));
        proof {
            lemma_vals_view_push(Seq::empty(), spans@[0]);
            assert(Seq::<Val>::empty().push(spans@[0]) =~= spans@);
        }
    }
    proof {
        assert(vals_view(spans@) =~= lead);
    }
    let mut index = start;
    while index < end
        invariant
            start <= index,
            index <= end || start >= end,
            end <= n == gs.len() == gsv.len(),
            n <= u32::MAX,
            gsv == strings_view(gs@),
            strictly_increasing(sorted@),
            forall|x: u32| sorted@.contains(x) <==> idx.contains(x),
            lead + excerpt_spans(gsv, idx, start as int, end as int) == vals_view(spans@)
                + excerpt_spans(gsv, idx, index as int, end as int),
        decreases end - index,
    {
        let matched = sorted_contains(&sorted, index as u32);
        let mut next = index + 1;
        while next < end && sorted_contains(&sorted, next as u32) == matched
            invariant
                index < next <= end,
                end <= n <= u32::MAX,
                strictly_increasing(sorted@),
                forall|x: u32| sorted@.contains(x) <==> idx.contains(x),
                matched == idx.contains(index as u32),
                run_end(idx, index as int, end as int, matched) == run_end(
                    idx,
                    next - 1,
                    end as int,
                    matched,
                ),
            decreases end - next,
        {
            next = next + 1;
        }
        let text = join_range(&gs, index, next);
        let span = if matched {
            list2(keyword("match"), Val::String(text))
        } else {
            Val::String(text)
        };
        proof {
            assert(run_end(idx, next - 1, end as int, matched) == next);
            assert(span@ == span_view(concat_all(gsv.subrange(index as int, next as int)), matched));
            lemma_vals_view_push(spans@, span);
        }
        let ghost prev = spans@;
        spans.push(span);
        proof {
            assert(excerpt_spans(gsv, idx, index as int, end as int) == seq![
                span_view(concat_all(gsv.subrange(index as int, next as int)), matched),
            ] + excerpt_spans(gsv, idx, next as int, end as int));
            assert(vals_view(spans@) == vals_view(prev).push(span_view(
                concat_all(gsv.subrange(index as int, next as int)),
                matched,
            )));
            assert(vals_view(prev) + excerpt_spans(gsv, idx, index as int, end as int) =~= vals_view(
                spans@,
            ) + excerpt_spans(gsv, idx, next as int, end as int));
        }
        index = next;
    }
    proof {
        assert(excerpt_spans(gsv, idx, index as int, end as int) == Seq::<ValView>::empty());
        assert(vals_view(spans@) + Seq::<ValView>::empty() =~= vals_view(spans@));
    }
    if end < n {
        let ghost prev = spans@;
        let e = string("\u{2026}");
        proof {
            lemma_vals_view_push(spans@, e);
        }
        spans.push(e);
    }
    Val::List(spans)
}

/// Why items could not be ranked.
#[derive(Debug, Clone, Copy, PartialEq, Eq, Structural)]
pub enum FuzzyError {
    /// A key, or an element of a key's list, is not text; or the ranking
    /// was not given a query, items and keys.
    NotText,
    /// `fuzzy_match` takes a query, a list of items and a key function.
    FuzzyMatchArguments,
    /// `match_excerpt` takes a query and a text.
    ExcerptArguments,
}

impl FuzzyError {
    /// The error's message.
    pub fn message(&self) -> (r: &'static str)
        ensures
            match self {
                FuzzyError::NotText => r@ == "invalid fuzzy matching keys"@,
                FuzzyError::FuzzyMatchArguments => r@
                    == "fuzzy_match expects text, items, and a key function"@,
                FuzzyError::ExcerptArguments => r@ == "match_excerpt expects query and text"@,
            },
    {
        match self {
            FuzzyError::NotText => "invalid fuzzy matching keys",
            FuzzyError::FuzzyMatchArguments => "fuzzy_match expects text, items, and a key function",
            FuzzyError::ExcerptArguments => "match_excerpt expects query and text",
        }
    }
}

/// The query, items and key function of `(fuzzy_match QUERY ITEMS KEY)`.
pub fn fuzzy_match_args(args: &Vec<Val>) -> (r: Result<(String, Vec<Val>, Val), FuzzyError>)
    ensures
        match vals_view(args@) {
            s => if s.len() == 3 && s[0] is String && s[1] is List {
                r matches Ok((q, items, key)) && ValView::String(q@) == s[0] && ValView::List(
                    vals_view(items@),
                ) == s[1] && key@ == s[2]
            } else {
                r == Err::<(String, Vec<Val>, Val), FuzzyError>(FuzzyError::FuzzyMatchArguments)
            },
        },
{
    proof {
        lemma_vals_view(args@);
    }
    if args.len() == 3 {
        match (&args[0], &args[1]) {
            (Val::String(q), Val::List(items)) => Ok(
                (q.clone(), duplicate_vals(items), args[2].duplicate()),
            ),
            _ => Err(FuzzyError::FuzzyMatchArguments),
        }
    } else {
        Err(FuzzyError::FuzzyMatchArguments)
    }
}

/// The query, items and evaluated keys that the ranking is handed.
pub fn sort_matches_args(args: &Vec<Val>) -> (r: Result<(String, Vec<Val>, Vec<Val>), FuzzyError>)
    ensures
        match vals_view(args@) {
            s => if s.len() == 3 && s[0] is String && s[1] is List && s[2] is List {
                r matches Ok((q, items, keys)) && ValView::String(q@) == s[0] && ValView::List(
                    vals_view(items@),
                ) == s[1] && ValView::List(vals_view(keys@)) == s[2]
            } else {
                r == Err::<(String, Vec<Val>, Vec<Val>), FuzzyError>(FuzzyError::NotText)
            },
        },
{
    proof {
        lemma_vals_view(args@);
    }
    if args.len() == 3 {
        match (&args[0], &args[1], &args[2]) {
            (Val::String(q), Val::List(items), Val::List(keys)) => Ok(
                (q.clone(), duplicate_vals(items), duplicate_vals(keys)),
            ),
            _ => Err(FuzzyError::NotText),
        }
    } else {
        Err(FuzzyError::NotText)
    }
}

/// The query and text of `(match_excerpt QUERY TEXT)`.
pub fn match_excerpt_args(args: &Vec<Val>) -> (r: Result<(String, String), FuzzyError>)
    ensures
        match vals_view(args@) {
            s => if s.len() == 2 && s[0] is String && s[1] is String {
                r matches Ok((q, t)) && ValView::String(q@) == s[0] && ValView::String(t@) == s[1]
            } else {
                r == Err::<(String, String), FuzzyError>(FuzzyError::ExcerptArguments)
            },
        },
{
    proof {
        lemma_vals_view(args@);
    }
    if args.len() == 2 {
        match (&args[0], &args[1]) {
            (Val::String(q), Val::String(t)) => Ok((q.clone(), t.clone())),
            _ => Err(FuzzyError::ExcerptArguments),
        }
    } else {
        Err(FuzzyError::ExcerptArguments)
    }
}

/// A rank: whether the field equals the query, then nucleo's score.
pub open spec fn rank_lt(a: (bool, u32), b: (bool, u32)) -> bool {
    (!a.0 && b.0) || (a.0 == b.0 && a.1 < b.1)
}

/// The greater of two ranks.
pub open spec fn rank_max(a: (bool, u32), b: (bool, u32)) -> (bool, u32) {
    if rank_lt(a, b) {
        b
    } else {
        a
    }
}

/// The text of a text value.
pub open spec fn text_of(v: ValView) -> Seq<char> {
    match v {
        ValView::String(t) => t,
        _ => Seq::empty(),
    }
}

/// The texts that a key gives: those of a list of texts, or a single text;
/// none where anything else stands.
pub open spec fn key_texts(k: ValView) -> Option<Seq<Seq<char>>> {
    match k {
        ValView::List(vs) => if forall|i: int| 0 <= i < vs.len() ==> (#[trigger] vs[i]) is String {
            Some(vs.map_values(|v: ValView| text_of(v)))
        } else {
            None
        },
        ValView::String(t) => Some(seq![t]),
        _ => None,
    }
}

/// The fields that the keys give, each with the position of its key; none
/// where a key gives no texts.
pub open spec fn key_fields(keys: Seq<ValView>) -> Option<Seq<(usize, Seq<char>)>>
    decreases keys.len(),
{
    if keys.len() == 0 {
        Some(Seq::empty())
    } else {
        match (key_fields(keys.drop_last()), key_texts(keys.last())) {
            (Some(fields), Some(texts)) => Some(
                fields + texts.map_values(|t: Seq<char>| ((keys.len() - 1) as usize, t)),
            ),
            _ => None,
        }
    }
}

/// The best rank of each of `n` items over the matched fields `matches`
/// (positions into `fields`, with scores); a field ranks as exact where it
/// equals the trimmed query `qt`, up to ASCII case.
pub open spec fn best_ranks(
    n: nat,
    fields: Seq<(usize, Seq<char>)>,
    matches: Seq<(usize, u32)>,
    qt: Seq<char>,
) -> Seq<Option<(bool, u32)>>
    decreases matches.len(),
{
    if matches.len() == 0 {
        Seq::new(n, |i: int| None)
    } else {
        let prev = best_ranks(n, fields, matches.drop_last(), qt);
        let m = matches.last();
        let field = fields[m.0 as int];
        let rank = (qt.len() > 0 && spec_eq_ignore_ascii_case(field.1, qt), m.1);
        prev.update(
            field.0 as int,
            Some(
                match prev[field.0 as int] {
                    None => rank,
                    Some(old) => rank_max(old, rank),
                },
            ),
        )
    }
}

/// The ranks that `query` gives `n` items with the fields `fields`.
pub open spec fn query_ranks(query: Seq<char>, n: nat, fields: Seq<(usize, Seq<char>)>) -> Seq<
    Option<(bool, u32)>,
> {
    best_ranks(
        n,
        fields,
        nucleo_match_list(query, fields.map_values(|f: (usize, Seq<char>)| f.1)),
        spec_trim(query),
    )
}

/// Whether item `i` comes before item `j`: it ranks higher, or ranks the
/// same and came first.
pub open spec fn ranked_before(ranks: Seq<Option<(bool, u32)>>, i: usize, j: usize) -> bool {
    let a = ranks[i as int]->Some_0;
    let b = ranks[j as int]->Some_0;
    rank_lt(b, a) || (a == b && i < j)
}

/// Whether `order` lists exactly the ranked items, best first, ties in
/// the order they were given.
pub open spec fn is_ranking(order: Seq<usize>, ranks: Seq<Option<(bool, u32)>>) -> bool {
    &&& forall|k: int| 0 <= k < order.len() ==> (#[trigger] order[k]) < ranks.len() && ranks[order[k] as int] is Some
    &&& forall|i: int| 0 <= i < ranks.len() && (#[trigger] ranks[i]) is Some ==> order.contains(i as usize)
    &&& forall|a: int, b: int| 0 <= a < b < order.len() ==> ranked_before(ranks, #[trigger] order[a], #[trigger] order[b])
}

/// Whether every text among the keys fits nucleo's length limit.
pub open spec fn key_texts_fit(keys: Seq<ValView>) -> bool {
    forall|i: int| 0 <= i < keys.len() ==> match #[trigger] keys[i] {
        ValView::String(t) => t.len() <= u32::MAX,
        ValView::List(vs) => forall|j: int| 0 <= j < vs.len() ==> (#[trigger] text_of(vs[j])).len() <= u32::MAX,
        _ => true,
    }
}

proof fn lemma_key_fields_none(kv: Seq<ValView>, m: int)
    requires
        0 <= m <= kv.len(),
        key_fields(kv.take(m)) is None,
    ensures
        key_fields(kv) is None,
    decreases kv.len() - m,
{
    if m < kv.len() {
        assert(kv.take(m + 1).drop_last() =~= kv.take(m));
        lemma_key_fields_none(kv, m + 1);
    } else {
        assert(kv.take(m) =~= kv);
    }
}

/// The fields of the keys, as the positions of their keys and their texts.
fn collect_fields(keys: &Vec<Val>) -> (r: Result<(Vec<usize>, Vec<String>), FuzzyError>)
    requires
        key_texts_fit(vals_view(keys@)),
    ensures
        r matches Ok((idx, texts)) ==> (forall|k: int| 0 <= k < idx.len() ==> #[trigger] idx@[k]
            < keys.len()) && (forall|k: int| 0 <= k < texts.len() ==> (#[trigger] texts@[k])@.len()
            <= u32::MAX),
        match key_fields(vals_view(keys@)) {
            None => r is Err,
            Some(fields) => r matches Ok((idx, texts)) && idx.len() == texts.len() && fields
                =~= Seq::new(idx.len() as nat, |k: int| (idx@[k], texts@[k]@)),
        },
{
    let ghost kv = vals_view(keys@);
    proof {
        lemma_vals_view(keys@);
        assert(kv.take(0) =~= Seq::<ValView>::empty());
    }
    let mut idx: Vec<usize> = Vec::new();
    let mut texts: Vec<String> = Vec::new();
    let mut i: usize = 0;
    while i < keys.len()
        invariant
            i <= keys.len(),
            kv == vals_view(keys@),
            kv.len() == keys.len(),
            forall|j: int| 0 <= j < keys.len() ==> #[trigger] kv[j] == val_view(keys@[j]),
            idx.len() == texts.len(),
            key_texts_fit(kv),
            forall|k: int| 0 <= k < idx.len() ==> #[trigger] idx@[k] < i,
            forall|k: int| 0 <= k < texts.len() ==> (#[trigger] texts@[k])@.len() <= u32::MAX,
            key_fields(kv.take(i as int)) == Some(
                Seq::new(idx.len() as nat, |k: int| (idx@[k], texts@[k]@)),
            ),
        decreases keys.len() - i,
    {
        let ghost before = Seq::new(idx.len() as nat, |k: int| (idx@[k], texts@[k]@));
        let ghost n0 = idx.len();
        proof {
            assert(kv.take(i + 1).drop_last() =~= kv.take(i as int));
            assert(kv.take(i + 1).last() == kv[i as int]);
        }
        match &keys[i] {
            Val::String(t) => {
                proof {
                    assert(kv[i as int] == ValView::String(t@));
                }
                idx.push(i);
                texts.push(t.clone());
                proof {
                    assert(Seq::new(idx.len() as nat, |k: int| (idx@[k], texts@[k]@)) =~= before
                        + seq![t@].map_values(|t: Seq<char>| (i, t)));
                }
            },
            Val::List(vs) => {
                let ghost vv = vals_view(vs@);
                proof {
                    lemma_vals_view(vs@);
                }
                let mut j: usize = 0;
                while j < vs.len()
                    invariant
                        j <= vs.len(),
                        vv == vals_view(vs@),
                        vv.len() == vs.len(),
                        forall|k: int| 0 <= k < vs.len() ==> #[trigger] vv[k] == val_view(vs@[k]),
                        i < keys.len(),
                        kv == vals_view(keys@),
                        kv.len() == keys.len(),
                        kv[i as int] == ValView::List(vv),
                        kv.take(i + 1).drop_last() == kv.take(i as int),
                        kv.take(i + 1).last() == kv[i as int],
                        idx.len() == texts.len(),
                        key_texts_fit(kv),
                        forall|k: int| 0 <= k < idx.len() ==> #[trigger] idx@[k] <= i,
                        forall|k: int| 0 <= k < texts.len() ==> (#[trigger] texts@[k])@.len() <= u32::MAX,
                        n0 <= idx.len(),
                        n0 == before.len(),
                        forall|k: int| 0 <= k < j ==> (#[trigger] vv[k]) is String,
                        Seq::new(idx.len() as nat, |k: int| (idx@[k], texts@[k]@)) =~= before
                            + vv.take(j as int).map_values(|v: ValView| (i, text_of(v))),
                    decreases vs.len() - j,
                {
                    match &vs[j] {
                        Val::String(t) => {
                            let ghost cur = Seq::new(idx.len() as nat, |k: int| (idx@[k], texts@[k]@));
                            proof {
                                assert(vv[j as int] == ValView::String(t@));
                                assert(text_of(vv[j as int]).len() <= u32::MAX);
                            }
                            idx.push(i);
                            texts.push(t.clone());
                            proof {
                                assert(vv[j as int] == ValView::String(t@));
                                assert(Seq::new(idx.len() as nat, |k: int| (idx@[k], texts@[k]@))
                                    =~= cur.push((i, t@)));
                                assert(vv.take(j + 1) =~= vv.take(j as int).push(vv[j as int]));
                                assert(vv.take(j + 1).map_values(|v: ValView| (i, text_of(v)))
                                    =~= vv.take(j as int).map_values(|v: ValView| (i, text_of(v))).push(
                                    (i, t@),
                                ));
                                assert(Seq::new(idx.len() as nat, |k: int| (idx@[k], texts@[k]@))
                                    =~= before + vv.take(j + 1).map_values(
                                    |v: ValView| (i, text_of(v)),
                                ));
                            }
                        },
                        _ => {
                            proof {
                                assert(!(vv[j as int] is String));
                                assert(key_texts(kv[i as int]) is None);
                                lemma_key_fields_none(kv, i + 1);
                            }
                            return Err(FuzzyError::NotText);
                        },
                    }
                    j = j + 1;
                }
                proof {
                    assert(vv.take(vs.len() as int) =~= vv);
                    let texts_k = vv.map_values(|v: ValView| text_of(v));
                    assert(key_texts(kv[i as int]) == Some(texts_k));
                    assert(texts_k.map_values(|t: Seq<char>| (i, t)) =~= vv.map_values(
                        |v: ValView| (i, text_of(v)),
                    ));
                }
            },
            _ => {
                proof {
                    lemma_key_fields_none(kv, i + 1);
                }
                return Err(FuzzyError::NotText);
            },
        }
        i = i + 1;
    }
    proof {
        assert(kv.take(keys.len() as int) =~= kv);
    }
    Ok((idx, texts))
}

fn rank_less(a: (bool, u32), b: (bool, u32)) -> (r: bool)
    ensures
        r == rank_lt(a, b),
{
    (!a.0 && b.0) || (a.0 == b.0 && a.1 < b.1)
}

/// The best rank of each of `n` items over the matched fields.
fn compute_ranks(
    n: usize,
    idx: &Vec<usize>,
    texts: &Vec<String>,
    matches: &Vec<(usize, u32)>,
    qt: &str,
) -> (r: Vec<Option<(bool, u32)>>)
    requires
        idx.len() == texts.len(),
        forall|k: int| 0 <= k < idx.len() ==> #[trigger] idx@[k] < n,
        forall|m: int| 0 <= m < matches.len() ==> (#[trigger] matches@[m]).0 < texts.len(),
    ensures
        r.len() == n,
        r@ == best_ranks(
            n as nat,
            Seq::new(idx.len() as nat, |k: int| (idx@[k], texts@[k]@)),
            matches@,
            qt@,
        ),
{
    let ghost fields = Seq::new(idx.len() as nat, |k: int| (idx@[k], texts@[k]@));
    let mut r: Vec<Option<(bool, u32)>> = Vec::new();
    let mut i: usize = 0;
    while i < n
        invariant
            i <= n,
            r@ =~= Seq::new(i as nat, |j: int| None::<(bool, u32)>),
        decreases n - i,
    {
        r.push(None);
        i = i + 1;
    }
    let exact_possible = qt.unicode_len() > 0;
    let mut k: usize = 0;
    proof {
        assert(matches@.take(0) =~= Seq::<(usize, u32)>::empty());
    }
    while k < matches.len()
        invariant
            k <= matches.len(),
            idx.len() == texts.len(),
            fields == Seq::new(idx.len() as nat, |k: int| (idx@[k], texts@[k]@)),
            forall|j: int| 0 <= j < idx.len() ==> #[trigger] idx@[j] < n,
            forall|m: int| 0 <= m < matches.len() ==> (#[trigger] matches@[m]).0 < texts.len(),
            exact_possible == (qt@.len() > 0),
            r.len() == n,
            r@ == best_ranks(n as nat, fields, matches@.take(k as int), qt@),
        decreases matches.len() - k,
    {
        let m = matches[k];
        let pos = m.0;
        let item = idx[pos];
        let exact = exact_possible && eq_ignore_ascii_case(texts[pos].as_str(), qt);
        let rank = (exact, m.1);
        let best = match r[item] {
            None => rank,
            Some(old) => if rank_less(old, rank) {
                rank
            } else {
                old
            },
        };
        proof {
            let t = matches@.take(k + 1);
            assert(t.drop_last() =~= matches@.take(k as int));
            assert(t.last() == m);
            assert(fields[pos as int] == (item, texts@[pos as int]@));
        }
        r.set(item, Some(best));
        k = k + 1;
    }
    proof {
        assert(matches@.take(matches.len() as int) =~= matches@);
    }
    r
}

/// The ranked items, best first, ties in the order they were given.
#[verifier::rlimit(40)]
fn rank_order(ranks: &Vec<Option<(bool, u32)>>) -> (order: Vec<usize>)
    ensures
        is_ranking(order@, ranks@),
{
    let n = ranks.len();
    let mut order: Vec<usize> = Vec::new();
    let mut i: usize = 0;
    while i < n
        invariant
            i <= n == ranks.len(),
            forall|k: int| 0 <= k < order.len() ==> (#[trigger] order@[k]) < i && ranks@[order@[k] as int] is Some,
            forall|j: int| 0 <= j < i && (#[trigger] ranks@[j]) is Some ==> order@.contains(j as usize),
            forall|a: int, b: int| 0 <= a < b < order.len() ==> ranked_before(ranks@, #[trigger] order@[a], #[trigger] order@[b]),
        decreases n - i,
    {
        if let Some(rk) = ranks[i] {
            let mut p: usize = 0;
            while p < order.len() && !rank_less(ranks[order[p]].unwrap(), rk)
                invariant
                    p <= order.len(),
                    i < n == ranks.len(),
                    forall|k: int| 0 <= k < order.len() ==> (#[trigger] order@[k]) < i && ranks@[order@[k] as int] is Some,
                    forall|k: int| 0 <= k < p ==> !rank_lt(ranks@[(#[trigger] order@[k]) as int]->Some_0, rk),
                decreases order.len() - p,
            {
                p = p + 1;
            }
            let ghost old_order = order@;
            order.insert(p, i);
            proof {
                assert(order@ == old_order.insert(p as int, i));
                assert forall|k: int| 0 <= k < order.len() implies (#[trigger] order@[k]) < i + 1 && ranks@[order@[k] as int] is Some by {
                    if k < p {
                        assert(order@[k] == old_order[k]);
                    } else if k > p {
                        assert(order@[k] == old_order[k - 1]);
                    }
                }
                assert forall|j: int| 0 <= j < i + 1 && (#[trigger] ranks@[j]) is Some implies order@.contains(j as usize) by {
                    if j < i {
                        assert(old_order.contains(j as usize));
                        let k = choose|k: int| 0 <= k < old_order.len() && old_order[k] == j as usize;
                        if k < p {
                            assert(order@[k] == j as usize);
                        } else {
                            assert(order@[k + 1] == j as usize);
                        }
                    } else {
                        assert(order@[p as int] == i);
                    }
                }
                assert forall|a: int, b: int| 0 <= a < b < order.len() implies ranked_before(ranks@, #[trigger] order@[a], #[trigger] order@[b]) by {
                    if b < p {
                        assert(order@[a] == old_order[a] && order@[b] == old_order[b]);
                    } else if b == p {
                        assert(order@[a] == old_order[a]);
                        assert(!rank_lt(ranks@[old_order[a] as int]->Some_0, rk));
                    } else if a < p {
                        assert(order@[a] == old_order[a] && order@[b] == old_order[b - 1]);
                    } else if a == p {
                        assert(order@[b] == old_order[b - 1]);
                        assert(rank_lt(ranks@[old_order[p as int] as int]->Some_0, rk));
                        if b - 1 > p {
                            assert(ranked_before(ranks@, old_order[p as int], old_order[b - 1]));
                        }
                    } else {
                        assert(order@[a] == old_order[a - 1] && order@[b] == old_order[b - 1]);
                    }
                }
            }
        }
        i = i + 1;
    }
    order
}

/// Ranks `items` by how well the texts of their `keys` match `query`: the
/// items with a matching field, best first, ties in the order they were given.
/// A field that equals the trimmed query, up to ASCII case, ranks above
/// every field that does not; among those alike, nucleo's score decides.
/// Each key is a text or a list of texts; anything else is an error.
pub fn sort_matches(query: &str, items: &Vec<Val>, keys: &Vec<Val>) -> (r: Result<
    Vec<Val>,
    FuzzyError,
>)
    requires
        keys.len() <= items.len(),
        key_texts_fit(vals_view(keys@)),
    ensures
        match key_fields(vals_view(keys@)) {
            None => r == Err::<Vec<Val>, FuzzyError>(FuzzyError::NotText),
            Some(fields) => r is Ok && exists|order: Seq<usize>|
                #[trigger] is_ranking(order, query_ranks(query@, items.len() as nat, fields))
                    && vals_view(r->Ok_0@) == order.map_values(
                    |i: usize| val_view(items@[i as int]),
                ),
        },
{
    let (idx, texts) = match collect_fields(keys) {
        Ok(f) => f,
        Err(_) => {
            return Err(FuzzyError::NotText);
        },
    };
    let ghost fields = Seq::new(idx.len() as nat, |k: int| (idx@[k], texts@[k]@));
    let matches = match_list(query, &texts);
    proof {
        assert(fields.map_values(|f: (usize, Seq<char>)| f.1) =~= strings_view(texts@));
    }
    let qt = trim(query);
    let ranks = compute_ranks(items.len(), &idx, &texts, &matches, qt);
    let order = rank_order(&ranks);
    let mut out: Vec<Val> = Vec::new();
    let mut k: usize = 0;
    proof {
        lemma_vals_view(items@);
    }
    while k < order.len()
        invariant
            k <= order.len(),
            is_ranking(order@, ranks@),
            ranks.len() == items.len(),
            vals_view(out@) =~= order@.take(k as int).map_values(
                |i: usize| val_view(items@[i as int]),
            ),
        decreases order.len() - k,
    {
        let v = items[order[k]].duplicate();
        proof {
            lemma_vals_view_push(out@, v);
            assert(order@.take(k + 1) =~= order@.take(k as int).push(order@[k as int]));
        }
        out.push(v);
        k = k + 1;
    }
    proof {
        assert(order@.take(order.len() as int) =~= order@);
        assert(ranks@ == query_ranks(query@, items.len() as nat, fields));
    }
    Ok(out)
}

/// A ranking lists the item that comes first among all ranked items first.
proof fn lemma_ranking_head(o: Seq<usize>, ranks: Seq<Option<(bool, u32)>>, i: int)
    requires
        is_ranking(o, ranks),
        o.len() > 0,
        0 <= i < ranks.len(),
        ranks.len() <= usize::MAX,
        ranks[i] is Some,
        i != o[0] as int,
    ensures
        ranked_before(ranks, o[0], i as usize),
{
    assert(o.contains(i as usize));
    let k = choose|k: int| 0 <= k < o.len() && o[k] == i as usize;
    assert(k != 0);
    assert(ranked_before(ranks, o[0], o[k]));
}

/// The ranks of `ranks` without item `i`.
pub open spec fn without_item(ranks: Seq<Option<(bool, u32)>>, i: usize) -> Seq<Option<(bool, u32)>> {
    ranks.update(i as int, None)
}

/// Law: given the ranks, there is only one ranking. So `sort_matches`
/// returns the matching items in one determined order: best first, ties in
/// the order they were given.
pub proof fn law_ranking_unique(o1: Seq<usize>, o2: Seq<usize>, ranks: Seq<Option<(bool, u32)>>)
    requires
        ranks.len() <= usize::MAX,
        is_ranking(o1, ranks),
        is_ranking(o2, ranks),
    ensures
        o1 == o2,
    decreases o1.len(),
{
    if o1.len() == 0 {
        if o2.len() > 0 {
            assert(ranks[o2[0] as int] is Some);
            assert(o1.contains(o2[0]));
        }
        assert(o1 =~= o2);
    } else {
        assert(ranks[o1[0] as int] is Some);
        assert(o2.contains(o1[0]));
        let h = o1[0];
        if o2[0] != h {
            lemma_ranking_head(o1, ranks, o2[0] as int);
            lemma_ranking_head(o2, ranks, h as int);
            assert(false);
        }
        let r2 = without_item(ranks, h);
        lemma_ranking_tail(o1, ranks);
        lemma_ranking_tail(o2, ranks);
        law_ranking_unique(o1.drop_first(), o2.drop_first(), r2);
        assert(o1 =~= seq![h] + o1.drop_first());
        assert(o2 =~= seq![h] + o2.drop_first());
    }
}

/// The rest of a ranking ranks the rest of the items.
proof fn lemma_ranking_tail(o: Seq<usize>, ranks: Seq<Option<(bool, u32)>>)
    requires
        ranks.len() <= usize::MAX,
        is_ranking(o, ranks),
        o.len() > 0,
    ensures
        is_ranking(o.drop_first(), without_item(ranks, o[0])),
{
    let h = o[0];
    let t = o.drop_first();
    let r2 = without_item(ranks, h);
    assert forall|k: int| 0 <= k < t.len() implies (#[trigger] t[k]) < r2.len() && r2[t[k] as int] is Some by {
        assert(t[k] == o[k + 1]);
        assert(ranked_before(ranks, o[0], o[k + 1]));
    }
    assert forall|i: int| 0 <= i < r2.len() && (#[trigger] r2[i]) is Some implies t.contains(i as usize) by {
        assert(ranks[i] is Some);
        assert(o.contains(i as usize));
        let k = choose|k: int| 0 <= k < o.len() && o[k] == i as usize;
        assert(k != 0);
        assert(t[k - 1] == i as usize);
    }
    assert forall|a: int, b: int| 0 <= a < b < t.len() implies ranked_before(r2, #[trigger] t[a], #[trigger] t[b]) by {
        assert(t[a] == o[a + 1] && t[b] == o[b + 1]);
        assert(ranked_before(ranks, o[a + 1], o[b + 1]));
        assert(ranked_before(ranks, o[0], o[a + 1]));
        assert(ranked_before(ranks, o[0], o[b + 1]));
    }
}

/// Law: in a ranking, an item with a field equal to the query comes before
/// every item without one ("exact fields first").
pub proof fn law_exact_first(o: Seq<usize>, ranks: Seq<Option<(bool, u32)>>, a: int, b: int)
    requires
        is_ranking(o, ranks),
        0 <= a < b < o.len(),
        ranks[o[b] as int]->Some_0.0,
    ensures
        ranks[o[a] as int]->Some_0.0,
{
    assert(ranked_before(ranks, o[a], o[b]));
}

/// Law: among items alike in exactness, the one with the higher score
/// comes first in a ranking.
pub proof fn law_higher_score_first(
    o: Seq<usize>,
    ranks: Seq<Option<(bool, u32)>>,
    a: int,
    b: int,
    exact: bool,
    sa: u32,
    sb: u32,
)
    requires
        is_ranking(o, ranks),
        0 <= a < o.len(),
        0 <= b < o.len(),
        ranks[o[a] as int] == Some((exact, sa)),
        ranks[o[b] as int] == Some((exact, sb)),
        sa < sb,
    ensures
        b < a,
{
    if a < b {
        assert(ranked_before(ranks, o[a], o[b]));
    }
}

/// Law: items that rank alike keep the order in which they were given.
pub proof fn law_ties_keep_given_order(
    o: Seq<usize>,
    ranks: Seq<Option<(bool, u32)>>,
    a: int,
    b: int,
)
    requires
        is_ranking(o, ranks),
        0 <= a < o.len(),
        0 <= b < o.len(),
        ranks[o[a] as int] == ranks[o[b] as int],
        o[a] < o[b],
    ensures
        a < b,
{
    if b < a {
        assert(ranked_before(ranks, o[b], o[a]));
        let r = ranks[o[a] as int]->Some_0;
        assert(!((!r.0 && r.0) || (r.0 == r.0 && r.1 < r.1)));
    }
}

/// Law: an item ranks at least as well as each of its matched fields:
/// where any of its fields is exact, so is the item's rank, and the item's
/// score is at least the score of every matched field that is as exact as
/// the item's rank; the item's rank is that of one of its matched fields.
pub proof fn law_item_rank_is_its_best_field(
    n: nat,
    fields: Seq<(usize, Seq<char>)>,
    matches: Seq<(usize, u32)>,
    qt: Seq<char>,
    k: int,
)
    requires
        forall|j: int| 0 <= j < matches.len() ==> (#[trigger] matches[j]).0 < fields.len(),
        forall|j: int| 0 <= j < fields.len() ==> (#[trigger] fields[j]).0 < n,
        0 <= k < matches.len(),
    ensures
        ({
            let m = matches[k];
            let f = fields[m.0 as int];
            let ex = qt.len() > 0 && spec_eq_ignore_ascii_case(f.1, qt);
            let r = best_ranks(n, fields, matches, qt)[f.0 as int];
            &&& r is Some
            &&& ex ==> r->Some_0.0
            &&& r->Some_0.0 == ex ==> m.1 <= r->Some_0.1
            &&& exists|j: int|
                0 <= j < matches.len() && fields[(#[trigger] matches[j]).0 as int].0 == f.0
                    && r->Some_0 == (qt.len() > 0 && spec_eq_ignore_ascii_case(
                    fields[matches[j].0 as int].1,
                    qt,
                ), matches[j].1)
        }),
    decreases matches.len(),
{
    lemma_best_ranks_len(n, fields, matches, qt);
    let front = matches.drop_last();
    let last = matches.len() - 1;
    let m = matches[k];
    let f = fields[m.0 as int];
    let prev = best_ranks(n, fields, front, qt);
    lemma_best_ranks_len(n, fields, front, qt);
    let ml = matches.last();
    assert(ml == matches[last]);
    let fl = fields[ml.0 as int];
    let rank = (qt.len() > 0 && spec_eq_ignore_ascii_case(fl.1, qt), ml.1);
    assert forall|j: int| 0 <= j < front.len() implies (#[trigger] front[j]).0 < fields.len() by {
        assert(front[j] == matches[j]);
    }
    if k == last {
        if prev[fl.0 as int] is Some {
            // the previous rank of the item was attained by an earlier field
            let j0 = choose|j: int| 0 <= j < front.len() && fields[(#[trigger] front[j]).0 as int].0 == fl.0;
            if exists|j: int| 0 <= j < front.len() && fields[(#[trigger] front[j]).0 as int].0 == fl.0 {
                law_item_rank_is_its_best_field(n, fields, front, qt, j0);
                let w = choose|j: int|
                    0 <= j < front.len() && fields[(#[trigger] front[j]).0 as int].0 == fl.0
                        && prev[fl.0 as int]->Some_0 == (qt.len() > 0 && spec_eq_ignore_ascii_case(
                        fields[front[j].0 as int].1,
                        qt,
                    ), front[j].1);
                assert(matches[w] == front[w]);
            } else {
                lemma_best_ranks_none(n, fields, front, qt, fl.0 as int);
            }
        }
        assert(matches[last] == ml);
    } else {
        assert(front[k] == m);
        law_item_rank_is_its_best_field(n, fields, front, qt, k);
        let w = choose|j: int|
            0 <= j < front.len() && fields[(#[trigger] front[j]).0 as int].0 == f.0
                && prev[f.0 as int]->Some_0 == (qt.len() > 0 && spec_eq_ignore_ascii_case(
                fields[front[j].0 as int].1,
                qt,
            ), front[j].1);
        assert(matches[w] == front[w]);
        assert(matches[last] == ml);
    }
}

/// An item none of whose fields matched has no rank.
proof fn lemma_best_ranks_none(
    n: nat,
    fields: Seq<(usize, Seq<char>)>,
    matches: Seq<(usize, u32)>,
    qt: Seq<char>,
    i: int,
)
    requires
        forall|j: int| 0 <= j < matches.len() ==> (#[trigger] matches[j]).0 < fields.len(),
        forall|j: int| 0 <= j < fields.len() ==> (#[trigger] fields[j]).0 < n,
        0 <= i < n,
        !exists|j: int| 0 <= j < matches.len() && fields[(#[trigger] matches[j]).0 as int].0 == i,
    ensures
        best_ranks(n, fields, matches, qt)[i] is None,
    decreases matches.len(),
{
    if matches.len() > 0 {
        let front = matches.drop_last();
        assert forall|j: int| 0 <= j < front.len() implies (#[trigger] front[j]).0 < fields.len() by {
            assert(front[j] == matches[j]);
        }
        assert(!exists|j: int| 0 <= j < front.len() && fields[(#[trigger] front[j]).0 as int].0 == i) by {
            if exists|j: int| 0 <= j < front.len() && fields[(#[trigger] front[j]).0 as int].0 == i {
                let j = choose|j: int| 0 <= j < front.len() && fields[(#[trigger] front[j]).0 as int].0 == i;
                assert(matches[j] == front[j]);
            }
        }
        lemma_best_ranks_none(n, fields, front, qt, i);
        lemma_best_ranks_len(n, fields, front, qt);
        assert(matches.last() == matches[matches.len() - 1]);
    }
}

proof fn lemma_best_ranks_len(
    n: nat,
    fields: Seq<(usize, Seq<char>)>,
    matches: Seq<(usize, u32)>,
    qt: Seq<char>,
)
    requires
        forall|j: int| 0 <= j < matches.len() ==> (#[trigger] matches[j]).0 < fields.len(),
        forall|j: int| 0 <= j < fields.len() ==> (#[trigger] fields[j]).0 < n,
    ensures
        best_ranks(n, fields, matches, qt).len() == n,
    decreases matches.len(),
{
    if matches.len() > 0 {
        let front = matches.drop_last();
        assert forall|j: int| 0 <= j < front.len() implies (#[trigger] front[j]).0 < fields.len() by {
            assert(front[j] == matches[j]);
        }
        lemma_best_ranks_len(n, fields, front, qt);
        assert(matches.last() == matches[matches.len() - 1]);
    }
}

/// The text of a span.
pub open spec fn span_text(v: ValView) -> Seq<char> {
    match v {
        ValView::String(t) => t,
        ValView::List(items) => if items.len() == 2 {
            match items[1] {
                ValView::String(t) => t,
                _ => Seq::empty(),
            }
        } else {
            Seq::empty()
        },
        _ => Seq::empty(),
    }
}

/// The texts of spans, one after another.
pub open spec fn spans_text(spans: Seq<ValView>) -> Seq<char>
    decreases spans.len(),
{
    if spans.len() == 0 {
        Seq::empty()
    } else {
        span_text(spans[0]) + spans_text(spans.drop_first())
    }
}

/// Splitting a range of parts splits what they make up.
proof fn lemma_concat_split(parts: Seq<Seq<char>>, i: int, j: int, k: int)
    requires
        0 <= i <= j <= k <= parts.len(),
    ensures
        concat_all(parts.subrange(i, k)) == concat_all(parts.subrange(i, j)) + concat_all(
            parts.subrange(j, k),
        ),
    decreases k - j,
{
    if j == k {
        assert(parts.subrange(j, k) =~= Seq::<Seq<char>>::empty());
        assert(concat_all(parts.subrange(i, j)) + Seq::<char>::empty() =~= concat_all(
            parts.subrange(i, j),
        ));
    } else {
        lemma_concat_split(parts, i, j, k - 1);
        assert(parts.subrange(i, k).drop_last() =~= parts.subrange(i, k - 1));
        assert(parts.subrange(j, k).drop_last() =~= parts.subrange(j, k - 1));
        assert(parts.subrange(i, k).last() == parts[k - 1]);
        assert(parts.subrange(j, k).last() == parts[k - 1]);
    }
}

proof fn lemma_spans_text_concat(a: Seq<ValView>, b: Seq<ValView>)
    ensures
        spans_text(a + b) == spans_text(a) + spans_text(b),
    decreases a.len(),
{
    if a.len() == 0 {
        assert(a + b =~= b);
    } else {
        lemma_spans_text_concat(a.drop_first(), b);
        assert((a + b).drop_first() =~= a.drop_first() + b);
        assert((a + b)[0] == a[0]);
    }
}

/// Law: an excerpt's spans, one after another, are exactly the text of
/// the graphemes they cover; marking matches neither drops nor repeats
/// text.
pub proof fn law_excerpt_spans_cover_text(gs: Seq<Seq<char>>, idx: Seq<u32>, start: int, end: int)
    requires
        0 <= start <= end <= gs.len(),
    ensures
        spans_text(excerpt_spans(gs, idx, start, end)) == concat_all(gs.subrange(start, end)),
    decreases end - start,
{
    if start == end {
        assert(gs.subrange(start, end) =~= Seq::<Seq<char>>::empty());
    } else {
        let b = idx.contains(start as u32);
        let j = run_end(idx, start, end, b);
        lemma_run_end(idx, start, end, b);
        law_excerpt_spans_cover_text(gs, idx, j, end);
        let head = seq![span_view(concat_all(gs.subrange(start, j)), b)];
        lemma_spans_text_concat(head, excerpt_spans(gs, idx, j, end));
        assert(spans_text(head) == concat_all(gs.subrange(start, j))) by {
            let t = concat_all(gs.subrange(start, j));
            assert(head[0] == span_view(t, b));
            if b {
                let items = seq![ValView::Keyword("match"@), ValView::String(t)];
                assert(items.len() == 2);
                assert(items[1] == ValView::String(t));
            }
            assert(span_text(head[0]) == t);
            assert(head.drop_first() =~= Seq::<ValView>::empty());
            assert(spans_text(head.drop_first()) == Seq::<char>::empty());
            assert(concat_all(gs.subrange(start, j)) + Seq::<char>::empty() =~= concat_all(
                gs.subrange(start, j),
            ));
        }
        lemma_concat_split(gs, start, j, end);
    }
}

} // verus!
