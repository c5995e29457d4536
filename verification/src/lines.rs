//! Rendering of tokens as text, and the scored search for the place at
//! which a cue's text is broken into two lines.
//!
//! Scores are in hundredths of a point; the lower, the better.

use vstd::prelude::*;
use vstd::string::*;
use crate::formatting::{
    comma_like, is_comma_like, is_terminal_punct, lemma_weight_subrange, terminal, total_weight,
    weight, PostProcessConfig, Tok, TokView, TEXT_LIMIT,
};
use crate::text::{
    chars_of, first_word, first_word_range, function_word_at, is_function_word, last_word,
    last_word_range,
};

verus! {

/// The text of one token: its core and its punctuation.
pub open spec fn rendered_tok(t: TokView) -> Seq<char> {
    t.word + t.punc
}

/// The text of the tokens: each with its punctuation, one space apart.
pub open spec fn rendered(toks: Seq<TokView>) -> Seq<char>
    decreases toks.len(),
{
    if toks.len() == 0 {
        Seq::empty()
    } else if toks.len() == 1 {
        rendered_tok(toks[0])
    } else {
        rendered(toks.drop_last()) + seq![' '] + rendered_tok(toks.last())
    }
}

/// The texts joined, one space apart.
pub open spec fn joined(texts: Seq<Seq<char>>) -> Seq<char>
    decreases texts.len(),
{
    if texts.len() == 0 {
        Seq::empty()
    } else if texts.len() == 1 {
        texts[0]
    } else {
        joined(texts.drop_last()) + seq![' '] + texts.last()
    }
}

/// The rendered text has as many characters as the tokens weigh, less the
/// separator that would follow the last one.
pub proof fn lemma_rendered_len(toks: Seq<TokView>)
    ensures
        toks.len() == 0 ==> rendered(toks).len() == 0 && total_weight(toks) == 0,
        toks.len() > 0 ==> rendered(toks).len() + 1 == total_weight(toks),
        toks.len() <= total_weight(toks),
    decreases toks.len(),
{
    if toks.len() == 1 {
        assert(toks.drop_last().len() == 0);
        lemma_rendered_len(toks.drop_last());
    } else if toks.len() > 1 {
        lemma_rendered_len(toks.drop_last());
    }
}

/// Breaking the tokens in two and joining the two texts with a space gives
/// the text of the tokens.
pub proof fn lemma_rendered_split(toks: Seq<TokView>, k: int)
    requires
        0 < k < toks.len(),
    ensures
        rendered(toks.take(k)) + seq![' '] + rendered(toks.skip(k)) == rendered(toks),
    decreases toks.len(),
{
    let dl = toks.drop_last();
    if k == toks.len() - 1 {
        assert(toks.take(k) =~= dl);
        assert(toks.skip(k) =~= seq![toks.last()]);
        assert(rendered(toks.skip(k)) == rendered_tok(toks.last()));
    } else {
        lemma_rendered_split(dl, k);
        assert(toks.take(k) =~= dl.take(k));
        assert(toks.skip(k).drop_last() =~= dl.skip(k));
        assert(toks.skip(k).last() == toks.last());
        assert(rendered(toks.skip(k)) == rendered(dl.skip(k)) + seq![' '] + rendered_tok(toks.last()));
        assert(rendered(toks.take(k)) + seq![' '] + (rendered(dl.skip(k)) + seq![' '] + rendered_tok(
            toks.last(),
        )) =~= (rendered(dl.take(k)) + seq![' '] + rendered(dl.skip(k))) + seq![' '] + rendered_tok(
            toks.last(),
        ));
    }
}

/// The text of one token.
pub fn render_token(t: &Tok) -> (s: String)
    ensures
        s@ == rendered_tok(t@),
{
    let mut s = t.word.clone();
    s.append(t.punc.as_str());
    s
}

/// The text of the tokens `toks[lo..hi]`.
pub fn render_range(toks: &[Tok], lo: usize, hi: usize) -> (s: String)
    requires
        lo <= hi <= toks.len(),
    ensures
        s@ == rendered(toks.deep_view().subrange(lo as int, hi as int)),
{
    let ghost ts = toks.deep_view();
    let mut s = String::new();
    let mut i: usize = lo;
    assert(ts.subrange(lo as int, lo as int) =~= Seq::<TokView>::empty());
    while i < hi
        invariant
            lo <= i <= hi <= toks.len(),
            ts == toks.deep_view(),
            s@ == rendered(ts.subrange(lo as int, i as int)),
        decreases hi - i,
    {
        let ghost before = s@;
        let ghost next = ts.subrange(lo as int, i + 1);
        assert(next.drop_last() =~= ts.subrange(lo as int, i as int));
        assert(next.last() == toks@[i as int]@);
        if i > lo {
            proof {
                reveal_strlit(" ");
            }
            assert(" "@ =~= seq![' ']);
            s.append(" ");
        }
        s.append(toks[i].word.as_str());
        s.append(toks[i].punc.as_str());
        assert(s@ =~= rendered(next));
        i += 1;
    }
    s
}

/// The text of the tokens.
pub fn render_slice(slice: &[Tok]) -> (s: String)
    ensures
        s@ == rendered(slice.deep_view()),
{
    assert(slice.deep_view().subrange(0, slice.len() as int) =~= slice.deep_view());
    render_range(slice, 0, slice.len())
}

/// The number of characters of the text of `toks[lo..hi]`.
pub fn range_chars(toks: &[Tok], lo: usize, hi: usize) -> (n: usize)
    requires
        lo <= hi <= toks.len(),
        total_weight(toks.deep_view()) <= TEXT_LIMIT,
    ensures
        n == rendered(toks.deep_view().subrange(lo as int, hi as int)).len(),
        n <= TEXT_LIMIT,
{
    let ghost ts = toks.deep_view();
    let mut w: usize = 0;
    let mut i: usize = lo;
    assert(ts.subrange(lo as int, lo as int) =~= Seq::<TokView>::empty());
    while i < hi
        invariant
            lo <= i <= hi <= toks.len(),
            ts == toks.deep_view(),
            total_weight(ts) <= TEXT_LIMIT,
            w == total_weight(ts.subrange(lo as int, i as int)),
        decreases hi - i,
    {
        let ghost next = ts.subrange(lo as int, i + 1);
        proof {
            assert(next.drop_last() =~= ts.subrange(lo as int, i as int));
            assert(next.last() == toks@[i as int]@);
            lemma_weight_subrange(ts, lo as int, i + 1);
        }
        let a = toks[i].word.as_str().unicode_len();
        let b = toks[i].punc.as_str().unicode_len();
        w = w + a + b + 1;
        i += 1;
    }
    proof {
        lemma_rendered_len(ts.subrange(lo as int, hi as int));
        lemma_weight_subrange(ts, lo as int, hi as int);
    }
    if w == 0 {
        0
    } else {
        w - 1
    }
}

/// The number of characters of the text of the tokens.
pub fn slice_chars(slice: &[Tok]) -> (n: usize)
    requires
        total_weight(slice.deep_view()) <= TEXT_LIMIT,
    ensures
        n == rendered(slice.deep_view()).len(),
{
    assert(slice.deep_view().subrange(0, slice.len() as int) =~= slice.deep_view());
    range_chars(slice, 0, slice.len())
}

/// The penalty for a line of `chars` characters under the cap `cap`:
/// nothing up to the cap, then 0.02 times the square of the excess.
pub open spec fn length_cost(chars: int, cap: int) -> int {
    if chars <= cap {
        0
    } else {
        2 * (chars - cap) * (chars - cap)
    }
}

/// The penalty for a line of `v` words under the soft cap `cap`: nothing up
/// to the cap, then 0.01 times the square of the excess.
pub open spec fn soft_cap_cost(v: int, cap: int) -> int {
    if v <= cap {
        0
    } else {
        (v - cap) * (v - cap)
    }
}

/// The penalty for breaking between the texts `left` and `right`: 0.30 if
/// `right` begins with a short function word, and 0.25 if `left` ends
/// with one.
pub open spec fn syntax_cost(left: Seq<char>, right: Seq<char>) -> int {
    (if is_function_word(first_word(right)) {
        30int
    } else {
        0int
    }) + (if is_function_word(last_word(left)) {
        25int
    } else {
        0int
    })
}

/// The penalty for a line of `chars` characters under the cap `cap`.
pub fn length_penalty(chars: usize, cap: usize) -> (r: i128)
    requires
        chars <= TEXT_LIMIT,
    ensures
        r == length_cost(chars as int, cap as int),
        0 <= r <= 0x2_0000_0000_0000_0000,
{
    if chars <= cap {
        0
    } else {
        let d: i128 = (chars - cap) as i128;
        assert(0 <= d * d <= 0xFFFF_FFFF * 0xFFFF_FFFF) by (nonlinear_arith)
            requires
                0 <= d <= 0xFFFF_FFFF,
        ;
        assert(2 * d * d == 2 * (d * d)) by (nonlinear_arith);
        2 * d * d
    }
}

/// The penalty for a line of `v` words under the soft cap `cap`.
pub fn soft_cap_penalty(v: usize, cap: usize) -> (r: i128)
    requires
        v <= TEXT_LIMIT,
    ensures
        r == soft_cap_cost(v as int, cap as int),
        0 <= r <= 0x1_0000_0000_0000_0000,
{
    if v <= cap {
        0
    } else {
        let d: i128 = (v - cap) as i128;
        assert(0 <= d * d <= 0xFFFF_FFFF * 0xFFFF_FFFF) by (nonlinear_arith)
            requires
                0 <= d <= 0xFFFF_FFFF,
        ;
        d * d
    }
}

/// The penalty for breaking between the texts `left` and `right`.
pub fn syntax_penalty(left: &str, right: &str) -> (r: i128)
    ensures
        r == syntax_cost(left@, right@),
        0 <= r <= 55,
{
    let rv = chars_of(right);
    let (a, b) = first_word_range(&rv);
    let starts_bad = function_word_at(&rv, a, b);
    let lv = chars_of(left);
    let (c, d) = last_word_range(&lv);
    let ends_bad = function_word_at(&lv, c, d);
    let mut pen: i128 = 0;
    if starts_bad {
        pen = pen + 30;
    }
    if ends_bad {
        pen = pen + 25;
    }
    pen
}

/// The pause before token `k` is a long one.
pub open spec fn long_gap(toks: Seq<TokView>, k: int, cfg: PostProcessConfig) -> bool {
    toks[k].start - toks[k - 1].end >= cfg.split_gap_ms
}

/// The text may be broken before token `k`: the token before it ends a
/// sentence, or a long pause lies between the two, or the token before it
/// ends in a comma and the text is long enough for a break at a comma; and,
/// so that there is always a place to break, every even `k` and the middle.
pub open spec fn is_candidate(toks: Seq<TokView>, k: int, cfg: PostProcessConfig) -> bool {
    &&& 0 < k < toks.len()
    &&& {
        ||| terminal(toks[k - 1].punc)
        ||| long_gap(toks, k, cfg)
        ||| (comma_like(toks[k - 1].punc) && rendered(toks).len() >= cfg.comma_min_chars_before_allow)
        ||| k % 2 == 0
        ||| k == toks.len() / 2
    }
}

/// What the kind of break before token `k` adds to the score: 0.60 off
/// after the end of a sentence, 0.30 off at a long pause, 0.15 on at a comma.
pub open spec fn break_bonus(toks: Seq<TokView>, k: int, cfg: PostProcessConfig) -> int {
    (if terminal(toks[k - 1].punc) {
        -60int
    } else {
        0int
    }) + (if long_gap(toks, k, cfg) {
        -30int
    } else {
        0int
    }) + (if comma_like(toks[k - 1].punc) {
        15int
    } else {
        0int
    })
}

/// The penalty for lines of `left` and `right` words under the soft cap
/// on the words of a line, which 0 switches off.
pub open spec fn words_cost(left: int, right: int, cfg: PostProcessConfig) -> int {
    if cfg.soft_max_words_per_line > 0 {
        soft_cap_cost(left, cfg.soft_max_words_per_line as int) + soft_cap_cost(
            right,
            cfg.soft_max_words_per_line as int,
        )
    } else {
        0
    }
}

/// The score of breaking the text before token `k`.
pub open spec fn split_score(toks: Seq<TokView>, k: int, cfg: PostProcessConfig) -> int {
    let left = rendered(toks.take(k));
    let right = rendered(toks.skip(k));
    length_cost(left.len() as int, cfg.max_chars_per_line as int) + length_cost(
        right.len() as int,
        cfg.max_chars_per_line as int,
    ) + words_cost(k, toks.len() - k, cfg) + syntax_cost(left, right) + break_bonus(toks, k, cfg)
}

/// `k` is the place to break: of the candidates, the one with the lowest
/// score and, among those with the lowest score, the first.
pub open spec fn is_best_split(toks: Seq<TokView>, k: int, cfg: PostProcessConfig) -> bool {
    &&& is_candidate(toks, k, cfg)
    &&& forall|j: int| #[trigger]
        is_candidate(toks, j, cfg) ==> split_score(toks, k, cfg) <= split_score(toks, j, cfg)
    &&& forall|j: int| #[trigger]
        is_candidate(toks, j, cfg) && j < k ==> split_score(toks, k, cfg) < split_score(toks, j, cfg)
}

/// There is at most one place to break.
pub proof fn lemma_best_split_unique(toks: Seq<TokView>, a: int, b: int, cfg: PostProcessConfig)
    requires
        is_best_split(toks, a, cfg),
        is_best_split(toks, b, cfg),
    ensures
        a == b,
{
}

/// The lines of a cue over the tokens: one line with the whole text where
/// the configuration allows one line only or there are fewer than two
/// tokens; else the texts before and after the place to break.
pub open spec fn split_lines(toks: Seq<TokView>, cfg: PostProcessConfig) -> Seq<Seq<char>> {
    if cfg.max_lines <= 1 || toks.len() < 2 {
        seq![rendered(toks)]
    } else {
        let k = choose|k: int| is_best_split(toks, k, cfg);
        seq![rendered(toks.take(k)), rendered(toks.skip(k))]
    }
}

/// The score of breaking the text before token `k`.
fn score_at(slice: &[Tok], k: usize, cfg: &PostProcessConfig) -> (r: i128)
    requires
        0 < k < slice.len(),
        total_weight(slice.deep_view()) <= TEXT_LIMIT,
    ensures
        r == split_score(slice.deep_view(), k as int, *cfg),
        -100 <= r <= 0x8_0000_0000_0000_0000,
{
    let ghost ts = slice.deep_view();
    let n = slice.len();
    proof {
        assert(ts.subrange(0, k as int) =~= ts.take(k as int));
        assert(ts.subrange(k as int, n as int) =~= ts.skip(k as int));
        lemma_rendered_len(ts);
        assert(ts[k - 1] == slice@[k - 1]@);
        assert(ts[k as int] == slice@[k as int]@);
    }
    let lchars = range_chars(slice, 0, k);
    let rchars = range_chars(slice, k, n);
    let ltext = render_range(slice, 0, k);
    let rtext = render_range(slice, k, n);
    let len_pen = length_penalty(lchars, cfg.max_chars_per_line) + length_penalty(
        rchars,
        cfg.max_chars_per_line,
    );
    let word_pen = if cfg.soft_max_words_per_line > 0 {
        soft_cap_penalty(k, cfg.soft_max_words_per_line) + soft_cap_penalty(
            n - k,
            cfg.soft_max_words_per_line,
        )
    } else {
        0
    };
    let syntax_pen = syntax_penalty(ltext.as_str(), rtext.as_str());
    let left = &slice[k - 1];
    let is_term = is_terminal_punct(left.punc.as_str());
    let is_comma = is_comma_like(left.punc.as_str());
    let long = slice[k].start as i128 - left.end as i128 >= cfg.split_gap_ms as i128;
    let mut bonus: i128 = 0;
    if is_term {
        bonus = bonus - 60;
    }
    if long {
        bonus = bonus - 30;
    }
    if is_comma {
        bonus = bonus + 15;
    }
    len_pen + word_pen + syntax_pen + bonus
}

/// Whether the text may be broken before token `k`.
fn candidate_at(slice: &[Tok], k: usize, total_chars: usize, cfg: &PostProcessConfig) -> (r: bool)
    requires
        0 < k < slice.len(),
        total_chars == rendered(slice.deep_view()).len(),
    ensures
        r == is_candidate(slice.deep_view(), k as int, *cfg),
{
    let ghost ts = slice.deep_view();
    assert(ts[k - 1] == slice@[k - 1]@);
    assert(ts[k as int] == slice@[k as int]@);
    let left = &slice[k - 1];
    let is_term = is_terminal_punct(left.punc.as_str());
    let long = slice[k].start as i128 - left.end as i128 >= cfg.split_gap_ms as i128;
    let comma_ok = is_comma_like(left.punc.as_str()) && total_chars
        >= cfg.comma_min_chars_before_allow;
    is_term || long || comma_ok || k % 2 == 0 || k == slice.len() / 2
}

/// The place at which a text of two tokens or more is broken.
pub fn choose_split(slice: &[Tok], cfg: &PostProcessConfig) -> (k: usize)
    requires
        slice.len() >= 2,
        total_weight(slice.deep_view()) <= TEXT_LIMIT,
    ensures
        is_best_split(slice.deep_view(), k as int, *cfg),
{
    let ghost ts = slice.deep_view();
    let n = slice.len();
    let total_chars = slice_chars(slice);
    // The middle is always a candidate, so the search never comes back empty.
    let mut best_k: usize = n / 2;
    let mut best_score: i128 = 0;
    let mut found = false;
    let mut k: usize = 1;
    while k < n
        invariant
            1 <= k <= n == slice.len(),
            n >= 2,
            ts == slice.deep_view(),
            total_weight(ts) <= TEXT_LIMIT,
            total_chars == rendered(ts).len(),
            !found ==> forall|j: int| 0 < j < k ==> !is_candidate(ts, j, *cfg),
            !found ==> k <= n / 2,
            found ==> {
                &&& 0 < best_k < k
                &&& is_candidate(ts, best_k as int, *cfg)
                &&& best_score == split_score(ts, best_k as int, *cfg)
                &&& forall|j: int|
                    0 < j < k && #[trigger] is_candidate(ts, j, *cfg) ==> best_score <= split_score(
                        ts,
                        j,
                        *cfg,
                    )
                &&& forall|j: int|
                    0 < j < best_k && #[trigger] is_candidate(ts, j, *cfg) ==> best_score
                        < split_score(ts, j, *cfg)
            },
        decreases n - k,
    {
        if candidate_at(slice, k, total_chars, cfg) {
            let score = score_at(slice, k, cfg);
            if !found || score < best_score {
                best_score = score;
                best_k = k;
                found = true;
            }
        }
        k += 1;
    }
    assert(found) by {
        if !found {
            assert(!is_candidate(ts, (n / 2) as int, *cfg));
        }
    }
    best_k
}

/// The lines of a cue over the tokens.
pub fn split_into_lines(slice: &[Tok], cfg: &PostProcessConfig) -> (lines: Vec<String>)
    requires
        total_weight(slice.deep_view()) <= TEXT_LIMIT,
    ensures
        lines.deep_view() == split_lines(slice.deep_view(), *cfg),
        joined(lines.deep_view()) == rendered(slice.deep_view()),
        1 <= lines.len() <= 2,
{
    let ghost ts = slice.deep_view();
    let mut lines: Vec<String> = Vec::new();
    if cfg.max_lines <= 1 || slice.len() < 2 {
        let s = render_slice(slice);
        lines.push(s);
        assert(lines.deep_view() =~= seq![rendered(ts)]);
        return lines;
    }
    let k = choose_split(slice, cfg);
    proof {
        let c = choose|c: int| is_best_split(ts, c, *cfg);
        lemma_best_split_unique(ts, k as int, c, *cfg);
        assert(ts.subrange(0, k as int) =~= ts.take(k as int));
        assert(ts.subrange(k as int, slice.len() as int) =~= ts.skip(k as int));
        lemma_rendered_split(ts, k as int);
    }
    let left = render_range(slice, 0, k);
    let right = render_range(slice, k, slice.len());
    lines.push(left);
    lines.push(right);
    assert(lines.deep_view() =~= seq![rendered(ts.take(k as int)), rendered(ts.skip(k as int))]);
    proof {
        let l = lines.deep_view();
        assert(l.drop_last() =~= seq![rendered(ts.take(k as int))]);
        assert(l.drop_last()[0] == rendered(ts.take(k as int)));
        assert(joined(l.drop_last()) == rendered(ts.take(k as int)));
        assert(l.last() == rendered(ts.skip(k as int)));
        assert(joined(l) == joined(l.drop_last()) + seq![' '] + l.last());
    }
    lines
}

/// The best place to break among the candidates below `m`, or 0 where
/// there is no candidate below `m`.
proof fn best_below(toks: Seq<TokView>, m: int, cfg: PostProcessConfig) -> (k: int)
    requires
        1 <= m <= toks.len(),
    ensures
        0 <= k < m,
        k == 0 ==> forall|j: int| 0 < j < m ==> !is_candidate(toks, j, cfg),
        k > 0 ==> {
            &&& is_candidate(toks, k, cfg)
            &&& forall|j: int|
                0 < j < m && #[trigger] is_candidate(toks, j, cfg) ==> split_score(toks, k, cfg)
                    <= split_score(toks, j, cfg)
            &&& forall|j: int|
                0 < j < k && #[trigger] is_candidate(toks, j, cfg) ==> split_score(toks, k, cfg)
                    < split_score(toks, j, cfg)
        },
    decreases m,
{
    if m == 1 {
        0
    } else {
        let k = best_below(toks, m - 1, cfg);
        if is_candidate(toks, m - 1, cfg) && (k == 0 || split_score(toks, m - 1, cfg) < split_score(
            toks,
            k,
            cfg,
        )) {
            m - 1
        } else {
            k
        }
    }
}

/// A text of two tokens or more has a place to break.
pub proof fn lemma_best_split_exists(toks: Seq<TokView>, cfg: PostProcessConfig)
    requires
        toks.len() >= 2,
    ensures
        exists|k: int| is_best_split(toks, k, cfg),
{
    let k = best_below(toks, toks.len() as int, cfg);
    assert(is_candidate(toks, (toks.len() / 2) as int, cfg));
    assert(is_best_split(toks, k, cfg));
}

/// Joining a cue's lines with a space gives back the text of its tokens,
/// every punctuation mark included.
pub proof fn lemma_lines_rejoin(toks: Seq<TokView>, cfg: PostProcessConfig)
    ensures
        joined(split_lines(toks, cfg)) == rendered(toks),
{
    if cfg.max_lines <= 1 || toks.len() < 2 {
        assert(split_lines(toks, cfg)[0] == rendered(toks));
    } else {
        lemma_best_split_exists(toks, cfg);
        let k = choose|k: int| is_best_split(toks, k, cfg);
        lemma_rendered_split(toks, k);
        let l = split_lines(toks, cfg);
        assert(l.drop_last() =~= seq![rendered(toks.take(k))]);
        assert(l.drop_last()[0] == rendered(toks.take(k)));
        assert(joined(l.drop_last()) == rendered(toks.take(k)));
        assert(l.last() == rendered(toks.skip(k)));
    }
}

/// The texts of the tokens, each with its punctuation.
pub open spec fn token_texts(toks: Seq<TokView>) -> Seq<Seq<char>> {
    Seq::new(toks.len(), |i: int| rendered_tok(toks[i]))
}

/// Joining the words of a cue with a space gives the text of its tokens.
pub proof fn lemma_words_rejoin(toks: Seq<TokView>)
    ensures
        joined(token_texts(toks)) == rendered(toks),
    decreases toks.len(),
{
    if toks.len() == 1 {
        assert(token_texts(toks)[0] == rendered_tok(toks[0]));
    } else if toks.len() > 1 {
        assert(token_texts(toks).drop_last() =~= token_texts(toks.drop_last()));
        lemma_words_rejoin(toks.drop_last());
    }
}

} // verus!
