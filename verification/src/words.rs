//! Word timestamps from the raw tokens of one recognition hypothesis.

use vstd::prelude::*;
use crate::text::{
    chars_of, is_blank, is_space, leading, lemma_leading_bound, lemma_trailing_bound,
    lemma_trim_blank, string_of, strip, strip_front, strip_range, trim, CharClass,
};
use crate::types::{mid, midpoint, WordTimestamp, WordView};

verus! {

/// The characters a control marker may hold between `[_` and `]`.
pub open spec fn is_marker_char(c: char) -> bool {
    ('A' <= c && c <= 'Z') || ('0' <= c && c <= '9') || c == '_'
}

/// Whether a control marker may hold `c` between `[_` and `]`.
pub fn marker_char(c: char) -> (r: bool)
    ensures
        r == is_marker_char(c),
{
    ('A' <= c && c <= 'Z') || ('0' <= c && c <= '9') || c == '_'
}

/// `t` is a control marker: `[_`, then one or more capital letters, digits
/// or underscores, then `]`.
pub open spec fn is_marker(t: Seq<char>) -> bool {
    &&& t.len() >= 4
    &&& t[0] == '['
    &&& t[1] == '_'
    &&& t.last() == ']'
    &&& forall|i: int| 2 <= i < t.len() - 1 ==> is_marker_char(#[trigger] t[i])
}

/// `s` without NULs and then white space at either end.
pub open spec fn bare(s: Seq<char>) -> Seq<char> {
    strip(strip(s, CharClass::Nul), CharClass::Space)
}

/// The whole of `s`, apart from padding, is one control marker.
pub open spec fn whole_control(s: Seq<char>) -> bool {
    is_marker(bare(s))
}

/// The bounds of `bare(v)` inside `v`.
pub fn bare_range(v: &Vec<char>) -> (r: (usize, usize))
    ensures
        r.0 <= r.1 <= v.len(),
        v@.subrange(r.0 as int, r.1 as int) == bare(v@),
{
    assert(v@.subrange(0, v@.len() as int) =~= v@);
    let (a, b) = strip_range(v, 0, v.len(), CharClass::Nul);
    strip_range(v, a, b, CharClass::Space)
}

fn marker_range(v: &Vec<char>, lo: usize, hi: usize) -> (r: bool)
    requires
        lo <= hi <= v.len(),
    ensures
        r == is_marker(v@.subrange(lo as int, hi as int)),
{
    let ghost t = v@.subrange(lo as int, hi as int);
    if hi - lo < 4 {
        return false;
    }
    assert(t[0] == v@[lo as int] && t[1] == v@[lo + 1] && t.last() == v@[hi - 1]);
    if v[lo] != '[' || v[lo + 1] != '_' || v[hi - 1] != ']' {
        return false;
    }
    let mut i: usize = lo + 2;
    while i < hi - 1
        invariant
            lo + 2 <= i <= hi - 1,
            hi <= v.len(),
            t == v@.subrange(lo as int, hi as int),
            forall|k: int| 2 <= k < i - lo ==> is_marker_char(#[trigger] t[k]),
        decreases hi - i,
    {
        assert(t[i - lo] == v@[i as int]);
        if !marker_char(v[i]) {
            return false;
        }
        i += 1;
    }
    true
}

/// Whether `s`, apart from NULs and white space around it, is exactly one
/// control marker such as `[_BEG_]` or `[_TT_320]`.
pub fn is_whole_control_token(s: &str) -> (r: bool)
    ensures
        r == whole_control(s@),
{
    let v = chars_of(s);
    let (a, b) = bare_range(&v);
    marker_range(&v, a, b)
}

/// How many marker characters stand in `s` from index `i` on, without a break.
pub open spec fn marker_run(s: Seq<char>, i: int) -> nat
    decreases s.len() - i,
{
    if 0 <= i < s.len() && is_marker_char(s[i]) {
        1 + marker_run(s, i + 1)
    } else {
        0
    }
}

/// The length of the control marker that starts at index `i` of `s`, or 0
/// where none starts there.
pub open spec fn marker_len(s: Seq<char>, i: int) -> int {
    let n = marker_run(s, i + 2) as int;
    if 0 <= i && i + 2 + n < s.len() && s[i] == '[' && s[i + 1] == '_' && n >= 1 && s[i + 2 + n]
        == ']' {
        n + 3
    } else {
        0
    }
}

/// `s` from index `i` on, without the control markers embedded in it.
pub open spec fn strip_markers_from(s: Seq<char>, i: int) -> Seq<char>
    decreases s.len() - i,
{
    if i < 0 || i >= s.len() {
        Seq::empty()
    } else if marker_len(s, i) > 0 {
        strip_markers_from(s, i + marker_len(s, i))
    } else {
        seq![s[i]] + strip_markers_from(s, i + 1)
    }
}

/// `s` without the control markers embedded in it: scanning from the left,
/// each marker is dropped and every other character is kept.
pub open spec fn strip_markers(s: Seq<char>) -> Seq<char> {
    strip_markers_from(s, 0)
}

/// `n` marker characters from `i` on and none behind them: the run has `n`
/// characters.
pub proof fn lemma_marker_run(s: Seq<char>, i: int, n: int)
    requires
        0 <= i,
        0 <= n,
        i + n <= s.len(),
        forall|k: int| i <= k < i + n ==> is_marker_char(#[trigger] s[k]),
        i + n == s.len() || !is_marker_char(s[i + n]),
    ensures
        marker_run(s, i) == n,
    decreases n,
{
    if n > 0 {
        lemma_marker_run(s, i + 1, n - 1);
    }
}

/// What `marker_len` finds is a control marker, and every control marker
/// inside `s` is found.
pub proof fn lemma_marker_len(s: Seq<char>, i: int, j: int)
    requires
        0 <= i < j <= s.len(),
    ensures
        marker_len(s, i) == j - i <==> is_marker(s.subrange(i, j)),
{
    let t = s.subrange(i, j);
    if is_marker(t) {
        assert forall|k: int| i + 2 <= k < j - 1 implies is_marker_char(#[trigger] s[k]) by {
            assert(s[k] == t[k - i]);
        }
        assert(t.last() == s[j - 1]);
        assert(t[0] == s[i] && t[1] == s[i + 1]);
        lemma_marker_run(s, i + 2, j - i - 3);
    }
    if marker_len(s, i) == j - i {
        let n = marker_run(s, i + 2) as int;
        lemma_marker_run_chars(s, i + 2);
        assert(t[0] == s[i] && t[1] == s[i + 1]);
        assert(t.last() == s[j - 1]);
        assert forall|k: int| 2 <= k < t.len() - 1 implies is_marker_char(#[trigger] t[k]) by {
            assert(t[k] == s[i + k]);
        }
    }
}

/// The characters of a run are marker characters, and the run ends inside the
/// text.
pub proof fn lemma_marker_run_chars(s: Seq<char>, i: int)
    requires
        0 <= i,
    ensures
        i + marker_run(s, i) <= s.len() || marker_run(s, i) == 0,
        forall|k: int| i <= k < i + marker_run(s, i) ==> is_marker_char(#[trigger] s[k]),
    decreases s.len() - i,
{
    if i < s.len() && is_marker_char(s[i]) {
        lemma_marker_run_chars(s, i + 1);
    }
}

/// The characters of `v` without the control markers embedded in them.
pub fn strip_marker_chars(v: &Vec<char>) -> (out: Vec<char>)
    ensures
        out@ == strip_markers(v@),
{
    let n = v.len();
    let mut out: Vec<char> = Vec::new();
    let mut i: usize = 0;
    while i < n
        invariant
            i <= n == v.len(),
            out@ + strip_markers_from(v@, i as int) == strip_markers(v@),
        decreases n - i,
    {
        let mut skip: usize = 0;
        if n - i >= 4 && v[i] == '[' && v[i + 1] == '_' {
            let mut j: usize = i + 2;
            while j < n && marker_char(v[j])
                invariant
                    i + 2 <= j <= n == v.len(),
                    forall|k: int| i + 2 <= k < j ==> is_marker_char(#[trigger] v@[k]),
                decreases n - j,
            {
                j += 1;
            }
            proof {
                lemma_marker_run(v@, i + 2, j - (i + 2));
            }
            if j < n && j > i + 2 && v[j] == ']' {
                skip = j + 1 - i;
            }
        } else {
            proof {
                if i + 1 < n && v@[i as int] == '[' && v@[i + 1] == '_' {
                    lemma_marker_run_chars(v@, i + 2);
                }
            }
        }
        assert(skip == marker_len(v@, i as int));
        if skip > 0 {
            i += skip;
        } else {
            let ghost before = out@;
            out.push(v[i]);
            assert(out@ + strip_markers_from(v@, i + 1) =~= before + (seq![v@[i as int]]
                + strip_markers_from(v@, i + 1)));
            i += 1;
        }
    }
    assert(out@ + Seq::<char>::empty() =~= out@);
    out
}

/// `s` without the control markers embedded in it.
pub fn strip_embedded_control_markers(s: &str) -> (r: String)
    ensures
        r@ == strip_markers(s@),
{
    let v = chars_of(s);
    let out = strip_marker_chars(&v);
    assert(out@.subrange(0, out@.len() as int) =~= out@);
    string_of(&out, 0, out.len())
}

/// A raw recognition token: its text, its probability in parts per million,
/// its coarse time span and, where alignment was refined, its anchor.
#[derive(Debug, PartialEq, Eq)]
pub struct Token {
    pub text: String,
    pub probability: u32,
    pub start: i64,
    pub end: i64,
    pub anchor: Option<i64>,
}

/// The mathematical value of a [`Token`].
pub ghost struct TokenView {
    pub text: Seq<char>,
    pub probability: int,
    pub start: int,
    pub end: int,
    pub anchor: Option<int>,
}

/// The time, if there is one, as an integer.
pub open spec fn opt_time(o: Option<i64>) -> Option<int> {
    match o {
        Some(t) => Some(t as int),
        None => None,
    }
}

impl View for Token {
    type V = TokenView;

    open spec fn view(&self) -> TokenView {
        TokenView {
            text: self.text@,
            probability: self.probability as int,
            start: self.start as int,
            end: self.end as int,
            anchor: opt_time(self.anchor),
        }
    }
}

impl DeepView for Token {
    type V = TokenView;

    open spec fn deep_view(&self) -> TokenView {
        self@
    }
}

impl Clone for Token {
    fn clone(&self) -> (r: Self)
        ensures
            r == *self,
    {
        Token {
            text: self.text.clone(),
            probability: self.probability,
            start: self.start,
            end: self.end,
            anchor: self.anchor,
        }
    }
}

/// A token that survived cleaning, with its text as characters.
struct Piece {
    text: Vec<char>,
    probability: u32,
    start: i64,
    end: i64,
    anchor: Option<i64>,
}

impl View for Piece {
    type V = TokenView;

    closed spec fn view(&self) -> TokenView {
        TokenView {
            text: self.text@,
            probability: self.probability as int,
            start: self.start as int,
            end: self.end as int,
            anchor: opt_time(self.anchor),
        }
    }
}

impl DeepView for Piece {
    type V = TokenView;

    closed spec fn deep_view(&self) -> TokenView {
        self@
    }
}

/// Something other than padding is left of `s`.
pub open spec fn printable(s: Seq<char>) -> bool {
    bare(s).len() > 0
}

/// What cleaning makes of one token: nothing if it is a control marker or
/// holds nothing printable once embedded markers are gone, else the token
/// with those markers removed.
pub open spec fn clean_token(t: TokenView) -> Option<TokenView> {
    if whole_control(t.text) {
        None
    } else {
        let c = strip_markers(t.text);
        if printable(c) {
            Some(TokenView { text: c, ..t })
        } else {
            None
        }
    }
}

/// The tokens that survive cleaning, cleaned, in their order.
pub open spec fn clean_tokens(ts: Seq<TokenView>) -> Seq<TokenView>
    decreases ts.len(),
{
    if ts.len() == 0 {
        Seq::empty()
    } else {
        match clean_token(ts.last()) {
            Some(t) => clean_tokens(ts.drop_last()).push(t),
            None => clean_tokens(ts.drop_last()),
        }
    }
}

/// Where token `i` begins: halfway between its anchor and the previous
/// token's, where both have one; else at its own coarse start.
pub open spec fn token_start(ts: Seq<TokenView>, i: int) -> int {
    if i > 0 && ts[i - 1].anchor is Some && ts[i].anchor is Some {
        mid(ts[i - 1].anchor->0, ts[i].anchor->0)
    } else {
        ts[i].start
    }
}

/// Where token `i` ends: halfway between its anchor and the next token's,
/// where both have one; else at its own coarse end.
pub open spec fn token_end(ts: Seq<TokenView>, i: int) -> int {
    if i + 1 < ts.len() && ts[i].anchor is Some && ts[i + 1].anchor is Some {
        mid(ts[i].anchor->0, ts[i + 1].anchor->0)
    } else {
        ts[i].end
    }
}

/// A token whose text begins with a space or a newline begins a word.
pub open spec fn begins_word(s: Seq<char>) -> bool {
    s.len() > 0 && (s[0] == ' ' || s[0] == '\n')
}

/// The end of the run of tokens that holds token `i`: the index of the next
/// token that begins a word, or the number of tokens.
pub open spec fn run_end(ts: Seq<TokenView>, i: int) -> int
    decreases ts.len() - i,
{
    if i + 1 >= ts.len() {
        ts.len() as int
    } else if begins_word(ts[i + 1].text) {
        i + 1
    } else {
        run_end(ts, i + 1)
    }
}

/// The texts of tokens `i..j`, one after the other.
pub open spec fn run_text(ts: Seq<TokenView>, i: int, j: int) -> Seq<char>
    decreases j - i,
{
    if j <= i {
        Seq::empty()
    } else {
        run_text(ts, i, j - 1) + ts[j - 1].text
    }
}

/// The sum of the probabilities of tokens `i..j`.
pub open spec fn run_prob(ts: Seq<TokenView>, i: int, j: int) -> int
    decreases j - i,
{
    if j <= i {
        0
    } else {
        run_prob(ts, i, j - 1) + ts[j - 1].probability
    }
}

/// The word that tokens `i..j` spell, if their text is not blank: the
/// trimmed text, from the start of the first token to the end of the last,
/// with the mean of the tokens' probabilities.
pub open spec fn run_word(ts: Seq<TokenView>, i: int, j: int) -> Option<WordView> {
    let text = crate::text::trim(run_text(ts, i, j));
    if text.len() == 0 {
        None
    } else {
        Some(
            WordView {
                word: text,
                start: token_start(ts, i),
                end: token_end(ts, j - 1),
                probability: Some(run_prob(ts, i, j) / (j - i)),
            },
        )
    }
}

/// The words spelled by the runs of tokens from index `i` on.
pub open spec fn words_from(ts: Seq<TokenView>, i: int) -> Seq<WordView>
    decreases ts.len() - i,
{
    let j = run_end(ts, i);
    if i < 0 || i >= ts.len() || j <= i || j > ts.len() {
        Seq::empty()
    } else {
        match run_word(ts, i, j) {
            Some(w) => seq![w] + words_from(ts, j),
            None => words_from(ts, j),
        }
    }
}

/// The words of one hypothesis: its tokens are cleaned, cut into runs at
/// each token that begins a word, and every run with a non-blank text
/// gives one word.
pub open spec fn reconstruct(raw: Seq<TokenView>) -> Seq<WordView> {
    words_from(clean_tokens(raw), 0)
}

/// A run holds at least one token, no token inside it begins a word, and the
/// token behind it does.
pub proof fn lemma_run_end_bounds(ts: Seq<TokenView>, i: int)
    requires
        0 <= i < ts.len(),
    ensures
        i < run_end(ts, i) <= ts.len(),
        forall|k: int| i < k < run_end(ts, i) ==> !begins_word(#[trigger] ts[k].text),
        run_end(ts, i) < ts.len() ==> begins_word(ts[run_end(ts, i)].text),
    decreases ts.len() - i,
{
    if i + 1 < ts.len() && !begins_word(ts[i + 1].text) {
        lemma_run_end_bounds(ts, i + 1);
    }
}

fn clean_pieces(tokens: &Vec<Token>) -> (out: Vec<Piece>)
    ensures
        out.deep_view() == clean_tokens(tokens.deep_view()),
{
    let ghost raw = tokens.deep_view();
    let mut out: Vec<Piece> = Vec::new();
    let mut i: usize = 0;
    assert(out.deep_view() =~= Seq::<TokenView>::empty());
    while i < tokens.len()
        invariant
            i <= tokens.len(),
            raw == tokens.deep_view(),
            out.deep_view() == clean_tokens(raw.take(i as int)),
        decreases tokens.len() - i,
    {
        let t = &tokens[i];
        let v = chars_of(t.text.as_str());
        let (a, b) = bare_range(&v);
        proof {
            assert(raw.take(i + 1).drop_last() =~= raw.take(i as int));
            assert(raw.take(i + 1).last() == t@);
        }
        if !marker_range(&v, a, b) {
            let c = strip_marker_chars(&v);
            let (x, y) = bare_range(&c);
            if x < y {
                let ghost before = out.deep_view();
                let piece = Piece {
                    text: c,
                    probability: t.probability,
                    start: t.start,
                    end: t.end,
                    anchor: t.anchor,
                };
                out.push(piece);
                assert(out.deep_view() =~= before.push(clean_token(t@)->0));
            }
        }
        i += 1;
    }
    assert(raw.take(tokens.len() as int) =~= raw);
    out
}

fn piece_start(toks: &Vec<Piece>, i: usize) -> (r: i64)
    requires
        i < toks.len(),
    ensures
        r == token_start(toks.deep_view(), i as int),
{
    if i > 0 {
        match (toks[i - 1].anchor, toks[i].anchor) {
            (Some(l), Some(c)) => midpoint(l, c),
            _ => toks[i].start,
        }
    } else {
        toks[i].start
    }
}

fn piece_end(toks: &Vec<Piece>, i: usize) -> (r: i64)
    requires
        i < toks.len(),
    ensures
        r == token_end(toks.deep_view(), i as int),
{
    if i + 1 < toks.len() {
        match (toks[i].anchor, toks[i + 1].anchor) {
            (Some(c), Some(r)) => midpoint(c, r),
            _ => toks[i].end,
        }
    } else {
        toks[i].end
    }
}

fn piece_begins_word(p: &Piece) -> (r: bool)
    ensures
        r == begins_word(p@.text),
{
    p.text.len() > 0 && (p.text[0] == ' ' || p.text[0] == '\n')
}

/// Word-level timestamps of one hypothesis, from its raw tokens.
///
/// An empty token list, or one whose tokens are all control markers or
/// blank, gives no words.
pub fn get_word_timestamps(tokens: &Vec<Token>) -> (words: Vec<WordTimestamp>)
    ensures
        words.deep_view() == reconstruct(tokens.deep_view()),
{
    let toks = clean_pieces(tokens);
    let ghost ts = toks.deep_view();
    let n = toks.len();
    let mut words: Vec<WordTimestamp> = Vec::new();
    let mut i: usize = 0;
    assert(words.deep_view() + words_from(ts, 0) =~= words_from(ts, 0));
    while i < n
        invariant
            i <= n == toks.len(),
            ts == toks.deep_view(),
            words.deep_view() + words_from(ts, i as int) == words_from(ts, 0),
        decreases n - i,
    {
        let mut j: usize = i + 1;
        while j < n && !piece_begins_word(&toks[j])
            invariant
                i < j <= n == toks.len(),
                ts == toks.deep_view(),
                run_end(ts, j - 1) == run_end(ts, i as int),
            decreases n - j,
        {
            j += 1;
        }
        assert(run_end(ts, i as int) == j);
        let mut cur: Vec<char> = Vec::new();
        let mut sum: u128 = 0;
        let mut k: usize = i;
        while k < j
            invariant
                i <= k <= j <= n == toks.len(),
                ts == toks.deep_view(),
                cur@ == run_text(ts, i as int, k as int),
                sum == run_prob(ts, i as int, k as int),
                sum <= (k - i) * 0xFFFF_FFFF,
            decreases j - k,
        {
            cur.extend_from_slice(toks[k].text.as_slice());
            sum = sum + toks[k].probability as u128;
            k += 1;
        }
        assert(cur@.subrange(0, cur@.len() as int) =~= cur@);
        let (a, b) = strip_range(&cur, 0, cur.len(), CharClass::Space);
        if a < b {
            let count: u128 = (j - i) as u128;
            let mean: u128 = sum / count;
            assert(mean <= 0xFFFF_FFFF) by (nonlinear_arith)
                requires
                    mean == sum / count,
                    count > 0,
                    sum <= count * 0xFFFF_FFFF,
            ;
            let ghost before = words.deep_view();
            let w = WordTimestamp {
                word: string_of(&cur, a, b),
                start: piece_start(&toks, i),
                end: piece_end(&toks, j - 1),
                probability: Some(mean as u32),
            };
            assert(Some(w@) == run_word(ts, i as int, j as int));
            words.push(w);
            assert(words.deep_view() =~= before.push(w@));
            assert(before.push(w@) + words_from(ts, j as int) =~= before + (seq![w@] + words_from(
                ts,
                j as int,
            )));
        } else {
            assert(run_word(ts, i as int, j as int) is None);
        }
        i = j;
    }
    assert(words.deep_view() + Seq::<WordView>::empty() =~= words.deep_view());
    words
}

/// Every time that the tokens hold lies in `lo..=hi`.
pub open spec fn tokens_within(ts: Seq<TokenView>, lo: int, hi: int) -> bool {
    forall|k: int|
        0 <= k < ts.len() ==> {
            &&& lo <= (#[trigger] ts[k]).start <= hi
            &&& lo <= ts[k].end <= hi
            &&& ts[k].anchor matches Some(a) ==> lo <= a <= hi
        }
}

/// Every word begins and ends in `lo..=hi`.
pub open spec fn words_within(ws: Seq<WordView>, lo: int, hi: int) -> bool {
    forall|k: int| 0 <= k < ws.len() ==> lo <= (#[trigger] ws[k]).start <= hi && lo <= ws[k].end <= hi
}

proof fn lemma_clean_within(ts: Seq<TokenView>, lo: int, hi: int)
    requires
        tokens_within(ts, lo, hi),
    ensures
        tokens_within(clean_tokens(ts), lo, hi),
    decreases ts.len(),
{
    if ts.len() > 0 {
        let r = ts.drop_last();
        assert forall|k: int| 0 <= k < r.len() implies {
            &&& lo <= (#[trigger] r[k]).start <= hi
            &&& lo <= r[k].end <= hi
            &&& r[k].anchor matches Some(a) ==> lo <= a <= hi
        } by {
            assert(r[k] == ts[k]);
        }
        lemma_clean_within(r, lo, hi);
        assert(ts.last() == ts[ts.len() - 1]);
    }
}

proof fn lemma_words_within(ts: Seq<TokenView>, i: int, lo: int, hi: int)
    requires
        tokens_within(ts, lo, hi),
        0 <= i,
    ensures
        words_within(words_from(ts, i), lo, hi),
    decreases ts.len() - i,
{
    let j = run_end(ts, i);
    if i < ts.len() && i < j && j <= ts.len() {
        lemma_words_within(ts, j, lo, hi);
        let _ = ts[i];
        let _ = ts[j - 1];
        if i > 0 {
            let _ = ts[i - 1];
        }
        if j < ts.len() {
            let _ = ts[j];
        }
    }
}

/// The words of a hypothesis begin and end within the span that holds all
/// the times of its tokens.
pub proof fn lemma_reconstruct_within(raw: Seq<TokenView>, lo: int, hi: int)
    requires
        tokens_within(raw, lo, hi),
    ensures
        words_within(reconstruct(raw), lo, hi),
{
    lemma_clean_within(raw, lo, hi);
    lemma_words_within(clean_tokens(raw), 0, lo, hi);
}

/// A token without an anchor that cleaning keeps as it is: it holds no
/// control marker and something printable.
pub open spec fn plain(t: TokenView) -> bool {
    t.anchor is None && clean_token(t) == Some(t)
}

/// Every token is plain.
pub open spec fn all_plain(ts: Seq<TokenView>) -> bool {
    forall|k: int| 0 <= k < ts.len() ==> plain(#[trigger] ts[k])
}

/// A run of tokens begins with token `i`: it is the first token, or its
/// text begins with a space or a newline.
pub open spec fn starts_run(ts: Seq<TokenView>, i: int) -> bool {
    i == 0 || begins_word(ts[i].text)
}

/// How many runs begin before token `i`.
pub open spec fn runs_before(ts: Seq<TokenView>, i: int) -> nat
    decreases i,
{
    if i <= 0 {
        0
    } else {
        runs_before(ts, i - 1) + if starts_run(ts, i - 1) {
            1nat
        } else {
            0nat
        }
    }
}

proof fn lemma_clean_plain(ts: Seq<TokenView>)
    requires
        all_plain(ts),
    ensures
        clean_tokens(ts) == ts,
    decreases ts.len(),
{
    if ts.len() > 0 {
        let r = ts.drop_last();
        assert forall|k: int| 0 <= k < r.len() implies plain(#[trigger] r[k]) by {
            assert(r[k] == ts[k]);
        }
        lemma_clean_plain(r);
        assert(plain(ts[ts.len() - 1]));
        assert(r.push(ts.last()) =~= ts);
    } else {
        assert(ts =~= Seq::<TokenView>::empty());
    }
}

proof fn lemma_printable_not_blank(s: Seq<char>)
    requires
        printable(s),
    ensures
        !is_blank(s),
{
    let u = strip(s, CharClass::Nul);
    let f = strip_front(u, CharClass::Space);
    lemma_leading_bound(u, CharClass::Space);
    lemma_trailing_bound(f, CharClass::Space);
    let a = leading(u, CharClass::Space) as int;
    assert(a < u.len());
    assert(!is_space(u[a]));
    let g = strip_front(s, CharClass::Nul);
    lemma_leading_bound(s, CharClass::Nul);
    lemma_trailing_bound(g, CharClass::Nul);
    let b = leading(s, CharClass::Nul) as int;
    assert(u[a] == g[a]);
    assert(g[a] == s[b + a]);
}

proof fn lemma_run_text_not_blank(ts: Seq<TokenView>, i: int, j: int)
    requires
        0 <= i < j <= ts.len(),
        !is_blank(ts[i].text),
    ensures
        !is_blank(run_text(ts, i, j)),
    decreases j - i,
{
    let a = run_text(ts, i, j - 1);
    let b = ts[j - 1].text;
    if is_blank(a + b) {
        if j - 1 == i {
            assert(a =~= Seq::<char>::empty());
            assert forall|k: int| 0 <= k < b.len() implies is_space(#[trigger] b[k]) by {
                assert((a + b)[k] == b[k]);
            }
        } else {
            lemma_run_text_not_blank(ts, i, j - 1);
            assert forall|k: int| 0 <= k < a.len() implies is_space(#[trigger] a[k]) by {
                assert((a + b)[k] == a[k]);
            }
        }
    }
}

proof fn lemma_runs_flat(ts: Seq<TokenView>, i: int, k: int)
    requires
        0 <= i < k,
        starts_run(ts, i),
        forall|m: int| i < m < k ==> !starts_run(ts, m),
    ensures
        runs_before(ts, k) == runs_before(ts, i) + 1,
    decreases k - i,
{
    if k > i + 1 {
        lemma_runs_flat(ts, i, k - 1);
    }
}

proof fn lemma_runs_monotone(ts: Seq<TokenView>, a: int, b: int)
    requires
        a <= b,
    ensures
        runs_before(ts, a) <= runs_before(ts, b),
    decreases b - a,
{
    if a < b {
        lemma_runs_monotone(ts, a, b - 1);
    }
}

proof fn lemma_words_at(ts: Seq<TokenView>, t: int, i: int)
    requires
        all_plain(ts),
        0 <= t <= i < ts.len(),
        starts_run(ts, t),
        starts_run(ts, i),
    ensures
        words_from(ts, t).len() == runs_before(ts, ts.len() as int) - runs_before(ts, t),
        runs_before(ts, i) - runs_before(ts, t) < words_from(ts, t).len(),
        Some(words_from(ts, t)[runs_before(ts, i) - runs_before(ts, t)]) == run_word(
            ts,
            i,
            run_end(ts, i),
        ),
    decreases ts.len() - t,
{
    let j = run_end(ts, t);
    lemma_run_end_bounds(ts, t);
    assert(plain(ts[t]));
    lemma_printable_not_blank(ts[t].text);
    lemma_run_text_not_blank(ts, t, j);
    lemma_trim_blank(run_text(ts, t, j));
    assert(run_word(ts, t, j) is Some);
    assert forall|m: int| t < m < j implies !starts_run(ts, m) by {
        assert(!begins_word(ts[m].text));
    }
    lemma_runs_flat(ts, t, j);
    let w = run_word(ts, t, j)->0;
    let rest = words_from(ts, j);
    assert(words_from(ts, t) == seq![w] + rest);
    if j < ts.len() {
        if t == i {
            lemma_words_at(ts, j, j);
        } else {
            assert(i >= j);
            lemma_words_at(ts, j, i);
            lemma_runs_monotone(ts, j, i);
            let p = runs_before(ts, i) - runs_before(ts, t);
            assert((seq![w] + rest)[p] == rest[p - 1]);
        }
    } else {
        assert(rest =~= Seq::<WordView>::empty());
        assert(t == i) by {
            if t < i {
                assert(!starts_run(ts, i));
            }
        }
    }
}

/// From tokens that have no anchors and that cleaning keeps as they are,
/// every run of tokens gives exactly one word: the word of the run that
/// begins with token `i` stands at the place of that run among the runs,
/// holds the trimmed text of the run, begins where the first token of the
/// run begins and ends where the last one ends.
pub proof fn lemma_plain_runs(ts: Seq<TokenView>, i: int)
    requires
        all_plain(ts),
        0 <= i < ts.len(),
        starts_run(ts, i),
    ensures
        reconstruct(ts).len() == runs_before(ts, ts.len() as int),
        runs_before(ts, i) < reconstruct(ts).len(),
        reconstruct(ts)[runs_before(ts, i) as int].word == trim(run_text(ts, i, run_end(ts, i))),
        reconstruct(ts)[runs_before(ts, i) as int].start == ts[i].start,
        reconstruct(ts)[runs_before(ts, i) as int].end == ts[run_end(ts, i) - 1].end,
{
    lemma_clean_plain(ts);
    lemma_words_at(ts, 0, i);
    lemma_run_end_bounds(ts, i);
    assert(plain(ts[i]));
    assert(plain(ts[run_end(ts, i) - 1]));
    if i > 0 {
        assert(plain(ts[i - 1]));
    }
    if run_end(ts, i) < ts.len() {
        assert(plain(ts[run_end(ts, i)]));
    }
}

} // verus!
