//! What the translation of a transcript needs besides the network: the
//! language codes the service takes, the reading of its replies, the
//! policy of retries, and the words of a translated segment.

use vstd::prelude::*;
use crate::text::{
    chars_of, fields, is_blank, lower, lowered, range_equals, split_fields, string_of, strip_range,
    to_lower, trim, views, CharClass,
};
use crate::types::{time_ok, Segment, SegmentView, WordTimestamp, WordView, TIME_LIMIT};

verus! {

/// Whether `v[lo..hi]` is the text `lit`, whatever the case of its ASCII
/// letters, where `lit` is in lower case.
fn range_is_lower(v: &Vec<char>, lo: usize, hi: usize, lit: &Vec<char>) -> (r: bool)
    requires
        lo <= hi <= v.len(),
    ensures
        r == (lowered(v@.subrange(lo as int, hi as int)) == lit@),
{
    let ghost w = lowered(v@.subrange(lo as int, hi as int));
    if hi - lo != lit.len() {
        return false;
    }
    let mut i: usize = 0;
    while i < lit.len()
        invariant
            i <= lit.len() == hi - lo,
            hi <= v.len(),
            w == lowered(v@.subrange(lo as int, hi as int)),
            forall|k: int| 0 <= k < i ==> w[k] == lit@[k],
        decreases lit.len() - i,
    {
        assert(w[i as int] == lower(v@[lo + i]));
        if to_lower(v[lo + i]) != lit[i] {
            return false;
        }
        i += 1;
    }
    assert(w =~= lit@);
    true
}

/// The code that the translation service takes for the language `code`:
/// the code without white space around it, except that `auto` is in lower
/// case, Javanese is `jv`, Cantonese is traditional Chinese, and Nynorsk
/// as a target is Norwegian.
pub open spec fn normalized_lang(code: Seq<char>, is_target: bool) -> Seq<char> {
    let c = trim(code);
    if lowered(c) == seq!['a', 'u', 't', 'o'] {
        seq!['a', 'u', 't', 'o']
    } else if c == seq!['j', 'w'] {
        seq!['j', 'v']
    } else if c == seq!['y', 'u', 'e'] {
        seq!['z', 'h', '-', 'T', 'W']
    } else if is_target && c == seq!['n', 'n'] {
        seq!['n', 'o']
    } else {
        c
    }
}

fn text_of(v: &Vec<char>) -> (s: String)
    ensures
        s@ == v@,
{
    assert(v@.subrange(0, v@.len() as int) =~= v@);
    string_of(v, 0, v.len())
}

/// The code that the translation service takes for the language `code`.
pub fn normalize_google_lang(code: &str, is_target: bool) -> (r: String)
    ensures
        r@ == normalized_lang(code@, is_target),
{
    let v = chars_of(code);
    assert(v@.subrange(0, v@.len() as int) =~= v@);
    let (a, b) = strip_range(&v, 0, v.len(), CharClass::Space);
    let auto = vec!['a', 'u', 't', 'o'];
    let jw = vec!['j', 'w'];
    let yue = vec!['y', 'u', 'e'];
    let nn = vec!['n', 'n'];
    assert(auto@ =~= seq!['a', 'u', 't', 'o']);
    assert(jw@ =~= seq!['j', 'w']);
    assert(yue@ =~= seq!['y', 'u', 'e']);
    assert(nn@ =~= seq!['n', 'n']);
    if range_is_lower(&v, a, b, &auto) {
        text_of(&auto)
    } else if range_equals(&v, a, b, &jw) {
        let jv = vec!['j', 'v'];
        assert(jv@ =~= seq!['j', 'v']);
        text_of(&jv)
    } else if range_equals(&v, a, b, &yue) {
        let zh = vec!['z', 'h', '-', 'T', 'W'];
        assert(zh@ =~= seq!['z', 'h', '-', 'T', 'W']);
        text_of(&zh)
    } else if is_target && range_equals(&v, a, b, &nn) {
        let no = vec!['n', 'o'];
        assert(no@ =~= seq!['n', 'o']);
        text_of(&no)
    } else {
        string_of(&v, a, b)
    }
}

/// A parsed JSON document, which the library reads through its texts and
/// the lengths of its arrays.
#[verifier::external_type_specification]
#[verifier::external_body]
pub struct ExJsonValue(serde_json::Value);

/// Why a text is no JSON document.
#[verifier::external_type_specification]
#[verifier::external_body]
pub struct ExJsonError(serde_json::Error);

/// A place in a JSON document: the indices that lead to it from the root,
/// through arrays only.
pub type Path = Seq<int>;

/// The strings of a JSON document, each at its place.
pub uninterp spec fn json_texts(v: serde_json::Value) -> Map<Path, Seq<char>>;

/// The lengths of the arrays of a JSON document, each at its place.
pub uninterp spec fn json_lens(v: serde_json::Value) -> Map<Path, int>;

/// What a text holds as a JSON document, if it is one: its strings and
/// the lengths of its arrays.
pub uninterp spec fn json_parsed(body: Seq<char>) -> Option<(Map<Path, Seq<char>>, Map<Path, int>)>;

/// What lies under index `i` of the root, with places as seen from there.
pub open spec fn under<V>(m: Map<Path, V>, i: int) -> Map<Path, V> {
    Map::new(|p: Path| m.contains_key(seq![i] + p), |p: Path| m[seq![i] + p])
}

/// The root of the document.
pub open spec fn root() -> Path {
    Seq::empty()
}

/// Calls `serde_json::from_str` for a `Value`: either the text is a JSON
/// document, and the value holds its strings and array lengths, or it is
/// none, and an error comes back.
#[verifier::external_body]
fn parse_value(body: &str) -> (r: Result<serde_json::Value, serde_json::Error>)
    ensures
        match r {
            Ok(v) => json_parsed(body@) == Some((json_texts(v), json_lens(v))),
            Err(_) => json_parsed(body@) is None,
        },
{
    serde_json::from_str::<serde_json::Value>(body)
}

/// Calls `Value::as_str`: the string, if the value is one. A string stands
/// at the root of its own document.
#[verifier::external_body]
fn value_text(v: &serde_json::Value) -> (r: Option<String>)
    ensures
        match r {
            Some(s) => json_texts(*v).contains_key(root()) && json_texts(*v)[root()] == s@,
            None => !json_texts(*v).contains_key(root()),
        },
{
    v.as_str().map(|s| s.to_string())
}

/// Calls `Value::as_array` for the length: the number of elements, if the
/// value is an array.
#[verifier::external_body]
fn value_len(v: &serde_json::Value) -> (r: Option<usize>)
    ensures
        match r {
            Some(n) => json_lens(*v).contains_key(root()) && json_lens(*v)[root()] == n,
            None => !json_lens(*v).contains_key(root()),
        },
{
    v.as_array().map(|a| a.len())
}

/// Calls `Value::get` with an index: the element at the index, if the
/// value is an array that long. The element holds what the value holds
/// under the index; where there is no element, the value holds nothing
/// under the index.
#[verifier::external_body]
fn value_get<'a>(v: &'a serde_json::Value, i: usize) -> (r: Option<&'a serde_json::Value>)
    ensures
        match r {
            Some(c) => {
                &&& json_texts(*c) == under(json_texts(*v), i as int)
                &&& json_lens(*c) == under(json_lens(*v), i as int)
                &&& json_lens(*v).contains_key(root())
                &&& i < json_lens(*v)[root()]
            },
            None => {
                &&& under(json_texts(*v), i as int) == Map::<Path, Seq<char>>::empty()
                &&& under(json_lens(*v), i as int) == Map::<Path, int>::empty()
                &&& json_lens(*v).contains_key(root()) ==> i >= json_lens(*v)[root()]
            },
        },
{
    v.get(i)
}

/// The string at the root of what `m` holds, or the empty text.
pub open spec fn leaf(m: Map<Path, Seq<char>>) -> Seq<char> {
    if m.contains_key(root()) {
        m[root()]
    } else {
        Seq::empty()
    }
}

/// The piece of translated text that an item of a reply holds: the string
/// that is its first element.
pub open spec fn piece(item: Map<Path, Seq<char>>) -> Seq<char> {
    leaf(under(item, 0))
}

/// The pieces of the first `n` items of a block, one after the other.
pub open spec fn pieces(block: Map<Path, Seq<char>>, n: int) -> Seq<char>
    decreases n,
{
    if n <= 0 {
        Seq::empty()
    } else {
        pieces(block, n - 1) + piece(under(block, n - 1))
    }
}

/// The text that a block of a reply holds: the pieces of its items, if it
/// is an array.
pub open spec fn block_text(texts: Map<Path, Seq<char>>, lens: Map<Path, int>) -> Seq<char> {
    if lens.contains_key(root()) {
        pieces(texts, lens[root()])
    } else {
        Seq::empty()
    }
}

/// The first piece of the first block of a reply, or the empty text.
pub open spec fn first_piece(texts: Map<Path, Seq<char>>) -> Seq<char> {
    leaf(under(under(under(texts, 0), 0), 0))
}

/// Why a reply of the translation service could not be read.
#[derive(Clone, Copy, Debug, PartialEq, Eq, Structural)]
pub enum ReplyError {
    /// The reply is no JSON document.
    NotJson,
    /// The reply is not an array.
    UnexpectedShape,
}

impl ReplyError {
    /// What the error says.
    pub open spec fn text(self) -> Seq<char> {
        match self {
            ReplyError::NotJson => "translation response is not JSON"@,
            ReplyError::UnexpectedShape => "Unexpected translation response shape"@,
        }
    }

    /// What the error says.
    pub fn message(&self) -> (r: String)
        ensures
            r@ == self.text(),
    {
        match self {
            ReplyError::NotJson => "translation response is not JSON".to_owned(),
            ReplyError::UnexpectedShape => "Unexpected translation response shape".to_owned(),
        }
    }
}

fn piece_of(item: &serde_json::Value) -> (r: String)
    ensures
        r@ == piece(json_texts(*item)),
{
    match value_get(item, 0) {
        Some(first) => match value_text(first) {
            Some(s) => s,
            None => String::new(),
        },
        None => {
            assert(!under(json_texts(*item), 0).contains_key(root()));
            String::new()
        },
    }
}

/// The text that a block of a reply holds.
pub fn block_of(block: &serde_json::Value) -> (r: String)
    ensures
        r@ == block_text(json_texts(*block), json_lens(*block)),
{
    let mut out = String::new();
    match value_len(block) {
        Some(n) => {
            let mut k: usize = 0;
            while k < n
                invariant
                    k <= n,
                    json_lens(*block).contains_key(root()),
                    json_lens(*block)[root()] == n,
                    out@ == pieces(json_texts(*block), k as int),
                decreases n - k,
            {
                match value_get(block, k) {
                    Some(item) => {
                        let p = piece_of(item);
                        out.append(p.as_str());
                    },
                    None => {},
                }
                k += 1;
            }
            out
        },
        None => out,
    }
}

/// The first piece of the first block of a parsed reply.
pub fn first_piece_of(v: &serde_json::Value) -> (r: String)
    ensures
        r@ == first_piece(json_texts(*v)),
{
    let ghost t = json_texts(*v);
    match value_get(v, 0) {
        Some(a) => match value_get(a, 0) {
            Some(b) => match value_get(b, 0) {
                Some(c) => match value_text(c) {
                    Some(s) => s,
                    None => String::new(),
                },
                None => {
                    assert(!under(under(under(t, 0), 0), 0).contains_key(root()));
                    String::new()
                },
            },
            None => {
                assert(under(under(t, 0), 0) == Map::<Path, Seq<char>>::empty());
                assert(!under(under(under(t, 0), 0), 0).contains_key(root()));
                String::new()
            },
        },
        None => {
            assert(under(t, 0) == Map::<Path, Seq<char>>::empty());
            assert(!under(under(t, 0), 0).contains_key(seq![0int] + root()));
            assert(!under(under(under(t, 0), 0), 0).contains_key(root()));
            String::new()
        },
    }
}

/// The translated text in the reply to a request with one text: the first
/// piece of the first block; an error if the reply is no JSON document.
pub fn read_translation(body: &str) -> (r: Result<String, ReplyError>)
    ensures
        match r {
            Ok(s) => json_parsed(body@) matches Some(d) && s@ == first_piece(d.0),
            Err(e) => json_parsed(body@) is None && e == ReplyError::NotJson,
        },
{
    match parse_value(body) {
        Ok(v) => Ok(first_piece_of(&v)),
        Err(_) => Err(ReplyError::NotJson),
    }
}

/// The reply has the shape of a reply to one text: the first item of its
/// first block is an array that begins with a string.
pub open spec fn single_shape(texts: Map<Path, Seq<char>>, lens: Map<Path, int>) -> bool {
    under(under(lens, 0), 0).contains_key(root()) && under(under(under(texts, 0), 0), 0).contains_key(
        root(),
    )
}

/// The translations that a reply to `n` texts holds. A reply in the shape
/// of a reply to one text gives its one text first and empty texts for
/// the rest; any other array gives the text of each of its elements.
pub open spec fn translations(
    texts: Map<Path, Seq<char>>,
    lens: Map<Path, int>,
    n: int,
) -> Seq<Seq<char>> {
    if single_shape(texts, lens) {
        Seq::new(
            n as nat,
            |i: int|
                if i == 0 {
                    block_text(under(texts, 0), under(lens, 0))
                } else {
                    Seq::empty()
                },
        )
    } else {
        Seq::new(
            lens[root()] as nat,
            |e: int| block_text(under(under(texts, e), 0), under(under(lens, e), 0)),
        )
    }
}

fn is_single_shape(v: &serde_json::Value) -> (r: bool)
    ensures
        r == single_shape(json_texts(*v), json_lens(*v)),
{
    let ghost t = json_texts(*v);
    let ghost l = json_lens(*v);
    match value_get(v, 0) {
        Some(a) => match value_get(a, 0) {
            Some(b) => match value_len(b) {
                Some(_) => match value_get(b, 0) {
                    Some(c) => value_text(c).is_some(),
                    None => {
                        assert(!under(under(under(t, 0), 0), 0).contains_key(root()));
                        false
                    },
                },
                None => false,
            },
            None => {
                assert(!under(under(l, 0), 0).contains_key(root()));
                false
            },
        },
        None => {
            assert(!under(under(l, 0), 0).contains_key(root()));
            false
        },
    }
}

/// The text of the first block of element `e` of the reply.
fn element_text(v: &serde_json::Value, e: usize) -> (r: String)
    ensures
        r@ == block_text(
            under(under(json_texts(*v), e as int), 0),
            under(under(json_lens(*v), e as int), 0),
        ),
{
    let ghost t = json_texts(*v);
    let ghost l = json_lens(*v);
    match value_get(v, e) {
        Some(elem) => match value_get(elem, 0) {
            Some(block) => block_of(block),
            None => {
                assert(!under(under(l, e as int), 0).contains_key(root()));
                String::new()
            },
        },
        None => {
            assert(!under(under(l, e as int), 0).contains_key(root()));
            String::new()
        },
    }
}

/// The translations in a parsed reply to `n` texts.
pub fn translations_of(v: &serde_json::Value, n: usize) -> (r: Result<Vec<String>, ReplyError>)
    requires
        n > 0,
    ensures
        match r {
            Ok(out) => json_lens(*v).contains_key(root()) && out.deep_view() == translations(
                json_texts(*v),
                json_lens(*v),
                n as int,
            ),
            Err(e) => !json_lens(*v).contains_key(root()) && e == ReplyError::UnexpectedShape,
        },
{
    let ghost t = json_texts(*v);
    let ghost l = json_lens(*v);
    let top = match value_len(v) {
        Some(top) => top,
        None => {
            return Err(ReplyError::UnexpectedShape);
        },
    };
    let ghost want = translations(t, l, n as int);
    let mut out: Vec<String> = Vec::new();
    if is_single_shape(v) {
        let first = match value_get(v, 0) {
            Some(block) => block_of(block),
            None => {
                assert(!under(l, 0).contains_key(root()));
                String::new()
            },
        };
        out.push(first);
        assert(out.deep_view() =~= want.take(1));
        let mut i: usize = 1;
        while i < n
            invariant
                1 <= i <= n,
                want.len() == n,
                forall|k: int| 1 <= k < n ==> want[k] == Seq::<char>::empty(),
                out.deep_view() == want.take(i as int),
            decreases n - i,
        {
            let ghost before = out.deep_view();
            out.push(String::new());
            assert(out.deep_view() =~= before.push(Seq::<char>::empty()));
            assert(want.take(i + 1) =~= want.take(i as int).push(want[i as int]));
            i += 1;
        }
        assert(want.take(n as int) =~= want);
    } else {
        let mut e: usize = 0;
        assert(out.deep_view() =~= want.take(0));
        while e < top
            invariant
                e <= top,
                want.len() == top,
                t == json_texts(*v),
                l == json_lens(*v),
                forall|k: int|
                    0 <= k < top ==> want[k] == block_text(
                        under(under(t, k), 0),
                        under(under(l, k), 0),
                    ),
                out.deep_view() == want.take(e as int),
            decreases top - e,
        {
            let ghost before = out.deep_view();
            let s = element_text(v, e);
            out.push(s);
            assert(out.deep_view() =~= before.push(want[e as int]));
            assert(want.take(e + 1) =~= want.take(e as int).push(want[e as int]));
            e += 1;
        }
        assert(want.take(top as int) =~= want);
    }
    Ok(out)
}

/// The translations in the reply to a request with `n` texts.
pub fn read_translations(body: &str, n: usize) -> (r: Result<Vec<String>, ReplyError>)
    requires
        n > 0,
    ensures
        match r {
            Ok(out) => json_parsed(body@) matches Some(d) && d.1.contains_key(root())
                && out.deep_view() == translations(d.0, d.1, n as int),
            Err(e) => match json_parsed(body@) {
                Some(d) => !d.1.contains_key(root()) && e == ReplyError::UnexpectedShape,
                None => e == ReplyError::NotJson,
            },
        },
{
    match parse_value(body) {
        Ok(v) => translations_of(&v, n),
        Err(_) => Err(ReplyError::NotJson),
    }
}

/// How often a request is tried again.
pub const MAX_RETRIES: u32 = 3;

/// What to do after a request failed.
#[derive(Clone, Copy, Debug, PartialEq, Eq, Structural)]
pub enum Verdict {
    /// Wait this many milliseconds, then try again.
    Retry(u64),
    /// Give up: every retry is spent.
    GiveUp,
    /// Give up at once: trying again would not help.
    Reject,
}

/// The wait before the retry that follows attempt `attempt`: 200 ms,
/// doubled with every attempt.
pub open spec fn backoff_ms(attempt: u32) -> int {
    if attempt == 0 {
        200
    } else if attempt == 1 {
        400
    } else {
        800
    }
}

/// The service took the request.
pub open spec fn is_success(status: u16) -> bool {
    200 <= status <= 299
}

/// The service may take the request if it is sent again: it is busy, or
/// it failed.
pub open spec fn is_retryable(status: u16) -> bool {
    status == 429 || (500 <= status <= 599)
}

/// What to do after the service answered attempt `attempt` with a status
/// other than success.
pub open spec fn verdict_on_status(status: u16, attempt: u32) -> Verdict {
    if !is_retryable(status) {
        Verdict::Reject
    } else if attempt >= MAX_RETRIES {
        Verdict::GiveUp
    } else {
        Verdict::Retry(backoff_ms(attempt) as u64)
    }
}

/// Whether the service took the request.
pub fn status_is_success(status: u16) -> (r: bool)
    ensures
        r == is_success(status),
{
    200 <= status && status <= 299
}

/// What to do after the service answered attempt `attempt` with a status
/// other than success.
pub fn after_status(status: u16, attempt: u32) -> (r: Verdict)
    requires
        !is_success(status),
    ensures
        r == verdict_on_status(status, attempt),
{
    if !(status == 429 || (500 <= status && status <= 599)) {
        Verdict::Reject
    } else if attempt >= MAX_RETRIES {
        Verdict::GiveUp
    } else {
        Verdict::Retry(backoff(attempt))
    }
}

/// What to do after attempt `attempt` did not reach the service.
pub fn after_transport_error(attempt: u32) -> (r: Verdict)
    ensures
        r == if attempt >= MAX_RETRIES {
            Verdict::GiveUp
        } else {
            Verdict::Retry(backoff_ms(attempt) as u64)
        },
{
    if attempt >= MAX_RETRIES {
        Verdict::GiveUp
    } else {
        Verdict::Retry(backoff(attempt))
    }
}

fn backoff(attempt: u32) -> (r: u64)
    requires
        attempt < MAX_RETRIES,
    ensures
        r == backoff_ms(attempt),
{
    if attempt == 0 {
        200
    } else if attempt == 1 {
        400
    } else {
        800
    }
}

/// The progress to report when `completed` of `total` texts are
/// translated: the share in percent, rounded to the nearest, but 99 at
/// most, since 100 is reported when all is applied.
pub open spec fn translation_percent(completed: int, total: int) -> int {
    let p = (200 * completed + total) / (2 * total);
    if p > 99 {
        99
    } else {
        p
    }
}

/// The progress to report when `completed` of `total` texts are translated.
pub fn percent_translated(completed: usize, total: usize) -> (r: u32)
    requires
        0 < total,
        completed <= total,
    ensures
        r == translation_percent(completed as int, total as int),
        r <= 99,
{
    let c: u128 = completed as u128;
    let t: u128 = total as u128;
    let p: u128 = (200 * c + t) / (2 * t);
    if p > 99 {
        99
    } else {
        p as u32
    }
}

/// The words of a translated text, tiling the span from `start` to `end`
/// in equal parts.
pub open spec fn uniform_words(texts: Seq<Seq<char>>, start: int, end: int) -> Seq<WordView> {
    Seq::new(
        texts.len(),
        |i: int|
            WordView {
                word: texts[i],
                start: start + (end - start) * i / (texts.len() as int),
                end: start + (end - start) * (i + 1) / (texts.len() as int),
                probability: None,
            },
    )
}

/// The segment with its words made anew from its text: the fields of the
/// text, tiling the span of the segment in equal parts. A segment that
/// ends before it starts counts as empty at its start.
pub open spec fn with_uniform_words(s: SegmentView) -> SegmentView {
    let end = if s.end >= s.start {
        s.end
    } else {
        s.start
    };
    SegmentView { words: Some(uniform_words(fields(s.text), s.start, end)), ..s }
}

proof fn lemma_share(dur: int, i: int, n: int)
    requires
        0 <= dur,
        0 <= i <= n,
        0 < n,
    ensures
        0 <= dur * i / n <= dur,
{
    assert(0 <= dur * i <= dur * n) by (nonlinear_arith)
        requires
            0 <= dur,
            0 <= i <= n,
    ;
    assert(dur * i / n <= dur) by (nonlinear_arith)
        requires
            0 <= dur * i <= dur * n,
            0 < n,
    ;
    assert(0 <= dur * i / n) by (nonlinear_arith)
        requires
            0 <= dur * i,
            0 < n,
    ;
}

/// Makes the words of the segment anew from its text, with times spread
/// evenly over the span of the segment.
pub fn regenerate_words_uniform(seg: &mut Segment)
    requires
        time_ok(old(seg).start as int),
        time_ok(old(seg).end as int),
    ensures
        final(seg)@ == with_uniform_words(old(seg)@),
{
    let ghost s0 = seg@;
    let start = seg.start;
    let end = if seg.end >= start {
        seg.end
    } else {
        start
    };
    let dur: i128 = (end - start) as i128;
    let mut words: Vec<WordTimestamp> = Vec::new();
    {
        let tokens = split_fields(seg.text.as_str());
        let n = tokens.len();
        let ghost texts = fields(s0.text);
        let ghost want = uniform_words(texts, start as int, end as int);
        let mut i: usize = 0;
        assert(words.deep_view() =~= want.take(0));
        while i < n
            invariant
                i <= n == tokens.len(),
                views(tokens@) == texts,
                want == uniform_words(texts, start as int, end as int),
                0 <= dur == end - start,
                dur <= 2 * TIME_LIMIT,
                time_ok(start as int),
                words.deep_view() == want.take(i as int),
            decreases n - i,
        {
            let ghost before = words.deep_view();
            proof {
                lemma_share(dur as int, i as int, n as int);
                lemma_share(dur as int, i + 1, n as int);
                assert(dur * i <= 0x10_0000_0000_0000 * 0xFFFF_FFFF_FFFF_FFFF) by (nonlinear_arith)
                    requires
                        0 <= dur <= 0x10_0000_0000_0000,
                        0 <= i <= 0xFFFF_FFFF_FFFF_FFFF,
                ;
                assert(dur * (i + 1) <= 0x10_0000_0000_0000 * 0x1_0000_0000_0000_0000)
                    by (nonlinear_arith)
                    requires
                        0 <= dur <= 0x10_0000_0000_0000,
                        0 <= i + 1 <= 0x1_0000_0000_0000_0000,
                ;
                assert(views(tokens@)[i as int] == tokens@[i as int]@);
            }
            let t0: i128 = start as i128 + dur * (i as i128) / (n as i128);
            let t1: i128 = start as i128 + dur * (i as i128 + 1) / (n as i128);
            let w = WordTimestamp {
                word: tokens[i].to_owned(),
                start: t0 as i64,
                end: t1 as i64,
                probability: None,
            };
            assert(w@ == want[i as int]);
            words.push(w);
            assert(words.deep_view() =~= before.push(want[i as int]));
            assert(want.take(i + 1) =~= want.take(i as int).push(want[i as int]));
            i += 1;
        }
        assert(want.take(n as int) =~= want);
    }
    seg.words = Some(words);
}

/// The places and the texts of the segments that are to be translated:
/// those whose text is not blank, with the white space around the text
/// taken off.
pub open spec fn inputs_upto(segs: Seq<SegmentView>, n: int) -> Seq<(int, Seq<char>)>
    decreases n,
{
    if n <= 0 {
        Seq::empty()
    } else if is_blank(segs[n - 1].text) {
        inputs_upto(segs, n - 1)
    } else {
        inputs_upto(segs, n - 1).push((n - 1, trim(segs[n - 1].text)))
    }
}

/// The places of the segments that are to be translated, and their texts.
pub fn translation_inputs(segments: &[Segment]) -> (r: (Vec<usize>, Vec<String>))
    ensures
        r.0.len() == r.1.len(),
        r.0.len() == inputs_upto(segments.deep_view(), segments.len() as int).len(),
        forall|k: int|
            0 <= k < r.0.len() ==> (r.0[k] as int, r.1[k]@) == #[trigger] inputs_upto(
                segments.deep_view(),
                segments.len() as int,
            )[k],
        forall|k: int| 0 <= k < r.0.len() ==> #[trigger] r.0[k] < segments.len(),
{
    let ghost segs = segments.deep_view();
    let mut places: Vec<usize> = Vec::new();
    let mut texts: Vec<String> = Vec::new();
    let mut i: usize = 0;
    while i < segments.len()
        invariant
            i <= segments.len(),
            segs == segments.deep_view(),
            places.len() == texts.len(),
            places.len() == inputs_upto(segs, i as int).len(),
            forall|k: int|
                0 <= k < places.len() ==> (places[k] as int, texts[k]@) == #[trigger] inputs_upto(
                    segs,
                    i as int,
                )[k],
            forall|k: int| 0 <= k < places.len() ==> #[trigger] places[k] < i,
        decreases segments.len() - i,
    {
        let v = chars_of(segments[i].text.as_str());
        assert(segs[i as int] == segments@[i as int]@);
        assert(v@.subrange(0, v@.len() as int) =~= v@);
        let (a, b) = strip_range(&v, 0, v.len(), CharClass::Space);
        proof {
            crate::text::lemma_trim_blank(v@);
        }
        if a < b {
            places.push(i);
            texts.push(string_of(&v, a, b));
        }
        i += 1;
    }
    (places, texts)
}

/// The segment with the text `text` in place of its own, and its words
/// made anew from that text.
pub open spec fn translated(s: SegmentView, text: Seq<char>) -> SegmentView {
    with_uniform_words(SegmentView { text, ..s })
}

/// The segments after the first `k` results are put back: result `j` is
/// for the segment at `places[j]`; where there is a text, the segment is
/// translated, and where there is none, it is left as it is.
pub open spec fn applied(
    segs: Seq<SegmentView>,
    places: Seq<usize>,
    results: Seq<Option<Seq<char>>>,
    k: int,
) -> Seq<SegmentView>
    decreases k,
{
    if k <= 0 {
        segs
    } else {
        let before = applied(segs, places, results, k - 1);
        match results[k - 1] {
            Some(text) => before.update(
                places[k - 1] as int,
                translated(before[places[k - 1] as int], text),
            ),
            None => before,
        }
    }
}

/// The start and the end of every segment are within the time limit.
pub open spec fn spans_in_time(segs: Seq<SegmentView>) -> bool {
    forall|i: int| 0 <= i < segs.len() ==> time_ok((#[trigger] segs[i]).start) && time_ok(segs[i].end)
}

/// Whether the start and the end of every segment are within the time
/// limit.
pub fn segments_in_time(segments: &[Segment]) -> (r: bool)
    ensures
        r == spans_in_time(segments.deep_view()),
{
    let ghost segs = segments.deep_view();
    let mut i: usize = 0;
    while i < segments.len()
        invariant
            i <= segments.len(),
            segs == segments.deep_view(),
            forall|j: int| 0 <= j < i ==> time_ok((#[trigger] segs[j]).start) && time_ok(segs[j].end),
        decreases segments.len() - i,
    {
        let s = &segments[i];
        assert(segs[i as int] == s@);
        if s.start < -TIME_LIMIT || s.start > TIME_LIMIT || s.end < -TIME_LIMIT || s.end > TIME_LIMIT {
            return false;
        }
        i += 1;
    }
    true
}

/// Puts the translations back: result `j` is for the segment at
/// `places[j]`. A segment for which a text came back gets that text and
/// words made anew from it; a segment for which none came back stays as
/// it is.
pub fn apply_translations(segments: &mut Vec<Segment>, places: &[usize], results: &[Option<String>])
    requires
        places.len() == results.len(),
        forall|j: int| 0 <= j < places.len() ==> #[trigger] places[j] < old(segments).len(),
        spans_in_time(old(segments).deep_view()),
    ensures
        final(segments).len() == old(segments).len(),
        final(segments).deep_view() == applied(
            old(segments).deep_view(),
            places@,
            results.deep_view(),
            places.len() as int,
        ),
{
    let ghost s0 = segments.deep_view();
    let ghost rv = results.deep_view();
    let n = segments.len();
    let mut k: usize = 0;
    while k < places.len()
        invariant
            k <= places.len() == results.len(),
            n == segments.len(),
            rv == results.deep_view(),
            forall|j: int| 0 <= j < places.len() ==> #[trigger] places[j] < n,
            spans_in_time(segments.deep_view()),
            segments.deep_view() == applied(s0, places@, rv, k as int),
        decreases places.len() - k,
    {
        let ghost before = segments.deep_view();
        assert(rv[k as int] == results@[k as int].deep_view());
        match &results[k] {
            Some(text) => {
                let i = places[k];
                assert(before[i as int] == segments@[i as int]@);
                let mut seg = segments[i].clone();
                seg.text = text.clone();
                regenerate_words_uniform(&mut seg);
                let ghost sv = seg@;
                assert(sv == translated(before[i as int], text@));
                segments.set(i, seg);
                proof {
                    let after = segments.deep_view();
                    assert(after =~= before.update(i as int, sv));
                    assert forall|j: int| 0 <= j < after.len() implies time_ok(
                        (#[trigger] after[j]).start,
                    ) && time_ok(after[j].end) by {
                        if j != i {
                            assert(after[j] == before[j]);
                        }
                        assert(time_ok(before[j].start) && time_ok(before[j].end));
                    }
                }
            },
            None => {},
        }
        k += 1;
    }
}

} // verus!
