//! Character-level helpers shared by the transcript and subtitle code.
//!
//! Text is reasoned about as `Seq<char>`; the executable functions scan a
//! `Vec<char>` by index ranges so that no intermediate strings are built.

use vstd::prelude::*;
use vstd::string::*;

verus! {

/// The characters of `s`, in order.
pub fn chars_of(s: &str) -> (v: Vec<char>)
    ensures
        v@ == s@,
{
    let mut v: Vec<char> = Vec::new();
    for c in it: s.chars()
        invariant
            v@ == it.seq().take(it.index() as int),
            it.seq() == s@,
    {
        v.push(c);
    }
    v
}

/// Builds a `String` from the characters `chars[lo..hi]` with
/// `String::from_iter`: the string holds exactly those characters, in order.
#[verifier::external_body]
pub(crate) fn string_of(chars: &Vec<char>, lo: usize, hi: usize) -> (s: String)
    requires
        lo <= hi <= chars.len(),
    ensures
        s@ == chars@.subrange(lo as int, hi as int),
{
    String::from_iter(chars[lo..hi].iter())
}

/// Unicode white space: the code points with the `White_Space` property.
pub open spec fn is_space(c: char) -> bool {
    let u = c as u32;
    ||| (0x09 <= u && u <= 0x0D)
    ||| u == 0x20
    ||| u == 0x85
    ||| u == 0xA0
    ||| u == 0x1680
    ||| (0x2000 <= u && u <= 0x200A)
    ||| u == 0x2028
    ||| u == 0x2029
    ||| u == 0x202F
    ||| u == 0x205F
    ||| u == 0x3000
}

/// Whether `c` is white space.
pub fn char_is_space(c: char) -> (r: bool)
    ensures
        r == is_space(c),
{
    let u: u32 = c as u32;
    (0x09 <= u && u <= 0x0D) || u == 0x20 || u == 0x85 || u == 0xA0 || u == 0x1680 || (0x2000 <= u
        && u <= 0x200A) || u == 0x2028 || u == 0x2029 || u == 0x202F || u == 0x205F || u == 0x3000
}

/// Punctuation that is split off the end of a word: sentence terminators,
/// commas and semicolons, dashes, closing brackets and quotes, and their
/// CJK forms. The apostrophe is not among them.
pub open spec fn is_punct(c: char) -> bool {
    ||| c == '.'
    ||| c == '!'
    ||| c == '?'
    ||| c == ','
    ||| c == ';'
    ||| c == ':'
    ||| c == '\u{2026}'
    ||| c == '\u{3002}'
    ||| c == '\u{FF01}'
    ||| c == '\u{FF1F}'
    ||| c == '\u{3001}'
    ||| c == '\u{FF0C}'
    ||| c == '\u{2014}'
    ||| c == '\u{2013}'
    ||| c == ')'
    ||| c == ']'
    ||| c == '}'
    ||| c == '"'
}

/// Whether `c` is punctuation that is split off the end of a word.
pub fn char_is_punct(c: char) -> (r: bool)
    ensures
        r == is_punct(c),
{
    c == '.' || c == '!' || c == '?' || c == ',' || c == ';' || c == ':' || c == '\u{2026}' || c
        == '\u{3002}' || c == '\u{FF01}' || c == '\u{FF1F}' || c == '\u{3001}' || c == '\u{FF0C}'
        || c == '\u{2014}' || c == '\u{2013}' || c == ')' || c == ']' || c == '}' || c == '"'
}

/// The classes of characters that can be stripped from the ends of a text.
#[derive(Clone, Copy, Debug, PartialEq, Eq, Structural)]
pub enum CharClass {
    /// Unicode white space.
    Space,
    /// The NUL character.
    Nul,
    /// Punctuation that is split off the end of a word.
    Punct,
}

impl CharClass {
    /// Whether `c` belongs to the class.
    pub open spec fn has(self, c: char) -> bool {
        match self {
            CharClass::Space => is_space(c),
            CharClass::Nul => c == '\0',
            CharClass::Punct => is_punct(c),
        }
    }

    /// Whether `c` belongs to the class.
    pub fn holds(self, c: char) -> (r: bool)
        ensures
            r == self.has(c),
    {
        match self {
            CharClass::Space => char_is_space(c),
            CharClass::Nul => c == '\0',
            CharClass::Punct => char_is_punct(c),
        }
    }
}

/// How many characters at the front of `s` belong to class `k`.
pub open spec fn leading(s: Seq<char>, k: CharClass) -> nat
    decreases s.len(),
{
    if s.len() > 0 && k.has(s[0]) {
        1 + leading(s.drop_first(), k)
    } else {
        0
    }
}

/// How many characters at the back of `s` belong to class `k`.
pub open spec fn trailing(s: Seq<char>, k: CharClass) -> nat
    decreases s.len(),
{
    if s.len() > 0 && k.has(s.last()) {
        1 + trailing(s.drop_last(), k)
    } else {
        0
    }
}

/// `s` without the characters of class `k` at its front.
pub open spec fn strip_front(s: Seq<char>, k: CharClass) -> Seq<char> {
    s.skip(leading(s, k) as int)
}

/// `s` without the characters of class `k` at its back.
pub open spec fn strip_back(s: Seq<char>, k: CharClass) -> Seq<char> {
    s.take(s.len() - trailing(s, k))
}

/// `s` without the characters of class `k` at either end.
pub open spec fn strip(s: Seq<char>, k: CharClass) -> Seq<char> {
    strip_back(strip_front(s, k), k)
}

/// `s` without white space at either end.
pub open spec fn trim(s: Seq<char>) -> Seq<char> {
    strip(s, CharClass::Space)
}

/// Every character of `s` is white space (so trimming leaves nothing).
pub open spec fn is_blank(s: Seq<char>) -> bool {
    forall|i: int| 0 <= i < s.len() ==> is_space(#[trigger] s[i])
}

/// The first `n` characters belong to the class and the next one does not:
/// `n` characters lead.
pub proof fn lemma_leading(s: Seq<char>, k: CharClass, n: int)
    requires
        0 <= n <= s.len(),
        forall|i: int| 0 <= i < n ==> k.has(#[trigger] s[i]),
        n == s.len() || !k.has(s[n]),
    ensures
        leading(s, k) == n,
    decreases n,
{
    if n > 0 {
        let t = s.drop_first();
        assert forall|i: int| 0 <= i < n - 1 implies k.has(#[trigger] t[i]) by {
            assert(t[i] == s[i + 1]);
        }
        if n - 1 < t.len() {
            assert(t[n - 1] == s[n]);
        }
        lemma_leading(t, k, n - 1);
    }
}

/// The last `n` characters belong to the class and the one before them does
/// not: `n` characters trail.
pub proof fn lemma_trailing(s: Seq<char>, k: CharClass, n: int)
    requires
        0 <= n <= s.len(),
        forall|i: int| s.len() - n <= i < s.len() ==> k.has(#[trigger] s[i]),
        n == s.len() || !k.has(s[s.len() - n - 1]),
    ensures
        trailing(s, k) == n,
    decreases n,
{
    if n > 0 {
        let t = s.drop_last();
        assert forall|i: int| t.len() - (n - 1) <= i < t.len() implies k.has(#[trigger] t[i]) by {
            assert(t[i] == s[i]);
        }
        if n - 1 < t.len() {
            assert(t[t.len() - (n - 1) - 1] == s[s.len() - n - 1]);
        }
        lemma_trailing(t, k, n - 1);
    }
}

/// The leading characters belong to the class, and the one behind them does
/// not.
pub proof fn lemma_leading_bound(s: Seq<char>, k: CharClass)
    ensures
        leading(s, k) <= s.len(),
        forall|i: int| 0 <= i < leading(s, k) ==> k.has(#[trigger] s[i]),
        leading(s, k) < s.len() ==> !k.has(s[leading(s, k) as int]),
    decreases s.len(),
{
    if s.len() > 0 && k.has(s[0]) {
        let t = s.drop_first();
        lemma_leading_bound(t, k);
        assert forall|i: int| 0 <= i < leading(s, k) implies k.has(#[trigger] s[i]) by {
            if i > 0 {
                assert(s[i] == t[i - 1]);
            }
        }
        if leading(s, k) < s.len() {
            assert(s[leading(s, k) as int] == t[leading(t, k) as int]);
        }
    }
}

/// The trailing characters belong to the class, and the one before them does
/// not.
pub proof fn lemma_trailing_bound(s: Seq<char>, k: CharClass)
    ensures
        trailing(s, k) <= s.len(),
        forall|i: int| s.len() - trailing(s, k) <= i < s.len() ==> k.has(#[trigger] s[i]),
        trailing(s, k) < s.len() ==> !k.has(s[s.len() - trailing(s, k) - 1]),
    decreases s.len(),
{
    if s.len() > 0 && k.has(s.last()) {
        let t = s.drop_last();
        lemma_trailing_bound(t, k);
        assert forall|i: int| s.len() - trailing(s, k) <= i < s.len() implies k.has(
            #[trigger] s[i],
        ) by {
            if i < s.len() - 1 {
                assert(s[i] == t[i]);
            }
        }
        if trailing(s, k) < s.len() {
            assert(s[s.len() - trailing(s, k) - 1] == t[t.len() - trailing(t, k) - 1]);
        }
    }
}

/// Trimming leaves nothing exactly when every character is white space.
pub proof fn lemma_trim_blank(s: Seq<char>)
    ensures
        trim(s).len() == 0 <==> is_blank(s),
{
    let k = CharClass::Space;
    lemma_leading_bound(s, k);
    let f = strip_front(s, k);
    lemma_trailing_bound(f, k);
    if is_blank(s) {
        if leading(s, k) < s.len() {
            assert(is_space(s[leading(s, k) as int]));
        }
    }
    if trim(s).len() == 0 {
        assert(trailing(f, k) == f.len());
        if f.len() > 0 {
            assert(k.has(f[0]));
            assert(f[0] == s[leading(s, k) as int]);
        }
        assert forall|i: int| 0 <= i < s.len() implies is_space(#[trigger] s[i]) by {
            assert(k.has(s[i]));
        }
    }
}

/// The bounds, inside `lo..hi`, of what is left of `v[lo..hi]` once the
/// characters of class `k` are stripped from both ends.
pub fn strip_range(v: &Vec<char>, lo: usize, hi: usize, k: CharClass) -> (r: (usize, usize))
    requires
        lo <= hi <= v.len(),
    ensures
        lo <= r.0 <= r.1 <= hi,
        v@.subrange(r.0 as int, r.1 as int) == strip(v@.subrange(lo as int, hi as int), k),
        r.0 == r.1 ==> r.0 == hi,
{
    let mut a = lo;
    while a < hi && k.holds(v[a])
        invariant
            lo <= a <= hi <= v.len(),
            forall|i: int| lo <= i < a ==> k.has(#[trigger] v@[i]),
        decreases hi - a,
    {
        a += 1;
    }
    let mut b = hi;
    while b > a && k.holds(v[b - 1])
        invariant
            a <= b <= hi <= v.len(),
            forall|i: int| b <= i < hi ==> k.has(#[trigger] v@[i]),
        decreases b - a,
    {
        b -= 1;
    }
    proof {
        let s = v@.subrange(lo as int, hi as int);
        assert forall|i: int| 0 <= i < a - lo implies k.has(#[trigger] s[i]) by {
            assert(s[i] == v@[lo + i]);
        }
        lemma_leading(s, k, a - lo);
        let f = strip_front(s, k);
        assert(f =~= v@.subrange(a as int, hi as int));
        assert forall|i: int| f.len() - (hi - b) <= i < f.len() implies k.has(#[trigger] f[i]) by {
            assert(f[i] == v@[a + i]);
        }
        lemma_trailing(f, k, hi - b);
        assert(strip_back(f, k) =~= v@.subrange(a as int, b as int));
    }
    if a == b {
        (hi, hi)
    } else {
        (a, b)
    }
}

/// The number of characters at the front of `v` that belong to class `k`.
pub fn leading_end(v: &Vec<char>, k: CharClass) -> (a: usize)
    ensures
        a == leading(v@, k),
        a <= v.len(),
{
    let mut a: usize = 0;
    while a < v.len() && k.holds(v[a])
        invariant
            a <= v.len(),
            forall|i: int| 0 <= i < a ==> k.has(#[trigger] v@[i]),
        decreases v.len() - a,
    {
        a += 1;
    }
    proof {
        lemma_leading(v@, k, a as int);
    }
    a
}

/// Whether every character of `v` is white space.
pub fn blank(v: &Vec<char>) -> (r: bool)
    ensures
        r == is_blank(v@),
{
    let mut i: usize = 0;
    while i < v.len()
        invariant
            i <= v.len(),
            forall|j: int| 0 <= j < i ==> is_space(#[trigger] v@[j]),
        decreases v.len() - i,
    {
        if !char_is_space(v[i]) {
            return false;
        }
        i += 1;
    }
    true
}

/// The lower-case form of an ASCII capital letter; other characters are kept.
pub open spec fn lower(c: char) -> char {
    if 'A' <= c && c <= 'Z' {
        ((c as u8) + 32) as char
    } else {
        c
    }
}

/// The lower-case form of an ASCII capital letter; other characters are kept.
pub fn to_lower(c: char) -> (r: char)
    ensures
        r == lower(c),
{
    if 'A' <= c && c <= 'Z' {
        ((c as u8) + 32) as char
    } else {
        c
    }
}

/// The first white-space-delimited word of `s` (empty when `s` is blank).
pub open spec fn first_word(s: Seq<char>) -> Seq<char> {
    let t = strip_front(s, CharClass::Space);
    t.take(word_run(t) as int)
}

/// The last white-space-delimited word of `s` (empty when `s` is blank).
pub open spec fn last_word(s: Seq<char>) -> Seq<char> {
    let t = strip_back(s, CharClass::Space);
    t.skip(t.len() - word_run_back(t))
}

/// How many characters at the front of `s` are not white space.
pub open spec fn word_run(s: Seq<char>) -> nat
    decreases s.len(),
{
    if s.len() > 0 && !is_space(s[0]) {
        1 + word_run(s.drop_first())
    } else {
        0
    }
}

/// How many characters at the back of `s` are not white space.
pub open spec fn word_run_back(s: Seq<char>) -> nat
    decreases s.len(),
{
    if s.len() > 0 && !is_space(s.last()) {
        1 + word_run_back(s.drop_last())
    } else {
        0
    }
}

/// The first `n` characters are no white space and the next one is: the word
/// at the front has `n` characters.
pub proof fn lemma_word_run(s: Seq<char>, n: int)
    requires
        0 <= n <= s.len(),
        forall|i: int| 0 <= i < n ==> !is_space(#[trigger] s[i]),
        n == s.len() || is_space(s[n]),
    ensures
        word_run(s) == n,
    decreases n,
{
    if n > 0 {
        let t = s.drop_first();
        assert forall|i: int| 0 <= i < n - 1 implies !is_space(#[trigger] t[i]) by {
            assert(t[i] == s[i + 1]);
        }
        if n - 1 < t.len() {
            assert(t[n - 1] == s[n]);
        }
        lemma_word_run(t, n - 1);
    }
}

/// The last `n` characters are no white space and the one before them is: the
/// word at the back has `n` characters.
pub proof fn lemma_word_run_back(s: Seq<char>, n: int)
    requires
        0 <= n <= s.len(),
        forall|i: int| s.len() - n <= i < s.len() ==> !is_space(#[trigger] s[i]),
        n == s.len() || is_space(s[s.len() - n - 1]),
    ensures
        word_run_back(s) == n,
    decreases n,
{
    if n > 0 {
        let t = s.drop_last();
        assert forall|i: int| t.len() - (n - 1) <= i < t.len() implies !is_space(
            #[trigger] t[i],
        ) by {
            assert(t[i] == s[i]);
        }
        if n - 1 < t.len() {
            assert(t[t.len() - (n - 1) - 1] == s[s.len() - n - 1]);
        }
        lemma_word_run_back(t, n - 1);
    }
}

/// The bounds of the first white-space-delimited word of `v`.
pub fn first_word_range(v: &Vec<char>) -> (r: (usize, usize))
    ensures
        r.0 <= r.1 <= v.len(),
        v@.subrange(r.0 as int, r.1 as int) == first_word(v@),
{
    let n = v.len();
    let mut a: usize = 0;
    while a < n && char_is_space(v[a])
        invariant
            a <= n == v.len(),
            forall|i: int| 0 <= i < a ==> is_space(#[trigger] v@[i]),
        decreases n - a,
    {
        a += 1;
    }
    let mut b = a;
    while b < n && !char_is_space(v[b])
        invariant
            a <= b <= n == v.len(),
            forall|i: int| a <= i < b ==> !is_space(#[trigger] v@[i]),
        decreases n - b,
    {
        b += 1;
    }
    proof {
        let k = CharClass::Space;
        assert forall|i: int| 0 <= i < a implies k.has(#[trigger] v@[i]) by {}
        lemma_leading(v@, k, a as int);
        let t = strip_front(v@, k);
        assert forall|i: int| 0 <= i < b - a implies !is_space(#[trigger] t[i]) by {
            assert(t[i] == v@[a + i]);
        }
        lemma_word_run(t, b - a);
        assert(t.take(b - a) =~= v@.subrange(a as int, b as int));
    }
    (a, b)
}

/// The bounds of the last white-space-delimited word of `v`.
pub fn last_word_range(v: &Vec<char>) -> (r: (usize, usize))
    ensures
        r.0 <= r.1 <= v.len(),
        v@.subrange(r.0 as int, r.1 as int) == last_word(v@),
{
    let n = v.len();
    let mut b: usize = n;
    while b > 0 && char_is_space(v[b - 1])
        invariant
            b <= n == v.len(),
            forall|i: int| b <= i < n ==> is_space(#[trigger] v@[i]),
        decreases b,
    {
        b -= 1;
    }
    let mut a = b;
    while a > 0 && !char_is_space(v[a - 1])
        invariant
            a <= b <= n == v.len(),
            forall|i: int| a <= i < b ==> !is_space(#[trigger] v@[i]),
        decreases a,
    {
        a -= 1;
    }
    proof {
        let k = CharClass::Space;
        assert forall|i: int| v@.len() - (n - b) <= i < v@.len() implies k.has(
            #[trigger] v@[i],
        ) by {}
        lemma_trailing(v@, k, n - b);
        let t = strip_back(v@, k);
        assert(t =~= v@.take(b as int));
        assert forall|i: int| t.len() - (b - a) <= i < t.len() implies !is_space(
            #[trigger] t[i],
        ) by {
            assert(t[i] == v@[i]);
        }
        lemma_word_run_back(t, b - a);
        assert(t.skip(t.len() - (b - a)) =~= v@.subrange(a as int, b as int));
    }
    (a, b)
}

/// Whether `c` is alphabetic, as `char::is_alphabetic` tells.
pub uninterp spec fn alphabetic(c: char) -> bool;

/// The upper-case form of `c`, as `char::to_uppercase` gives it: one or more
/// characters.
pub uninterp spec fn uppercase(c: char) -> Seq<char>;

/// Calls `char::is_alphabetic`, which tests the Unicode `Alphabetic`
/// property; the result is a function of the character alone.
#[verifier::external_body]
fn char_is_alphabetic(c: char) -> (r: bool)
    ensures
        r == alphabetic(c),
{
    c.is_alphabetic()
}

/// Calls `char::to_uppercase` and collects the characters it yields; the
/// result is a function of the character alone.
#[verifier::external_body]
fn char_to_uppercase(c: char) -> (r: Vec<char>)
    ensures
        r@ == uppercase(c),
{
    c.to_uppercase().collect()
}

/// The index of the first alphabetic character of `s`, or the length of `s`
/// where it has none.
pub open spec fn first_alphabetic(s: Seq<char>) -> int
    decreases s.len(),
{
    if s.len() == 0 || alphabetic(s[0]) {
        0
    } else {
        1 + first_alphabetic(s.drop_first())
    }
}

/// `s` with the character at index `at` replaced by the characters `with`.
pub open spec fn spliced(s: Seq<char>, at: int, with: Seq<char>) -> Seq<char> {
    s.take(at) + with + s.skip(at + 1)
}

/// `s` with its first alphabetic character in upper case; `s` itself where
/// it has no alphabetic character.
pub open spec fn capitalized(s: Seq<char>) -> Seq<char> {
    let i = first_alphabetic(s);
    if i < s.len() {
        spliced(s, i, uppercase(s[i]))
    } else {
        s
    }
}

/// No character before index `n` is alphabetic and the one at `n` is: `n` is
/// the first.
pub proof fn lemma_first_alphabetic(s: Seq<char>, n: int)
    requires
        0 <= n <= s.len(),
        forall|i: int| 0 <= i < n ==> !alphabetic(#[trigger] s[i]),
        n == s.len() || alphabetic(s[n]),
    ensures
        first_alphabetic(s) == n,
    decreases n,
{
    if n > 0 {
        let t = s.drop_first();
        assert forall|i: int| 0 <= i < n - 1 implies !alphabetic(#[trigger] t[i]) by {
            assert(t[i] == s[i + 1]);
        }
        if n - 1 < t.len() {
            assert(t[n - 1] == s[n]);
        }
        lemma_first_alphabetic(t, n - 1);
    }
}

/// The characters of `v` with the one at index `at` replaced by `with`.
pub fn splice(v: &Vec<char>, at: usize, with: &Vec<char>) -> (r: Vec<char>)
    requires
        at < v.len(),
    ensures
        r@ == spliced(v@, at as int, with@),
{
    let mut r: Vec<char> = Vec::new();
    let mut i: usize = 0;
    while i < at
        invariant
            i <= at < v.len(),
            r@ == v@.take(i as int),
        decreases at - i,
    {
        r.push(v[i]);
        i += 1;
    }
    let mut j: usize = 0;
    while j < with.len()
        invariant
            j <= with.len(),
            r@ == v@.take(at as int) + with@.take(j as int),
        decreases with.len() - j,
    {
        r.push(with[j]);
        j += 1;
    }
    assert(with@.take(with.len() as int) =~= with@);
    let mut k: usize = at + 1;
    while k < v.len()
        invariant
            at < k <= v.len(),
            r@ == v@.take(at as int) + with@ + v@.subrange(at + 1, k as int),
        decreases v.len() - k,
    {
        r.push(v[k]);
        k += 1;
    }
    assert(v@.subrange(at + 1, v.len() as int) =~= v@.skip(at + 1));
    r
}

/// `s` with its first alphabetic character in upper case.
pub fn capitalize(s: &str) -> (r: String)
    ensures
        r@ == capitalized(s@),
{
    let v = chars_of(s);
    let mut i: usize = 0;
    while i < v.len() && !char_is_alphabetic(v[i])
        invariant
            i <= v.len(),
            forall|j: int| 0 <= j < i ==> !alphabetic(#[trigger] v@[j]),
        decreases v.len() - i,
    {
        i += 1;
    }
    proof {
        lemma_first_alphabetic(v@, i as int);
    }
    if i < v.len() {
        let up = char_to_uppercase(v[i]);
        let out = splice(&v, i, &up);
        assert(out@.subrange(0, out@.len() as int) =~= out@);
        string_of(&out, 0, out.len())
    } else {
        assert(v@.subrange(0, v@.len() as int) =~= v@);
        string_of(&v, 0, v.len())
    }
}

/// The decimal digits of `n`, most significant first.
pub open spec fn decimal(n: nat) -> Seq<char>
    decreases n,
{
    if n < 10 {
        seq![digit(n)]
    } else {
        decimal(n / 10).push(digit(n % 10))
    }
}

/// The character for a digit below ten.
pub open spec fn digit(d: nat) -> char {
    (('0' as u8) + (d % 10) as u8) as char
}

/// `n` written in decimal.
pub fn decimal_string(n: usize) -> (r: String)
    ensures
        r@ == decimal(n as nat),
{
    let mut rev: Vec<char> = Vec::new();
    let mut m: usize = n;
    while m >= 10
        invariant
            decimal(n as nat) == decimal(m as nat) + rev@.reverse(),
        decreases m,
    {
        let d: u8 = (m % 10) as u8;
        let ghost before = rev@;
        rev.push((48u8 + d) as char);
        assert(rev@.reverse() =~= seq![digit((m % 10) as nat)] + before.reverse());
        assert(decimal(m as nat) == decimal((m / 10) as nat).push(digit((m % 10) as nat)));
        assert(decimal((m / 10) as nat).push(digit((m % 10) as nat)) + before.reverse() =~= decimal(
            (m / 10) as nat,
        ) + (seq![digit((m % 10) as nat)] + before.reverse()));
        m = m / 10;
    }
    let ghost before = rev@;
    rev.push((48u8 + (m as u8)) as char);
    assert(rev@.reverse() =~= seq![digit(m as nat)] + before.reverse());
    let mut out: Vec<char> = Vec::new();
    let mut i: usize = rev.len();
    while i > 0
        invariant
            i <= rev.len(),
            out@ == rev@.reverse().take(rev.len() - i),
        decreases i,
    {
        i -= 1;
        out.push(rev[i]);
        assert(out@ =~= rev@.reverse().take(rev.len() - i));
    }
    assert(out@ =~= decimal(n as nat));
    assert(out@.subrange(0, out@.len() as int) =~= out@);
    string_of(&out, 0, out.len())
}

/// `w` in lower case, as far as ASCII letters go.
pub open spec fn lowered(w: Seq<char>) -> Seq<char> {
    w.map_values(|c: char| lower(c))
}

/// Whether `w` is, whatever its case, one of the short function words
/// before or after which a line break reads badly: an article, a basic
/// preposition or conjunction, or the pronoun "I".
pub open spec fn is_function_word(w: Seq<char>) -> bool {
    let l = lowered(w);
    ||| l == seq!['i']
    ||| l == seq!['a']
    ||| l == seq!['t', 'o']
    ||| l == seq!['o', 'r']
    ||| l == seq!['o', 'f']
    ||| l == seq!['i', 'n']
    ||| l == seq!['o', 'n']
    ||| l == seq!['a', 't']
    ||| l == seq!['t', 'h', 'e']
    ||| l == seq!['a', 'n', 'd']
    ||| l == seq!['f', 'o', 'r']
    ||| l == seq!['w', 'i', 't', 'h']
}

/// Whether `v[lo..hi]` is a short function word.
pub fn function_word_at(v: &Vec<char>, lo: usize, hi: usize) -> (r: bool)
    requires
        lo <= hi <= v.len(),
    ensures
        r == is_function_word(v@.subrange(lo as int, hi as int)),
{
    let ghost w = v@.subrange(lo as int, hi as int);
    let ghost l = lowered(w);
    let n = hi - lo;
    assert(l.len() == n);
    if n == 1 {
        let a = to_lower(v[lo]);
        assert(l[0] == a);
        let r = a == 'i' || a == 'a';
        assert(r ==> l =~= seq![a]);
        r
    } else if n == 2 {
        let a = to_lower(v[lo]);
        let b = to_lower(v[lo + 1]);
        assert(l[0] == a && l[1] == b);
        let r = (a == 't' && b == 'o') || (a == 'o' && (b == 'r' || b == 'f' || b == 'n')) || (a
            == 'i' && b == 'n') || (a == 'a' && b == 't');
        assert(r ==> l =~= seq![a, b]);
        r
    } else if n == 3 {
        let a = to_lower(v[lo]);
        let b = to_lower(v[lo + 1]);
        let c = to_lower(v[lo + 2]);
        assert(l[0] == a && l[1] == b && l[2] == c);
        let r = (a == 't' && b == 'h' && c == 'e') || (a == 'a' && b == 'n' && c == 'd') || (a
            == 'f' && b == 'o' && c == 'r');
        assert(r ==> l =~= seq![a, b, c]);
        r
    } else if n == 4 {
        let a = to_lower(v[lo]);
        let b = to_lower(v[lo + 1]);
        let c = to_lower(v[lo + 2]);
        let d = to_lower(v[lo + 3]);
        assert(l[0] == a && l[1] == b && l[2] == c && l[3] == d);
        let r = a == 'w' && b == 'i' && c == 't' && d == 'h';
        assert(r ==> l =~= seq![a, b, c, d]);
        r
    } else {
        false
    }
}

/// The index of the first character of `s` from `i` on that is not white
/// space, or the length of `s`.
pub open spec fn field_start(s: Seq<char>, i: int) -> int
    decreases s.len() - i,
{
    if 0 <= i < s.len() && is_space(s[i]) {
        field_start(s, i + 1)
    } else {
        i
    }
}

/// The index of the first character of `s` from `i` on that is white
/// space, or the length of `s`.
pub open spec fn field_end(s: Seq<char>, i: int) -> int
    decreases s.len() - i,
{
    if 0 <= i < s.len() && !is_space(s[i]) {
        field_end(s, i + 1)
    } else {
        i
    }
}

/// The fields of `s` from index `i` on.
pub open spec fn fields_from(s: Seq<char>, i: int) -> Seq<Seq<char>>
    decreases s.len() - i,
{
    let a = field_start(s, i);
    let b = field_end(s, a);
    if i < 0 || a < i || a >= s.len() || b <= a || b > s.len() {
        Seq::empty()
    } else {
        seq![s.subrange(a, b)] + fields_from(s, b)
    }
}

/// The fields of `s`: its stretches of characters that are not white
/// space, in order.
pub open spec fn fields(s: Seq<char>) -> Seq<Seq<char>> {
    fields_from(s, 0)
}

/// White space from `i` up to `a` and none at `a`: the field begins at `a`.
pub proof fn lemma_field_start(s: Seq<char>, i: int, a: int)
    requires
        0 <= i <= a <= s.len(),
        forall|k: int| i <= k < a ==> is_space(#[trigger] s[k]),
        a == s.len() || !is_space(s[a]),
    ensures
        field_start(s, i) == a,
    decreases a - i,
{
    if i < a {
        lemma_field_start(s, i + 1, a);
    }
}

/// No white space from `i` up to `b` and white space at `b`: the field ends
/// at `b`.
pub proof fn lemma_field_end(s: Seq<char>, i: int, b: int)
    requires
        0 <= i <= b <= s.len(),
        forall|k: int| i <= k < b ==> !is_space(#[trigger] s[k]),
        b == s.len() || is_space(s[b]),
    ensures
        field_end(s, i) == b,
    decreases b - i,
{
    if i < b {
        lemma_field_end(s, i + 1, b);
    }
}

/// The views of the texts.
pub open spec fn views(v: Seq<&str>) -> Seq<Seq<char>> {
    Seq::new(v.len(), |i: int| v[i]@)
}

/// The fields of `s`: its stretches of characters that are not white space.
pub fn split_fields<'a>(s: &'a str) -> (out: Vec<&'a str>)
    ensures
        views(out@) == fields(s@),
{
    let v = chars_of(s);
    let n = v.len();
    let mut out: Vec<&'a str> = Vec::new();
    let mut i: usize = 0;
    assert(views(out@) + fields_from(v@, 0) =~= fields(v@));
    while i < n
        invariant
            i <= n == v.len(),
            v@ == s@,
            views(out@) + fields_from(v@, i as int) == fields(v@),
        decreases n - i,
    {
        let mut a: usize = i;
        while a < n && char_is_space(v[a])
            invariant
                i <= a <= n == v.len(),
                forall|k: int| i <= k < a ==> is_space(#[trigger] v@[k]),
            decreases n - a,
        {
            a += 1;
        }
        let mut b: usize = a;
        while b < n && !char_is_space(v[b])
            invariant
                a <= b <= n == v.len(),
                forall|k: int| a <= k < b ==> !is_space(#[trigger] v@[k]),
            decreases n - b,
        {
            b += 1;
        }
        proof {
            lemma_field_start(v@, i as int, a as int);
            lemma_field_end(v@, a as int, b as int);
        }
        if a < n {
            let ghost before = views(out@);
            let piece = s.substring_char(a, b);
            out.push(piece);
            proof {
                assert(views(out@) =~= before.push(v@.subrange(a as int, b as int)));
                assert(before.push(v@.subrange(a as int, b as int)) + fields_from(v@, b as int)
                    =~= before + (seq![v@.subrange(a as int, b as int)] + fields_from(v@, b as int)));
            }
        }
        i = b;
    }
    assert(views(out@) + Seq::<Seq<char>>::empty() =~= views(out@));
    out
}

/// `s` begins with `p`.
pub open spec fn has_prefix(s: Seq<char>, p: Seq<char>) -> bool {
    p.len() <= s.len() && s.take(p.len() as int) == p
}

/// `s` ends with `p`.
pub open spec fn has_suffix(s: Seq<char>, p: Seq<char>) -> bool {
    p.len() <= s.len() && s.skip(s.len() - p.len()) == p
}

/// Whether `v[lo..hi]` holds the characters `lit`.
pub fn range_equals(v: &Vec<char>, lo: usize, hi: usize, lit: &Vec<char>) -> (r: bool)
    requires
        lo <= hi <= v.len(),
    ensures
        r == (v@.subrange(lo as int, hi as int) == lit@),
{
    let ghost w = v@.subrange(lo as int, hi as int);
    if hi - lo != lit.len() {
        return false;
    }
    let mut i: usize = 0;
    while i < lit.len()
        invariant
            i <= lit.len() == hi - lo,
            hi <= v.len(),
            w == v@.subrange(lo as int, hi as int),
            forall|k: int| 0 <= k < i ==> w[k] == lit@[k],
        decreases lit.len() - i,
    {
        assert(w[i as int] == v@[lo + i]);
        if v[lo + i] != lit[i] {
            return false;
        }
        i += 1;
    }
    assert(w =~= lit@);
    true
}

/// Whether `v` begins with `p`.
pub fn starts_with(v: &Vec<char>, p: &Vec<char>) -> (r: bool)
    ensures
        r == has_prefix(v@, p@),
{
    if p.len() > v.len() {
        return false;
    }
    assert(v@.subrange(0, p.len() as int) =~= v@.take(p.len() as int));
    range_equals(v, 0, p.len(), p)
}

/// Whether `v` ends with `p`.
pub fn ends_with(v: &Vec<char>, p: &Vec<char>) -> (r: bool)
    ensures
        r == has_suffix(v@, p@),
{
    if p.len() > v.len() {
        return false;
    }
    assert(v@.subrange(v.len() - p.len(), v.len() as int) =~= v@.skip(v.len() - p.len()));
    range_equals(v, v.len() - p.len(), v.len(), p)
}

/// Whether the text `s` is the text `lit`.
pub fn text_is(s: &str, lit: &str) -> (r: bool)
    ensures
        r == (s@ == lit@),
{
    let v = chars_of(s);
    let l = chars_of(lit);
    assert(v@.subrange(0, v@.len() as int) =~= v@);
    range_equals(&v, 0, v.len(), &l)
}

} // verus!
