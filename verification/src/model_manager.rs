//! The model cache: where it lives and how its files are named.

use vstd::prelude::*;
use vstd::string::*;
use std::path::PathBuf;
use crate::text::{chars_of, ends_with, has_prefix, has_suffix, starts_with, string_of, text_is};

verus! {

/// A path of the file system, which the library only carries.
#[verifier::external_type_specification]
#[verifier::external_body]
pub struct ExPathBuf(std::path::PathBuf);

/// The keeper of the model cache.
pub struct ModelManager {
    cache_dir: PathBuf,
}

impl ModelManager {
    /// The directory of the cache.
    pub closed spec fn dir(&self) -> PathBuf {
        self.cache_dir
    }

    /// The keeper of the cache in the directory `cache_dir`.
    pub fn new(cache_dir: PathBuf) -> (r: Self)
        ensures
            r.dir() == cache_dir,
    {
        ModelManager { cache_dir }
    }

    /// The directory of the cache.
    pub fn cache_dir(&self) -> (r: &PathBuf)
        ensures
            *r == self.dir(),
    {
        &self.cache_dir
    }
}

/// Where the last component of `s` begins: behind the last slash, or at
/// the beginning where there is no slash.
pub open spec fn tail_start(s: Seq<char>) -> int
    decreases s.len(),
{
    if s.len() == 0 {
        0
    } else if s.last() == '/' {
        s.len() as int
    } else {
        tail_start(s.drop_last())
    }
}

/// What follows the last slash of `s`; all of `s` where there is no slash.
pub open spec fn after_last_slash(s: Seq<char>) -> Seq<char> {
    s.skip(tail_start(s))
}

proof fn lemma_tail_start(s: Seq<char>, k: int)
    requires
        0 <= k <= s.len(),
        k == 0 || s[k - 1] == '/',
        forall|i: int| k <= i < s.len() ==> s[i] != '/',
    ensures
        tail_start(s) == k,
    decreases s.len(),
{
    if s.len() > k {
        let t = s.drop_last();
        assert(s.last() == s[s.len() - 1]);
        assert forall|i: int| k <= i < t.len() implies t[i] != '/' by {
            assert(t[i] == s[i]);
        }
        if k > 0 {
            assert(t[k - 1] == s[k - 1]);
        }
        lemma_tail_start(t, k);
    }
}

/// The name of the file that a URL points to: what follows its last slash.
pub fn url_filename(url: &str) -> (r: Option<String>)
    ensures
        r matches Some(name) && name@ == after_last_slash(url@),
{
    let v = chars_of(url);
    let mut k: usize = v.len();
    while k > 0 && v[k - 1] != '/'
        invariant
            k <= v.len(),
            forall|i: int| k <= i < v.len() ==> v@[i] != '/',
        decreases k,
    {
        k -= 1;
    }
    proof {
        lemma_tail_start(v@, k as int);
        assert(v@.subrange(k as int, v.len() as int) =~= v@.skip(k as int));
    }
    Some(string_of(&v, k, v.len()))
}

/// The name of the file that holds the model `model`.
pub open spec fn model_file(model: Seq<char>) -> Seq<char> {
    "ggml-"@ + model + ".bin"@
}

/// The name of the directory that holds the extracted encoder of `model`.
pub open spec fn encoder_dir(model: Seq<char>) -> Seq<char> {
    "ggml-"@ + model + "-encoder.mlmodelc"@
}

/// The name of the archive that holds the encoder of `model`.
pub open spec fn encoder_archive(model: Seq<char>) -> Seq<char> {
    "ggml-"@ + model + "-encoder.mlmodelc.zip"@
}

fn framed(model: &str, tail: &str) -> (r: String)
    ensures
        r@ == "ggml-"@ + model@ + tail@,
{
    let mut s = String::new();
    s.append("ggml-");
    s.append(model);
    s.append(tail);
    assert(s@ =~= "ggml-"@ + model@ + tail@);
    s
}

/// The name of the file that holds the model `model`.
pub fn whisper_model_file(model: &str) -> (r: String)
    ensures
        r@ == model_file(model@),
{
    framed(model, ".bin")
}

/// The name of the archive that holds the encoder of `model`.
pub fn encoder_archive_file(model: &str) -> (r: String)
    ensures
        r@ == encoder_archive(model@),
{
    framed(model, "-encoder.mlmodelc.zip")
}

/// The name of the directory that holds the extracted encoder of `model`.
pub fn encoder_dir_name(model: &str) -> (r: String)
    ensures
        r@ == encoder_dir(model@),
{
    framed(model, "-encoder.mlmodelc")
}

/// Whether a file of the name `name` belongs to the model `model`: it is
/// the model's file, its encoder or the archive of its encoder.
pub fn belongs_to_model(name: &str, model: &str) -> (r: bool)
    ensures
        r == (name@ == model_file(model@) || name@ == encoder_dir(model@) || name@
            == encoder_archive(model@)),
{
    let a = whisper_model_file(model);
    let b = encoder_dir_name(model);
    let c = encoder_archive_file(model);
    text_is(name, a.as_str()) || text_is(name, b.as_str()) || text_is(name, c.as_str())
}

/// Whether the name is that of a file that an interrupted download left:
/// a lock, or a part of a file.
pub fn is_stale_name(name: &str) -> (r: bool)
    ensures
        r == (has_suffix(name@, ".lock"@) || has_suffix(name@, ".incomplete"@) || has_suffix(
            name@,
            ".part"@,
        )),
{
    let v = chars_of(name);
    ends_with(&v, &chars_of(".lock")) || ends_with(&v, &chars_of(".incomplete")) || ends_with(
        &v,
        &chars_of(".part"),
    )
}

/// The name of the model that a file of the name `name` holds: what
/// stands between `ggml-` and `.bin`, if anything does.
pub open spec fn model_in(name: Seq<char>) -> Option<Seq<char>> {
    if has_prefix(name, "ggml-"@) && has_suffix(name, ".bin"@) && name.len() > "ggml-"@.len()
        + ".bin"@.len() {
        Some(name.subrange("ggml-"@.len() as int, name.len() - ".bin"@.len()))
    } else {
        None
    }
}

/// The name of the model that a file of the name `name` holds, if it holds
/// one.
pub fn model_name_of(name: &str) -> (r: Option<String>)
    ensures
        match r {
            Some(m) => model_in(name@) == Some(m@),
            None => model_in(name@) is None,
        },
{
    let v = chars_of(name);
    let head = chars_of("ggml-");
    let tail = chars_of(".bin");
    if starts_with(&v, &head) && ends_with(&v, &tail) && v.len() - head.len() > tail.len() {
        Some(string_of(&v, head.len(), v.len() - tail.len()))
    } else {
        None
    }
}

/// The index of the first slash of `s`, or the length of `s`.
pub open spec fn first_slash(s: Seq<char>) -> int
    decreases s.len(),
{
    if s.len() == 0 || s[0] == '/' {
        0
    } else {
        1 + first_slash(s.drop_first())
    }
}

proof fn lemma_first_slash(s: Seq<char>, k: int)
    requires
        0 <= k <= s.len(),
        forall|i: int| 0 <= i < k ==> s[i] != '/',
        k == s.len() || s[k] == '/',
    ensures
        first_slash(s) == k,
    decreases k,
{
    if k > 0 {
        let t = s.drop_first();
        assert forall|i: int| 0 <= i < k - 1 implies t[i] != '/' by {
            assert(t[i] == s[i + 1]);
        }
        if k - 1 < t.len() {
            assert(t[k - 1] == s[k]);
        }
        lemma_first_slash(t, k - 1);
    }
}

/// The name of the directory in which the cache keeps the repository
/// `repo_id`, which is an owner and a name with a slash between them.
pub open spec fn repo_dir(repo_id: Seq<char>) -> Option<Seq<char>> {
    let k = first_slash(repo_id);
    if 0 < k && k + 1 < repo_id.len() {
        Some("models--"@ + repo_id.take(k) + "--"@ + repo_id.skip(k + 1))
    } else {
        None
    }
}

/// The name of the directory in which the cache keeps the repository
/// `repo_id`.
pub fn repo_dir_name(repo_id: &str) -> (r: Option<String>)
    ensures
        match r {
            Some(d) => repo_dir(repo_id@) == Some(d@),
            None => repo_dir(repo_id@) is None,
        },
{
    let v = chars_of(repo_id);
    let n = v.len();
    let mut k: usize = 0;
    while k < n && v[k] != '/'
        invariant
            k <= n == v.len(),
            forall|i: int| 0 <= i < k ==> v@[i] != '/',
        decreases n - k,
    {
        k += 1;
    }
    proof {
        lemma_first_slash(v@, k as int);
    }
    if 0 < k && k < n && n - k > 1 {
        let owner = string_of(&v, 0, k);
        let repo = string_of(&v, k + 1, n);
        let mut s = String::new();
        s.append("models--");
        s.append(owner.as_str());
        s.append("--");
        s.append(repo.as_str());
        proof {
            assert(v@.subrange(0, k as int) =~= v@.take(k as int));
            assert(v@.subrange(k + 1, n as int) =~= v@.skip(k + 1));
            assert(s@ =~= "models--"@ + v@.take(k as int) + "--"@ + v@.skip(k + 1));
        }
        Some(s)
    } else {
        None
    }
}

/// A file shorter than this is no model.
pub const MIN_MODEL_BYTES: u64 = 100_000;

/// Whether a file of so many bytes can be a model.
pub fn plausible_size(bytes: u64) -> (r: bool)
    ensures
        r == (bytes >= MIN_MODEL_BYTES),
{
    bytes >= MIN_MODEL_BYTES
}

/// The progress of a download in percent: the part `scale` of the whole,
/// from `offset` on, of which `current` of `total` bytes are done; the
/// offset alone while the total is not known.
pub open spec fn download_share(offset: u32, scale: u32, current: usize, total: usize) -> int {
    if total == 0 {
        offset as int
    } else {
        offset + current * scale / (total as int)
    }
}

/// The progress of a download in percent.
pub fn download_percent(offset: u32, scale: u32, current: usize, total: usize) -> (r: u128)
    ensures
        r == download_share(offset, scale, current, total),
{
    if total == 0 {
        offset as u128
    } else {
        let c: u128 = current as u128;
        let s: u128 = scale as u128;
        assert(c * s <= 0xFFFF_FFFF_FFFF_FFFF * 0xFFFF_FFFF) by (nonlinear_arith)
            requires
                0 <= c <= 0xFFFF_FFFF_FFFF_FFFF,
                0 <= s <= 0xFFFF_FFFF,
        ;
        offset as u128 + c * s / (total as u128)
    }
}

/// Whether a download is to stop: its user cancelled it, a newer download
/// cancelled it, or it is no longer of the newest generation.
pub fn should_stop(
    user_cancelled: bool,
    superseded: bool,
    generation: u64,
    newest: u64,
) -> (r: bool)
    ensures
        r == (user_cancelled || superseded || generation != newest),
{
    user_cancelled || superseded || generation != newest
}

} // verus!
