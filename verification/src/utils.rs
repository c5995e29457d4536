//! Small conversions and the tables of language codes.

use vstd::prelude::*;
use crate::text::{fields, split_fields, views};

verus! {

/// The largest magnitude of a time in centiseconds that `cs_to_ms` takes.
pub const CS_LIMIT: i64 = 900_000_000_000_000_000;

/// Centiseconds as milliseconds.
pub fn cs_to_ms(cs: i64) -> (ms: i64)
    requires
        -CS_LIMIT <= cs <= CS_LIMIT,
    ensures
        ms == cs * 10,
{
    cs * 10
}

/// Centiseconds as milliseconds, or nothing where the time is out of range.
pub fn cs_to_ms_checked(cs: i64) -> (ms: Option<i64>)
    ensures
        ms == if -CS_LIMIT <= cs <= CS_LIMIT {
            Some((cs * 10) as i64)
        } else {
            None
        },
{
    if -CS_LIMIT <= cs && cs <= CS_LIMIT {
        Some(cs_to_ms(cs))
    } else {
        None
    }
}

/// The codes of the languages that text can be translated into, a space
/// apart.
pub const TRANSLATE_CODES: &'static str = "af sq am ar hy az eu be bn bs bg ca ceb ny zh zh-TW co hr cs da nl en \
    eo et tl fi fr fy gl ka de el gu ht ha haw he hi hmn hu is ig id ga it \
    ja jv kn kk km rw ko ku ky lo la lv lt lb mk mg ms ml mt mi mr mn my \
    ne no or ps fa pl pt pa ro ru sm gd sr st sn sd si sk sl so es su sw \
    sv tg ta te th tr uk ur ug uz vi cy xh yi yo zu";

/// The codes of the languages that can be recognised, a space apart;
/// `auto` stands for automatic detection.
pub const WHISPER_CODES: &'static str = "auto en zh de es ru ko fr ja pt tr pl ca nl ar sv it id hi fi vi he uk \
    el ms cs ro da hu ta no th ur hr bg lt la mi ml cy sk te fa lv bn sr \
    az sl kn et mk br eu is hy ne mn bs kk sq sw gl mr pa si km sn yo so \
    af oc ka be tg sd gu am yi lo uz fo ht ps tk nn mt sa lb my bo tl mg \
    as tt haw ln ha ba jw su yue";

/// The codes of the languages that text can be translated into.
pub fn get_translate_languages() -> (r: Vec<&'static str>)
    ensures
        views(r@) == fields(TRANSLATE_CODES@),
{
    split_fields(TRANSLATE_CODES)
}

/// The codes of the languages that can be recognised, `auto` among them.
pub fn get_whisper_languages() -> (r: Vec<&'static str>)
    ensures
        views(r@) == fields(WHISPER_CODES@),
{
    split_fields(WHISPER_CODES)
}

} // verus!
