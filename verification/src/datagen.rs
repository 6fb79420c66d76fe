//! Random dependency files for tests: rules with made-up names, linked by
//! modules that one rule provides and another requires. Every choice is a draw
//! from a seeded generator or from `arbitrary` data; what the library decides
//! around the draws is verified here.

use std::borrow::Cow;
use fake::faker::name::raw::Name;
use fake::locales::{AR_SA, EN, FR_FR, JA_JP, PT_BR, ZH_CN, ZH_TW};
use fake::Dummy;
use rand::{Rng, RngCore};
use vstd::prelude::*;
use vstd::std_specs::iter::IteratorSpec;
use crate::message::{push_char, push_hex, spec_hex_char};
use crate::order::{provides_keys, requires_keys, str_eq};
use crate::r5::{
    clone_cow_str, cow_as_str, must_be_false, must_be_true, DepFile, DepInfo, DepInfoModel, ModuleDesc,
    ProvidedModuleDesc, RequiredModuleDesc, RequiredModuleDescLookupMethod,
};
use crate::stream::Model;

verus! {

/// The seed of the generator that tests draw dependency files from.
pub const CHACHA8RNG_SEED: u64 = 0xb6ab_77b5_bb6a_d6ab;

/// Verus's view of `rand_chacha::ChaCha8Rng`, the seeded generator of the draws.
#[verifier::external_type_specification]
#[verifier::external_body]
pub struct ExChaCha8Rng(rand_chacha::ChaCha8Rng);

/// Verus's view of `arbitrary::Unstructured`, raw bytes that choices are read from.
#[verifier::external_type_specification]
#[verifier::external_body]
pub struct ExUnstructured<'a>(arbitrary::Unstructured<'a>);

/// `rand::Rng::gen::<bool>`: a coin toss.
#[verifier::external_body]
fn rng_bool(rng: &mut rand_chacha::ChaCha8Rng) -> bool {
    rng.gen::<bool>()
}

/// `rand::Rng::gen_range` on `u32`: a number of the half-open range `lo..hi`,
/// which must not be empty.
#[verifier::external_body]
fn rng_range_u32(rng: &mut rand_chacha::ChaCha8Rng, lo: u32, hi: u32) -> (r: u32)
    requires
        lo < hi,
    ensures
        lo <= r < hi,
{
    rng.gen_range(lo..hi)
}

/// `rand::Rng::gen_range` on `usize`: a number of the half-open range `lo..hi`,
/// which must not be empty.
#[verifier::external_body]
fn rng_range_usize(rng: &mut rand_chacha::ChaCha8Rng, lo: usize, hi: usize) -> (r: usize)
    requires
        lo < hi,
    ensures
        lo <= r < hi,
{
    rng.gen_range(lo..hi)
}

/// `rand::Rng::gen_range` on `i32`: a number of the half-open range `lo..hi`,
/// which must not be empty.
#[verifier::external_body]
fn rng_range_i32(rng: &mut rand_chacha::ChaCha8Rng, lo: i32, hi: i32) -> (r: i32)
    requires
        lo < hi,
    ensures
        lo <= r < hi,
{
    rng.gen_range(lo..hi)
}

/// `rand::RngCore::fill_bytes`: overwrites the bytes with random ones.
#[verifier::external_body]
fn rng_fill_bytes(rng: &mut rand_chacha::ChaCha8Rng, bytes: &mut Vec<u8>)
    ensures
        final(bytes)@.len() == old(bytes)@.len(),
{
    rng.fill_bytes(bytes.as_mut_slice())
}

/// `fake`'s `Name` in the locale `ar_SA`, drawn from `rng`.
#[verifier::external_body]
fn fake_name_ar_sa(rng: &mut rand_chacha::ChaCha8Rng) -> String {
    String::dummy_with_rng(&Name(AR_SA), rng)
}

/// `fake`'s `Name` in the locale `en`, drawn from `rng`.
#[verifier::external_body]
fn fake_name_en(rng: &mut rand_chacha::ChaCha8Rng) -> String {
    String::dummy_with_rng(&Name(EN), rng)
}

/// `fake`'s `Name` in the locale `fr_FR`, drawn from `rng`.
#[verifier::external_body]
fn fake_name_fr_fr(rng: &mut rand_chacha::ChaCha8Rng) -> String {
    String::dummy_with_rng(&Name(FR_FR), rng)
}

/// `fake`'s `Name` in the locale `ja_JP`, drawn from `rng`.
#[verifier::external_body]
fn fake_name_ja_jp(rng: &mut rand_chacha::ChaCha8Rng) -> String {
    String::dummy_with_rng(&Name(JA_JP), rng)
}

/// `fake`'s `Name` in the locale `pt_BR`, drawn from `rng`.
#[verifier::external_body]
fn fake_name_pt_br(rng: &mut rand_chacha::ChaCha8Rng) -> String {
    String::dummy_with_rng(&Name(PT_BR), rng)
}

/// `fake`'s `Name` in the locale `zh_CN`, drawn from `rng`.
#[verifier::external_body]
fn fake_name_zh_cn(rng: &mut rand_chacha::ChaCha8Rng) -> String {
    String::dummy_with_rng(&Name(ZH_CN), rng)
}

/// `fake`'s `Name` in the locale `zh_TW`, drawn from `rng`.
#[verifier::external_body]
fn fake_name_zh_tw(rng: &mut rand_chacha::ChaCha8Rng) -> String {
    String::dummy_with_rng(&Name(ZH_TW), rng)
}

/// Whether `c` has Unicode's White_Space property, which `char::is_whitespace`
/// tests: tab to carriage return, space, next line, no-break space, ogham space
/// mark, the spaces from en quad to hair space, the line and paragraph
/// separators, narrow no-break space, medium mathematical space and ideographic
/// space.
pub open spec fn is_white_space(c: char) -> bool {
    let v = c as u32;
    ||| 0x09 <= v <= 0x0d
    ||| v == 0x20
    ||| v == 0x85
    ||| v == 0xa0
    ||| v == 0x1680
    ||| 0x2000 <= v <= 0x200a
    ||| v == 0x2028
    ||| v == 0x2029
    ||| v == 0x202f
    ||| v == 0x205f
    ||| v == 0x3000
}

/// The words of `s[i..]`, as `str::split_whitespace` cuts them at white space,
/// after the words `words` and the start `word` of a word read so far.
pub open spec fn split_words(s: Seq<char>, i: int, word: Seq<char>, words: Seq<Seq<char>>) -> Seq<Seq<char>>
    decreases s.len() - i,
{
    let ended = if word.len() > 0 {
        words.push(word)
    } else {
        words
    };
    if i >= s.len() {
        ended
    } else if is_white_space(s[i]) {
        split_words(s, i + 1, Seq::empty(), ended)
    } else {
        split_words(s, i + 1, word.push(s[i]), words)
    }
}

/// The words of `s`: its longest runs of characters that are not white space.
pub open spec fn words_of(s: Seq<char>) -> Seq<Seq<char>> {
    split_words(s, 0, Seq::empty(), Seq::empty())
}

/// Whether `c` is white space.
fn white_space(c: char) -> (b: bool)
    ensures
        b == is_white_space(c),
{
    let v = c as u32;
    (0x09 <= v && v <= 0x0d) || v == 0x20 || v == 0x85 || v == 0xa0 || v == 0x1680 || (0x2000 <= v && v
        <= 0x200a) || v == 0x2028 || v == 0x2029 || v == 0x202f || v == 0x205f || v == 0x3000
}

/// The words of `s`, each copied, as `str::split_whitespace` gives them.
fn split_whitespace(s: &str) -> (r: Vec<String>)
    ensures
        r@.len() == words_of(s@).len(),
        forall|i: int| 0 <= i < r@.len() ==> #[trigger] r@[i]@ == words_of(s@)[i],
{
    broadcast use vstd::string::axiom_spec_iter, vstd::string::next_postcondition;

    let mut it = s.chars();
    let ghost n = s@.len() as int;
    let ghost mut i: int = 0;
    let mut words: Vec<String> = Vec::new();
    let mut word = String::new();
    let mut has_word = false;
    assert(words@.map_values(|w: String| w@) =~= Seq::<Seq<char>>::empty());
    assert(it.remaining() =~= s@.subrange(0, n));
    loop
        invariant_except_break
            0 <= i <= n,
            n == s@.len(),
            it.remaining() == s@.subrange(i, n),
            has_word == (word@.len() > 0),
            split_words(s@, i, word@, words@.map_values(|w: String| w@)) == words_of(s@),
        ensures
            words@.map_values(|w: String| w@) == words_of(s@),
        decreases n - i,
    {
        let ghost before = words@.map_values(|w: String| w@);
        match it.next() {
            None => {
                assert(i == n);
                if has_word {
                    words.push(word);
                    assert(words@.map_values(|w: String| w@) =~= before.push(word@));
                }
                break;
            },
            Some(c) => {
                assert(c == s@[i]);
                if white_space(c) {
                    if has_word {
                        let w = word;
                        words.push(w);
                        word = String::new();
                        has_word = false;
                        assert(words@.map_values(|w: String| w@) =~= before.push(w@));
                    }
                    assert(word@ =~= Seq::<char>::empty());
                } else {
                    push_char(&mut word, c);
                    has_word = true;
                }
                proof {
                    i = i + 1;
                    assert(it.remaining() =~= s@.subrange(i, n));
                }
            },
        }
    }
    proof {
        assert forall|j: int| 0 <= j < words@.len() implies #[trigger] words@[j]@ == words_of(s@)[j] by {
            assert(words@.map_values(|w: String| w@)[j] == words@[j]@);
        }
    }
    words
}

/// `s` in lower case, as `str::to_lowercase` maps it by Unicode's case mapping.
pub uninterp spec fn lowercase_of(s: Seq<char>) -> Seq<char>;

/// `str::to_lowercase`: `s` in lower case. Unicode's case mapping is not
/// modelled here: the result is named by [`lowercase_of`].
#[verifier::external_body]
fn to_lowercase(s: &str) -> (r: String)
    ensures
        r@ == lowercase_of(s@),
{
    s.to_lowercase()
}

/// `char::from_u32`: the character of the scalar value `code`, or `None` for a
/// surrogate or a number above `0x10FFFF`.
#[verifier::external_body]
fn char_from_u32(code: u32) -> (r: Option<char>)
    ensures
        r == if code <= 0xd7ff || (0xe000 <= code <= 0x10ffff) {
            Some(code as char)
        } else {
            None::<char>
        },
{
    char::from_u32(code)
}

/// The bytes that an `arbitrary::Unstructured` has left to read choices from.
pub uninterp spec fn unstructured_data(u: arbitrary::Unstructured) -> Seq<u8>;

/// What `arbitrary::Unstructured::int_in_range` draws from the bytes `data` for
/// the range `lo..=hi`: the number, and how many bytes it reads from the front.
pub uninterp spec fn int_in_range_of(data: Seq<u8>, lo: int, hi: int) -> (int, nat);

/// `arbitrary::Unstructured::new`: choices read from `data`, all of it left.
#[verifier::external_body]
fn unstructured_new<'a>(data: &'a [u8]) -> (u: arbitrary::Unstructured<'a>)
    ensures
        unstructured_data(u) == data@,
{
    arbitrary::Unstructured::new(data)
}

/// `arbitrary::Unstructured::ratio` on `u8`: true about `numerator` times in
/// `denominator`. Its source draws `int_in_range(1..=denominator)` and answers
/// whether that is at most `numerator`; it never fails, so the error is
/// dropped; `0 < numerator <= denominator` is asserted.
#[verifier::external_body]
fn unstructured_ratio(u: &mut arbitrary::Unstructured, numerator: u8, denominator: u8) -> (r: Option<bool>)
    requires
        0 < numerator <= denominator,
    ensures
        r == Some(int_in_range_of(unstructured_data(*old(u)), 1, denominator as int).0 <= numerator),
        unstructured_data(*final(u)) == unstructured_data(*old(u)).skip(
            int_in_range_of(unstructured_data(*old(u)), 1, denominator as int).1 as int,
        ),
{
    u.ratio(numerator, denominator).ok()
}

/// `arbitrary::Unstructured::int_in_range` on `u8`: a number of `lo..=hi`, which
/// must not be empty. It pads missing data with zeros and
/// never fails, so the error is dropped.
#[verifier::external_body]
fn unstructured_u8_in(u: &mut arbitrary::Unstructured, lo: u8, hi: u8) -> (r: Option<u8>)
    requires
        lo <= hi,
    ensures
        r is Some,
        lo <= r.unwrap() <= hi,
        r.unwrap() == int_in_range_of(unstructured_data(*old(u)), lo as int, hi as int).0,
        unstructured_data(*final(u)) == unstructured_data(*old(u)).skip(
            int_in_range_of(unstructured_data(*old(u)), lo as int, hi as int).1 as int,
        ),
{
    u.int_in_range(lo..=hi).ok()
}

/// `arbitrary::Unstructured::int_in_range` on `usize`: a number of `lo..=hi`,
/// which must not be empty. It pads missing data with zeros and
/// never fails, so the error is dropped.
#[verifier::external_body]
fn unstructured_usize_in(u: &mut arbitrary::Unstructured, lo: usize, hi: usize) -> (r: Option<usize>)
    requires
        lo <= hi,
    ensures
        r is Some,
        lo <= r.unwrap() <= hi,
        r.unwrap() == int_in_range_of(unstructured_data(*old(u)), lo as int, hi as int).0,
        unstructured_data(*final(u)) == unstructured_data(*old(u)).skip(
            int_in_range_of(unstructured_data(*old(u)), lo as int, hi as int).1 as int,
        ),
{
    u.int_in_range(lo..=hi).ok()
}

/// `arbitrary::Unstructured::arbitrary::<bool>`: the low bit of a byte read; it
/// pads missing data with zeros and never fails, so the error is dropped.
#[verifier::external_body]
fn unstructured_bool(u: &mut arbitrary::Unstructured) -> (r: Option<bool>)
    ensures
        r == Some(spec_draw_bool(unstructured_data(*old(u))).0),
        unstructured_data(*final(u)) == spec_draw_bool(unstructured_data(*old(u))).1,
{
    u.arbitrary::<bool>().ok()
}

/// A coin read from the bytes `d`, and the bytes left: the low bit of the first
/// byte, which is taken; `false` when there is none.
pub open spec fn spec_draw_bool(d: Seq<u8>) -> (bool, Seq<u8>) {
    if d.len() > 0 {
        (d[0] % 2 == 1, d.drop_first())
    } else {
        (false, d)
    }
}

/// A number of `lo..=hi` read from the front of the bytes `d`, as
/// `int_in_range` draws it, and the bytes left.
pub open spec fn spec_draw_int(d: Seq<u8>, lo: int, hi: int) -> (int, Seq<u8>) {
    let (x, n) = int_in_range_of(d, lo, hi);
    (x, d.skip(n as int))
}

/// Whether a number of `1..=denominator` read from `d` is at most `numerator`,
/// and the bytes left.
pub open spec fn spec_draw_ratio(d: Seq<u8>, numerator: int, denominator: int) -> (bool, Seq<u8>) {
    let (x, rest) = spec_draw_int(d, 1, denominator);
    (x <= numerator, rest)
}

/// A coin read from `u`.
fn draw_bool(u: &mut arbitrary::Unstructured) -> (b: bool)
    ensures
        (b, unstructured_data(*final(u))) == spec_draw_bool(unstructured_data(*old(u))),
{
    match unstructured_bool(u) {
        Some(b) => b,
        None => {
            proof {
                assert(false);
            }
            false
        },
    }
}

/// True about `numerator` times in `denominator`, read from `u`.
fn draw_ratio(u: &mut arbitrary::Unstructured, numerator: u8, denominator: u8) -> (b: bool)
    requires
        0 < numerator <= denominator,
    ensures
        (b, unstructured_data(*final(u))) == spec_draw_ratio(
            unstructured_data(*old(u)),
            numerator as int,
            denominator as int,
        ),
{
    match unstructured_ratio(u, numerator, denominator) {
        Some(b) => b,
        None => {
            proof {
                assert(false);
            }
            false
        },
    }
}

/// A number of `lo..=hi`, read from `u`.
fn draw_u8(u: &mut arbitrary::Unstructured, lo: u8, hi: u8) -> (v: u8)
    requires
        lo <= hi,
    ensures
        lo <= v <= hi,
        (v as int, unstructured_data(*final(u))) == spec_draw_int(unstructured_data(*old(u)), lo as int, hi as int),
{
    match unstructured_u8_in(u, lo, hi) {
        Some(v) => v,
        None => {
            proof {
                assert(false);
            }
            lo
        },
    }
}

/// An index below `len`, read from `u`.
fn draw_index(u: &mut arbitrary::Unstructured, len: usize) -> (i: usize)
    requires
        len > 0,
    ensures
        i < len,
        (i as int, unstructured_data(*final(u))) == spec_draw_int(unstructured_data(*old(u)), 0, len - 1),
{
    match unstructured_usize_in(u, 0, len - 1) {
        Some(v) => v,
        None => {
            proof {
                assert(false);
            }
            0
        },
    }
}

/// `\u` and the four lower-case hexadecimal digits of `v`, as `{:#06x}` writes
/// `v` once its `0x` is replaced.
pub open spec fn spec_u_escape(v: nat) -> Seq<char> {
    seq![
        '\\',
        'u',
        spec_hex_char((v / 4096) % 16),
        spec_hex_char((v / 256) % 16),
        spec_hex_char((v / 16) % 16),
        spec_hex_char(v % 16),
    ]
}

/// The UTF-16 surrogates of a code point above `0xFFFF`.
pub open spec fn spec_surrogates(code: nat) -> (nat, nat) {
    (0xd800 + (code - 0x10000) as nat / 0x400, 0xdc00 + (code - 0x10000) as nat % 0x400)
}

/// What separates two words of a made-up name when escapes are wanted: the
/// escaped surrogates of a code point above `0xFFFF` (`wide`); or a character,
/// as itself (`literal`, with braces dropped) or escaped.
pub open spec fn spec_name_sep(wide: bool, code: u32, literal: bool) -> Seq<char> {
    if wide {
        spec_u_escape(spec_surrogates(code as nat).0) + spec_u_escape(spec_surrogates(code as nat).1)
    } else if literal {
        if code == 0x7b || code == 0x7d {
            Seq::empty()
        } else {
            seq![code as char]
        }
    } else {
        spec_u_escape(code as nat)
    }
}

/// The code points that a separator character is drawn from.
pub open spec fn sep_code_ok(wide: bool, code: u32) -> bool {
    if wide {
        0x10000 <= code < 0x10ffff
    } else {
        (0x20 <= code < 0x7e) || (0xa0 <= code < 0xd7ff) || (0xe000 <= code < 0xffff)
    }
}

/// Appends `\u` and the four hexadecimal digits of `v`.
fn push_u_escape(out: &mut String, v: u32)
    requires
        v <= 0xffff,
    ensures
        final(out)@ == old(out)@ + spec_u_escape(v as nat),
{
    push_char(out, '\\');
    push_char(out, 'u');
    push_hex(out, ((v / 4096) % 16) as u8);
    push_hex(out, ((v / 256) % 16) as u8);
    push_hex(out, ((v / 16) % 16) as u8);
    push_hex(out, (v % 16) as u8);
    assert(out@ =~= old(out)@ + spec_u_escape(v as nat));
}

/// A separator for the words of a made-up name, with escapes.
fn name_sep(rng: &mut rand_chacha::ChaCha8Rng) -> (s: String)
    ensures
        exists|wide: bool, code: u32, literal: bool|
            sep_code_ok(wide, code) && s@ == spec_name_sep(wide, code, literal),
{
    let mut s = String::new();
    if rng_bool(rng) {
        let code = rng_range_u32(rng, 0x10000, 0x0010_ffff);
        let hi = 0xd800 + (code - 0x10000) / 0x400;
        let lo = 0xdc00 + (code - 0x10000) % 0x400;
        push_u_escape(&mut s, hi);
        push_u_escape(&mut s, lo);
        assert(s@ =~= spec_name_sep(true, code, false));
        assert(sep_code_ok(true, code));
    } else {
        let idx = rng_range_usize(rng, 0, 3);
        let code = if idx == 0 {
            rng_range_u32(rng, 0x20, 0x7e)
        } else if idx == 1 {
            rng_range_u32(rng, 0xa0, 0xd7ff)
        } else {
            rng_range_u32(rng, 0xe000, 0xffff)
        };
        assert(sep_code_ok(false, code));
        if rng_bool(rng) {
            if code != 0x7b && code != 0x7d {
                match char_from_u32(code) {
                    Some(c) => push_char(&mut s, c),
                    None => {},
                }
            }
            assert(s@ =~= spec_name_sep(false, code, true));
        } else {
            push_u_escape(&mut s, code);
            assert(s@ =~= spec_name_sep(false, code, false));
        }
    }
    s
}


/// Words joined into a made-up name: each word in turn, and before each word of
/// odd index its separator.
pub open spec fn spec_joined(words: Seq<Seq<char>>, seps: Seq<Seq<char>>) -> Seq<char>
    decreases words.len(),
{
    if words.len() == 0 {
        Seq::empty()
    } else {
        let i = words.len() - 1;
        spec_joined(words.drop_last(), seps) + (if i % 2 == 1 {
            seps[i]
        } else {
            Seq::empty()
        }) + words[i]
    }
}

/// The separators of a made-up name: a hyphen, or, when escapes are wanted, a
/// separator drawn as [`spec_name_sep`] says.
pub open spec fn seps_ok(seps: Seq<Seq<char>>, more_escapes: bool) -> bool {
    forall|i: int|
        0 <= i < seps.len() && i % 2 == 1 ==> if more_escapes {
            exists|wide: bool, code: u32, literal: bool|
                sep_code_ok(wide, code) && #[trigger] seps[i] == spec_name_sep(wide, code, literal)
        } else {
            seps[i] == seq!['-']
        }
}

/// The words of `name`, each in lower case.
pub open spec fn lowered_words(name: Seq<char>) -> Seq<Seq<char>> {
    words_of(name).map_values(|w: Seq<char>| lowercase_of(w))
}

/// A made-up full name in one of seven locales, its words in lower case and
/// joined: every other word is preceded by a hyphen, or by an escaped
/// character when `more_escapes` holds.
fn fake_name(rng: &mut rand_chacha::ChaCha8Rng, more_escapes: bool) -> (s: String)
    ensures
        exists|name: Seq<char>, seps: Seq<Seq<char>>|
            lowered_words(name).len() == seps.len() && seps_ok(seps, more_escapes) && s@ == #[trigger] spec_joined(
                lowered_words(name),
                seps,
            ),
{
    let which = rng_range_i32(rng, 0, 7);
    let name = if which == 0 {
        fake_name_ar_sa(rng)
    } else if which == 1 {
        fake_name_en(rng)
    } else if which == 2 {
        fake_name_fr_fr(rng)
    } else if which == 3 {
        fake_name_ja_jp(rng)
    } else if which == 4 {
        fake_name_pt_br(rng)
    } else if which == 5 {
        fake_name_zh_cn(rng)
    } else {
        fake_name_zh_tw(rng)
    };
    let frags = split_whitespace(name.as_str());
    let mut res = String::new();
    let ghost mut words: Seq<Seq<char>> = Seq::empty();
    let ghost mut seps: Seq<Seq<char>> = Seq::empty();
    let mut i: usize = 0;
    while i < frags.len()
        invariant
            i <= frags@.len(),
            frags@.len() == words_of(name@).len(),
            forall|j: int| 0 <= j < frags@.len() ==> #[trigger] frags@[j]@ == words_of(name@)[j],
            words == lowered_words(name@).subrange(0, i as int),
            words.len() == i,
            seps.len() == i,
            seps_ok(seps, more_escapes),
            res@ == spec_joined(words, seps),
        decreases frags@.len() - i,
    {
        let ghost before = res@;
        let ghost mut sep: Seq<char> = Seq::empty();
        if i % 2 == 1 && i > 0 {
            if more_escapes {
                let t = name_sep(rng);
                res.append(t.as_str());
                proof {
                    sep = t@;
                }
            } else {
                push_char(&mut res, '-');
                proof {
                    sep = seq!['-'];
                }
            }
        }
        assert(res@ =~= before + sep);
        let low = to_lowercase(frags[i].as_str());
        res.append(low.as_str());
        proof {
            let w2 = words.push(low@);
            let s2 = seps.push(sep);
            assert(w2 =~= lowered_words(name@).subrange(0, i + 1));
            assert(w2.drop_last() =~= words);
            assert(s2[i as int] == sep);
            assert(spec_joined(words, s2) == spec_joined(words, seps)) by {
                lemma_joined_seps_prefix(words, seps, s2);
            }
            assert(res@ =~= spec_joined(w2, s2));
            assert forall|j: int| 0 <= j < s2.len() && j % 2 == 1 implies if more_escapes {
                exists|wide: bool, code: u32, literal: bool|
                    sep_code_ok(wide, code) && #[trigger] s2[j] == spec_name_sep(wide, code, literal)
            } else {
                s2[j] == seq!['-']
            } by {
                if j < i {
                    assert(s2[j] == seps[j]);
                }
            }
            words = w2;
            seps = s2;
        }
        i = i + 1;
    }
    proof {
        assert(words =~= lowered_words(name@));
    }
    res
}

/// Joining depends on the separators of the words joined alone.
proof fn lemma_joined_seps_prefix(words: Seq<Seq<char>>, s1: Seq<Seq<char>>, s2: Seq<Seq<char>>)
    requires
        words.len() <= s1.len(),
        words.len() <= s2.len(),
        forall|j: int| 0 <= j < words.len() ==> s1[j] == s2[j],
    ensures
        spec_joined(words, s1) == spec_joined(words, s2),
    decreases words.len(),
{
    if words.len() > 0 {
        lemma_joined_seps_prefix(words.drop_last(), s1, s2);
    }
}


/// Verus's view of `petgraph::Directed`, the marker of directed graphs.
#[verifier::external_type_specification]
#[verifier::external_body]
pub struct ExDirected(petgraph::Directed);

/// Verus's view of `petgraph::graphmap::GraphMap`, a graph keyed by its nodes.
#[verifier::external_type_specification]
#[verifier::external_body]
#[verifier::reject_recursive_types(N)]
#[verifier::reject_recursive_types(E)]
#[verifier::reject_recursive_types(Ty)]
#[verifier::reject_recursive_types(S)]
pub struct ExGraphMap<N, E, Ty, S: std::hash::BuildHasher>(petgraph::graphmap::GraphMap<N, E, Ty, S>);

/// The graph of modules that the generator draws: rules by number, and an edge
/// named by a module from the rule that provides it to one that requires it.
pub type ModuleGraph = petgraph::graphmap::GraphMap<u8, String, petgraph::Directed>;

/// The edges of `g` and their weights.
pub uninterp spec fn graph_edges(g: ModuleGraph) -> Map<(u8, u8), Seq<char>>;

/// No edges.
pub open spec fn no_edges() -> Map<(u8, u8), Seq<char>> {
    Map::empty()
}

/// `GraphMap::new`: a graph without edges.
#[verifier::external_body]
fn graph_new() -> (g: ModuleGraph)
    ensures
        graph_edges(g) == no_edges(),
{
    ModuleGraph::new()
}

/// `GraphMap::add_edge` on a directed graph: the edge from `a` to `b` gets the
/// weight `weight`, replacing any it had.
#[verifier::external_body]
fn graph_add_edge(g: &mut ModuleGraph, a: u8, b: u8, weight: String)
    ensures
        graph_edges(*final(g)) == graph_edges(*old(g)).insert((a, b), weight@),
{
    g.add_edge(a, b, weight);
}

/// A copy of the module `d`.
fn clone_module_desc<'i>(d: &ModuleDesc<'i>) -> (c: ModuleDesc<'i>)
    ensures
        c.model() == d.model(),
{
    match d {
        ModuleDesc::ByLogicalName { logical_name, source_path, compiled_module_path, unique_on_source_path } => {
            ModuleDesc::ByLogicalName {
                logical_name: clone_cow_str(logical_name),
                source_path: match source_path {
                    Some(p) => Some(clone_cow_str(p)),
                    None => None,
                },
                compiled_module_path: match compiled_module_path {
                    Some(p) => Some(clone_cow_str(p)),
                    None => None,
                },
                unique_on_source_path: match unique_on_source_path {
                    Some(_) => Some(must_be_false()),
                    None => None,
                },
            }
        },
        ModuleDesc::BySourcePath { logical_name, source_path, compiled_module_path, .. } => {
            ModuleDesc::BySourcePath {
                logical_name: clone_cow_str(logical_name),
                source_path: clone_cow_str(source_path),
                compiled_module_path: match compiled_module_path {
                    Some(p) => Some(clone_cow_str(p)),
                    None => None,
                },
                unique_on_source_path: must_be_true(),
            }
        },
    }
}

/// The lookup method that two coins give: by name on a first true coin, else by
/// angle include on a second, else by quote include.
pub open spec fn spec_lookup_from(first: bool, second: bool) -> RequiredModuleDescLookupMethod {
    if first {
        RequiredModuleDescLookupMethod::ByName
    } else if second {
        RequiredModuleDescLookupMethod::IncludeAngle
    } else {
        RequiredModuleDescLookupMethod::IncludeQuote
    }
}

/// The lookup method drawn from the bytes `d`, and the bytes left: a first
/// coin, and a second one only when the first is false.
pub open spec fn spec_draw_lookup(d: Seq<u8>) -> (RequiredModuleDescLookupMethod, Seq<u8>) {
    let (first, rest) = spec_draw_bool(d);
    if first {
        (spec_lookup_from(true, false), rest)
    } else {
        let (second, left) = spec_draw_bool(rest);
        (spec_lookup_from(false, second), left)
    }
}

/// How a required module is looked up, as `arbitrary` draws it: by name on a
/// first true coin, else by angle include on a second, else by quote include.
pub fn arbitrary_lookup_method(u: &mut arbitrary::Unstructured) -> (m: RequiredModuleDescLookupMethod)
    ensures
        (m, unstructured_data(*final(u))) == spec_draw_lookup(unstructured_data(*old(u))),
{
    let first = draw_bool(u);
    if first {
        assert(RequiredModuleDescLookupMethod::ByName == spec_lookup_from(true, false));
        return RequiredModuleDescLookupMethod::ByName;
    }
    let second = draw_bool(u);
    let m = if second {
        RequiredModuleDescLookupMethod::IncludeAngle
    } else {
        RequiredModuleDescLookupMethod::IncludeQuote
    };
    assert(m == spec_lookup_from(false, second));
    m
}

/// Every module that a rule of `rules` requires is provided by a rule of `rules`.
pub open spec fn all_provided(rules: Seq<DepInfoModel>) -> bool {
    forall|i: int, key: Seq<char>|
        0 <= i < rules.len() && #[trigger] requires_keys(rules[i]).contains(key) ==> exists|j: int|
            0 <= j < rules.len() && #[trigger] provides_keys(rules[j]).contains(key)
}

/// Each edge of the graph joins two rules: the first provides the module that
/// names it, the second requires it.
pub open spec fn edges_named(edges: Map<(u8, u8), Seq<char>>, rules: Seq<DepInfoModel>) -> bool {
    forall|e: (u8, u8)| #[trigger] edges.contains_key(e) ==> {
        &&& e.0 < rules.len()
        &&& e.1 < rules.len()
        &&& provides_keys(rules[e.0 as int]).contains(edges[e])
        &&& requires_keys(rules[e.1 as int]).contains(edges[e])
    }
}

/// The numbers of `s` ascend strictly and lie in `lo..=hi`.
pub open spec fn ascending_in(s: Seq<u8>, lo: int, hi: int) -> bool {
    &&& forall|i: int, j: int| 0 <= i < j < s.len() ==> s[i] < s[j]
    &&& forall|i: int| 0 <= i < s.len() ==> lo <= #[trigger] s[i] <= hi
}

/// `s` with `x` added, as a set of numbers kept in ascending order.
fn insert_sorted(s: &mut Vec<u8>, x: u8, lo: Ghost<int>, hi: Ghost<int>)
    requires
        ascending_in(old(s)@, lo@, hi@),
        lo@ <= x <= hi@,
    ensures
        ascending_in(final(s)@, lo@, hi@),
        final(s)@.to_set() == old(s)@.to_set().insert(x),
{
    let mut i: usize = 0;
    while i < s.len() && s[i] < x
        invariant
            i <= s@.len(),
            s@ == old(s)@,
            forall|j: int| 0 <= j < i ==> s@[j] < x,
        decreases s@.len() - i,
    {
        i = i + 1;
    }
    if i < s.len() && s[i] == x {
        assert(old(s)@.to_set().insert(x) =~= old(s)@.to_set());
        return;
    }
    s.insert(i, x);
    proof {
        let o = old(s)@;
        assert(s@ =~= o.subrange(0, i as int).push(x) + o.subrange(i as int, o.len() as int));
        assert forall|a: int, b: int| 0 <= a < b < s@.len() implies s@[a] < s@[b] by {
            if b == i {
            } else if a == i {
                assert(s@[b] == o[b - 1]);
            } else {
                if a > i {
                    assert(s@[a] == o[a - 1]);
                }
                if b > i {
                    assert(s@[b] == o[b - 1]);
                }
            }
        }
        assert forall|a: int| 0 <= a < s@.len() implies lo@ <= #[trigger] s@[a] <= hi@ by {
            if a > i {
                assert(s@[a] == o[a - 1]);
            }
        }
        assert forall|v: u8| s@.to_set().contains(v) <==> o.to_set().insert(x).contains(v) by {
            if s@.to_set().contains(v) {
                let a = choose|a: int| 0 <= a < s@.len() && s@[a] == v;
                if a > i {
                    assert(s@[a] == o[a - 1]);
                } else if a < i {
                    assert(s@[a] == o[a]);
                }
            }
            if o.to_set().contains(v) {
                let a = choose|a: int| 0 <= a < o.len() && o[a] == v;
                if a >= i {
                    assert(s@[a + 1] == o[a]);
                } else {
                    assert(s@[a] == o[a]);
                }
            }
            if v == x {
                assert(s@[i as int] == x);
            }
        }
        assert(s@.to_set() =~= o.to_set().insert(x));
    }
}

/// How large the generated graph is, and whether names carry escapes.
#[derive(Clone, Copy)]
pub struct GraphGeneratorConfig {
    node_count: u8,
    more_escapes: bool,
}

impl Default for GraphGeneratorConfig {
    fn default() -> (c: Self)
        ensures
            c.spec_node_count() == 0,
            !c.spec_more_escapes(),
    {
        GraphGeneratorConfig { node_count: 0, more_escapes: false }
    }
}

impl GraphGeneratorConfig {
    /// The number of edges drawn; the rules are numbered `0..=node_count`.
    pub closed spec fn spec_node_count(&self) -> u8 {
        self.node_count
    }

    /// Whether the words of names are separated by escaped characters.
    pub closed spec fn spec_more_escapes(&self) -> bool {
        self.more_escapes
    }

    /// Sets the number of edges.
    pub fn node_count(self, node_count: u8) -> (c: Self)
        ensures
            c.spec_node_count() == node_count,
            c.spec_more_escapes() == self.spec_more_escapes(),
    {
        GraphGeneratorConfig { node_count, more_escapes: self.more_escapes }
    }

    /// Sets whether names carry escapes.
    pub fn more_escapes(self, more_escapes: bool) -> (c: Self)
        ensures
            c.spec_node_count() == self.spec_node_count(),
            c.spec_more_escapes() == more_escapes,
    {
        GraphGeneratorConfig { node_count: self.node_count, more_escapes }
    }

    /// A generator of this configuration.
    pub fn build(self, rng: &mut rand_chacha::ChaCha8Rng) -> (g: GraphGenerator)
        ensures
            g.wf(),
            g.config() == self,
            g.fresh(),
    {
        GraphGenerator::new(rng, self)
    }
}

/// What the generator has drawn so far: the rules, each with the name of its
/// primary output, the graph, and the rules that provide or require a module.
pub struct GraphGeneratorState {
    info_mem: Vec<DepInfo<'static>>,
    stems: Vec<String>,
    graph: ModuleGraph,
    known_producers: Vec<u8>,
    known_consumers: Vec<u8>,
}

/// Draws a graph of modules over rules with made-up names.
pub struct GraphGenerator {
    config: GraphGeneratorConfig,
    state: GraphGeneratorState,
}

impl GraphGenerator {
    /// The configuration.
    pub closed spec fn config(&self) -> GraphGeneratorConfig {
        self.config
    }

    /// The rules drawn so far, by number.
    pub closed spec fn rules(&self) -> Seq<DepInfoModel> {
        self.state.info_mem.model()
    }

    /// The graph drawn so far.
    pub closed spec fn graph(&self) -> ModuleGraph {
        self.state.graph
    }

    /// No module was drawn yet: no rule provides or requires one, and the graph
    /// has no edge.
    pub open spec fn fresh(&self) -> bool {
        &&& forall|i: int| 0 <= i < self.rules().len() ==> {
            &&& #[trigger] self.rules()[i].provides.len() == 0
            &&& self.rules()[i].requires.len() == 0
        }
        &&& graph_edges(self.graph()) == no_edges()
    }

    /// The rules are numbered `0..=node_count`, each with a primary output that
    /// is the name of its sources and `.o`, and nothing else; every module that a
    /// rule requires is provided by a rule.
    pub closed spec fn wf(&self) -> bool {
        let n = self.config.node_count as int;
        &&& self.state.info_mem@.len() == n + 1
        &&& self.state.stems@.len() == n + 1
        &&& forall|i: int| 0 <= i <= n ==> {
            let r = #[trigger] self.state.info_mem@[i];
            &&& r.work_directory is None
            &&& r.outputs@.len() == 0
            &&& r.primary_output matches Some(p) && p@ == self.state.stems@[i]@ + seq!['.', 'o']
        }
        &&& all_provided(self.rules())
        &&& edges_named(graph_edges(self.state.graph), self.rules())
        &&& ascending_in(self.state.known_producers@, 0, n)
        &&& ascending_in(self.state.known_consumers@, 1, n)
    }

    /// Draws the rules: `node_count + 1` of them, each with a made-up name for
    /// its primary output.
    pub fn new(rng: &mut rand_chacha::ChaCha8Rng, config: GraphGeneratorConfig) -> (g: Self)
        ensures
            g.wf(),
            g.config() == config,
            g.fresh(),
    {
        let mut info_mem: Vec<DepInfo<'static>> = Vec::new();
        let mut stems: Vec<String> = Vec::new();
        let mut id: u8 = 0;
        loop
            invariant_except_break
                info_mem@.len() == id,
                stems@.len() == id,
                forall|i: int| 0 <= i < id ==> {
                    let r = #[trigger] info_mem@[i];
                    &&& r.work_directory is None
                    &&& r.outputs@.len() == 0
                    &&& r.provides@.len() == 0
                    &&& r.requires@.len() == 0
                    &&& r.primary_output matches Some(p) && p@ == stems@[i]@ + seq!['.', 'o']
                },
            invariant
                id <= config.node_count,
            ensures
                info_mem@.len() == config.node_count + 1,
                stems@.len() == config.node_count + 1,
                forall|i: int| 0 <= i <= config.node_count ==> {
                    let r = #[trigger] info_mem@[i];
                    &&& r.work_directory is None
                    &&& r.outputs@.len() == 0
                    &&& r.provides@.len() == 0
                    &&& r.requires@.len() == 0
                    &&& r.primary_output matches Some(p) && p@ == stems@[i]@ + seq!['.', 'o']
                },
            decreases config.node_count - id,
        {
            let name = fake_name(rng, config.more_escapes);
            let mut path = name.clone();
            push_char(&mut path, '.');
            push_char(&mut path, 'o');
            assert(path@ =~= name@ + seq!['.', 'o']);
            let info = DepInfo {
                work_directory: None,
                primary_output: Some(Cow::Owned(path)),
                outputs: Vec::new(),
                provides: Vec::new(),
                requires: Vec::new(),
            };
            info_mem.push(info);
            stems.push(name);
            if id == config.node_count {
                break;
            }
            id = id + 1;
        }
        let state = GraphGeneratorState {
            info_mem,
            stems,
            graph: graph_new(),
            known_producers: Vec::new(),
            known_consumers: Vec::new(),
        };
        let g = GraphGenerator { config, state };
        proof {
            assert forall|i: int, key: Seq<char>|
                0 <= i < g.rules().len() && #[trigger] requires_keys(g.rules()[i]).contains(key) implies exists|j: int|
                0 <= j < g.rules().len() && #[trigger] provides_keys(g.rules()[j]).contains(key) by {
                assert(g.rules()[i].requires.len() == 0);
            }
            assert(graph_edges(g.state.graph) =~= no_edges());
        }
        g
    }
}


/// Whether a module named `name` is among `v`.
fn has_required(v: &Vec<RequiredModuleDesc<'static>>, name: &str) -> (b: bool)
    ensures
        b == requires_keys_of(v@.map_values(|r: RequiredModuleDesc<'static>| r.model())).contains(name@),
{
    let ghost keys = requires_keys_of(v@.map_values(|r: RequiredModuleDesc<'static>| r.model()));
    let mut i: usize = 0;
    while i < v.len()
        invariant
            i <= v@.len(),
            keys == requires_keys_of(v@.map_values(|r: RequiredModuleDesc<'static>| r.model())),
            keys.len() == v@.len(),
            forall|j: int| 0 <= j < i ==> keys[j] != name@,
        decreases v@.len() - i,
    {
        let key = v[i].desc.logical_name();
        assert(keys[i as int] == v@[i as int].desc.model().logical_name());
        if str_eq(cow_as_str(&key), name) {
            assert(keys[i as int] == name@);
            return true;
        }
        i = i + 1;
    }
    assert(!keys.contains(name@));
    false
}

/// Whether a module named `name` is among `v`.
fn has_provided(v: &Vec<ProvidedModuleDesc<'static>>, name: &str) -> (b: bool)
    ensures
        b == provides_keys_of(v@.map_values(|p: ProvidedModuleDesc<'static>| p.model())).contains(name@),
{
    let ghost keys = provides_keys_of(v@.map_values(|p: ProvidedModuleDesc<'static>| p.model()));
    let mut i: usize = 0;
    while i < v.len()
        invariant
            i <= v@.len(),
            keys == provides_keys_of(v@.map_values(|p: ProvidedModuleDesc<'static>| p.model())),
            keys.len() == v@.len(),
            forall|j: int| 0 <= j < i ==> keys[j] != name@,
        decreases v@.len() - i,
    {
        let key = v[i].desc.logical_name();
        assert(keys[i as int] == v@[i as int].desc.model().logical_name());
        if str_eq(cow_as_str(&key), name) {
            assert(keys[i as int] == name@);
            return true;
        }
        i = i + 1;
    }
    assert(!keys.contains(name@));
    false
}

/// The logical names of required modules.
pub open spec fn requires_keys_of(v: Seq<crate::r5::RequiredModel>) -> Seq<Seq<char>> {
    v.map_values(|r: crate::r5::RequiredModel| r.desc.logical_name())
}

/// The logical names of provided modules.
pub open spec fn provides_keys_of(v: Seq<crate::r5::ProvidedModel>) -> Seq<Seq<char>> {
    v.map_values(|p: crate::r5::ProvidedModel| p.desc.logical_name())
}

/// A provided module as the generator draws it fresh for the rule whose sources
/// are named `stem`: its source path, if any, is `stem` and `.cpp`, and it has no
/// compiled module path.
pub open spec fn fresh_module(d: crate::r5::ModuleDescModel, stem: Seq<char>) -> bool {
    match d {
        crate::r5::ModuleDescModel::ByLogicalName { source_path, compiled_module_path, .. } => {
            &&& source_path matches Some(p) ==> p == stem + seq!['.', 'c', 'p', 'p']
            &&& compiled_module_path is None
        },
        crate::r5::ModuleDescModel::BySourcePath { source_path, compiled_module_path, .. } => {
            &&& source_path == stem + seq!['.', 'c', 'p', 'p']
            &&& compiled_module_path is None
        },
    }
}

/// The coins that a fresh module is drawn by, read in turn from the bytes `d`:
/// whether it has no source path; whether it is named by that path (only with
/// a path and a set second coin); whether, named by its logical name, it leaves
/// the uniqueness out (read only when not named by its path); whether it is an
/// interface; and the bytes left.
pub open spec fn spec_fresh_coins(d: Seq<u8>) -> (bool, bool, bool, bool, Seq<u8>) {
    let (no_source, d1) = spec_draw_bool(d);
    let (unique, d2) = spec_draw_bool(d1);
    let by_path = !no_source && unique;
    let (no_unique, d3) = if by_path {
        (false, d2)
    } else {
        spec_draw_bool(d2)
    };
    let (is_interface, d4) = spec_draw_bool(d3);
    (no_source, by_path, no_unique, is_interface, d4)
}

/// A rule drawn from the bytes `d`, and the bytes left: when more than four
/// rules are `known`, a coin that is true `numerator` times in `denominator`
/// picks one of them by an index drawn next; otherwise a number of `lo..=hi`
/// is drawn.
pub open spec fn spec_pick_rule(
    d: Seq<u8>,
    known: Seq<u8>,
    numerator: int,
    denominator: int,
    lo: int,
    hi: int,
) -> (int, Seq<u8>) {
    let (take, rest) = if known.len() > 4 {
        spec_draw_ratio(d, numerator, denominator)
    } else {
        (false, d)
    };
    if take {
        let (i, left) = spec_draw_int(rest, 0, known.len() - 1);
        (known[i] as int, left)
    } else {
        spec_draw_int(rest, lo, hi)
    }
}

impl GraphGenerator {
    /// The rules that require a module so far, in ascending order.
    pub closed spec fn consumers(&self) -> Seq<u8> {
        self.state.known_consumers@
    }

    /// The rules that provide a module so far, in ascending order.
    pub closed spec fn producers(&self) -> Seq<u8> {
        self.state.known_producers@
    }

    /// The name of the sources of rule `i`.
    pub closed spec fn stem(&self, i: int) -> Seq<char> {
        self.state.stems@[i]@
    }

    /// The rule that requires the next module: one of the rules that already
    /// require one, when there are more than four, half the time; else any rule
    /// but the first.
    fn gen_dst(&self, u: &mut arbitrary::Unstructured) -> (dst: u8)
        requires
            self.wf(),
            self.config().spec_node_count() >= 1,
        ensures
            1 <= dst <= self.config().spec_node_count(),
            (dst as int, unstructured_data(*final(u))) == spec_pick_rule(
                unstructured_data(*old(u)),
                self.consumers(),
                1,
                2,
                1,
                self.config().spec_node_count() as int,
            ),
    {
        let consumers = &self.state.known_consumers;
        if consumers.len() > 0 && consumers.len() > 4 && draw_ratio(u, 1, 2) {
            let i = draw_index(u, consumers.len());
            consumers[i]
        } else {
            draw_u8(u, 1, self.config.node_count)
        }
    }

    /// The rule that provides the next module, for the rule `dst` that requires
    /// it: one of the rules that already provide one, when there are more than
    /// four, three times in four; else a rule numbered below `dst`.
    fn gen_src(&self, u: &mut arbitrary::Unstructured, dst: u8) -> (src: u8)
        requires
            self.wf(),
            1 <= dst <= self.config().spec_node_count(),
        ensures
            src <= self.config().spec_node_count(),
            (src as int, unstructured_data(*final(u))) == spec_pick_rule(
                unstructured_data(*old(u)),
                self.producers(),
                3,
                4,
                0,
                dst - 1,
            ),
    {
        let producers = &self.state.known_producers;
        if producers.len() > 0 && producers.len() > 4 && draw_ratio(u, 3, 4) {
            let i = draw_index(u, producers.len());
            producers[i]
        } else {
            draw_u8(u, 0, dst - 1)
        }
    }

    /// A module with a made-up name for the rule `src` to provide: its source
    /// path, when it has one, is the rule's sources with `.cpp`; it is unique on
    /// that path when drawn so.
    fn gen_provided_desc_fresh(
        &self,
        rng: &mut rand_chacha::ChaCha8Rng,
        u: &mut arbitrary::Unstructured,
        src: u8,
    ) -> (p: ProvidedModuleDesc<'static>)
        requires
            self.wf(),
            src <= self.config().spec_node_count(),
        ensures
            fresh_module(p.desc.model(), self.stem(src as int)),
            ({
                let (no_source, by_path, no_unique, is_interface, rest) = spec_fresh_coins(
                    unstructured_data(*old(u)),
                );
                &&& p.is_interface == is_interface
                &&& unstructured_data(*final(u)) == rest
                &&& (p.desc is BySourcePath <==> by_path)
                &&& p.desc matches ModuleDesc::ByLogicalName { source_path, unique_on_source_path, .. } ==> {
                    &&& (source_path is None <==> no_source)
                    &&& (unique_on_source_path is None <==> no_unique)
                }
            }),
    {
        let module_name = fake_name(rng, self.config.more_escapes);
        let no_source = draw_bool(u);
        let source_path: Option<Cow<'static, str>> = if no_source {
            None
        } else {
            let mut path = self.state.stems[src as usize].clone();
            push_char(&mut path, '.');
            push_char(&mut path, 'c');
            push_char(&mut path, 'p');
            push_char(&mut path, 'p');
            assert(path@ =~= self.stem(src as int) + seq!['.', 'c', 'p', 'p']);
            Some(Cow::Owned(path))
        };
        let unique_on_source_path = draw_bool(u);
        let logical_name: Cow<'static, str> = Cow::Owned(module_name);
        let desc = match source_path {
            Some(source_path) if unique_on_source_path => ModuleDesc::BySourcePath {
                source_path,
                compiled_module_path: None,
                logical_name,
                unique_on_source_path: must_be_true(),
            },
            source_path => ModuleDesc::ByLogicalName {
                source_path,
                compiled_module_path: None,
                logical_name,
                unique_on_source_path: if draw_bool(u) {
                    None
                } else {
                    Some(must_be_false())
                },
            },
        };
        let is_interface = draw_bool(u);
        ProvidedModuleDesc { desc, is_interface }
    }

    /// A module for the rule `src` to provide: one it already provides, three
    /// times in four when it provides any; else a fresh one.
    fn gen_provided_desc(
        &self,
        rng: &mut rand_chacha::ChaCha8Rng,
        u: &mut arbitrary::Unstructured,
        src: u8,
    ) -> (p: ProvidedModuleDesc<'static>)
        requires
            self.wf(),
            src <= self.config().spec_node_count(),
        ensures
            provides_keys(self.rules()[src as int]).contains(p.desc.model().logical_name())
                || fresh_module(p.desc.model(), self.stem(src as int)),
    {
        let info = &self.state.info_mem[src as usize];
        if info.provides.len() > 0 && draw_ratio(u, 3, 4) {
            let i = draw_index(u, info.provides.len());
            let old = &info.provides[i];
            let p = ProvidedModuleDesc { desc: clone_module_desc(&old.desc), is_interface: old.is_interface };
            assert(provides_keys(self.rules()[src as int])[i as int] == p.desc.model().logical_name());
            return p;
        }
        self.gen_provided_desc_fresh(rng, u, src)
    }
}


/// `new` is `old` with a module named by `d` required, unless one of that name
/// already is.
pub open spec fn required_added(
    old: Seq<crate::r5::RequiredModel>,
    new: Seq<crate::r5::RequiredModel>,
    d: crate::r5::ModuleDescModel,
) -> bool {
    if requires_keys_of(old).contains(d.logical_name()) {
        new == old
    } else {
        &&& new.len() == old.len() + 1
        &&& new.drop_last() == old
        &&& new.last().desc == d
    }
}

/// `new` is `old` with `p` provided, unless a module of that name already is.
pub open spec fn provided_added(
    old: Seq<crate::r5::ProvidedModel>,
    new: Seq<crate::r5::ProvidedModel>,
    p: crate::r5::ProvidedModel,
) -> bool {
    if provides_keys_of(old).contains(p.desc.logical_name()) {
        new == old
    } else {
        new == old.push(p)
    }
}

/// Rules gain required and provided modules; their other fields stay.
pub open spec fn same_but_modules(a: DepInfoModel, b: DepInfoModel) -> bool {
    &&& a.work_directory == b.work_directory
    &&& a.primary_output == b.primary_output
    &&& a.outputs == b.outputs
}

proof fn lemma_keys_grow(old: Seq<DepInfoModel>, new: Seq<DepInfoModel>, src: int, dst: int, k: Seq<char>)
    requires
        old.len() == new.len(),
        0 <= src < old.len(),
        0 <= dst < old.len(),
        forall|i: int| 0 <= i < old.len() && i != dst ==> #[trigger] new[i].requires == old[i].requires,
        forall|i: int| 0 <= i < old.len() && i != src ==> #[trigger] new[i].provides == old[i].provides,
        requires_keys_of(new[dst].requires) == requires_keys_of(old[dst].requires)
            || requires_keys_of(new[dst].requires) == requires_keys_of(old[dst].requires).push(k),
        provides_keys_of(new[src].provides) == provides_keys_of(old[src].provides)
            || provides_keys_of(new[src].provides) == provides_keys_of(old[src].provides).push(k),
        provides_keys(new[src]).contains(k),
        requires_keys(new[dst]).contains(k),
    ensures
        forall|i: int, x: Seq<char>| 0 <= i < old.len() && #[trigger] provides_keys(old[i]).contains(x)
            ==> provides_keys(new[i]).contains(x),
        forall|i: int, x: Seq<char>| 0 <= i < old.len() && #[trigger] requires_keys(new[i]).contains(x)
            ==> requires_keys(old[i]).contains(x) || (i == dst && x == k),
        forall|i: int, x: Seq<char>| 0 <= i < old.len() && #[trigger] requires_keys(old[i]).contains(x)
            ==> requires_keys(new[i]).contains(x),
{
    assert forall|i: int, x: Seq<char>| 0 <= i < old.len() && #[trigger] requires_keys(old[i]).contains(x)
        implies requires_keys(new[i]).contains(x) by {
        if i == dst {
            assert(requires_keys(old[i]) == requires_keys_of(old[i].requires));
            assert(requires_keys(new[i]) == requires_keys_of(new[i].requires));
            let j = choose|j: int| 0 <= j < requires_keys(old[i]).len() && requires_keys(old[i])[j] == x;
            assert(requires_keys(new[i])[j] == x);
        } else {
            assert(requires_keys(new[i]) == requires_keys(old[i]));
        }
    }
    assert forall|i: int, x: Seq<char>| 0 <= i < old.len() && #[trigger] provides_keys(old[i]).contains(x)
        implies provides_keys(new[i]).contains(x) by {
        if i == src {
            assert(provides_keys(old[i]) == provides_keys_of(old[i].provides));
            assert(provides_keys(new[i]) == provides_keys_of(new[i].provides));
            let j = choose|j: int| 0 <= j < provides_keys(old[i]).len() && provides_keys(old[i])[j] == x;
            assert(provides_keys(new[i])[j] == x);
        } else {
            assert(provides_keys(new[i]) == provides_keys(old[i]));
        }
    }
    assert forall|i: int, x: Seq<char>| 0 <= i < old.len() && #[trigger] requires_keys(new[i]).contains(x)
        implies requires_keys(old[i]).contains(x) || (i == dst && x == k) by {
        if i == dst {
            assert(requires_keys(old[i]) == requires_keys_of(old[i].requires));
            assert(requires_keys(new[i]) == requires_keys_of(new[i].requires));
            let j = choose|j: int| 0 <= j < requires_keys(new[i]).len() && requires_keys(new[i])[j] == x;
            if j < requires_keys(old[i]).len() {
                assert(requires_keys(old[i])[j] == x);
            }
        } else {
            assert(requires_keys(new[i]) == requires_keys(old[i]));
        }
    }
}

impl GraphGenerator {
    /// Links the rule `src`, which provides the module `provided`, to the rule
    /// `dst`, which requires it: an edge of the graph named by the module; `dst`
    /// requires a module of that name, with a drawn lookup method, unless it
    /// already did; `src` provides `provided` unless it already provided a module
    /// of that name.
    #[verifier::rlimit(30)]
    fn add_edge(&mut self, u: &mut arbitrary::Unstructured, src: u8, dst: u8, provided: ProvidedModuleDesc<'static>)
        requires
            old(self).wf(),
            src <= old(self).config().spec_node_count(),
            1 <= dst <= old(self).config().spec_node_count(),
        ensures
            final(self).wf(),
            final(self).config() == old(self).config(),
            forall|i: int| 0 <= i <= old(self).config().spec_node_count() ==> #[trigger] final(self).stem(i) == old(self).stem(i),
            graph_edges(final(self).graph()) == graph_edges(old(self).graph()).insert(
                (src, dst),
                provided.desc.model().logical_name(),
            ),
            final(self).rules().len() == old(self).rules().len(),
            forall|i: int| 0 <= i < old(self).rules().len() ==> {
                &&& same_but_modules(#[trigger] final(self).rules()[i], old(self).rules()[i])
                &&& i != dst ==> final(self).rules()[i].requires == old(self).rules()[i].requires
                &&& i != src ==> final(self).rules()[i].provides == old(self).rules()[i].provides
            },
            required_added(old(self).rules()[dst as int].requires, final(self).rules()[dst as int].requires, provided.desc.model()),
            provided_added(old(self).rules()[src as int].provides, final(self).rules()[src as int].provides, provided.model()),
    {
        let ghost old_rules = self.rules();
        let ghost k = provided.desc.model().logical_name();
        let ghost pm = provided.model();
        let ghost n = self.config.node_count as int;
        let key = provided.desc.logical_name();
        let key_str = cow_as_str(&key);
        let name: String = key_str.to_owned();
        graph_add_edge(&mut self.state.graph, src, dst, name);
        insert_sorted(&mut self.state.known_producers, src, Ghost(0int), Ghost(n));
        insert_sorted(&mut self.state.known_consumers, dst, Ghost(1int), Ghost(n));
        let has_req = has_required(&self.state.info_mem[dst as usize].requires, key_str);
        let ghost mut added = old_rules[dst as int].requires;
        if !has_req {
            let lookup_method = arbitrary_lookup_method(u);
            let mut info = self.state.info_mem.remove(dst as usize);
            let ghost before = info.requires@;
            assert(before.map_values(|r: RequiredModuleDesc<'static>| r.model()) == old_rules[dst as int].requires);
            info.requires.push(RequiredModuleDesc { desc: clone_module_desc(&provided.desc), lookup_method });
            proof {
                assert(info.requires.model() =~= before.map_values(|r: RequiredModuleDesc<'static>| r.model()).push(
                    info.requires@.last().model(),
                ));
                added = info.requires.model();
                assert(added.drop_last() =~= old_rules[dst as int].requires);
                assert(added.last().desc == provided.desc.model());
            }
            self.state.info_mem.insert(dst as usize, info);
        }
        let ghost mid = self.rules();
        proof {
            assert(mid.len() == old_rules.len());
            assert forall|i: int| 0 <= i < old_rules.len() && i != dst implies #[trigger] mid[i] == old_rules[i] by {
            }
            assert(mid[dst as int].provides == old_rules[dst as int].provides);
            assert(same_but_modules(mid[dst as int], old_rules[dst as int]));
            assert(mid[dst as int].requires == added);
            if has_req {
                assert(mid =~= old_rules);
            } else {
                assert(requires_keys_of(mid[dst as int].requires) =~= requires_keys_of(old_rules[dst as int].requires).push(k));
            }
            assert(required_added(old_rules[dst as int].requires, mid[dst as int].requires, provided.desc.model()));
        }
        let has_prov = has_provided(&self.state.info_mem[src as usize].provides, key_str);
        if !has_prov {
            let mut info = self.state.info_mem.remove(src as usize);
            let ghost before = info.provides@;
            info.provides.push(provided);
            proof {
                assert(info.provides.model() =~= before.map_values(|p: ProvidedModuleDesc<'static>| p.model()).push(
                    info.provides@.last().model(),
                ));
            }
            self.state.info_mem.insert(src as usize, info);
        }
        proof {
            let new_rules = self.rules();
            assert(new_rules.len() == old_rules.len());
            assert forall|i: int| 0 <= i < old_rules.len() && i != src implies #[trigger] new_rules[i] == mid[i] by {
            }
            assert(new_rules[src as int].requires == mid[src as int].requires);
            assert(same_but_modules(new_rules[src as int], mid[src as int]));
            if has_prov {
                assert(new_rules == mid);
            } else {
                assert(provides_keys_of(new_rules[src as int].provides) =~= provides_keys_of(mid[src as int].provides).push(k));
                assert(new_rules[src as int].provides =~= mid[src as int].provides.push(pm));
            }
            assert(provided_added(old_rules[src as int].provides, new_rules[src as int].provides, pm));
            assert(required_added(old_rules[dst as int].requires, new_rules[dst as int].requires, provided.desc.model()));
            // the module `k` is now provided by `src` and required by `dst`
            assert(provides_keys(new_rules[src as int]).contains(k)) by {
                if has_prov {
                    assert(provides_keys(new_rules[src as int]) == provides_keys_of(mid[src as int].provides));
                } else {
                    let last = provides_keys(new_rules[src as int]).len() - 1;
                    assert(provides_keys(new_rules[src as int])[last] == k);
                }
            }
            assert(requires_keys(new_rules[dst as int]).contains(k)) by {
                assert(requires_keys(new_rules[dst as int]) == requires_keys_of(mid[dst as int].requires));
                if !has_req {
                    let last = requires_keys(new_rules[dst as int]).len() - 1;
                    assert(requires_keys(new_rules[dst as int])[last] == k);
                }
            }
            assert(requires_keys_of(new_rules[dst as int].requires) == requires_keys_of(old_rules[dst as int].requires)
                || requires_keys_of(new_rules[dst as int].requires) == requires_keys_of(old_rules[dst as int].requires).push(k)) by {
                assert(new_rules[dst as int].requires == mid[dst as int].requires);
                if !has_req {
                    assert(requires_keys_of(mid[dst as int].requires) =~= requires_keys_of(old_rules[dst as int].requires).push(k));
                }
            }
            assert(provides_keys_of(new_rules[src as int].provides) == provides_keys_of(old_rules[src as int].provides)
                || provides_keys_of(new_rules[src as int].provides) == provides_keys_of(old_rules[src as int].provides).push(k)) by {
                assert(mid[src as int].provides == old_rules[src as int].provides);
            }
            lemma_keys_grow(old_rules, new_rules, src as int, dst as int, k);
            assert forall|i: int, x: Seq<char>|
                0 <= i < new_rules.len() && #[trigger] requires_keys(new_rules[i]).contains(x) implies exists|j: int|
                0 <= j < new_rules.len() && #[trigger] provides_keys(new_rules[j]).contains(x) by {
                if i == dst && x == k {
                    assert(provides_keys(new_rules[src as int]).contains(x));
                } else {
                    assert(requires_keys(old_rules[i]).contains(x));
                    let j = choose|j: int| 0 <= j < old_rules.len() && #[trigger] provides_keys(old_rules[j]).contains(x);
                    assert(provides_keys(new_rules[j]).contains(x));
                }
            }
            let edges = graph_edges(self.state.graph);
            assert forall|e: (u8, u8)| #[trigger] edges.contains_key(e) implies {
                &&& e.0 < new_rules.len()
                &&& e.1 < new_rules.len()
                &&& provides_keys(new_rules[e.0 as int]).contains(edges[e])
                &&& requires_keys(new_rules[e.1 as int]).contains(edges[e])
            } by {
                assert(old_rules.len() == n + 1);
                if e != (src, dst) {
                    assert(graph_edges(old(self).state.graph).contains_key(e));
                    assert(provides_keys(old_rules[e.0 as int]).contains(edges[e]));
                    assert(requires_keys(old_rules[e.1 as int]).contains(edges[e]));
                } else {
                    assert(edges[e] == k);
                }
            }
        }
    }
}


/// The rules that a generated file keeps: those that provide or require a
/// module, and, when `select` holds, the others too.
pub open spec fn keep_rule(select: bool) -> spec_fn(DepInfoModel) -> bool {
    |m: DepInfoModel| m.provides.len() > 0 || m.requires.len() > 0 || select
}

/// The rules of `infos` that [`keep_rule`] keeps, in order.
fn select_rules(infos: Vec<DepInfo<'static>>, select: bool) -> (rules: Vec<DepInfo<'static>>)
    ensures
        rules.model() == infos.model().filter(keep_rule(select)),
{
    let ghost all = infos.model();
    let mut rest = infos;
    let mut rules: Vec<DepInfo<'static>> = Vec::new();
    assert(all.subrange(0, 0).filter(keep_rule(select)) =~= Seq::<DepInfoModel>::empty()) by {
        reveal(Seq::filter);
    }
    assert(rest.model() =~= all.subrange(0, 0 + all.len() as int));
    while rest.len() > 0
        invariant
            rest@.len() <= all.len(),
            rest.model() == all.subrange(all.len() - rest@.len(), all.len() as int),
            rules.model() == all.subrange(0, all.len() - rest@.len()).filter(keep_rule(select)),
        decreases rest@.len(),
    {
        let ghost c = all.len() - rest@.len();
        let ghost before = rules.model();
        let ghost rest_before = rest@;
        assert(rest.model()[0] == all[c]);
        let info = rest.remove(0);
        assert(info == rest_before[0]);
        assert(info.model() == all[c]);
        if info.provides.len() > 0 || info.requires.len() > 0 || select {
            rules.push(info);
            assert(rules.model() =~= before.push(all[c]));
        } else {
            assert(rules.model() =~= before);
        }
        proof {
            reveal(Seq::filter);
            assert(all.subrange(0, c + 1).drop_last() =~= all.subrange(0, c));
            assert(all.subrange(0, c + 1).last() == all[c]);
            assert(rest@ =~= rest_before.subrange(1, rest_before.len() as int));
            assert forall|j: int| 0 <= j < rest@.len() implies #[trigger] rest.model()[j] == all[c + 1 + j] by {
                assert(rest@[j] == rest_before[j + 1]);
                assert(rest_before.map_values(|t: DepInfo<'static>| t.model())[j + 1] == all[c + 1 + j]);
            }
            assert(rest.model() =~= all.subrange(c + 1, all.len() as int));
        }
    }
    assert(all.subrange(0, all.len() as int) =~= all);
    rules
}

/// What a filter keeps was in the sequence filtered.
proof fn lemma_filter_within<A>(s: Seq<A>, pred: spec_fn(A) -> bool, i: int)
    requires
        0 <= i < s.filter(pred).len(),
    ensures
        s.contains(s.filter(pred)[i]),
    decreases s.len(),
{
    reveal(Seq::filter);
    if s.len() > 0 {
        let sub = s.drop_last().filter(pred);
        if i < sub.len() {
            lemma_filter_within(s.drop_last(), pred, i);
            let j = choose|j: int| 0 <= j < s.drop_last().len() && s.drop_last()[j] == sub[i];
            assert(s[j] == sub[i]);
        } else {
            assert(s[s.len() - 1] == s.filter(pred)[i]);
        }
    }
}

/// What the generator keeps of every module that a rule requires being provided
/// by a rule, once the rules that provide and require nothing may be dropped.
proof fn lemma_kept_all_provided(rules: Seq<DepInfoModel>, select: bool)
    requires
        all_provided(rules),
    ensures
        all_provided(rules.filter(keep_rule(select))),
{
    broadcast use Seq::lemma_filter_contains, Seq::lemma_filter_pred;

    let kept = rules.filter(keep_rule(select));
    assert forall|i: int, key: Seq<char>|
        0 <= i < kept.len() && #[trigger] requires_keys(kept[i]).contains(key) implies exists|j: int|
        0 <= j < kept.len() && #[trigger] provides_keys(kept[j]).contains(key) by {
        lemma_filter_within(rules, keep_rule(select), i);
        assert(rules.contains(kept[i]));
        let a = choose|a: int| 0 <= a < rules.len() && rules[a] == kept[i];
        assert(requires_keys(rules[a]).contains(key));
        let b = choose|b: int| 0 <= b < rules.len() && #[trigger] provides_keys(rules[b]).contains(key);
        assert(rules[b].provides.len() > 0);
        assert(keep_rule(select)(rules[b]));
        assert(kept.contains(rules[b]));
        let c = choose|c: int| 0 <= c < kept.len() && kept[c] == rules[b];
        assert(provides_keys(kept[c]).contains(key));
    }
}

impl GraphGenerator {
    /// Draws `node_count` links between the rules and gives the rules and the
    /// graph: every module that a rule requires is provided by a rule, and each
    /// edge of the graph is a module that its first rule provides and its second
    /// requires.
    pub fn run(self, rng: &mut rand_chacha::ChaCha8Rng, u: &mut arbitrary::Unstructured) -> (r: (
        Vec<DepInfo<'static>>,
        ModuleGraph,
    ))
        requires
            self.wf(),
        ensures
            r.0.model().len() == self.rules().len(),
            forall|i: int| 0 <= i < self.rules().len() ==> same_but_modules(#[trigger] r.0.model()[i], self.rules()[i]),
            all_provided(r.0.model()),
            edges_named(graph_edges(r.1), r.0.model()),
            // Links are only added, one for each of `node_count` draws.
            forall|e: (u8, u8)| #[trigger] graph_edges(self.graph()).contains_key(e) ==> graph_edges(r.1).contains_key(e),
            self.config().spec_node_count() > 0 ==> exists|e: (u8, u8)| #[trigger] graph_edges(r.1).contains_key(e),
    {
        let mut g = self;
        let mut i: u8 = 0;
        while i < g.config.node_count
            invariant
                g.wf(),
                g.config() == self.config(),
                g.rules().len() == self.rules().len(),
                forall|j: int| 0 <= j < self.rules().len() ==> same_but_modules(#[trigger] g.rules()[j], self.rules()[j]),
                forall|e: (u8, u8)| #[trigger] graph_edges(self.graph()).contains_key(e) ==> graph_edges(g.graph()).contains_key(e),
                i > 0 ==> exists|e: (u8, u8)| #[trigger] graph_edges(g.graph()).contains_key(e),
            decreases g.config().spec_node_count() - i,
        {
            let dst = g.gen_dst(u);
            let src = g.gen_src(u, dst);
            let provided = g.gen_provided_desc(rng, u, src);
            let ghost before = g.rules();
            let ghost edges_before = graph_edges(g.graph());
            g.add_edge(u, src, dst, provided);
            assert(graph_edges(g.graph()).contains_key((src, dst)));
            assert forall|e: (u8, u8)| #[trigger] graph_edges(self.graph()).contains_key(e) implies graph_edges(g.graph()).contains_key(e) by {
                assert(edges_before.contains_key(e));
            }
            assert forall|j: int| 0 <= j < self.rules().len() implies same_but_modules(#[trigger] g.rules()[j], self.rules()[j]) by {
                assert(same_but_modules(g.rules()[j], before[j]));
            }
            i = i + 1;
        }
        proof {
            assert(g.rules() == g.state.info_mem.model());
            assert(g.graph() == g.state.graph);
            assert(g.config.node_count == self.config().spec_node_count());
        }
        let r = (g.state.info_mem, g.state.graph);
        proof {
            if self.config().spec_node_count() > 0 {
                let e = choose|e: (u8, u8)| #[trigger] graph_edges(r.1).contains_key(e);
                assert(graph_edges(r.1).contains_key(e));
            }
        }
        r
    }

    /// A dependency file of version 1 drawn from `rng`: the rules of a drawn
    /// graph, those that provide or require nothing dropped three times in four.
    /// Every module that a rule of it requires is provided by a rule of it.
    pub fn gen_dep_file(rng: &mut rand_chacha::ChaCha8Rng, config: GraphGeneratorConfig) -> (d: DepFile<'static>)
        ensures
            d.version == 1,
            d.revision is None,
            all_provided(d.rules.model()),
            // The rules kept are those of a drawn graph of `node_count + 1` rules
            // that provide or require a module, and the others when the quarter
            // draw says so.
            exists|all: Seq<DepInfoModel>, select: bool| {
                &&& all.len() == config.spec_node_count() + 1
                &&& all_provided(all)
                &&& d.rules.model() == #[trigger] all.filter(keep_rule(select))
            },
            config.spec_node_count() > 0 ==> d.rules.len() > 0,
    {
        let mut bytes: Vec<u8> = Vec::new();
        let mut i: usize = 0;
        while i < 8192
            invariant
                i <= 8192,
            decreases 8192 - i,
        {
            bytes.push(0);
            i = i + 1;
        }
        rng_fill_bytes(rng, &mut bytes);
        let mut u = unstructured_new(bytes.as_slice());
        let gen = GraphGenerator::new(rng, config);
        let (info_mem, graph) = gen.run(rng, &mut u);
        let select = draw_ratio(&mut u, 1, 4);
        let ghost all = info_mem.model();
        let rules = select_rules(info_mem, select);
        proof {
            lemma_kept_all_provided(all, select);
            if config.spec_node_count() > 0 {
                let e = choose|e: (u8, u8)| #[trigger] graph_edges(graph).contains_key(e);
                let name = graph_edges(graph)[e];
                assert(requires_keys(all[e.1 as int]).contains(name));
                assert(all[e.1 as int].requires.len() > 0);
                all.lemma_filter_contains(keep_rule(select), e.1 as int);
                assert(rules.model().contains(all[e.1 as int]));
            }
            assert(rules.model() == all.filter(keep_rule(select)));
        }
        DepFile { version: 1, revision: None, rules }
    }
}

} // verus!
