//! The host's text measurement and the cache in front of it.
//!
//! The engine never measures glyphs itself. It asks the host once for every
//! distinct run of text, font and size, and keeps the answer.

use crate::data_type::TextMeasurement;
use vstd::hash_map::StringHashMap;
use vstd::prelude::*;
use vstd::string::StringExecFns;

verus! {

/// The one capability the engine needs from the host's text shaper.
///
/// For the cache to be right an implementation has to be a function of its
/// arguments. Nothing in the engine depends on that: every contract speaks of
/// what the cache holds.
pub trait TextMeasurer {
    fn measure(&self, text: &str, font_id: u32, font_size: u16) -> TextMeasurement;
}

/// The character of one decimal digit.
pub open spec fn digit(d: nat) -> char {
    if d == 0 {
        '0'
    } else if d == 1 {
        '1'
    } else if d == 2 {
        '2'
    } else if d == 3 {
        '3'
    } else if d == 4 {
        '4'
    } else if d == 5 {
        '5'
    } else if d == 6 {
        '6'
    } else if d == 7 {
        '7'
    } else if d == 8 {
        '8'
    } else {
        '9'
    }
}

/// A number written in decimal, without leading zeros.
pub open spec fn decimal(n: nat) -> Seq<char>
    decreases n,
{
    if n < 10 {
        seq![digit(n)]
    } else {
        decimal(n / 10).push(digit(n % 10))
    }
}

/// The cache key of a run of text in a font at a size: the font, a colon,
/// the size, a colon, and the text itself.
pub open spec fn key_of(word: Seq<char>, font_id: u32, font_size: u16) -> Seq<char> {
    decimal(font_id as nat) + seq![':'] + decimal(font_size as nat) + seq![':'] + word
}

/// A number in decimal has at least one character, and none is a colon.
pub proof fn lemma_decimal_digits(n: nat)
    ensures
        decimal(n).len() >= 1,
        n >= 10 ==> decimal(n).len() >= 2,
        forall|i: int| 0 <= i < decimal(n).len() ==> decimal(n)[i] != ':',
    decreases n,
{
    if n >= 10 {
        lemma_decimal_digits(n / 10);
    }
}

/// Different numbers are written differently.
pub proof fn lemma_decimal_injective(a: nat, b: nat)
    requires
        decimal(a) == decimal(b),
    ensures
        a == b,
    decreases a,
{
    lemma_decimal_digits(a);
    lemma_decimal_digits(b);
    if a >= 10 && b >= 10 {
        let da = decimal(a / 10);
        let db = decimal(b / 10);
        assert(decimal(a).last() == digit(a % 10));
        assert(decimal(b).last() == digit(b % 10));
        assert(decimal(a).drop_last() =~= da);
        assert(decimal(b).drop_last() =~= db);
        lemma_decimal_injective(a / 10, b / 10);
    } else if a < 10 && b < 10 {
        assert(decimal(a)[0] == digit(a));
        assert(decimal(b)[0] == digit(b));
    }
}

/// Two texts that begin with runs without a colon, each followed by a colon,
/// are equal only if the runs are equal and what follows the colons is.
pub proof fn lemma_split_at_colon(
    head: Seq<char>,
    tail: Seq<char>,
    other_head: Seq<char>,
    other_tail: Seq<char>,
)
    requires
        forall|i: int| 0 <= i < head.len() ==> head[i] != ':',
        forall|i: int| 0 <= i < other_head.len() ==> other_head[i] != ':',
        head + seq![':'] + tail == other_head + seq![':'] + other_tail,
    ensures
        head == other_head,
        tail == other_tail,
{
    let whole = head + seq![':'] + tail;
    let other = other_head + seq![':'] + other_tail;
    assert(whole[head.len() as int] == ':');
    assert(other[other_head.len() as int] == ':');
    if head.len() < other_head.len() {
        assert(other[head.len() as int] == other_head[head.len() as int]);
    }
    if other_head.len() < head.len() {
        assert(whole[other_head.len() as int] == head[other_head.len() as int]);
    }
    assert(head =~= other_head) by {
        assert forall|i: int| 0 <= i < head.len() implies head[i] == other_head[i] by {
            assert(whole[i] == head[i]);
            assert(other[i] == other_head[i]);
        }
    }
    assert(tail =~= other_tail) by {
        assert(whole.len() == other.len());
        assert forall|i: int| 0 <= i < tail.len() implies tail[i] == other_tail[i] by {
            assert(whole[head.len() + 1 + i] == tail[i]);
            assert(other[head.len() + 1 + i] == other_tail[i]);
        }
    }
}

/// The cache is keyed by the triple of text, font and size: two keys are
/// equal only if all three are.
pub proof fn lemma_key_of_injective(
    word: Seq<char>,
    font_id: u32,
    font_size: u16,
    other_word: Seq<char>,
    other_font_id: u32,
    other_font_size: u16,
)
    requires
        key_of(word, font_id, font_size) == key_of(other_word, other_font_id, other_font_size),
    ensures
        word == other_word,
        font_id == other_font_id,
        font_size == other_font_size,
{
    let font = decimal(font_id as nat);
    let size = decimal(font_size as nat);
    let other_font = decimal(other_font_id as nat);
    let other_size = decimal(other_font_size as nat);
    lemma_decimal_digits(font_id as nat);
    lemma_decimal_digits(font_size as nat);
    lemma_decimal_digits(other_font_id as nat);
    lemma_decimal_digits(other_font_size as nat);
    let rest = size + seq![':'] + word;
    let other_rest = other_size + seq![':'] + other_word;
    assert(key_of(word, font_id, font_size) =~= font + seq![':'] + rest);
    assert(key_of(other_word, other_font_id, other_font_size) =~= other_font + seq![':']
        + other_rest);
    lemma_split_at_colon(font, rest, other_font, other_rest);
    lemma_split_at_colon(size, word, other_size, other_word);
    lemma_decimal_injective(font_id as nat, other_font_id as nat);
    lemma_decimal_injective(font_size as nat, other_font_size as nat);
}

/// `u32`'s `to_string`, which writes the number through `Display`: in
/// decimal, with no sign and no leading zeros.
#[verifier::external_body]
fn decimal_string(n: u32) -> (s: String)
    ensures
        s@ == decimal(n as nat),
{
    n.to_string()
}

pub fn construct_key(word: &str, font_id: u32, font_size: u16) -> (key: String)
    ensures
        key@ == key_of(word@, font_id, font_size),
{
    proof {
        reveal_strlit(":");
    }
    let mut key = decimal_string(font_id);
    let size = decimal_string(font_size as u32);
    key.append(":");
    key.append(size.as_str());
    key.append(":");
    key.append(word);
    assert(":"@ =~= seq![':']);
    key
}

/// What the cache holds for a run of text in a font at a size.
pub open spec fn cached(
    cache: Map<Seq<char>, TextMeasurement>,
    word: Seq<char>,
    font_id: u32,
    font_size: u16,
) -> TextMeasurement {
    cache[key_of(word, font_id, font_size)]
}

/// Whether the cache holds a measurement for a run of text.
pub open spec fn is_cached(
    cache: Map<Seq<char>, TextMeasurement>,
    word: Seq<char>,
    font_id: u32,
    font_size: u16,
) -> bool {
    cache.contains_key(key_of(word, font_id, font_size))
}

/// Every entry of `before` is still in `after`, unchanged.
pub open spec fn cache_kept(
    before: Map<Seq<char>, TextMeasurement>,
    after: Map<Seq<char>, TextMeasurement>,
) -> bool {
    forall|key: Seq<char>| #[trigger]
        before.contains_key(key) ==> after.contains_key(key) && after[key] == before[key]
}

/// The measurement of a run of text, from the cache where it is there. On a
/// miss the host is asked once and its answer is kept.
pub fn get_measurement<M: TextMeasurer>(
    cache: &mut StringHashMap<TextMeasurement>,
    measure_text: &M,
    text: &str,
    font_id: u32,
    font_size: u16,
) -> (measurement: TextMeasurement)
    ensures
        is_cached(final(cache)@, text@, font_id, font_size),
        measurement == cached(final(cache)@, text@, font_id, font_size),
        is_cached(old(cache)@, text@, font_id, font_size) ==> final(cache)@ == old(cache)@,
        !is_cached(old(cache)@, text@, font_id, font_size) ==> final(cache)@ == old(cache)@.insert(
            key_of(text@, font_id, font_size),
            measurement,
        ),
        cache_kept(old(cache)@, final(cache)@),
{
    let key = construct_key(text, font_id, font_size);
    let found: Option<TextMeasurement> = match cache.get(key.as_str()) {
        Some(val) => Some(*val),
        None => None,
    };
    match found {
        Some(val) => val,
        None => {
            let text_measurement = measure_text.measure(text, font_id, font_size);
            cache.insert(key, text_measurement);
            text_measurement
        },
    }
}

} // verus!
