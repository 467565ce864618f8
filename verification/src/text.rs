//! Text of byte ranges.
use vstd::prelude::*;
use vstd::utf8::*;

verus! {

/// The characters that the UTF-8 bytes `s[a..b]` encode.
pub open spec fn text_of(s: Seq<u8>, a: int, b: int) -> Seq<char> {
    decode_utf8(s.subrange(a, b))
}

/// Every byte of `s[a..b]` is ASCII.
pub open spec fn ascii_range(s: Seq<u8>, a: int, b: int) -> bool {
    forall|i: int| a <= i < b ==> #[trigger] s[i] <= 127
}

pub proof fn lemma_ascii_valid(s: Seq<u8>, a: int, b: int)
    requires
        0 <= a <= b <= s.len(),
        ascii_range(s, a, b),
    ensures
        valid_utf8(s.subrange(a, b)),
{
    let t = s.subrange(a, b);
    assert(t.subrange(0, 0) =~= Seq::<u8>::empty());
    assert(valid_utf8(Seq::<u8>::empty()));
    assert(partial_valid_utf8(t, 0));
    assert forall|i: int| 0 <= 0 <= i < t.len() <= t.len() implies #[trigger] is_leading_byte_width_1(
        t[i],
    ) by {
        assert(t[i] == s[a + i]);
    }
    partial_valid_utf8_extend_ascii_block(t, 0, t.len() as int);
    assert(t.subrange(0, t.len() as int) =~= t);
}

/// `String::from_utf8` on a copy of `b`: the string when `b` is valid UTF-8.
#[verifier::external_body]
fn string_from_utf8(b: &[u8]) -> (r: Option<String>)
    ensures
        r is Some <==> valid_utf8(b@),
        r matches Some(t) ==> t@ == decode_utf8(b@),
{
    String::from_utf8(b.to_vec()).ok()
}

/// The text of `s[a..b]`, when those bytes are valid UTF-8.
pub fn text_range(s: &[u8], a: usize, b: usize) -> (r: Option<String>)
    requires
        a <= b <= s@.len(),
    ensures
        r is Some <==> valid_utf8(s@.subrange(a as int, b as int)),
        r matches Some(t) ==> t@ == text_of(s@, a as int, b as int),
{
    let piece = vstd::slice::slice_subrange(s, a, b);
    string_from_utf8(piece)
}

/// The text of the ASCII bytes `s[a..b]`.
pub fn ascii_text(s: &[u8], a: usize, b: usize) -> (r: String)
    requires
        a <= b <= s@.len(),
        ascii_range(s@, a as int, b as int),
    ensures
        r@ == text_of(s@, a as int, b as int),
{
    proof {
        lemma_ascii_valid(s@, a as int, b as int);
    }
    match text_range(s, a, b) {
        Some(t) => t,
        None => String::new(),
    }
}

} // verus!
