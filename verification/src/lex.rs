//! Lexical layer of the textual FlatZinc format, over the bytes of one item.
use vstd::prelude::*;

verus! {

/// Space, tab, carriage return and line feed.
pub open spec fn is_space(b: u8) -> bool {
    b == 32 || b == 9 || b == 13 || b == 10
}

/// An ASCII letter.
pub open spec fn is_alpha(b: u8) -> bool {
    (65 <= b && b <= 90) || (97 <= b && b <= 122)
}

/// A decimal digit.
pub open spec fn is_digit(b: u8) -> bool {
    48 <= b && b <= 57
}

/// A hexadecimal digit of either case.
pub open spec fn is_hex_digit(b: u8) -> bool {
    is_digit(b) || (97 <= b && b <= 102) || (65 <= b && b <= 70)
}

/// An octal digit.
pub open spec fn is_oct_digit(b: u8) -> bool {
    48 <= b && b <= 55
}

/// A byte that may start an identifier.
pub open spec fn is_ident_start(b: u8) -> bool {
    is_alpha(b) || b == 95
}

/// A byte that may continue an identifier.
pub open spec fn is_ident_char(b: u8) -> bool {
    is_alpha(b) || is_digit(b) || b == 95
}

/// Whether `s` holds byte `b` at position `p`.
pub open spec fn byte_at(s: Seq<u8>, p: int, b: u8) -> bool {
    0 <= p < s.len() && s[p] == b
}

/// The position after the first line feed at or after `p`, or the end.
pub open spec fn line_end(s: Seq<u8>, p: int) -> int
    decreases s.len() - p,
{
    if p < 0 || p >= s.len() {
        if p < 0 { 0 } else { s.len() as int }
    } else if s[p] == 10 {
        p + 1
    } else {
        line_end(s, p + 1)
    }
}

/// The position of the first `*/` at or after `p`.
pub open spec fn block_close(s: Seq<u8>, p: int) -> Option<int>
    decreases s.len() - p,
{
    if p < 0 || p + 1 >= s.len() {
        None
    } else if s[p] == 42 && s[p + 1] == 47 {
        Some(p)
    } else {
        block_close(s, p + 1)
    }
}

/// The position after the whitespace and comments that start at `p`.
pub open spec fn ignored_end(s: Seq<u8>, p: int) -> int
    decreases s.len() - p,
{
    if p < 0 || p >= s.len() {
        p
    } else if is_space(s[p]) {
        ignored_end(s, p + 1)
    } else if s[p] == 37 {
        let q = line_end(s, p + 1);
        if p < q <= s.len() { ignored_end(s, q) } else { p }
    } else if byte_at(s, p + 1, 42) && s[p] == 47 {
        match block_close(s, p + 2) {
            Some(c) => if p < c + 2 <= s.len() { ignored_end(s, c + 2) } else { p },
            None => p,
        }
    } else {
        p
    }
}

pub proof fn lemma_line_end(s: Seq<u8>, p: int)
    requires
        0 <= p <= s.len(),
    ensures
        p < line_end(s, p) <= s.len() || (p == s.len() && line_end(s, p) == p),
    decreases s.len() - p,
{
    if p < s.len() && s[p] != 10 {
        lemma_line_end(s, p + 1);
    }
}

pub proof fn lemma_block_close(s: Seq<u8>, p: int)
    requires
        0 <= p,
    ensures
        block_close(s, p) matches Some(c) ==> p <= c && c + 1 < s.len() && s[c] == 42 && s[c
            + 1] == 47,
    decreases s.len() - p,
{
    if p + 1 < s.len() && !(s[p] == 42 && s[p + 1] == 47) {
        lemma_block_close(s, p + 1);
    }
}

pub proof fn lemma_ignored_end(s: Seq<u8>, p: int)
    requires
        0 <= p <= s.len(),
    ensures
        p <= ignored_end(s, p) <= s.len(),
    decreases s.len() - p,
{
    if p < s.len() {
        if is_space(s[p]) {
            lemma_ignored_end(s, p + 1);
        } else if s[p] == 37 {
            lemma_line_end(s, p + 1);
            let q = line_end(s, p + 1);
            if p < q <= s.len() {
                lemma_ignored_end(s, q);
            }
        } else if byte_at(s, p + 1, 42) && s[p] == 47 {
            lemma_block_close(s, p + 2);
            if let Some(c) = block_close(s, p + 2) {
                lemma_ignored_end(s, c + 2);
            }
        }
    }
}

/// Space, tab, carriage return and line feed are all skipped: starting on
/// any of them gives the same end as starting just after it.
pub proof fn law_whitespace_skipped(s: Seq<u8>, p: int)
    requires
        0 <= p < s.len(),
        s[p] == 32 || s[p] == 9 || s[p] == 13 || s[p] == 10,
    ensures
        ignored_end(s, p) == ignored_end(s, p + 1),
{
}

/// Skipping whitespace and comments never stops on a space, tab, carriage
/// return or line feed.
pub proof fn law_ignored_end_not_on_whitespace(s: Seq<u8>, p: int)
    requires
        0 <= p <= s.len(),
    ensures
        ({
            let e = ignored_end(s, p);
            e < s.len() ==> !(s[e] == 32 || s[e] == 9 || s[e] == 13 || s[e] == 10)
        }),
    decreases s.len() - p,
{
    if p < s.len() {
        if is_space(s[p]) {
            law_ignored_end_not_on_whitespace(s, p + 1);
        } else if s[p] == 37 {
            lemma_line_end(s, p + 1);
            let q = line_end(s, p + 1);
            if p < q <= s.len() {
                law_ignored_end_not_on_whitespace(s, q);
            }
        } else if byte_at(s, p + 1, 42) && s[p] == 47 {
            lemma_block_close(s, p + 2);
            if let Some(c) = block_close(s, p + 2) {
                if p < c + 2 <= s.len() {
                    law_ignored_end_not_on_whitespace(s, c + 2);
                }
            }
        }
    }
}

/// `t` holds, from `p + d` on, what `s` holds from `p` on.
pub open spec fn same_tail(s: Seq<u8>, t: Seq<u8>, p: int, d: int) -> bool {
    &&& 0 <= p <= s.len()
    &&& 0 <= d
    &&& t.len() == s.len() + d
    &&& forall|i: int| p <= i < s.len() ==> t[i + d] == #[trigger] s[i]
}

proof fn lemma_line_end_shift(s: Seq<u8>, t: Seq<u8>, p: int, d: int)
    requires
        same_tail(s, t, p, d),
    ensures
        line_end(t, p + d) == line_end(s, p) + d,
    decreases s.len() - p,
{
    if p < s.len() && s[p] != 10 {
        lemma_line_end_shift(s, t, p + 1, d);
    }
}

proof fn lemma_block_close_shift(s: Seq<u8>, t: Seq<u8>, p: int, d: int)
    requires
        same_tail(s, t, p, d),
    ensures
        block_close(t, p + d) == (match block_close(s, p) {
            Some(c) => Some(c + d),
            None => None,
        }),
    decreases s.len() - p,
{
    if p + 1 < s.len() && !(s[p] == 42 && s[p + 1] == 47) {
        lemma_block_close_shift(s, t, p + 1, d);
    }
}

/// Where `t` holds what `s` holds from `p` on, skipping whitespace and
/// comments there ends at the same place.
proof fn lemma_ignored_end_shift(s: Seq<u8>, t: Seq<u8>, p: int, d: int)
    requires
        same_tail(s, t, p, d),
    ensures
        ignored_end(t, p + d) == ignored_end(s, p) + d,
    decreases s.len() - p,
{
    if p < s.len() {
        if is_space(s[p]) {
            lemma_ignored_end_shift(s, t, p + 1, d);
        } else if s[p] == 37 {
            lemma_line_end_shift(s, t, p + 1, d);
            lemma_line_end(s, p + 1);
            let q = line_end(s, p + 1);
            if p < q <= s.len() {
                lemma_ignored_end_shift(s, t, q, d);
            }
        } else if byte_at(s, p + 1, 42) && s[p] == 47 {
            assert(byte_at(t, p + d + 1, 42));
            lemma_block_close_shift(s, t, p + 2, d);
            lemma_block_close(s, p + 2);
            if let Some(c) = block_close(s, p + 2) {
                if p < c + 2 <= s.len() {
                    lemma_ignored_end_shift(s, t, c + 2, d);
                }
            }
        } else {
            assert(!byte_at(t, p + d + 1, 42) || t[p + d] != 47);
        }
    }
}

/// Inserting a space, tab, carriage return or line feed where whitespace
/// and comments are skipped moves their end by exactly the inserted byte:
/// what follows is found where it was.
pub proof fn law_whitespace_insertion(s: Seq<u8>, p: int, b: u8)
    requires
        0 <= p <= s.len(),
        b == 32 || b == 9 || b == 13 || b == 10,
    ensures
        ignored_end(s.insert(p, b), p) == ignored_end(s, p) + 1,
{
    let t = s.insert(p, b);
    assert(t[p] == b);
    assert(same_tail(s, t, p, 1));
    lemma_ignored_end_shift(s, t, p, 1);
}

fn find_line_end(s: &[u8], p: usize) -> (r: usize)
    requires
        p <= s@.len(),
    ensures
        r == line_end(s@, p as int),
        r <= s@.len(),
{
    let mut i = p;
    while i < s.len()
        invariant
            p <= i <= s@.len(),
            line_end(s@, p as int) == line_end(s@, i as int),
        decreases s@.len() - i,
    {
        if s[i] == 10 {
            return i + 1;
        }
        i = i + 1;
    }
    i
}

fn find_block_close(s: &[u8], p: usize) -> (r: Option<usize>)
    requires
        p <= s@.len(),
    ensures
        r matches Some(c) ==> block_close(s@, p as int) == Some(c as int),
        r is None ==> block_close(s@, p as int) is None,
{
    let mut i = p;
    while i < s.len()
        invariant
            p <= i <= s@.len(),
            block_close(s@, p as int) == block_close(s@, i as int),
        decreases s@.len() - i,
    {
        if i + 1 >= s.len() {
            return None;
        }
        if s[i] == 42 && s[i + 1] == 47 {
            return Some(i);
        }
        i = i + 1;
    }
    None
}

/// Skip whitespace, `%` line comments and `/* */` block comments.
pub fn skip_ignored(s: &[u8], p: usize) -> (r: usize)
    requires
        p <= s@.len(),
    ensures
        r == ignored_end(s@, p as int),
        p <= r <= s@.len(),
{
    let mut i = p;
    while i < s.len()
        invariant
            p <= i <= s@.len(),
            ignored_end(s@, p as int) == ignored_end(s@, i as int),
        decreases s@.len() - i,
    {
        let b = s[i];
        if b == 32 || b == 9 || b == 13 || b == 10 {
            i = i + 1;
        } else if b == 37 {
            let q = find_line_end(s, i + 1);
            proof {
                lemma_line_end(s@, i + 1);
            }
            i = q;
        } else if i + 1 < s.len() && s[i + 1] == 42 && b == 47 {
            match find_block_close(s, i + 2) {
                Some(c) => {
                    proof {
                        lemma_block_close(s@, i + 2);
                    }
                    i = c + 2;
                },
                None => {
                    return i;
                },
            }
        } else {
            return i;
        }
    }
    i
}


/// The fixed words and multi-byte symbols of the grammar.
#[derive(Clone, Copy, PartialEq, Eq, Debug)]
pub enum Word {
    /// `array`
    Array,
    /// `of`
    Of,
    /// `var`
    Var,
    /// `bool`
    Bool,
    /// `int`
    Int,
    /// `float`
    Float,
    /// `set`
    SetOf,
    /// `constraint`
    Constraint,
    /// `solve`
    Solve,
    /// `satisfy`
    Satisfy,
    /// `minimize`
    Minimize,
    /// `maximize`
    Maximize,
    /// `predicate`
    Predicate,
    /// `true`
    True,
    /// `false`
    False,
    /// `union`
    Union,
    /// `..`
    DotDot,
    /// `::`
    ColonColon,
    /// `0x`
    HexPrefix,
    /// `0o`
    OctPrefix,
}

/// The bytes of a word.
pub open spec fn word_bytes(w: Word) -> Seq<u8> {
    match w {
        Word::Array => seq![97u8, 114, 114, 97, 121],
        Word::Of => seq![111u8, 102],
        Word::Var => seq![118u8, 97, 114],
        Word::Bool => seq![98u8, 111, 111, 108],
        Word::Int => seq![105u8, 110, 116],
        Word::Float => seq![102u8, 108, 111, 97, 116],
        Word::SetOf => seq![115u8, 101, 116],
        Word::Constraint => seq![99u8, 111, 110, 115, 116, 114, 97, 105, 110, 116],
        Word::Solve => seq![115u8, 111, 108, 118, 101],
        Word::Satisfy => seq![115u8, 97, 116, 105, 115, 102, 121],
        Word::Minimize => seq![109u8, 105, 110, 105, 109, 105, 122, 101],
        Word::Maximize => seq![109u8, 97, 120, 105, 109, 105, 122, 101],
        Word::Predicate => seq![112u8, 114, 101, 100, 105, 99, 97, 116, 101],
        Word::True => seq![116u8, 114, 117, 101],
        Word::False => seq![102u8, 97, 108, 115, 101],
        Word::Union => seq![117u8, 110, 105, 111, 110],
        Word::DotDot => seq![46u8, 46],
        Word::ColonColon => seq![58u8, 58],
        Word::HexPrefix => seq![48u8, 120],
        Word::OctPrefix => seq![48u8, 111],
    }
}

fn word_len(w: Word) -> (r: usize)
    ensures
        r == word_bytes(w).len(),
{
    match w {
        Word::Array => 5,
        Word::Of => 2,
        Word::Var => 3,
        Word::Bool => 4,
        Word::Int => 3,
        Word::Float => 5,
        Word::SetOf => 3,
        Word::Constraint => 10,
        Word::Solve => 5,
        Word::Satisfy => 7,
        Word::Minimize => 8,
        Word::Maximize => 8,
        Word::Predicate => 9,
        Word::True => 4,
        Word::False => 5,
        Word::Union => 5,
        Word::DotDot => 2,
        Word::ColonColon => 2,
        Word::HexPrefix => 2,
        Word::OctPrefix => 2,
    }
}

fn word_byte(w: Word, i: usize) -> (r: u8)
    requires
        i < word_bytes(w).len(),
    ensures
        r == word_bytes(w)[i as int],
{
    match w {
        Word::Array => match i { 0 => 97, 1 => 114, 2 => 114, 3 => 97, _ => 121 },
        Word::Of => match i { 0 => 111, _ => 102 },
        Word::Var => match i { 0 => 118, 1 => 97, _ => 114 },
        Word::Bool => match i { 0 => 98, 1 => 111, 2 => 111, _ => 108 },
        Word::Int => match i { 0 => 105, 1 => 110, _ => 116 },
        Word::Float => match i { 0 => 102, 1 => 108, 2 => 111, 3 => 97, _ => 116 },
        Word::SetOf => match i { 0 => 115, 1 => 101, _ => 116 },
        Word::Constraint => match i { 0 => 99, 1 => 111, 2 => 110, 3 => 115, 4 => 116, 5 => 114, 6 => 97, 7 => 105, 8 => 110, _ => 116 },
        Word::Solve => match i { 0 => 115, 1 => 111, 2 => 108, 3 => 118, _ => 101 },
        Word::Satisfy => match i { 0 => 115, 1 => 97, 2 => 116, 3 => 105, 4 => 115, 5 => 102, _ => 121 },
        Word::Minimize => match i { 0 => 109, 1 => 105, 2 => 110, 3 => 105, 4 => 109, 5 => 105, 6 => 122, _ => 101 },
        Word::Maximize => match i { 0 => 109, 1 => 97, 2 => 120, 3 => 105, 4 => 109, 5 => 105, 6 => 122, _ => 101 },
        Word::Predicate => match i { 0 => 112, 1 => 114, 2 => 101, 3 => 100, 4 => 105, 5 => 99, 6 => 97, 7 => 116, _ => 101 },
        Word::True => match i { 0 => 116, 1 => 114, 2 => 117, _ => 101 },
        Word::False => match i { 0 => 102, 1 => 97, 2 => 108, 3 => 115, _ => 101 },
        Word::Union => match i { 0 => 117, 1 => 110, 2 => 105, 3 => 111, _ => 110 },
        Word::DotDot => match i { 0 => 46, _ => 46 },
        Word::ColonColon => match i { 0 => 58, _ => 58 },
        Word::HexPrefix => match i { 0 => 48, _ => 120 },
        Word::OctPrefix => match i { 0 => 48, _ => 111 },
    }
}

/// The position after `t` when `s` holds `t` at `p`.
pub open spec fn tag_end(s: Seq<u8>, p: int, t: Seq<u8>) -> Option<int> {
    if 0 <= p && p + t.len() <= s.len() && s.subrange(p, p + t.len()) == t {
        Some(p + t.len())
    } else {
        None
    }
}

/// The position after word `w` when `s` holds it at `p`.
pub open spec fn word_end(s: Seq<u8>, p: int, w: Word) -> Option<int> {
    tag_end(s, p, word_bytes(w))
}

/// The position after byte `b` when `s` holds it at `p`.
pub open spec fn char_end(s: Seq<u8>, p: int, b: u8) -> Option<int> {
    if byte_at(s, p, b) { Some(p + 1) } else { None }
}

/// Match word `w` at `p`.
pub fn match_word(s: &[u8], p: usize, w: Word) -> (r: Option<usize>)
    requires
        p <= s@.len(),
    ensures
        r matches Some(e) ==> word_end(s@, p as int, w) == Some(e as int),
        r is None ==> word_end(s@, p as int, w) is None,
        r matches Some(e) ==> p < e <= s@.len(),
{
    let n = word_len(w);
    if n > s.len() - p {
        return None;
    }
    let mut i: usize = 0;
    while i < n
        invariant
            n == word_bytes(w).len(),
            p + n <= s@.len(),
            p + n <= s.len(),
            i <= n,
            forall|j: int| 0 <= j < i ==> s@[p + j] == word_bytes(w)[j],
        decreases n - i,
    {
        if s[p + i] != word_byte(w, i) {
            proof {
                assert(s@.subrange(p as int, p + n)[i as int] != word_bytes(w)[i as int]);
            }
            return None;
        }
        i = i + 1;
    }
    proof {
        assert(s@.subrange(p as int, p + n) =~= word_bytes(w));
    }
    Some(p + n)
}

/// Match byte `b` at `p`.
pub fn match_char(s: &[u8], p: usize, b: u8) -> (r: Option<usize>)
    requires
        p <= s@.len(),
    ensures
        r matches Some(e) ==> char_end(s@, p as int, b) == Some(e as int) && e <= s@.len(),
        r is None ==> char_end(s@, p as int, b) is None,
{
    if p < s.len() && s[p] == b {
        Some(p + 1)
    } else {
        None
    }
}

/// Byte classes that the lexer scans runs of.
#[derive(Clone, Copy, PartialEq, Eq, Debug)]
pub enum Class {
    /// `[0-9]`
    Digit,
    /// `[0-9a-fA-F]`
    HexDigit,
    /// `[0-7]`
    OctDigit,
    /// `[A-Za-z0-9_]`
    IdentChar,
}

pub open spec fn in_class(c: Class, b: u8) -> bool {
    match c {
        Class::Digit => is_digit(b),
        Class::HexDigit => is_hex_digit(b),
        Class::OctDigit => is_oct_digit(b),
        Class::IdentChar => is_ident_char(b),
    }
}

/// The end of the longest run of class `c` that starts at `p`.
pub open spec fn run_end(s: Seq<u8>, p: int, c: Class) -> int
    decreases s.len() - p,
{
    if 0 <= p < s.len() && in_class(c, s[p]) {
        run_end(s, p + 1, c)
    } else {
        p
    }
}

pub proof fn lemma_run_end(s: Seq<u8>, p: int, c: Class)
    requires
        0 <= p <= s.len(),
    ensures
        p <= run_end(s, p, c) <= s.len(),
        forall|i: int| p <= i < run_end(s, p, c) ==> in_class(c, #[trigger] s[i]),
        run_end(s, p, c) < s.len() ==> !in_class(c, s[run_end(s, p, c)]),
    decreases s.len() - p,
{
    if p < s.len() && in_class(c, s[p]) {
        lemma_run_end(s, p + 1, c);
    }
}

fn class_has(c: Class, b: u8) -> (r: bool)
    ensures
        r == in_class(c, b),
{
    match c {
        Class::Digit => 48 <= b && b <= 57,
        Class::HexDigit => (48 <= b && b <= 57) || (97 <= b && b <= 102) || (65 <= b && b <= 70),
        Class::OctDigit => 48 <= b && b <= 55,
        Class::IdentChar => (65 <= b && b <= 90) || (97 <= b && b <= 122) || (48 <= b && b <= 57)
            || b == 95,
    }
}

/// Scan the longest run of class `c` from `p`.
pub fn scan_run(s: &[u8], p: usize, c: Class) -> (r: usize)
    requires
        p <= s@.len(),
    ensures
        r == run_end(s@, p as int, c),
        p <= r <= s@.len(),
{
    let mut i = p;
    while i < s.len() && class_has(c, s[i])
        invariant
            p <= i <= s@.len(),
            run_end(s@, p as int, c) == run_end(s@, i as int, c),
        decreases s@.len() - i,
    {
        i = i + 1;
    }
    i
}

/// The end of an identifier `[A-Za-z_][A-Za-z0-9_]*` starting at `p`.
pub open spec fn ident_end(s: Seq<u8>, p: int) -> Option<int> {
    if 0 <= p < s.len() && is_ident_start(s[p]) {
        Some(run_end(s, p + 1, Class::IdentChar))
    } else {
        None
    }
}

/// Scan an identifier at `p`.
pub fn scan_ident(s: &[u8], p: usize) -> (r: Option<usize>)
    requires
        p <= s@.len(),
    ensures
        r matches Some(e) ==> ident_end(s@, p as int) == Some(e as int) && p < e <= s@.len(),
        r is None ==> ident_end(s@, p as int) is None,
{
    if p < s.len() {
        let b = s[p];
        if (65 <= b && b <= 90) || (97 <= b && b <= 122) || b == 95 {
            return Some(scan_run(s, p + 1, Class::IdentChar));
        }
    }
    None
}

/// The value of digit byte `b` in its radix.
pub open spec fn digit_value(b: u8) -> int {
    if is_digit(b) {
        b - 48
    } else if 97 <= b && b <= 102 {
        b - 87
    } else {
        b - 55
    }
}

/// The number written by the digits `s[a..b]` in base `radix`.
pub open spec fn digits_value(s: Seq<u8>, a: int, b: int, radix: int) -> int
    decreases b - a,
{
    if b <= a {
        0
    } else {
        digits_value(s, a, b - 1, radix) * radix + digit_value(s[b - 1])
    }
}

/// An unsigned number in one of its three forms, with the end position; a form
/// whose value exceeds `i64::MAX` is not taken.
pub open spec fn unsigned_int(s: Seq<u8>, p: int) -> Option<(int, int)> {
    let hex = match word_end(s, p, Word::HexPrefix) {
        Some(q) => {
            let e = run_end(s, q, Class::HexDigit);
            if e > q && digits_value(s, q, e, 16) <= i64::MAX {
                Some((digits_value(s, q, e, 16), e))
            } else {
                None
            }
        },
        None => None,
    };
    let oct = match word_end(s, p, Word::OctPrefix) {
        Some(q) => {
            let e = run_end(s, q, Class::OctDigit);
            if e > q && digits_value(s, q, e, 8) <= i64::MAX {
                Some((digits_value(s, q, e, 8), e))
            } else {
                None
            }
        },
        None => None,
    };
    let dec = {
        let e = run_end(s, p, Class::Digit);
        if e > p && digits_value(s, p, e, 10) <= i64::MAX {
            Some((digits_value(s, p, e, 10), e))
        } else {
            None
        }
    };
    if hex is Some {
        hex
    } else if oct is Some {
        oct
    } else {
        dec
    }
}

/// An integer literal `-?(0x[0-9A-Fa-f]+|0o[0-7]+|[0-9]+)` at `p`, with its value.
pub open spec fn int_lit(s: Seq<u8>, p: int) -> Option<(i64, int)> {
    let q = if byte_at(s, p, 45) { p + 1 } else { p };
    match unsigned_int(s, q) {
        Some((v, e)) => Some((if q == p + 1 { (-v) as i64 } else { v as i64 }, e)),
        None => None,
    }
}

pub proof fn lemma_digits_value_nonneg(s: Seq<u8>, a: int, b: int, radix: int)
    requires
        radix > 0,
        forall|i: int| a <= i < b ==> 0 <= digit_value(#[trigger] s[i]) < radix,
    ensures
        digits_value(s, a, b, radix) >= 0,
    decreases b - a,
{
    if b > a {
        lemma_digits_value_nonneg(s, a, b - 1, radix);
    }
}

/// Read the digits `s[a..b]` in base `radix`; `None` when the value exceeds `i64::MAX`.
fn read_digits(s: &[u8], a: usize, b: usize, radix: u64, c: Class) -> (r: Option<i64>)
    requires
        a <= b <= s@.len(),
        radix == 8 || radix == 10 || radix == 16,
        forall|i: int| a <= i < b ==> in_class(c, #[trigger] s@[i]),
        c == Class::Digit ==> radix == 10,
        c == Class::OctDigit ==> radix == 8,
        c == Class::HexDigit ==> radix == 16,
        c != Class::IdentChar,
    ensures
        r matches Some(v) ==> v == digits_value(s@, a as int, b as int, radix as int) && v >= 0,
        r is None ==> digits_value(s@, a as int, b as int, radix as int) > i64::MAX,
{
    let mut v: i64 = 0;
    let mut i = a;
    while i < b
        invariant
            a <= i <= b <= s@.len(),
            radix == 8 || radix == 10 || radix == 16,
            forall|k: int| a <= k < b ==> in_class(c, #[trigger] s@[k]),
            c == Class::Digit ==> radix == 10,
            c == Class::OctDigit ==> radix == 8,
            c == Class::HexDigit ==> radix == 16,
            c != Class::IdentChar,
            v == digits_value(s@, a as int, i as int, radix as int),
            v >= 0,
        decreases b - i,
    {
        let d = s[i];
        let dv: i64 = if 48 <= d && d <= 57 {
            (d - 48) as i64
        } else if 97 <= d && d <= 102 {
            (d - 87) as i64
        } else {
            (d - 55) as i64
        };
        assert(in_class(c, s@[i as int]));
        assert(0 <= dv < radix);
        assert(dv == digit_value(s@[i as int]));
        let r = radix as i64;
        let lim = (i64::MAX - dv) / r;
        if v > lim {
            proof {
                assert(v * r + dv > i64::MAX) by (nonlinear_arith)
                    requires
                        v > lim,
                        lim == (i64::MAX - dv) as int / (r as int),
                        r > 0,
                        0 <= dv < r,
                ;
                assert(digits_value(s@, a as int, i + 1, radix as int) == v * r + dv);
                lemma_digits_monotone(s@, a as int, i + 1, b as int, radix as int, c);
            }
            return None;
        }
        proof {
            assert(v * r + dv <= i64::MAX) by (nonlinear_arith)
                requires
                    v <= lim,
                    lim == (i64::MAX - dv) as int / (r as int),
                    r > 0,
                    0 <= dv < r,
                    v >= 0,
            ;
            assert(v * r >= 0) by (nonlinear_arith)
                requires
                    v >= 0,
                    r > 0,
            ;
        }
        v = v * r + dv;
        i = i + 1;
    }
    Some(v)
}

proof fn lemma_digits_monotone(s: Seq<u8>, a: int, m: int, b: int, radix: int, c: Class)
    requires
        a <= m <= b,
        radix == 8 || radix == 10 || radix == 16,
        forall|k: int| a <= k < b ==> in_class(c, #[trigger] s[k]),
        c == Class::Digit ==> radix == 10,
        c == Class::OctDigit ==> radix == 8,
        c == Class::HexDigit ==> radix == 16,
        c != Class::IdentChar,
    ensures
        digits_value(s, a, b, radix) >= digits_value(s, a, m, radix),
    decreases b - m,
{
    if m < b {
        lemma_digits_monotone(s, a, m, b - 1, radix, c);
        assert(forall|k: int| a <= k < b - 1 ==> 0 <= digit_value(#[trigger] s[k]) < radix) by {
            assert forall|k: int| a <= k < b - 1 implies 0 <= digit_value(#[trigger] s[k]) < radix by {
                assert(in_class(c, s[k]));
            }
        }
        lemma_digits_value_nonneg(s, a, b - 1, radix);
        let x = digits_value(s, a, b - 1, radix);
        assert(in_class(c, s[b - 1]));
        assert(x * radix >= x) by (nonlinear_arith)
            requires
                x >= 0,
                radix >= 1,
        ;
    }
}

fn scan_unsigned(s: &[u8], p: usize) -> (r: Option<(i64, usize)>)
    requires
        p <= s@.len(),
    ensures
        r matches Some((v, e)) ==> unsigned_int(s@, p as int) == Some((v as int, e as int)) && p
            < e <= s@.len() && v >= 0,
        r is None ==> unsigned_int(s@, p as int) is None,
{
    proof {
        lemma_run_end(s@, p as int, Class::Digit);
    }
    if let Some(q) = match_word(s, p, Word::HexPrefix) {
        let e = scan_run(s, q, Class::HexDigit);
        proof {
            lemma_run_end(s@, q as int, Class::HexDigit);
        }
        if e > q {
            if let Some(v) = read_digits(s, q, e, 16, Class::HexDigit) {
                return Some((v, e));
            }
        }
    }
    if let Some(q) = match_word(s, p, Word::OctPrefix) {
        let e = scan_run(s, q, Class::OctDigit);
        proof {
            lemma_run_end(s@, q as int, Class::OctDigit);
        }
        if e > q {
            if let Some(v) = read_digits(s, q, e, 8, Class::OctDigit) {
                return Some((v, e));
            }
        }
    }
    let e = scan_run(s, p, Class::Digit);
    if e > p {
        if let Some(v) = read_digits(s, p, e, 10, Class::Digit) {
            return Some((v, e));
        }
    }
    None
}

/// Scan an integer literal at `p`.
pub fn scan_int(s: &[u8], p: usize) -> (r: Option<(i64, usize)>)
    requires
        p <= s@.len(),
    ensures
        r matches Some((v, e)) ==> int_lit(s@, p as int) == Some((v, e as int)) && p < e <= s@.len(),
        r is None ==> int_lit(s@, p as int) is None,
{
    let neg = p < s.len() && s[p] == 45;
    let q = if neg { p + 1 } else { p };
    match scan_unsigned(s, q) {
        Some((v, e)) => Some((if neg { -v } else { v }, e)),
        None => None,
    }
}

/// One of the bytes `e`, `E`.
pub open spec fn is_exp_mark(s: Seq<u8>, p: int) -> bool {
    byte_at(s, p, 101) || byte_at(s, p, 69)
}

/// An exponent's optional sign is skipped.
pub open spec fn after_sign(s: Seq<u8>, p: int) -> int {
    if byte_at(s, p, 45) || byte_at(s, p, 43) { p + 1 } else { p }
}

/// The end of a float literal `-?[0-9]+` followed by `.[0-9]+[eE][+-]?[0-9]+`,
/// `[eE][+-]?[0-9]+` or `.[0-9]+`, tried in that order.
pub open spec fn float_end(s: Seq<u8>, p: int) -> Option<int> {
    let q = if byte_at(s, p, 45) { p + 1 } else { p };
    let d = run_end(s, q, Class::Digit);
    if d == q {
        None
    } else {
        let frac = run_end(s, d + 1, Class::Digit);
        let with_frac_exp = if byte_at(s, d, 46) && frac > d + 1 && is_exp_mark(s, frac) {
            let g = after_sign(s, frac + 1);
            let h = run_end(s, g, Class::Digit);
            if h > g { Some(h) } else { None }
        } else {
            None
        };
        let exp_only = if is_exp_mark(s, d) {
            let g = after_sign(s, d + 1);
            let h = run_end(s, g, Class::Digit);
            if h > g { Some(h) } else { None }
        } else {
            None
        };
        let frac_only = if byte_at(s, d, 46) && frac > d + 1 { Some(frac) } else { None };
        if with_frac_exp is Some {
            with_frac_exp
        } else if exp_only is Some {
            exp_only
        } else {
            frac_only
        }
    }
}

fn exp_mark_at(s: &[u8], p: usize) -> (r: bool)
    ensures
        r == is_exp_mark(s@, p as int),
{
    p < s.len() && (s[p] == 101 || s[p] == 69)
}

fn skip_sign(s: &[u8], p: usize) -> (r: usize)
    requires
        p <= s@.len(),
    ensures
        r == after_sign(s@, p as int),
        r <= s@.len(),
{
    if p < s.len() && (s[p] == 45 || s[p] == 43) {
        p + 1
    } else {
        p
    }
}

/// Scan a float literal at `p`, giving its end.
pub fn scan_float(s: &[u8], p: usize) -> (r: Option<usize>)
    requires
        p <= s@.len(),
    ensures
        r matches Some(e) ==> float_end(s@, p as int) == Some(e as int) && p < e <= s@.len(),
        r is None ==> float_end(s@, p as int) is None,
{
    let q = if p < s.len() && s[p] == 45 { p + 1 } else { p };
    let d = scan_run(s, q, Class::Digit);
    if d == q {
        return None;
    }
    let has_dot = d < s.len() && s[d] == 46;
    let frac = if has_dot { scan_run(s, d + 1, Class::Digit) } else { d };
    proof {
        if !has_dot {
            assert(!byte_at(s@, d as int, 46));
        }
    }
    if has_dot && frac > d + 1 && exp_mark_at(s, frac) {
        let g = skip_sign(s, frac + 1);
        let h = scan_run(s, g, Class::Digit);
        if h > g {
            return Some(h);
        }
    }
    if exp_mark_at(s, d) {
        let g = skip_sign(s, d + 1);
        let h = scan_run(s, g, Class::Digit);
        if h > g {
            return Some(h);
        }
    }
    if has_dot && frac > d + 1 {
        return Some(frac);
    }
    None
}

/// The first position at or after `p` holding byte `b`.
pub open spec fn find_byte(s: Seq<u8>, p: int, b: u8) -> Option<int>
    decreases s.len() - p,
{
    if p < 0 || p >= s.len() {
        None
    } else if s[p] == b {
        Some(p)
    } else {
        find_byte(s, p + 1, b)
    }
}

/// Find byte `b` at or after `p`.
pub fn scan_to_byte(s: &[u8], p: usize, b: u8) -> (r: Option<usize>)
    requires
        p <= s@.len(),
    ensures
        r matches Some(e) ==> find_byte(s@, p as int, b) == Some(e as int) && p <= e < s@.len()
            && s@[e as int] == b,
        r is None ==> find_byte(s@, p as int, b) is None,
{
    let mut i = p;
    while i < s.len()
        invariant
            p <= i <= s@.len(),
            find_byte(s@, p as int, b) == find_byte(s@, i as int, b),
        decreases s@.len() - i,
    {
        if s[i] == b {
            return Some(i);
        }
        i = i + 1;
    }
    None
}

} // verus!
