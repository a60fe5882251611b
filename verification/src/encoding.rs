//! Byte positions in the UTF-8 encoding of a text held as characters.
use vstd::prelude::*;
use vstd::utf8::{encode_scalar, encode_utf8};

verus! {

/// The number of bytes of the UTF-8 encoding of `s`.
pub open spec fn byte_len(s: Seq<char>) -> int {
    encode_utf8(s).len() as int
}

/// The byte position where the character at `k` of `s` starts (the end of
/// the encoding for `k == s.len()`).
pub open spec fn byte_pos(s: Seq<char>, k: int) -> int {
    byte_len(s.take(k))
}

/// `b` is a byte position where a character of `s` starts, or the end of
/// its encoding.
pub open spec fn is_char_pos(s: Seq<char>, b: int) -> bool {
    exists|k: int| 0 <= k <= s.len() && #[trigger] byte_pos(s, k) == b
}

/// The character position of the byte position `b` in `s`; past the end
/// of the encoding, the length of `s`.
pub open spec fn char_pos(s: Seq<char>, b: int) -> int {
    if b >= byte_len(s) {
        s.len() as int
    } else {
        choose|k: int| 0 <= k <= s.len() && #[trigger] byte_pos(s, k) == b
    }
}

/// The bytes of a concatenation are those of its parts.
pub proof fn lemma_byte_len_concat(a: Seq<char>, b: Seq<char>)
    ensures
        byte_len(a + b) == byte_len(a) + byte_len(b),
        encode_utf8(a + b) == encode_utf8(a) + encode_utf8(b),
    decreases a.len(),
{
    if a.len() == 0 {
        assert(a + b =~= b);
        assert(encode_utf8(a) =~= Seq::<u8>::empty());
        assert(encode_utf8(a) + encode_utf8(b) =~= encode_utf8(b));
    } else {
        lemma_byte_len_concat(a.drop_first(), b);
        assert((a + b).drop_first() =~= a.drop_first() + b);
        assert((a + b)[0] == a[0]);
        assert(encode_utf8(a + b) =~= encode_scalar(a[0] as u32) + encode_utf8(a.drop_first() + b));
        assert(encode_utf8(a) =~= encode_scalar(a[0] as u32) + encode_utf8(a.drop_first()));
    }
}

/// A character takes one to four bytes, one exactly when it is below
/// `0x80`.
pub proof fn lemma_char_width(c: char)
    ensures
        1 <= byte_len(seq![c]) <= 4,
        byte_len(seq![c]) == 1 <==> (c as u32) < 0x80,
        (c as u32) < 0x80 ==> byte_len(seq![c]) == 1,
        0x80 <= (c as u32) < 0x800 ==> byte_len(seq![c]) == 2,
        0x800 <= (c as u32) < 0x10000 ==> byte_len(seq![c]) == 3,
        0x10000 <= (c as u32) ==> byte_len(seq![c]) == 4,
{
    let s = seq![c];
    assert(s.drop_first() =~= Seq::<char>::empty());
    assert(encode_utf8(s) =~= encode_scalar(c as u32) + encode_utf8(s.drop_first()));
    assert(encode_utf8(s.drop_first()) =~= Seq::<u8>::empty());
    vstd::utf8::char_is_scalar(c);
}

/// The byte position of one more character is that of the character plus
/// its width.
pub proof fn lemma_byte_pos_succ(s: Seq<char>, k: int)
    requires
        0 <= k < s.len(),
    ensures
        byte_pos(s, k + 1) == byte_pos(s, k) + byte_len(seq![s[k]]),
        byte_pos(s, k) < byte_pos(s, k + 1),
{
    assert(s.take(k + 1) =~= s.take(k) + seq![s[k]]);
    lemma_byte_len_concat(s.take(k), seq![s[k]]);
    lemma_char_width(s[k]);
}

/// Byte positions grow with character positions, and are at least as
/// large.
pub proof fn lemma_byte_pos_mono(s: Seq<char>, i: int, j: int)
    requires
        0 <= i <= j <= s.len(),
    ensures
        byte_pos(s, j) - byte_pos(s, i) >= j - i,
        i < j ==> byte_pos(s, i) < byte_pos(s, j),
        byte_pos(s, i) >= i,
        byte_pos(s, s.len() as int) == byte_len(s),
    decreases j - i,
{
    assert(s.take(s.len() as int) =~= s);
    if i < j {
        lemma_byte_pos_succ(s, j - 1);
        lemma_byte_pos_mono(s, i, j - 1);
    } else {
        lemma_byte_len_bounds(s.take(i));
    }
}

/// The character position of the byte position of `k` is `k`.
pub proof fn lemma_char_pos(s: Seq<char>, k: int)
    requires
        0 <= k <= s.len(),
    ensures
        is_char_pos(s, byte_pos(s, k)),
        char_pos(s, byte_pos(s, k)) == k,
{
    lemma_byte_pos_mono(s, k, s.len() as int);
    if k < s.len() {
        let c = choose|j: int| 0 <= j <= s.len() && #[trigger] byte_pos(s, j) == byte_pos(s, k);
        if c < k {
            lemma_byte_pos_mono(s, c, k);
        } else if c > k {
            lemma_byte_pos_mono(s, k, c);
        }
    }
}

/// Character positions of byte positions keep their order; a byte
/// position inside the encoding is the byte position of its character
/// position.
pub proof fn lemma_char_pos_order(s: Seq<char>, a: int, b: int)
    requires
        0 <= a <= b,
        a >= byte_len(s) || is_char_pos(s, a),
        b >= byte_len(s) || is_char_pos(s, b),
    ensures
        0 <= char_pos(s, a) <= char_pos(s, b) <= s.len(),
        a < byte_len(s) ==> byte_pos(s, char_pos(s, a)) == a,
        b < byte_len(s) ==> byte_pos(s, char_pos(s, b)) == b,
        is_char_pos(s, a) ==> a <= byte_len(s) && byte_pos(s, char_pos(s, a)) == a,
        is_char_pos(s, b) ==> b <= byte_len(s) && byte_pos(s, char_pos(s, b)) == b,
        byte_len(s) <= b ==> char_pos(s, b) == s.len(),
{
    lemma_byte_pos_mono(s, 0, s.len() as int);
    if is_char_pos(s, a) {
        let j = choose|k: int| 0 <= k <= s.len() && #[trigger] byte_pos(s, k) == a;
        lemma_byte_pos_mono(s, j, s.len() as int);
    }
    if is_char_pos(s, b) {
        let j = choose|k: int| 0 <= k <= s.len() && #[trigger] byte_pos(s, k) == b;
        lemma_byte_pos_mono(s, j, s.len() as int);
    }
    if a < byte_len(s) {
        let ka = choose|k: int| 0 <= k <= s.len() && #[trigger] byte_pos(s, k) == a;
        lemma_char_pos(s, ka);
        if b < byte_len(s) {
            let kb = choose|k: int| 0 <= k <= s.len() && #[trigger] byte_pos(s, k) == b;
            lemma_char_pos(s, kb);
            if kb < ka {
                lemma_byte_pos_mono(s, kb, ka);
            }
        }
    }
}

/// The byte length of a text is at least its number of characters and at
/// most four times that.
pub proof fn lemma_byte_len_bounds(s: Seq<char>)
    ensures
        s.len() <= byte_len(s) <= 4 * s.len(),
    decreases s.len(),
{
    if s.len() == 0 {
        assert(encode_utf8(s) =~= Seq::<u8>::empty());
    } else {
        lemma_byte_len_bounds(s.drop_last());
        assert(s =~= s.drop_last() + seq![s.last()]);
        lemma_byte_len_concat(s.drop_last(), seq![s.last()]);
        lemma_char_width(s.last());
    }
}

/// The number of bytes of the UTF-8 encoding of `c`.
pub fn char_width(c: char) -> (r: usize)
    ensures
        r == byte_len(seq![c]),
{
    proof {
        lemma_char_width(c);
    }
    let v = c as u32;
    if v < 0x80 {
        1
    } else if v < 0x800 {
        2
    } else if v < 0x10000 {
        3
    } else {
        4
    }
}

/// The number of bytes of the UTF-8 encoding of `v`.
pub fn bytes_of(v: &Vec<char>) -> (r: u64)
    requires
        v@.len() <= u32::MAX,
    ensures
        r == byte_len(v@),
{
    let mut acc: u64 = 0;
    let mut i: usize = 0;
    proof {
        lemma_byte_pos_mono(v@, 0, v@.len() as int);
    }
    while i < v.len()
        invariant
            i <= v.len(),
            v@.len() <= u32::MAX,
            byte_pos(v@, v@.len() as int) == byte_len(v@),
            acc == byte_pos(v@, i as int),
            acc <= 4 * i,
        decreases v.len() - i,
    {
        proof {
            lemma_byte_pos_succ(v@, i as int);
            lemma_char_width(v@[i as int]);
        }
        acc = acc + char_width(v[i]) as u64;
        i += 1;
    }
    acc
}

/// The number of bytes of the UTF-8 encoding of `line`.
pub fn byte_count(line: &str) -> (r: usize)
    ensures
        r == byte_len(line@),
{
    line.as_bytes().len()
}

/// The character position of the byte position `b` in `v`: `None` when
/// `b` falls inside the encoding of a character.
pub fn char_position(v: &Vec<char>, b: u64) -> (r: Option<usize>)
    ensures
        r is Some <==> (b >= byte_len(v@) || is_char_pos(v@, b as int)),
        r matches Some(k) ==> k == char_pos(v@, b as int),
{
    let mut acc: u64 = 0;
    let mut i: usize = 0;
    proof {
        lemma_byte_pos_mono(v@, 0, v@.len() as int);
    }
    while i < v.len()
        invariant
            i <= v.len(),
            byte_pos(v@, v@.len() as int) == byte_len(v@),
            acc == byte_pos(v@, i as int),
            acc <= b,
            forall|j: int| 0 <= j < i ==> #[trigger] byte_pos(v@, j) < b,
        decreases v.len() - i,
    {
        if acc == b {
            proof {
                lemma_char_pos(v@, i as int);
                lemma_byte_pos_mono(v@, i as int, v@.len() as int);
            }
            return Some(i);
        }
        proof {
            lemma_byte_pos_succ(v@, i as int);
        }
        let w = char_width(v[i]) as u64;
        if b - acc < w {
            proof {
                assert(b < byte_pos(v@, i + 1));
                assert(!is_char_pos(v@, b as int)) by {
                    if is_char_pos(v@, b as int) {
                        let k = choose|k: int| 0 <= k <= v@.len() && #[trigger] byte_pos(v@, k)
                            == b;
                        if k <= i {
                            if k < i {
                                assert(byte_pos(v@, k) < b);
                            }
                        } else {
                            lemma_byte_pos_mono(v@, i + 1, k);
                        }
                    }
                }
                lemma_byte_pos_mono(v@, i as int + 1, v@.len() as int);
            }
            return None;
        }
        acc = acc + w;
        i += 1;
    }
    proof {
        assert(v@.take(v@.len() as int) =~= v@);
    }
    Some(v.len())
}

} // verus!
