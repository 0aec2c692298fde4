use vstd::prelude::*;

verus! {

use vstd::std_specs::iter::IteratorSpec;
use vstd::utf8::{encode_scalar, encode_utf8};

broadcast use vstd::string::group_string_axioms;

/// The characters of `s`, in order.
pub fn chars_of(s: &str) -> (r: Vec<char>)
    ensures
        r@ == s@,
{
    let mut chars: Vec<char> = Vec::new();
    let mut it = s.chars();
    loop
        invariant
            it.remaining() == s@.subrange(chars@.len() as int, s@.len() as int),
            chars@ == s@.subrange(0, chars@.len() as int),
            chars@.len() <= s@.len(),
        ensures
            chars@ =~= s@,
        decreases s@.len() - chars@.len(),
    {
        match it.next() {
            Some(c) => {
                chars.push(c);
            },
            None => {
                break;
            },
        }
    }
    chars
}

/// The byte offset, in the UTF-8 encoding of `s`, of the character at
/// position `n`.
pub open spec fn byte_pos(s: Seq<char>, n: int) -> nat {
    encode_utf8(s.subrange(0, n)).len()
}

/// Encoding a text followed by a character adds the character's encoding.
pub proof fn lemma_encode_push(a: Seq<char>, c: char)
    ensures
        encode_utf8(a.push(c)) == encode_utf8(a) + encode_scalar(c as u32),
    decreases a.len(),
{
    if a.len() == 0 {
        assert(a.push(c).drop_first() =~= Seq::<char>::empty());
        assert(a.push(c)[0] == c);
        assert(encode_utf8(a.push(c).drop_first()) =~= Seq::<u8>::empty());
        assert(encode_utf8(a) =~= Seq::<u8>::empty());
        assert(encode_utf8(a.push(c)) =~= encode_utf8(a) + encode_scalar(c as u32));
    } else {
        assert(a.push(c).drop_first() =~= a.drop_first().push(c));
        lemma_encode_push(a.drop_first(), c);
        assert(encode_utf8(a.push(c)) =~= encode_utf8(a) + encode_scalar(c as u32));
    }
}

/// The encoding of two texts one after the other is the two encodings one
/// after the other.
pub proof fn lemma_encode_append(a: Seq<char>, b: Seq<char>)
    ensures
        encode_utf8(a + b) == encode_utf8(a) + encode_utf8(b),
    decreases a.len(),
{
    if a.len() == 0 {
        assert(a + b =~= b);
        assert(encode_utf8(a) =~= Seq::<u8>::empty());
        assert(encode_utf8(a) + encode_utf8(b) =~= encode_utf8(b));
    } else {
        assert((a + b).drop_first() =~= a.drop_first() + b);
        lemma_encode_append(a.drop_first(), b);
        assert(encode_utf8(a + b) =~= encode_utf8(a) + encode_utf8(b));
    }
}

/// The bytes between the offsets of character positions `i` and `j` encode
/// the characters between them.
pub proof fn lemma_bytes_of_range(s: Seq<char>, i: int, j: int)
    requires
        0 <= i <= j <= s.len(),
    ensures
        byte_pos(s, j) <= encode_utf8(s).len(),
        encode_utf8(s).subrange(byte_pos(s, i) as int, byte_pos(s, j) as int) == encode_utf8(s.subrange(i, j)),
{
    let p = s.subrange(0, i);
    let m = s.subrange(i, j);
    let q = s.subrange(j, s.len() as int);
    assert(s =~= p + m + q);
    assert(s.subrange(0, j) =~= p + m);
    lemma_encode_append(p, m);
    lemma_encode_append(p + m, q);
    assert(encode_utf8(s).subrange(byte_pos(s, i) as int, byte_pos(s, j) as int) =~= encode_utf8(m));
}

/// Each character takes one to four bytes.
pub proof fn lemma_byte_pos_step(s: Seq<char>, n: int)
    requires
        0 <= n < s.len(),
    ensures
        byte_pos(s, n + 1) == byte_pos(s, n) + encode_scalar(s[n] as u32).len(),
        1 <= encode_scalar(s[n] as u32).len() <= 4,
{
    assert(s.subrange(0, n + 1) =~= s.subrange(0, n).push(s[n]));
    lemma_encode_push(s.subrange(0, n), s[n]);
}

/// Byte offsets grow with character positions.
pub proof fn lemma_byte_pos_mono(s: Seq<char>, i: int, j: int)
    requires
        0 <= i <= j <= s.len(),
    ensures
        byte_pos(s, i) <= byte_pos(s, j),
    decreases j - i,
{
    if i < j {
        lemma_byte_pos_mono(s, i, j - 1);
        lemma_byte_pos_step(s, j - 1);
    }
}

/// The number of bytes of `c` in UTF-8.
pub fn char_width(c: char) -> (r: usize)
    ensures
        r == encode_scalar(c as u32).len(),
{
    let v = c as u32;
    if v < 0x80 {
        1
    } else if v < 0x800 {
        2
    } else if v < 0x10000 {
        3
    } else {
        4
    }
}

/// The decimal digit `d` as a character.
pub open spec fn digit_char(d: nat) -> char {
    if d == 0 {
        '0'
    } else if d == 1 {
        '1'
    } else if d == 2 {
        '2'
    } else if d == 3 {
        '3'
    } else if d == 4 {
        '4'
    } else if d == 5 {
        '5'
    } else if d == 6 {
        '6'
    } else if d == 7 {
        '7'
    } else if d == 8 {
        '8'
    } else {
        '9'
    }
}

/// `n` written in decimal, without leading zeros.
pub open spec fn decimal(n: nat) -> Seq<char>
    decreases n,
{
    if n < 10 {
        seq![digit_char(n)]
    } else {
        decimal(n / 10).push(digit_char(n % 10))
    }
}

fn digit_str(d: usize) -> (r: &'static str)
    requires
        d < 10,
    ensures
        r@ == seq![digit_char(d as nat)],
{
    proof {
        reveal_strlit("0");
        reveal_strlit("1");
        reveal_strlit("2");
        reveal_strlit("3");
        reveal_strlit("4");
        reveal_strlit("5");
        reveal_strlit("6");
        reveal_strlit("7");
        reveal_strlit("8");
        reveal_strlit("9");
    }
    let r = if d == 0 {
        "0"
    } else if d == 1 {
        "1"
    } else if d == 2 {
        "2"
    } else if d == 3 {
        "3"
    } else if d == 4 {
        "4"
    } else if d == 5 {
        "5"
    } else if d == 6 {
        "6"
    } else if d == 7 {
        "7"
    } else if d == 8 {
        "8"
    } else {
        "9"
    };
    assert(r@ =~= seq![digit_char(d as nat)]);
    r
}

/// `n` written in decimal.
pub fn decimal_string(n: usize) -> (r: String)
    ensures
        r@ == decimal(n as nat),
    decreases n,
{
    if n < 10 {
        String::from_str(digit_str(n))
    } else {
        let mut r = decimal_string(n / 10);
        r.append(digit_str(n % 10));
        assert(r@ =~= decimal(n as nat));
        r
    }
}

/// The index of the first `c` in `s`, or the length of `s` where there is none.
pub open spec fn first_index(s: Seq<char>, c: char) -> nat
    decreases s.len(),
{
    if s.len() == 0 {
        0
    } else if s[0] == c {
        0
    } else {
        1 + first_index(s.drop_first(), c)
    }
}

proof fn lemma_first_index(s: Seq<char>, c: char, k: nat)
    requires
        k <= s.len(),
        k < s.len() ==> s[k as int] == c,
        forall|j: int| 0 <= j < k ==> s[j] != c,
    ensures
        first_index(s, c) == k,
    decreases s.len(),
{
    if s.len() > 0 && k > 0 {
        assert(s[0] != c);
        assert forall|j: int| 0 <= j < k - 1 implies s.drop_first()[j] != c by {
            assert(s[j + 1] != c);
        }
        lemma_first_index(s.drop_first(), c, (k - 1) as nat);
    }
}

/// Splits `inp` around its first `delim`; `None` where it holds none.
pub fn split_once<'a>(inp: &'a str, delim: char) -> (r: Option<(&'a str, &'a str)>)
    ensures
        first_index(inp@, delim) <= inp@.len(),
        r is None <==> first_index(inp@, delim) == inp@.len(),
        r matches Some((a, b)) ==> {
            &&& a@ == inp@.subrange(0, first_index(inp@, delim) as int)
            &&& b@ == inp@.subrange(first_index(inp@, delim) + 1 as int, inp@.len() as int)
        },
{
    let chars = chars_of(inp);
    let mut k: usize = 0;
    while k < chars.len() && chars[k] != delim
        invariant
            chars@ == inp@,
            k <= chars@.len(),
            forall|j: int| 0 <= j < k ==> chars@[j] != delim,
        decreases chars@.len() - k,
    {
        k = k + 1;
    }
    proof {
        lemma_first_index(inp@, delim, k as nat);
    }
    if k == chars.len() {
        None
    } else {
        Some((inp.substring_char(0, k), inp.substring_char(k + 1, chars.len())))
    }
}

} // verus!
