//! UTF-8 decoding of byte buffers, checked against vstd's UTF-8 model.
use vstd::prelude::*;
use vstd::utf8::*;

verus! {

/// The bytes of `b` from index `i` on.
pub open spec fn suffix(b: Seq<u8>, i: int) -> Seq<u8> {
    b.subrange(i, b.len() as int)
}

/// `char::from_u32`: the character with the given scalar value, if any.
#[verifier::external_body]
fn char_from_u32(u: u32) -> (r: Option<char>)
    ensures
        r is Some <==> is_scalar(u),
        r matches Some(c) ==> c as u32 == u,
{
    char::from_u32(u)
}

/// The character whose scalar value is `u`.
pub fn scalar_char(u: u32) -> (c: char)
    requires
        is_scalar(u),
    ensures
        c == u as char,
{
    match char_from_u32(u) {
        Some(c) => {
            proof {
                char_u32_cast(c, u);
            }
            c
        },
        None => {
            proof {
                assert(false);
            }
            ' '
        },
    }
}

proof fn lemma_width_2_bound(b0: u8, b1: u8)
    ensures
        codepoint_width_2(b0, b1) <= 0x7ff,
{
    assert((((b0 & 0x1F) as u32) << 6) | ((b1 & 0x3f) as u32) <= 0x7ff) by (bit_vector);
}

proof fn lemma_width_3_bound(b0: u8, b1: u8, b2: u8)
    ensures
        codepoint_width_3(b0, b1, b2) <= 0xffff,
{
    assert((((b0 & 0x0F) as u32) << 12) | (((b1 & 0x3f) as u32) << 6) | ((b2 & 0x3f) as u32)
        <= 0xffff) by (bit_vector);
}

/// A well-formed first scalar decodes to a Unicode scalar value.
pub proof fn lemma_valid_first_is_scalar(b: Seq<u8>)
    requires
        valid_first_scalar(b),
    ensures
        is_scalar(decode_first_scalar(b)),
        1 <= length_of_first_scalar(b) <= 4,
        length_of_first_scalar(b) <= b.len(),
{
    if is_leading_byte_width_1(b[0]) {
        let b0 = b[0];
        assert((b0 & 0x7F) as u32 <= 0x7f) by (bit_vector);
    } else if is_leading_byte_width_2(b[0]) {
        lemma_width_2_bound(b[0], b[1]);
    } else if is_leading_byte_width_3(b[0]) {
        lemma_width_3_bound(b[0], b[1], b[2]);
    }
}

/// The length of the well-formed scalar encoding that starts at `b[i]`, or 0
/// when none starts there.
pub fn first_scalar_len(b: &[u8], i: usize) -> (n: usize)
    requires
        i <= b@.len(),
    ensures
        (n == 0) == !valid_first_scalar(suffix(b@, i as int)),
        n > 0 ==> n == length_of_first_scalar(suffix(b@, i as int)) && i + n <= b@.len(),
{
    let ghost s = suffix(b@, i as int);
    let len = b.len();
    if i >= len {
        return 0;
    }
    let b0 = b[i];
    if b0 <= 0x7f {
        proof {
            assert(s[0] == b0);
        }
        return 1;
    }
    if 0xc0 <= b0 && b0 <= 0xdf {
        if len - i < 2 {
            return 0;
        }
        let b1 = b[i + 1];
        proof {
            assert(s[0] == b0 && s[1] == b1);
        }
        if !(0x80 <= b1 && b1 <= 0xbf) {
            return 0;
        }
        let cp: u32 = (((b0 & 0x1F) as u32) << 6) | ((b1 & 0x3f) as u32);
        if 0x80 <= cp {
            proof {
                lemma_width_2_bound(b0, b1);
            }
            return 2;
        }
        return 0;
    }
    if 0xe0 <= b0 && b0 <= 0xef {
        if len - i < 3 {
            return 0;
        }
        let b1 = b[i + 1];
        let b2 = b[i + 2];
        proof {
            assert(s[0] == b0 && s[1] == b1 && s[2] == b2);
        }
        if !(0x80 <= b1 && b1 <= 0xbf && 0x80 <= b2 && b2 <= 0xbf) {
            return 0;
        }
        let cp: u32 = (((b0 & 0x0F) as u32) << 12) | (((b1 & 0x3f) as u32) << 6) | ((b2
            & 0x3f) as u32);
        if 0x800 <= cp && !(0xD800 <= cp && cp <= 0xDFFF) {
            return 3;
        }
        return 0;
    }
    if 0xf0 <= b0 && b0 <= 0xf7 {
        if len - i < 4 {
            return 0;
        }
        let b1 = b[i + 1];
        let b2 = b[i + 2];
        let b3 = b[i + 3];
        proof {
            assert(s[0] == b0 && s[1] == b1 && s[2] == b2 && s[3] == b3);
        }
        if !(0x80 <= b1 && b1 <= 0xbf && 0x80 <= b2 && b2 <= 0xbf && 0x80 <= b3 && b3 <= 0xbf) {
            return 0;
        }
        let cp: u32 = (((b0 & 0x07) as u32) << 18) | (((b1 & 0x3f) as u32) << 12) | (((b2
            & 0x3f) as u32) << 6) | ((b3 & 0x3f) as u32);
        if 0x10000 <= cp && cp <= 0x10ffff && !(0xD800 <= cp && cp <= 0xDFFF) {
            return 4;
        }
        return 0;
    }
    proof {
        assert(s[0] == b0);
    }
    0
}

/// The scalar value of the well-formed encoding that starts at `b[i]`.
pub fn first_scalar_value(b: &[u8], i: usize) -> (u: u32)
    requires
        i <= b@.len(),
        valid_first_scalar(suffix(b@, i as int)),
    ensures
        u == decode_first_scalar(suffix(b@, i as int)),
{
    let ghost s = suffix(b@, i as int);
    let b0 = b[i];
    proof {
        assert(s[0] == b0);
    }
    if b0 <= 0x7f {
        return (b0 & 0x7F) as u32;
    }
    if b0 <= 0xdf {
        let b1 = b[i + 1];
        proof {
            assert(s[1] == b1);
        }
        return (((b0 & 0x1F) as u32) << 6) | ((b1 & 0x3f) as u32);
    }
    if b0 <= 0xef {
        let b1 = b[i + 1];
        let b2 = b[i + 2];
        proof {
            assert(s[1] == b1 && s[2] == b2);
        }
        return (((b0 & 0x0F) as u32) << 12) | (((b1 & 0x3f) as u32) << 6) | ((b2 & 0x3f) as u32);
    }
    let b1 = b[i + 1];
    let b2 = b[i + 2];
    let b3 = b[i + 3];
    proof {
        assert(s[1] == b1 && s[2] == b2 && s[3] == b3);
    }
    (((b0 & 0x07) as u32) << 18) | (((b1 & 0x3f) as u32) << 12) | (((b2 & 0x3f) as u32) << 6) | ((
    b3 & 0x3f) as u32)
}

/// The characters that `b` encodes, when `b` is valid UTF-8
/// (`std::str::from_utf8`).
pub fn decode(b: &[u8]) -> (r: Option<Vec<char>>)
    ensures
        r is Some == valid_utf8(b@),
        r matches Some(v) ==> v@ == decode_utf8(b@),
{
    let n = b.len();
    let mut out: Vec<char> = Vec::new();
    let mut i: usize = 0;
    proof {
        assert(suffix(b@, 0) == b@);
    }
    while i < n
        invariant
            n == b@.len(),
            i <= n,
            valid_utf8(b@) == valid_utf8(suffix(b@, i as int)),
            valid_utf8(b@) ==> decode_utf8(b@) == out@ + decode_utf8(suffix(b@, i as int)),
        decreases n - i,
    {
        let ghost s = suffix(b@, i as int);
        let m = first_scalar_len(b, i);
        if m == 0 {
            return None;
        }
        let u = first_scalar_value(b, i);
        proof {
            lemma_valid_first_is_scalar(s);
            assert(pop_first_scalar(s) == suffix(b@, i + m));
        }
        let c = scalar_char(u);
        out.push(c);
        i = i + m;
        proof {
            if valid_utf8(b@) {
                assert(decode_utf8(s) == seq![c] + decode_utf8(suffix(b@, i as int)));
                assert(out@ + decode_utf8(suffix(b@, i as int)) == (out@.drop_last() + seq![c])
                    + decode_utf8(suffix(b@, i as int)));
            }
        }
    }
    proof {
        assert(suffix(b@, n as int).len() == 0);
        assert(decode_utf8(suffix(b@, n as int)) == Seq::<char>::empty());
        assert(out@ + Seq::<char>::empty() == out@);
    }
    Some(out)
}

/// The bytes of a string slice (its UTF-8 encoding).
pub fn str_bytes(s: &str) -> (r: Vec<u8>)
    ensures
        r@ == encode_utf8(s@),
{
    let b = s.as_bytes();
    let mut r: Vec<u8> = Vec::new();
    let mut i: usize = 0;
    while i < b.len()
        invariant
            i <= b@.len(),
            r@ == b@.subrange(0, i as int),
        decreases b@.len() - i,
    {
        r.push(b[i]);
        i = i + 1;
        assert(b@.subrange(0, i as int) == b@.subrange(0, i - 1) + seq![b@[i - 1]]);
    }
    assert(b@.subrange(0, b@.len() as int) == b@);
    r
}

/// What `String::from_utf8_lossy` makes of a byte buffer.
pub uninterp spec fn lossy_text(b: Seq<u8>) -> Seq<char>;

/// The text of a byte buffer: its characters when it is valid UTF-8, else
/// its lossy reading.
pub open spec fn read_text(b: Seq<u8>) -> Seq<char> {
    if valid_utf8(b) {
        decode_utf8(b)
    } else {
        lossy_text(b)
    }
}

/// `String::from_utf8_lossy`: the text of a byte buffer, each invalid
/// sequence replaced by U+FFFD. The contract names the result and states
/// what the documentation promises of valid input: it is decoded as it is.
#[verifier::external_body]
pub(crate) fn utf8_lossy(bytes: &[u8]) -> (r: String)
    ensures
        r@ == lossy_text(bytes@),
        valid_utf8(bytes@) ==> r@ == decode_utf8(bytes@),
{
    String::from_utf8_lossy(bytes).into_owned()
}

} // verus!
