use vstd::prelude::*;
use vstd::utf8::{
    char_is_scalar, decode_utf8, encode_scalar, encode_utf8, encode_utf8_decode_utf8,
    encode_utf8_first_scalar, encode_utf8_valid_utf8, is_char_boundary, pop_first_scalar,
};

verus! {

/// The number of bytes that encode `c`.
fn utf8_width(c: char) -> (w: usize)
    ensures
        w == encode_scalar(c as u32).len(),
{
    proof {
        char_is_scalar(c);
    }
    let v = c as u32;
    if v <= 0x7F {
        1
    } else if v <= 0x7FF {
        2
    } else if v <= 0xFFFF {
        3
    } else {
        4
    }
}

proof fn lemma_encode_concat(a: Seq<char>, b: Seq<char>)
    ensures
        encode_utf8(a + b) == encode_utf8(a) + encode_utf8(b),
    decreases a.len(),
{
    if a.len() == 0 {
        assert(a + b =~= b);
        assert(encode_utf8(a) + encode_utf8(b) =~= encode_utf8(b));
    } else {
        assert((a + b).drop_first() =~= a.drop_first() + b);
        lemma_encode_concat(a.drop_first(), b);
        assert(encode_utf8(a + b) =~= encode_utf8(a) + encode_utf8(b));
    }
}

proof fn lemma_boundary_after_prefix(a: Seq<char>, b: Seq<char>)
    ensures
        is_char_boundary(encode_utf8(a + b), encode_utf8(a).len() as int),
    decreases a.len(),
{
    let bytes = encode_utf8(a + b);
    encode_utf8_valid_utf8(a + b);
    if a.len() > 0 {
        encode_utf8_first_scalar(a + b);
        lemma_encode_concat(a, b);
        lemma_encode_concat(a.drop_first(), b);
        assert((a + b).drop_first() =~= a.drop_first() + b);
        assert((a + b)[0] == a[0]);
        assert(pop_first_scalar(bytes) =~= encode_utf8(a.drop_first() + b));
        lemma_boundary_after_prefix(a.drop_first(), b);
    }
}

/// Splitting the characters of a text at position `k` splits its bytes at the
/// length of the encoded first part, which is a character boundary.
proof fn lemma_split_encoding(x: Seq<char>, k: int)
    requires
        0 <= k <= x.len(),
    ensures
        is_char_boundary(encode_utf8(x), encode_utf8(x.subrange(0, k)).len() as int),
        encode_utf8(x).subrange(0, encode_utf8(x.subrange(0, k)).len() as int) == encode_utf8(
            x.subrange(0, k),
        ),
        encode_utf8(x).subrange(encode_utf8(x.subrange(0, k)).len() as int, encode_utf8(x).len() as int)
            == encode_utf8(x.subrange(k, x.len() as int)),
{
    let a = x.subrange(0, k);
    let b = x.subrange(k, x.len() as int);
    assert(a + b =~= x);
    lemma_encode_concat(a, b);
    lemma_boundary_after_prefix(a, b);
    assert(encode_utf8(x).subrange(0, encode_utf8(a).len() as int) =~= encode_utf8(a));
    assert(encode_utf8(x).subrange(encode_utf8(a).len() as int, encode_utf8(x).len() as int)
        =~= encode_utf8(b));
}

proof fn lemma_encoding_determines_text(x: Seq<char>, y: Seq<char>)
    requires
        encode_utf8(x) == encode_utf8(y),
    ensures
        x == y,
{
    encode_utf8_decode_utf8(x);
    encode_utf8_decode_utf8(y);
}

/// The byte offset at which each character position of `s` starts; the last
/// entry is the length of `s` in bytes.
pub fn char_offsets(s: &str) -> (r: Vec<usize>)
    ensures
        r@.len() == s@.len() + 1,
        forall|k: int|
            0 <= k <= s@.len() ==> #[trigger] r@[k] as int == encode_utf8(s@.subrange(0, k)).len(),
{
    let total = s.as_bytes().len();
    let mut offsets: Vec<usize> = Vec::new();
    let mut offset: usize = 0;
    offsets.push(0);
    assert(s@.subrange(0, 0) =~= Seq::<char>::empty());
    for c in it: s.chars()
        invariant
            it.seq() == s@,
            total as int == encode_utf8(s@).len(),
            offsets@.len() == it.index() + 1,
            offset as int == encode_utf8(s@.subrange(0, it.index() as int)).len(),
            forall|k: int|
                0 <= k <= it.index() ==> #[trigger] offsets@[k] as int == encode_utf8(
                    s@.subrange(0, k),
                ).len(),
    {
        let ghost i = it.index() as int;
        let w = utf8_width(c);
        proof {
            let before = s@.subrange(0, i);
            assert(s@.subrange(0, i + 1) =~= before + seq![c]);
            lemma_encode_concat(before, seq![c]);
            assert(seq![c].drop_first() =~= Seq::<char>::empty());
            reveal_with_fuel(encode_utf8, 2);
            assert(encode_utf8(seq![c]) =~= encode_scalar(c as u32));
            let after = s@.subrange(i + 1, s@.len() as int);
            assert(s@.subrange(0, i + 1) + after =~= s@);
            lemma_encode_concat(s@.subrange(0, i + 1), after);
        }
        offset = offset + w;
        offsets.push(offset);
    }
    offsets
}

/// The characters of `s` from position `from` up to `to`, borrowed from `s`.
/// `from_byte` and `to_byte` are the byte offsets of those positions.
pub fn slice_chars<'a>(s: &'a str, from: usize, to: usize, from_byte: usize, to_byte: usize) -> (r:
    &'a str)
    requires
        from <= to <= s@.len(),
        from_byte == encode_utf8(s@.subrange(0, from as int)).len(),
        to_byte == encode_utf8(s@.subrange(0, to as int)).len(),
    ensures
        r@ == s@.subrange(from as int, to as int),
{
    proof {
        lemma_split_encoding(s@, to as int);
    }
    let (head, _) = s.split_at(to_byte);
    proof {
        lemma_encoding_determines_text(head@, s@.subrange(0, to as int));
        assert(head@.subrange(0, from as int) =~= s@.subrange(0, from as int));
        assert(head@.subrange(from as int, head@.len() as int) =~= s@.subrange(
            from as int,
            to as int,
        ));
        lemma_split_encoding(head@, from as int);
    }
    let (_, piece) = head.split_at(from_byte);
    proof {
        lemma_encoding_determines_text(piece@, s@.subrange(from as int, to as int));
    }
    piece
}

} // verus!
