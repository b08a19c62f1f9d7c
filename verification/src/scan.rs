//! A text read once: its characters, and where each begins among its bytes.
//! With both at hand a piece of the text is cut out in constant time, as a
//! view into the text itself.

use vstd::prelude::*;
use vstd::string::StringSliceAdditionalSpecFns;
use vstd::utf8::*;

verus! {

/// The byte at which character `k` of `s` begins in the UTF-8 encoding of
/// `s`: the length of the encoding of what stands before it.
pub open spec fn byte_offset(s: Seq<char>, k: int) -> int {
    encode_utf8(s.take(k)).len() as int
}

/// The encoding of two texts in a row is their encodings in a row.
pub proof fn lemma_encode_concat(a: Seq<char>, b: Seq<char>)
    ensures
        encode_utf8(a + b) == encode_utf8(a) + encode_utf8(b),
    decreases a.len(),
{
    if a.len() == 0 {
        assert(a + b =~= b);
        assert(encode_utf8(a) + encode_utf8(b) =~= encode_utf8(b));
    } else {
        assert((a + b)[0] == a[0]);
        assert((a + b).drop_first() =~= a.drop_first() + b);
        lemma_encode_concat(a.drop_first(), b);
        assert(encode_utf8(a + b) =~= encode_utf8(a) + encode_utf8(b));
    }
}

/// Where one text ends and the next begins, a character begins.
pub proof fn lemma_boundary_between(a: Seq<char>, b: Seq<char>)
    ensures
        is_char_boundary(encode_utf8(a + b), encode_utf8(a).len() as int),
    decreases a.len(),
{
    let s = a + b;
    let bytes = encode_utf8(s);
    encode_utf8_valid_utf8(s);
    if a.len() > 0 {
        lemma_encode_concat(a, b);
        encode_utf8_first_scalar(s);
        assert(s[0] == a[0]);
        assert(s.drop_first() =~= a.drop_first() + b);
        assert(pop_first_scalar(bytes) =~= encode_utf8(s.drop_first()));
        lemma_boundary_between(a.drop_first(), b);
    }
}

/// The encoding of a text falls in two at the byte offset of each of its
/// characters, into the encodings of what stands before and after.
pub proof fn lemma_encoding_splits(s: Seq<char>, k: int)
    requires
        0 <= k <= s.len(),
    ensures
        byte_offset(s, k) <= encode_utf8(s).len(),
        is_char_boundary(encode_utf8(s), byte_offset(s, k)),
        encode_utf8(s).subrange(0, byte_offset(s, k)) == encode_utf8(s.take(k)),
        encode_utf8(s).subrange(byte_offset(s, k), encode_utf8(s).len() as int) == encode_utf8(
            s.skip(k),
        ),
{
    let a = s.take(k);
    let b = s.skip(k);
    assert(a + b =~= s);
    lemma_encode_concat(a, b);
    lemma_boundary_between(a, b);
    assert(encode_utf8(s).subrange(0, byte_offset(s, k)) =~= encode_utf8(a));
    assert(encode_utf8(s).subrange(byte_offset(s, k), encode_utf8(s).len() as int) =~= encode_utf8(
        b,
    ));
}

/// Texts with the same encoding are the same text.
pub proof fn lemma_encoding_is_injective(a: Seq<char>, b: Seq<char>)
    requires
        encode_utf8(a) == encode_utf8(b),
    ensures
        a == b,
{
    encode_utf8_decode_utf8(a);
    encode_utf8_decode_utf8(b);
}

/// The number of bytes that the UTF-8 encoding of `c` takes.
pub fn utf8_len(c: char) -> (n: usize)
    ensures
        n == encode_scalar(c as u32).len(),
        1 <= n <= 4,
{
    proof {
        char_is_scalar(c);
    }
    let u: u32 = c as u32;
    if u <= 0x7F {
        1
    } else if u <= 0x7FF {
        2
    } else if u <= 0xFFFF {
        3
    } else {
        4
    }
}

/// Cuts `s` in two before its character `k`, which begins at byte `at`.
fn cut_at<'a>(s: &'a str, at: usize, Ghost(k): Ghost<int>) -> (r: (&'a str, &'a str))
    requires
        0 <= k <= s@.len(),
        at == byte_offset(s@, k),
    ensures
        r.0@ == s@.take(k),
        r.1@ == s@.skip(k),
{
    proof {
        lemma_encoding_splits(s@, k);
    }
    let r = s.split_at(at);
    proof {
        lemma_encoding_is_injective(r.0@, s@.take(k));
        lemma_encoding_is_injective(r.1@, s@.skip(k));
    }
    r
}

/// A text with its characters and the byte offset of each, and of its end.
pub struct Scan<'a> {
    text: &'a str,
    chars: Vec<char>,
    offsets: Vec<usize>,
}

impl<'a> Scan<'a> {
    #[verifier::type_invariant]
    spec fn well_formed(&self) -> bool {
        &&& self.chars@ == self.text@
        &&& self.offsets@.len() == self.chars@.len() + 1
        &&& forall|k: int|
            0 <= k <= self.chars@.len() ==> #[trigger] self.offsets@[k] == byte_offset(self.text@, k)
    }

    /// The text that was read.
    pub closed spec fn text(&self) -> Seq<char> {
        self.text@
    }

    /// Reads `text` once, from its first byte to its last.
    pub fn new(text: &'a str) -> (scan: Scan<'a>)
        ensures
            scan.text() == text@,
    {
        let limit: usize = text.as_bytes().len();
        let mut chars: Vec<char> = Vec::new();
        let mut offsets: Vec<usize> = Vec::new();
        let mut at: usize = 0;
        offsets.push(0);
        proof {
            assert(text@.take(0) =~= Seq::<char>::empty());
        }
        for c in it: text.chars()
            invariant
                it.seq() == text@,
                limit == encode_utf8(text@).len(),
                chars@ == text@.take(it.index() as int),
                offsets@.len() == chars@.len() + 1,
                at == byte_offset(text@, it.index() as int),
                forall|k: int|
                    0 <= k <= chars@.len() ==> #[trigger] offsets@[k] == byte_offset(text@, k),
        {
            let ghost k = it.index() as int;
            proof {
                let before = text@.take(k);
                assert(text@.take(k + 1) =~= before + seq![c]);
                lemma_encode_concat(before, seq![c]);
                assert(seq![c].drop_first() =~= Seq::<char>::empty());
                assert(encode_utf8(seq![c]) =~= encode_scalar(c as u32)) by {
                    reveal_with_fuel(encode_utf8, 2);
                }
                lemma_encoding_splits(text@, k + 1);
            }
            at = at + utf8_len(c);
            chars.push(c);
            offsets.push(at);
        }
        proof {
            assert(text@.take(text@.len() as int) =~= text@);
        }
        Scan { text, chars, offsets }
    }

    /// The characters of the text, in order.
    pub fn chars(&self) -> (r: &[char])
        ensures
            r@ == self.text(),
    {
        proof {
            use_type_invariant(self);
        }
        self.chars.as_slice()
    }

    /// The characters from index `from` up to index `to`, as a view into
    /// the text.
    pub fn slice(&self, from: usize, to: usize) -> (r: &'a str)
        requires
            from <= to <= self.text().len(),
        ensures
            r@ == self.text().subrange(from as int, to as int),
    {
        proof {
            use_type_invariant(self);
        }
        let (head, _) = cut_at(self.text, self.offsets[to], Ghost(to as int));
        proof {
            assert(head@.take(from as int) =~= self.text@.take(from as int));
        }
        let (_, piece) = cut_at(head, self.offsets[from], Ghost(from as int));
        proof {
            assert(piece@ =~= self.text@.subrange(from as int, to as int));
        }
        piece
    }
}

} // verus!
