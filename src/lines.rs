//! Splitting a text into lines, each line a view into the text.

use vstd::prelude::*;
use vstd::utf8::*;

use crate::text::chars_of;

verus! {

/// Index of the first line feed in `s`, or the length of `s` where it has none.
pub open spec fn line_end(s: Seq<char>) -> nat
    decreases s.len(),
{
    if s.len() == 0 || s[0] == '\n' {
        0
    } else {
        1 + line_end(s.drop_first())
    }
}

/// A line ended by a line feed also drops a carriage return just before it.
pub open spec fn strip_cr(l: Seq<char>) -> Seq<char> {
    if l.len() > 0 && l.last() == '\r' {
        l.drop_last()
    } else {
        l
    }
}

/// The lines of a text, in order. A line ends at a line feed, or at a
/// carriage return and line feed, which are not part of it; a last line
/// without a line feed is a line too, while an empty text has no lines.
pub open spec fn lines_of(s: Seq<char>) -> Seq<Seq<char>>
    decreases s.len(),
{
    if s.len() == 0 {
        Seq::empty()
    } else if line_end(s) >= s.len() {
        seq![s]
    } else {
        seq![strip_cr(s.take(line_end(s) as int))] + lines_of(s.skip(line_end(s) + 1 as int))
    }
}

/// The first `k` characters hold no line feed and `k` ends them: `k` is where
/// the first line ends.
proof fn lemma_line_end(s: Seq<char>, k: int)
    requires
        0 <= k <= s.len(),
        forall|j: int| 0 <= j < k ==> s[j] != '\n',
        k == s.len() || s[k] == '\n',
    ensures
        line_end(s) == k,
    decreases k,
{
    if k > 0 {
        lemma_line_end(s.drop_first(), k - 1);
    }
}

/// Encoding one more character appends its encoding.
proof fn lemma_encode_push(s: Seq<char>, c: char)
    ensures
        encode_utf8(s.push(c)) == encode_utf8(s) + encode_scalar(c as u32),
{
    assert(s.push(c) =~= s + seq![c]);
    lemma_encode_concat(s, seq![c]);
    let one = seq![c];
    assert(one.drop_first() =~= Seq::<char>::empty());
    assert(encode_utf8(one.drop_first()) =~= Seq::<u8>::empty());
    assert(one[0] == c);
    assert(encode_utf8(one) =~= encode_scalar(c as u32));
}

/// Encoding distributes over concatenation.
proof fn lemma_encode_concat(a: Seq<char>, b: Seq<char>)
    ensures
        encode_utf8(a + b) == encode_utf8(a) + encode_utf8(b),
    decreases a.len(),
{
    if a.len() == 0 {
        assert(a + b =~= b);
        assert(encode_utf8(a) + encode_utf8(b) =~= encode_utf8(b));
    } else {
        assert((a + b).drop_first() =~= a.drop_first() + b);
        lemma_encode_concat(a.drop_first(), b);
        assert((a + b)[0] == a[0]);
        assert(encode_utf8(a + b) =~= encode_utf8(a) + encode_utf8(b));
    }
}

/// The encoding of the first `k` characters ends on a character boundary.
proof fn lemma_prefix_boundary(s: Seq<char>, k: int)
    requires
        0 <= k <= s.len(),
    ensures
        is_char_boundary(encode_utf8(s), encode_utf8(s.take(k)).len() as int),
    decreases k,
{
    let bytes = encode_utf8(s);
    encode_utf8_valid_utf8(s);
    if k == 0 {
        assert(s.take(0) =~= Seq::<char>::empty());
    } else {
        encode_utf8_first_scalar(s);
        assert(pop_first_scalar(bytes) =~= encode_utf8(s.drop_first()));
        assert(s.take(k).drop_first() =~= s.drop_first().take(k - 1));
        assert(s.take(k)[0] == s[0]);
        lemma_prefix_boundary(s.drop_first(), k - 1);
        assert(s.take(k) + s.skip(k) =~= s);
        lemma_encode_concat(s.take(k), s.skip(k));
    }
}

/// Cutting the encoding of `s` where the encoding of its first `k`
/// characters ends.
proof fn lemma_split_encoding(s: Seq<char>, k: int)
    requires
        0 <= k <= s.len(),
    ensures
        ({
            let n = encode_utf8(s.take(k)).len() as int;
            &&& is_char_boundary(encode_utf8(s), n)
            &&& n <= encode_utf8(s).len()
            &&& encode_utf8(s).subrange(0, n) == encode_utf8(s.take(k))
            &&& encode_utf8(s).subrange(n, encode_utf8(s).len() as int) == encode_utf8(s.skip(k))
        }),
{
    assert(s.take(k) + s.skip(k) =~= s);
    lemma_encode_concat(s.take(k), s.skip(k));
    lemma_prefix_boundary(s, k);
    let n = encode_utf8(s.take(k)).len() as int;
    assert(encode_utf8(s).subrange(0, n) =~= encode_utf8(s.take(k)));
    assert(encode_utf8(s).subrange(n, encode_utf8(s).len() as int) =~= encode_utf8(s.skip(k)));
}

/// Number of bytes in the encoding of `c`.
fn utf8_width(c: char) -> (r: usize)
    ensures
        r == encode_scalar(c as u32).len(),
{
    proof {
        char_is_scalar(c);
    }
    let u = c as u32;
    if u < 0x80 {
        1
    } else if u < 0x800 {
        2
    } else if u < 0x10000 {
        3
    } else {
        4
    }
}

/// The part of `s` that holds its characters `a` to `b`, found by the byte
/// offsets `from` and `to` where the encodings of those prefixes end.
fn slice_chars<'a>(
    s: &'a str,
    from: usize,
    to: usize,
    Ghost(a): Ghost<int>,
    Ghost(b): Ghost<int>,
) -> (r: &'a str)
    requires
        0 <= a <= b <= s@.len(),
        from == encode_utf8(s@.take(a)).len(),
        to == encode_utf8(s@.take(b)).len(),
    ensures
        r@ == s@.subrange(a, b),
{
    let ghost t = s@.skip(a);
    proof {
        lemma_split_encoding(s@, a);
        assert(s@.take(b) =~= s@.take(a) + t.take(b - a));
        lemma_encode_concat(s@.take(a), t.take(b - a));
    }
    let (_, rest) = s.split_at(from);
    proof {
        encode_utf8_decode_utf8(rest@);
        encode_utf8_decode_utf8(t);
        lemma_split_encoding(t, b - a);
    }
    let (mid, _) = rest.split_at(to - from);
    proof {
        encode_utf8_decode_utf8(mid@);
        encode_utf8_decode_utf8(t.take(b - a));
        assert(t.take(b - a) =~= s@.subrange(a, b));
    }
    mid
}

/// Splits `s` into its lines, each one a view into `s`.
pub fn split_lines<'a>(s: &'a str) -> (r: Vec<&'a str>)
    ensures
        r@.map_values(|l: &str| l@) == lines_of(s@),
{
    let ghost text = s@;
    let chars = chars_of(s);
    let total: usize = s.as_bytes().len();
    let mut out: Vec<&'a str> = Vec::new();
    let mut start: usize = 0;
    let mut start_byte: usize = 0;
    let mut pos: usize = 0;
    assert(text.skip(0) =~= text);
    assert(out@.map_values(|l: &str| l@) + lines_of(text) =~= lines_of(text));
    for i in 0..chars.len()
        invariant
            chars@ == text,
            text == s@,
            total == encode_utf8(text).len(),
            start <= i <= text.len(),
            pos == encode_utf8(text.take(i as int)).len(),
            start_byte == encode_utf8(text.take(start as int)).len(),
            forall|j: int| start <= j < i ==> text[j] != '\n',
            lines_of(text) == out@.map_values(|l: &str| l@) + lines_of(text.skip(start as int)),
    {
        let c = chars[i];
        let w = utf8_width(c);
        proof {
            assert(text.take(i + 1) =~= text.take(i as int).push(c));
            lemma_encode_push(text.take(i as int), c);
            lemma_split_encoding(text, i + 1);
        }
        if c == '\n' {
            let ghost rest = text.skip(start as int);
            proof {
                lemma_line_end(rest, i - start);
                assert(rest.skip(i - start + 1) =~= text.skip(i + 1));
            }
            let line;
            if i > start && chars[i - 1] == '\r' {
                proof {
                    assert(text.take(i as int) =~= text.take(i - 1).push('\r'));
                    lemma_encode_push(text.take(i - 1), '\r');
                    assert(rest.take(i - start) =~= text.subrange(start as int, i as int));
                    assert(text.subrange(start as int, i as int).drop_last() =~= text.subrange(
                        start as int,
                        i - 1,
                    ));
                }
                line = slice_chars(s, start_byte, pos - 1, Ghost(start as int), Ghost(i - 1));
            } else {
                proof {
                    assert(rest.take(i - start) =~= text.subrange(start as int, i as int));
                }
                line = slice_chars(s, start_byte, pos, Ghost(start as int), Ghost(i as int));
            }
            proof {
                assert(line@ == strip_cr(rest.take(i - start)));
            }
            let ghost prev = out@.map_values(|l: &str| l@);
            out.push(line);
            proof {
                assert(out@.map_values(|l: &str| l@) =~= prev + seq![line@]);
                assert(prev + (seq![line@] + lines_of(text.skip(i + 1))) =~= (prev + seq![line@])
                    + lines_of(text.skip(i + 1)));
            }
            start = i + 1;
            start_byte = pos + 1;
        }
        pos = pos + w;
    }
    if start < chars.len() {
        let ghost rest = text.skip(start as int);
        proof {
            lemma_line_end(rest, rest.len() as int);
            assert(text.take(text.len() as int) =~= text);
            assert(rest =~= text.subrange(start as int, text.len() as int));
        }
        let line = slice_chars(s, start_byte, pos, Ghost(start as int), Ghost(chars.len() as int));
        let ghost prev = out@.map_values(|l: &str| l@);
        out.push(line);
        assert(out@.map_values(|l: &str| l@) =~= prev + seq![line@]);
    } else {
        assert(text.skip(start as int) =~= Seq::<char>::empty());
        assert(out@.map_values(|l: &str| l@) + Seq::<Seq<char>>::empty() =~= out@.map_values(
            |l: &str| l@,
        ));
    }
    out
}

} // verus!
