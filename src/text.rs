//! Text primitives: the characters of a string, substring tests, and the
//! splitting of a text into lines.

use vstd::prelude::*;
use vstd::std_specs::iter::IteratorSpec;
use vstd::string::*;
use vstd::utf8::*;

verus! {

broadcast use vstd::utf8::group_utf8_lib;

/// `needle` occurs in `hay` as a contiguous run starting at position `i`.
pub open spec fn occurs_at(hay: Seq<char>, needle: Seq<char>, i: int) -> bool {
    &&& 0 <= i
    &&& i + needle.len() <= hay.len()
    &&& hay.subrange(i, i + needle.len()) == needle
}

/// `needle` is a contiguous substring of `hay`.
pub open spec fn has_substring(hay: Seq<char>, needle: Seq<char>) -> bool {
    exists|i: int| #[trigger] occurs_at(hay, needle, i)
}

/// The pieces of `s` between newline characters: one more piece than `s`
/// holds newlines, each piece without the newlines that bound it.
pub open spec fn newline_pieces(s: Seq<char>) -> Seq<Seq<char>>
    decreases s.len(),
{
    if s.len() == 0 {
        seq![Seq::empty()]
    } else {
        let p = newline_pieces(s.drop_last());
        if s.last() == '\n' {
            p.push(Seq::empty())
        } else {
            p.update(p.len() - 1, p.last().push(s.last()))
        }
    }
}

/// A line as ended by a newline, without a carriage return that stood right
/// before the newline.
pub open spec fn strip_cr(l: Seq<char>) -> Seq<char> {
    if l.len() > 0 && l.last() == '\r' {
        l.drop_last()
    } else {
        l
    }
}

/// The lines of `s`: the text is split at each newline, where a carriage
/// return right before a newline belongs to the line ending too. A final
/// line needs no newline, and an empty final piece is no line, so a text
/// that ends with a newline has no empty last line.
pub open spec fn lines_of(s: Seq<char>) -> Seq<Seq<char>> {
    let p = newline_pieces(s);
    let ended = p.drop_last().map_values(|l: Seq<char>| strip_cr(l));
    if p.last().len() == 0 {
        ended
    } else {
        ended.push(p.last())
    }
}

proof fn lemma_pieces_nonempty(s: Seq<char>)
    ensures
        newline_pieces(s).len() >= 1,
    decreases s.len(),
{
    if s.len() > 0 {
        lemma_pieces_nonempty(s.drop_last());
    }
}

proof fn lemma_pieces_step(s: Seq<char>, i: int)
    requires
        0 <= i < s.len(),
    ensures
        s[i] == '\n' ==> newline_pieces(s.take(i + 1)) == newline_pieces(s.take(i)).push(
            Seq::empty(),
        ),
        s[i] != '\n' ==> newline_pieces(s.take(i + 1)) == newline_pieces(s.take(i)).update(
            newline_pieces(s.take(i)).len() - 1,
            newline_pieces(s.take(i)).last().push(s[i]),
        ),
{
    assert(s.take(i + 1).drop_last() =~= s.take(i));
    assert(s.take(i + 1).last() == s[i]);
}

proof fn lemma_encode_single(c: char)
    ensures
        encode_utf8(seq![c]) == encode_scalar(c as u32),
{
    reveal_with_fuel(encode_utf8, 2);
    assert(seq![c].drop_first() =~= Seq::<char>::empty());
    assert(encode_scalar(c as u32) + Seq::<u8>::empty() =~= encode_scalar(c as u32));
}

proof fn lemma_encode_concat(a: Seq<char>, b: Seq<char>)
    ensures
        encode_utf8(a + b) == encode_utf8(a) + encode_utf8(b),
    decreases a.len(),
{
    if a.len() == 0 {
        assert(a + b =~= b);
        assert(encode_utf8(a) + encode_utf8(b) =~= encode_utf8(b));
    } else {
        assert((a + b).drop_first() =~= a.drop_first() + b);
        assert((a + b)[0] == a[0]);
        lemma_encode_concat(a.drop_first(), b);
        assert(encode_utf8(a + b) =~= encode_utf8(a) + encode_utf8(b));
    }
}

proof fn lemma_encode_boundary(a: Seq<char>, b: Seq<char>)
    ensures
        is_char_boundary(encode_utf8(a + b), encode_utf8(a).len() as int),
    decreases a.len(),
{
    let s = a + b;
    let bytes = encode_utf8(s);
    encode_utf8_valid_utf8(s);
    if a.len() > 0 {
        encode_utf8_first_scalar(s);
        assert(s.drop_first() =~= a.drop_first() + b);
        assert(s[0] == a[0]);
        lemma_encode_boundary(a.drop_first(), b);
        lemma_encode_concat(a, b);
        assert(pop_first_scalar(bytes) =~= encode_utf8(s.drop_first()));
    }
}

/// Splitting a text after `k` characters splits its encoding at a character
/// boundary, into the encodings of the two parts.
proof fn lemma_encode_split(x: Seq<char>, k: int)
    requires
        0 <= k <= x.len(),
    ensures
        encode_utf8(x) == encode_utf8(x.take(k)) + encode_utf8(x.skip(k)),
        is_char_boundary(encode_utf8(x), encode_utf8(x.take(k)).len() as int),
        valid_utf8(encode_utf8(x)),
{
    assert(x =~= x.take(k) + x.skip(k));
    lemma_encode_concat(x.take(k), x.skip(k));
    lemma_encode_boundary(x.take(k), x.skip(k));
}

/// Two texts with the same encoding are the same text.
proof fn lemma_encode_injective(x: Seq<char>, y: Seq<char>)
    requires
        encode_utf8(x) == encode_utf8(y),
    ensures
        x == y,
{
    encode_utf8_decode_utf8(x);
    encode_utf8_decode_utf8(y);
}

/// The number of bytes in the UTF-8 encoding of `c`.
fn char_width(c: char) -> (w: usize)
    ensures
        w == encode_scalar(c as u32).len(),
{
    proof {
        char_is_scalar(c);
    }
    let v = c as u32;
    if v <= 0x7f {
        1
    } else if v <= 0x7ff {
        2
    } else if v <= 0xffff {
        3
    } else {
        4
    }
}

/// The characters of each slice in `v`.
pub open spec fn views_of(v: Seq<&str>) -> Seq<Seq<char>> {
    v.map_values(|l: &str| l@)
}

/// The characters of `s`, in order.
pub fn chars_of(s: &str) -> (r: Vec<char>)
    ensures
        r@ == s@,
{
    let n = s.unicode_len();
    let mut it = s.chars();
    let mut r: Vec<char> = Vec::new();
    let mut i: usize = 0;
    while i < n
        invariant
            n == s@.len(),
            i <= n,
            r@ == s@.take(i as int),
            it.remaining() == s@.skip(i as int),
        decreases n - i,
    {
        let c = it.next().unwrap();
        assert(s@.take(i + 1) =~= s@.take(i as int).push(c));
        assert(s@.skip(i + 1) =~= s@.skip(i as int).drop_first());
        r.push(c);
        i = i + 1;
    }
    assert(s@.take(n as int) =~= s@);
    r
}

/// The lines of `contents`, in order, each a slice of `contents` without its
/// line ending (a newline, or a carriage return and a newline).
pub fn lines<'a>(contents: &'a str) -> (r: Vec<&'a str>)
    ensures
        views_of(r@) == lines_of(contents@),
{
    let ghost s = contents@;
    // The byte length of `contents` is a `usize`, which bounds every offset
    // into it.
    let _byte_len = contents.as_bytes().len();
    let n = contents.unicode_len();
    let mut it = contents.chars();
    let mut out: Vec<&'a str> = Vec::new();
    // Characters read so far.
    let mut i: usize = 0;
    // Where the current line starts, in characters, and the text from there.
    let mut a: usize = 0;
    let mut rest: &'a str = contents;
    // The bytes of the current line read so far.
    let mut width: usize = 0;
    // Whether the last character of the current line is a carriage return.
    let mut prev_cr: bool = false;
    proof {
        lemma_pieces_nonempty(s.take(0));
        assert(s.subrange(0, n as int) =~= s);
        assert(s.subrange(0, 0) =~= Seq::<char>::empty());
        assert(out@.map_values(|l: &str| l@) =~= newline_pieces(s.take(0)).drop_last().map_values(
            |l: Seq<char>| strip_cr(l),
        ));
    }
    while i < n
        invariant
            s == contents@,
            n == s.len(),
            a <= i <= n,
            it.remaining() == s.skip(i as int),
            rest@ == s.subrange(a as int, n as int),
            encode_utf8(rest@).len() <= usize::MAX,
            width == encode_utf8(s.subrange(a as int, i as int)).len(),
            prev_cr == (i > a && s[i - 1] == '\r'),
            newline_pieces(s.take(i as int)).len() >= 1,
            newline_pieces(s.take(i as int)).last() == s.subrange(a as int, i as int),
            out@.map_values(|l: &str| l@) == newline_pieces(s.take(i as int)).drop_last().map_values(
                |l: Seq<char>| strip_cr(l),
            ),
        decreases n - i,
    {
        let c = it.next().unwrap();
        assert(s.skip(i + 1) =~= s.skip(i as int).drop_first());
        let ghost x = rest@;
        let ghost j = i - a;
        assert(x.take(j) =~= s.subrange(a as int, i as int));
        assert(x.take(j + 1) =~= s.subrange(a as int, i + 1));
        assert(x.take(j + 1) =~= x.take(j) + seq![c]);
        proof {
            lemma_pieces_step(s, i as int);
            lemma_encode_concat(x.take(j), seq![c]);
            lemma_encode_single(c);
            lemma_encode_split(x, j + 1);
        }
        let ghost p = newline_pieces(s.take(i as int));
        if c == '\n' {
            let ghost e: int = if prev_cr { i - 1 } else { i as int };
            let k: usize = if prev_cr { width - 1 } else { width };
            proof {
                if prev_cr {
                    assert(x.take(j) =~= x.take(j - 1) + seq![s[i - 1]]);
                    lemma_encode_concat(x.take(j - 1), seq![s[i - 1]]);
                    lemma_encode_single(s[i - 1]);
                    assert(x.take(j - 1) =~= s.subrange(a as int, e));
                    assert(strip_cr(p.last()) =~= s.subrange(a as int, e));
                } else {
                    assert(strip_cr(p.last()) =~= s.subrange(a as int, e));
                }
                lemma_encode_split(x, e - a);
                assert(x.take(e - a) =~= s.subrange(a as int, e));
            }
            let (line, _) = rest.split_at(k);
            proof {
                assert(line.spec_bytes() =~= encode_utf8(x.take(e - a)));
                lemma_encode_injective(line@, x.take(e - a));
            }
            out.push(line);
            let (_, after) = rest.split_at(width + 1);
            proof {
                assert(after.spec_bytes() =~= encode_utf8(x.skip(j + 1)));
                lemma_encode_injective(after@, x.skip(j + 1));
                assert(x.skip(j + 1) =~= s.subrange(i + 1, n as int));
                assert(p.push(Seq::empty()).drop_last() =~= p);
                assert(p.map_values(|l: Seq<char>| strip_cr(l)) =~= p.drop_last().map_values(
                    |l: Seq<char>| strip_cr(l),
                ).push(strip_cr(p.last())));
                assert(s.subrange(i + 1, i + 1) =~= Seq::<char>::empty());
            }
            rest = after;
            a = i + 1;
            width = 0;
            prev_cr = false;
        } else {
            width = width + char_width(c);
            prev_cr = c == '\r';
            proof {
                let q = p.update(p.len() - 1, p.last().push(c));
                assert(q.drop_last() =~= p.drop_last());
                assert(p.last().push(c) =~= s.subrange(a as int, i + 1));
            }
        }
        i = i + 1;
    }
    proof {
        assert(s.take(n as int) =~= s);
    }
    if a < n {
        out.push(rest);
    }
    proof {
        let p = newline_pieces(s);
        assert(p.last() =~= s.subrange(a as int, n as int));
    }
    out
}

/// Whether `needle` occurs in `hay` starting at position `i`.
fn matches_at(hay: &Vec<char>, needle: &Vec<char>, i: usize) -> (r: bool)
    requires
        i + needle@.len() <= hay@.len(),
    ensures
        r == occurs_at(hay@, needle@, i as int),
{
    let n = hay.len();
    let m = needle.len();
    let mut j: usize = 0;
    while j < m
        invariant
            n == hay@.len(),
            m == needle@.len(),
            j <= m,
            i + m <= hay@.len(),
            forall|t: int| 0 <= t < j ==> hay@[i + t] == needle@[t],
        decreases m - j,
    {
        if hay[i + j] != needle[j] {
            assert(hay@.subrange(i as int, i + m)[j as int] != needle@[j as int]);
            return false;
        }
        j = j + 1;
    }
    assert(hay@.subrange(i as int, i + m) =~= needle@);
    true
}

/// Whether `needle` is a contiguous substring of `hay`.
fn contains_chars(hay: &Vec<char>, needle: &Vec<char>) -> (r: bool)
    ensures
        r == has_substring(hay@, needle@),
{
    let n = hay.len();
    let m = needle.len();
    if m > n {
        assert forall|i: int| !occurs_at(hay@, needle@, i) by {}
        return false;
    }
    let last = n - m;
    let mut i: usize = 0;
    loop
        invariant
            n == hay@.len(),
            m == needle@.len(),
            last == n - m,
            i <= last,
            forall|k: int| 0 <= k < i ==> !occurs_at(hay@, needle@, k),
        decreases last - i,
    {
        if matches_at(hay, needle, i) {
            return true;
        }
        if i == last {
            assert forall|k: int| !occurs_at(hay@, needle@, k) by {
                if 0 <= k < i {
                }
            }
            return false;
        }
        i = i + 1;
    }
}

/// Whether `needle` occurs in `hay` as a contiguous substring, comparing
/// characters exactly. The empty string occurs in every string.
pub fn contains(hay: &str, needle: &str) -> (r: bool)
    ensures
        r == has_substring(hay@, needle@),
{
    let h = chars_of(hay);
    let n = chars_of(needle);
    contains_chars(&h, &n)
}

} // verus!
