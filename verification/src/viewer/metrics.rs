//! How many lines a text has and how long the longest is.

use vstd::prelude::*;
use vstd::utf8::{encode_scalar, encode_utf8};

verus! {

/// The pieces of `s` between line feeds: one more than there are line feeds.
pub open spec fn lf_segments(s: Seq<char>) -> Seq<Seq<char>>
    decreases s.len(),
{
    if s.len() == 0 {
        seq![Seq::empty()]
    } else {
        let w = lf_segments(s.drop_last());
        if s.last() == '\n' {
            w.push(Seq::empty())
        } else {
            w.update(w.len() - 1, w.last().push(s.last()))
        }
    }
}

/// A line without the carriage return that ends it, if any.
pub open spec fn strip_cr(l: Seq<char>) -> Seq<char> {
    if l.len() > 0 && l.last() == '\r' {
        l.drop_last()
    } else {
        l
    }
}

/// The lines of `s`, as `str::lines` gives them: the pieces between line
/// feeds, a carriage return just before a line feed left out, and no empty
/// line after a final line feed.
pub open spec fn text_lines(s: Seq<char>) -> Seq<Seq<char>> {
    let segs = lf_segments(s);
    let n = segs.len() - 1 + if segs.last().len() > 0 {
        1int
    } else {
        0int
    };
    Seq::new(n as nat, |i: int| if i < segs.len() - 1 { strip_cr(segs[i]) } else { segs[i] })
}

/// The length in UTF-8 bytes of the longest of `ls`, 0 when there is none.
pub open spec fn max_bytes(ls: Seq<Seq<char>>) -> nat
    decreases ls.len(),
{
    if ls.len() == 0 {
        0
    } else {
        let m = max_bytes(ls.drop_last());
        let l = encode_utf8(ls.last()).len();
        if m < l {
            l
        } else {
            m
        }
    }
}

/// There is always a last piece.
proof fn lemma_segments_nonempty(s: Seq<char>)
    ensures
        lf_segments(s).len() >= 1,
    decreases s.len(),
{
    if s.len() > 0 {
        lemma_segments_nonempty(s.drop_last());
    }
}

/// The encoding of a concatenation is the concatenation of the encodings.
proof fn lemma_encode_len_append(a: Seq<char>, b: Seq<char>)
    ensures
        encode_utf8(a + b).len() == encode_utf8(a).len() + encode_utf8(b).len(),
    decreases a.len(),
{
    if a.len() > 0 {
        assert((a + b).drop_first() =~= a.drop_first() + b);
        assert((a + b)[0] == a[0]);
        lemma_encode_len_append(a.drop_first(), b);
    } else {
        assert(a + b =~= b);
    }
}

/// A text has at least as many bytes as characters.
proof fn lemma_encode_len_ge(s: Seq<char>)
    ensures
        encode_utf8(s).len() >= s.len(),
    decreases s.len(),
{
    if s.len() > 0 {
        lemma_encode_len_ge(s.drop_first());
        vstd::utf8::char_is_scalar(s[0]);
    }
}

/// The UTF-8 width of a character.
fn char_width(c: char) -> (w: usize)
    ensures
        w == encode_utf8(seq![c]).len(),
        1 <= w <= 4,
{
    proof {
        vstd::utf8::char_is_scalar(c);
        assert(seq![c].drop_first() =~= Seq::<char>::empty());
        assert(seq![c][0] == c);
        assert(encode_utf8(seq![c]) =~= encode_scalar(c as u32) + encode_utf8(Seq::<char>::empty()));
        assert(encode_utf8(seq![c]) =~= encode_scalar(c as u32));
    }
    let v = c as u32;
    if v <= 0x7F {
        1
    } else if v <= 0x7FF {
        2
    } else if v <= 0xFFFF {
        3
    } else {
        4
    }
}

/// The number of lines of the text and the length in bytes of its longest
/// line.
pub fn get_lines_count_with_max_length(text: &str) -> (r: (usize, usize))
    ensures
        r.0 == text_lines(text@).len(),
        r.1 == max_bytes(text_lines(text@)),
{
    let total = text.as_bytes().len();
    let ghost s = text@;
    let mut count: usize = 0;
    let mut max_len: usize = 0;
    let mut seg_len: usize = 0;
    let mut seg_chars: usize = 0;
    let mut last_cr = false;
    proof {
        lemma_encode_len_ge(s);
        lemma_encode_len_append(Seq::empty(), s);
        assert(Seq::<char>::empty() + s =~= s);
        assert(s.take(0) =~= Seq::<char>::empty());
    }
    for c in it: text.chars()
        invariant
            it.seq() == s,
            total == encode_utf8(s).len(),
            ({
                let segs = lf_segments(s.take(it.index() as int));
                &&& count == segs.len() - 1
                &&& seg_chars == segs.last().len()
                &&& seg_len == encode_utf8(segs.last()).len()
                &&& last_cr == (segs.last().len() > 0 && segs.last().last() == '\r')
                &&& max_len == max_bytes(Seq::new(count as nat, |j: int| strip_cr(segs[j])))
            }),
            seg_len <= encode_utf8(s.take(it.index() as int)).len(),
            count + seg_chars <= it.index(),
            s.len() <= usize::MAX,
    {
        let ghost i = it.index() as int;
        let ghost pre = s.take(i);
        let ghost segs = lf_segments(pre);
        let ghost segs2 = lf_segments(s.take(i + 1));
        proof {
            lemma_segments_nonempty(pre);
            assert(s.take(i + 1).drop_last() =~= pre);
            assert(s.take(i + 1).last() == c);
            assert(s.take(i + 1) =~= pre + seq![c]);
            lemma_encode_len_append(pre, seq![c]);
            assert(s =~= s.take(i + 1) + s.skip(i + 1));
            lemma_encode_len_append(s.take(i + 1), s.skip(i + 1));
        }
        let w = char_width(c);
        if c == '\n' {
            let line_len = if last_cr {
                seg_len - 1
            } else {
                seg_len
            };
            proof {
                let l = segs.last();
                if last_cr {
                    assert(l =~= l.drop_last() + seq!['\r']);
                    lemma_encode_len_append(l.drop_last(), seq!['\r']);
                    assert(seq!['\r'].drop_first() =~= Seq::<char>::empty());
                    assert(seq!['\r'][0] == '\r');
                    assert(encode_utf8(seq!['\r']) =~= encode_scalar('\r' as u32) + encode_utf8(Seq::<char>::empty()));
                    assert(encode_utf8(seq!['\r']).len() == 1);
                }
                assert(line_len == encode_utf8(strip_cr(l)).len());
                let old_lines = Seq::new(count as nat, |j: int| strip_cr(segs[j]));
                let new_lines = Seq::new((count + 1) as nat, |j: int| strip_cr(segs2[j]));
                assert(new_lines.drop_last() =~= old_lines);
                assert(new_lines.last() == strip_cr(l));
                assert(segs2.last() =~= Seq::<char>::empty());
                assert(encode_utf8(Seq::<char>::empty()).len() == 0);
            }
            if max_len < line_len {
                max_len = line_len;
            }
            count = count + 1;
            seg_len = 0;
            seg_chars = 0;
            last_cr = false;
        } else {
            proof {
                let l = segs.last();
                lemma_encode_len_append(l, seq![c]);
                assert(l + seq![c] =~= l.push(c));
                let old_lines = Seq::new(count as nat, |j: int| strip_cr(segs[j]));
                let new_lines = Seq::new(count as nat, |j: int| strip_cr(segs2[j]));
                assert(new_lines =~= old_lines);
            }
            seg_len = seg_len + w;
            seg_chars = seg_chars + 1;
            last_cr = c == '\r';
        }
    }
    let ghost segs = lf_segments(s);
    proof {
        assert(s.take(s.len() as int) =~= s);
        lemma_segments_nonempty(s);
    }
    if seg_chars > 0 {
        proof {
            let old_lines = Seq::new(count as nat, |j: int| strip_cr(segs[j]));
            let lines = text_lines(s);
            assert(lines.drop_last() =~= old_lines);
            assert(lines.last() == segs.last());
        }
        if max_len < seg_len {
            max_len = seg_len;
        }
        count = count + 1;
    } else {
        proof {
            assert(text_lines(s) =~= Seq::new(count as nat, |j: int| strip_cr(segs[j])));
        }
    }
    (count, max_len)
}

} // verus!
