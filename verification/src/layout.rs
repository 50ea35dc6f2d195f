//! Positions in a text: characters, UTF-8 byte offsets, line numbers and
//! the lines that `split('\n')` yields.

use vstd::prelude::*;
use crate::text::{byte_offset, char_width, char_width_of, str_chars, utf8_len};
use crate::pattern::is_char_boundary_at;

verus! {

/// Number of line breaks in `s`.
pub open spec fn newline_count(s: Seq<char>) -> nat
    decreases s.len(),
{
    if s.len() == 0 {
        0
    } else {
        newline_count(s.drop_last()) + if s.last() == '\n' {
            1nat
        } else {
            0nat
        }
    }
}

/// The character index at which byte offset `b` of `s` falls, where `b`
/// is a character boundary.
pub open spec fn char_index_of(s: Seq<char>, b: int) -> Option<int> {
    if is_char_boundary_at(s, b) {
        Some(choose|k: int| 0 <= k <= s.len() && #[trigger] byte_offset(s, k) == b)
    } else {
        None
    }
}

/// The character ranges of the pieces of `s` between line breaks, as
/// `str::split('\n')` yields them: one more piece than there are breaks.
pub open spec fn line_ranges(s: Seq<char>) -> Seq<(int, int)>
    decreases s.len(),
{
    if s.len() == 0 {
        seq![(0int, 0int)]
    } else {
        let p = line_ranges(s.drop_last());
        if s.last() == '\n' {
            p.push((s.len() as int, s.len() as int))
        } else {
            p.update(p.len() - 1, (p.last().0, s.len() as int))
        }
    }
}

/// The byte length of a character is the length of its UTF-8 encoding.
proof fn lemma_char_width_encoding(c: char)
    ensures
        vstd::utf8::encode_scalar(c as u32).len() == char_width(c),
{
    vstd::utf8::char_is_scalar(c);
}

/// `utf8_len` is the length of the UTF-8 encoding.
pub proof fn lemma_utf8_len_encoding(s: Seq<char>)
    ensures
        utf8_len(s) == vstd::utf8::encode_utf8(s).len(),
    decreases s.len(),
{
    if s.len() > 0 {
        lemma_utf8_len_encoding(s.drop_first());
        lemma_char_width_encoding(s[0]);
        assert(s =~= seq![s[0]] + s.drop_first());
        lemma_utf8_len_concat(seq![s[0]], s.drop_first());
        assert(seq![s[0]].drop_last() =~= Seq::<char>::empty());
        assert(utf8_len(Seq::<char>::empty()) == 0);
        assert(utf8_len(seq![s[0]]) == char_width(s[0]));
        assert(vstd::utf8::encode_utf8(s) == vstd::utf8::encode_scalar(s[0] as u32) + vstd::utf8::encode_utf8(
            s.drop_first(),
        ));
    }
}

/// The byte length of a string fits in a `usize`.
pub fn byte_length_fits(text: &str)
    ensures
        utf8_len(text@) <= usize::MAX,
{
    let bytes = text.as_bytes();
    let _n = bytes.len();
    proof {
        vstd::slice::axiom_spec_len(bytes);
        lemma_utf8_len_encoding(text@);
    }
}

/// The lines of `s`, the pieces between line breaks that
/// `str::split('\n')` yields.
pub open spec fn line_texts(s: Seq<char>) -> Seq<Seq<char>> {
    line_ranges(s).map_values(|r: (int, int)| s.subrange(r.0, r.1))
}

/// Character ranges moved `off` characters to the right.
pub open spec fn shift_ranges(r: Seq<(int, int)>, off: int) -> Seq<(int, int)> {
    r.map_values(|x: (int, int)| (x.0 + off, x.1 + off))
}

/// Every line range lies within the text, and there is at least one.
pub proof fn lemma_line_ranges_bounded(s: Seq<char>)
    ensures
        line_ranges(s).len() >= 1,
        forall|k: int|
            0 <= k < line_ranges(s).len() ==> 0 <= (#[trigger] line_ranges(s)[k]).0 <= line_ranges(s)[k].1 <= s.len(),
    decreases s.len(),
{
    if s.len() > 0 {
        lemma_line_ranges_bounded(s.drop_last());
    }
}

/// The line ranges of two texts joined by a line break are those of the
/// first text followed by those of the second, moved past the break.
proof fn lemma_line_ranges_join(a: Seq<char>, b: Seq<char>)
    ensures
        line_ranges(a + seq!['\n'] + b) == line_ranges(a) + shift_ranges(line_ranges(b), (a.len() + 1) as int),
    decreases b.len(),
{
    let s = a + seq!['\n'] + b;
    let off: int = (a.len() + 1) as int;
    if b.len() == 0 {
        assert(s.drop_last() =~= a);
        assert(shift_ranges(line_ranges(b), off) =~= seq![(off, off)]);
        assert(line_ranges(s) =~= line_ranges(a) + shift_ranges(line_ranges(b), off));
    } else {
        let b1 = b.drop_last();
        assert(s.drop_last() =~= a + seq!['\n'] + b1);
        assert(s.last() == b.last());
        lemma_line_ranges_join(a, b1);
        lemma_line_ranges_bounded(b1);
        let p = line_ranges(s.drop_last());
        let q = line_ranges(b1);
        assert(p == line_ranges(a) + shift_ranges(q, off));
        if b.last() == '\n' {
            assert(line_ranges(b) == q.push((b.len() as int, b.len() as int)));
            assert(line_ranges(s) =~= line_ranges(a) + shift_ranges(line_ranges(b), off));
        } else {
            assert(line_ranges(b) == q.update(q.len() - 1, (q.last().0, b.len() as int)));
            assert(p.last() == shift_ranges(q, off).last());
            assert(line_ranges(s) =~= line_ranges(a) + shift_ranges(line_ranges(b), off));
        }
    }
}

/// Splitting two texts joined by a line break gives the lines of the first
/// text followed by the lines of the second.
pub proof fn lemma_lines_of_joined_text(a: Seq<char>, b: Seq<char>)
    ensures
        line_texts(a + seq!['\n'] + b) == line_texts(a) + line_texts(b),
{
    let s = a + seq!['\n'] + b;
    let off: int = (a.len() + 1) as int;
    lemma_line_ranges_join(a, b);
    lemma_line_ranges_bounded(a);
    lemma_line_ranges_bounded(b);
    let la = line_ranges(a);
    let lb = line_ranges(b);
    assert forall|k: int| 0 <= k < line_texts(s).len() implies #[trigger] line_texts(s)[k] == (line_texts(a) + line_texts(
        b,
    ))[k] by {
        if k < la.len() {
            assert(line_ranges(s)[k] == la[k]);
            assert(s.subrange(la[k].0, la[k].1) =~= a.subrange(la[k].0, la[k].1));
        } else {
            let j = k - la.len();
            assert(line_ranges(s)[k] == (lb[j].0 + off, lb[j].1 + off));
            assert(s.subrange(lb[j].0 + off, lb[j].1 + off) =~= b.subrange(lb[j].0, lb[j].1));
        }
    }
    assert(line_texts(s) =~= line_texts(a) + line_texts(b));
}

/// A text of `n` line breaks splits into `n + 1` lines.
pub proof fn lemma_line_count(s: Seq<char>)
    ensures
        line_ranges(s).len() == newline_count(s) + 1,
    decreases s.len(),
{
    if s.len() > 0 {
        lemma_line_count(s.drop_last());
    }
}

/// The byte offset of a character grows by its width.
pub proof fn lemma_byte_offset_step(s: Seq<char>, k: int)
    requires
        0 <= k < s.len(),
    ensures
        byte_offset(s, k + 1) == byte_offset(s, k) + char_width(s[k]),
{
    assert(s.take(k + 1).drop_last() =~= s.take(k));
}

/// Byte offsets grow strictly with the character index.
pub proof fn lemma_byte_offset_strict(s: Seq<char>, i: int, j: int)
    requires
        0 <= i < j <= s.len(),
    ensures
        byte_offset(s, i) < byte_offset(s, j),
    decreases j - i,
{
    lemma_byte_offset_step(s, j - 1);
    if i < j - 1 {
        lemma_byte_offset_strict(s, i, j - 1);
    }
}

/// The offset past the last character is the byte length.
pub proof fn lemma_byte_offset_end(s: Seq<char>)
    ensures
        byte_offset(s, s.len() as int) == utf8_len(s),
{
    assert(s.take(s.len() as int) =~= s);
}

/// Byte offsets are bounded by the byte length.
pub proof fn lemma_byte_offset_bounded(s: Seq<char>, k: int)
    requires
        0 <= k <= s.len(),
    ensures
        byte_offset(s, k) <= utf8_len(s),
{
    lemma_byte_offset_end(s);
    if k < s.len() {
        lemma_byte_offset_strict(s, k, s.len() as int);
    }
}

/// At a boundary, `char_index_of` names the one character index there.
pub proof fn lemma_char_index_of(s: Seq<char>, k: int)
    requires
        0 <= k <= s.len(),
    ensures
        char_index_of(s, byte_offset(s, k) as int) == Some(k),
{
    let b = byte_offset(s, k) as int;
    assert(is_char_boundary_at(s, b));
    let c = choose|c: int| 0 <= c <= s.len() && #[trigger] byte_offset(s, c) == b;
    if c < k {
        lemma_byte_offset_strict(s, c, k);
    } else if k < c {
        lemma_byte_offset_strict(s, k, c);
    }
}

/// The byte length of a concatenation is the sum of the byte lengths.
pub proof fn lemma_utf8_len_concat(x: Seq<char>, y: Seq<char>)
    ensures
        utf8_len(x + y) == utf8_len(x) + utf8_len(y),
    decreases y.len(),
{
    if y.len() > 0 {
        assert((x + y).drop_last() =~= x + y.drop_last());
        lemma_utf8_len_concat(x, y.drop_last());
    } else {
        assert(x + y =~= x);
    }
}

/// A piece of a text is no longer in bytes than the text.
pub proof fn lemma_utf8_len_subrange(s: Seq<char>, a: int, b: int)
    requires
        0 <= a <= b <= s.len(),
    ensures
        utf8_len(s.subrange(a, b)) <= utf8_len(s),
        byte_offset(s, b) == byte_offset(s, a) + utf8_len(s.subrange(a, b)),
{
    assert(s.take(b) =~= s.take(a) + s.subrange(a, b));
    lemma_utf8_len_concat(s.take(a), s.subrange(a, b));
    lemma_byte_offset_bounded(s, b);
}

/// The character ranges of the lines of `chars`, as `line_ranges` gives
/// them.
pub fn line_ranges_of(chars: &Vec<char>) -> (res: Vec<(usize, usize)>)
    ensures
        res@.len() == line_ranges(chars@).len(),
        forall|k: int|
            0 <= k < res@.len() ==> (#[trigger] res@[k]).0 == line_ranges(chars@)[k].0 && res@[k].1
                == line_ranges(chars@)[k].1 && res@[k].0 <= res@[k].1 <= chars@.len(),
{
    let ghost s = chars@;
    let mut done: Vec<(usize, usize)> = Vec::new();
    let mut cur: usize = 0;
    let mut i: usize = 0;
    assert(s.take(0) =~= Seq::<char>::empty());
    while i < chars.len()
        invariant
            s == chars@,
            i <= chars.len(),
            cur <= i,
            line_ranges(s.take(i as int)).len() == done@.len() + 1,
            line_ranges(s.take(i as int)).last() == (cur as int, i as int),
            forall|k: int|
                0 <= k < done@.len() ==> (#[trigger] done@[k]).0 == line_ranges(s.take(i as int))[k].0
                    && done@[k].1 == line_ranges(s.take(i as int))[k].1 && done@[k].0 <= done@[k].1 <= i,
        decreases chars.len() - i,
    {
        let c = chars[i];
        assert(s.take(i + 1).drop_last() =~= s.take(i as int));
        assert(s.take(i + 1).last() == c);
        if c == '\n' {
            done.push((cur, i));
            cur = i + 1;
        }
        i = i + 1;
    }
    assert(s.take(i as int) =~= s);
    done.push((cur, i));
    done
}

/// A text with its characters, the byte offset of every character (and of
/// the end) and the number of line breaks before every character.
pub struct TextIndex {
    pub chars: Vec<char>,
    pub offsets: Vec<usize>,
    pub newlines: Vec<usize>,
}

impl TextIndex {
    /// The index describes `s`.
    pub open spec fn describes(&self, s: Seq<char>) -> bool {
        &&& self.chars@ == s
        &&& self.offsets@.len() == s.len() + 1
        &&& self.newlines@.len() == s.len() + 1
        &&& forall|k: int|
            0 <= k <= s.len() ==> #[trigger] self.offsets@[k] == byte_offset(s, k) && self.newlines@[k]
                == newline_count(s.take(k))
    }

    /// Indexes `text`.
    pub fn new(text: &str) -> (res: TextIndex)
        ensures
            res.describes(text@),
            utf8_len(text@) <= usize::MAX,
    {
        byte_length_fits(text);
        let chars = str_chars(text);
        let ghost s = text@;
        let mut offsets: Vec<usize> = Vec::new();
        let mut newlines: Vec<usize> = Vec::new();
        offsets.push(0);
        newlines.push(0);
        assert(s.take(0) =~= Seq::<char>::empty());
        let mut i: usize = 0;
        while i < chars.len()
            invariant
                chars@ == s,
                utf8_len(s) <= usize::MAX,
                i <= chars.len(),
                offsets@.len() == i + 1,
                newlines@.len() == i + 1,
                newlines@[i as int] <= i,
                forall|k: int|
                    0 <= k <= i ==> #[trigger] offsets@[k] == byte_offset(s, k) && newlines@[k] == newline_count(
                        s.take(k),
                    ),
            decreases chars.len() - i,
        {
            let c = chars[i];
            let w = char_width_of(c);
            proof {
                lemma_byte_offset_step(s, i as int);
                lemma_byte_offset_bounded(s, i + 1);
                assert(s.take(i + 1).drop_last() =~= s.take(i as int));
            }
            let next = offsets[i] + w;
            let ghost old_offsets = offsets@;
            let ghost old_newlines = newlines@;
            offsets.push(next);
            let nl = if c == '\n' { newlines[i] + 1 } else { newlines[i] };
            newlines.push(nl);
            proof {
                assert(s.take(i + 1).last() == c);
                assert(newline_count(s.take(i + 1)) == newline_count(s.take(i as int)) + if c == '\n' {
                    1nat
                } else {
                    0nat
                });
                assert(offsets@[i + 1] == byte_offset(s, i + 1));
                assert(newlines@[i + 1] == newline_count(s.take(i + 1)));
                assert forall|k: int|
                    0 <= k <= i + 1 implies #[trigger] offsets@[k] == byte_offset(s, k) && newlines@[k]
                        == newline_count(s.take(k)) by {
                    if k <= i {
                        assert(offsets@[k] == old_offsets[k]);
                        assert(newlines@[k] == old_newlines[k]);
                    }
                }
            }
            i = i + 1;
        }
        let res = TextIndex { chars, offsets, newlines };
        assert(i as int == s.len());
        assert(res.describes(s));
        res
    }

    /// The character index at which byte offset `b` falls, if it is a
    /// character boundary.
    pub fn char_at_byte(&self, b: usize) -> (res: Option<usize>)
        requires
            self.describes(self.chars@),
        ensures
            match res {
                Some(k) => char_index_of(self.chars@, b as int) == Some(k as int),
                None => char_index_of(self.chars@, b as int) is None,
            },
    {
        let ghost s = self.chars@;
        let mut lo: usize = 0;
        let mut hi: usize = self.offsets.len();
        while lo < hi
            invariant
                self.describes(s),
                s == self.chars@,
                0 <= lo <= hi <= self.offsets.len(),
                forall|k: int| 0 <= k < lo ==> #[trigger] byte_offset(s, k) < b,
                forall|k: int| hi <= k <= s.len() ==> #[trigger] byte_offset(s, k) > b,
            decreases hi - lo,
        {
            let mid = lo + (hi - lo) / 2;
            let o = self.offsets[mid];
            assert(self.offsets@[mid as int] == byte_offset(s, mid as int));
            if o == b {
                proof {
                    lemma_char_index_of(s, mid as int);
                }
                return Some(mid);
            } else if o < b {
                proof {
                    assert forall|k: int| 0 <= k < mid + 1 implies #[trigger] byte_offset(s, k) < b by {
                        if k < mid {
                            lemma_byte_offset_strict(s, k, mid as int);
                        }
                    }
                }
                lo = mid + 1;
            } else {
                proof {
                    assert forall|k: int| mid <= k <= s.len() implies #[trigger] byte_offset(s, k) > b by {
                        if k > mid {
                            lemma_byte_offset_strict(s, mid as int, k);
                        }
                    }
                }
                hi = mid;
            }
        }
        proof {
            if is_char_boundary_at(s, b as int) {
                let k = choose|k: int| 0 <= k <= s.len() && #[trigger] byte_offset(s, k) == b;
            }
        }
        None
    }
}

} // verus!
