//! Text as sequences of characters: conversions, white space, letter case.

use vstd::prelude::*;
use vstd::string::*;

verus! {
/// The characters of `s`.
pub fn chars_of(s: &str) -> (r: Vec<char>)
    ensures
        r@ == s@,
{
    let mut v: Vec<char> = Vec::new();
    for c in it: s.chars()
        invariant
            v@ == it.seq().take(it.index() as int),
            it.seq() == s@,
            v@.len() == it.index(),
    {
        v.push(c);
    }
    v
}

/// `String::from_iter` over a slice of characters: the text made of `chars`.
#[verifier::external_body]
pub(crate) fn string_of(chars: &[char]) -> (r: String)
    ensures
        r@ == chars@,
{
    String::from_iter(chars.iter())
}

/// `c` is white space, as Unicode lists it.
pub open spec fn is_space(c: char) -> bool {
    let u = c as u32;
    (0x09 <= u <= 0x0D) || u == 0x20 || u == 0x85 || u == 0xA0 || u == 0x1680 || (0x2000 <= u
        <= 0x200A) || u == 0x2028 || u == 0x2029 || u == 0x202F || u == 0x205F || u == 0x3000
}

/// Whether `c` is white space.
pub fn is_space_char(c: char) -> (r: bool)
    ensures
        r == is_space(c),
{
    let u = c as u32;
    (0x09 <= u && u <= 0x0D) || u == 0x20 || u == 0x85 || u == 0xA0 || u == 0x1680 || (0x2000 <= u
        && u <= 0x200A) || u == 0x2028 || u == 0x2029 || u == 0x202F || u == 0x205F || u
        == 0x3000
}

/// `s` without the white space at its start.
pub open spec fn trim_start(s: Seq<char>) -> Seq<char>
    decreases s.len(),
{
    if s.len() > 0 && is_space(s[0]) {
        trim_start(s.drop_first())
    } else {
        s
    }
}

/// `s` without the white space at its end.
pub open spec fn trim_end(s: Seq<char>) -> Seq<char>
    decreases s.len(),
{
    if s.len() > 0 && is_space(s.last()) {
        trim_end(s.drop_last())
    } else {
        s
    }
}

/// `s` without the white space at its start and at its end.
pub open spec fn trim(s: Seq<char>) -> Seq<char> {
    trim_end(trim_start(s))
}

/// Where `trim_start` cuts: every character before `k` is white space, and
/// the one at `k`, if there is one, is not.
pub proof fn lemma_trim_start_at(s: Seq<char>, k: int)
    requires
        0 <= k <= s.len(),
        forall|i: int| 0 <= i < k ==> is_space(#[trigger] s[i]),
        k < s.len() ==> !is_space(s[k]),
    ensures
        trim_start(s) == s.subrange(k, s.len() as int),
    decreases k,
{
    if k > 0 {
        let t = s.drop_first();
        lemma_trim_start_at(t, k - 1);
    }
}

/// Where `trim_end` cuts: every character from `k` on is white space, and
/// the one before `k`, if there is one, is not.
pub proof fn lemma_trim_end_at(s: Seq<char>, k: int)
    requires
        0 <= k <= s.len(),
        forall|i: int| k <= i < s.len() ==> is_space(#[trigger] s[i]),
        k > 0 ==> !is_space(s[k - 1]),
    ensures
        trim_end(s) == s.subrange(0, k),
    decreases s.len() - k,
{
    if k < s.len() {
        let t = s.drop_last();
        lemma_trim_end_at(t, k);
    }
}

/// Copies `chars` without the white space at its start and at its end.
pub fn trim_chars(chars: &Vec<char>) -> (r: Vec<char>)
    ensures
        r@ == trim(chars@),
{
    let n = chars.len();
    let mut start: usize = 0;
    while start < n && is_space_char(chars[start])
        invariant
            n == chars@.len(),
            start <= n,
            forall|i: int| 0 <= i < start ==> is_space(#[trigger] chars@[i]),
        decreases n - start,
    {
        start += 1;
    }
    let mut end: usize = n;
    while end > start && is_space_char(chars[end - 1])
        invariant
            n == chars@.len(),
            start <= end <= n,
            forall|i: int| end <= i < n ==> is_space(#[trigger] chars@[i]),
        decreases end,
    {
        end -= 1;
    }
    let mut out: Vec<char> = Vec::new();
    let mut i: usize = start;
    while i < end
        invariant
            n == chars@.len(),
            start <= i <= end <= n,
            out@ == chars@.subrange(start as int, i as int),
        decreases end - i,
    {
        out.push(chars[i]);
        i += 1;
    }
    proof {
        let rest = chars@.subrange(start as int, n as int);
        lemma_trim_start_at(chars@, start as int);
        lemma_trim_end_at(rest, end - start);
    }
    out
}

/// Copies `chars` without the white space at its end.
pub fn trim_end_chars(chars: &Vec<char>) -> (r: Vec<char>)
    ensures
        r@ == trim_end(chars@),
{
    let n = chars.len();
    let mut end: usize = n;
    while end > 0 && is_space_char(chars[end - 1])
        invariant
            n == chars@.len(),
            end <= n,
            forall|i: int| end <= i < n ==> is_space(#[trigger] chars@[i]),
        decreases end,
    {
        end -= 1;
    }
    let mut out: Vec<char> = Vec::new();
    let mut i: usize = 0;
    while i < end
        invariant
            n == chars@.len(),
            i <= end <= n,
            out@ == chars@.subrange(0, i as int),
        decreases end - i,
    {
        out.push(chars[i]);
        i += 1;
    }
    proof {
        lemma_trim_end_at(chars@, end as int);
    }
    out
}

/// The pieces of `s` between its line feeds: one more than it has line
/// feeds, empty ones included.
pub open spec fn line_pieces(s: Seq<char>) -> Seq<Seq<char>>
    decreases s.len(),
{
    if s.len() == 0 {
        seq![Seq::empty()]
    } else {
        let before = line_pieces(s.drop_last());
        if s.last() == '\n' {
            before.push(Seq::empty())
        } else {
            before.drop_last().push(before.last().push(s.last()))
        }
    }
}

/// The lines of `s`: its pieces, without the last one where that is empty,
/// so that a line feed at the end starts no line.
pub open spec fn text_lines(s: Seq<char>) -> Seq<Seq<char>> {
    if line_pieces(s).last().len() == 0 {
        line_pieces(s).drop_last()
    } else {
        line_pieces(s)
    }
}

/// Each of `lines` without the white space at its end.
pub open spec fn trimmed(lines: Seq<Seq<char>>) -> Seq<Seq<char>> {
    Seq::new(lines.len(), |i: int| trim_end(lines[i]))
}

/// `lines` with a line feed between each two.
pub open spec fn join_lines(lines: Seq<Seq<char>>) -> Seq<char>
    decreases lines.len(),
{
    if lines.len() == 0 {
        Seq::empty()
    } else if lines.len() == 1 {
        lines[0]
    } else {
        join_lines(lines.drop_last()) + seq!['\n'] + lines.last()
    }
}

/// `s` with the white space at the end of each line cut, and no line feed
/// at the end.
pub open spec fn trimmed_text(s: Seq<char>) -> Seq<char> {
    join_lines(trimmed(text_lines(s)))
}

/// The lines of `chars`, each as its own buffer.
pub open spec fn line_views(lines: Seq<Vec<char>>) -> Seq<Seq<char>> {
    Seq::new(lines.len(), |i: int| lines[i]@)
}

/// Cuts the white space at the end of each line of `chars` and joins the
/// lines with single line feeds.
pub fn trim_lines(chars: &Vec<char>) -> (r: Vec<char>)
    ensures
        r@ == trimmed_text(chars@),
{
    let n = chars.len();
    let mut lines: Vec<Vec<char>> = Vec::new();
    let mut current: Vec<char> = Vec::new();
    let mut i: usize = 0;
    while i < n
        invariant
            n == chars@.len(),
            i <= n,
            line_pieces(chars@.take(i as int)).len() >= 1,
            line_views(lines@) == line_pieces(chars@.take(i as int)).drop_last(),
            current@ == line_pieces(chars@.take(i as int)).last(),
        decreases n - i,
    {
        let c = chars[i];
        let ghost before = line_pieces(chars@.take(i as int));
        proof {
            assert(chars@.take(i + 1).drop_last() =~= chars@.take(i as int));
        }
        if c == '\n' {
            lines.push(current);
            current = Vec::new();
            proof {
                assert(before.drop_last().push(before.last()) =~= before);
            }
        } else {
            current.push(c);
        }
        i += 1;
    }
    proof {
        assert(chars@.take(n as int) =~= chars@);
    }
    let ghost pieces = line_pieces(chars@);
    if current.len() > 0 {
        lines.push(current);
        proof {
            assert(pieces.drop_last().push(pieces.last()) =~= pieces);
        }
    }
    assert(line_views(lines@) == text_lines(chars@));
    let m = lines.len();
    let mut out: Vec<char> = Vec::new();
    let mut k: usize = 0;
    let ghost cut = trimmed(line_views(lines@));
    while k < m
        invariant
            m == lines@.len(),
            cut == trimmed(line_views(lines@)),
            k <= m,
            out@ == join_lines(cut.take(k as int)),
        decreases m - k,
    {
        if k > 0 {
            out.push('\n');
        }
        let ghost mid = out@;
        let line = trim_end_chars(&lines[k]);
        let w = line.len();
        let mut j: usize = 0;
        while j < w
            invariant
                w == line@.len(),
                j <= w,
                out@ == mid + line@.take(j as int),
            decreases w - j,
        {
            out.push(line[j]);
            j += 1;
        }
        proof {
            assert(cut.take(k + 1).drop_last() =~= cut.take(k as int));
        }
        k += 1;
    }
    assert(cut.take(m as int) =~= cut);
    out
}

/// `c` in lower case, where it is one of the letters `A` to `Z`; other
/// characters stay.
pub open spec fn lower(c: char) -> char {
    if 'A' <= c <= 'Z' {
        ((c as u8) + 32) as char
    } else {
        c
    }
}

/// `s` with the letters `A` to `Z` in lower case.
pub open spec fn lower_text(s: Seq<char>) -> Seq<char> {
    Seq::new(s.len(), |i: int| lower(s[i]))
}

/// Lower-cases the letters `A` to `Z` of `chars`.
pub fn to_lower(chars: &Vec<char>) -> (r: Vec<char>)
    ensures
        r@ == lower_text(chars@),
{
    let n = chars.len();
    let mut out: Vec<char> = Vec::new();
    let mut i: usize = 0;
    while i < n
        invariant
            n == chars@.len(),
            i <= n,
            out@.len() == i,
            forall|j: int| 0 <= j < i ==> out@[j] == lower(chars@[j]),
        decreases n - i,
    {
        let c = chars[i];
        if 'A' <= c && c <= 'Z' {
            out.push(((c as u8) + 32) as char);
        } else {
            out.push(c);
        }
        i += 1;
    }
    out
}

/// Whether `a` and `b` hold the same characters.
pub fn same_chars(a: &[char], b: &[char]) -> (r: bool)
    ensures
        r == (a@ == b@),
{
    if a.len() != b.len() {
        return false;
    }
    let n = a.len();
    let mut i: usize = 0;
    while i < n
        invariant
            n == a@.len(),
            n == b@.len(),
            i <= n,
            forall|j: int| 0 <= j < i ==> a@[j] == b@[j],
        decreases n - i,
    {
        if a[i] != b[i] {
            return false;
        }
        i += 1;
    }
    assert(a@ =~= b@);
    true
}
} // verus!
