//! Text as sequences of characters: searching, splitting, trimming, joining
//! and replacing, with the meaning of each operation stated over `Seq<char>`.

use vstd::prelude::*;

verus! {

/// The views of a sequence of strings.
pub open spec fn texts(v: Seq<String>) -> Seq<Seq<char>> {
    v.map_values(|s: String| s@)
}

/// `p` stands in `s` at position `i`.
pub open spec fn occurs_at(s: Seq<char>, p: Seq<char>, i: int) -> bool {
    0 <= i <= s.len() - p.len() && s.subrange(i, i + p.len()) == p
}

/// `s` begins with `p`.
pub open spec fn has_prefix(s: Seq<char>, p: Seq<char>) -> bool {
    p.len() <= s.len() && s.take(p.len() as int) == p
}

/// What follows `p` in `s`, where `s` begins with `p`.
pub open spec fn stripped(s: Seq<char>, p: Seq<char>) -> Option<Seq<char>> {
    if has_prefix(s, p) {
        Some(s.skip(p.len() as int))
    } else {
        None
    }
}

/// `s` ends with `p`.
pub open spec fn has_suffix(s: Seq<char>, p: Seq<char>) -> bool {
    p.len() <= s.len() && s.skip(s.len() - p.len()) == p
}

/// `p` stands somewhere in `s`.
pub open spec fn has_part(s: Seq<char>, p: Seq<char>) -> bool {
    exists|i: int| occurs_at(s, p, i)
}

/// The position of the first `c` in `s`, or the length of `s`.
pub open spec fn index_in(s: Seq<char>, c: char) -> nat
    decreases s.len(),
{
    if s.len() == 0 || s[0] == c {
        0
    } else {
        1 + index_in(s.skip(1), c)
    }
}

/// `s` with `to` put before, between and after all of its characters.
pub open spec fn interleaved(s: Seq<char>, to: Seq<char>) -> Seq<char>
    decreases s.len(),
{
    if s.len() == 0 {
        to
    } else {
        to + seq![s[0]] + interleaved(s.skip(1), to)
    }
}

/// `s` with every occurrence of `from` replaced by `to`, scanning from the
/// left and going on behind each occurrence.
pub open spec fn replaced(s: Seq<char>, from: Seq<char>, to: Seq<char>) -> Seq<char>
    decreases s.len(),
{
    if from.len() == 0 {
        interleaved(s, to)
    } else if s.len() == 0 {
        s
    } else if has_prefix(s, from) {
        to + replaced(s.skip(from.len() as int), from, to)
    } else {
        seq![s[0]] + replaced(s.skip(1), from, to)
    }
}

/// What stands in `s` before the first occurrence of `p`; all of `s` where
/// there is none.
pub open spec fn until(s: Seq<char>, p: Seq<char>) -> Seq<char>
    decreases s.len(),
{
    if s.len() == 0 || has_prefix(s, p) {
        Seq::empty()
    } else {
        seq![s[0]] + until(s.skip(1), p)
    }
}

/// What stands in `s` before the last occurrence of `p`, where there is one.
pub open spec fn until_last(s: Seq<char>, p: Seq<char>) -> Option<Seq<char>>
    decreases s.len(),
{
    if has_suffix(s, p) {
        Some(s.take(s.len() - p.len()))
    } else if s.len() == 0 {
        None
    } else {
        until_last(s.drop_last(), p)
    }
}

/// The pieces of `s` between the occurrences of `c`.
pub open spec fn pieces(s: Seq<char>, c: char) -> Seq<Seq<char>>
    decreases s.len(),
{
    let i = index_in(s, c) as int;
    if i >= s.len() {
        seq![s]
    } else {
        seq![s.take(i)] + pieces(s.skip(i + 1), c)
    }
}

/// A line without the carriage return that may stand at its end.
pub open spec fn without_cr(s: Seq<char>) -> Seq<char> {
    if s.len() > 0 && s.last() == '\r' {
        s.drop_last()
    } else {
        s
    }
}

/// The lines of `s`: each ends at a line feed, which is dropped together with
/// a carriage return before it; what follows the last line feed is a line of
/// its own unless it is empty.
pub open spec fn line_seq(s: Seq<char>) -> Seq<Seq<char>>
    decreases s.len(),
{
    let i = index_in(s, '\n') as int;
    if s.len() == 0 {
        Seq::empty()
    } else if i >= s.len() {
        seq![s]
    } else {
        seq![without_cr(s.take(i))] + line_seq(s.skip(i + 1))
    }
}

/// The characters with the Unicode property `White_Space`.
pub open spec fn is_space(c: char) -> bool {
    ||| '\u{9}' <= c <= '\u{d}'
    ||| c == '\u{20}'
    ||| c == '\u{85}'
    ||| c == '\u{a0}'
    ||| c == '\u{1680}'
    ||| '\u{2000}' <= c <= '\u{200a}'
    ||| c == '\u{2028}'
    ||| c == '\u{2029}'
    ||| c == '\u{202f}'
    ||| c == '\u{205f}'
    ||| c == '\u{3000}'
}

/// `s` without the white space at its start.
pub open spec fn left_trimmed(s: Seq<char>) -> Seq<char>
    decreases s.len(),
{
    if s.len() > 0 && is_space(s[0]) {
        left_trimmed(s.skip(1))
    } else {
        s
    }
}

/// `s` without the white space at its end.
pub open spec fn right_trimmed(s: Seq<char>) -> Seq<char>
    decreases s.len(),
{
    if s.len() > 0 && is_space(s.last()) {
        right_trimmed(s.drop_last())
    } else {
        s
    }
}

/// `s` without the white space at either end.
pub open spec fn trimmed(s: Seq<char>) -> Seq<char> {
    right_trimmed(left_trimmed(s))
}

/// The position of the first white space in `s`, or the length of `s`.
pub open spec fn space_in(s: Seq<char>) -> nat
    decreases s.len(),
{
    if s.len() == 0 || is_space(s[0]) {
        0
    } else {
        1 + space_in(s.skip(1))
    }
}

/// The runs of other characters between the white space in `s`.
pub open spec fn word_seq(s: Seq<char>) -> Seq<Seq<char>>
    decreases s.len(),
{
    if s.len() == 0 {
        Seq::empty()
    } else {
        let k = space_in(s) as int;
        if k == 0 {
            word_seq(s.skip(1))
        } else if k >= s.len() {
            seq![s]
        } else {
            seq![s.take(k)] + word_seq(s.skip(k))
        }
    }
}

/// The first `n` characters of `s` without the white space around it.
pub open spec fn clipped(s: Seq<char>, n: nat) -> Seq<char> {
    let t = trimmed(s);
    if n < t.len() {
        t.take(n as int)
    } else {
        t
    }
}

/// The parts one after another with `sep` between them.
pub open spec fn joined(parts: Seq<Seq<char>>, sep: Seq<char>) -> Seq<char>
    decreases parts.len(),
{
    if parts.len() == 0 {
        Seq::empty()
    } else if parts.len() == 1 {
        parts[0]
    } else {
        joined(parts.drop_last(), sep) + sep + parts.last()
    }
}

/// The decimal digit for `d`.
pub open spec fn digit(d: nat) -> char {
    (48 + d) as char
}

/// `n` in decimal, without leading zeros.
pub open spec fn decimal(n: nat) -> Seq<char>
    decreases n,
{
    if n < 10 {
        seq![digit(n)]
    } else {
        decimal(n / 10).push(digit(n % 10))
    }
}

/// `n` spaces.
pub open spec fn spaces(n: nat) -> Seq<char> {
    Seq::new(n, |i: int| ' ')
}

/// `a` stands at or before `b` in the order by code points.
pub open spec fn lex_le(a: Seq<char>, b: Seq<char>) -> bool
    decreases a.len(),
{
    if a.len() == 0 {
        true
    } else if b.len() == 0 {
        false
    } else if a[0] == b[0] {
        lex_le(a.skip(1), b.skip(1))
    } else {
        a[0] < b[0]
    }
}

/// `index_in` finds the first `c`, or the end.
pub proof fn lemma_index_in(s: Seq<char>, c: char)
    ensures
        index_in(s, c) <= s.len(),
        index_in(s, c) < s.len() ==> s[index_in(s, c) as int] == c,
        forall|k: int| 0 <= k < index_in(s, c) ==> s[k] != c,
    decreases s.len(),
{
    if s.len() > 0 && s[0] != c {
        lemma_index_in(s.skip(1), c);
        assert forall|k: int| 0 <= k < index_in(s, c) implies s[k] != c by {
            if k > 0 {
                assert(s[k] == s.skip(1)[k - 1]);
            }
        }
    }
}

/// A part of what follows the first character is a part.
pub proof fn lemma_part_of_rest(s: Seq<char>, p: Seq<char>, n: int)
    requires
        0 <= n <= s.len(),
        has_part(s.skip(n), p),
    ensures
        has_part(s, p),
{
    let k = choose|k: int| occurs_at(s.skip(n), p, k);
    assert(s.skip(n).subrange(k, k + p.len()) =~= s.subrange(n + k, n + k + p.len()));
    assert(occurs_at(s, p, n + k));
}

/// A prefix is a part.
pub proof fn lemma_prefix_is_part(s: Seq<char>, p: Seq<char>)
    requires
        has_prefix(s, p),
    ensures
        has_part(s, p),
{
    assert(s.subrange(0, p.len() as int) =~= s.take(p.len() as int));
    assert(occurs_at(s, p, 0));
}

/// Replacing what does not occur changes nothing.
pub proof fn lemma_replaced_absent(s: Seq<char>, from: Seq<char>, to: Seq<char>)
    requires
        from.len() > 0,
        !has_part(s, from),
    ensures
        replaced(s, from, to) == s,
    decreases s.len(),
{
    if s.len() > 0 {
        if has_prefix(s, from) {
            lemma_prefix_is_part(s, from);
        }
        if has_part(s.skip(1), from) {
            lemma_part_of_rest(s, from, 1);
        }
        lemma_replaced_absent(s.skip(1), from, to);
        assert(seq![s[0]] + s.skip(1) =~= s);
    }
}

/// `String::push` appends one character.
pub assume_specification[ String::push ](s: &mut String, c: char)
    ensures
        final(s)@ == old(s)@.push(c),
;

/// The characters of a string, in order.
pub fn chars_of(s: &str) -> (r: Vec<char>)
    ensures
        r@ == s@,
{
    let mut r: Vec<char> = Vec::new();
    for c in it: s.chars()
        invariant
            r@ == it.seq().take(it.index()),
            it.seq() == s@,
    {
        r.push(c);
    }
    assert(r@ =~= s@);
    r
}

/// The string made of the given characters.
pub fn text_of(cs: &[char]) -> (r: String)
    ensures
        r@ == cs@,
{
    let mut r = String::new();
    for i in 0..cs.len()
        invariant
            r@ == cs@.take(i as int),
    {
        r.push(cs[i]);
        assert(cs@.take(i + 1) =~= cs@.take(i as int).push(cs@[i as int]));
    }
    assert(cs@.take(cs@.len() as int) =~= cs@);
    r
}

/// The part of `cs` from `from` up to `to`, as a string.
pub fn part(cs: &[char], from: usize, to: usize) -> (r: String)
    requires
        from <= to <= cs@.len(),
    ensures
        r@ == cs@.subrange(from as int, to as int),
{
    text_of(vstd::slice::slice_subrange(cs, from, to))
}

/// Whether two strings hold the same characters.
pub fn same(a: &str, b: &str) -> (r: bool)
    ensures
        r == (a@ == b@),
{
    let x = chars_of(a);
    let y = chars_of(b);
    assert(x@.len() == y@.len() ==> x@.subrange(0, y@.len() as int) =~= x@);
    x.len() == y.len() && stands_at(&x, 0, &y)
}

/// Whether `p` stands in `s` at position `i`.
pub fn stands_at(s: &[char], i: usize, p: &[char]) -> (r: bool)
    requires
        i <= s@.len(),
    ensures
        r == occurs_at(s@, p@, i as int),
        r == has_prefix(s@.skip(i as int), p@),
{
    proof {
        assert(i + p@.len() <= s@.len() ==> s@.skip(i as int).take(p@.len() as int) =~= s@.subrange(
            i as int,
            i + p@.len(),
        ));
    }
    if s.len() - i < p.len() {
        return false;
    }
    for k in 0..p.len()
        invariant
            i + p.len() <= s.len(),
            s@.subrange(i as int, i + k) == p@.take(k as int),
            s@.skip(i as int).take(p@.len() as int) == s@.subrange(i as int, i + p@.len()),
    {
        if s[i + k] != p[k] {
            proof {
                assert(s@.subrange(i as int, i + p@.len())[k as int] == s@[i + k]);
            }
            return false;
        }
        assert(s@.subrange(i as int, i + k + 1) =~= s@.subrange(i as int, i + k).push(s@[i + k]));
        assert(p@.take(k + 1) =~= p@.take(k as int).push(p@[k as int]));
    }
    assert(p@.take(p@.len() as int) =~= p@);
    true
}

/// Whether `s` begins with `p`.
pub fn starts_with(s: &str, p: &str) -> (r: bool)
    ensures
        r == has_prefix(s@, p@),
{
    let cs = chars_of(s);
    let ps = chars_of(p);
    assert(cs@.skip(0) =~= cs@);
    stands_at(&cs, 0, &ps)
}

/// The view of an optional string.
pub open spec fn opt_text(r: Option<String>) -> Option<Seq<char>> {
    match r {
        Some(t) => Some(t@),
        None => None,
    }
}

/// What follows `p` in `s`, where `s` begins with `p`.
pub fn strip_prefix(s: &str, p: &str) -> (r: Option<String>)
    ensures
        opt_text(r) == stripped(s@, p@),
{
    let cs = chars_of(s);
    let ps = chars_of(p);
    assert(cs@.skip(0) =~= cs@);
    if stands_at(&cs, 0, &ps) {
        assert(s@.skip(p@.len() as int) =~= s@.subrange(p@.len() as int, s@.len() as int));
        Some(part(&cs, ps.len(), cs.len()))
    } else {
        None
    }
}

/// Whether `s` ends with `p`.
pub fn ends_with(s: &str, p: &str) -> (r: bool)
    ensures
        r == has_suffix(s@, p@),
{
    let cs = chars_of(s);
    let ps = chars_of(p);
    if cs.len() < ps.len() {
        return false;
    }
    assert(s@.skip(s@.len() - p@.len()) =~= s@.subrange(s@.len() - p@.len(), s@.len() as int));
    stands_at(&cs, cs.len() - ps.len(), &ps)
}

/// Whether `p` stands somewhere in `s`.
pub fn contains(s: &str, p: &str) -> (r: bool)
    ensures
        r == has_part(s@, p@),
{
    let cs = chars_of(s);
    let ps = chars_of(p);
    let mut i: usize = 0;
    while ps.len() <= cs.len() - i
        invariant
            cs@ == s@,
            ps@ == p@,
            i <= cs@.len(),
            forall|k: int| 0 <= k < i ==> !occurs_at(s@, p@, k),
        decreases cs@.len() - i,
    {
        if stands_at(&cs, i, &ps) {
            return true;
        }
        if i == cs.len() {
            return false;
        }
        i = i + 1;
    }
    false
}

/// The position of the first `c` in `cs` from `from` on, or the length.
pub fn index_of(cs: &[char], from: usize, c: char) -> (r: usize)
    requires
        from <= cs@.len(),
    ensures
        r == from + index_in(cs@.skip(from as int), c),
        from <= r <= cs@.len(),
        r < cs@.len() ==> cs@[r as int] == c,
        forall|k: int| from <= k < r ==> cs@[k] != c,
{
    let mut i: usize = from;
    while i < cs.len() && cs[i] != c
        invariant
            from <= i <= cs@.len(),
            from + index_in(cs@.skip(from as int), c) == i + index_in(cs@.skip(i as int), c),
            forall|k: int| from <= k < i ==> cs@[k] != c,
        decreases cs@.len() - i,
    {
        assert(cs@.skip(i as int).skip(1) =~= cs@.skip(i + 1));
        i = i + 1;
    }
    i
}

/// `s` with every occurrence of `from` replaced by `to`.
pub fn replace(s: &str, from: &str, to: &str) -> (r: String)
    ensures
        r@ == replaced(s@, from@, to@),
{
    let cs = chars_of(s);
    let fs = chars_of(from);
    let mut out = String::new();
    let mut i: usize = 0;
    assert(cs@.skip(0) =~= cs@);
    if fs.len() == 0 {
        while i < cs.len()
            invariant
                i <= cs@.len(),
                out@ + interleaved(cs@.skip(i as int), to@) == interleaved(cs@, to@),
            decreases cs@.len() - i,
        {
            let ghost before = out@;
            out.append(to);
            out.push(cs[i]);
            proof {
                let r = cs@.skip(i as int);
                assert(r.skip(1) =~= cs@.skip(i + 1));
                assert(out@ + interleaved(r.skip(1), to@) =~= before + interleaved(r, to@));
            }
            i = i + 1;
        }
        out.append(to);
        return out;
    }
    while i < cs.len()
        invariant
            fs@ == from@,
            fs@.len() > 0,
            i <= cs@.len(),
            out@ + replaced(cs@.skip(i as int), from@, to@) == replaced(cs@, from@, to@),
        decreases cs@.len() - i,
    {
        let ghost before = out@;
        let ghost r = cs@.skip(i as int);
        if stands_at(&cs, i, &fs) {
            out.append(to);
            proof {
                assert(r.skip(from@.len() as int) =~= cs@.skip(i + from@.len()));
                assert(out@ + replaced(r.skip(from@.len() as int), from@, to@) =~= before
                    + replaced(r, from@, to@));
            }
            i = i + fs.len();
        } else {
            out.push(cs[i]);
            proof {
                assert(r.skip(1) =~= cs@.skip(i + 1));
                assert(out@ + replaced(r.skip(1), from@, to@) =~= before + replaced(
                    r,
                    from@,
                    to@,
                ));
            }
            i = i + 1;
        }
    }
    assert(out@ + cs@.skip(i as int) =~= out@);
    out
}

/// What stands in `s` before the first occurrence of `p`.
pub fn before(s: &str, p: &str) -> (r: String)
    ensures
        r@ == until(s@, p@),
{
    let cs = chars_of(s);
    let ps = chars_of(p);
    let mut out = String::new();
    let mut i: usize = 0;
    assert(cs@.skip(0) =~= cs@);
    while i < cs.len() && !stands_at(&cs, i, &ps)
        invariant
            ps@ == p@,
            i <= cs@.len(),
            out@ + until(cs@.skip(i as int), p@) == until(cs@, p@),
        decreases cs@.len() - i,
    {
        let ghost old_out = out@;
        let ghost r = cs@.skip(i as int);
        out.push(cs[i]);
        proof {
            assert(r.skip(1) =~= cs@.skip(i + 1));
            assert(out@ + until(r.skip(1), p@) =~= old_out + until(r, p@));
        }
        i = i + 1;
    }
    assert(out@ + Seq::<char>::empty() =~= out@);
    out
}

/// What stands in `s` before the last occurrence of `p`, where there is one.
pub fn before_last(s: &str, p: &str) -> (r: Option<String>)
    ensures
        opt_text(r) == until_last(s@, p@),
{
    let cs = chars_of(s);
    let ps = chars_of(p);
    let mut n: usize = cs.len();
    assert(cs@.take(n as int) =~= cs@);
    loop
        invariant
            cs@ == s@,
            ps@ == p@,
            n <= cs@.len(),
            until_last(cs@.take(n as int), p@) == until_last(s@, p@),
        decreases n,
    {
        let ghost t = cs@.take(n as int);
        if ps.len() <= n {
            let at: usize = n - ps.len();
            proof {
                assert(t.skip(t.len() - p@.len()) =~= cs@.subrange(at as int, at + p@.len()));
                assert(t.take(t.len() - p@.len()) =~= cs@.subrange(0, at as int));
            }
            if stands_at(&cs, at, &ps) {
                return Some(part(&cs, 0, at));
            }
        }
        if n == 0 {
            return None;
        }
        proof {
            assert(t.drop_last() =~= cs@.take(n - 1));
        }
        n = n - 1;
    }
}

/// Appending to a vector of strings appends to the sequence of their views.
pub broadcast proof fn lemma_texts_push(v: Seq<String>, s: String)
    ensures
        #[trigger] texts(v.push(s)) == texts(v).push(s@),
{
    assert(texts(v.push(s)) =~= texts(v).push(s@));
}

/// The pieces of `s` between the occurrences of `c`.
pub fn split(s: &str, c: char) -> (r: Vec<String>)
    ensures
        texts(r@) == pieces(s@, c),
{
    let cs = chars_of(s);
    let mut r: Vec<String> = Vec::new();
    let mut i: usize = 0;
    assert(cs@.skip(0) =~= cs@);
    assert(texts(r@) =~= Seq::empty());
    assert(texts(r@) + pieces(s@, c) =~= pieces(s@, c));
    loop
        invariant
            cs@ == s@,
            i <= cs@.len(),
            texts(r@) + pieces(cs@.skip(i as int), c) == pieces(s@, c),
        decreases cs@.len() - i,
    {
        broadcast use lemma_texts_push;

        let ghost before = texts(r@);
        let ghost t = cs@.skip(i as int);
        let j = index_of(&cs, i, c);
        r.push(part(&cs, i, j));
        assert(t.take(j - i) =~= cs@.subrange(i as int, j as int));
        if j == cs.len() {
            assert(t =~= cs@.subrange(i as int, j as int));
            assert(texts(r@) =~= before + seq![t]);
            return r;
        }
        proof {
            assert(t.skip(j - i + 1) =~= cs@.skip(j + 1));
            assert(texts(r@) + pieces(cs@.skip(j + 1), c) =~= before + pieces(t, c));
        }
        i = j + 1;
    }
}

/// The lines of `s`.
pub fn lines(s: &str) -> (r: Vec<String>)
    ensures
        texts(r@) == line_seq(s@),
{
    let cs = chars_of(s);
    let mut r: Vec<String> = Vec::new();
    let mut i: usize = 0;
    assert(cs@.skip(0) =~= cs@);
    assert(texts(r@) =~= Seq::empty());
    assert(texts(r@) + line_seq(s@) =~= line_seq(s@));
    while i < cs.len()
        invariant
            cs@ == s@,
            i <= cs@.len(),
            texts(r@) + line_seq(cs@.skip(i as int)) == line_seq(s@),
        decreases cs@.len() - i,
    {
        broadcast use lemma_texts_push;

        let ghost before = texts(r@);
        let ghost t = cs@.skip(i as int);
        let j = index_of(&cs, i, '\n');
        assert(t.take(j - i) =~= cs@.subrange(i as int, j as int));
        if j == cs.len() {
            r.push(part(&cs, i, j));
            assert(t =~= cs@.subrange(i as int, j as int));
            assert(texts(r@) =~= before + seq![t]);
            return r;
        }
        if j > i && cs[j - 1] == '\r' {
            r.push(part(&cs, i, j - 1));
            assert(t.take(j - i).drop_last() =~= cs@.subrange(i as int, j - 1));
        } else {
            r.push(part(&cs, i, j));
        }
        proof {
            assert(t.skip(j - i + 1) =~= cs@.skip(j + 1));
            assert(texts(r@) + line_seq(cs@.skip(j + 1)) =~= before + line_seq(t));
        }
        i = j + 1;
    }
    assert(texts(r@) + line_seq(cs@.skip(i as int)) =~= texts(r@));
    r
}

/// Whether `c` has the Unicode property `White_Space`.
pub fn space(c: char) -> (r: bool)
    ensures
        r == is_space(c),
{
    ('\u{9}' <= c && c <= '\u{d}') || c == '\u{20}' || c == '\u{85}' || c == '\u{a0}' || c
        == '\u{1680}' || ('\u{2000}' <= c && c <= '\u{200a}') || c == '\u{2028}' || c == '\u{2029}'
        || c == '\u{202f}' || c == '\u{205f}' || c == '\u{3000}'
}

/// `s` without the white space at either end.
pub fn trim(s: &str) -> (r: String)
    ensures
        r@ == trimmed(s@),
{
    let cs = chars_of(s);
    let mut i: usize = 0;
    assert(cs@.skip(0) =~= cs@);
    while i < cs.len() && space(cs[i])
        invariant
            i <= cs@.len(),
            left_trimmed(cs@.skip(i as int)) == left_trimmed(cs@),
        decreases cs@.len() - i,
    {
        assert(cs@.skip(i as int).skip(1) =~= cs@.skip(i + 1));
        i = i + 1;
    }
    let mut j: usize = cs.len();
    assert(cs@.subrange(i as int, j as int) =~= cs@.skip(i as int));
    while i < j && space(cs[j - 1])
        invariant
            i <= j <= cs@.len(),
            right_trimmed(cs@.subrange(i as int, j as int)) == trimmed(cs@),
        decreases j,
    {
        assert(cs@.subrange(i as int, j as int).drop_last() =~= cs@.subrange(i as int, j - 1));
        j = j - 1;
    }
    part(&cs, i, j)
}

/// The runs of other characters between the white space in `s`.
pub fn words(s: &str) -> (r: Vec<String>)
    ensures
        texts(r@) == word_seq(s@),
{
    let cs = chars_of(s);
    let mut r: Vec<String> = Vec::new();
    let mut i: usize = 0;
    assert(cs@.skip(0) =~= cs@);
    assert(texts(r@) =~= Seq::empty());
    assert(texts(r@) + word_seq(s@) =~= word_seq(s@));
    while i < cs.len()
        invariant
            cs@ == s@,
            i <= cs@.len(),
            texts(r@) + word_seq(cs@.skip(i as int)) == word_seq(s@),
        decreases cs@.len() - i,
    {
        broadcast use lemma_texts_push;

        let ghost before = texts(r@);
        let ghost t = cs@.skip(i as int);
        if space(cs[i]) {
            assert(t.skip(1) =~= cs@.skip(i + 1));
            i = i + 1;
            continue;
        }
        let mut j: usize = i;
        while j < cs.len() && !space(cs[j])
            invariant
                i <= j <= cs@.len(),
                t == cs@.skip(i as int),
                space_in(t) == (j - i) + space_in(cs@.skip(j as int)),
            decreases cs@.len() - j,
        {
            assert(cs@.skip(j as int).skip(1) =~= cs@.skip(j + 1));
            j = j + 1;
        }
        r.push(part(&cs, i, j));
        proof {
            assert(space_in(t) == j - i);
            assert(t.take(j - i) =~= cs@.subrange(i as int, j as int));
            assert(t.skip(j - i) =~= cs@.skip(j as int));
            if j == cs@.len() {
                assert(t =~= cs@.subrange(i as int, j as int));
                assert(texts(r@) + word_seq(cs@.skip(j as int)) =~= before + seq![t]);
            } else {
                assert(texts(r@) + word_seq(cs@.skip(j as int)) =~= before + word_seq(t));
            }
        }
        i = j;
    }
    assert(texts(r@) + word_seq(cs@.skip(i as int)) =~= texts(r@));
    r
}

/// The first `n` characters of `s` without the white space around it.
pub fn clip(s: &str, n: usize) -> (r: String)
    ensures
        r@ == clipped(s@, n as nat),
{
    let t = trim(s);
    let cs = chars_of(t.as_str());
    if n < cs.len() {
        assert(cs@.subrange(0, n as int) =~= cs@.take(n as int));
        part(&cs, 0, n)
    } else {
        t
    }
}

/// The parts one after another with `sep` between them.
pub fn join(parts: &[String], sep: &str) -> (r: String)
    ensures
        r@ == joined(texts(parts@), sep@),
{
    let mut r = String::new();
    for i in 0..parts.len()
        invariant
            r@ == joined(texts(parts@).take(i as int), sep@),
    {
        let ghost t = texts(parts@).take(i + 1);
        if i > 0 {
            r.append(sep);
        }
        r.append(parts[i].as_str());
        proof {
            assert(t.drop_last() =~= texts(parts@).take(i as int));
            assert(t.last() == parts@[i as int]@);
            if i == 0 {
                assert(r@ =~= t[0]);
            }
        }
    }
    assert(texts(parts@).take(parts@.len() as int) =~= texts(parts@));
    r
}

/// `n` in decimal.
pub fn show(n: u64) -> (r: String)
    ensures
        r@ == decimal(n as nat),
    decreases n,
{
    let d = (48u8 + (n % 10) as u8) as char;
    let mut r = if n < 10 {
        String::new()
    } else {
        show(n / 10)
    };
    r.push(d);
    assert(n < 10 ==> r@ =~= seq![d]);
    r
}

/// `n` spaces.
pub fn blanks(n: usize) -> (r: String)
    ensures
        r@ == spaces(n as nat),
{
    let mut r = String::new();
    for i in 0..n
        invariant
            r@ == spaces(i as nat),
    {
        r.push(' ');
        assert(spaces((i + 1) as nat) =~= spaces(i as nat).push(' '));
    }
    r
}

/// Whether `a` stands at or before `b` in the order by code points.
pub fn at_or_before(a: &str, b: &str) -> (r: bool)
    ensures
        r == lex_le(a@, b@),
{
    let x = chars_of(a);
    let y = chars_of(b);
    let mut i: usize = 0;
    assert(x@.skip(0) =~= x@ && y@.skip(0) =~= y@);
    while i < x.len() && i < y.len()
        invariant
            i <= x@.len(),
            i <= y@.len(),
            lex_le(x@.skip(i as int), y@.skip(i as int)) == lex_le(a@, b@),
        decreases x@.len() - i,
    {
        if x[i] != y[i] {
            return x[i] < y[i];
        }
        assert(x@.skip(i as int).skip(1) =~= x@.skip(i + 1));
        assert(y@.skip(i as int).skip(1) =~= y@.skip(i + 1));
        i = i + 1;
    }
    i == x.len()
}

/// Whether `t` is among `all`.
pub fn among(t: &str, all: &Vec<String>) -> (r: bool)
    ensures
        r == texts(all@).to_set().contains(t@),
{
    for i in 0..all.len()
        invariant
            forall|k: int| 0 <= k < i ==> texts(all@)[k] != t@,
    {
        assert(texts(all@)[i as int] == all@[i as int]@);
        if same(all[i].as_str(), t) {
            assert(texts(all@).contains(t@));
            return true;
        }
    }
    false
}

/// A copy of a list of strings.
pub fn copy_all(v: &Vec<String>) -> (r: Vec<String>)
    ensures
        texts(r@) == texts(v@),
{
    let mut r: Vec<String> = Vec::new();
    for i in 0..v.len()
        invariant
            r@.len() == i,
            forall|k: int| 0 <= k < i ==> (#[trigger] r@[k])@ == v@[k]@,
    {
        r.push(v[i].clone());
    }
    assert(texts(r@) =~= texts(v@));
    r
}

/// The last position of a name.
pub open spec fn last_position(names: Seq<Seq<char>>, name: Seq<char>) -> Option<int>
    decreases names.len(),
{
    if names.len() == 0 {
        None
    } else if names.last() == name {
        Some(names.len() - 1)
    } else {
        last_position(names.drop_last(), name)
    }
}

/// The last position of a name is a position of it.
pub proof fn lemma_last_position(names: Seq<Seq<char>>, name: Seq<char>)
    ensures
        match last_position(names, name) {
            Some(j) => 0 <= j < names.len() && names[j] == name && forall|k: int|
                j < k < names.len() ==> #[trigger] names[k] != name,
            None => !names.contains(name),
        },
    decreases names.len(),
{
    if names.len() > 0 {
        lemma_last_position(names.drop_last(), name);
        if names.contains(name) && names.last() != name {
            let k = choose|k: int| 0 <= k < names.len() && names[k] == name;
            assert(names.drop_last()[k] == name);
        }
        if let Some(j) = last_position(names, name) {
            assert forall|k: int| j < k < names.len() implies #[trigger] names[k] != name by {
                if k < names.len() - 1 {
                    assert(names.drop_last()[k] == names[k]);
                }
            }
        }
    }
}

/// The last position of a name.
pub fn find_last(names: &Vec<String>, name: &str) -> (r: Option<usize>)
    ensures
        match r {
            Some(j) => last_position(texts(names@), name@) == Some(j as int) && j < names@.len(),
            None => last_position(texts(names@), name@) is None,
        },
{
    let ghost ns = texts(names@);
    let mut n: usize = names.len();
    assert(ns.take(n as int) =~= ns);
    while n > 0
        invariant
            ns == texts(names@),
            n <= names@.len(),
            last_position(ns.take(n as int), name@) == last_position(ns, name@),
        decreases n,
    {
        let ghost t = ns.take(n as int);
        assert(t.last() == names@[n - 1]@);
        assert(t.drop_last() =~= ns.take(n - 1));
        n = n - 1;
        if same(names[n].as_str(), name) {
            return Some(n);
        }
    }
    None
}

/// Taking one more of the names away leaves fewer.
pub proof fn lemma_fewer_names(names: Seq<Seq<char>>, away: Set<Seq<char>>, n: Seq<char>)
    requires
        names.contains(n),
        !away.contains(n),
    ensures
        names.to_set().difference(away.insert(n)).len() < names.to_set().difference(away).len(),
{
    vstd::seq_lib::seq_to_set_is_finite(names);
    let left = names.to_set().difference(away);
    assert(left.contains(n));
    assert(names.to_set().difference(away.insert(n)) =~= left.remove(n));
}

/// `s` begins with the texts `p`.
pub open spec fn has_prefix_of(s: Seq<Seq<char>>, p: Seq<Seq<char>>) -> bool {
    p.len() <= s.len() && s.take(p.len() as int) == p
}

/// `list` with those of `more` added, each once, that are not in it.
pub open spec fn merged(list: Seq<Seq<char>>, more: Seq<Seq<char>>) -> Seq<Seq<char>>
    decreases more.len(),
{
    if more.len() == 0 {
        list
    } else {
        let before = merged(list, more.drop_last());
        if before.contains(more.last()) {
            before
        } else {
            before.push(more.last())
        }
    }
}

/// `list` with those of `more` added, each once, that are not in it.
pub fn merge(list: Vec<String>, more: &Vec<String>) -> (r: Vec<String>)
    ensures
        texts(r@) == merged(texts(list@), texts(more@)),
{
    let ghost start = texts(list@);
    let ghost ms = texts(more@);
    let mut r = list;
    assert(ms.take(0) =~= Seq::empty());
    for i in 0..more.len()
        invariant
            ms == texts(more@),
            texts(r@) == merged(start, ms.take(i as int)),
    {
        broadcast use lemma_texts_push;

        let ghost so_far = texts(r@);
        proof {
            assert(ms.take(i + 1).drop_last() =~= ms.take(i as int));
            assert(ms.take(i + 1).last() == more@[i as int]@);
            assert(so_far.to_set().contains(more@[i as int]@) == so_far.contains(more@[i as int]@));
        }
        if !among(more[i].as_str(), &r) {
            r.push(more[i].clone());
        }
    }
    assert(ms.take(more@.len() as int) =~= ms);
    r
}

/// What merging keeps and adds.
pub proof fn lemma_merged(list: Seq<Seq<char>>, more: Seq<Seq<char>>)
    ensures
        has_prefix_of(merged(list, more), list),
        forall|n: Seq<char>| #[trigger]
            merged(list, more).contains(n) <==> list.contains(n) || more.contains(n),
        list.no_duplicates() ==> merged(list, more).no_duplicates(),
    decreases more.len(),
{
    let all = merged(list, more);
    if more.len() == 0 {
        assert(all.take(list.len() as int) =~= list);
    } else {
        let init = more.drop_last();
        let before = merged(list, init);
        lemma_merged(list, init);
        assert(more =~= init.push(more.last()));
        lemma_push_contains(init, more.last());
        lemma_push_contains(before, more.last());
        assert(all.take(list.len() as int) =~= before.take(list.len() as int));
    }
}

/// What a sequence holds after a push.
pub proof fn lemma_push_contains<T>(s: Seq<T>, x: T)
    ensures
        forall|y: T| #[trigger] s.push(x).contains(y) <==> s.contains(y) || y == x,
        s.no_duplicates() && !s.contains(x) ==> s.push(x).no_duplicates(),
{
    assert forall|y: T| #[trigger] s.push(x).contains(y) <==> s.contains(y) || y == x by {
        if s.contains(y) {
            let k = choose|k: int| 0 <= k < s.len() && s[k] == y;
            assert(s.push(x)[k] == y);
        }
        if y == x {
            assert(s.push(x)[s.len() as int] == y);
        }
        if s.push(x).contains(y) && y != x {
            let k = choose|k: int| 0 <= k < s.push(x).len() && s.push(x)[k] == y;
            assert(s[k] == y);
        }
    }
}

/// The members of a sequence after a push.
pub proof fn lemma_push_to_set(s: Seq<Seq<char>>, x: Seq<char>)
    ensures
        s.push(x).to_set() =~= s.to_set().insert(x),
{
    assert forall|y: Seq<char>| s.push(x).to_set().contains(y) <==> s.to_set().insert(x).contains(y) by {
        if s.contains(y) {
            let p = choose|p: int| 0 <= p < s.len() && s[p] == y;
            assert(s.push(x)[p] == y);
        }
        assert(s.push(x)[s.len() as int] == x);
    }
}

/// Code point order is total.
pub proof fn lemma_lex_total(a: Seq<char>, b: Seq<char>)
    ensures
        lex_le(a, b) || lex_le(b, a),
        lex_le(a, a),
    decreases a.len(),
{
    if a.len() > 0 {
        lemma_lex_total(a.skip(1), b.skip(1));
    }
}

/// Code point order is transitive.
pub proof fn lemma_lex_trans(a: Seq<char>, b: Seq<char>, c: Seq<char>)
    requires
        lex_le(a, b),
        lex_le(b, c),
    ensures
        lex_le(a, c),
    decreases a.len(),
{
    if a.len() > 0 && a[0] == b[0] && b[0] == c[0] {
        lemma_lex_trans(a.skip(1), b.skip(1), c.skip(1));
    }
}

/// The key at `i` comes before the key at `j`: by code points, and between
/// equal keys by position.
pub open spec fn precedes(keys: Seq<Seq<char>>, i: int, j: int) -> bool {
    lex_le(keys[i], keys[j]) && (keys[i] != keys[j] || i < j)
}

/// `p` lists every position of `keys` once, in the order of the keys; equal
/// keys stay in the order in which they stand.
pub open spec fn ranking(keys: Seq<Seq<char>>, p: Seq<int>) -> bool {
    &&& p.len() == keys.len()
    &&& forall|i: int| 0 <= i < p.len() ==> 0 <= #[trigger] p[i] < keys.len()
    &&& forall|i: int, j: int| 0 <= i < j < p.len() ==> precedes(keys, #[trigger] p[i], #[trigger] p[j])
}

/// The items of `s` at the positions `p`.
pub open spec fn arranged<T>(s: Seq<T>, p: Seq<int>) -> Seq<T> {
    Seq::new(p.len(), |i: int| s[p[i]])
}

/// Positions as integers.
pub open spec fn positions(v: Seq<usize>) -> Seq<int> {
    v.map_values(|i: usize| i as int)
}

/// The positions of the keys in the order of the keys.
pub fn rank(keys: &Vec<String>) -> (r: Vec<usize>)
    ensures
        ranking(texts(keys@), positions(r@)),
{
    let mut r: Vec<usize> = Vec::new();
    let ghost ks = texts(keys@);
    assert(positions(r@).len() == 0);
    for n in 0..keys.len()
        invariant
            ks == texts(keys@),
            ranking(ks.take(n as int), positions(r@)),
    {
        let ghost p = positions(r@);
        let mut k: usize = 0;
        while k < r.len() && at_or_before(keys[r[k]].as_str(), keys[n].as_str())
            invariant
                n < keys@.len(),
                ks == texts(keys@),
                k <= r@.len(),
                p == positions(r@),
                ranking(ks.take(n as int), p),
                forall|i: int| 0 <= i < r@.len() ==> (#[trigger] r@[i]) as int == p[i] && 0 <= p[i] < n,
                forall|i: int| 0 <= i < k ==> lex_le(ks[#[trigger] p[i]], ks[n as int]),
            decreases r@.len() - k,
        {
            k = k + 1;
        }
        r.insert(k, n);
        proof {
            let q = positions(r@);
            assert(q =~= p.insert(k as int, n as int));
            let now = ks.take(n + 1);
            let was = ks.take(n as int);
            assert forall|i: int, j: int| 0 <= i < j < q.len() implies precedes(
                now,
                #[trigger] q[i],
                #[trigger] q[j],
            ) by {
                if i < k && j > k {
                    assert(precedes(was, p[i], p[j - 1]));
                } else if i < k && j < k {
                    assert(precedes(was, p[i], p[j]));
                } else if i > k {
                    assert(precedes(was, p[i - 1], p[j - 1]));
                } else if i == k {
                    let first = p[k as int];
                    let later = p[j - 1];
                    lemma_lex_total(ks[n as int], ks[first]);
                    if j - 1 > k {
                        assert(precedes(was, first, later));
                        lemma_lex_trans(ks[n as int], ks[first], ks[later]);
                    }
                } else {
                    assert(lex_le(ks[p[i]], ks[n as int]));
                }
            }
        }
    }
    assert(ks.take(keys@.len() as int) =~= ks);
    r
}

/// Code point order is antisymmetric.
pub proof fn lemma_lex_antisymmetric(a: Seq<char>, b: Seq<char>)
    requires
        lex_le(a, b),
        lex_le(b, a),
    ensures
        a == b,
    decreases a.len(),
{
    if a.len() > 0 {
        lemma_lex_antisymmetric(a.skip(1), b.skip(1));
        assert(a =~= seq![a[0]] + a.skip(1));
        assert(b =~= seq![b[0]] + b.skip(1));
    } else {
        assert(a =~= b);
    }
}

/// A ranking lists every position.
proof fn lemma_ranking_covers(keys: Seq<Seq<char>>, p: Seq<int>)
    requires
        ranking(keys, p),
    ensures
        p.no_duplicates(),
        forall|i: int| 0 <= i < keys.len() ==> #[trigger] p.contains(i),
{
    let n = keys.len() as int;
    assert forall|i: int, j: int| 0 <= i < p.len() && 0 <= j < p.len() && i != j implies p[i] != p[j] by {
        if i < j {
            assert(precedes(keys, p[i], p[j]));
        } else {
            assert(precedes(keys, p[j], p[i]));
        }
    }
    let range = vstd::set_lib::set_int_range(0, n);
    vstd::set_lib::lemma_int_range(0, n);
    p.unique_seq_to_set();
    vstd::seq_lib::seq_to_set_is_finite(p);
    assert(p.to_set().subset_of(range)) by {
        assert forall|x: int| p.to_set().contains(x) implies range.contains(x) by {
            let k = choose|k: int| 0 <= k < p.len() && p[k] == x;
            assert(0 <= p[k] < keys.len());
        }
    }
    vstd::set_lib::lemma_subset_equality(p.to_set(), range);
    assert forall|i: int| 0 <= i < keys.len() implies #[trigger] p.contains(i) by {
        assert(range.contains(i));
        assert(p.to_set().contains(i));
    }
}

/// Rankings that agree up to a place agree there.
proof fn lemma_rankings_agree(keys: Seq<Seq<char>>, p: Seq<int>, q: Seq<int>, i: int)
    requires
        ranking(keys, p),
        ranking(keys, q),
        0 <= i < p.len(),
        forall|k: int| 0 <= k < i ==> p[k] == q[k],
    ensures
        p[i] == q[i],
{
    lemma_ranking_covers(keys, p);
    lemma_ranking_covers(keys, q);
    if p[i] != q[i] {
        assert(p.contains(q[i]) && q.contains(p[i]));
        let a = choose|a: int| 0 <= a < p.len() && p[a] == q[i];
        let b = choose|b: int| 0 <= b < q.len() && q[b] == p[i];
        assert(a > i) by {
            if a < i {
                assert(q[a] == q[i]);
            }
        }
        assert(b > i) by {
            if b < i {
                assert(p[b] == p[i]);
            }
        }
        assert(precedes(keys, p[i], p[a]) && precedes(keys, q[i], q[b]));
        lemma_lex_antisymmetric(keys[p[i]], keys[q[i]]);
    }
}

/// Law: there is one ranking of given keys, and it lists every position.
pub proof fn law_one_ranking(keys: Seq<Seq<char>>, p: Seq<int>, q: Seq<int>)
    requires
        ranking(keys, p),
        ranking(keys, q),
    ensures
        p == q,
        forall|i: int| 0 <= i < keys.len() ==> #[trigger] p.contains(i),
{
    lemma_ranking_covers(keys, p);
    lemma_same_up_to(keys, p, q, p.len() as int);
    assert(p =~= q);
}

proof fn lemma_same_up_to(keys: Seq<Seq<char>>, p: Seq<int>, q: Seq<int>, n: int)
    requires
        ranking(keys, p),
        ranking(keys, q),
        0 <= n <= p.len(),
    ensures
        forall|k: int| 0 <= k < n ==> p[k] == q[k],
    decreases n,
{
    if n > 0 {
        lemma_same_up_to(keys, p, q, n - 1);
        lemma_rankings_agree(keys, p, q, n - 1);
    }
}

/// Law: what stands before the last occurrence of a part ends where the part
/// stands and stands nowhere further on; there is none where the part does not
/// occur.
pub proof fn law_until_last_stops_at_the_last(s: Seq<char>, p: Seq<char>)
    ensures
        match until_last(s, p) {
            Some(u) => {
                &&& has_prefix(s, u)
                &&& occurs_at(s, p, u.len() as int)
                &&& forall|k: int| u.len() < k ==> !occurs_at(s, p, k)
            },
            None => !has_part(s, p),
        },
    decreases s.len(),
{
    if has_suffix(s, p) {
        let u = s.take(s.len() - p.len());
        assert(s.subrange(u.len() as int, u.len() as int + p.len()) =~= s.skip(s.len() - p.len()));
    } else if s.len() == 0 {
        if has_part(s, p) {
            let k = choose|k: int| occurs_at(s, p, k);
            assert(s.skip(s.len() - p.len()) =~= p);
        }
    } else {
        let init = s.drop_last();
        law_until_last_stops_at_the_last(init, p);
        assert forall|k: int| occurs_at(s, p, k) implies occurs_at(init, p, k) by {
            if k + p.len() == s.len() {
                assert(s.skip(s.len() - p.len()) =~= s.subrange(k, k + p.len()));
            }
            assert(init.subrange(k, k + p.len()) =~= s.subrange(k, k + p.len()));
        }
        if let Some(u) = until_last(init, p) {
            assert(s.take(u.len() as int) =~= init.take(u.len() as int));
            assert(init.subrange(u.len() as int, u.len() as int + p.len()) =~= s.subrange(
                u.len() as int,
                u.len() as int + p.len(),
            ));
        }
    }
}

/// Law: what stands before the first occurrence of a part is a beginning of the
/// text that does not reach into any occurrence: the part stands right behind
/// it, and nowhere before; all of the text where the part does not occur.
pub proof fn law_until_stops_at_the_first(s: Seq<char>, p: Seq<char>)
    ensures
        has_prefix(s, until(s, p)),
        forall|k: int| k < until(s, p).len() ==> !occurs_at(s, p, k),
        has_part(s, p) ==> occurs_at(s, p, until(s, p).len() as int),
        !has_part(s, p) ==> until(s, p) == s,
    decreases s.len(),
{
    if has_prefix(s, p) {
        assert(s.subrange(0, p.len() as int) =~= s.take(p.len() as int));
        assert(occurs_at(s, p, 0));
        assert(s.take(0) =~= until(s, p));
    } else if s.len() == 0 {
        if has_part(s, p) {
            let k = choose|k: int| occurs_at(s, p, k);
            assert(s.take(p.len() as int) =~= s.subrange(k, k + p.len()));
        }
        assert(s.take(0) =~= until(s, p));
        assert(s =~= until(s, p));
    } else {
        let rest = s.skip(1);
        let u = until(rest, p);
        law_until_stops_at_the_first(rest, p);
        assert forall|k: int| occurs_at(s, p, k) implies k >= 1 && occurs_at(rest, p, k - 1) by {
            if k == 0 {
                assert(s.take(p.len() as int) =~= s.subrange(0, p.len() as int));
            }
            assert(rest.subrange(k - 1, k - 1 + p.len()) =~= s.subrange(k, k + p.len()));
        }
        assert forall|k: int| occurs_at(rest, p, k) implies occurs_at(s, p, k + 1) by {
            assert(rest.subrange(k, k + p.len()) =~= s.subrange(k + 1, k + 1 + p.len()));
        }
        assert(until(s, p) =~= seq![s[0]] + u);
        assert(s.take(1 + u.len() as int) =~= seq![s[0]] + rest.take(u.len() as int));
        assert(s.take(until(s, p).len() as int) =~= until(s, p));
        if has_part(s, p) {
            let k = choose|k: int| occurs_at(s, p, k);
            assert(occurs_at(rest, p, k - 1));
            assert(occurs_at(rest, p, u.len() as int));
            assert(occurs_at(s, p, u.len() as int + 1));
        } else {
            if has_part(rest, p) {
                let k = choose|k: int| occurs_at(rest, p, k);
                assert(occurs_at(s, p, k + 1));
            }
            assert(seq![s[0]] + rest =~= s);
        }
    }
}

/// Law: the pieces between the occurrences of a character hold it nowhere, and
/// make up the text again when it is put between them.
pub proof fn law_pieces_rejoin(s: Seq<char>, c: char)
    ensures
        pieces(s, c).len() > 0,
        forall|i: int| 0 <= i < pieces(s, c).len() ==> !(#[trigger] pieces(s, c)[i]).contains(c),
        joined(pieces(s, c), seq![c]) == s,
    decreases s.len(),
{
    lemma_index_in(s, c);
    let i = index_in(s, c) as int;
    if i >= s.len() {
        assert(pieces(s, c) =~= seq![s]);
    } else {
        let head = s.take(i);
        let rest = s.skip(i + 1);
        let more = pieces(rest, c);
        law_pieces_rejoin(rest, c);
        law_joined_from_the_front(head, more, seq![c]);
        assert(head + seq![c] + rest =~= s);
        assert forall|k: int| 0 <= k < pieces(s, c).len() implies !(#[trigger] pieces(s, c)[k]).contains(c) by {
            if k > 0 {
                assert(pieces(s, c)[k] == more[k - 1]);
            }
        }
    }
}

/// Law: one part joined is the part itself, and a further part at the front
/// goes before the others with the separator between.
pub proof fn law_joined_from_the_front(head: Seq<char>, more: Seq<Seq<char>>, sep: Seq<char>)
    ensures
        joined(Seq::empty(), sep) == Seq::<char>::empty(),
        joined(seq![head], sep) == head,
        more.len() > 0 ==> joined(seq![head] + more, sep) == head + sep + joined(more, sep),
    decreases more.len(),
{
    let all = seq![head] + more;
    if more.len() == 1 {
        assert(all.drop_last() =~= seq![head]);
        assert(all.last() == more[0]);
        assert(joined(all.drop_last(), sep) == head);
        assert(joined(more, sep) == more[0]);
        assert(joined(all, sep) == joined(all.drop_last(), sep) + sep + all.last());
    } else if more.len() > 1 {
        law_joined_from_the_front(head, more.drop_last(), sep);
        assert(all.drop_last() =~= seq![head] + more.drop_last());
        assert(all.last() == more.last());
        assert(joined(all, sep) =~= head + sep + joined(more, sep));
    }
}

/// All characters are white space.
pub open spec fn all_space(s: Seq<char>) -> bool {
    forall|i: int| 0 <= i < s.len() ==> is_space(#[trigger] s[i])
}

/// Law: white space is taken off both ends of a text and nowhere else, and none
/// is left at either end.
pub proof fn law_trimming_takes_space_off_the_ends(s: Seq<char>)
    ensures
        exists|a: Seq<char>, b: Seq<char>|
            #![trigger a + trimmed(s) + b]
            all_space(a) && all_space(b) && s == a + trimmed(s) + b,
        trimmed(s).len() > 0 ==> !is_space(trimmed(s)[0]) && !is_space(trimmed(s).last()),
{
    let l = left_trimmed(s);
    let a = lemma_left_trimmed(s);
    let b = lemma_right_trimmed(l);
    assert(s =~= a + trimmed(s) + b);
    if trimmed(s).len() > 0 {
        assert(trimmed(s)[0] == l[0]);
    }
}

proof fn lemma_left_trimmed(s: Seq<char>) -> (a: Seq<char>)
    ensures
        all_space(a),
        s == a + left_trimmed(s),
        left_trimmed(s).len() > 0 ==> !is_space(left_trimmed(s)[0]),
    decreases s.len(),
{
    if s.len() > 0 && is_space(s[0]) {
        let a = lemma_left_trimmed(s.skip(1));
        let more = seq![s[0]] + a;
        assert(s =~= seq![s[0]] + s.skip(1));
        assert(s =~= more + left_trimmed(s));
        assert forall|i: int| 0 <= i < more.len() implies is_space(#[trigger] more[i]) by {
            if i > 0 {
                assert(more[i] == a[i - 1]);
            }
        }
        more
    } else {
        assert(s =~= Seq::<char>::empty() + s);
        Seq::empty()
    }
}

proof fn lemma_right_trimmed(s: Seq<char>) -> (b: Seq<char>)
    ensures
        all_space(b),
        s == right_trimmed(s) + b,
        right_trimmed(s).len() > 0 ==> !is_space(right_trimmed(s).last()),
    decreases s.len(),
{
    if s.len() > 0 && is_space(s.last()) {
        let b = lemma_right_trimmed(s.drop_last());
        let more = b.push(s.last());
        assert(s =~= s.drop_last().push(s.last()));
        assert(s =~= right_trimmed(s) + more);
        more
    } else {
        assert(s =~= s + Seq::<char>::empty());
        Seq::empty()
    }
}

/// Law: white space is what Unicode lists as such.
pub proof fn law_white_space(c: char)
    ensures
        is_space(c) <==> seq![
            '\u{9}', '\u{a}', '\u{b}', '\u{c}', '\u{d}', '\u{20}', '\u{85}', '\u{a0}', '\u{1680}',
            '\u{2000}', '\u{2001}', '\u{2002}', '\u{2003}', '\u{2004}', '\u{2005}', '\u{2006}', '\u{2007}',
            '\u{2008}', '\u{2009}', '\u{200a}', '\u{2028}', '\u{2029}', '\u{202f}', '\u{205f}', '\u{3000}',
        ].contains(c),
{
    let all = seq![
        '\u{9}', '\u{a}', '\u{b}', '\u{c}', '\u{d}', '\u{20}', '\u{85}', '\u{a0}', '\u{1680}',
        '\u{2000}', '\u{2001}', '\u{2002}', '\u{2003}', '\u{2004}', '\u{2005}', '\u{2006}', '\u{2007}',
        '\u{2008}', '\u{2009}', '\u{200a}', '\u{2028}', '\u{2029}', '\u{202f}', '\u{205f}', '\u{3000}',
    ];
    if is_space(c) {
        let i: int = if c <= '\u{d}' {
            c as int - 9
        } else if c == '\u{20}' {
            5
        } else if c == '\u{85}' {
            6
        } else if c == '\u{a0}' {
            7
        } else if c == '\u{1680}' {
            8
        } else if c <= '\u{200a}' {
            c as int - 0x2000 + 9
        } else if c == '\u{2028}' {
            20
        } else if c == '\u{2029}' {
            21
        } else if c == '\u{202f}' {
            22
        } else if c == '\u{205f}' {
            23
        } else {
            24
        };
        assert(all[i] == c);
    }
}

/// The lines, each with what ended it.
pub open spec fn with_ends(lines: Seq<Seq<char>>, ends: Seq<Seq<char>>) -> Seq<char>
    decreases lines.len(),
{
    if lines.len() == 0 {
        Seq::empty()
    } else {
        lines[0] + ends[0] + with_ends(lines.skip(1), ends.skip(1))
    }
}

/// `ends` are what lines of a text end with: each a line feed, or a carriage
/// return and a line feed; the last one may end with nothing unless it is empty.
pub open spec fn line_ends(lines: Seq<Seq<char>>, ends: Seq<Seq<char>>) -> bool {
    &&& ends.len() == lines.len()
    &&& forall|i: int|
        0 <= i < lines.len() ==> {
            ||| #[trigger] ends[i] == seq!['\n'] && (lines[i].len() > 0 ==> lines[i].last() != '\r')
            ||| ends[i] == seq!['\r', '\n']
            ||| ends[i].len() == 0 && i == lines.len() - 1 && lines[i].len() > 0
        }
}

/// Law: no line holds a line feed, and the lines with their ends make up the
/// text.
pub proof fn law_lines_rejoin(s: Seq<char>) -> (ends: Seq<Seq<char>>)
    ensures
        forall|i: int| 0 <= i < line_seq(s).len() ==> !(#[trigger] line_seq(s)[i]).contains('\n'),
        line_ends(line_seq(s), ends),
        with_ends(line_seq(s), ends) == s,
    decreases s.len(),
{
    let lines = line_seq(s);
    lemma_index_in(s, '\n');
    let i = index_in(s, '\n') as int;
    if s.len() == 0 {
        Seq::empty()
    } else if i >= s.len() {
        let ends = seq![Seq::<char>::empty()];
        assert(lines =~= seq![s]);
        assert(with_ends(lines.skip(1), ends.skip(1)) =~= Seq::empty());
        assert(with_ends(lines, ends) =~= s);
        ends
    } else {
        let rest = s.skip(i + 1);
        let more = law_lines_rejoin(rest);
        let whole = s.take(i);
        let line = without_cr(whole);
        let end = if whole.len() > 0 && whole.last() == '\r' {
            seq!['\r', '\n']
        } else {
            seq!['\n']
        };
        let ends = seq![end] + more;
        assert(lines.skip(1) =~= line_seq(rest));
        assert(ends.skip(1) =~= more);
        assert(line + end =~= whole.push('\n'));
        assert(whole.push('\n') + rest =~= s);
        assert(with_ends(lines, ends) =~= s);
        assert forall|k: int| 0 <= k < lines.len() implies !(#[trigger] lines[k]).contains('\n') by {
            if k > 0 {
                assert(lines[k] == line_seq(rest)[k - 1]);
            }
        }
        assert forall|k: int| 0 <= k < lines.len() implies {
            ||| #[trigger] ends[k] == seq!['\n'] && (lines[k].len() > 0 ==> lines[k].last() != '\r')
            ||| ends[k] == seq!['\r', '\n']
            ||| ends[k].len() == 0 && k == lines.len() - 1 && lines[k].len() > 0
        } by {
            if k > 0 {
                assert(lines[k] == line_seq(rest)[k - 1]);
                assert(ends[k] == more[k - 1]);
            }
        }
        ends
    }
}

/// The words, each behind what separates it from the one before.
pub open spec fn with_gaps(gaps: Seq<Seq<char>>, words: Seq<Seq<char>>) -> Seq<char>
    decreases words.len(),
{
    if words.len() == 0 {
        gaps[0]
    } else {
        gaps[0] + words[0] + with_gaps(gaps.skip(1), words.skip(1))
    }
}

/// Law: words are not empty and hold no white space, and what separates them is
/// white space only: there is some between any two, and together they make up
/// the text.
pub proof fn law_words_rejoin(s: Seq<char>) -> (gaps: Seq<Seq<char>>)
    ensures
        forall|i: int|
            0 <= i < word_seq(s).len() ==> (#[trigger] word_seq(s)[i]).len() > 0 && forall|k: int|
                0 <= k < word_seq(s)[i].len() ==> !is_space(#[trigger] word_seq(s)[i][k]),
        gaps.len() == word_seq(s).len() + 1,
        forall|i: int| 0 <= i < gaps.len() ==> all_space(#[trigger] gaps[i]),
        forall|i: int| 0 < i < gaps.len() - 1 ==> (#[trigger] gaps[i]).len() > 0,
        with_gaps(gaps, word_seq(s)) == s,
        s.len() > 0 && !is_space(s[0]) ==> gaps[0].len() == 0 && word_seq(s).len() > 0,
        s.len() > 0 && is_space(s[0]) ==> gaps[0].len() > 0,
    decreases s.len(),
{
    let words = word_seq(s);
    lemma_space_in(s);
    let k = space_in(s) as int;
    if s.len() == 0 {
        let gaps = seq![Seq::<char>::empty()];
        gaps
    } else if k == 0 {
        let more = law_words_rejoin(s.skip(1));
        let gap = seq![s[0]] + more[0];
        let gaps = more.update(0, gap);
        assert forall|i: int| 0 <= i < gap.len() implies is_space(#[trigger] gap[i]) by {
            if i > 0 {
                assert(gap[i] == more[0][i - 1]);
            }
        }
        if words.len() > 0 {
            assert(gaps.skip(1) =~= more.skip(1));
        }
        assert(with_gaps(gaps, words) =~= seq![s[0]] + with_gaps(more, words));
        assert(seq![s[0]] + s.skip(1) =~= s);
        gaps
    } else if k >= s.len() {
        let gaps = seq![Seq::<char>::empty(), Seq::<char>::empty()];
        assert(words =~= seq![s]);
        assert(with_gaps(gaps.skip(1), words.skip(1)) =~= Seq::empty());
        assert(with_gaps(gaps, words) =~= s);
        gaps
    } else {
        let rest = s.skip(k);
        let more = law_words_rejoin(rest);
        let gaps = seq![Seq::<char>::empty()] + more;
        assert(rest[0] == s[k]);
        assert(gaps.skip(1) =~= more);
        assert(words.skip(1) =~= word_seq(rest));
        assert(with_gaps(gaps, words) =~= s.take(k) + rest);
        assert(s.take(k) + rest =~= s);
        assert forall|i: int| 0 <= i < words.len() implies (#[trigger] words[i]).len() > 0 && forall|q: int|
            0 <= q < words[i].len() ==> !is_space(#[trigger] words[i][q]) by {
            if i > 0 {
                assert(words[i] == word_seq(rest)[i - 1]);
            }
        }
        assert forall|i: int| 0 <= i < gaps.len() implies all_space(#[trigger] gaps[i]) by {
            if i > 0 {
                assert(gaps[i] == more[i - 1]);
            }
        }
        assert forall|i: int| 0 < i < gaps.len() - 1 implies (#[trigger] gaps[i]).len() > 0 by {
            assert(gaps[i] == more[i - 1]);
        }
        gaps
    }
}

/// The first white space, or the end.
proof fn lemma_space_in(s: Seq<char>)
    ensures
        space_in(s) <= s.len(),
        space_in(s) < s.len() ==> is_space(s[space_in(s) as int]),
        forall|k: int| 0 <= k < space_in(s) ==> !is_space(#[trigger] s[k]),
    decreases s.len(),
{
    if s.len() > 0 && !is_space(s[0]) {
        lemma_space_in(s.skip(1));
        assert forall|k: int| 0 <= k < space_in(s) implies !is_space(#[trigger] s[k]) by {
            if k > 0 {
                assert(s[k] == s.skip(1)[k - 1]);
            }
        }
    }
}

/// The number that decimal digits stand for.
pub open spec fn read_decimal(s: Seq<char>) -> nat
    decreases s.len(),
{
    if s.len() == 0 {
        0
    } else {
        10 * read_decimal(s.drop_last()) + (s.last() as nat - '0' as nat) as nat
    }
}

/// Law: a number in decimal is made of digits, reads back as the number, and
/// has no zero in front unless it is zero.
pub proof fn law_decimals_read_back(n: nat)
    ensures
        decimal(n).len() > 0,
        forall|i: int| 0 <= i < decimal(n).len() ==> '0' <= #[trigger] decimal(n)[i] <= '9',
        read_decimal(decimal(n)) == n,
        n > 0 ==> decimal(n)[0] != '0',
        n == 0 ==> decimal(n) == seq!['0'],
    decreases n,
{
    if n < 10 {
        let s = seq![digit(n)];
        assert(s.drop_last() =~= Seq::empty());
        assert(read_decimal(s.drop_last()) == 0);
    } else {
        law_decimals_read_back(n / 10);
        let s = decimal(n);
        assert(s.drop_last() =~= decimal(n / 10));
    }
}

/// Law: the order by code points is that of the first characters that differ; a
/// text stands before all that it is the beginning of.
pub proof fn law_texts_are_ordered_by_code_points(a: Seq<char>, b: Seq<char>)
    ensures
        lex_le(a, b) <==> has_prefix(b, a) || exists|i: int|
            0 <= i < a.len() && i < b.len() && #[trigger] a[i] < b[i] && forall|k: int|
                0 <= k < i ==> #[trigger] a[k] == b[k],
    decreases a.len(),
{
    if a.len() == 0 {
        assert(b.take(0) =~= a);
    } else if b.len() == 0 {
    } else if a[0] != b[0] {
        if has_prefix(b, a) {
            assert(b.take(a.len() as int)[0] == b[0]);
        }
        if a[0] < b[0] {
            assert(a[0] < b[0]);
        } else if exists|i: int|
            0 <= i < a.len() && i < b.len() && #[trigger] a[i] < b[i] && forall|k: int|
                0 <= k < i ==> #[trigger] a[k] == b[k] {
            let i = choose|i: int|
                0 <= i < a.len() && i < b.len() && #[trigger] a[i] < b[i] && forall|k: int|
                    0 <= k < i ==> #[trigger] a[k] == b[k];
            assert(i > 0);
            assert(a[0] == b[0]);
        }
    } else {
        let x = a.skip(1);
        let y = b.skip(1);
        law_texts_are_ordered_by_code_points(x, y);
        if has_prefix(y, x) {
            assert(b.take(a.len() as int) =~= seq![b[0]] + y.take(x.len() as int));
            assert(a =~= seq![a[0]] + x);
        }
        if has_prefix(b, a) {
            assert(y.take(x.len() as int) =~= b.take(a.len() as int).skip(1));
        }
        if exists|i: int|
            0 <= i < x.len() && i < y.len() && #[trigger] x[i] < y[i] && forall|k: int|
                0 <= k < i ==> #[trigger] x[k] == y[k] {
            let i = choose|i: int|
                0 <= i < x.len() && i < y.len() && #[trigger] x[i] < y[i] && forall|k: int|
                    0 <= k < i ==> #[trigger] x[k] == y[k];
            assert(a[i + 1] < b[i + 1]);
            assert forall|k: int| 0 <= k < i + 1 implies #[trigger] a[k] == b[k] by {
                if k > 0 {
                    assert(x[k - 1] == y[k - 1]);
                }
            }
        }
        if exists|i: int|
            0 <= i < a.len() && i < b.len() && #[trigger] a[i] < b[i] && forall|k: int|
                0 <= k < i ==> #[trigger] a[k] == b[k] {
            let i = choose|i: int|
                0 <= i < a.len() && i < b.len() && #[trigger] a[i] < b[i] && forall|k: int|
                    0 <= k < i ==> #[trigger] a[k] == b[k];
            assert(x[i - 1] < y[i - 1]);
            assert forall|k: int| 0 <= k < i - 1 implies #[trigger] x[k] == y[k] by {
                assert(a[k + 1] == b[k + 1]);
            }
        }
    }
}

/// Law: a clipped text is a beginning of the trimmed one, as long as it may be.
pub proof fn law_clipping_keeps_the_beginning(s: Seq<char>, n: nat)
    ensures
        has_prefix(trimmed(s), clipped(s, n)),
        clipped(s, n).len() == if trimmed(s).len() <= n {
            trimmed(s).len()
        } else {
            n
        },
{
    assert(trimmed(s).take(trimmed(s).len() as int) =~= trimmed(s));
}

/// Law: blanks are spaces, as many as asked for.
pub proof fn law_blanks(n: nat)
    ensures
        spaces(n).len() == n,
        forall|i: int| 0 <= i < n ==> #[trigger] spaces(n)[i] == ' ',
{
}

/// Law: replacing goes from left to right: what stands before the first
/// occurrence is kept, the occurrence becomes the new text, and the rest is
/// dealt with in the same way; an empty part stands before every character and
/// at the end.
pub proof fn law_replacing_goes_from_left_to_right(s: Seq<char>, from: Seq<char>, to: Seq<char>)
    ensures
        from.len() > 0 && has_part(s, from) ==> replaced(s, from, to) == until(s, from) + to + replaced(
            s.skip(until(s, from).len() as int + from.len()),
            from,
            to,
        ),
        from.len() > 0 && !has_part(s, from) ==> replaced(s, from, to) == s,
        from.len() == 0 && s.len() == 0 ==> replaced(s, from, to) == to,
        from.len() == 0 && s.len() > 0 ==> replaced(s, from, to) == to + seq![s[0]] + replaced(
            s.skip(1),
            from,
            to,
        ),
    decreases s.len(),
{
    if from.len() > 0 {
        if !has_part(s, from) {
            lemma_replaced_absent(s, from, to);
        } else if has_prefix(s, from) {
            assert(until(s, from) + to =~= to);
        } else {
            law_until_stops_at_the_first(s, from);
            let k = choose|k: int| occurs_at(s, from, k);
            let rest = s.skip(1);
            if k == 0 {
                assert(s.take(from.len() as int) =~= s.subrange(0, from.len() as int));
            }
            assert(rest.subrange(k - 1, k - 1 + from.len()) =~= s.subrange(k, k + from.len()));
            assert(occurs_at(rest, from, k - 1));
            law_replacing_goes_from_left_to_right(rest, from, to);
            law_until_stops_at_the_first(rest, from);
            let n = until(rest, from).len() as int;
            assert(rest.skip(n + from.len()) =~= s.skip(1 + n + from.len()));
            assert(replaced(s, from, to) =~= until(s, from) + to + replaced(
                s.skip(until(s, from).len() as int + from.len()),
                from,
                to,
            ));
        }
    }
}

/// Law: what begins with a prefix is the prefix and what is left when it is
/// stripped, and from nothing else is anything stripped.
pub proof fn law_stripping_leaves_the_rest(s: Seq<char>, p: Seq<char>, rest: Seq<char>)
    ensures
        stripped(s, p) == Some(rest) <==> s == p + rest,
        stripped(s, p) is None <==> forall|r: Seq<char>| #[trigger] (p + r) != s,
{
    if s == p + rest {
        assert(s.take(p.len() as int) =~= p);
        assert(s.skip(p.len() as int) =~= rest);
    }
    if has_prefix(s, p) {
        assert(s =~= p + s.skip(p.len() as int));
    }
    assert forall|r: Seq<char>| #[trigger] (p + r) == s implies has_prefix(s, p) by {
        assert(s.take(p.len() as int) =~= p);
    }
}

/// Law: a list of texts is read in order, each as it is, and so is an optional
/// text.
pub proof fn law_texts_are_read_as_they_are(v: Seq<String>, i: int, o: Option<String>)
    ensures
        texts(v).len() == v.len(),
        0 <= i < v.len() ==> texts(v)[i] == v[i]@,
        opt_text(o) is Some <==> o is Some,
        o matches Some(t) ==> opt_text(o) == Some(t@),
{
}

/// Law: a ranking lists as many positions as there are keys, by code points of
/// their keys, and between equal keys the one that stands first comes first; and
/// whatever does so is a ranking.
pub proof fn law_rankings_sort(keys: Seq<Seq<char>>, p: Seq<int>)
    ensures
        ranking(keys, p) <==> p.len() == keys.len() && (forall|i: int|
            0 <= i < p.len() ==> 0 <= #[trigger] p[i] < keys.len()) && (forall|i: int, j: int|
            0 <= i < j < p.len() ==> lex_le(keys[#[trigger] p[i]], keys[#[trigger] p[j]]) && (keys[p[i]]
                == keys[p[j]] ==> p[i] < p[j])),
{
    if p.len() == keys.len() && (forall|i: int, j: int|
        0 <= i < j < p.len() ==> lex_le(keys[#[trigger] p[i]], keys[#[trigger] p[j]]) && (keys[p[i]] == keys[p[j]]
            ==> p[i] < p[j])) {
        assert forall|i: int, j: int| 0 <= i < j < p.len() implies precedes(
            keys,
            #[trigger] p[i],
            #[trigger] p[j],
        ) by {}
    }
    if ranking(keys, p) {
        assert forall|i: int, j: int| 0 <= i < j < p.len() implies lex_le(
            keys[#[trigger] p[i]],
            keys[#[trigger] p[j]],
        ) && (keys[p[i]] == keys[p[j]] ==> p[i] < p[j]) by {
            assert(precedes(keys, p[i], p[j]));
        }
    }
}

} // verus!
