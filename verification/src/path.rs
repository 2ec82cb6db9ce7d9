//! Unix paths as text: joining, comparing by components, file names.

use vstd::prelude::*;

use crate::picks;
use crate::picks::picks;
use crate::text;
use crate::text::{has_prefix, joined, pieces, texts};

verus! {

broadcast use text::lemma_texts_push;

/// `rel` below `base`; an absolute `rel` stands for itself.
pub open spec fn below(base: Seq<char>, rel: Seq<char>) -> Seq<char> {
    if rel.len() > 0 && rel[0] == '/' {
        rel
    } else if base.len() == 0 || base.last() == '/' {
        base + rel
    } else {
        base.push('/') + rel
    }
}

/// The pieces that name something: neither empty nor `.`.
pub open spec fn naming(ps: Seq<Seq<char>>) -> Seq<Seq<char>>
    decreases ps.len(),
{
    if ps.len() == 0 {
        Seq::empty()
    } else if ps.last().len() == 0 || ps.last() == seq!['.'] {
        naming(ps.drop_last())
    } else {
        naming(ps.drop_last()).push(ps.last())
    }
}

/// The components of a path: the root or a leading `.` where there is one,
/// then the pieces between slashes that name something.
pub open spec fn components(p: Seq<char>) -> Seq<Seq<char>> {
    let ps = pieces(p, '/');
    if p.len() > 0 && p[0] == '/' {
        seq![seq!['/']] + naming(ps)
    } else if ps[0] == seq!['.'] {
        seq![seq!['.']] + naming(ps)
    } else {
        naming(ps)
    }
}

/// The path `p` lies at or below `base`.
pub open spec fn within(p: Seq<char>, base: Seq<char>) -> bool {
    components(base).len() <= components(p).len() && components(p).take(
        components(base).len() as int,
    ) == components(base)
}

/// The last component of a path, where it is a plain name.
pub open spec fn last_name(p: Seq<char>) -> Option<Seq<char>> {
    let cs = components(p);
    if cs.len() == 0 || cs.last() == seq!['/'] || cs.last() == seq!['.'] || cs.last() == seq!['.', '.'] {
        None
    } else {
        Some(cs.last())
    }
}

/// The path with the given components.
pub open spec fn assembled(cs: Seq<Seq<char>>) -> Seq<char> {
    if cs.len() > 0 && cs[0] == seq!['/'] {
        seq!['/'] + joined(cs.skip(1), "/"@)
    } else {
        joined(cs, "/"@)
    }
}

/// The path of all components but the last; none for the root and for the
/// empty path.
pub open spec fn parent_of(p: Seq<char>) -> Option<Seq<char>> {
    let cs = components(p);
    if cs.len() == 0 || cs.last() == seq!['/'] {
        None
    } else {
        Some(assembled(cs.drop_last()))
    }
}

/// `rel` below `base`; an absolute `rel` stands for itself.
pub fn join(base: &str, rel: &str) -> (r: String)
    ensures
        r@ == below(base@, rel@),
{
    let b = text::chars_of(base);
    let r = text::chars_of(rel);
    if r.len() > 0 && r[0] == '/' {
        rel.to_string()
    } else {
        let mut out = base.to_string();
        if b.len() > 0 && b[b.len() - 1] != '/' {
            out.push('/');
        }
        out.append(rel);
        out
    }
}

/// The components of a path.
pub fn split(p: &str) -> (r: Vec<String>)
    ensures
        texts(r@) == components(p@),
{
    proof {
        reveal_strlit("/");
        reveal_strlit(".");
        assert("/"@ =~= seq!['/']);
        assert("."@ =~= seq!['.']);
    }
    let ps = text::split(p, '/');
    let mut r: Vec<String> = Vec::new();
    assert(texts(r@) =~= Seq::empty());
    assert(texts(ps@).len() > 0);
    assert(texts(ps@)[0] == ps@[0]@);
    if text::starts_with(p, "/") {
        r.push("/".to_string());
    } else if text::same(ps[0].as_str(), ".") {
        r.push(".".to_string());
    }
    let ghost head = texts(r@);
    proof {
        assert(has_prefix(p@, "/"@) == (p@.len() > 0 && p@[0] == '/')) by {
            if p@.len() > 0 {
                assert(p@.take(1) =~= seq![p@[0]]);
                assert(seq![p@[0]][0] == p@[0] && "/"@[0] == '/');
            }
        }
        assert(naming(texts(ps@).take(0)) =~= Seq::empty());
        assert(head + naming(texts(ps@).take(0)) =~= head);
    }
    for i in 0..ps.len()
        invariant
            texts(r@) == head + naming(texts(ps@).take(i as int)),
            "."@ == seq!['.'],
    {
        let piece = &ps[i];
        proof {
            let t = texts(ps@).take(i + 1);
            assert(t.drop_last() =~= texts(ps@).take(i as int));
            assert(t.last() == piece@);
        }
        if !piece.as_str().is_empty() && !text::same(piece.as_str(), ".") {
            r.push(piece.clone());
            assert(texts(r@) =~= head + naming(texts(ps@).take(i as int)).push(piece@));
        }
    }
    assert(texts(ps@).take(ps@.len() as int) =~= texts(ps@));
    assert(texts(r@) =~= components(p@));
    r
}

/// Whether `p` lies at or below `base`.
pub fn starts_with(p: &str, base: &str) -> (r: bool)
    ensures
        r == within(p@, base@),
{
    let ps = split(p);
    let bs = split(base);
    if bs.len() > ps.len() {
        return false;
    }
    for i in 0..bs.len()
        invariant
            bs@.len() <= ps@.len(),
            texts(ps@) == components(p@),
            texts(bs@) == components(base@),
            texts(ps@).take(i as int) == texts(bs@).take(i as int),
    {
        if ps[i] != bs[i] {
            proof {
                assert(texts(ps@).take(bs@.len() as int)[i as int] == ps@[i as int]@);
                assert(texts(bs@)[i as int] == bs@[i as int]@);
            }
            return false;
        }
        assert(texts(ps@).take(i + 1) =~= texts(ps@).take(i as int).push(ps@[i as int]@));
        assert(texts(bs@).take(i + 1) =~= texts(bs@).take(i as int).push(bs@[i as int]@));
    }
    assert(texts(bs@).take(bs@.len() as int) =~= texts(bs@));
    true
}

/// Whether two paths have the same components.
pub fn same(a: &str, b: &str) -> (r: bool)
    ensures
        r == (components(a@) == components(b@)),
{
    let n = split(a).len();
    let m = split(b).len();
    assert(components(a@).take(components(a@).len() as int) =~= components(a@));
    n == m && starts_with(a, b)
}

/// The last component of a path, where it is a plain name.
pub fn file_name(p: &str) -> (r: Option<String>)
    ensures
        text::opt_text(r) == last_name(p@),
{
    proof {
        reveal_strlit("/");
        reveal_strlit(".");
        reveal_strlit("..");
        assert("/"@ =~= seq!['/']);
        assert("."@ =~= seq!['.']);
        assert(".."@ =~= seq!['.', '.']);
    }
    let cs = split(p);
    if cs.len() == 0 {
        return None;
    }
    let last = &cs[cs.len() - 1];
    assert(components(p@).last() == last@);
    if text::same(last.as_str(), "/") || text::same(last.as_str(), ".") || text::same(
        last.as_str(),
        "..",
    ) {
        None
    } else {
        Some(last.clone())
    }
}

/// The path of all components but the last.
pub fn parent(p: &str) -> (r: Option<String>)
    ensures
        text::opt_text(r) == parent_of(p@),
{
    proof {
        reveal_strlit("/");
        assert("/"@ =~= seq!['/']);
    }
    let mut cs = split(p);
    if cs.len() == 0 || text::same(cs[cs.len() - 1].as_str(), "/") {
        assert(cs@.len() > 0 ==> components(p@).last() == cs@.last()@);
        return None;
    }
    assert(components(p@).last() == cs@.last()@);
    let ghost all = cs@;
    cs.pop();
    assert(texts(cs@) =~= components(p@).drop_last());
    if cs.len() > 0 && text::same(cs[0].as_str(), "/") {
        let rest = vstd::slice::slice_subrange(cs.as_slice(), 1, cs.len());
        assert(texts(rest@) =~= texts(cs@).skip(1));
        assert(texts(cs@)[0] == cs@[0]@);
        Some("/".to_string().concat(text::join(rest, "/").as_str()))
    } else {
        assert(cs@.len() > 0 ==> texts(cs@)[0] == cs@[0]@);
        Some(text::join(cs.as_slice(), "/"))
    }
}

/// The pieces behind a further slash.
proof fn lemma_pieces_push(a: Seq<char>, b: Seq<char>)
    requires
        !b.contains('/'),
    ensures
        pieces(a + seq!['/'] + b, '/') == pieces(a, '/').push(b),
    decreases a.len(),
{
    let s = a + seq!['/'] + b;
    text::lemma_index_in(s, '/');
    text::lemma_index_in(a, '/');
    let i = text::index_in(a, '/') as int;
    let j = text::index_in(s, '/') as int;
    assert(s[a.len() as int] == '/');
    if i < a.len() {
        assert(s[i] == a[i]);
        if j < i {
            assert(s[j] == a[j]);
        }
        assert(j == i);
        assert(s.take(j) =~= a.take(i));
        assert(s.skip(j + 1) =~= a.skip(i + 1) + seq!['/'] + b);
        lemma_pieces_push(a.skip(i + 1), b);
        assert(pieces(s, '/') =~= pieces(a, '/').push(b));
    } else {
        if j < a.len() {
            assert(s[j] == a[j]);
        }
        assert(j == a.len());
        assert(s.take(j) =~= a);
        assert(s.skip(j + 1) =~= b);
        text::lemma_index_in(b, '/');
        if text::index_in(b, '/') < b.len() {
            assert(b.contains(b[text::index_in(b, '/') as int]));
        }
        assert(pieces(b, '/') =~= seq![b]);
        assert(pieces(s, '/') =~= pieces(a, '/').push(b));
    }
}

/// A plain name: not empty, not `.`, without a slash.
pub open spec fn plain_name(s: Seq<char>) -> bool {
    s.len() > 0 && s != seq!['.'] && !s.contains('/')
}

/// The pieces of names that are joined by slashes.
proof fn lemma_pieces_joined(parts: Seq<Seq<char>>)
    requires
        parts.len() > 0,
        forall|i: int| 0 <= i < parts.len() ==> !(#[trigger] parts[i]).contains('/'),
    ensures
        pieces(joined(parts, "/"@), '/') == parts,
    decreases parts.len(),
{
    reveal_strlit("/");
    assert("/"@ =~= seq!['/']);
    if parts.len() == 1 {
        let b = parts[0];
        text::lemma_index_in(b, '/');
        if text::index_in(b, '/') < b.len() {
            assert(b.contains(b[text::index_in(b, '/') as int]));
        }
        assert(pieces(b, '/') =~= parts);
    } else {
        let init = parts.drop_last();
        assert forall|i: int| 0 <= i < init.len() implies !(#[trigger] init[i]).contains('/') by {
            assert(init[i] == parts[i]);
        }
        lemma_pieces_joined(init);
        assert(!parts[parts.len() - 1].contains('/'));
        lemma_pieces_push(joined(init, "/"@), parts.last());
        assert(init.push(parts.last()) =~= parts);
    }
}

/// Plain names all name something.
proof fn lemma_naming_plain(parts: Seq<Seq<char>>)
    requires
        forall|i: int| 0 <= i < parts.len() ==> plain_name(#[trigger] parts[i]),
    ensures
        naming(parts) == parts,
    decreases parts.len(),
{
    if parts.len() > 0 {
        let init = parts.drop_last();
        assert forall|i: int| 0 <= i < init.len() implies plain_name(#[trigger] init[i]) by {
            assert(init[i] == parts[i]);
        }
        lemma_naming_plain(init);
        assert(plain_name(parts[parts.len() - 1]));
        assert(init.push(parts.last()) =~= parts);
    }
}

/// The pieces hold no slash.
proof fn lemma_pieces_clean(s: Seq<char>)
    ensures
        forall|i: int| 0 <= i < pieces(s, '/').len() ==> !(#[trigger] pieces(s, '/')[i]).contains('/'),
    decreases s.len(),
{
    text::lemma_index_in(s, '/');
    let i = text::index_in(s, '/') as int;
    if i < s.len() {
        lemma_pieces_clean(s.skip(i + 1));
    }
    assert forall|k: int| 0 <= k < pieces(s, '/').len() implies !(#[trigger] pieces(s, '/')[k]).contains(
        '/',
    ) by {
        let p = pieces(s, '/')[k];
        if i >= s.len() {
            if p.contains('/') {
                let m = choose|m: int| 0 <= m < p.len() && p[m] == '/';
                assert(s[m] == '/');
            }
        } else if k == 0 {
            if p.contains('/') {
                let m = choose|m: int| 0 <= m < p.len() && p[m] == '/';
                assert(s[m] == '/');
            }
        } else {
            assert(p == pieces(s.skip(i + 1), '/')[k - 1]);
        }
    }
}

/// What names something among clean pieces is a plain name.
proof fn lemma_naming_clean(ps: Seq<Seq<char>>)
    requires
        forall|i: int| 0 <= i < ps.len() ==> !(#[trigger] ps[i]).contains('/'),
    ensures
        forall|i: int| 0 <= i < naming(ps).len() ==> plain_name(#[trigger] naming(ps)[i]),
    decreases ps.len(),
{
    if ps.len() > 0 {
        let init = ps.drop_last();
        assert forall|i: int| 0 <= i < init.len() implies !(#[trigger] init[i]).contains('/') by {
            assert(init[i] == ps[i]);
        }
        lemma_naming_clean(init);
        assert(!ps[ps.len() - 1].contains('/'));
        assert forall|i: int| 0 <= i < naming(ps).len() implies plain_name(#[trigger] naming(ps)[i]) by {
            if i < naming(init).len() {
                assert(naming(ps)[i] == naming(init)[i]);
            }
        }
    }
}

/// Naming parts one by one.
proof fn lemma_naming_front(ps: Seq<Seq<char>>)
    requires
        ps.len() > 0,
        ps[0].len() == 0 || ps[0] == seq!['.'],
    ensures
        naming(ps) == naming(ps.skip(1)),
    decreases ps.len(),
{
    if ps.len() == 1 {
        assert(ps.drop_last() =~= Seq::empty());
        assert(ps.skip(1) =~= Seq::empty());
    } else {
        lemma_naming_front(ps.drop_last());
        assert(ps.drop_last().skip(1) =~= ps.skip(1).drop_last());
        assert(ps.skip(1).last() == ps.last());
    }
}

/// The components of a path that is assembled from an optional root or leading
/// `.` and plain names.
proof fn lemma_components_assembled(head: Seq<Seq<char>>, rest: Seq<Seq<char>>)
    requires
        head.len() == 0 || head == seq![seq!['/']] || head == seq![seq!['.']],
        forall|i: int| 0 <= i < rest.len() ==> plain_name(#[trigger] rest[i]),
    ensures
        components(assembled(head + rest)) == head + rest,
{
    reveal_strlit("/");
    assert("/"@ =~= seq!['/']);
    let cs = head + rest;
    let p = assembled(cs);
    lemma_naming_plain(rest);
    assert forall|i: int| 0 <= i < rest.len() implies !(#[trigger] rest[i]).contains('/') by {
        assert(plain_name(rest[i]));
    }
    let root = seq!['/'];
    let dot = seq!['.'];
    assert(root != dot) by {
        assert(root[0] != dot[0]);
    }
    if head.len() == 0 {
        assert(cs =~= rest);
        if rest.len() == 0 {
            assert(pieces(p, '/') =~= seq![p]);
            assert(naming(pieces(p, '/').drop_last()) =~= Seq::empty());
            assert(naming(pieces(p, '/')) =~= Seq::empty());
            assert(p != dot) by {
                assert(p.len() == 0);
            }
        } else {
            assert(plain_name(rest[0]));
            assert(rest[0] != root) by {
                assert(root.contains(root[0]));
            }
            lemma_pieces_joined(rest);
            lemma_joined_start(rest);
            assert(p[0] == rest[0][0]);
            assert(rest[0].contains(rest[0][0]));
        }
        assert(components(p) =~= cs);
    } else if head == seq![root] {
        assert(cs[0] == root);
        assert(cs.skip(1) =~= rest);
        let ps = pieces(p, '/');
        text::lemma_index_in(p, '/');
        assert(p[0] == '/');
        assert(text::index_in(p, '/') == 0);
        assert(p.take(0) =~= Seq::empty());
        assert(p.skip(1) =~= joined(rest, "/"@));
        assert(ps[0] =~= Seq::empty());
        assert(ps.skip(1) =~= pieces(joined(rest, "/"@), '/'));
        lemma_naming_front(ps);
        if rest.len() == 0 {
            let e = joined(rest, "/"@);
            assert(pieces(e, '/') =~= seq![e]);
            assert(naming(pieces(e, '/').drop_last()) =~= Seq::empty());
            assert(naming(pieces(e, '/')) =~= Seq::empty());
        } else {
            lemma_pieces_joined(rest);
        }
        assert(components(p) =~= cs);
    } else {
        assert(cs[0] == dot);
        assert forall|i: int| 0 <= i < cs.len() implies !(#[trigger] cs[i]).contains('/') by {
            if i > 0 {
                assert(cs[i] == rest[i - 1]);
            } else {
                assert(!dot.contains('/'));
            }
        }
        lemma_pieces_joined(cs);
        lemma_joined_start(cs);
        assert(p[0] == '.');
        lemma_naming_front(cs);
        assert(cs.skip(1) =~= rest);
        assert(components(p) =~= cs);
    }
}

/// Joined parts begin as the first of them does.
proof fn lemma_joined_start(parts: Seq<Seq<char>>)
    requires
        parts.len() > 0,
        parts[0].len() > 0,
    ensures
        joined(parts, "/"@).len() > 0,
        joined(parts, "/"@)[0] == parts[0][0],
    decreases parts.len(),
{
    if parts.len() > 1 {
        lemma_joined_start(parts.drop_last());
    }
}

/// Law: the parent of a path has all its components but the last.
pub proof fn law_parent_drops_one_component(p: Seq<char>)
    ensures
        parent_of(p) matches Some(dir) ==> components(dir) == components(p).drop_last(),
{
    let ps = pieces(p, '/');
    let cs = components(p);
    lemma_pieces_clean(p);
    lemma_naming_clean(ps);
    let names = naming(ps);
    if parent_of(p) is Some {
        if names.len() == 0 {
            assert(cs.drop_last() =~= Seq::empty());
            lemma_components_assembled(Seq::empty(), Seq::empty());
            assert(Seq::<Seq<char>>::empty() + Seq::<Seq<char>>::empty() =~= Seq::<Seq<char>>::empty());
        } else {
            let rest = names.drop_last();
            assert forall|i: int| 0 <= i < rest.len() implies plain_name(#[trigger] rest[i]) by {
                assert(rest[i] == names[i]);
            }
            let head = if p.len() > 0 && p[0] == '/' {
                seq![seq!['/']]
            } else if ps[0] == seq!['.'] {
                seq![seq!['.']]
            } else {
                Seq::empty()
            };
            assert(cs.drop_last() =~= head + rest);
            lemma_components_assembled(head, rest);
        }
    }
}

/// Law: an absolute path stands for itself wherever it is put; any other is
/// appended to the base, behind a slash unless the base is empty or ends with
/// one.
pub proof fn law_joining_appends(base: Seq<char>, rel: Seq<char>)
    ensures
        rel.len() > 0 && rel[0] == '/' ==> below(base, rel) == rel,
        !(rel.len() > 0 && rel[0] == '/') ==> {
            &&& has_prefix(below(base, rel), base)
            &&& text::has_suffix(below(base, rel), rel)
            &&& base.len() > 0 && base.last() != '/' ==> below(base, rel).len() == base.len() + 1 + rel.len()
                && below(base, rel)[base.len() as int] == '/'
            &&& base.len() == 0 || base.last() == '/' ==> below(base, rel).len() == base.len() + rel.len()
        },
{
    if !(rel.len() > 0 && rel[0] == '/') {
        let r = below(base, rel);
        assert(r.take(base.len() as int) =~= base);
        assert(r.skip(r.len() - rel.len()) =~= rel);
    }
}

/// The pieces of a path that name something.
pub open spec fn naming_at(ps: Seq<Seq<char>>) -> spec_fn(int, Seq<char>) -> bool {
    |i: int, c: Seq<char>| c == ps[i] && c.len() > 0 && c != seq!['.']
}

/// The naming ones of the first pieces.
proof fn lemma_naming(ps: Seq<Seq<char>>, n: int)
    requires
        0 <= n <= ps.len(),
    ensures
        picks(n, naming_at(ps), naming(ps.take(n))),
    decreases n,
{
    let p = naming_at(ps);
    if n == 0 {
        assert(ps.take(0) =~= Seq::empty());
        picks::lemma_pick_start(p);
    } else {
        lemma_naming(ps, n - 1);
        assert(ps.take(n).drop_last() =~= ps.take(n - 1));
        let before = naming(ps.take(n - 1));
        if ps[n - 1].len() > 0 && ps[n - 1] != seq!['.'] {
            assert(p(n - 1, ps[n - 1]));
            picks::lemma_pick_one(n - 1, p, before, ps[n - 1]);
        } else {
            picks::lemma_pick_none(n - 1, p, before);
        }
    }
}

/// Law: the components of a path are the root where it is absolute, a leading
/// dot where it has one, and then all pieces between slashes but the empty ones
/// and the dots.
pub proof fn law_components_are_what_slashes_separate(p: Seq<char>)
    ensures
        ({
            let ps = pieces(p, '/');
            let absolute = p.len() > 0 && p[0] == '/';
            let dotted = !absolute && ps[0] == seq!['.'];
            let rest = components(p).skip(
                if absolute || dotted {
                    1
                } else {
                    0
                },
            );
            &&& absolute ==> components(p).len() > 0 && components(p)[0] == seq!['/']
            &&& dotted ==> components(p).len() > 0 && components(p)[0] == seq!['.']
            &&& picks(ps.len() as int, naming_at(ps), rest)
        }),
{
    let ps = pieces(p, '/');
    lemma_naming(ps, ps.len() as int);
    assert(ps.take(ps.len() as int) =~= ps);
    assert(components(p).skip(0) =~= components(p));
    assert((seq![seq!['/']] + naming(ps)).skip(1) =~= naming(ps));
    assert((seq![seq!['.']] + naming(ps)).skip(1) =~= naming(ps));
}

/// The pieces on both sides of a slash.
proof fn lemma_pieces_halves(a: Seq<char>, b: Seq<char>)
    ensures
        pieces(a + seq!['/'] + b, '/') == pieces(a, '/') + pieces(b, '/'),
    decreases a.len(),
{
    let s = a + seq!['/'] + b;
    text::lemma_index_in(s, '/');
    text::lemma_index_in(a, '/');
    let i = text::index_in(a, '/') as int;
    let j = text::index_in(s, '/') as int;
    assert(s[a.len() as int] == '/');
    if i < a.len() {
        assert(s[i] == a[i]);
        if j < i {
            assert(s[j] == a[j]);
        }
        assert(s.take(j) =~= a.take(i));
        assert(s.skip(j + 1) =~= a.skip(i + 1) + seq!['/'] + b);
        lemma_pieces_halves(a.skip(i + 1), b);
        assert(pieces(s, '/') =~= pieces(a, '/') + pieces(b, '/'));
    } else {
        if j < a.len() {
            assert(s[j] == a[j]);
        }
        assert(s.take(j) =~= a);
        assert(s.skip(j + 1) =~= b);
        assert(pieces(s, '/') =~= pieces(a, '/') + pieces(b, '/'));
    }
}

/// The naming ones of two lists of pieces.
proof fn lemma_naming_halves(a: Seq<Seq<char>>, b: Seq<Seq<char>>)
    ensures
        naming(a + b) == naming(a) + naming(b),
    decreases b.len(),
{
    if b.len() == 0 {
        assert(a + b =~= a);
        assert(naming(a) + naming(b) =~= naming(a));
    } else {
        assert((a + b).drop_last() =~= a + b.drop_last());
        assert((a + b).last() == b.last());
        lemma_naming_halves(a, b.drop_last());
        assert(naming(a + b) =~= naming(a) + naming(b));
    }
}

/// The components of a path with a relative path behind a slash.
proof fn lemma_components_halves(a: Seq<char>, b: Seq<char>)
    requires
        a.len() > 0,
    ensures
        components(a + seq!['/'] + b) == components(a) + naming(pieces(b, '/')),
{
    let s = a + seq!['/'] + b;
    lemma_pieces_halves(a, b);
    lemma_naming_halves(pieces(a, '/'), pieces(b, '/'));
    text::law_pieces_rejoin(a, '/');
    assert(s[0] == a[0]);
    assert(pieces(s, '/')[0] == pieces(a, '/')[0]);
    assert(components(s) =~= components(a) + naming(pieces(b, '/')));
}

/// Law: what is put below a directory lies within it, its components are those
/// of the directory and then its own, and a plain name becomes the last of them.
pub proof fn law_what_is_put_below_lies_within(base: Seq<char>, rel: Seq<char>)
    requires
        base.len() > 0,
        rel.len() == 0 || rel[0] != '/',
    ensures
        within(below(base, rel), base),
        components(below(base, rel)) == components(base) + naming(pieces(rel, '/')),
        plain_name(rel) ==> components(below(base, rel)) == components(base).push(rel),
        plain_name(rel) && rel != seq!['.', '.'] ==> last_name(below(base, rel)) == Some(rel),
{
    if base.last() == '/' {
        let a = base.drop_last();
        assert(below(base, rel) =~= a + seq!['/'] + rel);
        if a.len() > 0 {
            lemma_components_halves(a, rel);
            lemma_components_halves(a, Seq::empty());
            assert(base =~= a + seq!['/'] + Seq::<char>::empty());
            lemma_nothing_named();
            assert(components(base) =~= components(a));
        } else {
            lemma_pieces_halves(a, rel);
            lemma_pieces_halves(a, Seq::empty());
            assert(base =~= a + seq!['/'] + Seq::<char>::empty());
            lemma_naming_halves(pieces(a, '/'), pieces(rel, '/'));
            lemma_naming_halves(pieces(a, '/'), pieces(Seq::empty(), '/'));
            lemma_nothing_named();
            assert(a =~= Seq::<char>::empty());
            assert(below(base, rel)[0] == '/');
            assert(components(below(base, rel)) =~= seq![seq!['/']] + naming(pieces(rel, '/')));
            assert(components(base) =~= seq![seq!['/']]);
        }
    } else {
        assert(below(base, rel) =~= base + seq!['/'] + rel);
        lemma_components_halves(base, rel);
    }
    let cs = components(below(base, rel));
    assert(cs.take(components(base).len() as int) =~= components(base));
    if plain_name(rel) {
        text::lemma_index_in(rel, '/');
        if text::index_in(rel, '/') < rel.len() {
            assert(rel.contains(rel[text::index_in(rel, '/') as int]));
        }
        assert(pieces(rel, '/') =~= seq![rel]);
        lemma_naming_plain(seq![rel]);
        assert(cs =~= components(base).push(rel));
        if rel == seq!['/'] {
            assert(rel[0] == '/');
            assert(seq!['/'][0] == '/');
        }
    }
}

/// The empty path names nothing.
proof fn lemma_nothing_named()
    ensures
        naming(pieces(Seq::empty(), '/')) == Seq::<Seq<char>>::empty(),
{
    let e = Seq::<char>::empty();
    text::lemma_index_in(e, '/');
    assert(pieces(e, '/') =~= seq![e]);
    assert(seq![e].drop_last() =~= Seq::empty());
    assert(naming(seq![e]) == naming(seq![e].drop_last()));
}

/// Law: a path lies within another if and only if it has all components of it,
/// in the same places.
pub proof fn law_within_is_by_components(p: Seq<char>, base: Seq<char>)
    ensures
        within(p, base) <==> components(base).len() <= components(p).len() && forall|i: int|
            0 <= i < components(base).len() ==> #[trigger] components(base)[i] == components(p)[i],
{
    let n = components(base).len() as int;
    if within(p, base) {
        assert forall|i: int| 0 <= i < n implies #[trigger] components(base)[i] == components(p)[i] by {
            assert(components(p).take(n)[i] == components(p)[i]);
        }
    } else if n <= components(p).len() && forall|i: int|
        0 <= i < n ==> #[trigger] components(base)[i] == components(p)[i] {
        assert(components(p).take(n) =~= components(base));
    }
}

/// Law: the last name of a path is its last component, unless that is the root,
/// a dot or two dots; the parent is missing for the root and the empty path only.
pub proof fn law_last_names_are_plain(p: Seq<char>)
    ensures
        ({
            let cs = components(p);
            &&& last_name(p) is None <==> cs.len() == 0 || cs.last() == seq!['/'] || cs.last() == seq!['.']
                || cs.last() == seq!['.', '.']
            &&& last_name(p) matches Some(n) ==> n == cs.last()
            &&& parent_of(p) is None <==> cs.len() == 0 || cs.last() == seq!['/']
        }),
{
}

/// Law: the parent of a path of plain names, absolute or not, is the path of all
/// of them but the last.
pub proof fn law_parents_are_shorter_paths(names: Seq<Seq<char>>)
    requires
        names.len() > 0,
        forall|i: int| 0 <= i < names.len() ==> plain_name(#[trigger] names[i]),
    ensures
        parent_of(seq!['/'] + joined(names, "/"@)) == Some(seq!['/'] + joined(names.drop_last(), "/"@)),
        parent_of(joined(names, "/"@)) == Some(joined(names.drop_last(), "/"@)),
{
    let root = seq![seq!['/']];
    let none = Seq::<Seq<char>>::empty();
    let last = names.last();
    assert(plain_name(names[names.len() - 1]));
    assert(last != seq!['/']) by {
        if last == seq!['/'] {
            assert(last[0] == '/');
            assert(last.contains(last[0]));
        }
    }
    lemma_components_assembled(root, names);
    assert((root + names).skip(1) =~= names);
    assert(assembled(root + names) == seq!['/'] + joined(names, "/"@));
    assert((root + names).last() == last);
    assert((root + names).drop_last() =~= root + names.drop_last());
    assert((root + names.drop_last()).skip(1) =~= names.drop_last());
    lemma_components_assembled(none, names);
    assert(none + names =~= names);
    assert(names[0] != seq!['/']) by {
        assert(plain_name(names[0]));
        if names[0] == seq!['/'] {
            assert(names[0][0] == '/');
            assert(names[0].contains(names[0][0]));
        }
    }
    assert(assembled(names) == joined(names, "/"@));
    if names.len() > 1 {
        assert(names.drop_last()[0] == names[0]);
    }
    assert(assembled(names.drop_last()) == joined(names.drop_last(), "/"@));
}

} // verus!
