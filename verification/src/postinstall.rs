//! Interpreter for declarative post-install steps.
//!
//! The formula index lists the steps as typed JSON (mkdir_p, symlink, run,
//! ...). They run after a keg is poured, linked and receipted. Failures are
//! reported as notes, never fatal: a half-working tool the user can see beats
//! a nuked keg.

use vstd::prelude::*;

use crate::ctx::Ctx;
use crate::json::{models, Json, JsonV};
use crate::path;
use crate::path::below;
use crate::text;
use crate::text::{has_part, index_in, pieces, replaced, texts, until};

verus! {

broadcast use text::lemma_texts_push;

/// What the steps of one keg are read against.
pub struct StepCtx<'a> {
    pub ctx: &'a Ctx,
    pub name: &'a str,
    pub version: &'a str,
}

/// `s` after replacing the first text of each pair by the second, one pair
/// after the other.
pub open spec fn rewritten(s: Seq<char>, pairs: Seq<(Seq<char>, Seq<char>)>) -> Seq<char>
    decreases pairs.len(),
{
    if pairs.len() == 0 {
        s
    } else {
        replaced(rewritten(s, pairs.drop_last()), pairs.last().0, pairs.last().1)
    }
}

/// A version without the revision behind an underscore.
pub open spec fn bare(version: Seq<char>) -> Seq<char> {
    until(version, "_"@)
}

/// The first two parts of a dotted version, as far as it has them.
pub open spec fn major_minor(version: Seq<char>) -> Seq<char> {
    let ps = pieces(version, '.');
    if ps.len() < 2 {
        ps[0]
    } else {
        ps[0] + "."@ + ps[1]
    }
}

impl StepCtx<'_> {
    /// The keg that the steps belong to.
    pub open spec fn keg_dir(self) -> Seq<char> {
        self.ctx.keg_dir(self.name@, self.version@)
    }

    /// The link to the current keg of the formula.
    pub open spec fn opt_link(self) -> Seq<char> {
        below(self.ctx.opt_dir(), self.name@)
    }

    /// The template variables with their values, in the order in which they
    /// are replaced.
    pub open spec fn variables(self) -> Seq<(Seq<char>, Seq<char>)> {
        let keg = self.keg_dir();
        let prefix = self.ctx.prefix@;
        let version = bare(self.version@);
        seq![
            ("{{prefix}}"@, keg),
            ("{{opt_prefix}}"@, self.opt_link()),
            ("{{bin}}"@, keg + "/bin"@),
            ("{{lib}}"@, keg + "/lib"@),
            ("{{libexec}}"@, keg + "/libexec"@),
            ("{{share}}"@, keg + "/share"@),
            ("{{include}}"@, keg + "/include"@),
            ("{{pkgshare}}"@, keg + "/share/"@ + self.name@),
            ("{{pkgetc}}"@, prefix + "/etc/"@ + self.name@),
            ("{{etc}}"@, prefix + "/etc"@),
            ("{{var}}"@, prefix + "/var"@),
            ("{{HOMEBREW_PREFIX}}"@, prefix),
            ("{{HOMEBREW_CELLAR}}"@, self.ctx.cellar_dir()),
            ("{{formula_name}}"@, self.name@),
            ("{{version.major_minor}}"@, major_minor(version)),
            ("{{version.major}}"@, until(version, "."@)),
            ("{{version}}"@, version),
        ]
    }

    /// `s` with all template variables expanded.
    pub open spec fn expanded(self, s: Seq<char>) -> Seq<char> {
        rewritten(s, self.variables())
    }

    /// The directory that a named base stands for.
    pub open spec fn base_dir(self, base: Seq<char>) -> Seq<char> {
        let keg = self.keg_dir();
        let prefix = self.ctx.prefix@;
        if base == "prefix"@ {
            keg
        } else if base == "opt_prefix"@ {
            self.opt_link()
        } else if base == "homebrew_prefix"@ {
            prefix
        } else if base == "var"@ {
            below(prefix, "var"@)
        } else if base == "etc"@ {
            below(prefix, "etc"@)
        } else if base == "pkgshare"@ {
            below(below(keg, "share"@), self.name@)
        } else if base == "frameworks"@ {
            below(keg, "Frameworks"@)
        } else {
            below(keg, base)
        }
    }

    /// The path that a `{base, path}` object stands for; none where it has
    /// neither.
    pub open spec fn location(self, v: JsonV) -> Option<Seq<char>> {
        match (v.str_at("base"@), v.str_at("path"@)) {
            (None, Some(p)) => Some(self.expanded(p)),
            (Some(b), Some(p)) => Some(below(self.base_dir(b), self.expanded(p))),
            (Some(b), None) => Some(self.base_dir(b)),
            (None, None) => None,
        }
    }

    /// The path that the member `key` of an object stands for.
    pub open spec fn location_at(self, v: JsonV, key: Seq<char>) -> Option<Seq<char>> {
        match v.get(key) {
            Some(place) => self.location(place),
            None => None,
        }
    }

    /// The keg that the steps belong to.
    pub fn keg(&self) -> (r: String)
        ensures
            r@ == self.keg_dir(),
    {
        self.ctx.keg(self.name, self.version)
    }

    /// The template variables with their values.
    fn substitutions(&self) -> (r: Vec<(&'static str, String)>)
        ensures
            r@.len() == self.variables().len(),
            forall|i: int|
                0 <= i < r@.len() ==> (#[trigger] r@[i]).0@ == self.variables()[i].0 && r@[i].1@
                    == self.variables()[i].1,
    {
        let keg = self.keg();
        let prefix = &self.ctx.prefix;
        let version = text::before(self.version, "_");
        let parts = text::split(version.as_str(), '.');
        assert(texts(parts@).len() > 0 && texts(parts@)[0] == parts@[0]@);
        let minor = if parts.len() < 2 {
            parts[0].clone()
        } else {
            assert(texts(parts@)[1] == parts@[1]@);
            parts[0].clone().concat(".").concat(parts[1].as_str())
        };
        let mut r: Vec<(&'static str, String)> = Vec::new();
        r.push(("{{prefix}}", keg.clone()));
        r.push(("{{opt_prefix}}", path::join(self.ctx.opt().as_str(), self.name)));
        r.push(("{{bin}}", keg.clone().concat("/bin")));
        r.push(("{{lib}}", keg.clone().concat("/lib")));
        r.push(("{{libexec}}", keg.clone().concat("/libexec")));
        r.push(("{{share}}", keg.clone().concat("/share")));
        r.push(("{{include}}", keg.clone().concat("/include")));
        r.push(("{{pkgshare}}", keg.clone().concat("/share/").concat(self.name)));
        r.push(("{{pkgetc}}", prefix.clone().concat("/etc/").concat(self.name)));
        r.push(("{{etc}}", prefix.clone().concat("/etc")));
        r.push(("{{var}}", prefix.clone().concat("/var")));
        r.push(("{{HOMEBREW_PREFIX}}", prefix.clone()));
        r.push(("{{HOMEBREW_CELLAR}}", self.ctx.cellar()));
        r.push(("{{formula_name}}", self.name.to_string()));
        r.push(("{{version.major_minor}}", minor));
        r.push(("{{version.major}}", text::before(version.as_str(), ".")));
        r.push(("{{version}}", version));
        r
    }

    /// Expands the template variables in `s`.
    pub fn template(&self, s: &str) -> (r: String)
        ensures
            r@ == self.expanded(s@),
    {
        let subs = self.substitutions();
        let ghost vars = self.variables();
        let mut r = s.to_string();
        assert(vars.take(0) =~= Seq::empty());
        for i in 0..subs.len()
            invariant
                vars == self.variables(),
                subs@.len() == vars.len(),
                forall|k: int|
                    0 <= k < subs@.len() ==> (#[trigger] subs@[k]).0@ == vars[k].0 && subs@[k].1@
                        == vars[k].1,
                r@ == rewritten(s@, vars.take(i as int)),
        {
            r = text::replace(r.as_str(), subs[i].0, subs[i].1.as_str());
            proof {
                let now = vars.take(i + 1);
                assert(now.drop_last() =~= vars.take(i as int));
                assert(now.last() == vars[i as int]);
            }
        }
        assert(vars.take(vars.len() as int) =~= vars);
        r
    }

    /// The directory that a named base stands for.
    fn root(&self, base: &str) -> (r: String)
        ensures
            r@ == self.base_dir(base@),
    {
        let keg = self.keg();
        let prefix = self.ctx.prefix.as_str();
        if text::same(base, "prefix") {
            keg
        } else if text::same(base, "opt_prefix") {
            path::join(self.ctx.opt().as_str(), self.name)
        } else if text::same(base, "homebrew_prefix") {
            prefix.to_string()
        } else if text::same(base, "var") {
            path::join(prefix, "var")
        } else if text::same(base, "etc") {
            path::join(prefix, "etc")
        } else if text::same(base, "pkgshare") {
            path::join(path::join(keg.as_str(), "share").as_str(), self.name)
        } else if text::same(base, "frameworks") {
            path::join(keg.as_str(), "Frameworks")
        } else {
            path::join(keg.as_str(), base)
        }
    }

    /// Resolves a `{base, path}` object.
    pub fn loc(&self, v: &Json) -> (r: Option<String>)
        ensures
            text::opt_text(r) == self.location(v@),
    {
        match (v.str_at("base"), v.str_at("path")) {
            (None, Some(p)) => Some(self.template(p)),
            (Some(b), Some(p)) => Some(
                path::join(self.root(b).as_str(), self.template(p).as_str()),
            ),
            (Some(b), None) => Some(self.root(b)),
            (None, None) => None,
        }
    }

    /// Resolves the `{base, path}` object that is the member `key`.
    pub fn loc_at(&self, v: &Json, key: &str) -> (r: Option<String>)
        ensures
            text::opt_text(r) == self.location_at(v@, key@),
    {
        match v.get(key) {
            Some(place) => self.loc(place),
            None => None,
        }
    }
}

/// Law: text without a double opening brace holds no template variable and is
/// kept as it is.
pub proof fn law_plain_text_is_not_expanded(sc: StepCtx<'_>, s: Seq<char>)
    requires
        !has_part(s, "{{"@),
    ensures
        sc.expanded(s) == s,
{
    reveal_strlit("{{");
    reveal_strlit("{{prefix}}");
    reveal_strlit("{{opt_prefix}}");
    reveal_strlit("{{bin}}");
    reveal_strlit("{{lib}}");
    reveal_strlit("{{libexec}}");
    reveal_strlit("{{share}}");
    reveal_strlit("{{include}}");
    reveal_strlit("{{pkgshare}}");
    reveal_strlit("{{pkgetc}}");
    reveal_strlit("{{etc}}");
    reveal_strlit("{{var}}");
    reveal_strlit("{{HOMEBREW_PREFIX}}");
    reveal_strlit("{{HOMEBREW_CELLAR}}");
    reveal_strlit("{{formula_name}}");
    reveal_strlit("{{version.major_minor}}");
    reveal_strlit("{{version.major}}");
    reveal_strlit("{{version}}");
    assert forall|i: int| 0 <= i < sc.variables().len() implies braced((#[trigger] sc.variables()[i]).0) by {}
    lemma_not_rewritten(s, sc.variables());
}

/// `key` begins with two opening braces.
spec fn braced(key: Seq<char>) -> bool {
    key.len() > 2 && key[0] == '{' && key[1] == '{'
}

proof fn lemma_not_rewritten(s: Seq<char>, pairs: Seq<(Seq<char>, Seq<char>)>)
    requires
        !has_part(s, "{{"@),
        forall|i: int| 0 <= i < pairs.len() ==> braced((#[trigger] pairs[i]).0),
    ensures
        rewritten(s, pairs) == s,
    decreases pairs.len(),
{
    if pairs.len() > 0 {
        lemma_not_rewritten(s, pairs.drop_last());
        let key = pairs.last().0;
        assert(braced(pairs[pairs.len() - 1].0));
        assert(!has_part(s, key)) by {
            if has_part(s, key) {
                reveal_strlit("{{");
                let i = choose|i: int| text::occurs_at(s, key, i);
                assert(s.subrange(i, i + key.len())[0] == s[i]);
                assert(s.subrange(i, i + key.len())[1] == s[i + 1]);
                assert(s.subrange(i, i + 2) =~= "{{"@);
                assert(text::occurs_at(s, "{{"@, i));
            }
        }
        text::lemma_replaced_absent(s, key, pairs.last().1);
    }
}

/// `s` has a brace group: an opening brace, and the first closing brace
/// behind it.
pub open spec fn has_group(s: Seq<char>) -> bool {
    index_in(s, '{') < index_in(s, '}') < s.len()
}

/// `s` with its first brace group replaced by each of the alternatives in it.
pub open spec fn alternatives(s: Seq<char>) -> Seq<Seq<char>> {
    let open = index_in(s, '{') as int;
    let close = index_in(s, '}') as int;
    let alts = pieces(s.subrange(open + 1, close), ',');
    Seq::new(alts.len(), |i: int| s.take(open) + alts[i] + s.skip(close + 1))
}

/// All that the brace groups of `s` stand for, in order.
pub open spec fn expansion(s: Seq<char>) -> Seq<Seq<char>>
    decreases s.len() + 1, 0nat,
{
    if has_group(s) {
        expansions(s.len(), alternatives(s))
    } else {
        seq![s]
    }
}

/// All that the brace groups of several texts stand for, each of the texts
/// shorter than `bound`.
pub open spec fn expansions(bound: nat, ss: Seq<Seq<char>>) -> Seq<Seq<char>>
    decreases bound, ss.len(),
{
    if ss.len() == 0 {
        Seq::empty()
    } else if ss.last().len() >= bound {
        expansions(bound, ss.drop_last())
    } else {
        expansions(bound, ss.drop_last()) + expansion(ss.last())
    }
}

/// A piece is no longer than the whole.
proof fn lemma_pieces_fit(s: Seq<char>, c: char)
    ensures
        forall|i: int| 0 <= i < pieces(s, c).len() ==> (#[trigger] pieces(s, c)[i]).len() <= s.len(),
    decreases s.len(),
{
    text::lemma_index_in(s, c);
    let i = index_in(s, c) as int;
    if i < s.len() {
        lemma_pieces_fit(s.skip(i + 1), c);
        let rest = pieces(s.skip(i + 1), c);
        assert forall|k: int| 0 <= k < pieces(s, c).len() implies (#[trigger] pieces(s, c)[k]).len()
            <= s.len() by {
            if k > 0 {
                assert(pieces(s, c)[k] == rest[k - 1]);
            }
        }
    }
}

/// Putting in an alternative takes away the braces at least.
proof fn lemma_alternatives_shorter(s: Seq<char>)
    requires
        has_group(s),
    ensures
        forall|i: int|
            0 <= i < alternatives(s).len() ==> (#[trigger] alternatives(s)[i]).len() < s.len(),
{
    let open = index_in(s, '{') as int;
    let close = index_in(s, '}') as int;
    lemma_pieces_fit(s.subrange(open + 1, close), ',');
}

/// All that the brace groups of `s` stand for: `/m/{a,b}*` is `/m/a*` and
/// `/m/b*`.
pub fn brace_expand(s: &str) -> (r: Vec<String>)
    ensures
        texts(r@) == expansion(s@),
    decreases s@.len(),
{
    let cs = text::chars_of(s);
    assert(cs@.skip(0) =~= s@);
    let open = text::index_of(&cs, 0, '{');
    let close = text::index_of(&cs, 0, '}');
    let mut r: Vec<String> = Vec::new();
    assert(texts(r@) =~= Seq::empty());
    if open < close && close < cs.len() {
        let pre = text::part(&cs, 0, open);
        let inner = text::part(&cs, open + 1, close);
        let post = text::part(&cs, close + 1, cs.len());
        assert(pre@ =~= s@.take(open as int));
        assert(post@ =~= s@.skip(close + 1));
        let alts = text::split(inner.as_str(), ',');
        let ghost all = alternatives(s@);
        proof {
            lemma_alternatives_shorter(s@);
            assert(all.len() == alts@.len()) by {
                assert(texts(alts@).len() == alts@.len());
            }
            assert(expansions(s@.len(), all.take(0)) =~= Seq::empty());
        }
        for i in 0..alts.len()
            invariant
                all == alternatives(s@),
                all.len() == alts@.len(),
                has_group(s@),
                forall|k: int| 0 <= k < all.len() ==> (#[trigger] all[k]).len() < s@.len(),
                forall|k: int|
                    0 <= k < alts@.len() ==> #[trigger] all[k] == pre@ + texts(alts@)[k] + post@,
                texts(r@) == expansions(s@.len(), all.take(i as int)),
        {
            assert(texts(alts@)[i as int] == alts@[i as int]@);
            let with = pre.clone().concat(alts[i].as_str()).concat(post.as_str());
            assert(with@ == all[i as int]);
            let mut more = brace_expand(with.as_str());
            let ghost before = r@;
            let ghost added = more@;
            r.append(&mut more);
            proof {
                assert(texts(r@) =~= texts(before) + texts(added));
                let now = all.take(i + 1);
                assert(now.drop_last() =~= all.take(i as int));
                assert(now.last() == all[i as int]);
            }
        }
        assert(all.take(alts@.len() as int) =~= all);
        r
    } else {
        r.push(s.to_string());
        assert(texts(r@) =~= seq![s@]);
        r
    }
}

/// What several texts that are shorter than `bound` stand for is what each of
/// them stands for, one after the other.
proof fn lemma_expansions_flatten(bound: nat, ss: Seq<Seq<char>>)
    requires
        forall|i: int| 0 <= i < ss.len() ==> (#[trigger] ss[i]).len() < bound,
    ensures
        expansions(bound, ss) == ss.map_values(|t: Seq<char>| expansion(t)).flatten_alt(),
    decreases ss.len(),
{
    let all = ss.map_values(|t: Seq<char>| expansion(t));
    if ss.len() > 0 {
        let init = ss.drop_last();
        assert forall|i: int| 0 <= i < init.len() implies (#[trigger] init[i]).len() < bound by {
            assert(init[i] == ss[i]);
        }
        lemma_expansions_flatten(bound, init);
        assert(ss[ss.len() - 1].len() < bound);
        assert(all.drop_last() =~= init.map_values(|t: Seq<char>| expansion(t)));
        assert(all.last() == expansion(ss.last()));
    }
}

/// Law: an expansion is all that comes of putting each alternative in the
/// place of the first brace group, in order.
pub proof fn law_every_alternative_is_put_in(s: Seq<char>)
    requires
        has_group(s),
    ensures
        expansion(s) == alternatives(s).map_values(|t: Seq<char>| expansion(t)).flatten(),
{
    lemma_alternatives_shorter(s);
    lemma_expansions_flatten(s.len(), alternatives(s));
    alternatives(s).map_values(|t: Seq<char>| expansion(t)).lemma_flatten_and_flatten_alt_are_equivalent();
}

/// Law: what comes out of an expansion has no brace group left.
pub proof fn law_expansion_is_complete(s: Seq<char>, i: int)
    requires
        0 <= i < expansion(s).len(),
    ensures
        !has_group(expansion(s)[i]),
        expansion(expansion(s)[i]) == seq![expansion(s)[i]],
    decreases s.len() + 1, 0nat,
{
    if has_group(s) {
        lemma_expansions_complete(s.len(), alternatives(s), i);
    }
}

proof fn lemma_expansions_complete(bound: nat, ss: Seq<Seq<char>>, i: int)
    requires
        0 <= i < expansions(bound, ss).len(),
    ensures
        !has_group(expansions(bound, ss)[i]),
    decreases bound, ss.len(),
{
    let before = expansions(bound, ss.drop_last());
    if i < before.len() {
        lemma_expansions_complete(bound, ss.drop_last(), i);
    } else {
        law_expansion_is_complete(ss.last(), i - before.len());
    }
}

/// The paths, any of which makes a guard find its subject.
pub open spec fn guarded(sc: StepCtx<'_>, guard: JsonV) -> Seq<Seq<char>> {
    match guard.str_at("condition"@) {
        Some(c) => if c == "if_exists"@ || c == "unless_exists"@ {
            match sc.location(guard) {
                Some(p) => expansion(p),
                None => Seq::empty(),
            }
        } else {
            Seq::empty()
        },
        None => Seq::empty(),
    }
}

/// The guards of a step.
pub open spec fn guards(step: JsonV) -> Seq<JsonV> {
    match step.get("guards"@) {
        Some(g) => match g.as_array() {
            Some(items) => items,
            None => Seq::empty(),
        },
        None => Seq::empty(),
    }
}

/// All paths on which several guards depend.
pub open spec fn guarded_by(sc: StepCtx<'_>, gs: Seq<JsonV>) -> Seq<Seq<char>>
    decreases gs.len(),
{
    if gs.len() == 0 {
        Seq::empty()
    } else {
        guarded_by(sc, gs.drop_last()) + guarded(sc, gs.last())
    }
}

/// A guard lets its step run, given the paths that exist. Platform guards ask
/// for macOS; guards on existence that name no path, and guards of another
/// kind, pass.
pub open spec fn passes(sc: StepCtx<'_>, guard: JsonV, existing: Set<Seq<char>>) -> bool {
    match guard.str_at("condition"@) {
        Some(c) => if c == "on"@ {
            guard.str_at("value"@) == Some("macos"@)
        } else if c == "if_exists"@ {
            sc.location(guard) is Some ==> exists|i: int|
                0 <= i < guarded(sc, guard).len() && existing.contains(#[trigger] guarded(sc, guard)[i])
        } else if c == "unless_exists"@ {
            sc.location(guard) is Some ==> forall|i: int|
                0 <= i < guarded(sc, guard).len() ==> !existing.contains(#[trigger] guarded(sc, guard)[i])
        } else {
            true
        },
        None => true,
    }
}

/// All guards of a step pass.
pub open spec fn all_pass(sc: StepCtx<'_>, step: JsonV, existing: Set<Seq<char>>) -> bool {
    forall|i: int| 0 <= i < guards(step).len() ==> passes(sc, #[trigger] guards(step)[i], existing)
}

impl StepCtx<'_> {
    /// The paths, any of which makes a guard find its subject.
    fn guard_paths(&self, guard: &Json) -> (r: Vec<String>)
        ensures
            texts(r@) == guarded(*self, guard@),
    {
        let none: Vec<String> = Vec::new();
        assert(texts(none@) =~= Seq::empty());
        match guard.str_at("condition") {
            Some(c) => if text::same(c, "if_exists") || text::same(c, "unless_exists") {
                match self.loc(guard) {
                    Some(p) => brace_expand(p.as_str()),
                    None => none,
                }
            } else {
                none
            },
            None => none,
        }
    }

    /// The paths whose existence the guards of a step ask for.
    pub fn guard_candidates(&self, step: &Json) -> (r: Vec<String>)
        ensures
            texts(r@) == guarded_by(*self, guards(step@)),
    {
        let mut r: Vec<String> = Vec::new();
        assert(texts(r@) =~= Seq::empty());
        if let Some(g) = step.get("guards") {
            if let Some(items) = g.as_array() {
                let ghost gs = models(items@);
                assert(gs.take(0) =~= Seq::empty());
                for i in 0..items.len()
                    invariant
                        gs == models(items@),
                        texts(r@) == guarded_by(*self, gs.take(i as int)),
                {
                    let mut more = self.guard_paths(&items[i]);
                    let ghost before = r@;
                    let ghost added = more@;
                    r.append(&mut more);
                    proof {
                        assert(texts(r@) =~= texts(before) + texts(added));
                        let now = gs.take(i + 1);
                        assert(now.drop_last() =~= gs.take(i as int));
                        assert(now.last() == items@[i as int]@);
                    }
                }
                assert(gs.take(items@.len() as int) =~= gs);
            }
        }
        r
    }

    /// Whether one guard passes, given the paths that exist.
    fn guard_passes(&self, guard: &Json, existing: &Vec<String>) -> (r: bool)
        ensures
            r == passes(*self, guard@, texts(existing@).to_set()),
    {
        let c = match guard.str_at("condition") {
            Some(c) => c,
            None => {
                return true;
            },
        };
        if text::same(c, "on") {
            return match guard.str_at("value") {
                Some(v) => text::same(v, "macos"),
                None => false,
            };
        }
        let wanted = text::same(c, "if_exists");
        if !wanted && !text::same(c, "unless_exists") {
            return true;
        }
        if self.loc(guard).is_none() {
            return true;
        }
        let paths = self.guard_paths(guard);
        let ghost ps = guarded(*self, guard@);
        for i in 0..paths.len()
            invariant
                ps == texts(paths@),
                ps == guarded(*self, guard@),
                guard@.str_at("condition"@) == Some(c@),
                c@ != "on"@,
                wanted == (c@ == "if_exists"@),
                wanted || c@ == "unless_exists"@,
                self.location(guard@) is Some,
                forall|k: int|
                    0 <= k < i ==> !texts(existing@).to_set().contains(#[trigger] ps[k]),
        {
            assert(ps[i as int] == paths@[i as int]@);
            if text::among(paths[i].as_str(), existing) {
                return wanted;
            }
        }
        !wanted
    }

    /// Whether all guards of a step pass, given which of the paths that they
    /// ask for exist.
    pub fn guards_pass(&self, step: &Json, existing: &Vec<String>) -> (r: bool)
        ensures
            r == all_pass(*self, step@, texts(existing@).to_set()),
    {
        if let Some(g) = step.get("guards") {
            if let Some(items) = g.as_array() {
                for i in 0..items.len()
                    invariant
                        models(items@) == guards(step@),
                        forall|k: int|
                            0 <= k < i ==> passes(
                                *self,
                                #[trigger] guards(step@)[k],
                                texts(existing@).to_set(),
                            ),
                {
                    assert(guards(step@)[i as int] == items@[i as int]@);
                    if !self.guard_passes(&items[i], existing) {
                        return false;
                    }
                }
            }
        }
        true
    }
}

/// Law: whether the guards of a step pass depends on no path but those that
/// they ask for.
pub proof fn law_guards_ask_for_all_they_need(
    sc: StepCtx<'_>,
    step: JsonV,
    a: Set<Seq<char>>,
    b: Set<Seq<char>>,
)
    requires
        forall|i: int|
            0 <= i < guarded_by(sc, guards(step)).len() ==> a.contains(
                #[trigger] guarded_by(sc, guards(step))[i],
            ) == b.contains(guarded_by(sc, guards(step))[i]),
    ensures
        all_pass(sc, step, a) == all_pass(sc, step, b),
{
    let gs = guards(step);
    assert forall|k: int| 0 <= k < gs.len() implies passes(sc, #[trigger] gs[k], a) == passes(
        sc,
        gs[k],
        b,
    ) by {
        let g = gs[k];
        let ps = guarded(sc, g);
        assert forall|i: int| 0 <= i < ps.len() implies a.contains(#[trigger] ps[i]) == b.contains(ps[i]) by {
            let at = lemma_guarded_by(sc, gs, k, i);
        }
    }
}

/// Where a path of one guard stands among those of all.
proof fn lemma_guarded_by(sc: StepCtx<'_>, gs: Seq<JsonV>, k: int, i: int) -> (at: int)
    requires
        0 <= k < gs.len(),
        0 <= i < guarded(sc, gs[k]).len(),
    ensures
        0 <= at < guarded_by(sc, gs).len(),
        guarded_by(sc, gs)[at] == guarded(sc, gs[k])[i],
    decreases gs.len(),
{
    if k == gs.len() - 1 {
        guarded_by(sc, gs.drop_last()).len() + i
    } else {
        lemma_guarded_by(sc, gs.drop_last(), k, i)
    }
}

/// A template variable: a name without braces between two braces on each side.
spec fn template_key(k: Seq<char>) -> bool {
    &&& k.len() >= 5
    &&& k[0] == '{' && k[1] == '{'
    &&& k[k.len() - 1] == '}' && k[k.len() - 2] == '}'
    &&& forall|m: int| 2 <= m < k.len() - 2 ==> #[trigger] k[m] != '{' && k[m] != '}'
}

/// A template variable stands in a text around another only where it is that
/// other.
proof fn lemma_one_key(a: Seq<char>, key: Seq<char>, b: Seq<char>, other: Seq<char>)
    requires
        !a.contains('{'),
        !b.contains('{'),
        template_key(key),
        template_key(other),
        has_part(a + key + b, other),
    ensures
        other == key,
{
    let s = a + key + b;
    let q = choose|q: int| text::occurs_at(s, other, q);
    let n = a.len() as int;
    assert forall|m: int| 0 <= m < other.len() implies #[trigger] other[m] == s[q + m] by {
        assert(s.subrange(q, q + other.len())[m] == s[q + m]);
    }
    assert(other[0] == s[q] && other[1] == s[q + 1]);
    assert(q == n) by {
        if q < n {
            assert(a[q] == '{');
        } else if q >= n + key.len() {
            assert(b[q - n - key.len()] == '{');
        } else {
            assert(key[q - n] == '{');
            if q == n + 1 {
                assert(s[n + 2] == key[2]);
                assert(key[2] != '{');
            }
        }
    }
    assert forall|m: int| 0 <= m < other.len() && m < key.len() implies #[trigger] other[m] == key[m] by {
        assert(s[n + m] == key[m]);
    }
    if other.len() <= key.len() {
        assert(key[other.len() - 1] == '}');
        assert(key[other.len() - 2] == '}');
        assert(other =~= key);
    } else {
        assert(other[key.len() - 1] == '}');
        assert(other[key.len() - 2] == '}');
    }
}

/// Text without an opening brace holds no template variable.
proof fn lemma_no_key(s: Seq<char>, key: Seq<char>)
    requires
        !s.contains('{'),
        template_key(key),
    ensures
        !has_part(s, key),
{
    if has_part(s, key) {
        let q = choose|q: int| text::occurs_at(s, key, q);
        assert(s.subrange(q, q + key.len())[0] == s[q]);
    }
}

/// Replacing a variable between texts without braces.
proof fn lemma_key_replaced(a: Seq<char>, key: Seq<char>, b: Seq<char>, to: Seq<char>)
    requires
        !a.contains('{'),
        !b.contains('{'),
        template_key(key),
    ensures
        replaced(a + key + b, key, to) == a + to + b,
{
    let s = a + key + b;
    let n = a.len() as int;
    assert(s.subrange(n, n + key.len()) =~= key);
    assert(text::occurs_at(s, key, n));
    text::law_replacing_goes_from_left_to_right(s, key, to);
    text::law_until_stops_at_the_first(s, key);
    let u = until(s, key).len() as int;
    assert(u == n) by {
        assert(text::occurs_at(s, key, u));
        assert(s.subrange(u, u + key.len())[0] == s[u]);
        if u < n {
            assert(a[u] == '{');
        }
    }
    assert(until(s, key) =~= a) by {
        assert(s.take(u) =~= a);
    }
    assert(s.skip(u + key.len()) =~= b);
    lemma_no_key(b, key);
    text::lemma_replaced_absent(b, key, to);
}

/// What the first `n` replacements make of a text around the variable at `i`.
proof fn lemma_rewritten_around(
    pairs: Seq<(Seq<char>, Seq<char>)>,
    a: Seq<char>,
    b: Seq<char>,
    i: int,
    n: int,
)
    requires
        0 <= n <= pairs.len(),
        0 <= i < pairs.len(),
        !a.contains('{'),
        !b.contains('{'),
        !pairs[i].1.contains('{'),
        forall|j: int| 0 <= j < pairs.len() ==> template_key((#[trigger] pairs[j]).0),
        forall|j: int| 0 <= j < pairs.len() && j != i ==> (#[trigger] pairs[j]).0 != pairs[i].0,
    ensures
        rewritten(a + pairs[i].0 + b, pairs.take(n)) == if n <= i {
            a + pairs[i].0 + b
        } else {
            a + pairs[i].1 + b
        },
    decreases n,
{
    let s = a + pairs[i].0 + b;
    let t = a + pairs[i].1 + b;
    if n > 0 {
        lemma_rewritten_around(pairs, a, b, i, n - 1);
        let some = pairs.take(n);
        assert(some.drop_last() =~= pairs.take(n - 1));
        let key = pairs[n - 1].0;
        let to = pairs[n - 1].1;
        assert(some.last() == pairs[n - 1]);
        if n - 1 == i {
            lemma_key_replaced(a, key, b, to);
        } else if n - 1 < i {
            if has_part(s, key) {
                lemma_one_key(a, pairs[i].0, b, key);
            }
            text::lemma_replaced_absent(s, key, to);
        } else {
            assert(!t.contains('{')) by {
                if t.contains('{') {
                    let q = choose|q: int| 0 <= q < t.len() && t[q] == '{';
                    if q < a.len() {
                        assert(a[q] == '{');
                    } else if q < a.len() + pairs[i].1.len() {
                        assert(pairs[i].1[q - a.len()] == '{');
                    } else {
                        assert(b[q - a.len() - pairs[i].1.len()] == '{');
                    }
                }
            }
            lemma_no_key(t, key);
            text::lemma_replaced_absent(t, key, to);
        }
    }
}

/// The template variables are such, and all different.
#[verifier::rlimit(60)]
proof fn lemma_variables(sc: StepCtx<'_>)
    ensures
        forall|j: int| 0 <= j < sc.variables().len() ==> template_key((#[trigger] sc.variables()[j]).0),
        forall|i: int, j: int|
            0 <= i < sc.variables().len() && 0 <= j < sc.variables().len() && i != j ==> (
            #[trigger] sc.variables()[i]).0 != (#[trigger] sc.variables()[j]).0,
{
    reveal_strlit("{{prefix}}");
    reveal_strlit("{{opt_prefix}}");
    reveal_strlit("{{bin}}");
    reveal_strlit("{{lib}}");
    reveal_strlit("{{libexec}}");
    reveal_strlit("{{share}}");
    reveal_strlit("{{include}}");
    reveal_strlit("{{pkgshare}}");
    reveal_strlit("{{pkgetc}}");
    reveal_strlit("{{etc}}");
    reveal_strlit("{{var}}");
    reveal_strlit("{{HOMEBREW_PREFIX}}");
    reveal_strlit("{{HOMEBREW_CELLAR}}");
    reveal_strlit("{{formula_name}}");
    reveal_strlit("{{version.major_minor}}");
    reveal_strlit("{{version.major}}");
    reveal_strlit("{{version}}");
    assert("{{prefix}}"@.len() == 10 && "{{prefix}}"@[2] == 'p' && "{{prefix}}"@[3] == 'r');
    assert("{{opt_prefix}}"@.len() == 14 && "{{opt_prefix}}"@[2] == 'o' && "{{opt_prefix}}"@[3] == 'p');
    assert("{{bin}}"@.len() == 7 && "{{bin}}"@[2] == 'b' && "{{bin}}"@[3] == 'i');
    assert("{{lib}}"@.len() == 7 && "{{lib}}"@[2] == 'l' && "{{lib}}"@[3] == 'i');
    assert("{{libexec}}"@.len() == 11 && "{{libexec}}"@[2] == 'l' && "{{libexec}}"@[3] == 'i');
    assert("{{share}}"@.len() == 9 && "{{share}}"@[2] == 's' && "{{share}}"@[3] == 'h');
    assert("{{include}}"@.len() == 11 && "{{include}}"@[2] == 'i' && "{{include}}"@[3] == 'n');
    assert("{{pkgshare}}"@.len() == 12 && "{{pkgshare}}"@[2] == 'p' && "{{pkgshare}}"@[3] == 'k');
    assert("{{pkgetc}}"@.len() == 10 && "{{pkgetc}}"@[2] == 'p' && "{{pkgetc}}"@[3] == 'k');
    assert("{{etc}}"@.len() == 7 && "{{etc}}"@[2] == 'e' && "{{etc}}"@[3] == 't');
    assert("{{var}}"@.len() == 7 && "{{var}}"@[2] == 'v' && "{{var}}"@[3] == 'a');
    assert("{{HOMEBREW_PREFIX}}"@.len() == 19 && "{{HOMEBREW_PREFIX}}"@[2] == 'H' && "{{HOMEBREW_PREFIX}}"@[3] == 'O');
    assert("{{HOMEBREW_CELLAR}}"@.len() == 19 && "{{HOMEBREW_CELLAR}}"@[2] == 'H' && "{{HOMEBREW_CELLAR}}"@[3] == 'O');
    assert("{{formula_name}}"@.len() == 16 && "{{formula_name}}"@[2] == 'f' && "{{formula_name}}"@[3] == 'o');
    assert("{{version.major_minor}}"@.len() == 23 && "{{version.major_minor}}"@[2] == 'v' && "{{version.major_minor}}"@[3] == 'e');
    assert("{{version.major}}"@.len() == 17 && "{{version.major}}"@[2] == 'v' && "{{version.major}}"@[3] == 'e');
    assert("{{version}}"@.len() == 11 && "{{version}}"@[2] == 'v' && "{{version}}"@[3] == 'e');
    assert("{{HOMEBREW_PREFIX}}"@[11] == 'P');
    assert("{{HOMEBREW_CELLAR}}"@[11] == 'C');
}

/// Around the variable at `i`.
proof fn lemma_variable(sc: StepCtx<'_>, a: Seq<char>, b: Seq<char>, i: int)
    requires
        0 <= i < sc.variables().len(),
        !a.contains('{'),
        !b.contains('{'),
    ensures
        !sc.variables()[i].1.contains('{') ==> sc.expanded(a + sc.variables()[i].0 + b) == a
            + sc.variables()[i].1 + b,
{
    if !sc.variables()[i].1.contains('{') {
        lemma_variables(sc);
        let vars = sc.variables();
        lemma_rewritten_around(vars, a, b, i, vars.len() as int);
        assert(vars.take(vars.len() as int) =~= vars);
    }
}

/// The variable `key` in a text stands for `value`, where that holds no brace
/// itself.
pub open spec fn put(sc: StepCtx<'_>, a: Seq<char>, key: Seq<char>, b: Seq<char>, value: Seq<char>) -> bool {
    !value.contains('{') ==> sc.expanded(a + key + b) == a + value + b
}

/// Law: each template variable becomes what it stands for, and the text around
/// it stays: directories of the keg, of the prefix, the name and the version of
/// the formula, the latter without its revision.
pub proof fn law_variables_stand_for_places(sc: StepCtx<'_>, a: Seq<char>, b: Seq<char>)
    requires
        !a.contains('{'),
        !b.contains('{'),
    ensures
        ({
            let prefix = sc.ctx.prefix@;
            let keg = below(below(below(prefix, "Cellar"@), sc.name@), sc.version@);
            let version = until(sc.version@, "_"@);
            &&& put(sc, a, "{{prefix}}"@, b, keg)
            &&& put(sc, a, "{{opt_prefix}}"@, b, below(below(sc.ctx.prefix@, "opt"@), sc.name@))
            &&& put(sc, a, "{{bin}}"@, b, keg + "/bin"@)
            &&& put(sc, a, "{{lib}}"@, b, keg + "/lib"@)
            &&& put(sc, a, "{{libexec}}"@, b, keg + "/libexec"@)
            &&& put(sc, a, "{{share}}"@, b, keg + "/share"@)
            &&& put(sc, a, "{{include}}"@, b, keg + "/include"@)
            &&& put(sc, a, "{{pkgshare}}"@, b, keg + "/share/"@ + sc.name@)
            &&& put(sc, a, "{{pkgetc}}"@, b, prefix + "/etc/"@ + sc.name@)
            &&& put(sc, a, "{{etc}}"@, b, prefix + "/etc"@)
            &&& put(sc, a, "{{var}}"@, b, prefix + "/var"@)
            &&& put(sc, a, "{{HOMEBREW_PREFIX}}"@, b, prefix)
            &&& put(sc, a, "{{HOMEBREW_CELLAR}}"@, b, below(prefix, "Cellar"@))
            &&& put(sc, a, "{{formula_name}}"@, b, sc.name@)
            &&& put(sc, a, "{{version.major_minor}}"@, b, major_minor(version))
            &&& put(sc, a, "{{version.major}}"@, b, until(version, "."@))
            &&& put(sc, a, "{{version}}"@, b, version)
        }),
{
    lemma_variable(sc, a, b, 0);
    lemma_variable(sc, a, b, 1);
    lemma_variable(sc, a, b, 2);
    lemma_variable(sc, a, b, 3);
    lemma_variable(sc, a, b, 4);
    lemma_variable(sc, a, b, 5);
    lemma_variable(sc, a, b, 6);
    lemma_variable(sc, a, b, 7);
    lemma_variable(sc, a, b, 8);
    lemma_variable(sc, a, b, 9);
    lemma_variable(sc, a, b, 10);
    lemma_variable(sc, a, b, 11);
    lemma_variable(sc, a, b, 12);
    lemma_variable(sc, a, b, 13);
    lemma_variable(sc, a, b, 14);
    lemma_variable(sc, a, b, 15);
    lemma_variable(sc, a, b, 16);
}

/// Law: a dotted version is shortened to its first two parts, as far as it has
/// them.
pub proof fn law_major_and_minor(version: Seq<char>)
    ensures
        ({
            let ps = pieces(version, '.');
            &&& ps.len() == 1 ==> major_minor(version) == version
            &&& ps.len() >= 2 ==> major_minor(version) == ps[0] + "."@ + ps[1]
        }),
{
    text::law_pieces_rejoin(version, '.');
}

/// Law: the bases of places: the keg, the link to it, the prefix, and what is
/// below them; any other base is a directory of the keg.
pub proof fn law_bases_are_directories(sc: StepCtx<'_>, base: Seq<char>)
    ensures
        ({
            let prefix = sc.ctx.prefix@;
            let keg = below(below(below(prefix, "Cellar"@), sc.name@), sc.version@);
            &&& sc.base_dir("prefix"@) == keg
            &&& sc.base_dir("opt_prefix"@) == below(below(prefix, "opt"@), sc.name@)
            &&& sc.base_dir("homebrew_prefix"@) == prefix
            &&& sc.base_dir("var"@) == below(prefix, "var"@)
            &&& sc.base_dir("etc"@) == below(prefix, "etc"@)
            &&& sc.base_dir("pkgshare"@) == below(below(keg, "share"@), sc.name@)
            &&& sc.base_dir("frameworks"@) == below(keg, "Frameworks"@)
            &&& !seq![
                "prefix"@,
                "opt_prefix"@,
                "homebrew_prefix"@,
                "var"@,
                "etc"@,
                "pkgshare"@,
                "frameworks"@,
            ].contains(base) ==> sc.base_dir(base) == below(keg, base)
        }),
{
    reveal_strlit("prefix");
    reveal_strlit("opt_prefix");
    reveal_strlit("homebrew_prefix");
    reveal_strlit("var");
    reveal_strlit("etc");
    reveal_strlit("pkgshare");
    reveal_strlit("frameworks");
    assert("prefix"@.len() == 6);
    assert("opt_prefix"@.len() == 10 && "opt_prefix"@[0] == 'o');
    assert("homebrew_prefix"@.len() == 15);
    assert("var"@.len() == 3 && "var"@[0] == 'v');
    assert("etc"@.len() == 3 && "etc"@[0] == 'e');
    assert("pkgshare"@.len() == 8);
    assert("frameworks"@.len() == 10 && "frameworks"@[0] == 'f');
    let known = seq![
        "prefix"@,
        "opt_prefix"@,
        "homebrew_prefix"@,
        "var"@,
        "etc"@,
        "pkgshare"@,
        "frameworks"@,
    ];
    if !known.contains(base) {
        assert(base != known[0]);
        assert(base != known[1]);
        assert(base != known[2]);
        assert(base != known[3]);
        assert(base != known[4]);
        assert(base != known[5]);
        assert(base != known[6]);
    }
}

/// Law: a place is its path with the variables expanded, below its base where it
/// has one; a base alone is a place as well, and what has neither is none.
pub proof fn law_places_are_paths_below_bases(sc: StepCtx<'_>, step: JsonV, key: Seq<char>, v: JsonV)
    ensures
        v.str_at("base"@) is None && v.str_at("path"@) is None ==> sc.location(v) is None,
        v.str_at("base"@) is None ==> (v.str_at("path"@) matches Some(p) ==> sc.location(v) == Some(
            sc.expanded(p),
        )),
        v.str_at("base"@) matches Some(b) ==> (v.str_at("path"@) matches Some(p) ==> sc.location(v) == Some(
            below(sc.base_dir(b), sc.expanded(p)),
        )),
        v.str_at("base"@) matches Some(b) ==> (v.str_at("path"@) is None ==> sc.location(v) == Some(
            sc.base_dir(b),
        )),
        step.get(key) == Some(v) ==> sc.location_at(step, key) == sc.location(v),
        step.get(key) is None ==> sc.location_at(step, key) is None,
{
}

/// The step lists the guard.
pub open spec fn has_guard(step: JsonV, g: JsonV) -> bool {
    step.get("guards"@) matches Some(JsonV::Array(gs)) && gs.contains(g)
}

/// Law: a step runs if and only if every guard that it lists lets it: one for a
/// platform where that is macOS, one on existence where one of the paths that
/// its place stands for exists, or none of them does. Guards of other kinds, and
/// those on existence that name no place, let it run.
pub proof fn law_steps_run_when_all_guards_pass(sc: StepCtx<'_>, step: JsonV, existing: Set<Seq<char>>)
    ensures
        all_pass(sc, step, existing) <==> forall|g: JsonV| #[trigger]
            has_guard(step, g) ==> {
                &&& g.str_at("condition"@) == Some("on"@) ==> g.str_at("value"@) == Some("macos"@)
                &&& g.str_at("condition"@) == Some("if_exists"@) ==> (sc.location(g) matches Some(p)
                    ==> exists|q: Seq<char>| #[trigger] expansion(p).contains(q) && existing.contains(q))
                &&& g.str_at("condition"@) == Some("unless_exists"@) ==> (sc.location(g) matches Some(p)
                    ==> forall|q: Seq<char>| #[trigger] expansion(p).contains(q) ==> !existing.contains(q))
            },
{
    reveal_strlit("on");
    reveal_strlit("if_exists");
    reveal_strlit("unless_exists");
    assert("on"@.len() == 2);
    assert("if_exists"@.len() == 9);
    assert("unless_exists"@.len() == 13);
    let gs = guards(step);
    assert forall|g: JsonV| #[trigger] has_guard(step, g) == gs.contains(g) by {}
    assert forall|g: JsonV| #[trigger] gs.contains(g) implies passes(sc, g, existing) == ({
        &&& g.str_at("condition"@) == Some("on"@) ==> g.str_at("value"@) == Some("macos"@)
        &&& g.str_at("condition"@) == Some("if_exists"@) ==> (sc.location(g) matches Some(p)
            ==> exists|q: Seq<char>| #[trigger] expansion(p).contains(q) && existing.contains(q))
        &&& g.str_at("condition"@) == Some("unless_exists"@) ==> (sc.location(g) matches Some(p)
            ==> forall|q: Seq<char>| #[trigger] expansion(p).contains(q) ==> !existing.contains(q))
    }) by {
        lemma_guard_paths(sc, g, existing);
    }
    if all_pass(sc, step, existing) {
        assert forall|g: JsonV| #[trigger] has_guard(step, g) implies passes(sc, g, existing) by {
            let k = choose|k: int| 0 <= k < gs.len() && gs[k] == g;
            assert(passes(sc, gs[k], existing));
        }
    } else {
        let k = choose|k: int| 0 <= k < gs.len() && !passes(sc, #[trigger] gs[k], existing);
        assert(gs.contains(gs[k]));
        assert(has_guard(step, gs[k]));
    }
}

/// Some or none of the paths of a guard exist.
proof fn lemma_guard_paths(sc: StepCtx<'_>, g: JsonV, existing: Set<Seq<char>>)
    requires
        "on"@ != "if_exists"@,
        "on"@ != "unless_exists"@,
        "if_exists"@ != "unless_exists"@,
    ensures
        g.str_at("condition"@) == Some("if_exists"@) || g.str_at("condition"@) == Some("unless_exists"@) ==> (
        sc.location(g) matches Some(p) ==> guarded(sc, g) == expansion(p) && (exists|q: Seq<char>| #[trigger]
            expansion(p).contains(q) && existing.contains(q)) == (exists|i: int|
            0 <= i < guarded(sc, g).len() && existing.contains(#[trigger] guarded(sc, g)[i]))),
{
    if let Some(p) = sc.location(g) {
        let ps = expansion(p);
        if exists|q: Seq<char>| #[trigger] ps.contains(q) && existing.contains(q) {
            let q = choose|q: Seq<char>| #[trigger] ps.contains(q) && existing.contains(q);
            let i = choose|i: int| 0 <= i < ps.len() && ps[i] == q;
            if guarded(sc, g) == ps {
                assert(existing.contains(guarded(sc, g)[i]));
            }
        }
        if exists|i: int| 0 <= i < ps.len() && existing.contains(#[trigger] ps[i]) {
            let i = choose|i: int| 0 <= i < ps.len() && existing.contains(#[trigger] ps[i]);
            assert(ps.contains(ps[i]));
        }
    }
}

/// Law: a text without a brace group stands for itself alone; a group is an
/// opening brace with a closing one behind it before which no other closing one
/// stands, and each of the alternatives in it, which commas separate, is put in
/// its place.
pub proof fn law_groups_offer_alternatives(a: Seq<char>, inner: Seq<char>, b: Seq<char>, i: int)
    requires
        !a.contains('{'),
        !a.contains('}'),
        !inner.contains('}'),
        0 <= i < pieces(inner, ',').len(),
    ensures
        ({
            let s = a + seq!['{'] + inner + seq!['}'] + b;
            &&& has_group(s)
            &&& alternatives(s).len() == pieces(inner, ',').len()
            &&& alternatives(s)[i] == a + pieces(inner, ',')[i] + b
        }),
        expansion(a) == seq![a],
{
    let s = a + seq!['{'] + inner + seq!['}'] + b;
    text::lemma_index_in(s, '{');
    text::lemma_index_in(s, '}');
    text::lemma_index_in(a, '{');
    text::lemma_index_in(a, '}');
    let n = a.len() as int;
    let c = n + 1 + inner.len();
    let open = index_in(s, '{') as int;
    let close = index_in(s, '}') as int;
    assert(s[n] == '{');
    assert(s[c] == '}');
    if open < n {
        assert(a[open] == '{');
    }
    if close < c {
        if close < n {
            assert(a[close] == '}');
        } else if close > n {
            assert(inner[close - n - 1] == '}');
        }
    }
    assert(open == n && close == c);
    assert(s.subrange(open + 1, close) =~= inner);
    assert(s.take(open) =~= a);
    assert(s.skip(close + 1) =~= b);
    if index_in(a, '}') < a.len() {
        assert(a.contains(a[index_in(a, '}') as int]));
    }
}

} // verus!
