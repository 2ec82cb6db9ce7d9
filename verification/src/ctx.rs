//! Where an installation lives.

use vstd::prelude::*;

use crate::path;
use crate::path::below;

verus! {

/// An installation prefix.
pub struct Ctx {
    pub prefix: String,
}

impl Clone for Ctx {
    /// The same prefix.
    fn clone(&self) -> (r: Ctx)
        ensures
            r == *self,
    {
        Ctx { prefix: self.prefix.clone() }
    }
}

impl Ctx {
    /// `<prefix>/Cellar`.
    pub open spec fn cellar_dir(self) -> Seq<char> {
        below(self.prefix@, "Cellar"@)
    }

    /// `<prefix>/opt`.
    pub open spec fn opt_dir(self) -> Seq<char> {
        below(self.prefix@, "opt"@)
    }

    /// `<prefix>/bin`.
    pub open spec fn bin_dir(self) -> Seq<char> {
        below(self.prefix@, "bin"@)
    }

    /// `<prefix>/cache`.
    pub open spec fn cache_dir(self) -> Seq<char> {
        below(self.prefix@, "cache"@)
    }

    /// `<cellar>/<name>/<version>`.
    pub open spec fn keg_dir(self, name: Seq<char>, version: Seq<char>) -> Seq<char> {
        below(below(self.cellar_dir(), name), version)
    }

    /// The directory that holds all kegs.
    pub fn cellar(&self) -> (r: String)
        ensures
            r@ == self.cellar_dir(),
    {
        path::join(self.prefix.as_str(), "Cellar")
    }

    /// The directory of links to current kegs.
    pub fn opt(&self) -> (r: String)
        ensures
            r@ == self.opt_dir(),
    {
        path::join(self.prefix.as_str(), "opt")
    }

    /// The directory of linked executables.
    pub fn bin(&self) -> (r: String)
        ensures
            r@ == self.bin_dir(),
    {
        path::join(self.prefix.as_str(), "bin")
    }

    /// The directory of cached downloads.
    pub fn cache(&self) -> (r: String)
        ensures
            r@ == self.cache_dir(),
    {
        path::join(self.prefix.as_str(), "cache")
    }

    /// The directory of one keg.
    pub fn keg(&self, name: &str, version: &str) -> (r: String)
        ensures
            r@ == self.keg_dir(name@, version@),
    {
        path::join(path::join(self.cellar().as_str(), name).as_str(), version)
    }
}

/// A text that can be one part of a path below a directory: neither empty nor
/// with a slash at either end.
pub open spec fn path_part(s: Seq<char>) -> bool {
    s.len() > 0 && s[0] != '/' && s.last() != '/'
}

/// Law: everything lives below the prefix: the kegs in `Cellar`, one directory
/// for each formula and one in it for each version, the links to current kegs in
/// `opt`, linked executables in `bin` and downloads in `cache`.
pub proof fn law_everything_lives_below_the_prefix(ctx: Ctx, name: Seq<char>, version: Seq<char>)
    requires
        ctx.prefix@.len() > 0,
        ctx.prefix@.last() != '/',
        path_part(name),
        path_part(version),
    ensures
        ctx.cellar_dir() == ctx.prefix@ + "/Cellar"@,
        ctx.opt_dir() == ctx.prefix@ + "/opt"@,
        ctx.bin_dir() == ctx.prefix@ + "/bin"@,
        ctx.cache_dir() == ctx.prefix@ + "/cache"@,
        ctx.keg_dir(name, version) == ctx.prefix@ + "/Cellar/"@ + name + "/"@ + version,
{
    reveal_strlit("Cellar");
    reveal_strlit("opt");
    reveal_strlit("bin");
    reveal_strlit("cache");
    reveal_strlit("/Cellar");
    reveal_strlit("/opt");
    reveal_strlit("/bin");
    reveal_strlit("/cache");
    reveal_strlit("/Cellar/");
    reveal_strlit("/");
    let p = ctx.prefix@;
    assert(ctx.cellar_dir() =~= p + "/Cellar"@);
    assert(ctx.opt_dir() =~= p + "/opt"@);
    assert(ctx.bin_dir() =~= p + "/bin"@);
    assert(ctx.cache_dir() =~= p + "/cache"@);
    let dir = below(ctx.cellar_dir(), name);
    assert(dir =~= p + "/Cellar/"@ + name);
    assert(dir.last() == name.last());
    assert(ctx.keg_dir(name, version) =~= p + "/Cellar/"@ + name + "/"@ + version);
}

} // verus!
