//! Formula metadata: one entry of the formula index.

use vstd::prelude::*;

use crate::json::Json;
use crate::strmap::StrMap;
use crate::text;
use crate::text::decimal;

verus! {

/// One formula of the index, with the fields that dram needs.
pub struct Formula {
    pub name: String,
    pub desc: Option<String>,
    pub aliases: Vec<String>,
    pub oldnames: Vec<String>,
    pub versions: Versions,
    /// Bump appended to the keg directory name as `_N` when above zero.
    pub revision: u32,
    /// Runtime dependencies only: build dependencies never matter for bottles.
    pub dependencies: Vec<String>,
    pub keg_only: bool,
    pub bottle: StrMap<BottleSpec>,
    /// Declarative post-install steps.
    pub post_install_steps: Vec<Json>,
}

/// The versions of a formula.
pub struct Versions {
    pub stable: Option<String>,
}

/// The bottles of a formula.
pub struct BottleSpec {
    /// Keyed by platform tag: "arm64_sequoia", "sonoma", "all", ...
    pub files: StrMap<BottleFile>,
}

/// One bottle blob.
pub struct BottleFile {
    /// ":any" and ":any_skip_relocation" mean relocatable; an absolute path
    /// means the cellar location is baked into the binaries.
    pub cellar: String,
    pub url: String,
    pub sha256: String,
}

/// The keg directory name for a stable version and a revision.
pub open spec fn keg_dir(stable: Option<Seq<char>>, revision: nat) -> Seq<char> {
    let base = match stable {
        Some(v) => v,
        None => "unknown"@,
    };
    if revision > 0 {
        base + "_"@ + decimal(revision)
    } else {
        base
    }
}

impl Formula {
    /// The text of the stable version.
    pub open spec fn stable(self) -> Option<Seq<char>> {
        text::opt_text(self.versions.stable)
    }

    /// The keg directory name of this formula.
    pub open spec fn keg_dir(self) -> Seq<char> {
        keg_dir(self.stable(), self.revision as nat)
    }

    /// Directory name under Cellar/<name>/, e.g. "1.7.1" or "1.7.1_2".
    pub fn keg_version(&self) -> (r: String)
        ensures
            r@ == self.keg_dir(),
    {
        let stable = match &self.versions.stable {
            Some(v) => v.as_str(),
            None => "unknown",
        };
        if self.revision > 0 {
            stable.to_string().concat("_").concat(text::show(self.revision as u64).as_str())
        } else {
            stable.to_string()
        }
    }
}

impl Clone for BottleFile {
    /// A copy with the same fields.
    fn clone(&self) -> (r: BottleFile)
        ensures
            r == *self,
    {
        BottleFile {
            cellar: self.cellar.clone(),
            url: self.url.clone(),
            sha256: self.sha256.clone(),
        }
    }
}

} // verus!
