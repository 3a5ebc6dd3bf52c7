//! What the environment checks before syncing decide.

use vstd::prelude::*;

verus! {

/// What the environment checks found.
pub struct PreflightOutcome {
    /// The source root exists.
    pub claude_ok: bool,
    /// The `gemini` command was found.
    pub gemini_cli_ok: bool,
    /// The antigravity destination exists or can be created.
    pub antigravity_ok: bool,
    /// The `codex` command was found.
    pub codex_cli_ok: bool,
}

impl PreflightOutcome {
    /// Whether the source, the `gemini` command and the antigravity
    /// destination are all in place.
    pub fn all_good(&self) -> (r: bool)
        ensures
            r == (self.claude_ok && self.gemini_cli_ok && self.antigravity_ok),
    {
        self.claude_ok && self.gemini_cli_ok && self.antigravity_ok
    }
}

/// A place where a `gemini` command may be installed outside the `PATH`.
pub struct GeminiLocation {
    pub path: String,
    /// The path holds one directory per installed Node version, each with a
    /// `bin/gemini`; otherwise the path is the command itself.
    pub per_version: bool,
}

pub open spec fn location_is(l: GeminiLocation, path: Seq<char>, per_version: bool) -> bool {
    l.path@ == path && l.per_version == per_version
}

fn location(home: &str, suffix: &str, per_version: bool) -> (r: GeminiLocation)
    ensures
        location_is(r, home@ + suffix@, per_version),
{
    let mut path = String::from_str(home);
    path.append(suffix);
    GeminiLocation { path, per_version }
}

/// The places searched for `gemini` when it is not on the `PATH`, in order:
/// the version managers nvm, fnm, Volta, nodenv and asdf, a global npm
/// prefix, and the two Homebrew prefixes.
pub fn gemini_locations(home: &str) -> (r: Vec<GeminiLocation>)
    ensures
        r@.len() == 8,
        location_is(r@[0], home@ + "/.nvm/versions/node"@, true),
        location_is(r@[1], home@ + "/.fnm/node-versions"@, true),
        location_is(r@[2], home@ + "/.volta/bin/gemini"@, false),
        location_is(r@[3], home@ + "/.nodenv/versions"@, true),
        location_is(r@[4], home@ + "/.asdf/installs/nodejs"@, true),
        location_is(r@[5], home@ + "/.npm-global/bin/gemini"@, false),
        location_is(r@[6], "/opt/homebrew/bin/gemini"@, false),
        location_is(r@[7], "/usr/local/bin/gemini"@, false),
{
    let mut r: Vec<GeminiLocation> = Vec::new();
    r.push(location(home, "/.nvm/versions/node", true));
    r.push(location(home, "/.fnm/node-versions", true));
    r.push(location(home, "/.volta/bin/gemini", false));
    r.push(location(home, "/.nodenv/versions", true));
    r.push(location(home, "/.asdf/installs/nodejs", true));
    r.push(location(home, "/.npm-global/bin/gemini", false));
    r.push(GeminiLocation { path: String::from_str("/opt/homebrew/bin/gemini"), per_version: false });
    r.push(GeminiLocation { path: String::from_str("/usr/local/bin/gemini"), per_version: false });
    r
}

} // verus!
