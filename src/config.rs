//! Where the source and the destinations live, relative to a home directory.

use vstd::prelude::*;
use crate::destination::{Destination, DestinationType};
use crate::transform::chars_of;

verus! {

broadcast use vstd::string::group_string_axioms;

/// The source root, the ordered destinations and the log directory.
pub struct Config {
    pub source: String,
    pub destinations: Vec<Destination>,
    pub log_dir: String,
}

#[derive(Debug, Clone, Copy, PartialEq, Eq, Structural)]
pub enum ConfigError {
    /// No home directory could be determined.
    NoHomeDirectory,
}

/// `rel` below the directory `dir`, with one `/` between them.
pub open spec fn under(dir: Seq<char>, rel: Seq<char>) -> Seq<char> {
    if dir.len() > 0 && dir.last() == '/' {
        dir + rel
    } else {
        dir + "/"@ + rel
    }
}

/// The configuration for the home directory `home` and the source root
/// `source`: the skills are mirrored into `.gemini/skills`,
/// `.gemini/antigravity/skills`, `.codex/skills` and `.cursor/skills`, and
/// turned into command files in `.gemini/commands`.
pub open spec fn config_for(c: Config, home: Seq<char>, source: Seq<char>) -> bool {
    &&& c.source@ == source
    &&& c.log_dir@ == under(home, "skillsync/logs"@)
    &&& c.destinations@.len() == 5
    &&& c.destinations@[0].base_path@ == under(home, ".gemini/skills"@)
    &&& c.destinations@[0].dest_type == DestinationType::ClaudeStyle
    &&& c.destinations@[1].base_path@ == under(home, ".gemini/antigravity/skills"@)
    &&& c.destinations@[1].dest_type == DestinationType::ClaudeStyle
    &&& c.destinations@[2].base_path@ == under(home, ".codex/skills"@)
    &&& c.destinations@[2].dest_type == DestinationType::ClaudeStyle
    &&& c.destinations@[3].base_path@ == under(home, ".cursor/skills"@)
    &&& c.destinations@[3].dest_type == DestinationType::ClaudeStyle
    &&& c.destinations@[4].base_path@ == under(home, ".gemini/commands"@)
    &&& c.destinations@[4].dest_type == DestinationType::GeminiToml
}

/// The configuration for some home directory and the source root `source`.
pub open spec fn is_home_config(c: Config, source: Seq<char>) -> bool {
    exists|home: Seq<char>| #[trigger] config_for(c, home, source)
}

/// Relies on home::home_dir: the current user's home directory when one can
/// be determined; a path that is not UTF-8 counts as none. What it returns
/// depends on the environment, so nothing is promised of it.
#[verifier::external_body]
fn home_directory() -> (r: Option<String>) {
    home::home_dir().and_then(|p| p.into_os_string().into_string().ok())
}

/// `rel` below the directory `dir`.
pub fn under_dir(dir: &str, rel: &str) -> (r: String)
    ensures
        r@ == under(dir@, rel@),
{
    let cs = chars_of(dir);
    let mut out = String::from_str(dir);
    if !(cs.len() > 0 && cs[cs.len() - 1] == '/') {
        out.append("/");
    }
    out.append(rel);
    out
}

impl Config {
    /// The configuration for the current user's home directory, mirroring
    /// the source root `source`.
    pub fn new(source: &str) -> (r: Result<Config, ConfigError>)
        ensures
            r matches Ok(c) ==> is_home_config(c, source@),
    {
        match home_directory() {
            Some(home) => {
                let c = Config::for_home(home.as_str(), source);
                assert(config_for(c, home@, source@));
                assert(is_home_config(c, source@));
                Ok(c)
            },
            None => Err(ConfigError::NoHomeDirectory),
        }
    }

    /// The configuration for the home directory `home` and the source root `source`.
    pub fn for_home(home: &str, source: &str) -> (r: Config)
        ensures
            config_for(r, home@, source@),
    {
        let mut destinations: Vec<Destination> = Vec::new();
        destinations.push(
            Destination::new(under_dir(home, ".gemini/skills"), DestinationType::ClaudeStyle),
        );
        destinations.push(
            Destination::new(
                under_dir(home, ".gemini/antigravity/skills"),
                DestinationType::ClaudeStyle,
            ),
        );
        destinations.push(
            Destination::new(under_dir(home, ".codex/skills"), DestinationType::ClaudeStyle),
        );
        destinations.push(
            Destination::new(under_dir(home, ".cursor/skills"), DestinationType::ClaudeStyle),
        );
        destinations.push(
            Destination::new(under_dir(home, ".gemini/commands"), DestinationType::GeminiToml),
        );
        Config {
            source: String::from_str(source),
            destinations,
            log_dir: under_dir(home, "skillsync/logs"),
        }
    }
}

} // verus!
