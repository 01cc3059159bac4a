//! `nocomponents.toml`: where the stylesheet goes and where the components go.
//!
//! Reading and writing the file is the binary's business; this is what the library makes of
//! the values in it.

use crate::text::{
    chars_of, join, join_exec, pieces, pieces_exec, push_all, slice_of, starts_with, starts_with_exec,
    string_of, strip_leading, strip_leading_exec, trim_char, trim_char_exec,
};
use vstd::prelude::*;

verus! {

/// The name of the config file, beside the project's `Cargo.toml`.
pub const CONFIG_FILE: &'static str = "nocomponents.toml";

#[derive(Debug)]
pub struct Config {
    pub style: StyleConfig,
    pub paths: PathConfig,
}

#[derive(Debug)]
pub struct StyleConfig {
    pub css: String,
}

#[derive(Debug)]
pub struct PathConfig {
    pub components: String,
}

/// The stylesheet a fresh config points at.
pub open spec fn default_css() -> Seq<char> {
    "styles/globals.css"@
}

/// The install directory a fresh config points at.
pub open spec fn default_components() -> Seq<char> {
    "src/components/nc"@
}

impl Default for Config {
    fn default() -> (r: Self)
        ensures
            r.style.css@ == default_css(),
            r.paths.components@ == default_components(),
    {
        Config {
            style: StyleConfig { css: "styles/globals.css".to_owned() },
            paths: PathConfig { components: "src/components/nc".to_owned() },
        }
    }
}

/// Why an install directory has no module path.
#[derive(Debug)]
pub enum ConfigError {
    /// `paths.components`, tidied, does not name a directory under `src/`.
    NotUnderSrc { rel: String },
}

impl ConfigError {
    /// The error as the command reports it.
    pub fn text(&self) -> (r: String)
        ensures
            match self {
                ConfigError::NotUnderSrc { rel } => r@ == "paths.components ("@ + rel@
                    + ") has to name a directory under `src/`"@,
            },
    {
        match self {
            ConfigError::NotUnderSrc { rel } => {
                let mut out = chars_of("paths.components (");
                push_all(&mut out, &chars_of(rel.as_str()));
                push_all(&mut out, &chars_of(") has to name a directory under `src/`"));
                string_of(&out)
            },
        }
    }
}

/// The install directory with any leading `./` and any `/` at either end taken off.
pub open spec fn tidy_dir(components: Seq<char>) -> Seq<char> {
    trim_char(strip_leading(components, "./"@), '/')
}

/// The Rust path of an install directory: `src/a/b` is `crate::a::b`, empty segments dropped.
/// `None` when the directory is not strictly inside `src/`.
pub open spec fn rust_path_of(components: Seq<char>) -> Option<Seq<char>> {
    let rel = tidy_dir(components);
    let rest = rel.skip("src/"@.len() as int);
    if starts_with(rel, "src/"@) && rest.len() > 0 {
        Some("crate::"@ + join(pieces(rest, '/'), "::"@))
    } else {
        None
    }
}

impl Config {
    /// The install directory as a Rust path: `src/components/nc` is `crate::components::nc`.
    pub fn rust_path(&self) -> (r: Result<String, ConfigError>)
        ensures
            match r {
                Ok(path) => rust_path_of(self.paths.components@) == Some(path@),
                Err(ConfigError::NotUnderSrc { rel }) => rust_path_of(self.paths.components@)
                    is None && rel@ == tidy_dir(self.paths.components@),
            },
    {
        let components = chars_of(self.paths.components.as_str());
        let dot_slash = chars_of("./");
        proof {
            reveal_strlit("./");
        }
        let stripped = strip_leading_exec(&components, &dot_slash);
        let rel = trim_char_exec(&stripped, '/');
        let src = chars_of("src/");
        if !starts_with_exec(&rel, &src) || rel.len() == src.len() {
            return Err(ConfigError::NotUnderSrc { rel: string_of(&rel) });
        }
        let rest = slice_of(&rel, src.len(), rel.len());
        assert(rest@ =~= rel@.skip("src/"@.len() as int));
        let segments = pieces_exec(&rest, '/');
        let sep = chars_of("::");
        let joined = join_exec(&segments, &sep);
        let mut out = chars_of("crate::");
        push_all(&mut out, &joined);
        Ok(string_of(&out))
    }
}

} // verus!
