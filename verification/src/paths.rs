//! Where configuration and data files live: a custom directory first,
//! then the current directory when it already holds config files, then
//! the platform's directory for the application, else `.`.

use vstd::prelude::*;
use crate::strs::{push_char, push_str};

verus! {

/// Directory overrides for the application's files.
#[derive(Clone, Debug)]
pub struct PathConfig {
    /// Custom config directory (from the command line or the environment).
    pub config_dir: Option<String>,
    /// The current directory, when it holds one of the config files
    /// (`playa.json`, `playa_cache.json`, `playa.log`).
    pub local_dir: Option<String>,
}

/// A path joined with a file name: an absolute name replaces the path, an
/// empty path gives the name, otherwise a `/` separates them unless the
/// path already ends with one.
pub open spec fn spec_join(dir: Seq<char>, name: Seq<char>) -> Seq<char> {
    if name.len() > 0 && name[0] == '/' {
        name
    } else if dir.len() == 0 {
        name
    } else if dir.last() == '/' {
        dir + name
    } else {
        dir + "/"@ + name
    }
}

/// The directory the application's files go to, given the platform's
/// base directory (if any): the custom directory, the current directory
/// when it holds config files, `{platform}/playa`, or `.`.
pub open spec fn spec_base_dir(config: PathConfig, platform: Option<Seq<char>>) -> Seq<char> {
    match config.config_dir {
        Some(d) => d@,
        None => match config.local_dir {
            Some(l) => l@,
            None => match platform {
                Some(p) => spec_join(p, "playa"@),
                None => "."@,
            },
        },
    }
}

/// Join a directory and a file name (see `spec_join`).
pub fn join_path(dir: &str, name: &str) -> (r: String)
    ensures
        r@ == spec_join(dir@, name@),
{
    let mut out = String::new();
    let nl = name.unicode_len();
    if nl > 0 && name.get_char(0) == '/' {
        push_str(&mut out, name);
        return out;
    }
    let dl = dir.unicode_len();
    if dl == 0 {
        push_str(&mut out, name);
        return out;
    }
    push_str(&mut out, dir);
    if dir.get_char(dl - 1) != '/' {
        push_char(&mut out, '/');
    }
    push_str(&mut out, name);
    proof {
        reveal_strlit("/");
        assert(out@ =~= spec_join(dir@, name@));
    }
    out
}

fn base_dir(config: &PathConfig, platform: Option<String>) -> (r: String)
    ensures
        r@ == spec_base_dir(*config, match platform {
            Some(p) => Some(p@),
            None => None,
        }),
{
    match &config.config_dir {
        Some(d) => {
            let mut s = String::new();
            push_str(&mut s, d.as_str());
            s
        },
        None => match &config.local_dir {
            Some(l) => {
                let mut s = String::new();
                push_str(&mut s, l.as_str());
                s
            },
            None => match platform {
                Some(p) => join_path(p.as_str(), "playa"),
                None => {
                    let mut s = String::new();
                    push_char(&mut s, '.');
                    proof {
                        reveal_strlit(".");
                        assert(s@ =~= "."@);
                    }
                    s
                },
            },
        },
    }
}

/// Calls `dirs_next::config_dir` and returns the path as a string (lossy
/// for non-UTF-8 paths). The directory comes from the environment, so
/// nothing is claimed of it.
#[verifier::external_body]
fn platform_config_dir() -> (r: Option<String>) {
    dirs_next::config_dir().map(|p| p.to_string_lossy().into_owned())
}

/// Calls `dirs_next::data_dir` and returns the path as a string (lossy
/// for non-UTF-8 paths). The directory comes from the environment, so
/// nothing is claimed of it.
#[verifier::external_body]
fn platform_data_dir() -> (r: Option<String>) {
    dirs_next::data_dir().map(|p| p.to_string_lossy().into_owned())
}

/// The path of file `name` under the directory chosen for the given
/// platform base directory (see `spec_base_dir`).
pub fn file_in(name: &str, config: &PathConfig, platform: Option<String>) -> (r: String)
    ensures
        r@ == spec_join(spec_base_dir(*config, match platform {
            Some(p) => Some(p@),
            None => None,
        }), name@),
{
    let dir = base_dir(config, platform);
    join_path(dir.as_str(), name)
}

/// Path of a configuration file: under the custom directory, else the
/// current directory when it holds config files, else the platform's
/// config directory for the application.
pub fn config_file(name: &str, config: &PathConfig) -> (r: String)
    ensures
        config.config_dir matches Some(d) ==> r@ == spec_join(d@, name@),
        config.config_dir is None && config.local_dir is Some ==> r@ == spec_join(config.local_dir->0@, name@),
        exists|platform: Option<Seq<char>>| r@ == spec_join(#[trigger] spec_base_dir(*config, platform), name@),
{
    let platform = platform_config_dir();
    let ghost pv: Option<Seq<char>> = match &platform {
        Some(p) => Some(p@),
        None => None,
    };
    let r = file_in(name, config, platform);
    proof {
        assert(r@ == spec_join(spec_base_dir(*config, pv), name@));
    }
    r
}

/// Path of a data file (cache, logs): under the custom directory, else the
/// current directory when it holds config files, else the platform's data
/// directory for the application.
pub fn data_file(name: &str, config: &PathConfig) -> (r: String)
    ensures
        config.config_dir matches Some(d) ==> r@ == spec_join(d@, name@),
        config.config_dir is None && config.local_dir is Some ==> r@ == spec_join(config.local_dir->0@, name@),
        exists|platform: Option<Seq<char>>| r@ == spec_join(#[trigger] spec_base_dir(*config, platform), name@),
{
    let platform = platform_data_dir();
    let ghost pv: Option<Seq<char>> = match &platform {
        Some(p) => Some(p@),
        None => None,
    };
    let r = file_in(name, config, platform);
    proof {
        assert(r@ == spec_join(spec_base_dir(*config, pv), name@));
    }
    r
}

} // verus!
