//! Storage-directory resolution for a named store: pure path construction;
//! no I/O failure is possible.
use vstd::prelude::*;

verus! {

use vstd::string::StringExecFns;

/// Relies on dirs' data_local_dir: the platform's local data directory,
/// read from the environment. Nothing is promised of the value.
#[verifier::external_body]
pub fn data_local_dir() -> (r: Option<String>) {
    dirs::data_local_dir().map(|p| p.to_string_lossy().into_owned())
}

/// The directory of the store `name`: `<local root>/<name>` when a
/// project-local root exists and the global mode is off; otherwise
/// `<data dir>/twk/<name>`, falling back to the working directory when the
/// platform offers no data directory.
pub open spec fn resolve_dir_spec(
    data_dir: Option<Seq<char>>,
    name: Seq<char>,
    use_global: bool,
    local_root_exists: bool,
) -> Seq<char> {
    if !use_global && local_root_exists {
        ".wiki/"@ + name
    } else {
        (match data_dir {
            Some(d) => d,
            None => "."@,
        }) + "/twk/"@ + name
    }
}

/// Deterministic, side-effect-free resolution from plain inputs: the
/// caller supplies the platform data directory and whether the
/// project-local root is present on disk.
pub fn resolve_dir(
    data_dir: Option<String>,
    name: &str,
    use_global: bool,
    local_root_exists: bool,
) -> (r: String)
    ensures
        r@ == resolve_dir_spec(
            match data_dir {
                Some(d) => Some(d@),
                None => None,
            },
            name@,
            use_global,
            local_root_exists,
        ),
{
    if !use_global && local_root_exists {
        let mut r = String::new();
        r.append(".wiki/");
        r.append(name);
        proof {
            assert(r@ =~= ".wiki/"@ + name@);
        }
        r
    } else {
        let mut r = match data_dir {
            Some(d) => d,
            None => {
                let mut dot = String::new();
                dot.append(".");
                dot
            },
        };
        let ghost base = r@;
        r.append("/twk/");
        r.append(name);
        proof {
            assert(r@ =~= base + "/twk/"@ + name@);
        }
        r
    }
}

/// The resolved directory for the store `name`, read off the platform's
/// data directory. The existence of the project-local root is an I/O fact
/// the caller passes in.
pub fn get_wiki_path(name: &str, use_global: bool, local_root_exists: bool) -> (r: String)
    ensures
        exists|d: Option<Seq<char>>|
            r@ == #[trigger] resolve_dir_spec(d, name@, use_global, local_root_exists),
        (!use_global && local_root_exists) ==> r@ == resolve_dir_spec(
            None,
            name@,
            use_global,
            local_root_exists,
        ),
{
    let d = data_local_dir();
    let ghost dv: Option<Seq<char>> = match &d {
        Some(s) => Some(s@),
        None => None,
    };
    let r = resolve_dir(d, name, use_global, local_root_exists);
    proof {
        assert(r@ == resolve_dir_spec(dv, name@, use_global, local_root_exists));
    }
    r
}

} // verus!
