//! Derived run paths.
//!
//! The command line names a run directory; the configuration directory,
//! the lateral-inflow directory and the geodatabase file inside it are
//! derived here. Reading the directory itself is the caller's business.

use vstd::prelude::*;
use vstd::string::StrSliceExecFns;
use vstd::string::StringExecFns;

verus! {

/// The file name ends in `.gpkg`.
pub open spec fn is_gpkg_name(s: Seq<char>) -> bool {
    &&& s.len() >= 5
    &&& s[s.len() - 5] == '.'
    &&& s[s.len() - 4] == 'g'
    &&& s[s.len() - 3] == 'p'
    &&& s[s.len() - 2] == 'k'
    &&& s[s.len() - 1] == 'g'
}

/// The position of the first `.gpkg` name at or after `from`, or the
/// number of names when there is none.
pub open spec fn first_gpkg_from(names: Seq<String>, from: int) -> int
    decreases names.len() - from,
{
    if from < 0 || from >= names.len() {
        names.len() as int
    } else if is_gpkg_name(names[from]@) {
        from
    } else {
        first_gpkg_from(names, from + 1)
    }
}

proof fn lemma_first_gpkg_from(names: Seq<String>, from: int, k: int)
    requires
        0 <= from <= k <= names.len(),
        forall|j: int| from <= j < k ==> !is_gpkg_name(#[trigger] names[j]@),
        k == names.len() || is_gpkg_name(names[k]@),
    ensures
        first_gpkg_from(names, from) == k,
    decreases k - from,
{
    if from < names.len() && !is_gpkg_name(names[from]@) {
        lemma_first_gpkg_from(names, from + 1, k);
    }
}

/// Derive the configuration directory, the lateral-inflow directory
/// and the geodatabase file of a run from the run directory and the
/// names inside its configuration directory: the geodatabase is the
/// first `.gpkg` file there, if any.
pub fn get_args(route_dir: &str, config_files: &Vec<String>, internal_timestep_seconds: usize) -> (r:
    (String, String, Option<String>, usize))
    ensures
        r.0@ == route_dir@ + "/config"@,
        r.1@ == route_dir@ + "/outputs/ngen"@,
        r.2 == ({
            let i = first_gpkg_from(config_files@, 0);
            if i < config_files@.len() {
                Some(config_files@[i])
            } else {
                None::<String>
            }
        }),
        r.3 == internal_timestep_seconds,
{
    let mut config_dir = route_dir.to_owned();
    config_dir.append("/config");
    let mut csv_dir = route_dir.to_owned();
    csv_dir.append("/outputs/ngen");

    let n = config_files.len();
    let mut k: usize = 0;
    let mut found: Option<String> = None;
    while k < n && found.is_none()
        invariant
            0 <= k <= n,
            n == config_files@.len(),
            config_dir@ == route_dir@ + "/config"@,
            csv_dir@ == route_dir@ + "/outputs/ngen"@,
            forall|j: int| 0 <= j < k ==> !is_gpkg_name(#[trigger] config_files@[j]@),
            found is None,
        decreases n - k,
    {
        let name = &config_files[k];
        let len = name.as_str().unicode_len();
        let is_gpkg = len >= 5 && name.as_str().get_char(len - 5) == '.' && name.as_str().get_char(
            len - 4,
        ) == 'g' && name.as_str().get_char(len - 3) == 'p' && name.as_str().get_char(len - 2)
            == 'k' && name.as_str().get_char(len - 1) == 'g';
        proof {
            assert(is_gpkg == is_gpkg_name(config_files@[k as int]@));
        }
        if is_gpkg {
            found = Some(name.clone());
            proof {
                lemma_first_gpkg_from(config_files@, 0, k as int);
            }
            return (config_dir, csv_dir, found, internal_timestep_seconds);
        }
        k += 1;
    }
    proof {
        lemma_first_gpkg_from(config_files@, 0, n as int);
    }
    (config_dir, csv_dir, None, internal_timestep_seconds)
}

} // verus!
