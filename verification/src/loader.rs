//! The computable part of loading lateral inflows and sizing the run.
//!
//! Reading the per-reach file is the caller's business; the library
//! decides which column carries the values and how many internal steps
//! the run has.

use vstd::prelude::*;
use vstd::string::StrSliceExecFns;

verus! {

/// Character-wise string equality.
pub fn str_eq(a: &str, b: &str) -> (r: bool)
    ensures
        r == (a@ == b@),
{
    let na = a.unicode_len();
    let nb = b.unicode_len();
    if na != nb {
        proof {
            if a@ == b@ {
                assert(false);
            }
        }
        return false;
    }
    let mut k: usize = 0;
    while k < na
        invariant
            0 <= k <= na,
            na == a@.len(),
            na == b@.len(),
            forall|j: int| 0 <= j < k ==> a@[j] == b@[j],
        decreases na - k,
    {
        if a.get_char(k) != b.get_char(k) {
            proof {
                if a@ == b@ {
                    assert(a@[k as int] == b@[k as int]);
                    assert(false);
                }
            }
            return false;
        }
        k += 1;
    }
    proof {
        assert(a@ =~= b@);
    }
    true
}

/// The position of the first header equal to `name` at or after
/// `from`, or the header count when there is none.
pub open spec fn first_header_match(headers: Seq<String>, name: Seq<char>, from: int) -> int
    decreases headers.len() - from,
{
    if from < 0 || from >= headers.len() {
        headers.len() as int
    } else if headers[from]@ == name {
        from
    } else {
        first_header_match(headers, name, from + 1)
    }
}

proof fn lemma_first_header_match(headers: Seq<String>, name: Seq<char>, from: int, k: int)
    requires
        0 <= from <= k <= headers.len(),
        forall|j: int| from <= j < k ==> (#[trigger] headers[j]@) != name,
        k == headers.len() || headers[k]@ == name,
    ensures
        first_header_match(headers, name, from) == k,
    decreases k - from,
{
    if from < headers.len() && headers[from]@ != name {
        lemma_first_header_match(headers, name, from + 1, k);
    }
}

/// Which column of the lateral-inflow file carries the values: the
/// column named `var_name` when a header of that name exists, else the
/// third column.
pub fn qlat_column_index(headers: &Vec<String>, var_name: Option<&str>) -> (idx: usize)
    ensures
        idx == (match var_name {
            Some(name) => {
                let i = first_header_match(headers@, name@, 0);
                if i < headers@.len() {
                    i
                } else {
                    2int
                }
            },
            None => 2int,
        }),
{
    match var_name {
        None => 2,
        Some(name) => {
            let n = headers.len();
            let mut k: usize = 0;
            while k < n
                invariant
                    0 <= k <= n,
                    n == headers@.len(),
                    var_name == Some(name),
                    forall|j: int| 0 <= j < k ==> (#[trigger] headers@[j]@) != name@,
                decreases n - k,
            {
                if str_eq(headers[k].as_str(), name) {
                    proof {
                        lemma_first_header_match(headers@, name@, 0, k as int);
                    }
                    return k;
                }
                k += 1;
            }
            proof {
                lemma_first_header_match(headers@, name@, 0, n as int);
            }
            2
        },
    }
}

/// How many external steps a lateral-inflow file with `line_count`
/// lines covers: the header and the first record describe the start.
pub fn external_step_count(line_count: usize) -> (r: usize)
    ensures
        r == if line_count >= 2 {
            line_count - 2
        } else {
            0int
        },
{
    if line_count >= 2 {
        line_count - 2
    } else {
        0
    }
}

/// How many internal steps the run has: one external interval more
/// than the external step count, each split by the internal time step.
pub fn total_timesteps(
    max_external_steps: usize,
    external_timestep_seconds: usize,
    internal_timestep_seconds: usize,
) -> (r: usize)
    requires
        internal_timestep_seconds > 0,
        max_external_steps < usize::MAX,
        (max_external_steps + 1) * (external_timestep_seconds as int
            / internal_timestep_seconds as int) <= usize::MAX,
    ensures
        r == (max_external_steps + 1) * (external_timestep_seconds as int
            / internal_timestep_seconds as int),
{
    (max_external_steps + 1) * (external_timestep_seconds / internal_timestep_seconds)
}

} // verus!
