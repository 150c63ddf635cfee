//! What the launcher's environment says.

use crate::text::{chars_of, is_ignoring_case, parse_i64, same, signed_of, trim, trimmed};
use vstd::prelude::*;

verus! {

/// Environment variables, each by its name and value.
pub struct Environment {
    pub vars: Vec<(String, String)>,
}

impl View for Environment {
    type V = Seq<(Seq<char>, Seq<char>)>;

    open spec fn view(&self) -> Seq<(Seq<char>, Seq<char>)> {
        self.vars@.map_values(|v: (String, String)| (v.0@, v.1@))
    }
}

/// The value of a variable: the first of that name.
pub open spec fn var(vars: Seq<(Seq<char>, Seq<char>)>, name: Seq<char>) -> Option<Seq<char>>
    decreases vars.len(),
{
    if vars.len() == 0 {
        None
    } else if vars[0].0 == name {
        Some(vars[0].1)
    } else {
        var(vars.skip(1), name)
    }
}

impl Environment {
    /// The value of a variable.
    pub fn get(&self, name: &str) -> (r: Option<&String>)
        ensures
            match r {
                Some(v) => var(self@, name@) == Some(v@),
                None => var(self@, name@) is None,
            },
    {
        let mut i: usize = 0;
        assert(self@.skip(0) =~= self@);
        while i < self.vars.len()
            invariant
                i <= self.vars.len(),
                var(self@, name@) == var(self@.skip(i as int), name@),
            decreases self.vars.len() - i,
        {
            proof {
                assert(self@.skip(i as int)[0] == (self.vars@[i as int].0@, self.vars@[i as int].1@));
                assert(self@.skip(i as int).skip(1) =~= self@.skip(i + 1));
            }
            if same(self.vars[i].0.as_str(), name) {
                return Some(&self.vars[i].1);
            }
            i += 1;
        }
        None
    }
}

/// The number that a variable holds, white space around it aside.
pub open spec fn var_number(vars: Seq<(Seq<char>, Seq<char>)>, name: Seq<char>) -> Option<int> {
    match var(vars, name) {
        Some(v) => signed_of(trimmed(v), i64::MIN as int, i64::MAX as int),
        None => None,
    }
}

/// The number of the first of some variables that holds one of at least `least`.
pub open spec fn first_number(
    vars: Seq<(Seq<char>, Seq<char>)>,
    names: Seq<Seq<char>>,
    least: int,
) -> Option<int>
    decreases names.len(),
{
    if names.len() == 0 {
        None
    } else if var_number(vars, names[0]) is Some && var_number(vars, names[0])->0 >= least {
        var_number(vars, names[0])
    } else {
        first_number(vars, names.skip(1), least)
    }
}

/// The variables in which launchers tell a rank its number.
pub open spec fn rank_names() -> Seq<Seq<char>> {
    seq![
        "OMPI_COMM_WORLD_RANK"@,
        "PMI_RANK"@,
        "PMIX_RANK"@,
        "MV2_COMM_WORLD_RANK"@,
        "SLURM_PROCID"@,
        "PALS_RANKID"@,
        "ALPS_APP_PE"@,
    ]
}

/// The variables in which launchers tell how many ranks there are.
pub open spec fn size_names() -> Seq<Seq<char>> {
    seq![
        "OMPI_COMM_WORLD_SIZE"@,
        "PMI_SIZE"@,
        "MV2_COMM_WORLD_SIZE"@,
        "SLURM_NTASKS"@,
        "SLURM_NPROCS"@,
        "PALS_NRANKS"@,
    ]
}

/// The MPI rank that the environment gives.
pub open spec fn rank_in_env(vars: Seq<(Seq<char>, Seq<char>)>) -> Option<int> {
    first_number(vars, rank_names(), i64::MIN as int)
}

/// The MPI job size that the environment gives.
pub open spec fn size_in_env(vars: Seq<(Seq<char>, Seq<char>)>) -> Option<int> {
    first_number(vars, size_names(), 1)
}

/// What a list of names is.
pub open spec fn names_of(v: Seq<&'static str>) -> Seq<Seq<char>> {
    v.map_values(|s: &'static str| s@)
}

pub open spec fn as_int(x: Option<i64>) -> Option<int> {
    match x {
        Some(v) => Some(v as int),
        None => None,
    }
}

fn number_of_first(env: &Environment, names: &Vec<&'static str>, least: i64) -> (r: Option<i64>)
    ensures
        as_int(r) == first_number(env@, names_of(names@), least as int),
{
    let ghost all = names_of(names@);
    let mut i: usize = 0;
    assert(all.skip(0) =~= all);
    while i < names.len()
        invariant
            i <= names.len(),
            all == names_of(names@),
            first_number(env@, all, least as int) == first_number(
                env@,
                all.skip(i as int),
                least as int,
            ),
        decreases names.len() - i,
    {
        proof {
            assert(all.skip(i as int)[0] == names@[i as int]@);
            assert(all.skip(i as int).skip(1) =~= all.skip(i + 1));
        }
        match env.get(names[i]) {
            Some(v) => {
                let c: Vec<char> = chars_of(v.as_str());
                match parse_i64(trim(c.as_slice())) {
                    Some(n) => {
                        if n >= least {
                            return Some(n);
                        }
                    },
                    None => {},
                }
            },
            None => {},
        }
        i += 1;
    }
    None
}

/// Global MPI rank from the launcher's environment. A launcher missing here would make
/// its ranks collide on rank 0.
pub fn rank_from_env(env: &Environment) -> (r: Option<i64>)
    ensures
        as_int(r) == rank_in_env(env@),
{
    let names: Vec<&'static str> = vec![
        "OMPI_COMM_WORLD_RANK",
        "PMI_RANK",
        "PMIX_RANK",
        "MV2_COMM_WORLD_RANK",
        "SLURM_PROCID",
        "PALS_RANKID",
        "ALPS_APP_PE",
    ];
    assert(names_of(names@) =~= rank_names());
    number_of_first(env, &names, i64::MIN)
}

/// Total MPI job size from the launcher's environment, where it is above zero. Lets the
/// aggregation of ranks detect that some are missing.
pub fn mpi_world_size_from_env(env: &Environment) -> (r: Option<i64>)
    ensures
        as_int(r) == size_in_env(env@),
{
    let names: Vec<&'static str> = vec![
        "OMPI_COMM_WORLD_SIZE",
        "PMI_SIZE",
        "MV2_COMM_WORLD_SIZE",
        "SLURM_NTASKS",
        "SLURM_NPROCS",
        "PALS_NRANKS",
    ];
    assert(names_of(names@) =~= size_names());
    number_of_first(env, &names, 1)
}

/// The name of this node: the kernel's, else the environment's, else `unknown`.
pub open spec fn host_name(kernel: Option<Seq<char>>, env: Option<Seq<char>>) -> Seq<char> {
    let own = match kernel {
        Some(k) => trimmed(k),
        None => Seq::empty(),
    };
    if own.len() > 0 {
        own
    } else {
        match env {
            Some(h) => h,
            None => "unknown"@,
        }
    }
}

/// This node's hostname for tagging a rank's snapshot, from the text of the kernel's
/// `hostname` file and from `HOSTNAME`.
pub fn node_host(kernel: Option<&str>, env: &Environment) -> (r: String)
    ensures
        r@ == host_name(
            match kernel {
                Some(k) => Some(k@),
                None => None,
            },
            var(env@, "HOSTNAME"@),
        ),
{
    match kernel {
        Some(k) => {
            let v: Vec<char> = chars_of(k);
            let t: &[char] = trim(v.as_slice());
            if t.len() > 0 {
                return crate::text::string_of(t);
            }
        },
        None => {},
    }
    match env.get("HOSTNAME") {
        Some(h) => h.clone(),
        None => "unknown".to_string(),
    }
}

// ------------------------------------------------------------------ OpenMP settings

/// Whether a variable is set to something.
pub open spec fn is_set(vars: Seq<(Seq<char>, Seq<char>)>, name: Seq<char>) -> bool {
    match var(vars, name) {
        Some(v) => trimmed(v).len() > 0,
        None => false,
    }
}

/// Whether a variable is set to a word, in any case.
pub open spec fn is_word(vars: Seq<(Seq<char>, Seq<char>)>, name: Seq<char>, word: Seq<char>) -> bool {
    match var(vars, name) {
        Some(v) => crate::omp::same_word(trimmed(v), word),
        None => false,
    }
}

/// Whether OpenMP threads are bound to CPUs: `OMP_PROC_BIND` binds unless it says no, and
/// places or an affinity list bind as well.
pub open spec fn threads_bound(vars: Seq<(Seq<char>, Seq<char>)>) -> bool {
    ||| is_set(vars, "OMP_PROC_BIND"@) && !is_word(vars, "OMP_PROC_BIND"@, "false"@) && !is_word(
        vars,
        "OMP_PROC_BIND"@,
        "disabled"@,
    )
    ||| is_set(vars, "OMP_PLACES"@)
    ||| is_set(vars, "GOMP_CPU_AFFINITY"@)
}

/// Whether the runtime is told to spin for ever: the LLVM or Intel one by its block time,
/// the GNU one by its spin count.
pub open spec fn spins_forever(vars: Seq<(Seq<char>, Seq<char>)>) -> bool {
    is_word(vars, "KMP_BLOCKTIME"@, "infinite"@) || is_word(
        vars,
        "GOMP_SPINCOUNT"@,
        "infinite"@,
    )
}

impl Environment {
    fn set(&self, name: &str) -> (r: bool)
        ensures
            r == is_set(self@, name@),
    {
        match self.get(name) {
            Some(v) => {
                let c: Vec<char> = chars_of(v.as_str());
                trim(c.as_slice()).len() > 0
            },
            None => false,
        }
    }

    fn word(&self, name: &str, word: &str) -> (r: bool)
        ensures
            r == is_word(self@, name@, word@),
    {
        match self.get(name) {
            Some(v) => {
                let c: Vec<char> = chars_of(v.as_str());
                is_ignoring_case(trim(c.as_slice()), word)
            },
            None => false,
        }
    }

    /// Whether OpenMP threads are bound to CPUs.
    pub fn omp_bound(&self) -> (r: bool)
        ensures
            r == threads_bound(self@),
    {
        (self.set("OMP_PROC_BIND") && !self.word("OMP_PROC_BIND", "false") && !self.word(
            "OMP_PROC_BIND",
            "disabled",
        )) || self.set("OMP_PLACES") || self.set("GOMP_CPU_AFFINITY")
    }

    /// Whether the OpenMP runtime is told to spin for ever.
    pub fn forces_spin(&self) -> (r: bool)
        ensures
            r == spins_forever(self@),
    {
        self.word("KMP_BLOCKTIME", "infinite") || self.word("GOMP_SPINCOUNT", "infinite")
    }
}

} // verus!
