//! Loading the trainer's kernel module, and checking what it holds.

use crate::text::{decimal, write_decimal};
use vstd::prelude::*;
use vstd::string::*;

verus! {

/// A kernel module to load: its name, and the directory from which its artifact is looked for.
#[derive(Debug)]
pub struct ModuleRequest {
    pub name: String,
    pub manifest_dir: String,
}

/// The request for the module `name` of the crate in `manifest_dir`.
pub fn load_kernel_module_with_fallback(name: &str, manifest_dir: &str) -> (r: ModuleRequest)
    ensures
        r.name@ == name@,
        r.manifest_dir@ == manifest_dir@,
{
    ModuleRequest { name: name.to_owned(), manifest_dir: manifest_dir.to_owned() }
}

/// The kernels of the direct path, in the order in which they are looked for.
pub open spec fn direct_path_kernels() -> Seq<&'static str> {
    seq!["dense_mm_fwd_bucket", "dense_mm_bwd_weight_bucket_unsorted"]
}

/// What is left to do in checking a module.
#[derive(Debug)]
pub enum KernelCheck {
    /// Look a kernel up.
    Load { name: &'static str },
    /// All kernels are there.
    Complete,
    /// A kernel is missing.
    Missing { message: String },
}

/// What is said of a missing kernel, given the text of the error.
pub open spec fn missing_message(name: &str, error: Seq<char>, bucket_sort_max_n: usize) -> Seq<
    char,
> {
    "CUDA kernel `"@ + name@ + "` not found in nnue_train module ("@ + error + "). num_buckets > "@
        + decimal(bucket_sort_max_n as nat)
        + " uses the direct GPU path; rebuild kernels:\n"@ + "  bash scripts/build-kernels.sh\n"@
        + "(from repo root; or `cd bins/nnue_train && cargo-oxide build`)"@
}

/// The first kernel whose lookup failed.
pub open spec fn first_failure(outcomes: Seq<Option<String>>, i: int) -> Option<int>
    decreases outcomes.len() - i,
{
    if i >= outcomes.len() {
        None
    } else if outcomes[i] is Some {
        Some(i)
    } else {
        first_failure(outcomes, i + 1)
    }
}

/// What is said of a missing kernel.
fn describe_missing(name: &str, error: &String, bucket_sort_max_n: usize) -> (r: String)
    ensures
        r@ == missing_message(name, error@, bucket_sort_max_n),
{
    let mut r = String::new();
    r.append("CUDA kernel `");
    r.append(name);
    r.append("` not found in nnue_train module (");
    r.append(error.as_str());
    r.append("). num_buckets > ");
    write_decimal(&mut r, bucket_sort_max_n as u64);
    r.append(" uses the direct GPU path; rebuild kernels:\n");
    r.append("  bash scripts/build-kernels.sh\n");
    r.append("(from repo root; or `cd bins/nnue_train && cargo-oxide build`)");
    assert(r@ =~= missing_message(name, error@, bucket_sort_max_n));
    r
}

/// Checks that a module holds the kernels of the direct path, which is taken for more than
/// `bucket_sort_max_n` buckets. `outcomes` are those of the lookups so far: nothing, or the text of
/// the error. The first failure ends the check.
pub fn ensure_direct_path_kernels(outcomes: &[Option<String>], bucket_sort_max_n: usize) -> (r:
    KernelCheck)
    requires
        outcomes@.len() <= direct_path_kernels().len(),
    ensures
        match first_failure(outcomes@, 0) {
            Some(i) => r matches KernelCheck::Missing { message } && message@ == missing_message(
                direct_path_kernels()[i],
                outcomes@[i]->0@,
                bucket_sort_max_n,
            ),
            None => if outcomes@.len() < direct_path_kernels().len() {
                r matches KernelCheck::Load { name } && name@
                    == direct_path_kernels()[outcomes@.len() as int]@
            } else {
                r is Complete
            },
        },
{
    let kernels: [&'static str; 2] = [
        "dense_mm_fwd_bucket",
        "dense_mm_bwd_weight_bucket_unsorted",
    ];
    assert(kernels@ =~= direct_path_kernels());
    let mut i: usize = 0;
    while i < outcomes.len()
        invariant
            i <= outcomes@.len() <= 2,
            kernels@ == direct_path_kernels(),
            first_failure(outcomes@, 0) == first_failure(outcomes@, i as int),
        decreases outcomes@.len() - i,
    {
        if let Some(error) = &outcomes[i] {
            return KernelCheck::Missing {
                message: describe_missing(kernels[i], error, bucket_sort_max_n),
            };
        }
        i = i + 1;
    }
    if i < 2 {
        KernelCheck::Load { name: kernels[i] }
    } else {
        KernelCheck::Complete
    }
}

/// The failure that is told of is a failure, and none came before it; where none is told of, no
/// lookup failed.
pub proof fn law_first_failure_comes_first(outcomes: Seq<Option<String>>, i: int)
    requires
        0 <= i <= outcomes.len(),
    ensures
        match first_failure(outcomes, i) {
            Some(k) => {
                &&& i <= k < outcomes.len()
                &&& outcomes[k] is Some
                &&& forall|j: int| i <= j < k ==> #[trigger] outcomes[j] is None
            },
            None => forall|j: int| i <= j < outcomes.len() ==> #[trigger] outcomes[j] is None,
        },
    decreases outcomes.len() - i,
{
    if i < outcomes.len() && outcomes[i] is None {
        law_first_failure_comes_first(outcomes, i + 1);
    }
}

/// The direct path has two kernels: the forward product, then the weight gradient.
pub proof fn law_direct_path_has_two_kernels()
    ensures
        direct_path_kernels().len() == 2,
        direct_path_kernels()[0]@ == "dense_mm_fwd_bucket"@,
        direct_path_kernels()[1]@ == "dense_mm_bwd_weight_bucket_unsorted"@,
{
}

/// What is said of a missing kernel names it first, and tells two errors apart.
pub proof fn law_missing_kernel_is_named(
    name: &str,
    a: Seq<char>,
    b: Seq<char>,
    bucket_sort_max_n: usize,
)
    ensures
        missing_message(name, a, bucket_sort_max_n).take(13 + name@.len() as int)
            == "CUDA kernel `"@ + name@,
        missing_message(name, a, bucket_sort_max_n) == missing_message(name, b, bucket_sort_max_n)
            ==> a == b,
{
    reveal_strlit("CUDA kernel `");
    let start = "CUDA kernel `"@ + name@;
    let m = missing_message(name, a, bucket_sort_max_n);
    let n = missing_message(name, b, bucket_sort_max_n);
    assert(m.take(13 + name@.len() as int) =~= start);
    let head = start + "` not found in nnue_train module ("@;
    let from = head.len() as int;
    let rest = "). num_buckets > "@ + decimal(bucket_sort_max_n as nat)
        + " uses the direct GPU path; rebuild kernels:\n"@ + "  bash scripts/build-kernels.sh\n"@
        + "(from repo root; or `cd bins/nnue_train && cargo-oxide build`)"@;
    assert(m =~= head + a + rest);
    assert(n =~= head + b + rest);
    if m == n {
        assert(a.len() == b.len());
        assert(m.subrange(from, from + a.len()) =~= a);
        assert(n.subrange(from, from + a.len()) =~= b);
    }
}

} // verus!
