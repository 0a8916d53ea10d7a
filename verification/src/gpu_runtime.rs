//! Errors of the GPU runtime.
//!
//! A driver's error is held by what the host reads of it: its symbolic name and its text.

use vstd::prelude::*;
use vstd::string::*;

verus! {

/// An error of the driver.
#[derive(Debug)]
pub struct DriverError {
    /// The symbolic name, if the driver knows the error.
    pub name: Option<Vec<u8>>,
    /// The text of the error.
    pub text: String,
}

/// An error in loading compiled code.
#[derive(Debug)]
pub struct LtoirError {
    /// The text of the error.
    pub text: String,
}

/// An error of the GPU runtime.
#[derive(Debug)]
pub enum Error {
    /// The driver failed.
    Cuda(DriverError),
    /// Compiled code could not be loaded.
    Ltoir(LtoirError),
    /// A kernel could not be launched.
    KernelLaunch { kernel: &'static str, source: DriverError },
    /// A kernel artifact was not found or not converted.
    KernelArtifact(String),
}

impl Error {
    /// The message of the error.
    pub open spec fn message(&self) -> Seq<char> {
        match self {
            Error::Cuda(e) => e.text@,
            Error::Ltoir(e) => e.text@,
            Error::KernelLaunch { kernel, source } => "CUDA kernel launch `"@ + kernel@
                + "` failed: "@ + source.text@,
            Error::KernelArtifact(text) => text@,
        }
    }

    /// The message of the error.
    pub fn describe(&self) -> (r: String)
        ensures
            r@ == self.message(),
    {
        match self {
            Error::Cuda(e) => e.text.clone(),
            Error::Ltoir(e) => e.text.clone(),
            Error::KernelLaunch { kernel, source } => {
                let mut r = String::new();
                r.append("CUDA kernel launch `");
                r.append(kernel);
                r.append("` failed: ");
                r.append(source.text.as_str());
                assert(r@ =~= self.message());
                r
            },
            Error::KernelArtifact(text) => text.clone(),
        }
    }
}

/// An error of any origin, told apart as far as the runtime knows it.
#[derive(Debug)]
pub enum Cause {
    /// An error of the driver, not wrapped.
    Driver(DriverError),
    /// An error of the runtime.
    Runtime(Error),
    /// Any other error.
    Other,
}

/// The bytes spell the text out in ASCII.
pub open spec fn spells(bytes: Seq<u8>, text: Seq<char>) -> bool {
    &&& bytes.len() == text.len()
    &&& forall|i: int| 0 <= i < bytes.len() ==> #[trigger] bytes[i] as int == text[i] as int
}

impl DriverError {
    /// The driver ran out of memory.
    pub open spec fn out_of_memory(&self) -> bool {
        self.name matches Some(name) && spells(name@, "CUDA_ERROR_OUT_OF_MEMORY"@)
    }
}

impl Cause {
    /// The cause is a driver that ran out of memory.
    pub open spec fn out_of_memory(&self) -> bool {
        match self {
            Cause::Driver(e) => e.out_of_memory(),
            Cause::Runtime(Error::Cuda(e)) => e.out_of_memory(),
            Cause::Runtime(Error::KernelLaunch { source, .. }) => source.out_of_memory(),
            _ => false,
        }
    }
}

/// Whether a driver's error is that it ran out of memory.
pub fn driver_error_is_out_of_memory(e: &DriverError) -> (r: bool)
    ensures
        r == e.out_of_memory(),
{
    match &e.name {
        None => false,
        Some(name) => {
            let wanted = "CUDA_ERROR_OUT_OF_MEMORY";
            proof {
                reveal_strlit("CUDA_ERROR_OUT_OF_MEMORY");
            }
            if name.len() != wanted.unicode_len() {
                return false;
            }
            let mut i: usize = 0;
            while i < name.len()
                invariant
                    i <= name@.len(),
                    e.name == Some(*name),
                    wanted@ == "CUDA_ERROR_OUT_OF_MEMORY"@,
                    name@.len() == wanted@.len(),
                    forall|k: int| 0 <= k < i ==> #[trigger] name@[k] as int == wanted@[k] as int,
                decreases name@.len() - i,
            {
                if name[i] as u32 != wanted.get_char(i) as u32 {
                    assert(name@[i as int] as int != wanted@[i as int] as int);
                    return false;
                }
                i = i + 1;
            }
            true
        },
    }
}

/// Whether an error means that the driver ran out of memory: an error of the driver, by itself or
/// within an error of the runtime, whose name says so. Nothing else does.
pub fn is_out_of_memory(err: &Cause) -> (r: bool)
    ensures
        r == err.out_of_memory(),
{
    match err {
        Cause::Driver(e) => driver_error_is_out_of_memory(e),
        Cause::Runtime(Error::Cuda(e)) => driver_error_is_out_of_memory(e),
        Cause::Runtime(Error::KernelLaunch { kernel: _, source }) => {
            driver_error_is_out_of_memory(source)
        },
        _ => false,
    }
}

/// It does not matter whether an error of the driver comes by itself, as an error of the runtime,
/// or as a failed launch.
pub proof fn law_wrapping_keeps_out_of_memory(e: DriverError, kernel: &'static str)
    ensures
        Cause::Runtime(Error::Cuda(e)).out_of_memory() == Cause::Driver(e).out_of_memory(),
        Cause::Runtime(Error::KernelLaunch { kernel, source: e }).out_of_memory() == Cause::Driver(
            e,
        ).out_of_memory(),
{
}

/// An error that does not come from the driver is never taken for out of memory.
pub proof fn law_other_errors_are_not_out_of_memory(text: String, load: LtoirError)
    ensures
        !Cause::Other.out_of_memory(),
        !Cause::Runtime(Error::KernelArtifact(text)).out_of_memory(),
        !Cause::Runtime(Error::Ltoir(load)).out_of_memory(),
{
}

/// Whether the driver ran out of memory is told by its name for the error alone: an error without a
/// name is another one, the text does not matter, and there is one such name.
pub proof fn law_out_of_memory_goes_by_the_name(a: DriverError, b: DriverError)
    ensures
        a.out_of_memory() ==> a.name is Some,
        a.name == b.name ==> a.out_of_memory() == b.out_of_memory(),
        a.out_of_memory() && b.out_of_memory() ==> a.name->0@ == b.name->0@,
        a.out_of_memory() ==> a.name->0@.len() == 24,
{
    reveal_strlit("CUDA_ERROR_OUT_OF_MEMORY");
    if a.out_of_memory() && b.out_of_memory() {
        assert(a.name->0@ =~= b.name->0@);
    }
}

/// The message of an error ends with the text of its origin; but for a failed launch, which names
/// the kernel before it, it is that text.
pub proof fn law_message_ends_with_the_text(
    e: DriverError,
    load: LtoirError,
    text: String,
    kernel: &'static str,
)
    ensures
        Error::Cuda(e).message() == e.text@,
        Error::Ltoir(load).message() == load.text@,
        Error::KernelArtifact(text).message() == text@,
        ({
            let m = Error::KernelLaunch { kernel, source: e }.message();
            &&& m.len() == 20 + kernel@.len() + 10 + e.text@.len()
            &&& m.subrange(20, 20 + kernel@.len() as int) == kernel@
            &&& m.skip(30 + kernel@.len() as int) == e.text@
        }),
{
    reveal_strlit("CUDA kernel launch `");
    reveal_strlit("` failed: ");
    let m = Error::KernelLaunch { kernel, source: e }.message();
    assert(m.subrange(20, 20 + kernel@.len() as int) =~= kernel@);
    assert(m.skip(30 + kernel@.len() as int) =~= e.text@);
}

} // verus!
