use tatara::gpu_runtime::{
    driver_error_is_out_of_memory, is_out_of_memory, Cause, DriverError, Error, LtoirError,
};
use tatara::kernel_module::{
    ensure_direct_path_kernels, load_kernel_module_with_fallback, KernelCheck,
};
use tatara::binary32::Binary32;
use tatara::text::{join, write_decimal, Piece};

fn driver(name: Option<&str>) -> DriverError {
    DriverError {
        name: name.map(|n| n.as_bytes().to_vec()),
        text: String::from("out of memory"),
    }
}

#[test]
fn non_cuda_error_is_not_out_of_memory() {
    // What is not an error of the driver or of the runtime is some other cause.
    let io_err = Cause::Other;
    assert!(!is_out_of_memory(&io_err));
    assert!(!is_out_of_memory(&Cause::Runtime(Error::KernelArtifact(
        "missing .ptx".into()
    ))));
}

#[test]
fn out_of_memory_is_known_by_name() {
    let name = Some("CUDA_ERROR_OUT_OF_MEMORY");
    assert!(driver_error_is_out_of_memory(&driver(name)));
    assert!(is_out_of_memory(&Cause::Driver(driver(name))));
    assert!(is_out_of_memory(&Cause::Runtime(Error::Cuda(driver(name)))));
    assert!(is_out_of_memory(&Cause::Runtime(Error::KernelLaunch {
        kernel: "radam_step",
        source: driver(name),
    })));
    for other in [
        None,
        Some(""),
        Some("CUDA_ERROR_OUT_OF_MEMOR"),
        Some("CUDA_ERROR_OUT_OF_MEMORY "),
        Some("CUDA_ERROR_OUT_OF_MEMORX"),
        Some("CUDA_ERROR_NOT_INITIALIZED"),
    ] {
        assert!(!is_out_of_memory(&Cause::Driver(driver(other))));
        assert!(!is_out_of_memory(&Cause::Runtime(Error::Cuda(driver(other)))));
    }
    assert!(!is_out_of_memory(&Cause::Runtime(Error::Ltoir(LtoirError {
        text: String::from("CUDA_ERROR_OUT_OF_MEMORY"),
    }))));
}

#[test]
fn errors_have_their_messages() {
    assert_eq!(Error::Cuda(driver(None)).describe(), "out of memory");
    assert_eq!(
        Error::Ltoir(LtoirError { text: String::from("no cubin") }).describe(),
        "no cubin"
    );
    assert_eq!(
        Error::KernelLaunch { kernel: "radam_step", source: driver(None) }.describe(),
        "CUDA kernel launch `radam_step` failed: out of memory"
    );
    assert_eq!(
        Error::KernelArtifact(String::from("missing .ptx")).describe(),
        "missing .ptx"
    );
}

#[test]
fn direct_path_kernels_are_looked_up_in_order() {
    let name = |check: KernelCheck| match check {
        KernelCheck::Load { name } => name,
        _ => "",
    };
    assert_eq!(name(ensure_direct_path_kernels(&[], 16)), "dense_mm_fwd_bucket");
    assert_eq!(
        name(ensure_direct_path_kernels(&[None], 16)),
        "dense_mm_bwd_weight_bucket_unsorted"
    );
    assert!(matches!(
        ensure_direct_path_kernels(&[None, None], 16),
        KernelCheck::Complete
    ));
}

#[test]
fn a_missing_kernel_is_named() {
    let text = |check: KernelCheck| match check {
        KernelCheck::Missing { message } => message,
        _ => String::new(),
    };
    let max = 16;
    let e = "named symbol not found";
    for (outcomes, name) in [
        (vec![Some(String::from(e))], "dense_mm_fwd_bucket"),
        (vec![None, Some(String::from(e))], "dense_mm_bwd_weight_bucket_unsorted"),
    ] {
        assert_eq!(
            text(ensure_direct_path_kernels(&outcomes, max)),
            format!(
                "CUDA kernel `{name}` not found in nnue_train module ({e}). \
                 num_buckets > {max} uses the direct GPU path; rebuild kernels:\n  \
                 bash scripts/build-kernels.sh\n\
                 (from repo root; or `cd bins/nnue_train && cargo-oxide build`)"
            )
        );
    }
}

#[test]
fn a_module_is_looked_for_in_its_crate() {
    let request = load_kernel_module_with_fallback("nnue_train", "/repo/bins/nnue_train");
    assert_eq!(request.name, "nnue_train");
    assert_eq!(request.manifest_dir, "/repo/bins/nnue_train");
}

#[test]
fn integers_are_written_in_decimal() {
    for n in [0u64, 7, 9, 10, 99, 100, 1_003_104, u64::MAX] {
        let mut out = String::from("n=");
        write_decimal(&mut out, n);
        assert_eq!(out, format!("n={n}"));
    }
}

#[test]
fn pieces_are_joined_in_order() {
    let a = Piece::Number(Binary32::from_bits(0));
    let pieces = [
        Piece::Count(7),
        Piece::Text(" of "),
        a,
        Piece::Text(", "),
        Piece::Count(1_003_104),
        a,
    ];
    let numbers = [String::from("x"), String::from("y")];
    assert_eq!(join(&pieces, &numbers), "7 of x, 1003104y");
    assert_eq!(join(&[], &[]), "");
    let column = |count: u64, width: usize| join(&[Piece::Column { count, width }], &[]);
    assert_eq!(column(42, 5), "   42");
    assert_eq!(column(42, 2), "42");
    assert_eq!(column(12_345, 3), "12345");
}
