use std::marker::PhantomData;

use nexus_pp::bootstrap::{bootstrap_program, is_bootstrap_shaped, BOOTSTRAP_BASE};
use nexus_pp::circuit::{Tr, VMTrace};
use nexus_pp::codec::{decode_record, encode_record, read_u64, write_u64};
use nexus_pp::error::{CodecError, ProofError, SetupError, ShapeError, SynthesisError, VMError};
use nexus_pp::generate::{gen_pp, gen_vm_pp};
use nexus_pp::params::{from_record, to_record, MatrixEntry, PPDisk, PublicParams, R1CSShape, ROConfig};
use nexus_pp::persist::{decode_pp, encode_pp};

fn entry(row: u64, col: u64, value: Vec<u8>) -> MatrixEntry {
    MatrixEntry { row, col, value }
}

fn sample_shape() -> R1CSShape {
    R1CSShape {
        num_constraints: 3,
        num_vars: 4,
        num_io: 2,
        a: vec![entry(0, 0, vec![1, 0, 0]), entry(1, 2, vec![5])],
        b: vec![entry(2, 3, vec![7, 7])],
        c: vec![],
    }
}

fn secondary_shape() -> R1CSShape {
    R1CSShape {
        num_constraints: 2,
        num_vars: 3,
        num_io: 1,
        a: vec![entry(0, 1, vec![9])],
        b: vec![],
        c: vec![entry(1, 0, vec![2, 4, 6, 8])],
    }
}

fn sample_ro_config() -> ROConfig {
    ROConfig {
        full_rounds: 8,
        partial_rounds: 31,
        rate: 2,
        capacity: 1,
        round_constants: vec![vec![0xAA, 0xBB], vec![0xCC]],
        mds: vec![vec![1, 2], vec![3, 4]],
    }
}

fn sample_params() -> PublicParams<Tr> {
    PublicParams {
        ro_config: sample_ro_config(),
        shape: sample_shape(),
        shape_secondary: secondary_shape(),
        pp: vec![vec![10, 11], vec![12], vec![13, 14, 15], vec![16]],
        pp_secondary: vec![vec![20], vec![21], vec![22]],
        digest: vec![0xDE, 0xAD, 0xBE, 0xEF],
        _step_circuit: PhantomData,
    }
}

fn sample_record() -> PPDisk {
    to_record(sample_params())
}

#[test]
fn u64_encoding_is_little_endian() {
    let mut out: Vec<u8> = Vec::new();
    write_u64(&mut out, 0x0102030405060708);
    assert_eq!(out, vec![0x08, 0x07, 0x06, 0x05, 0x04, 0x03, 0x02, 0x01]);
    let back = read_u64(&out, 0);
    assert_eq!(back, Some((0x0102030405060708, 8)));
}

#[test]
fn record_codec_round_trip() {
    let rec = sample_record();
    let bytes = encode_record(&rec);
    let back = decode_record(&bytes).expect("canonical encoding must decode");
    assert_eq!(back, sample_record());
}

#[test]
fn record_codec_rejects_trailing_bytes() {
    let rec = sample_record();
    let mut bytes = encode_record(&rec);
    bytes.push(0);
    assert!(decode_record(&bytes).is_none());
}

#[test]
fn record_codec_rejects_truncation() {
    let rec = sample_record();
    let bytes = encode_record(&rec);
    let mut i: usize = 0;
    while i < bytes.len() {
        let truncated: Vec<u8> = bytes[..i].to_vec();
        assert!(decode_record(&truncated).is_none());
        i += 1;
    }
}

#[test]
fn empty_record_round_trip() {
    let empty_shape = R1CSShape {
        num_constraints: 0,
        num_vars: 0,
        num_io: 0,
        a: vec![],
        b: vec![],
        c: vec![],
    };
    let rec = PPDisk {
        ro_config: ROConfig {
            full_rounds: 0,
            partial_rounds: 0,
            rate: 0,
            capacity: 0,
            round_constants: vec![],
            mds: vec![],
        },
        circuit1: empty_shape.clone(),
        circuit2: empty_shape,
        pp1: vec![],
        pp2: vec![],
        digest: vec![],
    };
    let bytes = encode_record(&rec);
    let back = decode_record(&bytes).expect("canonical encoding must decode");
    assert_eq!(back, rec);
}

#[test]
fn to_from_record_round_trip() {
    let pp = sample_params();
    let rec = to_record(pp);
    let back: PublicParams<Tr> = from_record(rec);
    assert_eq!(back, sample_params());
}

#[test]
fn record_field_order_is_fixed() {
    let rec = sample_record();
    let bytes = encode_record(&rec);
    // The record begins with the random-oracle configuration: full rounds,
    // then partial rounds, as eight-byte little-endian integers.
    assert_eq!(bytes[0], 8);
    assert_eq!(&bytes[1..8], &[0, 0, 0, 0, 0, 0, 0]);
    assert_eq!(bytes[8], 31);
    // It ends with the digest, length-prefixed.
    let n = bytes.len();
    assert_eq!(&bytes[n - 4..], &[0xDE, 0xAD, 0xBE, 0xEF]);
    assert_eq!(bytes[n - 12], 4);
}

#[test]
fn persistence_round_trip() {
    let file = encode_pp(sample_params());
    let back: PublicParams<Tr> = decode_pp(&file).expect("saved bytes must load");
    assert_eq!(back, sample_params());
}

#[test]
fn persistence_is_deterministic() {
    let a = encode_pp(sample_params());
    let b = encode_pp(sample_params());
    assert_eq!(a, b);
}

#[test]
fn load_rejects_not_a_frame() {
    let garbage: Vec<u8> = vec![0x00, 0x01, 0x02, 0x03, 0x04];
    let r: Result<PublicParams<Tr>, ProofError> = decode_pp(&garbage);
    assert_eq!(r, Err(ProofError::Codec(CodecError::Decompress)));
}

#[test]
fn load_rejects_empty_input() {
    let empty: Vec<u8> = Vec::new();
    let r: Result<PublicParams<Tr>, ProofError> = decode_pp(&empty);
    assert_eq!(r, Err(ProofError::Codec(CodecError::Decompress)));
}

#[test]
fn load_rejects_corrupted_magic() {
    let mut file = encode_pp(sample_params());
    file[0] ^= 0xFF;
    let r: Result<PublicParams<Tr>, ProofError> = decode_pp(&file);
    assert!(r.is_err());
}

#[test]
fn load_rejects_truncated_file() {
    let file = encode_pp(sample_params());
    let truncated: Vec<u8> = file[..file.len() - 1].to_vec();
    let r: Result<PublicParams<Tr>, ProofError> = decode_pp(&truncated);
    assert!(r.is_err());
}

#[test]
fn load_never_accepts_altered_content_as_original() {
    let original = sample_params();
    let file = encode_pp(sample_params());
    let mut i: usize = 0;
    while i < file.len() {
        let mut corrupted = file.clone();
        corrupted[i] ^= 0xFF;
        let r: Result<PublicParams<Tr>, ProofError> = decode_pp(&corrupted);
        match r {
            Err(_) => {},
            Ok(p) => assert_ne!(p, original, "flip at byte {} slipped through", i),
        }
        i += 1;
    }
}

#[test]
fn valid_payload_wrapped_after_corruption_is_malformed() {
    // A frame that decompresses but whose payload is not a canonical record.
    let not_a_record: Vec<u8> = vec![0xFF; 7];
    let file = zstd::stream::encode_all(not_a_record.as_slice(), 0).unwrap();
    let r: Result<PublicParams<Tr>, ProofError> = decode_pp(&file);
    assert_eq!(r, Err(ProofError::Codec(CodecError::Malformed)));
}

#[test]
fn bootstrap_program_is_fixed_and_deterministic() {
    let p1 = bootstrap_program();
    let p2 = bootstrap_program();
    assert_eq!(p1, vec![0x13, 0x00, 0x00, 0x00, 0x73, 0x10, 0x00, 0xC0]);
    assert_eq!(p1, p2);
    assert_eq!(BOOTSTRAP_BASE, 0x1000);
}

#[test]
fn bootstrap_trace_shape_check() {
    let one_step = VMTrace { pcs: vec![0x1000] };
    assert!(is_bootstrap_shaped(&one_step));
    let two_steps = VMTrace { pcs: vec![0x1000, 0x1004] };
    assert!(!is_bootstrap_shaped(&two_steps));
    let wrong_base = VMTrace { pcs: vec![0x2000] };
    assert!(!is_bootstrap_shaped(&wrong_base));
}

#[test]
fn adapter_keeps_the_trace() {
    let t = VMTrace { pcs: vec![0x1000] };
    let tr = Tr::new(t);
    assert_eq!(tr.steps(), 1);
}

#[test]
fn gen_pp_passes_parameters_through() {
    let r = gen_pp::<Tr>(Ok(sample_params()));
    assert_eq!(r, Ok(sample_params()));
}

#[test]
fn equal_setup_outcomes_give_equal_digests() {
    // The library's share of digest determinism: the setup algorithm is
    // deterministic, so the same step circuit hands in equal outcomes; the
    // generator then returns equal parameter sets, digests included.
    let a = gen_pp::<Tr>(Ok(sample_params())).unwrap();
    let b = gen_pp::<Tr>(Ok(sample_params())).unwrap();
    assert_eq!(a.digest, b.digest);
    assert_eq!(a, b);
}

#[test]
fn gen_pp_surfaces_synthesis_error() {
    let e = SynthesisError { code: 42 };
    let r = gen_pp::<Tr>(Err(SetupError::Synthesis(e)));
    assert_eq!(r, Err(SynthesisError { code: 42 }));
}

#[test]
fn shape_error_is_fatal_synthesis_is_not() {
    assert!(SetupError::Shape(ShapeError { code: 1 }).is_fatal());
    assert!(!SetupError::Synthesis(SynthesisError { code: 1 }).is_fatal());
}

#[test]
fn gen_vm_pp_surfaces_vm_error() {
    let r = gen_vm_pp(Err(VMError { code: 7 }), Ok(sample_params()));
    assert_eq!(r, Err(ProofError::Vm(VMError { code: 7 })));
}

#[test]
fn gen_vm_pp_full_path() {
    let trace = VMTrace { pcs: vec![0x1000] };
    let r = gen_vm_pp(Ok(trace), Ok(sample_params()));
    assert_eq!(r, Ok(sample_params()));
    let trace2 = VMTrace { pcs: vec![0x1000] };
    let r2 = gen_vm_pp(Ok(trace2), Err(SetupError::Synthesis(SynthesisError { code: 3 })));
    assert_eq!(r2, Err(ProofError::Synthesis(SynthesisError { code: 3 })));
}

#[test]
fn end_to_end_generate_save_load_shapes_match() {
    // Generate from the (modelled) bootstrap outcome, save, reload with the
    // same tag, and compare against freshly generated parameters.
    let trace = VMTrace { pcs: vec![0x1000] };
    let generated = gen_vm_pp(Ok(trace), Ok(sample_params())).unwrap();
    let file = encode_pp(generated);
    let loaded: PublicParams<Tr> = decode_pp(&file).expect("load must succeed");
    let fresh = gen_vm_pp(Ok(VMTrace { pcs: vec![0x1000] }), Ok(sample_params())).unwrap();
    assert_eq!(loaded.shape, fresh.shape);
    assert_eq!(loaded.shape_secondary, fresh.shape_secondary);
    assert_eq!(loaded, fresh);
}

#[test]
fn well_formedness_checks() {
    let pp = sample_params();
    assert!(pp.is_well_formed());
    let mut bad = sample_params();
    bad.shape.a.push(entry(99, 0, vec![1]));
    assert!(!bad.shape.is_well_formed());
    assert!(!bad.is_well_formed());
    let mut misaligned = sample_params();
    misaligned.pp = vec![vec![1]];
    assert!(!misaligned.is_well_formed());
}

#[test]
fn wrong_tag_type_is_not_detected_by_decoding() {
    // The tag is erased on disk; loading with a different tag type succeeds
    // and yields the same untagged fields.
    let file = encode_pp(sample_params());
    let loaded: PublicParams<u8> = decode_pp(&file).expect("load must succeed");
    let reference = sample_params();
    assert_eq!(loaded.digest, reference.digest);
    assert_eq!(loaded.shape, reference.shape);
    let retagged = PublicParams::<Tr> {
        ro_config: loaded.ro_config,
        shape: loaded.shape,
        shape_secondary: loaded.shape_secondary,
        pp: loaded.pp,
        pp_secondary: loaded.pp_secondary,
        digest: loaded.digest,
        _step_circuit: PhantomData,
    };
    assert_eq!(retagged, reference);
}
