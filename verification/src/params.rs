//! Data model of a parameter set: the sponge configuration, the two
//! constraint shapes of the curve cycle, the two commitment-key vectors, and
//! the digest binding them. Cryptographic objects (field elements, curve
//! points) appear as their canonical bytes; this library never computes with
//! them, it only carries, encodes and decodes them.

use vstd::prelude::*;
use core::marker::PhantomData;

verus! {

/// One nonzero coefficient of a sparse constraint matrix: the canonical
/// bytes of a field element at a (constraint row, variable column) position.
#[derive(Clone, Debug, PartialEq, Eq)]
pub struct MatrixEntry {
    pub row: u64,
    pub col: u64,
    pub value: Vec<u8>,
}

#[verifier::ext_equal]
pub struct MatrixEntryV {
    pub row: u64,
    pub col: u64,
    pub value: Seq<u8>,
}

impl View for MatrixEntry {
    type V = MatrixEntryV;

    open spec fn view(&self) -> MatrixEntryV {
        MatrixEntryV { row: self.row, col: self.col, value: self.value@ }
    }
}

/// The sequence of byte strings a `Vec<Vec<u8>>` holds.
pub open spec fn blobs_view(v: Vec<Vec<u8>>) -> Seq<Seq<u8>> {
    Seq::new(v@.len(), |i: int| v@[i]@)
}

/// The sequence of entry views a `Vec<MatrixEntry>` holds.
pub open spec fn entries_view(v: Vec<MatrixEntry>) -> Seq<MatrixEntryV> {
    Seq::new(v@.len(), |i: int| v@[i]@)
}

/// Immutable configuration of the sponge-based random oracle: the round
/// split, the rate/capacity split, and the round constants and mixing
/// matrix rows as canonical field-element bytes.
#[derive(Clone, Debug, PartialEq, Eq)]
pub struct ROConfig {
    pub full_rounds: u64,
    pub partial_rounds: u64,
    pub rate: u64,
    pub capacity: u64,
    pub round_constants: Vec<Vec<u8>>,
    pub mds: Vec<Vec<u8>>,
}

#[verifier::ext_equal]
pub struct ROConfigV {
    pub full_rounds: u64,
    pub partial_rounds: u64,
    pub rate: u64,
    pub capacity: u64,
    pub round_constants: Seq<Seq<u8>>,
    pub mds: Seq<Seq<u8>>,
}

impl View for ROConfig {
    type V = ROConfigV;

    open spec fn view(&self) -> ROConfigV {
        ROConfigV {
            full_rounds: self.full_rounds,
            partial_rounds: self.partial_rounds,
            rate: self.rate,
            capacity: self.capacity,
            round_constants: blobs_view(self.round_constants),
            mds: blobs_view(self.mds),
        }
    }
}

/// Structural description of one circuit's constraint system: counts and
/// the three sparse matrices of its rank-1 constraints.
#[derive(Clone, Debug, PartialEq, Eq)]
pub struct R1CSShape {
    pub num_constraints: u64,
    pub num_vars: u64,
    pub num_io: u64,
    pub a: Vec<MatrixEntry>,
    pub b: Vec<MatrixEntry>,
    pub c: Vec<MatrixEntry>,
}

#[verifier::ext_equal]
pub struct R1CSShapeV {
    pub num_constraints: u64,
    pub num_vars: u64,
    pub num_io: u64,
    pub a: Seq<MatrixEntryV>,
    pub b: Seq<MatrixEntryV>,
    pub c: Seq<MatrixEntryV>,
}

impl View for R1CSShape {
    type V = R1CSShapeV;

    open spec fn view(&self) -> R1CSShapeV {
        R1CSShapeV {
            num_constraints: self.num_constraints,
            num_vars: self.num_vars,
            num_io: self.num_io,
            a: entries_view(self.a),
            b: entries_view(self.b),
            c: entries_view(self.c),
        }
    }
}

/// On-disk form of a parameter set, with the step-circuit type tag erased:
/// the caller of the load path re-asserts the tag it expects.
#[derive(Clone, Debug, PartialEq, Eq)]
pub struct PPDisk {
    pub ro_config: ROConfig,
    pub circuit1: R1CSShape,
    pub circuit2: R1CSShape,
    pub pp1: Vec<Vec<u8>>,
    pub pp2: Vec<Vec<u8>>,
    pub digest: Vec<u8>,
}

#[verifier::ext_equal]
pub struct PPDiskV {
    pub ro_config: ROConfigV,
    pub circuit1: R1CSShapeV,
    pub circuit2: R1CSShapeV,
    pub pp1: Seq<Seq<u8>>,
    pub pp2: Seq<Seq<u8>>,
    pub digest: Seq<u8>,
}

impl View for PPDisk {
    type V = PPDiskV;

    open spec fn view(&self) -> PPDiskV {
        PPDiskV {
            ro_config: self.ro_config@,
            circuit1: self.circuit1@,
            circuit2: self.circuit2@,
            pp1: blobs_view(self.pp1),
            pp2: blobs_view(self.pp2),
            digest: self.digest@,
        }
    }
}

/// In-memory parameter set, tagged at the type level with the step-circuit
/// variant it was generated for. The tag never reaches the disk.
#[derive(Debug, PartialEq, Eq)]
pub struct PublicParams<T> {
    pub ro_config: ROConfig,
    pub shape: R1CSShape,
    pub shape_secondary: R1CSShape,
    pub pp: Vec<Vec<u8>>,
    pub pp_secondary: Vec<Vec<u8>>,
    pub digest: Vec<u8>,
    pub _step_circuit: PhantomData<T>,
}

#[verifier::ext_equal]
pub struct PublicParamsV {
    pub ro_config: ROConfigV,
    pub shape: R1CSShapeV,
    pub shape_secondary: R1CSShapeV,
    pub pp: Seq<Seq<u8>>,
    pub pp_secondary: Seq<Seq<u8>>,
    pub digest: Seq<u8>,
}

impl<T> View for PublicParams<T> {
    type V = PublicParamsV;

    open spec fn view(&self) -> PublicParamsV {
        PublicParamsV {
            ro_config: self.ro_config@,
            shape: self.shape@,
            shape_secondary: self.shape_secondary@,
            pp: blobs_view(self.pp),
            pp_secondary: blobs_view(self.pp_secondary),
            digest: self.digest@,
        }
    }
}

/// The record a parameter set writes to disk: the same six fields, tag erased.
pub open spec fn record_of(p: PublicParamsV) -> PPDiskV {
    PPDiskV {
        ro_config: p.ro_config,
        circuit1: p.shape,
        circuit2: p.shape_secondary,
        pp1: p.pp,
        pp2: p.pp_secondary,
        digest: p.digest,
    }
}

/// The parameter set a record reconstructs when a tag is re-attached.
pub open spec fn params_of(r: PPDiskV) -> PublicParamsV {
    PublicParamsV {
        ro_config: r.ro_config,
        shape: r.circuit1,
        shape_secondary: r.circuit2,
        pp: r.pp1,
        pp_secondary: r.pp2,
        digest: r.digest,
    }
}

/// Erasing the tag and re-attaching one is the identity on every field.
pub proof fn lemma_record_params_round_trip(p: PublicParamsV, r: PPDiskV)
    ensures
        params_of(record_of(p)) == p,
        record_of(params_of(r)) == r,
{
}

/// Every entry of a sparse matrix addresses a real row and column.
pub open spec fn matrix_wf(es: Seq<MatrixEntryV>, rows: u64, cols: u64) -> bool {
    forall|i: int| 0 <= i < es.len()
        ==> (#[trigger] es[i]).row < rows && es[i].col < cols
}

/// A constraint shape is well formed when all three matrices stay inside
/// its constraint and variable counts.
pub open spec fn shape_wf(s: R1CSShapeV) -> bool {
    &&& matrix_wf(s.a, s.num_constraints, s.num_vars)
    &&& matrix_wf(s.b, s.num_constraints, s.num_vars)
    &&& matrix_wf(s.c, s.num_constraints, s.num_vars)
}

/// The curve-cycle requirement on the two shapes: each circuit's witness
/// size bounds the other's public-input size.
pub open spec fn cycle_consistent(s1: R1CSShapeV, s2: R1CSShapeV) -> bool {
    &&& s1.num_io <= s2.num_vars
    &&& s2.num_io <= s1.num_vars
}

/// A parameter set is well formed when both shapes are, the shapes satisfy
/// the curve-cycle requirement, and each commitment-key vector covers the
/// witness columns of the shape it supports.
pub open spec fn params_wf(p: PublicParamsV) -> bool {
    &&& shape_wf(p.shape)
    &&& shape_wf(p.shape_secondary)
    &&& cycle_consistent(p.shape, p.shape_secondary)
    &&& p.pp.len() >= p.shape.num_vars
    &&& p.pp_secondary.len() >= p.shape_secondary.num_vars
}

/// Checks that every entry of one matrix addresses a real row and column.
fn matrix_check(es: &Vec<MatrixEntry>, rows: u64, cols: u64) -> (r: bool)
    ensures
        r == matrix_wf(entries_view(*es), rows, cols),
{
    let n = es.len();
    let mut i: usize = 0;
    #[verifier::loop_isolation(false)]
    while i < n
        invariant
            i <= n,
            forall|j: int| 0 <= j < i
                ==> (#[trigger] entries_view(*es)[j]).row < rows
                    && entries_view(*es)[j].col < cols,
        decreases n - i,
    {
        if es[i].row >= rows || es[i].col >= cols {
            proof {
                assert(entries_view(*es)[i as int] == es@[i as int]@);
            }
            return false;
        }
        proof {
            assert(entries_view(*es)[i as int] == es@[i as int]@);
        }
        i += 1;
    }
    true
}

impl R1CSShape {
    /// Whether this shape's matrices stay inside its declared dimensions.
    pub fn is_well_formed(&self) -> (r: bool)
        ensures
            r == shape_wf(self@),
    {
        matrix_check(&self.a, self.num_constraints, self.num_vars)
            && matrix_check(&self.b, self.num_constraints, self.num_vars)
            && matrix_check(&self.c, self.num_constraints, self.num_vars)
    }
}

impl<T> PublicParams<T> {
    /// Whether this parameter set satisfies the data model's invariants.
    pub fn is_well_formed(&self) -> (r: bool)
        ensures
            r == params_wf(self@),
    {
        self.shape.is_well_formed() && self.shape_secondary.is_well_formed()
            && self.shape.num_io <= self.shape_secondary.num_vars
            && self.shape_secondary.num_io <= self.shape.num_vars
            && self.pp.len() as u64 >= self.shape.num_vars
            && self.pp_secondary.len() as u64 >= self.shape_secondary.num_vars
    }
}

/// Erases the step-circuit tag, keeping every field: the pure field-by-field
/// move the save path performs before encoding. No recomputation, no digest
/// re-validation.
pub fn to_record<T>(pp: PublicParams<T>) -> (r: PPDisk)
    ensures
        r@ == record_of(pp@),
{
    let r = PPDisk {
        ro_config: pp.ro_config,
        circuit1: pp.shape,
        circuit2: pp.shape_secondary,
        pp1: pp.pp,
        pp2: pp.pp_secondary,
        digest: pp.digest,
    };
    proof {
        assert(r@ =~= record_of(pp@));
    }
    r
}

/// Re-attaches the caller-requested step-circuit tag to a decoded record.
/// The tag is an unchecked assumption: decoding alone cannot detect a
/// record generated for a different circuit.
pub fn from_record<T>(r: PPDisk) -> (p: PublicParams<T>)
    ensures
        p@ == params_of(r@),
{
    let p = PublicParams {
        ro_config: r.ro_config,
        shape: r.circuit1,
        shape_secondary: r.circuit2,
        pp: r.pp1,
        pp_secondary: r.pp2,
        digest: r.digest,
        _step_circuit: PhantomData,
    };
    proof {
        assert(p@ =~= params_of(r@));
    }
    p
}

} // verus!
