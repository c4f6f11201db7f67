//! The choice of an instruction set for block and string operations.
use vstd::prelude::*;
use crate::membrane::Runtime;
use crate::memory::{regions_overlap, sat_sum};

verus! {

pub const SIMD_FEATURE_SSE42: u32 = 0x1;

pub const SIMD_FEATURE_AVX2: u32 = 0x2;

pub const SIMD_FEATURE_NEON: u32 = 0x4;

/// The value of the override that stands for none.
pub const SIMD_FEATURE_OVERRIDE_DISABLED: u32 = 0xffff_ffff;

/// An operation that can be dispatched.
#[derive(Clone, Copy, Debug, PartialEq, Eq, Structural)]
pub enum SimdStringOperation {
    Memcpy,
    Memcmp,
    Strlen,
}

/// An instruction set.
#[derive(Clone, Copy, Debug, PartialEq, Eq, Structural)]
pub enum SimdIsa {
    Scalar,
    Avx2,
    Sse42,
    Neon,
}

/// What is known of the three vector instruction sets: a label, the bytes of a
/// lane, and whether the membrane certifies the operation at hand on it.
#[derive(Clone, Copy, Debug)]
pub struct IsaFacts {
    pub label: &'static str,
    pub lane_bytes: usize,
    pub certified: bool,
}

/// What is known of each vector instruction set.
#[derive(Clone, Copy, Debug)]
pub struct IsaTable {
    pub avx2: IsaFacts,
    pub sse42: IsaFacts,
    pub neon: IsaFacts,
}

/// A choice.
#[derive(Clone, Copy, Debug)]
pub struct StringSimdDispatch {
    pub isa: SimdIsa,
    pub label: &'static str,
    pub lane_bytes: usize,
}

/// The features in use: those of the override where there is one, else those
/// that were detected.
pub open spec fn active_mask(override_mask: u32, sse42: bool, avx2: bool, neon: bool) -> int {
    if override_mask != SIMD_FEATURE_OVERRIDE_DISABLED {
        override_mask as int
    } else {
        (if sse42 {
            SIMD_FEATURE_SSE42 as int
        } else {
            0
        }) + (if avx2 {
            SIMD_FEATURE_AVX2 as int
        } else {
            0
        }) + (if neon {
            SIMD_FEATURE_NEON as int
        } else {
            0
        })
    }
}

/// The features in use; see [`active_mask`].
pub fn active_string_simd_feature_mask(
    override_mask: u32,
    sse42: bool,
    avx2: bool,
    neon: bool,
) -> (r: u32)
    ensures
        r == active_mask(override_mask, sse42, avx2, neon),
{
    if override_mask != SIMD_FEATURE_OVERRIDE_DISABLED {
        return override_mask;
    }
    let mut mask: u32 = 0;
    if sse42 {
        mask += SIMD_FEATURE_SSE42;
    }
    if avx2 {
        mask += SIMD_FEATURE_AVX2;
    }
    if neon {
        mask += SIMD_FEATURE_NEON;
    }
    mask
}

/// The names of the features in a mask.
pub open spec fn feature_names(avx2: bool, sse42: bool, neon: bool) -> Seq<char> {
    if avx2 {
        if sse42 {
            if neon {
                "avx2,sse4.2,neon"@
            } else {
                "avx2,sse4.2"@
            }
        } else {
            if neon {
                "avx2,neon"@
            } else {
                "avx2"@
            }
        }
    } else {
        if sse42 {
            if neon {
                "sse4.2,neon"@
            } else {
                "sse4.2"@
            }
        } else {
            if neon {
                "neon"@
            } else {
                "scalar-only"@
            }
        }
    }
}

/// The names of the features in a mask.
pub fn string_simd_feature_list(mask: u32) -> (r: &'static str)
    ensures
        r@ == feature_names(
            mask & SIMD_FEATURE_AVX2 != 0,
            mask & SIMD_FEATURE_SSE42 != 0,
            mask & SIMD_FEATURE_NEON != 0,
        ),
{
    let avx2: bool = mask & SIMD_FEATURE_AVX2 != 0;
    let sse42: bool = mask & SIMD_FEATURE_SSE42 != 0;
    let neon: bool = mask & SIMD_FEATURE_NEON != 0;
    match (avx2, sse42, neon) {
        (true, true, false) => "avx2,sse4.2",
        (true, false, false) => "avx2",
        (false, true, false) => "sse4.2",
        (false, false, true) => "neon",
        (true, false, true) => "avx2,neon",
        (false, true, true) => "sse4.2,neon",
        (true, true, true) => "avx2,sse4.2,neon",
        (false, false, false) => "scalar-only",
    }
}

/// The shortest operation that is worth an instruction set.
pub open spec fn threshold(op: SimdStringOperation, isa: SimdIsa) -> usize {
    match isa {
        SimdIsa::Scalar => usize::MAX,
        SimdIsa::Avx2 => if op is Memcpy {
            128
        } else {
            64
        },
        _ => if op is Memcpy {
            32
        } else {
            16
        },
    }
}

/// The shortest operation that is worth an instruction set.
pub fn dispatch_threshold(op: SimdStringOperation, isa: SimdIsa) -> (r: usize)
    ensures
        r == threshold(op, isa),
{
    match (op, isa) {
        (_, SimdIsa::Scalar) => usize::MAX,
        (SimdStringOperation::Memcpy, SimdIsa::Avx2) => 128,
        (SimdStringOperation::Memcpy, _) => 32,
        (_, SimdIsa::Avx2) => 64,
        (_, _) => 16,
    }
}

/// An instruction set is taken for an operation of `len` bytes: it is worth it,
/// and strict mode or a certificate allows it.
pub open spec fn taken(
    op: SimdStringOperation,
    isa: SimdIsa,
    facts: IsaFacts,
    len: usize,
    strict: bool,
) -> bool {
    len >= threshold(op, isa) && (strict || facts.certified)
}

/// The choice of an instruction set for an operation of `len` bytes, if it is
/// taken.
pub fn try_simd_dispatch_candidate(
    op: SimdStringOperation,
    isa: SimdIsa,
    facts: IsaFacts,
    len: usize,
    strict: bool,
) -> (r: Option<StringSimdDispatch>)
    ensures
        r == if taken(op, isa, facts, len, strict) {
            Some(StringSimdDispatch { isa, label: facts.label, lane_bytes: facts.lane_bytes })
        } else {
            None
        },
{
    if len < dispatch_threshold(op, isa) {
        return None;
    }
    if strict || facts.certified {
        Some(StringSimdDispatch { isa, label: facts.label, lane_bytes: facts.lane_bytes })
    } else {
        None
    }
}

/// Whether the blocks of a copy meet, which a certificate for it has to know;
/// other operations write nothing.
pub fn dispatch_overlap(op: SimdStringOperation, src: usize, dst: usize, len: usize) -> (r: bool)
    ensures
        r == (op is Memcpy && len != 0 && dst < sat_sum(src, len) && src < sat_sum(dst, len)),
{
    match op {
        SimdStringOperation::Memcpy => regions_overlap(dst, src, len),
        _ => false,
    }
}

/// The instruction set for an operation of `len` bytes: the first of the wide
/// vectors, the narrow ones and those of the other architecture that is in the
/// mask and is taken; none else.
pub open spec fn selected(
    op: SimdStringOperation,
    mask: u32,
    table: IsaTable,
    len: usize,
    strict: bool,
) -> SimdIsa {
    if mask & SIMD_FEATURE_AVX2 != 0 && taken(op, SimdIsa::Avx2, table.avx2, len, strict) {
        SimdIsa::Avx2
    } else if mask & SIMD_FEATURE_SSE42 != 0 && taken(
        op,
        SimdIsa::Sse42,
        table.sse42,
        len,
        strict,
    ) {
        SimdIsa::Sse42
    } else if mask & SIMD_FEATURE_NEON != 0 && taken(op, SimdIsa::Neon, table.neon, len, strict) {
        SimdIsa::Neon
    } else {
        SimdIsa::Scalar
    }
}

/// The label of an instruction set.
pub open spec fn label_of(isa: SimdIsa, table: IsaTable) -> Seq<char> {
    match isa {
        SimdIsa::Avx2 => table.avx2.label@,
        SimdIsa::Sse42 => table.sse42.label@,
        SimdIsa::Neon => table.neon.label@,
        SimdIsa::Scalar => "scalar"@,
    }
}

/// The bytes of a lane of an instruction set.
pub open spec fn lanes_of(isa: SimdIsa, table: IsaTable) -> usize {
    match isa {
        SimdIsa::Avx2 => table.avx2.lane_bytes,
        SimdIsa::Sse42 => table.sse42.lane_bytes,
        SimdIsa::Neon => table.neon.lane_bytes,
        SimdIsa::Scalar => 1,
    }
}

/// Chooses the instruction set for an operation of `len` bytes; see
/// [`selected`].
pub fn select_string_simd_dispatch(
    op: SimdStringOperation,
    mask: u32,
    table: &IsaTable,
    len: usize,
    strict: bool,
) -> (r: StringSimdDispatch)
    ensures
        r.isa == selected(op, mask, *table, len, strict),
        r.label@ == label_of(r.isa, *table),
        r.lane_bytes == lanes_of(r.isa, *table),
{
    if mask & SIMD_FEATURE_AVX2 != 0 {
        match try_simd_dispatch_candidate(op, SimdIsa::Avx2, table.avx2, len, strict) {
            Some(d) => {
                return d;
            },
            None => {},
        }
    }
    if mask & SIMD_FEATURE_SSE42 != 0 {
        match try_simd_dispatch_candidate(op, SimdIsa::Sse42, table.sse42, len, strict) {
            Some(d) => {
                return d;
            },
            None => {},
        }
    }
    if mask & SIMD_FEATURE_NEON != 0 {
        match try_simd_dispatch_candidate(op, SimdIsa::Neon, table.neon, len, strict) {
            Some(d) => {
                return d;
            },
            None => {},
        }
    }
    StringSimdDispatch { isa: SimdIsa::Scalar, label: "scalar", lane_bytes: 1 }
}

/// The label of the instruction set that a copy of `n` bytes takes.
pub fn memcpy_dispatch_label_for_tests(mask: u32, table: &IsaTable, n: usize, strict: bool) -> (r:
    &'static str)
    ensures
        r@ == label_of(selected(SimdStringOperation::Memcpy, mask, *table, n, strict), *table),
{
    select_string_simd_dispatch(SimdStringOperation::Memcpy, mask, table, n, strict).label
}

/// The label of the instruction set that a comparison of `n` bytes takes.
pub fn memcmp_dispatch_label_for_tests(mask: u32, table: &IsaTable, n: usize, strict: bool) -> (r:
    &'static str)
    ensures
        r@ == label_of(selected(SimdStringOperation::Memcmp, mask, *table, n, strict), *table),
{
    select_string_simd_dispatch(SimdStringOperation::Memcmp, mask, table, n, strict).label
}

/// The label of the instruction set that a length scan over about `len_hint`
/// bytes takes.
pub fn strlen_dispatch_label_for_tests(
    mask: u32,
    table: &IsaTable,
    len_hint: usize,
    strict: bool,
) -> (r: &'static str)
    ensures
        r@ == label_of(
            selected(SimdStringOperation::Strlen, mask, *table, len_hint, strict),
            *table,
        ),
{
    select_string_simd_dispatch(SimdStringOperation::Strlen, mask, table, len_hint, strict).label
}

/// Sets the override of the feature mask, or takes it away, and returns what it
/// was.
pub fn string_simd_swap_feature_mask_for_tests(current: &mut u32, mask: Option<u32>) -> (r: u32)
    ensures
        r == *old(current),
        *final(current) == match mask {
            Some(m) => m,
            None => SIMD_FEATURE_OVERRIDE_DISABLED,
        },
{
    let before: u32 = *current;
    *current = match mask {
        Some(m) => m,
        None => SIMD_FEATURE_OVERRIDE_DISABLED,
    };
    before
}

/// Puts the override of the feature mask back.
pub fn string_simd_restore_feature_mask_for_tests(current: &mut u32, previous: u32)
    ensures
        *final(current) == previous,
{
    *current = previous;
}

/// The mask of the narrow vectors.
pub fn string_simd_feature_mask_sse42_for_tests() -> (r: u32)
    ensures
        r == SIMD_FEATURE_SSE42,
{
    SIMD_FEATURE_SSE42
}

/// The mask of the wide vectors.
pub fn string_simd_feature_mask_avx2_for_tests() -> (r: u32)
    ensures
        r == SIMD_FEATURE_AVX2,
{
    SIMD_FEATURE_AVX2
}

/// The mask of the vectors of the other architecture.
pub fn string_simd_feature_mask_neon_for_tests() -> (r: u32)
    ensures
        r == SIMD_FEATURE_NEON,
{
    SIMD_FEATURE_NEON
}

/// The mask of the wide and the narrow vectors.
pub fn string_simd_feature_mask_avx2_sse42_for_tests() -> (r: u32)
    ensures
        r == SIMD_FEATURE_AVX2 | SIMD_FEATURE_SSE42,
        r == 3,
{
    assert(2u32 | 1u32 == 3) by (bit_vector);
    SIMD_FEATURE_AVX2 | SIMD_FEATURE_SSE42
}

/// Marks the runtime as initialised.
pub fn signal_runtime_ready_for_tests(rt: &mut Runtime)
    ensures
        *final(rt) == (Runtime { ready: true, ..*old(rt) }),
{
    rt.ready = true;
}

/// Why the policy decided as it did.
pub struct Explainability {
    pub decision_gate: &'static str,
}

/// Takes the last explanation away and returns which of the policy's gates decided.
pub fn take_last_decision_gate_for_tests(last: &mut Option<Explainability>) -> (r: Option<
    &'static str,
>)
    ensures
        r == match *old(last) {
            Some(e) => Some(e.decision_gate),
            None => None,
        },
        *final(last) is None,
{
    match last.take() {
        Some(e) => Some(e.decision_gate),
        None => None,
    }
}

/// Without features nothing but scalar code is chosen, and no more for an
/// operation below every threshold.
pub proof fn law_short_operations_stay_scalar(
    op: SimdStringOperation,
    mask: u32,
    table: IsaTable,
    len: usize,
    strict: bool,
)
    requires
        mask == 0 || len < 16,
    ensures
        selected(op, mask, table, len, strict) is Scalar,
{
    assert(0u32 & 1 == 0 && 0u32 & 2 == 0 && 0u32 & 4 == 0) by (bit_vector);
}

/// Outside strict mode a vector instruction set is chosen only with a
/// certificate.
pub proof fn law_vectors_need_a_certificate(
    op: SimdStringOperation,
    mask: u32,
    table: IsaTable,
    len: usize,
)
    ensures
        match selected(op, mask, table, len, false) {
            SimdIsa::Avx2 => table.avx2.certified,
            SimdIsa::Sse42 => table.sse42.certified,
            SimdIsa::Neon => table.neon.certified,
            SimdIsa::Scalar => true,
        },
{
}

/// An override takes the place of what the machine has; else each feature has a
/// bit of its own.
pub proof fn law_active_features(over: u32, sse42: bool, avx2: bool, neon: bool)
    ensures
        over != 0xffff_ffff ==> active_mask(over, sse42, avx2, neon) == over,
        over == 0xffff_ffff ==> {
            let mask = active_mask(over, sse42, avx2, neon);
            &&& 0 <= mask < 8
            &&& mask % 2 == 1 <==> sse42
            &&& (mask / 2) % 2 == 1 <==> avx2
            &&& mask / 4 == 1 <==> neon
        },
{
}

/// The widest vectors that the machine has, that are certified or need not be, and
/// for which the operation is long enough, are selected: copies need twice the
/// length of other operations, and 32-byte vectors four times that of 16-byte ones.
pub proof fn law_widest_fitting_vectors_are_selected(
    op: SimdStringOperation,
    mask: u32,
    table: IsaTable,
    len: usize,
    strict: bool,
)
    ensures
        ({
            let short = if op is Memcpy {
                32int
            } else {
                16
            };
            let wide = mask & 2 != 0 && len >= 4 * short && (strict || table.avx2.certified);
            let sse = mask & 1 != 0 && len >= short && (strict || table.sse42.certified);
            let neon = mask & 4 != 0 && len >= short && (strict || table.neon.certified);
            let isa = selected(op, mask, table, len, strict);
            &&& isa is Avx2 <==> wide
            &&& isa is Sse42 <==> sse && !wide
            &&& isa is Neon <==> neon && !sse && !wide
            &&& isa is Scalar <==> !neon && !sse && !wide
        }),
{
}

/// The names of the features that are there, in the order of their width, with a
/// comma between any two.
pub proof fn law_feature_names_are_joined(avx2: bool, sse42: bool, neon: bool)
    ensures
        avx2 && (sse42 || neon) ==> feature_names(avx2, sse42, neon) == "avx2,"@ + feature_names(
            false,
            sse42,
            neon,
        ),
        sse42 && neon ==> feature_names(false, sse42, neon) == "sse4.2,"@ + feature_names(
            false,
            false,
            neon,
        ),
        feature_names(true, false, false) == "avx2"@,
        feature_names(false, true, false) == "sse4.2"@,
        feature_names(false, false, true) == "neon"@,
        feature_names(false, false, false) == "scalar-only"@,
{
    reveal_strlit("avx2,sse4.2,neon");
    reveal_strlit("avx2,sse4.2");
    reveal_strlit("avx2,neon");
    reveal_strlit("avx2,");
    reveal_strlit("avx2");
    reveal_strlit("sse4.2,neon");
    reveal_strlit("sse4.2,");
    reveal_strlit("sse4.2");
    reveal_strlit("neon");
    if avx2 && (sse42 || neon) {
        assert(feature_names(avx2, sse42, neon) =~= "avx2,"@ + feature_names(false, sse42, neon));
    }
    if sse42 && neon {
        assert(feature_names(false, sse42, neon) =~= "sse4.2,"@ + feature_names(
            false,
            false,
            neon,
        ));
    }
}

/// Operations without vectors go byte by byte; the others by the lanes of the
/// vectors that were selected, and under their label.
pub proof fn law_lanes_of_the_selected_vectors(table: IsaTable)
    ensures
        lanes_of(SimdIsa::Scalar, table) == 1,
        lanes_of(SimdIsa::Avx2, table) == table.avx2.lane_bytes,
        lanes_of(SimdIsa::Sse42, table) == table.sse42.lane_bytes,
        lanes_of(SimdIsa::Neon, table) == table.neon.lane_bytes,
        label_of(SimdIsa::Scalar, table) == "scalar"@,
        label_of(SimdIsa::Avx2, table) == table.avx2.label@,
        label_of(SimdIsa::Sse42, table) == table.sse42.label@,
        label_of(SimdIsa::Neon, table) == table.neon.label@,
{
}

} // verus!
