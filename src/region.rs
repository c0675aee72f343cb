//! Exception-handling regions: the model, their table layout, and the nesting rule.

use vstd::prelude::*;
use crate::bytes::{le16, le32, push_u16, push_u32};

verus! {

/// What a handler does.
#[derive(Clone, Copy, PartialEq, Eq, Debug, Structural)]
pub enum RegionKind {
    /// Catches exceptions of the type that `class_token_or_filter_offset` names.
    Catch,
    /// Runs the predicate at `class_token_or_filter_offset` to decide.
    Filter,
    Finally,
    Fault,
}

/// One protected block and its handler, as byte ranges of the code.
#[derive(Clone, Copy, PartialEq, Eq, Debug, Structural)]
pub struct ExceptionRegion {
    pub kind: RegionKind,
    pub try_offset: u32,
    pub try_length: u32,
    pub handler_offset: u32,
    pub handler_length: u32,
    pub class_token_or_filter_offset: u32,
}

/// Largest number of clauses in a small table (its size field is one byte).
pub const MAX_SMALL_CLAUSES: usize = 20;

/// Largest number of clauses in a fat table (its size field is three bytes).
pub const MAX_FAT_CLAUSES: usize = 699050;

pub open spec fn kind_flags(k: RegionKind) -> u32 {
    match k {
        RegionKind::Catch => 0,
        RegionKind::Filter => 1,
        RegionKind::Finally => 2,
        RegionKind::Fault => 4,
    }
}

/// The region fits the small clause layout.
pub open spec fn fits_small(r: ExceptionRegion) -> bool {
    r.try_offset <= 0xFFFF && r.try_length <= 0xFF && r.handler_offset <= 0xFFFF
        && r.handler_length <= 0xFF
}

pub open spec fn all_fit_small(rs: Seq<ExceptionRegion>) -> bool {
    forall|i: int| 0 <= i < rs.len() ==> fits_small(#[trigger] rs[i])
}

pub open spec fn small_clause(r: ExceptionRegion) -> Seq<u8> {
    le16(kind_flags(r.kind) as u16) + le16(r.try_offset as u16) + seq![r.try_length as u8] + le16(
        r.handler_offset as u16,
    ) + seq![r.handler_length as u8] + le32(r.class_token_or_filter_offset)
}

pub open spec fn fat_clause(r: ExceptionRegion) -> Seq<u8> {
    le32(kind_flags(r.kind)) + le32(r.try_offset) + le32(r.try_length) + le32(r.handler_offset)
        + le32(r.handler_length) + le32(r.class_token_or_filter_offset)
}

pub open spec fn clauses(rs: Seq<ExceptionRegion>, fat: bool) -> Seq<u8>
    decreases rs.len(),
{
    if rs.len() == 0 {
        seq![]
    } else {
        clauses(rs.drop_last(), fat) + if fat {
            fat_clause(rs.last())
        } else {
            small_clause(rs.last())
        }
    }
}

/// Whether the table is written with fat clauses.
pub open spec fn needs_fat(rs: Seq<ExceptionRegion>) -> bool {
    rs.len() > MAX_SMALL_CLAUSES || !all_fit_small(rs)
}

/// The single exception-handling table that holds `rs`, header included.
pub open spec fn section_bytes(rs: Seq<ExceptionRegion>) -> Seq<u8> {
    if needs_fat(rs) {
        seq![0x41u8] + le32((4 + 24 * rs.len()) as u32).subrange(0, 3) + clauses(rs, true)
    } else {
        seq![0x01u8, (4 + 12 * rs.len()) as u8, 0u8, 0u8] + clauses(rs, false)
    }
}

/// `[a, a + n)` and `[b, b + m)` share no byte.
pub open spec fn disjoint(a: int, n: int, b: int, m: int) -> bool {
    a + n <= b || b + m <= a
}

/// `[a, a + n)` lies within `[b, b + m)`.
pub open spec fn within(a: int, n: int, b: int, m: int) -> bool {
    b <= a && a + n <= b + m
}

/// Protected ranges that meet are nested, and no handler overlaps its own protected range.
pub open spec fn regions_well_nested(rs: Seq<ExceptionRegion>) -> bool {
    &&& forall|i: int|
        0 <= i < rs.len() ==> disjoint(
            (#[trigger] rs[i]).try_offset as int,
            rs[i].try_length as int,
            rs[i].handler_offset as int,
            rs[i].handler_length as int,
        )
    &&& forall|i: int, j: int|
        0 <= i < rs.len() && 0 <= j < rs.len() ==> {
            let (a, n, b, m) = (
                (#[trigger] rs[i]).try_offset as int,
                rs[i].try_length as int,
                (#[trigger] rs[j]).try_offset as int,
                rs[j].try_length as int,
            );
            disjoint(a, n, b, m) || within(a, n, b, m) || within(b, m, a, n)
        }
}

fn ranges_disjoint(a: u32, n: u32, b: u32, m: u32) -> (r: bool)
    ensures
        r == disjoint(a as int, n as int, b as int, m as int),
{
    a as u64 + n as u64 <= b as u64 || b as u64 + m as u64 <= a as u64
}

fn range_within(a: u32, n: u32, b: u32, m: u32) -> (r: bool)
    ensures
        r == within(a as int, n as int, b as int, m as int),
{
    b <= a && a as u64 + n as u64 <= b as u64 + m as u64
}

/// Whether the regions nest properly.
pub fn check_nesting(rs: &Vec<ExceptionRegion>) -> (r: bool)
    ensures
        r == regions_well_nested(rs@),
{
    let n = rs.len();
    let mut i: usize = 0;
    while i < n
        invariant
            n == rs@.len(),
            i <= n,
            forall|k: int|
                0 <= k < i ==> disjoint(
                    (#[trigger] rs@[k]).try_offset as int,
                    rs@[k].try_length as int,
                    rs@[k].handler_offset as int,
                    rs@[k].handler_length as int,
                ),
            forall|k: int, j: int|
                0 <= k < i && 0 <= j < n ==> {
                    let (a, x, b, y) = (
                        (#[trigger] rs@[k]).try_offset as int,
                        rs@[k].try_length as int,
                        (#[trigger] rs@[j]).try_offset as int,
                        rs@[j].try_length as int,
                    );
                    disjoint(a, x, b, y) || within(a, x, b, y) || within(b, y, a, x)
                },
        decreases n - i,
    {
        let ri = rs[i];
        if !ranges_disjoint(ri.try_offset, ri.try_length, ri.handler_offset, ri.handler_length) {
            return false;
        }
        let mut j: usize = 0;
        while j < n
            invariant
                n == rs@.len(),
                i < n,
                j <= n,
                ri == rs@[i as int],
                forall|j2: int|
                    0 <= j2 < j ==> {
                        let (a, x, b, y) = (
                            ri.try_offset as int,
                            ri.try_length as int,
                            (#[trigger] rs@[j2]).try_offset as int,
                            rs@[j2].try_length as int,
                        );
                        disjoint(a, x, b, y) || within(a, x, b, y) || within(b, y, a, x)
                    },
            decreases n - j,
        {
            let rj = rs[j];
            if !(ranges_disjoint(ri.try_offset, ri.try_length, rj.try_offset, rj.try_length)
                || range_within(ri.try_offset, ri.try_length, rj.try_offset, rj.try_length)
                || range_within(rj.try_offset, rj.try_length, ri.try_offset, ri.try_length)) {
                return false;
            }
            j = j + 1;
        }
        i = i + 1;
    }
    true
}

pub fn flags_of_kind(k: RegionKind) -> (r: u32)
    ensures
        r == kind_flags(k),
{
    match k {
        RegionKind::Catch => 0,
        RegionKind::Filter => 1,
        RegionKind::Finally => 2,
        RegionKind::Fault => 4,
    }
}

/// The kind that clause flags name; `None` for flags of no kind.
pub fn kind_of_flags(f: u32) -> (r: Option<RegionKind>)
    ensures
        r matches Some(k) ==> kind_flags(k) == f,
        r is None ==> f != 0 && f != 1 && f != 2 && f != 4,
{
    if f == 0 {
        Some(RegionKind::Catch)
    } else if f == 1 {
        Some(RegionKind::Filter)
    } else if f == 2 {
        Some(RegionKind::Finally)
    } else if f == 4 {
        Some(RegionKind::Fault)
    } else {
        None
    }
}

/// Appends the exception-handling table of `rs`.
pub fn push_section(out: &mut Vec<u8>, rs: &Vec<ExceptionRegion>)
    requires
        rs@.len() <= MAX_FAT_CLAUSES,
    ensures
        final(out)@ == old(out)@ + section_bytes(rs@),
{
    let n = rs.len();
    let mut small = n <= MAX_SMALL_CLAUSES;
    let mut i: usize = 0;
    while i < n
        invariant
            n == rs@.len(),
            i <= n,
            small == (n <= MAX_SMALL_CLAUSES && forall|k: int| 0 <= k < i ==> fits_small(#[trigger] rs@[k])),
        decreases n - i,
    {
        let r = rs[i];
        if !(r.try_offset <= 0xFFFF && r.try_length <= 0xFF && r.handler_offset <= 0xFFFF
            && r.handler_length <= 0xFF) {
            small = false;
        }
        i = i + 1;
    }
    let ghost start = out@;
    if small {
        out.push(0x01);
        out.push((4 + 12 * n) as u8);
        out.push(0);
        out.push(0);
    } else {
        let size: u32 = (4 + 24 * n) as u32;
        out.push(0x41);
        out.push((size & 0xff) as u8);
        out.push(((size >> 8) & 0xff) as u8);
        out.push(((size >> 16) & 0xff) as u8);
        assert(out@.subrange(start.len() + 1 as int, start.len() + 4 as int) =~= le32(size).subrange(0, 3));
    }
    let ghost hdr = out@;
    let mut k: usize = 0;
    while k < n
        invariant
            n == rs@.len(),
            k <= n,
            small == !needs_fat(rs@),
            out@ == hdr + clauses(rs@.subrange(0, k as int), !small),
            forall|i2: int| small && 0 <= i2 < n ==> fits_small(#[trigger] rs@[i2]),
        decreases n - k,
    {
        let r = rs[k];
        let ghost before = out@;
        let flags = flags_of_kind(r.kind);
        if small {
            assert(fits_small(rs@[k as int]));
            push_u16(out, flags as u16);
            push_u16(out, r.try_offset as u16);
            out.push(r.try_length as u8);
            push_u16(out, r.handler_offset as u16);
            out.push(r.handler_length as u8);
            push_u32(out, r.class_token_or_filter_offset);
            assert(out@ =~= before + small_clause(r));
        } else {
            push_u32(out, flags);
            push_u32(out, r.try_offset);
            push_u32(out, r.try_length);
            push_u32(out, r.handler_offset);
            push_u32(out, r.handler_length);
            push_u32(out, r.class_token_or_filter_offset);
            assert(out@ =~= before + fat_clause(r));
        }
        assert(rs@.subrange(0, k + 1).drop_last() =~= rs@.subrange(0, k as int));
        k = k + 1;
    }
    assert(rs@.subrange(0, n as int) =~= rs@);
    assert(out@ =~= start + section_bytes(rs@));
}

pub open spec fn clause_of(r: ExceptionRegion, fat: bool) -> Seq<u8> {
    if fat {
        fat_clause(r)
    } else {
        small_clause(r)
    }
}

pub open spec fn clause_len(fat: bool) -> int {
    if fat {
        24
    } else {
        12
    }
}

/// Clause `j` of a table sits at `clause_len(fat) * j`.
pub proof fn lemma_clauses_parts(rs: Seq<ExceptionRegion>, fat: bool, j: int)
    ensures
        clauses(rs, fat).len() == clause_len(fat) * rs.len(),
        0 <= j < rs.len() ==> clauses(rs, fat).subrange(
            clause_len(fat) * j,
            clause_len(fat) * j + clause_len(fat),
        ) == clause_of(rs[j], fat),
    decreases rs.len(),
{
    if rs.len() > 0 {
        lemma_clauses_parts(rs.drop_last(), fat, j);
        let c = clause_len(fat);
        let n = rs.len() as int;
        assert(c * (n - 1) + c == c * n) by (nonlinear_arith);
        if 0 <= j < n - 1 {
            assert(c * j + c <= c * (n - 1)) by (nonlinear_arith)
                requires
                    j < n - 1,
                    c > 0,
            ;
            assert(clauses(rs, fat).subrange(c * j, c * j + c) =~= clauses(
                rs.drop_last(),
                fat,
            ).subrange(c * j, c * j + c));
            assert(rs.drop_last()[j] == rs[j]);
        } else if j == n - 1 {
            assert(clauses(rs, fat).subrange(c * j, c * j + c) =~= clause_of(rs[j], fat));
        }
    }
}

} // verus!
