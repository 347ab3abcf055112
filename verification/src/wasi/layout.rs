//! Sizes and alignments of WASI types in a module's linear memory, and the
//! laws they keep.
use vstd::prelude::*;

use super::types::{
    align_up, cases_alignment, cases_have_layout, cases_max_size, max, member_offset,
    members_alignment, members_end, members_have_layout, valid_alignment, IntRepr,
    FlagsType, ListType, RecordMemberType, RecordType, VariantCaseType, VariantType, WasiType,
};

verus! {

/// Rounds `ptr` up to the next multiple of `alignment`.
pub fn align_to(ptr: u32, alignment: u32) -> (r: u32)
    requires
        alignment > 0,
        align_up(ptr as int, alignment as int) <= u32::MAX,
    ensures
        r == align_up(ptr as int, alignment as int),
{
    if ptr % alignment == 0 {
        ptr
    } else {
        let ghost k: int = ptr as int / alignment as int + 1;
        assert(k <= u32::MAX) by (nonlinear_arith)
            requires
                k * alignment <= u32::MAX,
                alignment >= 1,
        ;
        let q: u32 = ptr / alignment + 1;
        assert(q as int * alignment as int == align_up(ptr as int, alignment as int));
        q * alignment
    }
}

/// Rounding up gives a multiple of the alignment, no smaller than the
/// pointer, and less than one alignment beyond it: the least multiple of the
/// alignment that is at least the pointer.
pub proof fn lemma_align_up(p: int, a: int)
    requires
        p >= 0,
        a > 0,
    ensures
        align_up(p, a) % a == 0,
        p <= align_up(p, a) < p + a,
        p % a == 0 ==> align_up(p, a) == p,
        forall|m: int| #[trigger] (m % a) == 0 && m >= p ==> align_up(p, a) <= m,
{
    vstd::arithmetic::div_mod::lemma_fundamental_div_mod(p, a);
    vstd::arithmetic::div_mod::lemma_mod_bound(p, a);
    vstd::arithmetic::div_mod::lemma_mod_multiples_basic(p / a + 1, a);
    assert((p / a + 1) * a == a * (p / a) + a) by (nonlinear_arith);
    let u = align_up(p, a);
    assert forall|m: int| #[trigger] (m % a) == 0 && m >= p implies u <= m by {
        vstd::arithmetic::div_mod::lemma_fundamental_div_mod(m, a);
        vstd::arithmetic::div_mod::lemma_fundamental_div_mod(u, a);
        let k = m / a;
        let j = u / a;
        if m < u {
            assert(k < j) by (nonlinear_arith)
                requires
                    m == a * k,
                    u == a * j,
                    m < u,
                    a > 0,
            ;
            assert(a * k <= a * j - a) by (nonlinear_arith)
                requires
                    k < j,
                    a > 0,
            ;
        }
    }
}

/// Every type's alignment is one, two, four or eight bytes, and its size is a
/// multiple of its alignment.
pub proof fn lemma_type_layout(t: WasiType)
    ensures
        valid_alignment(t.spec_alignment()),
        t.spec_mem_size() >= 0,
        t.spec_mem_size() % t.spec_alignment() == 0,
    decreases t,
{
    match t {
        WasiType::Record(r) => {
            lemma_members_layout(r.members@);
            lemma_align_up(members_end(r.members@), members_alignment(r.members@));
            assert(t.spec_alignment() == members_alignment(r.members@));
            let end = members_end(r.members@);
            let a = members_alignment(r.members@);
            assert(align_up(end, a) % a == 0);
            assert(t.spec_mem_size() == align_up(end, a));
            assert(t.spec_mem_size() % t.spec_alignment() == 0);
        },
        WasiType::Flags(f) => {
            assert(f.repr.bytes() % f.repr.bytes() == 0);
        },
        WasiType::Variant(v) => {
            lemma_cases_layout(v.cases@);
            let a = max(v.tag_repr.bytes(), cases_alignment(v.cases@));
            lemma_align_up(v.tag_repr.bytes(), cases_alignment(v.cases@));
            lemma_align_up(
                align_up(v.tag_repr.bytes(), cases_alignment(v.cases@)) + cases_max_size(v.cases@),
                a,
            );
        },
        _ => {},
    }
}

/// A record's members: their alignment is valid, and they end at or after
/// offset zero.
pub proof fn lemma_members_layout(ms: Seq<RecordMemberType>)
    ensures
        valid_alignment(members_alignment(ms)),
        members_end(ms) >= 0,
    decreases ms,
{
    if ms.len() > 0 {
        let init = ms.subrange(0, ms.len() - 1);
        lemma_members_layout(init);
        lemma_type_layout(ms[ms.len() - 1].ty.wasi);
        lemma_align_up(members_end(init), ms[ms.len() - 1].ty.wasi.spec_alignment());
    }
}

/// A variant's cases: the largest payload alignment is valid, and the
/// largest payload size is not negative.
pub proof fn lemma_cases_layout(cs: Seq<VariantCaseType>)
    ensures
        valid_alignment(cases_alignment(cs)),
        cases_max_size(cs) >= 0,
    decreases cs,
{
    if cs.len() > 0 {
        lemma_cases_layout(cs.subrange(0, cs.len() - 1));
        match cs[cs.len() - 1].payload {
            Some(p) => lemma_type_layout(p.wasi),
            None => {},
        }
    }
}

} // verus!

verus! {

/// A record's layout: its first member starts at zero, each later member
/// at the least multiple of its alignment at or after the end of the member
/// before it; the record's alignment is the largest of its members', one
/// where it has none, and its size the least multiple of that alignment at
/// or after the end of its last member.
pub proof fn lemma_record_layout(r: RecordType)
    ensures
        r.members@.len() > 0 ==> member_offset(r.members@, 0) == 0,
        forall|k: int|
            #![trigger member_offset(r.members@, k)]
            0 < k < r.members@.len() ==> {
                let end = member_offset(r.members@, k - 1) + r.members@[k - 1].ty.wasi.spec_mem_size();
                let a = r.members@[k].ty.wasi.spec_alignment();
                &&& member_offset(r.members@, k) % a == 0
                &&& end <= member_offset(r.members@, k)
                &&& forall|m: int| #[trigger] (m % a) == 0 && m >= end ==> member_offset(r.members@, k) <= m
            },
        WasiType::Record(r).spec_alignment() == members_alignment(r.members@),
        ({
            let a = members_alignment(r.members@);
            let size = WasiType::Record(r).spec_mem_size();
            &&& size % a == 0
            &&& members_end(r.members@) <= size
            &&& forall|m: int| #[trigger] (m % a) == 0 && m >= members_end(r.members@) ==> size <= m
        }),
{
    let ms = r.members@;
    if ms.len() > 0 {
        assert(ms.subrange(0, 0) == Seq::<RecordMemberType>::empty());
        lemma_type_layout(ms[0].ty.wasi);
        lemma_align_up(0, ms[0].ty.wasi.spec_alignment());
    }
    assert forall|k: int|
        #![trigger member_offset(ms, k)]
        0 < k < ms.len() implies {
            let end = member_offset(ms, k - 1) + ms[k - 1].ty.wasi.spec_mem_size();
            let a = ms[k].ty.wasi.spec_alignment();
            &&& member_offset(ms, k) % a == 0
            &&& end <= member_offset(ms, k)
            &&& forall|m: int| #[trigger] (m % a) == 0 && m >= end ==> member_offset(ms, k) <= m
        } by {
        let pre = ms.subrange(0, k);
        assert(pre.subrange(0, k - 1) == ms.subrange(0, k - 1));
        assert(pre[k - 1] == ms[k - 1]);
        assert(members_end(pre) == member_offset(ms, k - 1) + ms[k - 1].ty.wasi.spec_mem_size());
        lemma_members_layout(pre);
        lemma_type_layout(ms[k].ty.wasi);
        lemma_align_up(members_end(pre), ms[k].ty.wasi.spec_alignment());
    }
    lemma_members_layout(ms);
    lemma_align_up(members_end(ms), members_alignment(ms));
}

/// A variant's layout: its payloads start at the least multiple of the
/// largest payload alignment (one where there is none) at or after the tag;
/// the variant's alignment is the larger of the tag's and that; its size is
/// the least multiple of its alignment at or after the end of the largest
/// payload.
pub proof fn lemma_variant_layout(v: VariantType)
    ensures
        ({
            let m = cases_alignment(v.cases@);
            let off = align_up(v.tag_repr.bytes(), m);
            &&& off % m == 0
            &&& v.tag_repr.bytes() <= off
            &&& forall|x: int| #[trigger] (x % m) == 0 && x >= v.tag_repr.bytes() ==> off <= x
        }),
        WasiType::Variant(v).spec_alignment() == max(v.tag_repr.bytes(), cases_alignment(v.cases@)),
        ({
            let a = WasiType::Variant(v).spec_alignment();
            let end = align_up(v.tag_repr.bytes(), cases_alignment(v.cases@)) + cases_max_size(v.cases@);
            let size = WasiType::Variant(v).spec_mem_size();
            &&& size % a == 0
            &&& end <= size
            &&& forall|x: int| #[trigger] (x % a) == 0 && x >= end ==> size <= x
        }),
{
    lemma_cases_layout(v.cases@);
    let m = cases_alignment(v.cases@);
    lemma_align_up(v.tag_repr.bytes(), m);
    let a = max(v.tag_repr.bytes(), m);
    lemma_align_up(align_up(v.tag_repr.bytes(), m) + cases_max_size(v.cases@), a);
}

/// Every member of a record whose members have a layout has one.
pub proof fn lemma_member_has_layout(ms: Seq<RecordMemberType>, k: int)
    requires
        members_have_layout(ms),
        0 <= k < ms.len(),
    ensures
        ms[k].ty.wasi.has_layout(),
        members_have_layout(ms.subrange(0, k)),
    decreases ms.len(),
{
    let init = ms.subrange(0, ms.len() - 1);
    if k < ms.len() - 1 {
        lemma_member_has_layout(init, k);
        assert(init.subrange(0, k) == ms.subrange(0, k));
    } else {
        assert(init == ms.subrange(0, k));
    }
}

/// Every payload of a variant whose cases have a layout has one.
pub proof fn lemma_case_has_layout(cs: Seq<VariantCaseType>, k: int)
    requires
        cases_have_layout(cs),
        0 <= k < cs.len(),
    ensures
        cs[k].payload matches Some(p) ==> p.wasi.has_layout(),
    decreases cs.len(),
{
    if k < cs.len() - 1 {
        lemma_case_has_layout(cs.subrange(0, cs.len() - 1), k);
    }
}

/// The members of a prefix of a record end no later than the whole record's
/// members.
pub proof fn lemma_members_end_prefix(ms: Seq<RecordMemberType>, i: int)
    requires
        0 <= i <= ms.len(),
    ensures
        members_end(ms.subrange(0, i)) <= members_end(ms),
    decreases ms.len(),
{
    if i < ms.len() {
        let init = ms.subrange(0, ms.len() - 1);
        lemma_members_end_prefix(init, i);
        assert(init.subrange(0, i) == ms.subrange(0, i));
        lemma_members_layout(init);
        lemma_type_layout(ms[ms.len() - 1].ty.wasi);
        lemma_align_up(members_end(init), ms[ms.len() - 1].ty.wasi.spec_alignment());
    } else {
        assert(ms.subrange(0, i) == ms);
    }
}

/// The largest payload size of a prefix of a variant's cases is no larger
/// than that of all its cases.
pub proof fn lemma_cases_max_size_prefix(cs: Seq<VariantCaseType>, i: int)
    requires
        0 <= i <= cs.len(),
    ensures
        cases_max_size(cs.subrange(0, i)) <= cases_max_size(cs),
        cases_alignment(cs.subrange(0, i)) <= cases_alignment(cs),
    decreases cs.len(),
{
    if i < cs.len() {
        let init = cs.subrange(0, cs.len() - 1);
        lemma_cases_max_size_prefix(init, i);
        assert(init.subrange(0, i) == cs.subrange(0, i));
    } else {
        assert(cs.subrange(0, i) == cs);
    }
}

impl WasiType {
    /// The type's alignment in bytes.
    pub fn alignment(&self) -> (r: u32)
        requires
            self.has_layout(),
        ensures
            r == self.spec_alignment(),
        decreases self, 0int,
    {
        proof {
            lemma_type_layout(*self);
        }
        match self {
            WasiType::U8 => 1,
            WasiType::U16 => 2,
            WasiType::U32 => 4,
            WasiType::S64 | WasiType::U64 => 8,
            WasiType::List(_) => 4,
            WasiType::Record(record) => record.alignment(),
            WasiType::Variant(variant) => variant.alignment(),
            WasiType::Handle => 4,
            WasiType::Flags(flags) => flags.repr.alignment(),
            WasiType::String => 1,
        }
    }

    /// The type's size in bytes.
    pub fn mem_size(&self) -> (r: u32)
        requires
            self.has_layout(),
            self.spec_mem_size() <= u32::MAX,
        ensures
            r == self.spec_mem_size(),
        decreases self,
    {
        match self {
            WasiType::U8 => 1,
            WasiType::U16 => 2,
            WasiType::U32 => 4,
            WasiType::S64 | WasiType::U64 => 8,
            WasiType::List(_) => 8,
            WasiType::Record(record) => record.mem_size(),
            WasiType::Variant(variant) => variant.mem_size(),
            WasiType::Handle => 4,
            WasiType::Flags(flags) => flags.repr.mem_size(),
            WasiType::String => 0,
        }
    }
}

impl RecordType {
    /// The record's alignment: the largest of its members', one where it has
    /// none.
    pub fn alignment(&self) -> (r: u32)
        requires
            members_have_layout(self.members@),
        ensures
            r == members_alignment(self.members@),
            valid_alignment(r as int),
        decreases self, 0int,
    {
        let ghost ms = self.members@;
        let mut a: u32 = 1;
        let mut i: usize = 0;
        while i < self.members.len()
            invariant
                ms == self.members@,
                0 <= i <= ms.len(),
                members_have_layout(ms),
                a == members_alignment(ms.subrange(0, i as int)),
                valid_alignment(a as int),
            decreases ms.len() - i,
        {
            proof {
                lemma_member_has_layout(ms, i as int);
                assert(ms.subrange(0, i + 1).subrange(0, i as int) == ms.subrange(0, i as int));
                lemma_type_layout(ms[i as int].ty.wasi);
            }
            let ma = self.members[i].ty.wasi.alignment();
            if ma > a {
                a = ma;
            }
            i = i + 1;
        }
        assert(ms.subrange(0, ms.len() as int) == ms);
        a
    }

    /// The record's size: its members one after another, each at the next
    /// multiple of its alignment, rounded up to the record's alignment.
    pub fn mem_size(&self) -> (r: u32)
        requires
            members_have_layout(self.members@),
            align_up(members_end(self.members@), members_alignment(self.members@)) <= u32::MAX,
        ensures
            r == align_up(members_end(self.members@), members_alignment(self.members@)),
        decreases self,
    {
        let ghost ms = self.members@;
        let alignment = self.alignment();
        proof {
            lemma_members_layout(ms);
            lemma_align_up(members_end(ms), members_alignment(ms));
        }
        let mut size: u32 = 0;
        let mut i: usize = 0;
        while i < self.members.len()
            invariant
                ms == self.members@,
                0 <= i <= ms.len(),
                members_have_layout(ms),
                members_end(ms) <= u32::MAX,
                size == members_end(ms.subrange(0, i as int)),
            decreases ms.len() - i,
        {
            let ghost init = ms.subrange(0, i as int);
            proof {
                lemma_member_has_layout(ms, i as int);
                assert(ms.subrange(0, i + 1).subrange(0, i as int) == init);
                lemma_members_end_prefix(ms, i + 1);
                lemma_members_layout(init);
                lemma_type_layout(ms[i as int].ty.wasi);
                lemma_align_up(size as int, ms[i as int].ty.wasi.spec_alignment());
            }
            let member_alignment = self.members[i].ty.wasi.alignment();
            size = align_to(size, member_alignment);
            let member_size = self.members[i].ty.wasi.mem_size();
            size = size + member_size;
            i = i + 1;
        }
        assert(ms.subrange(0, ms.len() as int) == ms);
        align_to(size, alignment)
    }
}

impl VariantType {
    /// The largest alignment of the variant's payloads, one where it has none.
    pub fn max_case_alignment(&self) -> (r: u32)
        requires
            cases_have_layout(self.cases@),
        ensures
            r == cases_alignment(self.cases@),
            valid_alignment(r as int),
        decreases self, 0int,
    {
        let ghost cs = self.cases@;
        let mut a: u32 = 1;
        let mut i: usize = 0;
        while i < self.cases.len()
            invariant
                cs == self.cases@,
                0 <= i <= cs.len(),
                cases_have_layout(cs),
                a == cases_alignment(cs.subrange(0, i as int)),
                valid_alignment(a as int),
            decreases cs.len() - i,
        {
            proof {
                lemma_case_has_layout(cs, i as int);
                assert(cs.subrange(0, i + 1).subrange(0, i as int) == cs.subrange(0, i as int));
            }
            match &self.cases[i].payload {
                Some(payload) => {
                    proof {
                        lemma_type_layout(payload.wasi);
                    }
                    let pa = payload.wasi.alignment();
                    if pa > a {
                        a = pa;
                    }
                },
                None => {},
            }
            i = i + 1;
        }
        assert(cs.subrange(0, cs.len() as int) == cs);
        a
    }

    /// The variant's alignment: that of its tag or of its most aligned
    /// payload, whichever is larger.
    pub fn alignment(&self) -> (r: u32)
        requires
            cases_have_layout(self.cases@),
        ensures
            r == max(self.tag_repr.bytes(), cases_alignment(self.cases@)),
            valid_alignment(r as int),
        decreases self, 1int,
    {
        let tag = self.tag_repr.alignment();
        let cases = self.max_case_alignment();
        if tag >= cases {
            tag
        } else {
            cases
        }
    }

    /// Where the payload starts: after the tag, at the payloads' alignment.
    pub fn payload_offset(&self) -> (r: u32)
        requires
            cases_have_layout(self.cases@),
        ensures
            r == align_up(self.tag_repr.bytes(), cases_alignment(self.cases@)),
    {
        let size = self.tag_repr.mem_size();
        let a = self.max_case_alignment();
        proof {
            lemma_align_up(size as int, a as int);
        }
        align_to(size, a)
    }

    /// The variant's size: the tag, the largest payload at the payloads'
    /// alignment, rounded up to the variant's alignment.
    pub fn mem_size(&self) -> (r: u32)
        requires
            cases_have_layout(self.cases@),
            align_up(
                align_up(self.tag_repr.bytes(), cases_alignment(self.cases@)) + cases_max_size(self.cases@),
                max(self.tag_repr.bytes(), cases_alignment(self.cases@)),
            ) <= u32::MAX,
        ensures
            r == align_up(
                align_up(self.tag_repr.bytes(), cases_alignment(self.cases@)) + cases_max_size(self.cases@),
                max(self.tag_repr.bytes(), cases_alignment(self.cases@)),
            ),
        decreases self,
    {
        let ghost cs = self.cases@;
        let mut size = self.payload_offset();
        let alignment = self.alignment();
        proof {
            lemma_cases_layout(cs);
            lemma_align_up(size + cases_max_size(cs), alignment as int);
        }
        let mut largest: u32 = 0;
        let mut i: usize = 0;
        while i < self.cases.len()
            invariant
                cs == self.cases@,
                0 <= i <= cs.len(),
                cases_have_layout(cs),
                size + cases_max_size(cs) <= u32::MAX,
                largest == cases_max_size(cs.subrange(0, i as int)),
            decreases cs.len() - i,
        {
            proof {
                lemma_case_has_layout(cs, i as int);
                assert(cs.subrange(0, i + 1).subrange(0, i as int) == cs.subrange(0, i as int));
                lemma_cases_max_size_prefix(cs, i + 1);
            }
            match &self.cases[i].payload {
                Some(payload) => {
                    proof {
                        lemma_type_layout(payload.wasi);
                    }
                    let ps = payload.wasi.mem_size();
                    if ps > largest {
                        largest = ps;
                    }
                },
                None => {},
            }
            i = i + 1;
        }
        assert(cs.subrange(0, cs.len() as int) == cs);
        size = size + largest;
        align_to(size, alignment)
    }
}

} // verus!

verus! {

/// Of two valid alignments, the smaller divides the larger.
pub proof fn lemma_alignment_divides(small: int, large: int, x: int)
    requires
        valid_alignment(small),
        valid_alignment(large),
        small <= large,
        x % large == 0,
    ensures
        x % small == 0,
{
    vstd::arithmetic::div_mod::lemma_fundamental_div_mod(x, large);
    let q = x / large;
    let f = large / small;
    assert(large == small * f);
    assert(x == small * (f * q)) by (nonlinear_arith)
        requires
            x == large * q + 0,
            large == small * f,
    ;
    vstd::arithmetic::div_mod::lemma_mod_multiples_basic(f * q, small);
    assert((f * q) * small == small * (f * q)) by (nonlinear_arith);
}

/// Each member of a record starts at a multiple of its alignment, ends before
/// the next member starts, and ends within the record.
pub proof fn lemma_member_fits(ms: Seq<RecordMemberType>, k: int)
    requires
        0 <= k < ms.len(),
    ensures
        member_offset(ms, k) % ms[k].ty.wasi.spec_alignment() == 0,
        member_offset(ms, k) >= members_end(ms.subrange(0, k)),
        member_offset(ms, k) + ms[k].ty.wasi.spec_mem_size() <= members_end(ms),
        k + 1 < ms.len() ==> member_offset(ms, k) + ms[k].ty.wasi.spec_mem_size() <= member_offset(
            ms,
            k + 1,
        ),
        members_end(ms) <= align_up(members_end(ms), members_alignment(ms)),
{
    let prefix = ms.subrange(0, k);
    let upto = ms.subrange(0, k + 1);
    assert(upto.subrange(0, k) == prefix);
    assert(upto[k] == ms[k]);
    lemma_members_layout(prefix);
    lemma_members_layout(upto);
    lemma_members_layout(ms);
    lemma_type_layout(ms[k].ty.wasi);
    lemma_align_up(members_end(prefix), ms[k].ty.wasi.spec_alignment());
    assert(members_end(upto) == member_offset(ms, k) + ms[k].ty.wasi.spec_mem_size());
    lemma_members_end_prefix(ms, k + 1);
    lemma_align_up(members_end(ms), members_alignment(ms));
    if k + 1 < ms.len() {
        lemma_type_layout(ms[k + 1].ty.wasi);
        lemma_align_up(members_end(upto), ms[k + 1].ty.wasi.spec_alignment());
    }
}

/// A variant's tag ends where its payload may start, and the payload of every
/// case starts at a multiple of its alignment and ends within the variant.
pub proof fn lemma_payload_fits(v: VariantType, k: int)
    requires
        0 <= k < v.cases@.len(),
        v.cases@[k].payload is Some,
    ensures
        v.tag_repr.bytes() <= align_up(v.tag_repr.bytes(), cases_alignment(v.cases@)),
        ({
            let p = v.cases@[k].payload.unwrap().wasi;
            let offset = align_up(v.tag_repr.bytes(), cases_alignment(v.cases@));
            &&& offset % p.spec_alignment() == 0
            &&& offset + p.spec_mem_size() <= WasiType::Variant(v).spec_mem_size()
        }),
{
    let cs = v.cases@;
    let p = cs[k].payload.unwrap().wasi;
    let ca = cases_alignment(cs);
    let offset = align_up(v.tag_repr.bytes(), ca);
    lemma_cases_layout(cs);
    lemma_type_layout(p);
    lemma_align_up(v.tag_repr.bytes(), ca);
    lemma_payload_bounded(cs, k);
    lemma_alignment_divides(p.spec_alignment(), ca, offset);
    let a = max(v.tag_repr.bytes(), ca);
    lemma_align_up(offset + cases_max_size(cs), a);
}

/// A case's payload is no more aligned, and no larger, than the variant's
/// payloads taken together.
pub proof fn lemma_payload_bounded(cs: Seq<VariantCaseType>, k: int)
    requires
        0 <= k < cs.len(),
        cs[k].payload is Some,
    ensures
        cs[k].payload.unwrap().wasi.spec_alignment() <= cases_alignment(cs),
        cs[k].payload.unwrap().wasi.spec_mem_size() <= cases_max_size(cs),
    decreases cs.len(),
{
    if k < cs.len() - 1 {
        lemma_payload_bounded(cs.subrange(0, cs.len() - 1), k);
    }
}


/// A list is laid out as a pointer to its items and their count, four bytes
/// each: eight bytes, aligned to four.
pub proof fn lemma_list_layout(l: ListType)
    ensures
        WasiType::List(Box::new(l)).spec_mem_size() == 8,
        WasiType::List(Box::new(l)).spec_mem_size() == 2 * WasiType::U32.spec_mem_size(),
        WasiType::List(Box::new(l)).spec_alignment() == WasiType::U32.spec_alignment(),
{
}


/// The layout of the types of fixed width: each integer is as large and as
/// aligned as it is wide (`u8` one byte, `u16` two, `u32` four, `s64` and
/// `u64` eight); a handle is four bytes; flags are laid out as the integer
/// of their representation.
pub proof fn lemma_fixed_layout(f: FlagsType)
    ensures
        WasiType::U8.spec_mem_size() == 1 && WasiType::U8.spec_alignment() == 1,
        WasiType::U16.spec_mem_size() == 2 && WasiType::U16.spec_alignment() == 2,
        WasiType::U32.spec_mem_size() == 4 && WasiType::U32.spec_alignment() == 4,
        WasiType::S64.spec_mem_size() == 8 && WasiType::S64.spec_alignment() == 8,
        WasiType::U64.spec_mem_size() == 8 && WasiType::U64.spec_alignment() == 8,
        WasiType::Handle.spec_mem_size() == 4 && WasiType::Handle.spec_alignment() == 4,
        f.repr == IntRepr::U8 ==> WasiType::Flags(f).spec_mem_size() == 1 && WasiType::Flags(f).spec_alignment() == 1,
        f.repr == IntRepr::U16 ==> WasiType::Flags(f).spec_mem_size() == 2 && WasiType::Flags(f).spec_alignment() == 2,
        f.repr == IntRepr::U32 ==> WasiType::Flags(f).spec_mem_size() == 4 && WasiType::Flags(f).spec_alignment() == 4,
        f.repr == IntRepr::U64 ==> WasiType::Flags(f).spec_mem_size() == 8 && WasiType::Flags(f).spec_alignment() == 8,
{
}

} // verus!
