//! The types of WASI values, and their memory layout in a Wasm module's
//! linear memory.
use vstd::prelude::*;

use super::term::Term;
use super::effects::Program;

verus! {

/// A WASI type, its name where it has one, and the attributes of the
/// resources of that type.
#[derive(PartialEq, Eq, Debug)]
pub struct WazziType {
    pub name: Option<String>,
    pub wasi: WasiType,
    pub attributes: Vec<(String, WazziType)>,
}

#[derive(PartialEq, Eq, Debug)]
pub enum WasiType {
    S64,
    U8,
    U16,
    U32,
    U64,
    Handle,
    Flags(FlagsType),
    Variant(VariantType),
    Record(RecordType),
    String,
    List(Box<ListType>),
}

#[derive(PartialEq, Eq, Debug)]
pub struct FlagsType {
    pub repr: IntRepr,
    pub fields: Vec<String>,
}

/// The integer that represents flags or a variant's tag.
#[derive(PartialEq, Eq, Clone, Copy, Debug)]
pub enum IntRepr {
    U8,
    U16,
    U32,
    U64,
}

#[derive(PartialEq, Eq, Debug)]
pub struct VariantType {
    pub tag_repr: IntRepr,
    pub cases: Vec<VariantCaseType>,
}

#[derive(PartialEq, Eq, Debug)]
pub struct VariantCaseType {
    pub name: String,
    pub payload: Option<WazziType>,
}

#[derive(PartialEq, Eq, Debug)]
pub struct RecordType {
    pub members: Vec<RecordMemberType>,
}

#[derive(PartialEq, Eq, Debug)]
pub struct RecordMemberType {
    pub name: String,
    pub ty: WazziType,
}

/// Where a record's member starts, in bytes from the record's start.
#[derive(PartialEq, Eq, Clone, Copy, Debug)]
pub struct RecordMemberLayout {
    pub offset: u32,
}

#[derive(PartialEq, Eq, Debug)]
pub struct ListType {
    pub item: WazziType,
}

/// A set of functions by name.
#[derive(PartialEq, Eq, Debug)]
pub struct Interface {
    pub functions: Vec<(String, Function)>,
}

impl Interface {
    pub fn new() -> (r: Self)
        ensures
            r.functions@.len() == 0,
    {
        Interface { functions: Vec::new() }
    }
}

#[derive(PartialEq, Eq, Debug)]
pub struct Function {
    pub name: String,
    pub params: Vec<FunctionParam>,
    pub results: Vec<FunctionResult>,
    pub return_type: Option<()>,
    pub input_contract: Option<Term>,
    pub effects: Program,
}

#[derive(PartialEq, Eq, Debug)]
pub struct FunctionParam {
    pub name: String,
    pub ty: WazziType,
}

#[derive(PartialEq, Eq, Debug)]
pub struct FunctionResult {
    pub name: String,
    pub ty: WazziType,
}

/// The types and interfaces of a WASI specification, by position, and the
/// positions by name.
#[derive(PartialEq, Eq, Debug)]
pub struct Spec {
    pub types: Vec<WazziType>,
    pub interfaces: Vec<Interface>,
    pub types_map: Vec<(String, usize)>,
    pub interfaces_map: Vec<(String, usize)>,
}

impl Spec {
    pub fn new() -> (r: Self)
        ensures
            r.types@.len() == 0,
            r.interfaces@.len() == 0,
            r.types_map@.len() == 0,
            r.interfaces_map@.len() == 0,
    {
        Spec {
            types: Vec::new(),
            interfaces: Vec::new(),
            types_map: Vec::new(),
            interfaces_map: Vec::new(),
        }
    }
}

impl WasiType {
    pub fn flags(&self) -> (r: Option<&FlagsType>)
        ensures
            r matches Some(f) ==> *self == WasiType::Flags(*f),
            r is None ==> !(self is Flags),
    {
        match self {
            WasiType::Flags(flags) => Some(flags),
            _ => None,
        }
    }

    pub fn variant(&self) -> (r: Option<&VariantType>)
        ensures
            r matches Some(v) ==> *self == WasiType::Variant(*v),
            r is None ==> !(self is Variant),
    {
        match self {
            WasiType::Variant(variant) => Some(variant),
            _ => None,
        }
    }
}

/// The smallest multiple of `a` that is at least `p`.
pub open spec fn align_up(p: int, a: int) -> int {
    if p % a == 0 {
        p
    } else {
        (p / a + 1) * a
    }
}

/// What an alignment can be: one, two, four or eight bytes.
pub open spec fn valid_alignment(a: int) -> bool {
    a == 1 || a == 2 || a == 4 || a == 8
}

pub open spec fn max(a: int, b: int) -> int {
    if a >= b {
        a
    } else {
        b
    }
}

impl IntRepr {
    /// The width of the integer, in bytes.
    pub open spec fn bytes(self) -> int {
        match self {
            IntRepr::U8 => 1,
            IntRepr::U16 => 2,
            IntRepr::U32 => 4,
            IntRepr::U64 => 8,
        }
    }

    pub fn alignment(&self) -> (r: u32)
        ensures
            r == self.bytes(),
    {
        match self {
            IntRepr::U8 => 1,
            IntRepr::U16 => 2,
            IntRepr::U32 => 4,
            IntRepr::U64 => 8,
        }
    }

    pub fn mem_size(&self) -> (r: u32)
        ensures
            r == self.bytes(),
    {
        match self {
            IntRepr::U8 => 1,
            IntRepr::U16 => 2,
            IntRepr::U32 => 4,
            IntRepr::U64 => 8,
        }
    }
}

impl WasiType {
    /// Every type reachable through records and variants has a layout:
    /// strings, which are laid out by the caller, do not.
    pub open spec fn has_layout(self) -> bool
        decreases self,
    {
        match self {
            WasiType::String => false,
            WasiType::Record(r) => members_have_layout(r.members@),
            WasiType::Variant(v) => cases_have_layout(v.cases@),
            _ => true,
        }
    }

    pub open spec fn spec_alignment(self) -> int
        decreases self,
    {
        match self {
            WasiType::U8 => 1,
            WasiType::U16 => 2,
            WasiType::U32 => 4,
            WasiType::S64 | WasiType::U64 => 8,
            WasiType::List(_) => 4,
            WasiType::Record(r) => members_alignment(r.members@),
            WasiType::Variant(v) => max(v.tag_repr.bytes(), cases_alignment(v.cases@)),
            WasiType::Handle => 4,
            WasiType::Flags(f) => f.repr.bytes(),
            WasiType::String => 1,
        }
    }

    pub open spec fn spec_mem_size(self) -> int
        decreases self,
    {
        match self {
            WasiType::U8 => 1,
            WasiType::U16 => 2,
            WasiType::U32 => 4,
            WasiType::S64 | WasiType::U64 => 8,
            WasiType::List(_) => 8,
            WasiType::Record(r) => align_up(members_end(r.members@), members_alignment(r.members@)),
            WasiType::Variant(v) => align_up(
                align_up(v.tag_repr.bytes(), cases_alignment(v.cases@)) + cases_max_size(v.cases@),
                max(v.tag_repr.bytes(), cases_alignment(v.cases@)),
            ),
            WasiType::Handle => 4,
            WasiType::Flags(f) => f.repr.bytes(),
            WasiType::String => 0,
        }
    }
}

pub open spec fn members_have_layout(ms: Seq<RecordMemberType>) -> bool
    decreases ms,
{
    if ms.len() == 0 {
        true
    } else {
        members_have_layout(ms.subrange(0, ms.len() - 1)) && ms[ms.len() - 1].ty.wasi.has_layout()
    }
}

pub open spec fn cases_have_layout(cs: Seq<VariantCaseType>) -> bool
    decreases cs,
{
    if cs.len() == 0 {
        true
    } else {
        cases_have_layout(cs.subrange(0, cs.len() - 1)) && match cs[cs.len() - 1].payload {
            Some(p) => p.wasi.has_layout(),
            None => true,
        }
    }
}

/// A record's alignment: the largest of its members', one where it has none.
pub open spec fn members_alignment(ms: Seq<RecordMemberType>) -> int
    decreases ms,
{
    if ms.len() == 0 {
        1
    } else {
        max(members_alignment(ms.subrange(0, ms.len() - 1)), ms[ms.len() - 1].ty.wasi.spec_alignment())
    }
}

/// Where a record's members end: each member starts at the next multiple of
/// its alignment after the one before.
pub open spec fn members_end(ms: Seq<RecordMemberType>) -> int
    decreases ms,
{
    if ms.len() == 0 {
        0
    } else {
        let t = ms[ms.len() - 1].ty.wasi;
        align_up(members_end(ms.subrange(0, ms.len() - 1)), t.spec_alignment()) + t.spec_mem_size()
    }
}

/// The offset of a record's `k`th member.
pub open spec fn member_offset(ms: Seq<RecordMemberType>, k: int) -> int {
    align_up(members_end(ms.subrange(0, k)), ms[k].ty.wasi.spec_alignment())
}

/// The largest alignment of a variant's payloads, one where it has none.
pub open spec fn cases_alignment(cs: Seq<VariantCaseType>) -> int
    decreases cs,
{
    if cs.len() == 0 {
        1
    } else {
        let before = cases_alignment(cs.subrange(0, cs.len() - 1));
        match cs[cs.len() - 1].payload {
            Some(p) => max(before, p.wasi.spec_alignment()),
            None => before,
        }
    }
}

/// The largest size of a variant's payloads, zero where it has none.
pub open spec fn cases_max_size(cs: Seq<VariantCaseType>) -> int
    decreases cs,
{
    if cs.len() == 0 {
        0
    } else {
        let before = cases_max_size(cs.subrange(0, cs.len() - 1));
        match cs[cs.len() - 1].payload {
            Some(p) => max(before, p.wasi.spec_mem_size()),
            None => before,
        }
    }
}

/// Whether two types are the same: equal but for being distinct copies.
pub open spec fn same_wazzi(a: WazziType, b: WazziType) -> bool
    decreases a,
{
    &&& a.name == b.name
    &&& same_wasi(a.wasi, b.wasi)
    &&& a.attributes@.len() == b.attributes@.len()
    &&& forall|i: int|
        0 <= i < a.attributes@.len() ==> (#[trigger] a.attributes@[i]).0 == b.attributes@[i].0 && same_wazzi(
            a.attributes@[i].1,
            b.attributes@[i].1,
        )
}

/// Whether two WASI types are the same: equal but for being distinct
/// copies.
pub open spec fn same_wasi(a: WasiType, b: WasiType) -> bool
    decreases a,
{
    match (a, b) {
        (WasiType::Flags(x), WasiType::Flags(y)) => x.repr == y.repr && x.fields@ == y.fields@,
        (WasiType::Variant(x), WasiType::Variant(y)) => {
            &&& x.tag_repr == y.tag_repr
            &&& x.cases@.len() == y.cases@.len()
            &&& forall|i: int|
                0 <= i < x.cases@.len() ==> (#[trigger] x.cases@[i]).name == y.cases@[i].name && match (
                    x.cases@[i].payload,
                    y.cases@[i].payload,
                ) {
                    (Some(p), Some(q)) => same_wazzi(p, q),
                    (None, None) => true,
                    _ => false,
                }
        },
        (WasiType::Record(x), WasiType::Record(y)) => {
            &&& x.members@.len() == y.members@.len()
            &&& forall|i: int|
                0 <= i < x.members@.len() ==> (#[trigger] x.members@[i]).name == y.members@[i].name
                    && same_wazzi(x.members@[i].ty, y.members@[i].ty)
        },
        (WasiType::List(x), WasiType::List(y)) => same_wazzi(x.item, y.item),
        _ => a == b,
    }
}

fn duplicate_attribute(a: &(String, WazziType)) -> (r: (String, WazziType))
    ensures
        a.0 == r.0 && same_wazzi(a.1, r.1),
    decreases a,
{
    (a.0.clone(), a.1.duplicate())
}

fn duplicate_attributes(v: &Vec<(String, WazziType)>) -> (r: Vec<(String, WazziType)>)
    ensures
        r@.len() == v@.len(),
        forall|i: int| 0 <= i < v@.len() ==> (#[trigger] v@[i]).0 == r@[i].0 && same_wazzi(v@[i].1, r@[i].1),
    decreases v,
{
    let mut r: Vec<(String, WazziType)> = Vec::new();
    let mut i: usize = 0;
    while i < v.len()
        invariant
            i <= v@.len(),
            r@.len() == i,
            forall|k: int| 0 <= k < i ==> (#[trigger] v@[k]).0 == r@[k].0 && same_wazzi(v@[k].1, r@[k].1),
        decreases v@.len() - i,
    {
        r.push(duplicate_attribute(&v[i]));
        i = i + 1;
    }
    r
}

fn duplicate_case(c: &VariantCaseType) -> (r: VariantCaseType)
    ensures
        c.name == r.name,
        match (c.payload, r.payload) {
            (Some(p), Some(q)) => same_wazzi(p, q),
            (None, None) => true,
            _ => false,
        },
    decreases c,
{
    let payload = match &c.payload {
        Some(p) => Some(p.duplicate()),
        None => None,
    };
    VariantCaseType { name: c.name.clone(), payload }
}

fn duplicate_cases(cs: &Vec<VariantCaseType>) -> (r: Vec<VariantCaseType>)
    ensures
        r@.len() == cs@.len(),
        forall|i: int|
            0 <= i < cs@.len() ==> (#[trigger] cs@[i]).name == r@[i].name && match (cs@[i].payload, r@[i].payload) {
                (Some(p), Some(q)) => same_wazzi(p, q),
                (None, None) => true,
                _ => false,
            },
    decreases cs,
{
    let mut r: Vec<VariantCaseType> = Vec::new();
    let mut i: usize = 0;
    while i < cs.len()
        invariant
            i <= cs@.len(),
            r@.len() == i,
            forall|k: int|
                0 <= k < i ==> (#[trigger] cs@[k]).name == r@[k].name && match (cs@[k].payload, r@[k].payload) {
                    (Some(p), Some(q)) => same_wazzi(p, q),
                    (None, None) => true,
                    _ => false,
                },
        decreases cs@.len() - i,
    {
        r.push(duplicate_case(&cs[i]));
        i = i + 1;
    }
    r
}

fn duplicate_member(m: &RecordMemberType) -> (r: RecordMemberType)
    ensures
        m.name == r.name && same_wazzi(m.ty, r.ty),
    decreases m,
{
    RecordMemberType { name: m.name.clone(), ty: m.ty.duplicate() }
}

fn duplicate_members(ms: &Vec<RecordMemberType>) -> (r: Vec<RecordMemberType>)
    ensures
        r@.len() == ms@.len(),
        forall|i: int| 0 <= i < ms@.len() ==> (#[trigger] ms@[i]).name == r@[i].name && same_wazzi(ms@[i].ty, r@[i].ty),
    decreases ms,
{
    let mut r: Vec<RecordMemberType> = Vec::new();
    let mut i: usize = 0;
    while i < ms.len()
        invariant
            i <= ms@.len(),
            r@.len() == i,
            forall|k: int| 0 <= k < i ==> (#[trigger] ms@[k]).name == r@[k].name && same_wazzi(ms@[k].ty, r@[k].ty),
        decreases ms@.len() - i,
    {
        r.push(duplicate_member(&ms[i]));
        i = i + 1;
    }
    r
}

impl WazziType {
    /// A copy of the type.
    pub fn duplicate(&self) -> (r: WazziType)
        ensures
            same_wazzi(*self, r),
        decreases self,
    {
        let name = match &self.name {
            Some(n) => Some(n.clone()),
            None => None,
        };
        let wasi = self.wasi.duplicate();
        let attributes = duplicate_attributes(&self.attributes);
        WazziType { name, wasi, attributes }
    }
}

impl WasiType {
    /// A copy of the type.
    pub fn duplicate(&self) -> (r: WasiType)
        ensures
            same_wasi(*self, r),
        decreases self,
    {
        match self {
            WasiType::S64 => WasiType::S64,
            WasiType::U8 => WasiType::U8,
            WasiType::U16 => WasiType::U16,
            WasiType::U32 => WasiType::U32,
            WasiType::U64 => WasiType::U64,
            WasiType::Handle => WasiType::Handle,
            WasiType::String => WasiType::String,
            WasiType::Flags(f) => {
                let fields = f.fields.clone();
                assert(fields@ =~= f.fields@);
                WasiType::Flags(FlagsType { repr: f.repr, fields })
            },
            WasiType::Variant(v) => WasiType::Variant(VariantType { tag_repr: v.tag_repr, cases: duplicate_cases(&v.cases) }),
            WasiType::Record(r) => WasiType::Record(RecordType { members: duplicate_members(&r.members) }),
            WasiType::List(l) => WasiType::List(Box::new(ListType { item: l.item.duplicate() })),
        }
    }
}

} // verus!
