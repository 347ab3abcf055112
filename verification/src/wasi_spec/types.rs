//! The WASI types of a specification, where a type may name another one.
use vstd::prelude::*;

use super::index::IndexSpace;
use super::slang::Term;

verus! {

/// A specification: its types and interfaces, each by name.
#[derive(Debug)]
pub struct Spec {
    pub types: IndexSpace<TypeDef>,
    pub interfaces: IndexSpace<Interface>,
}

/// A set of functions by name.
#[derive(Debug)]
pub struct Interface {
    pub functions: Vec<(String, Function)>,
}

impl Interface {
    pub fn new() -> (r: Self)
        ensures
            r.functions@.len() == 0,
    {
        Interface { functions: Vec::new() }
    }
}

#[derive(PartialEq, Eq, Debug)]
pub struct Function {
    pub name: String,
    pub params: Vec<FunctionParam>,
    pub results: Vec<FunctionResult>,
    pub return_type: Option<()>,
    pub input_contract: Option<Term>,
    pub output_contract: Option<Term>,
}

#[derive(PartialEq, Eq, Debug)]
pub struct FunctionParam {
    pub name: String,
    pub tref: TypeRef,
}

#[derive(PartialEq, Eq, Debug)]
pub struct FunctionResult {
    pub name: String,
    pub tref: TypeRef,
}

/// A type given by name, or written out where it is used.
#[derive(PartialEq, Eq, Debug)]
pub enum TypeRef {
    Named(String),
    Anonymous(WasiType),
}

/// A named type, and the type of the state that a resource of this type
/// carries, where it is one.
#[derive(PartialEq, Eq, Debug)]
pub struct TypeDef {
    pub name: String,
    pub wasi: WasiType,
    pub state: Option<WasiType>,
}

#[derive(PartialEq, Eq, Debug)]
pub enum WasiType {
    S64,
    U8,
    U16,
    U32,
    U64,
    Handle,
    Flags(FlagsType),
    Variant(VariantType),
    Record(RecordType),
    Pointer(Box<PointerType>),
    String,
    List(Box<ListType>),
}

#[derive(PartialEq, Eq, Debug)]
pub struct FlagsType {
    pub repr: IntRepr,
    pub fields: Vec<String>,
}

/// The integer that represents flags or a variant's tag.
#[derive(PartialEq, Eq, Clone, Copy, Debug)]
pub enum IntRepr {
    U8,
    U16,
    U32,
    U64,
}

#[derive(PartialEq, Eq, Debug)]
pub struct VariantType {
    pub tag_repr: IntRepr,
    pub cases: Vec<VariantCaseType>,
}

#[derive(PartialEq, Eq, Debug)]
pub struct VariantCaseType {
    pub name: String,
    pub payload: Option<TypeRef>,
}

#[derive(PartialEq, Eq, Debug)]
pub struct RecordType {
    pub members: Vec<RecordMemberType>,
}

#[derive(PartialEq, Eq, Debug)]
pub struct RecordMemberType {
    pub name: String,
    pub tref: TypeRef,
}

/// Where a record's member starts, in bytes from the record's start.
#[derive(PartialEq, Eq, Clone, Copy, Debug)]
pub struct RecordMemberLayout {
    pub offset: u32,
}

#[derive(PartialEq, Eq, Debug)]
pub struct ListType {
    pub item: TypeRef,
}

/// A pointer to items of a type, which the callee may write through unless
/// it is constant.
#[derive(PartialEq, Eq, Debug)]
pub struct PointerType {
    pub item: TypeRef,
    pub is_const: bool,
}

impl IntRepr {
    /// The width of the integer, in bytes.
    pub open spec fn bytes(self) -> int {
        match self {
            IntRepr::U8 => 1,
            IntRepr::U16 => 2,
            IntRepr::U32 => 4,
            IntRepr::U64 => 8,
        }
    }

    pub fn alignment(&self) -> (r: u32)
        ensures
            r == self.bytes(),
    {
        match self {
            IntRepr::U8 => 1,
            IntRepr::U16 => 2,
            IntRepr::U32 => 4,
            IntRepr::U64 => 8,
        }
    }

    pub fn mem_size(&self) -> (r: u32)
        ensures
            r == self.bytes(),
    {
        match self {
            IntRepr::U8 => 1,
            IntRepr::U16 => 2,
            IntRepr::U32 => 4,
            IntRepr::U64 => 8,
        }
    }
}

impl WasiType {
    pub fn flags(&self) -> (r: Option<&FlagsType>)
        ensures
            r matches Some(f) ==> *self == WasiType::Flags(*f),
            r is None ==> !(self is Flags),
    {
        match self {
            WasiType::Flags(flags) => Some(flags),
            _ => None,
        }
    }

    pub fn variant(&self) -> (r: Option<&VariantType>)
        ensures
            r matches Some(v) ==> *self == WasiType::Variant(*v),
            r is None ==> !(self is Variant),
    {
        match self {
            WasiType::Variant(variant) => Some(variant),
            _ => None,
        }
    }

    pub fn pointer(&self) -> (r: Option<&PointerType>)
        ensures
            r matches Some(p) ==> *self == WasiType::Pointer(Box::new(*p)),
            r is None ==> !(self is Pointer),
    {
        match self {
            WasiType::Pointer(pointer) => Some(pointer),
            _ => None,
        }
    }

    pub fn record(&self) -> (r: Option<&RecordType>)
        ensures
            r matches Some(rt) ==> *self == WasiType::Record(*rt),
            r is None ==> !(self is Record),
    {
        match self {
            WasiType::Record(record) => Some(record),
            _ => None,
        }
    }

    /// The name under which a specification keeps a type written out where
    /// it is used: only integers and handles have one.
    pub open spec fn builtin_name(self) -> Option<Seq<char>> {
        match self {
            WasiType::S64 => Some("s64"@),
            WasiType::U8 => Some("u8"@),
            WasiType::U16 => Some("u16"@),
            WasiType::U32 => Some("u32"@),
            WasiType::U64 => Some("u64"@),
            WasiType::Handle => Some("handle"@),
            _ => None,
        }
    }
}

impl Spec {
    /// Whether the types and the interfaces are each under unique names.
    pub open spec fn wf(&self) -> bool {
        self.types.wf() && self.interfaces.wf()
    }

    /// The type named `name`.
    pub open spec fn type_named(&self, name: Seq<char>) -> Option<TypeDef> {
        match self.types.index_of(name) {
            Some(i) => Some(self.types.values()[i]),
            None => None,
        }
    }

    /// A specification with the integer types `s64`, `u8`, `u32` and `u64`,
    /// and no interface.
    pub fn new() -> (r: Self)
        ensures
            r.wf(),
            r.types.keys() == seq!["s64"@, "u8"@, "u32"@, "u64"@],
            r.types.values().len() == 4,
            forall|i: int| 0 <= i < 4 ==> (#[trigger] r.types.values()[i]).name@ == r.types.keys()[i]
                && r.types.values()[i].state is None,
            r.types.values()[0].wasi == WasiType::S64,
            r.types.values()[1].wasi == WasiType::U8,
            r.types.values()[2].wasi == WasiType::U32,
            r.types.values()[3].wasi == WasiType::U64,
            r.interfaces.keys().len() == 0,
    {
        proof {
            reveal_strlit("s64");
            reveal_strlit("u8");
            reveal_strlit("u32");
            reveal_strlit("u64");
        }
        let mut types: IndexSpace<TypeDef> = IndexSpace::new();
        types.push("s64".to_owned(), TypeDef { name: "s64".to_owned(), wasi: WasiType::S64, state: None });
        assert(types.keys() == seq!["s64"@]);
        assert("u8"@ != "s64"@) by {
            assert("u8"@.len() != "s64"@.len());
        }
        types.push("u8".to_owned(), TypeDef { name: "u8".to_owned(), wasi: WasiType::U8, state: None });
        assert(types.keys() == seq!["s64"@, "u8"@]);
        assert("u32"@ != "s64"@ && "u32"@ != "u8"@) by {
            assert("u32"@[0] != "s64"@[0]);
            assert("u32"@.len() != "u8"@.len());
        }
        types.push("u32".to_owned(), TypeDef { name: "u32".to_owned(), wasi: WasiType::U32, state: None });
        assert(types.keys() == seq!["s64"@, "u8"@, "u32"@]);
        assert("u64"@ != "s64"@ && "u64"@ != "u8"@ && "u64"@ != "u32"@) by {
            assert("u64"@[0] != "s64"@[0]);
            assert("u64"@.len() != "u8"@.len());
            assert("u64"@[1] != "u32"@[1]);
        }
        types.push("u64".to_owned(), TypeDef { name: "u64".to_owned(), wasi: WasiType::U64, state: None });
        assert(types.keys() == seq!["s64"@, "u8"@, "u32"@, "u64"@]);
        Spec { types, interfaces: IndexSpace::new() }
    }
}

/// Whether two types are the same: of the same kind, with the same names,
/// widths and constness, and the same types inside.
pub open spec fn same_type(a: WasiType, b: WasiType) -> bool
    decreases a,
{
    match (a, b) {
        (WasiType::Flags(x), WasiType::Flags(y)) => x.repr == y.repr && x.fields@ == y.fields@,
        (WasiType::Variant(x), WasiType::Variant(y)) => {
            &&& x.tag_repr == y.tag_repr
            &&& x.cases@.len() == y.cases@.len()
            &&& forall|i: int|
                0 <= i < x.cases@.len() ==> (#[trigger] x.cases@[i]).name == y.cases@[i].name && match (
                    x.cases@[i].payload,
                    y.cases@[i].payload,
                ) {
                    (Some(p), Some(q)) => same_ref(p, q),
                    (None, None) => true,
                    _ => false,
                }
        },
        (WasiType::Record(x), WasiType::Record(y)) => {
            &&& x.members@.len() == y.members@.len()
            &&& forall|i: int|
                0 <= i < x.members@.len() ==> (#[trigger] x.members@[i]).name == y.members@[i].name
                    && same_ref(x.members@[i].tref, y.members@[i].tref)
        },
        (WasiType::Pointer(x), WasiType::Pointer(y)) => x.is_const == y.is_const && same_ref(x.item, y.item),
        (WasiType::List(x), WasiType::List(y)) => same_ref(x.item, y.item),
        _ => a == b,
    }
}

/// Whether two references are the same: by the same name, or to the same
/// type written out.
pub open spec fn same_ref(a: TypeRef, b: TypeRef) -> bool
    decreases a,
{
    match (a, b) {
        (TypeRef::Named(x), TypeRef::Named(y)) => x == y,
        (TypeRef::Anonymous(x), TypeRef::Anonymous(y)) => same_type(x, y),
        _ => false,
    }
}

/// Whether two cases are the same: by name, and with the same payload.
pub open spec fn same_case(a: VariantCaseType, b: VariantCaseType) -> bool {
    &&& a.name == b.name
    &&& match (a.payload, b.payload) {
        (Some(p), Some(q)) => same_ref(p, q),
        (None, None) => true,
        _ => false,
    }
}

fn duplicate_case(c: &VariantCaseType) -> (r: VariantCaseType)
    ensures
        same_case(*c, r),
    decreases c,
{
    let payload = match &c.payload {
        Some(p) => Some(p.duplicate()),
        None => None,
    };
    VariantCaseType { name: c.name.clone(), payload }
}

fn duplicate_cases(cs: &Vec<VariantCaseType>) -> (r: Vec<VariantCaseType>)
    ensures
        r@.len() == cs@.len(),
        forall|i: int| 0 <= i < cs@.len() ==> same_case(#[trigger] cs@[i], r@[i]),
    decreases cs,
{
    let mut r: Vec<VariantCaseType> = Vec::new();
    let mut i: usize = 0;
    while i < cs.len()
        invariant
            i <= cs@.len(),
            r@.len() == i,
            forall|k: int| 0 <= k < i ==> same_case(#[trigger] cs@[k], r@[k]),
        decreases cs@.len() - i,
    {
        r.push(duplicate_case(&cs[i]));
        i = i + 1;
    }
    r
}

fn duplicate_member(m: &RecordMemberType) -> (r: RecordMemberType)
    ensures
        m.name == r.name,
        same_ref(m.tref, r.tref),
    decreases m,
{
    RecordMemberType { name: m.name.clone(), tref: m.tref.duplicate() }
}

fn duplicate_members(ms: &Vec<RecordMemberType>) -> (r: Vec<RecordMemberType>)
    ensures
        r@.len() == ms@.len(),
        forall|i: int| 0 <= i < ms@.len() ==> (#[trigger] ms@[i]).name == r@[i].name && same_ref(ms@[i].tref, r@[i].tref),
    decreases ms,
{
    let mut r: Vec<RecordMemberType> = Vec::new();
    let mut i: usize = 0;
    while i < ms.len()
        invariant
            i <= ms@.len(),
            r@.len() == i,
            forall|k: int| 0 <= k < i ==> (#[trigger] ms@[k]).name == r@[k].name && same_ref(ms@[k].tref, r@[k].tref),
        decreases ms@.len() - i,
    {
        r.push(duplicate_member(&ms[i]));
        i = i + 1;
    }
    r
}

impl WasiType {
    /// A copy of the type.
    pub fn duplicate(&self) -> (r: WasiType)
        ensures
            same_type(*self, r),
        decreases self,
    {
        match self {
            WasiType::S64 => WasiType::S64,
            WasiType::U8 => WasiType::U8,
            WasiType::U16 => WasiType::U16,
            WasiType::U32 => WasiType::U32,
            WasiType::U64 => WasiType::U64,
            WasiType::Handle => WasiType::Handle,
            WasiType::String => WasiType::String,
            WasiType::Flags(f) => {
                let fields = f.fields.clone();
                assert(fields@ =~= f.fields@);
                WasiType::Flags(FlagsType { repr: f.repr, fields })
            },
            WasiType::Variant(v) => {
                let cases = duplicate_cases(&v.cases);
                let r = WasiType::Variant(VariantType { tag_repr: v.tag_repr, cases });
                assert(forall|i: int| 0 <= i < v.cases@.len() ==> same_case(#[trigger] v.cases@[i], cases@[i]));
                r
            },
            WasiType::Record(r) => WasiType::Record(RecordType { members: duplicate_members(&r.members) }),
            WasiType::Pointer(p) => WasiType::Pointer(
                Box::new(PointerType { item: p.item.duplicate(), is_const: p.is_const }),
            ),
            WasiType::List(l) => WasiType::List(Box::new(ListType { item: l.item.duplicate() })),
        }
    }
}

impl TypeRef {
    /// A copy of the reference.
    pub fn duplicate(&self) -> (r: TypeRef)
        ensures
            same_ref(*self, r),
        decreases self,
    {
        match self {
            TypeRef::Named(n) => TypeRef::Named(n.clone()),
            TypeRef::Anonymous(t) => TypeRef::Anonymous(t.duplicate()),
        }
    }
}

impl Spec {
    /// The type of what is named `name`: the type of its state where it is
    /// the type of a resource, its own type otherwise.
    pub fn get_wasi_type(&self, name: &str) -> (r: Option<WasiType>)
        requires
            self.wf(),
        ensures
            r is None <==> self.type_named(name@) is None,
            r matches Some(t) ==> same_type(
                match self.type_named(name@).unwrap().state {
                    Some(s) => s,
                    None => self.type_named(name@).unwrap().wasi,
                },
                t,
            ),
    {
        match self.types.get_by_key(name) {
            Some(tdef) => Some(
                match &tdef.state {
                    Some(state) => state.duplicate(),
                    None => tdef.wasi.duplicate(),
                },
            ),
            None => None,
        }
    }
}

} // verus!
