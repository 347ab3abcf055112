//! Values of the types of a specification.
use vstd::prelude::*;

use super::types::{FlagsType, VariantType};

verus! {

#[derive(PartialEq, Eq, Debug)]
pub enum WasiValue {
    Handle(u32),
    S64(i64),
    U8(u8),
    U32(u32),
    U16(u16),
    U64(u64),
    Record(RecordValue),
    Flags(FlagsValue),
    List(ListValue),
    Pointer(PointerValue),
    String(Vec<u8>),
    Variant(Box<VariantValue>),
}

#[derive(PartialEq, Eq, Debug)]
pub struct RecordValue {
    pub members: Vec<WasiValue>,
}

#[derive(PartialEq, Eq, Debug)]
pub struct FlagsValue {
    pub fields: Vec<bool>,
}

/// The items a pointer points to.
#[derive(PartialEq, Eq, Debug)]
pub struct PointerValue {
    pub items: Vec<WasiValue>,
}

#[derive(PartialEq, Eq, Debug)]
pub struct ListValue {
    pub items: Vec<WasiValue>,
}

#[derive(PartialEq, Eq, Debug)]
pub struct VariantValue {
    pub case_idx: usize,
    pub payload: Option<WasiValue>,
}


/// Whether two values are the same: of the same kind, with the same
/// integers and bytes, and, member by member and item by item, the same
/// values inside.
pub open spec fn same(a: WasiValue, b: WasiValue) -> bool
    decreases a,
{
    match (a, b) {
        (WasiValue::Handle(x), WasiValue::Handle(y)) => x == y,
        (WasiValue::S64(x), WasiValue::S64(y)) => x == y,
        (WasiValue::U8(x), WasiValue::U8(y)) => x == y,
        (WasiValue::U16(x), WasiValue::U16(y)) => x == y,
        (WasiValue::U32(x), WasiValue::U32(y)) => x == y,
        (WasiValue::U64(x), WasiValue::U64(y)) => x == y,
        (WasiValue::String(x), WasiValue::String(y)) => x@ == y@,
        (WasiValue::Flags(x), WasiValue::Flags(y)) => x.fields@ == y.fields@,
        (WasiValue::Record(x), WasiValue::Record(y)) => {
            &&& x.members@.len() == y.members@.len()
            &&& forall|i: int|
                0 <= i < x.members@.len() ==> same(#[trigger] x.members@[i], y.members@[i])
        },
        (WasiValue::List(x), WasiValue::List(y)) => {
            &&& x.items@.len() == y.items@.len()
            &&& forall|i: int| 0 <= i < x.items@.len() ==> same(#[trigger] x.items@[i], y.items@[i])
        },
        (WasiValue::Pointer(x), WasiValue::Pointer(y)) => {
            &&& x.items@.len() == y.items@.len()
            &&& forall|i: int| 0 <= i < x.items@.len() ==> same(#[trigger] x.items@[i], y.items@[i])
        },
        (WasiValue::Variant(x), WasiValue::Variant(y)) => {
            &&& x.case_idx == y.case_idx
            &&& match (x.payload, y.payload) {
                (None, None) => true,
                (Some(p), Some(q)) => same(p, q),
                _ => false,
            }
        },
        _ => false,
    }
}

fn duplicate_all(vs: &Vec<WasiValue>) -> (r: Vec<WasiValue>)
    ensures
        r@.len() == vs@.len(),
        forall|i: int| 0 <= i < vs@.len() ==> same(#[trigger] vs@[i], r@[i]),
    decreases vs,
{
    let mut r: Vec<WasiValue> = Vec::new();
    let mut i: usize = 0;
    while i < vs.len()
        invariant
            i <= vs@.len(),
            r@.len() == i,
            forall|k: int| 0 <= k < i ==> same(#[trigger] vs@[k], r@[k]),
        decreases vs@.len() - i,
    {
        r.push(vs[i].duplicate());
        i = i + 1;
    }
    r
}

impl WasiValue {
    /// A copy of the value.
    pub fn duplicate(&self) -> (r: WasiValue)
        ensures
            same(*self, r),
        decreases self,
    {
        match self {
            WasiValue::Handle(x) => WasiValue::Handle(*x),
            WasiValue::S64(x) => WasiValue::S64(*x),
            WasiValue::U8(x) => WasiValue::U8(*x),
            WasiValue::U16(x) => WasiValue::U16(*x),
            WasiValue::U32(x) => WasiValue::U32(*x),
            WasiValue::U64(x) => WasiValue::U64(*x),
            WasiValue::String(b) => WasiValue::String(b.clone()),
            WasiValue::Flags(f) => WasiValue::Flags(FlagsValue { fields: f.fields.clone() }),
            WasiValue::Record(rv) => WasiValue::Record(RecordValue { members: duplicate_all(&rv.members) }),
            WasiValue::List(l) => WasiValue::List(ListValue { items: duplicate_all(&l.items) }),
            WasiValue::Pointer(p) => WasiValue::Pointer(PointerValue { items: duplicate_all(&p.items) }),
            WasiValue::Variant(v) => {
                let payload = match &v.payload {
                    Some(p) => Some(p.duplicate()),
                    None => None,
                };
                WasiValue::Variant(Box::new(VariantValue { case_idx: v.case_idx, payload }))
            },
        }
    }
}

impl WasiValue {
    pub fn u32(&self) -> (r: Option<u32>)
        ensures
            r == match *self {
                WasiValue::U32(i) => Some(i),
                _ => None::<u32>,
            },
    {
        match self {
            WasiValue::U32(i) => Some(*i),
            _ => None,
        }
    }

    pub fn u64(&self) -> (r: Option<u64>)
        ensures
            r == match *self {
                WasiValue::U64(i) => Some(i),
                _ => None::<u64>,
            },
    {
        match self {
            WasiValue::U64(i) => Some(*i),
            _ => None,
        }
    }

    pub fn handle(&self) -> (r: Option<u32>)
        ensures
            r == match *self {
                WasiValue::Handle(h) => Some(h),
                _ => None::<u32>,
            },
    {
        match self {
            WasiValue::Handle(h) => Some(*h),
            _ => None,
        }
    }

    pub fn record(&self) -> (r: Option<&RecordValue>)
        ensures
            r matches Some(rv) ==> *self == WasiValue::Record(*rv),
            r is None ==> !(self is Record),
    {
        match self {
            WasiValue::Record(record) => Some(record),
            _ => None,
        }
    }

    pub fn record_mut(&mut self) -> (r: Option<&mut RecordValue>)
        ensures
            (*old(self) is Record) <==> r is Some,
            r matches Some(rv) ==> {
                &&& *old(self) == WasiValue::Record(*rv)
                &&& *final(self) == WasiValue::Record(*final(rv))
            },
            r is None ==> *final(self) == *old(self),
    {
        match self {
            WasiValue::Record(record) => Some(record),
            _ => None,
        }
    }

    pub fn string(&self) -> (r: Option<&[u8]>)
        ensures
            r matches Some(b) ==> self matches WasiValue::String(s) && b@ == s@,
            r is None ==> !(self is String),
    {
        match self {
            WasiValue::String(b) => Some(b.as_slice()),
            _ => None,
        }
    }

    pub fn variant(&self) -> (r: Option<&VariantValue>)
        ensures
            r matches Some(v) ==> *self == WasiValue::Variant(Box::new(*v)),
            r is None ==> !(self is Variant),
    {
        match self {
            WasiValue::Variant(variant) => Some(variant),
            _ => None,
        }
    }
}

impl FlagsType {
    /// The flags value with exactly the named fields set.
    pub fn value(&self, fields: &[String]) -> (r: WasiValue)
        ensures
            r matches WasiValue::Flags(fv) && fv.fields@.len() == self.fields@.len() && forall|i: int|
                0 <= i < self.fields@.len() ==> (#[trigger] fv.fields@[i] <==> exists|j: int|
                    0 <= j < fields@.len() && fields@[j]@ == self.fields@[i]@),
    {
        let mut values: Vec<bool> = Vec::new();
        let mut i: usize = 0;
        while i < self.fields.len()
            invariant
                i <= self.fields@.len(),
                values@.len() == i,
                forall|k: int|
                    0 <= k < i ==> (#[trigger] values@[k] <==> exists|j: int|
                        0 <= j < fields@.len() && fields@[j]@ == self.fields@[k]@),
            decreases self.fields@.len() - i,
        {
            let mut found = false;
            let mut j: usize = 0;
            while j < fields.len()
                invariant
                    i < self.fields@.len(),
                    j <= fields@.len(),
                    found <==> exists|m: int| 0 <= m < j && fields@[m]@ == self.fields@[i as int]@,
                decreases fields@.len() - j,
            {
                if fields[j] == self.fields[i] {
                    found = true;
                }
                j = j + 1;
            }
            values.push(found);
            i = i + 1;
        }
        WasiValue::Flags(FlagsValue { fields: values })
    }
}

impl VariantType {
    /// The value of the first case named `case_name`, with `payload`; `None`
    /// where no case has that name.
    pub fn value_from_name(&self, case_name: &str, payload: Option<WasiValue>) -> (r: Option<
        WasiValue,
    >)
        ensures
            r is None <==> forall|i: int|
                0 <= i < self.cases@.len() ==> #[trigger] self.cases@[i].name@ != case_name@,
            r matches Some(v) ==> v matches WasiValue::Variant(b) && b.case_idx
                < self.cases@.len() && self.cases@[b.case_idx as int].name@ == case_name@ && (
            forall|i: int| 0 <= i < b.case_idx ==> #[trigger] self.cases@[i].name@ != case_name@)
                && b.payload == payload,
    {
        let target = case_name.to_owned();
        let mut i: usize = 0;
        while i < self.cases.len()
            invariant
                target@ == case_name@,
                i <= self.cases@.len(),
                forall|k: int| 0 <= k < i ==> #[trigger] self.cases@[k].name@ != case_name@,
            decreases self.cases@.len() - i,
        {
            if self.cases[i].name == target {
                return Some(WasiValue::Variant(Box::new(VariantValue { case_idx: i, payload })));
            }
            i = i + 1;
        }
        None
    }
}

} // verus!
