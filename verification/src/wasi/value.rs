//! Values of WASI types, and how a value is made for a type: from names, as
//! the type's zero, or drawn from fuzzing input.
use vstd::prelude::*;


use super::types::{FlagsType, VariantType, WasiType};
use crate::entropy::{
    arbitrary_bool, arbitrary_byte_vec, arbitrary_i64, arbitrary_u32, arbitrary_u64, arbitrary_u8,
    after_uint, bools_drawn, byte_vec_drawn, choose_index, i64_drawn, index_drawn, uint_drawn, DataError,
    Entropy,
};

verus! {

#[derive(PartialEq, Eq, Debug)]
pub enum WasiValue {
    Handle(u32),
    S64(i64),
    U8(u8),
    U32(u32),
    U64(u64),
    Record(RecordValue),
    Flags(FlagsValue),
    List(ListValue),
    String(Vec<u8>),
    Variant(Box<VariantValue>),
}

#[derive(PartialEq, Eq, Debug)]
pub struct RecordValue {
    pub members: Vec<WasiValue>,
}

#[derive(PartialEq, Eq, Debug)]
pub struct FlagsValue {
    pub fields: Vec<bool>,
}

#[derive(PartialEq, Eq, Debug)]
pub struct ListValue {
    pub items: Vec<WasiValue>,
}

#[derive(PartialEq, Eq, Debug)]
pub struct VariantValue {
    pub case_idx: usize,
    pub payload: Option<WasiValue>,
}


/// Whether two values are the same: of the same kind, with the same
/// integers and bytes, and, member by member and item by item, the same
/// values inside.
pub open spec fn same(a: WasiValue, b: WasiValue) -> bool
    decreases a,
{
    match (a, b) {
        (WasiValue::Handle(x), WasiValue::Handle(y)) => x == y,
        (WasiValue::S64(x), WasiValue::S64(y)) => x == y,
        (WasiValue::U8(x), WasiValue::U8(y)) => x == y,
        (WasiValue::U32(x), WasiValue::U32(y)) => x == y,
        (WasiValue::U64(x), WasiValue::U64(y)) => x == y,
        (WasiValue::String(x), WasiValue::String(y)) => x@ == y@,
        (WasiValue::Flags(x), WasiValue::Flags(y)) => x.fields@ == y.fields@,
        (WasiValue::Record(x), WasiValue::Record(y)) => {
            &&& x.members@.len() == y.members@.len()
            &&& forall|i: int|
                0 <= i < x.members@.len() ==> same(#[trigger] x.members@[i], y.members@[i])
        },
        (WasiValue::List(x), WasiValue::List(y)) => {
            &&& x.items@.len() == y.items@.len()
            &&& forall|i: int| 0 <= i < x.items@.len() ==> same(#[trigger] x.items@[i], y.items@[i])
        },
        (WasiValue::Variant(x), WasiValue::Variant(y)) => {
            &&& x.case_idx == y.case_idx
            &&& match (x.payload, y.payload) {
                (None, None) => true,
                (Some(p), Some(q)) => same(p, q),
                _ => false,
            }
        },
        _ => false,
    }
}

fn duplicate_all(vs: &Vec<WasiValue>) -> (r: Vec<WasiValue>)
    ensures
        r@.len() == vs@.len(),
        forall|i: int| 0 <= i < vs@.len() ==> same(#[trigger] vs@[i], r@[i]),
    decreases vs,
{
    let mut r: Vec<WasiValue> = Vec::new();
    let mut i: usize = 0;
    while i < vs.len()
        invariant
            i <= vs@.len(),
            r@.len() == i,
            forall|k: int| 0 <= k < i ==> same(#[trigger] vs@[k], r@[k]),
        decreases vs@.len() - i,
    {
        r.push(vs[i].duplicate());
        i = i + 1;
    }
    r
}

impl WasiValue {
    /// A copy of the value.
    pub fn duplicate(&self) -> (r: WasiValue)
        ensures
            same(*self, r),
        decreases self,
    {
        match self {
            WasiValue::Handle(x) => WasiValue::Handle(*x),
            WasiValue::S64(x) => WasiValue::S64(*x),
            WasiValue::U8(x) => WasiValue::U8(*x),
            WasiValue::U32(x) => WasiValue::U32(*x),
            WasiValue::U64(x) => WasiValue::U64(*x),
            WasiValue::String(b) => WasiValue::String(b.clone()),
            WasiValue::Flags(f) => WasiValue::Flags(FlagsValue { fields: f.fields.clone() }),
            WasiValue::Record(rv) => WasiValue::Record(RecordValue { members: duplicate_all(&rv.members) }),
            WasiValue::List(l) => WasiValue::List(ListValue { items: duplicate_all(&l.items) }),
            WasiValue::Variant(v) => {
                let payload = match &v.payload {
                    Some(p) => Some(p.duplicate()),
                    None => None,
                };
                WasiValue::Variant(Box::new(VariantValue { case_idx: v.case_idx, payload }))
            },
        }
    }
}

impl WasiType {
    /// Whether `v` is a value of this type: of the same shape, with as many
    /// flags, members or items as the type says, a case the variant has and
    /// the payload that case carries.
    pub open spec fn admits(self, v: WasiValue) -> bool
        decreases self,
    {
        match (self, v) {
            (WasiType::S64, WasiValue::S64(_)) => true,
            (WasiType::U8, WasiValue::U8(_)) => true,
            (WasiType::U32, WasiValue::U32(_)) => true,
            (WasiType::U64, WasiValue::U64(_)) => true,
            (WasiType::Handle, WasiValue::Handle(_)) => true,
            (WasiType::String, WasiValue::String(_)) => true,
            (WasiType::Flags(f), WasiValue::Flags(fv)) => fv.fields@.len() == f.fields@.len(),
            (WasiType::Record(r), WasiValue::Record(rv)) => {
                &&& rv.members@.len() == r.members@.len()
                &&& forall|i: int|
                    0 <= i < r.members@.len() ==> #[trigger] r.members@[i].ty.wasi.admits(
                        rv.members@[i],
                    )
            },
            (WasiType::List(l), WasiValue::List(lv)) => forall|i: int|
                0 <= i < lv.items@.len() ==> l.item.wasi.admits(#[trigger] lv.items@[i]),
            (WasiType::Variant(t), WasiValue::Variant(b)) => {
                &&& b.case_idx < t.cases@.len()
                &&& match (t.cases@[b.case_idx as int].payload, b.payload) {
                    (None, None) => true,
                    (Some(p), Some(pv)) => p.wasi.admits(pv),
                    _ => false,
                }
            },
            _ => false,
        }
    }

    /// The types that have a zero value: integers but `u8` and `u32`,
    /// handles, flags, strings, and variants whose first case has a payload
    /// with a zero value or none.
    pub open spec fn has_zero(self) -> bool
        decreases self,
    {
        match self {
            WasiType::S64 | WasiType::U64 | WasiType::Handle | WasiType::Flags(_)
            | WasiType::String => true,
            WasiType::Variant(v) => v.cases@.len() > 0 && match v.cases@[0].payload {
                Some(p) => p.wasi.has_zero(),
                None => true,
            },
            _ => false,
        }
    }

    /// Whether `v` is this type's zero: integers and handles are zero, no
    /// flag is set, strings are empty, and a variant is its first case with
    /// the zero of its payload.
    pub open spec fn is_zero(self, v: WasiValue) -> bool
        decreases self,
    {
        match (self, v) {
            (WasiType::S64, WasiValue::S64(x)) => x == 0,
            (WasiType::U64, WasiValue::U64(x)) => x == 0,
            (WasiType::Handle, WasiValue::Handle(x)) => x == 0,
            (WasiType::Flags(f), WasiValue::Flags(fv)) => fv.fields@ == Seq::new(
                f.fields@.len(),
                |i: int| false,
            ),
            (WasiType::String, WasiValue::String(b)) => b@.len() == 0,
            (WasiType::Variant(t), WasiValue::Variant(b)) => {
                &&& t.cases@.len() > 0
                &&& b.case_idx == 0
                &&& match (t.cases@[0].payload, b.payload) {
                    (None, None) => true,
                    (Some(p), Some(pv)) => p.wasi.is_zero(pv),
                    _ => false,
                }
            },
            _ => false,
        }
    }

    /// The types that values can be drawn for: integers but `u8`, `u16` and
    /// `u32`, handles, flags, strings, and variants all of whose payloads can
    /// be drawn.
    pub open spec fn generable(self) -> bool
        decreases self,
    {
        match self {
            WasiType::S64 | WasiType::U64 | WasiType::Handle | WasiType::Flags(_)
            | WasiType::String => true,
            WasiType::Variant(v) => forall|i: int|
                0 <= i < v.cases@.len() ==> match #[trigger] v.cases@[i].payload {
                    Some(p) => p.wasi.generable(),
                    None => true,
                },
            _ => false,
        }
    }

    /// Whether drawing a value can meet a variant without cases.
    pub open spec fn meets_empty_variant(self) -> bool
        decreases self,
    {
        match self {
            WasiType::Variant(v) => v.cases@.len() == 0 || exists|i: int|
                0 <= i < v.cases@.len() && match #[trigger] v.cases@[i].payload {
                    Some(p) => p.wasi.meets_empty_variant(),
                    None => false,
                },
            _ => false,
        }
    }

    /// The zero value of the type.
    pub fn zero_value(&self) -> (r: WasiValue)
        requires
            self.has_zero(),
        ensures
            self.is_zero(r),
            self.admits(r),
        decreases self,
    {
        match self {
            WasiType::S64 => WasiValue::S64(0),
            WasiType::U64 => WasiValue::U64(0),
            WasiType::Handle => WasiValue::Handle(0),
            WasiType::Flags(flags) => {
                let mut fields: Vec<bool> = Vec::new();
                let mut i: usize = 0;
                while i < flags.fields.len()
                    invariant
                        i <= flags.fields@.len(),
                        fields@ == Seq::new(i as nat, |j: int| false),
                    decreases flags.fields@.len() - i,
                {
                    fields.push(false);
                    i = i + 1;
                }
                WasiValue::Flags(FlagsValue { fields })
            },
            WasiType::Variant(variant) => {
                let payload = match &variant.cases[0].payload {
                    Some(p) => Some(p.wasi.zero_value()),
                    None => None,
                };
                WasiValue::Variant(Box::new(VariantValue { case_idx: 0, payload }))
            },
            _ => WasiValue::String(Vec::new()),
        }
    }

    /// Whether drawing a value of the type from the bytes `data` gives `r`
    /// and leaves `rest`: an integer or handle read from the bytes, a flag
    /// for each field, a case index and then the case's payload, and for
    /// any other type a byte vector.
    pub open spec fn drawn_from(self, data: Seq<u8>, r: Result<WasiValue, DataError>, rest: Seq<u8>) -> bool
        decreases self,
    {
        match self {
            WasiType::S64 => r matches Ok(WasiValue::S64(x)) && x == i64_drawn(data) && rest == after_uint(data, 8),
            WasiType::U64 => r matches Ok(WasiValue::U64(x)) && x == uint_drawn(data, 8) && rest == after_uint(
                data,
                8,
            ),
            WasiType::Handle => r matches Ok(WasiValue::Handle(x)) && x == uint_drawn(data, 4) && rest
                == after_uint(data, 4),
            WasiType::Flags(f) => r matches Ok(WasiValue::Flags(fv)) && (fv.fields@, rest) == bools_drawn(
                data,
                f.fields@.len(),
            ),
            WasiType::Variant(v) => if v.cases@.len() == 0 {
                r is Err && rest == data
            } else {
                let (i, after) = index_drawn(data, v.cases@.len() as usize);
                if i < v.cases@.len() {
                    match v.cases@[i as int].payload {
                        None => r matches Ok(WasiValue::Variant(vv)) && vv.case_idx == i && vv.payload is None
                            && rest == after,
                        Some(p) => {
                            ||| (r matches Ok(WasiValue::Variant(vv)) && vv.case_idx == i
                                && (vv.payload matches Some(pv) && p.wasi.drawn_from(after, Ok(pv), rest)))
                            ||| (r is Err && p.wasi.drawn_from(after, r, rest))
                        },
                    }
                } else {
                    false
                }
            },
            _ => r matches Ok(WasiValue::String(b)) && (b@, rest) == byte_vec_drawn(data),
        }
    }

    /// A value of the type drawn from the fuzzing input. It fails only where
    /// it meets a variant without cases.
    pub fn arbitrary_value(&self, u: &mut Entropy) -> (r: Result<WasiValue, DataError>)
        requires
            self.generable(),
        ensures
            r matches Ok(v) ==> self.admits(v),
            r is Err ==> self.meets_empty_variant(),
            self.drawn_from(old(u).data(), r, final(u).data()),
        decreases self,
    {
        let ghost d0 = u.data();
        match self {
            WasiType::S64 => match arbitrary_i64(u) {
                Ok(x) => Ok(WasiValue::S64(x)),
                Err(e) => Err(e),
            },
            WasiType::U64 => match arbitrary_u64(u) {
                Ok(x) => Ok(WasiValue::U64(x)),
                Err(e) => Err(e),
            },
            WasiType::Handle => match arbitrary_u32(u) {
                Ok(x) => Ok(WasiValue::Handle(x)),
                Err(e) => Err(e),
            },
            WasiType::Flags(flags) => {
                let mut fields: Vec<bool> = Vec::new();
                let mut i: usize = 0;
                while i < flags.fields.len()
                    invariant
                        i <= flags.fields@.len(),
                        fields@.len() == i,
                        (fields@, u.data()) == bools_drawn(d0, i as nat),
                    decreases flags.fields@.len() - i,
                {
                    match arbitrary_bool(u) {
                        Ok(b) => fields.push(b),
                        Err(e) => {
                            return Err(e);
                        },
                    }
                    i = i + 1;
                }
                Ok(WasiValue::Flags(FlagsValue { fields }))
            },
            WasiType::Variant(variant) => {
                let case_idx = match choose_index(u, variant.cases.len()) {
                    Ok(i) => i,
                    Err(e) => {
                        return Err(e);
                    },
                };
                let payload = match &variant.cases[case_idx].payload {
                    Some(t) => {
                        assert(t.wasi.generable());
                        match t.wasi.arbitrary_value(u) {
                            Ok(v) => Some(v),
                            Err(e) => {
                                assert(variant.cases@[case_idx as int].payload == Some(*t));
                                return Err(e);
                            },
                        }
                    },
                    None => None,
                };
                Ok(WasiValue::Variant(Box::new(VariantValue { case_idx, payload })))
            },
            _ => match arbitrary_byte_vec(u) {
                Ok(b) => Ok(WasiValue::String(b)),
                Err(e) => Err(e),
            },
        }
    }
}

impl FlagsType {
    /// The flags value with exactly the named fields set.
    pub fn value(&self, fields: &[String]) -> (r: WasiValue)
        ensures
            r matches WasiValue::Flags(fv) && fv.fields@.len() == self.fields@.len() && forall|i: int|
                0 <= i < self.fields@.len() ==> (#[trigger] fv.fields@[i] <==> exists|j: int|
                    0 <= j < fields@.len() && fields@[j]@ == self.fields@[i]@),
    {
        let mut values: Vec<bool> = Vec::new();
        let mut i: usize = 0;
        while i < self.fields.len()
            invariant
                i <= self.fields@.len(),
                values@.len() == i,
                forall|k: int|
                    0 <= k < i ==> (#[trigger] values@[k] <==> exists|j: int|
                        0 <= j < fields@.len() && fields@[j]@ == self.fields@[k]@),
            decreases self.fields@.len() - i,
        {
            let mut found = false;
            let mut j: usize = 0;
            while j < fields.len()
                invariant
                    i < self.fields@.len(),
                    j <= fields@.len(),
                    found <==> exists|m: int| 0 <= m < j && fields@[m]@ == self.fields@[i as int]@,
                decreases fields@.len() - j,
            {
                if fields[j] == self.fields[i] {
                    found = true;
                }
                j = j + 1;
            }
            values.push(found);
            i = i + 1;
        }
        WasiValue::Flags(FlagsValue { fields: values })
    }
}

impl VariantType {
    /// The value of the first case named `case_name`, with `payload`; `None`
    /// where no case has that name.
    pub fn value_from_name(&self, case_name: &str, payload: Option<WasiValue>) -> (r: Option<
        WasiValue,
    >)
        ensures
            r is None <==> forall|i: int|
                0 <= i < self.cases@.len() ==> #[trigger] self.cases@[i].name@ != case_name@,
            r matches Some(v) ==> v matches WasiValue::Variant(b) && b.case_idx
                < self.cases@.len() && self.cases@[b.case_idx as int].name@ == case_name@ && (
            forall|i: int| 0 <= i < b.case_idx ==> #[trigger] self.cases@[i].name@ != case_name@)
                && b.payload == payload,
    {
        let target = case_name.to_owned();
        let mut i: usize = 0;
        while i < self.cases.len()
            invariant
                target@ == case_name@,
                i <= self.cases@.len(),
                forall|k: int| 0 <= k < i ==> #[trigger] self.cases@[k].name@ != case_name@,
            decreases self.cases@.len() - i,
        {
            if self.cases[i].name == target {
                return Some(WasiValue::Variant(Box::new(VariantValue { case_idx: i, payload })));
            }
            i = i + 1;
        }
        None
    }
}

} // verus!
