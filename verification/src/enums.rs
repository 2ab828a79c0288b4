//! Shared enumerations: the record kinds, the holder that wraps one record
//! of either kind, and the emitter's newline shifts and delimiter kinds.

use crate::text_formatter::strings_view;
use crate::types_structs::{
    method_types_of, spec_type_block, wf_record, ItemInfo, TypeRecord,
};
use crate::TypeCases;
use vstd::prelude::*;

verus! {

/// The kinds of source declaration a record can describe.
#[derive(Debug)]
pub enum Types {
    Struct,
    Trait,
    Enum,
}

/// One registered type: a Struct-like, Contract-like or Enumeration record.
pub enum TypeHolder {
    Struct(TypeRecord),
    Trait(TypeRecord),
    Enum(TypeRecord),
}

/// The record wrapped by a holder, whichever its kind.
pub open spec fn record_of(h: TypeHolder) -> TypeRecord {
    match h {
        TypeHolder::Struct(r) => r,
        TypeHolder::Trait(r) => r,
        TypeHolder::Enum(r) => r,
    }
}

/// The name of the wrapped record.
pub open spec fn holder_name(h: TypeHolder) -> Seq<char> {
    record_of(h).name@
}

/// Whether the holder wraps an Enumeration record.
pub open spec fn is_enum_holder(h: TypeHolder) -> bool {
    h matches TypeHolder::Enum(_)
}

/// Every type name referenced by the given operation records, in order:
/// for each operation its parameter type names then its return type names.
pub open spec fn items_types(items: Seq<ItemInfo>) -> Seq<Seq<char>>
    decreases items.len(),
{
    if items.len() == 0 {
        Seq::<Seq<char>>::empty()
    } else {
        items_types(items.drop_last()) + method_types_of(items.last())
    }
}

/// Every type name referenced by the holder's operations.
pub open spec fn holder_types(h: TypeHolder) -> Seq<Seq<char>> {
    items_types(record_of(h).extras@)
}

impl TypeHolder {
    /// The wrapped record.
    fn record(&self) -> (r: &TypeRecord)
        ensures
            *r == record_of(*self),
    {
        match self {
            TypeHolder::Struct(val) => val,
            TypeHolder::Trait(val) => val,
            TypeHolder::Enum(val) => val,
        }
    }

    /// Renders the wrapped record's block.
    pub fn generate_interface(&self, case: TypeCases) -> (r: String)
        requires
            wf_record(record_of(*self)),
        ensures
            r@ == spec_type_block(record_of(*self), case),
    {
        match self {
            TypeHolder::Trait(val) => val.generate_interface(case),
            TypeHolder::Struct(val) => val.generate_interface(case),
            TypeHolder::Enum(val) => val.generate_interface(case),
        }
    }

    /// Every type name referenced by this record's operations; used to
    /// compute the emission order. Enumeration records never take part in
    /// the ordering.
    pub fn types(&self) -> (r: Vec<String>)
        requires
            !is_enum_holder(*self),
        ensures
            strings_view(r@) == holder_types(*self),
    {
        let rec = self.record();
        let mut types: Vec<String> = Vec::new();
        let ghost items = rec.extras@;
        let mut i: usize = 0;
        proof {
            assert(strings_view(types@) =~= items_types(items.take(0)));
        }
        while i < rec.extras.len()
            invariant
                i <= items.len(),
                items == rec.extras@,
                strings_view(types@) == items_types(items.take(i as int)),
            decreases items.len() - i,
        {
            proof {
                assert(items.take(i + 1).drop_last() =~= items.take(i as int));
                assert(items.take(i + 1).last() == items[i as int]);
            }
            let ghost so_far = strings_view(types@);
            match &rec.extras[i].method_info {
                Option::Some(mi) => {
                    let mut more = mi.all_types();
                    proof {
                        assert(strings_view(more@) == method_types_of(items[i as int]));
                    }
                    types.append(&mut more);
                    proof {
                        assert(strings_view(types@) =~= so_far + method_types_of(
                            items[i as int],
                        ));
                        assert(strings_view(types@) =~= items_types(items.take(i + 1)));
                    }
                }
                Option::None => {
                    proof {
                        assert(so_far + method_types_of(items[i as int]) =~= so_far);
                        assert(strings_view(types@) =~= items_types(items.take(i + 1)));
                    }
                }
            }
            i = i + 1;
        }
        proof {
            assert(items.take(items.len() as int) =~= items);
        }
        types
    }

    /// The name of the wrapped record.
    pub fn name(&self) -> (r: &str)
        ensures
            r@ == holder_name(*self),
    {
        match self {
            TypeHolder::Struct(val) => val.name.as_str(),
            TypeHolder::Trait(val) => val.name.as_str(),
            TypeHolder::Enum(val) => val.name.as_str(),
        }
    }
}

/// `Current` adds a new line at the same indentation, `ShiftRight` adds a
/// new line one tab deeper, `ShiftLeft` adds a new line one tab shallower.
#[derive(Debug)]
pub enum NewLineState {
    Current,
    ShiftRight,
    ShiftLeft,
}

/// The delimiter kinds the emitter keeps open: `Bracket` is rendered as
/// `" {"` / `"}"`, `Parenthesis` as `"("` / `")"`.
pub enum Delimiters {
    Bracket,
    Parenthesis,
}

} // verus!
