//! The structural records extracted from marked declarations, and their
//! rendering into delimiter-balanced interface-description blocks.

use crate::casing::{alias_suffix, cased_name, spec_alias_suffix, spec_cased_name};
use crate::enums::{Delimiters, NewLineState, Types};
use crate::text_formatter::{
    ends_with_nl_indent, lemma_assoc, lemma_cat_view1, lemma_cat_view2, lemma_cat_view4,
    lemma_cat_view5, lemma_line_keeps_shape, lemma_regroup2, lemma_regroup4, lemma_regroup5,
    nl_indent, spec_close_all, strings_view, toks1, toks2, toks4, toks5, StringFormatter,
};
use crate::TypeCases;
use vstd::prelude::*;

verus! {

/// The method facts of an operation record; absent only for
/// enumeration-variant records.
pub struct MethodInfo {
    /// The bare operation name as it is in the source code.
    pub name: String,
    /// The head identifiers of the parameter types, receiver dropped.
    pub types_in_method: Vec<String>,
    /// The names contributed by a path-shaped return type.
    pub return_types: Vec<String>,
}

/// One operation record: an operation of a Struct-like or Contract-like
/// type, or one variant of an enumeration.
pub struct ItemInfo {
    /// Doc lines for the operation or variant.
    pub docs: Vec<String>,
    /// The normalized signature, or the variant name for enumerations.
    pub signature: String,
    /// Whether the operation is a constructor.
    pub is_constructor: bool,
    /// Method facts; absent only for enumeration variants.
    pub method_info: Option<MethodInfo>,
}

/// One Type Record: a named Struct-like, Contract-like or Enumeration
/// declaration with its doc lines and its ordered operation records.
pub struct TypeRecord {
    /// Name of the struct, trait or enum; unique in a registry.
    pub name: String,
    /// Which of the three kinds this record describes.
    pub type_: Types,
    /// The doc lines of the type itself.
    pub docs: Vec<String>,
    /// The operations or variants of this type.
    pub extras: Vec<ItemInfo>,
    /// Whether the marked declaration itself has been seen, or only
    /// operations so far (an implicit placeholder awaiting enrichment).
    pub declared: bool,
}

/// The bare operation name of a record's method facts; empty without them.
pub open spec fn method_name_of(it: ItemInfo) -> Seq<char> {
    match it.method_info {
        Option::Some(mi) => mi.name@,
        Option::None => Seq::<char>::empty(),
    }
}

/// Every type name referenced by one operation record: its parameter type
/// names followed by its return type names.
pub open spec fn method_types_of(it: ItemInfo) -> Seq<Seq<char>> {
    match it.method_info {
        Option::Some(mi) => strings_view(mi.types_in_method@) + strings_view(mi.return_types@),
        Option::None => Seq::<Seq<char>>::empty(),
    }
}

/// Operation records of Struct-like and Contract-like types carry method
/// facts.
pub open spec fn wf_dependent_items(items: Seq<ItemInfo>) -> bool {
    forall|i: int| 0 <= i < items.len() ==> (#[trigger] items[i]).method_info matches Option::Some(
        _,
    )
}

/// Enumeration records never carry constructors or method facts.
pub open spec fn wf_enum_items(items: Seq<ItemInfo>) -> bool {
    forall|i: int|
        0 <= i < items.len() ==> !(#[trigger] items[i]).is_constructor && items[i].method_info
            matches Option::None
}

/// A record's operation list satisfies the data-model invariant of its kind.
pub open spec fn wf_record(r: TypeRecord) -> bool {
    match r.type_ {
        Types::Enum => wf_enum_items(r.extras@),
        Types::Struct => wf_dependent_items(r.extras@),
        Types::Trait => wf_dependent_items(r.extras@),
    }
}

/// One emitted line per doc string, each at the given depth.
pub open spec fn doc_lines(docs: Seq<Seq<char>>, depth: nat) -> Seq<char>
    decreases docs.len(),
{
    if docs.len() == 0 {
        Seq::<char>::empty()
    } else {
        doc_lines(docs.drop_last(), depth) + docs.last() + nl_indent(depth)
    }
}

/// Whether any operation of the list is a constructor.
pub open spec fn has_constructors(items: Seq<ItemInfo>) -> bool
    decreases items.len(),
{
    if items.len() == 0 {
        false
    } else {
        has_constructors(items.drop_last()) || items.last().is_constructor
    }
}

/// The terminated line emitted for one constructor, doc lines first.
pub open spec fn spec_constructor_line(name: Seq<char>, c: ItemInfo) -> Seq<char> {
    doc_lines(strings_view(c.docs@), 2) + "constructor "@ + name + "::"@ + c.signature@ + ";"@
        + nl_indent(2)
}

/// The constructor lines of a Struct-like block, in record order.
pub open spec fn spec_constructor_lines(name: Seq<char>, items: Seq<ItemInfo>) -> Seq<char>
    decreases items.len(),
{
    if items.len() == 0 {
        Seq::<char>::empty()
    } else {
        spec_constructor_lines(name, items.drop_last()) + if items.last().is_constructor {
            spec_constructor_line(name, items.last())
        } else {
            Seq::<char>::empty()
        }
    }
}

/// The terminated line emitted for one non-constructor operation of a
/// Struct-like block, doc lines first, optionally suffixed with an alias
/// clause.
pub open spec fn spec_operation_line(name: Seq<char>, case: TypeCases, m: ItemInfo) -> Seq<char> {
    doc_lines(strings_view(m.docs@), 2) + "fn "@ + name + "::"@ + m.signature@ + spec_alias_suffix(
        case,
        method_name_of(m),
    ) + ";"@ + nl_indent(2)
}

/// The non-constructor operation lines of a Struct-like block.
pub open spec fn spec_operation_lines(name: Seq<char>, case: TypeCases, items: Seq<ItemInfo>) -> Seq<
    char,
>
    decreases items.len(),
{
    if items.len() == 0 {
        Seq::<char>::empty()
    } else {
        spec_operation_lines(name, case, items.drop_last()) + if !items.last().is_constructor {
            spec_operation_line(name, case, items.last())
        } else {
            Seq::<char>::empty()
        }
    }
}

/// The terminated line emitted for one operation of a Contract-like block:
/// the case-transformed name bound to the owning type's operation.
pub open spec fn spec_callback_line(name: Seq<char>, case: TypeCases, m: ItemInfo) -> Seq<char> {
    doc_lines(strings_view(m.docs@), 2) + spec_cased_name(case, method_name_of(m)) + " = "@ + name
        + "::"@ + m.signature@ + ";"@ + nl_indent(2)
}

/// The operation lines of a Contract-like block.
pub open spec fn spec_callback_lines(name: Seq<char>, case: TypeCases, items: Seq<ItemInfo>) -> Seq<
    char,
>
    decreases items.len(),
{
    if items.len() == 0 {
        Seq::<char>::empty()
    } else {
        spec_callback_lines(name, case, items.drop_last()) + spec_callback_line(
            name,
            case,
            items.last(),
        )
    }
}

/// The comma-terminated line emitted for one enumeration variant.
pub open spec fn spec_variant_line(name: Seq<char>, v: ItemInfo) -> Seq<char> {
    doc_lines(strings_view(v.docs@), 2) + v.signature@ + " = "@ + name + "::"@ + v.signature@
        + ","@ + nl_indent(2)
}

/// The variant lines of an Enumeration block.
pub open spec fn spec_variant_lines(name: Seq<char>, items: Seq<ItemInfo>) -> Seq<char>
    decreases items.len(),
{
    if items.len() == 0 {
        Seq::<char>::empty()
    } else {
        spec_variant_lines(name, items.drop_last()) + spec_variant_line(name, items.last())
    }
}

/// The opening of every block: the keyword header with its parenthesis,
/// the type's doc lines, then the nested type block's header with its
/// bracket.
pub open spec fn spec_block_open(
    kw: Seq<char>,
    head: Seq<char>,
    docs: Seq<Seq<char>>,
    name: Seq<char>,
) -> Seq<char> {
    kw + "("@ + nl_indent(1) + doc_lines(docs, 1) + head + name + " {"@ + nl_indent(2)
}

/// The self-type line of a block.
pub open spec fn spec_self_type_line(name: Seq<char>) -> Seq<char> {
    "self_type "@ + name + ";"@ + nl_indent(2)
}

/// The constructor section of a Struct-like block: nothing without
/// constructors, else the self-type line followed by the constructor lines.
pub open spec fn spec_ctor_section(r: TypeRecord) -> Seq<char> {
    if has_constructors(r.extras@) {
        spec_self_type_line(r.name@) + spec_constructor_lines(r.name@, r.extras@)
    } else {
        Seq::<char>::empty()
    }
}

/// The body of a Struct-like block, before the delimiters are closed.
pub open spec fn spec_struct_body(r: TypeRecord, case: TypeCases) -> Seq<char> {
    spec_block_open("foreign_class!"@, "class "@, strings_view(r.docs@), r.name@)
        + spec_ctor_section(r) + spec_operation_lines(r.name@, case, r.extras@)
}

/// The body of a Contract-like block, before the delimiters are closed.
pub open spec fn spec_trait_body(r: TypeRecord, case: TypeCases) -> Seq<char> {
    spec_block_open("foreign_callback!"@, "callback "@, strings_view(r.docs@), r.name@)
        + spec_self_type_line(r.name@) + spec_callback_lines(r.name@, case, r.extras@)
}

/// The body of an Enumeration block, before the delimiters are closed.
pub open spec fn spec_enum_body(r: TypeRecord) -> Seq<char> {
    spec_block_open("foreign_enum!"@, "enum "@, strings_view(r.docs@), r.name@)
        + spec_variant_lines(r.name@, r.extras@)
}

/// The body of a record's block, by its kind.
pub open spec fn spec_record_body(r: TypeRecord, case: TypeCases) -> Seq<char> {
    match r.type_ {
        Types::Struct => spec_struct_body(r, case),
        Types::Trait => spec_trait_body(r, case),
        Types::Enum => spec_enum_body(r),
    }
}

/// The complete emitted block of one Type Record: its body with the two
/// block delimiters closed and the final terminator appended.
pub open spec fn spec_type_block(r: TypeRecord, case: TypeCases) -> Seq<char> {
    spec_close_all(
        spec_record_body(r, case),
        seq![Delimiters::Parenthesis, Delimiters::Bracket],
        2,
    )
}

impl MethodInfo {
    /// Builds the method facts of one operation.
    pub fn new(name: String, types_in_method: Vec<String>, return_types: Vec<String>) -> (r:
        MethodInfo)
        ensures
            r.name@ == name@,
            r.types_in_method@ == types_in_method@,
            r.return_types@ == return_types@,
    {
        MethodInfo { name, types_in_method, return_types }
    }

    /// Every type name referenced by this operation: the parameter type
    /// names followed by the return type names.
    pub fn all_types(&self) -> (r: Vec<String>)
        ensures
            strings_view(r@) == strings_view(self.types_in_method@) + strings_view(
                self.return_types@,
            ),
    {
        let mut r: Vec<String> = Vec::new();
        let ghost tv = strings_view(self.types_in_method@);
        let ghost rv = strings_view(self.return_types@);
        let mut i: usize = 0;
        proof {
            assert(strings_view(r@) =~= tv.take(0));
        }
        while i < self.types_in_method.len()
            invariant
                i <= self.types_in_method@.len(),
                tv == strings_view(self.types_in_method@),
                tv.len() == self.types_in_method@.len(),
                strings_view(r@) == tv.take(i as int),
            decreases self.types_in_method@.len() - i,
        {
            let ghost oldr = r@;
            let elem = self.types_in_method[i].clone();
            proof {
                assert(elem@ == tv[i as int]);
            }
            r.push(elem);
            proof {
                assert(strings_view(r@) =~= strings_view(oldr).push(elem@));
                assert(tv.take(i + 1) =~= tv.take(i as int).push(tv[i as int]));
                assert(strings_view(r@) =~= tv.take(i + 1));
            }
            i = i + 1;
        }
        proof {
            assert(tv.take(self.types_in_method@.len() as int) =~= tv);
        }
        let mut j: usize = 0;
        proof {
            assert(strings_view(r@) =~= tv + rv.take(0));
        }
        while j < self.return_types.len()
            invariant
                j <= self.return_types@.len(),
                tv == strings_view(self.types_in_method@),
                rv == strings_view(self.return_types@),
                rv.len() == self.return_types@.len(),
                strings_view(r@) == tv + rv.take(j as int),
            decreases self.return_types@.len() - j,
        {
            let ghost oldr = r@;
            let elem = self.return_types[j].clone();
            proof {
                assert(elem@ == rv[j as int]);
            }
            r.push(elem);
            proof {
                assert(strings_view(r@) =~= strings_view(oldr).push(elem@));
                assert(tv + rv.take(j + 1) =~= (tv + rv.take(j as int)).push(rv[j as int]));
                assert(strings_view(r@) =~= tv + rv.take(j + 1));
            }
            j = j + 1;
        }
        proof {
            assert(tv + rv.take(self.return_types@.len() as int) =~= tv + rv);
        }
        r
    }
}

impl ItemInfo {
    /// Builds an operation record from its parts.
    pub fn new(
        docs: Vec<String>,
        signature: String,
        is_constructor: bool,
        method_info: Option<MethodInfo>,
    ) -> (r: ItemInfo)
        ensures
            r == (ItemInfo { docs, signature, is_constructor, method_info }),
    {
        ItemInfo { docs, signature, is_constructor, method_info }
    }

    /// Creates a new `ItemInfo` which is a method.
    pub fn new_method(
        signature: String,
        docs: Vec<String>,
        method_name: String,
        is_constructor: bool,
        types_in_method: Vec<String>,
        return_types: Vec<String>,
    ) -> (r: ItemInfo)
        ensures
            r.docs@ == docs@,
            r.signature@ == signature@,
            r.is_constructor == is_constructor,
            r.method_info matches Option::Some(mi) && mi.name@ == method_name@
                && mi.types_in_method@ == types_in_method@ && mi.return_types@ == return_types@,
    {
        ItemInfo::new(
            docs,
            signature,
            is_constructor,
            Option::Some(MethodInfo::new(method_name, types_in_method, return_types)),
        )
    }

    /// Creates a new `ItemInfo` which is an enumeration variant.
    pub fn new_enum(signature: String, docs: Vec<String>) -> (r: ItemInfo)
        ensures
            r.docs@ == docs@,
            r.signature@ == signature@,
            r.is_constructor == false,
            r.method_info matches Option::None,
    {
        ItemInfo::new(docs, signature, false, Option::None)
    }
}

/// Emits the given doc strings, one line each at the current depth.
fn add_doc(formatter: &mut StringFormatter, docs: &Vec<String>)
    ensures
        final(formatter).tabs() == old(formatter).tabs(),
        final(formatter).delims() == old(formatter).delims(),
        final(formatter).text() == old(formatter).text() + doc_lines(
            strings_view(docs@),
            old(formatter).tabs(),
        ),
        ends_with_nl_indent(old(formatter).text(), old(formatter).tabs()) ==> ends_with_nl_indent(
            final(formatter).text(),
            old(formatter).tabs(),
        ),
{
    let ghost t0 = formatter.text();
    let ghost depth = formatter.tabs();
    let ghost dv = strings_view(docs@);
    let mut i: usize = 0;
    proof {
        assert(formatter.text() =~= t0 + doc_lines(dv.take(0), depth));
    }
    while i < docs.len()
        invariant
            i <= docs@.len(),
            dv == strings_view(docs@),
            dv.len() == docs@.len(),
            formatter.tabs() == depth,
            formatter.delims() == old(formatter).delims(),
            formatter.text() == t0 + doc_lines(dv.take(i as int), depth),
            ends_with_nl_indent(t0, depth) ==> ends_with_nl_indent(formatter.text(), depth),
        decreases docs@.len() - i,
    {
        let d: &str = docs[i].as_str();
        let ghost before = formatter.text();
        formatter.add_text_and_then_line(toks1(d), NewLineState::Current);
        proof {
            lemma_cat_view1(d);
            assert(dv.take(i + 1).drop_last() =~= dv.take(i as int));
            assert(formatter.text() =~= t0 + doc_lines(dv.take(i + 1), depth));
            lemma_line_keeps_shape(before, d@, depth);
            assert(ends_with_nl_indent(formatter.text(), depth));
        }
        i = i + 1;
    }
    proof {
        assert(dv.take(docs@.len() as int) =~= dv);
    }
}

impl TypeRecord {
    /// Builds a declared Type Record from its parts.
    pub fn new(name: String, type_: Types, docs: Vec<String>, extras: Vec<ItemInfo>) -> (r:
        TypeRecord)
        ensures
            r == (TypeRecord { name, type_, docs, extras, declared: true }),
    {
        TypeRecord { name, type_, docs, extras, declared: true }
    }

    /// Renders this record's block: the header of its kind, its doc lines,
    /// the nested type block with its members, all delimiters closed.
    pub fn generate_interface(&self, case: TypeCases) -> (r: String)
        requires
            wf_record(*self),
        ensures
            r@ == spec_type_block(*self, case),
    {
        let mut formatter = StringFormatter::new(String::new(), 0);
        match self.type_ {
            Types::Struct => self.format_struct(&mut formatter, case),
            Types::Trait => self.format_trait(&mut formatter, case),
            Types::Enum => self.format_enum(&mut formatter),
        }
        proof {
            assert(formatter.text() =~= spec_record_body(*self, case));
        }
        formatter.close_all_delimiters();
        proof {
            assert(formatter.text() == spec_type_block(*self, case));
        }
        formatter.string_container
    }

    /// Renders the body of a Struct-like block: header, doc lines, nested
    /// type block, the self-type and constructor lines when any constructor
    /// exists, then one terminated line per remaining operation.
    fn format_struct(&self, formatter: &mut StringFormatter, case: TypeCases)
        requires
            old(formatter).tabs() == 0,
            old(formatter).delims() == Seq::<Delimiters>::empty(),
            wf_dependent_items(self.extras@),
        ensures
            final(formatter).tabs() == 2,
            final(formatter).delims() == seq![Delimiters::Parenthesis, Delimiters::Bracket],
            final(formatter).text() == old(formatter).text() + spec_struct_body(*self, case),
            final(formatter).balanced(),
    {
        let ghost t0 = formatter.text();
        let name_s: &str = self.name.as_str();
        let mut any_is_constructor = false;
        let mut i: usize = 0;
        while i < self.extras.len()
            invariant
                i <= self.extras@.len(),
                any_is_constructor == has_constructors(self.extras@.take(i as int)),
            decreases self.extras@.len() - i,
        {
            proof {
                assert(self.extras@.take(i + 1).drop_last() =~= self.extras@.take(i as int));
            }
            if self.extras[i].is_constructor {
                any_is_constructor = true;
            }
            i = i + 1;
        }
        proof {
            assert(self.extras@.take(self.extras@.len() as int) =~= self.extras@);
        }
        self.open_block(formatter, "foreign_class!", "class ", name_s);
        proof {
            assert(formatter.text() == t0 + spec_block_open(
                "foreign_class!"@,
                "class "@,
                strings_view(self.docs@),
                self.name@,
            ));
        }
        let ghost t2 = formatter.text();
        if any_is_constructor {
            let ghost pre2 = formatter.text();
            formatter.add_text_and_colon(toks2("self_type ", name_s));
            proof {
                lemma_cat_view2("self_type ", name_s);
                lemma_line_keeps_shape(pre2 + ("self_type "@ + name_s@), ";"@, 2);
                assert(ends_with_nl_indent(formatter.text(), 2));
                lemma_regroup2(t2, "self_type "@, self.name@, ";"@, 2);
                assert(formatter.text() == t2 + spec_self_type_line(self.name@));
            }
            let ghost t3 = formatter.text();
            let mut i: usize = 0;
            proof {
                assert(formatter.text() + spec_constructor_lines(
                    self.name@,
                    self.extras@.take(0),
                ) =~= formatter.text());
            }
            while i < self.extras.len()
                invariant
                    i <= self.extras@.len(),
                    wf_dependent_items(self.extras@),
                    name_s@ == self.name@,
                    formatter.tabs() == 2,
                    formatter.delims() == seq![Delimiters::Parenthesis, Delimiters::Bracket],
                    ends_with_nl_indent(formatter.text(), 2),
                    formatter.text() == t3 + spec_constructor_lines(
                        self.name@,
                        self.extras@.take(i as int),
                    ),
                decreases self.extras@.len() - i,
            {
                let ghost itv = self.extras@[i as int];
                let ghost lines_so_far = spec_constructor_lines(
                    self.name@,
                    self.extras@.take(i as int),
                );
                proof {
                    assert(self.extras@.take(i + 1).drop_last() =~= self.extras@.take(i as int));
                    assert(self.extras@.take(i + 1).last() == itv);
                }
                let ghost before = formatter.text();
                let it = &self.extras[i];
                if it.is_constructor {
                    let sig_s: &str = it.signature.as_str();
                    add_doc(formatter, &it.docs);
                    let ghost pre3 = formatter.text();
                    formatter.add_text_and_colon(toks4("constructor ", name_s, "::", sig_s));
                    proof {
                        let d = doc_lines(strings_view(itv.docs@), 2);
                        lemma_cat_view4("constructor ", name_s, "::", sig_s);
                        lemma_line_keeps_shape(
                            pre3 + ("constructor "@ + name_s@ + "::"@ + sig_s@),
                            ";"@,
                            2,
                        );
                        assert(ends_with_nl_indent(formatter.text(), 2));
                        lemma_regroup4(
                            before,
                            d,
                            "constructor "@,
                            self.name@,
                            "::"@,
                            itv.signature@,
                            ";"@,
                            2,
                        );
                        assert(formatter.text() == before + spec_constructor_line(
                            self.name@,
                            itv,
                        ));
                        lemma_assoc(t3, lines_so_far, spec_constructor_line(self.name@, itv));
                        assert(formatter.text() == t3 + spec_constructor_lines(
                            self.name@,
                            self.extras@.take(i + 1),
                        ));
                    }
                } else {
                    proof {
                        assert(lines_so_far + Seq::<char>::empty() =~= lines_so_far);
                        assert(formatter.text() == t3 + spec_constructor_lines(
                            self.name@,
                            self.extras@.take(i + 1),
                        ));
                    }
                }
                i = i + 1;
            }
            proof {
                assert(self.extras@.take(self.extras@.len() as int) =~= self.extras@);
                lemma_assoc(
                    t2,
                    spec_self_type_line(self.name@),
                    spec_constructor_lines(self.name@, self.extras@),
                );
                assert(formatter.text() == t2 + spec_ctor_section(*self));
            }
        } else {
            proof {
                assert(t2 + Seq::<char>::empty() =~= t2);
                assert(formatter.text() == t2 + spec_ctor_section(*self));
            }
        }
        let ghost t4 = formatter.text();
        let mut i: usize = 0;
        proof {
            assert(formatter.text() + spec_operation_lines(
                self.name@,
                case,
                self.extras@.take(0),
            ) =~= formatter.text());
        }
        while i < self.extras.len()
            invariant
                i <= self.extras@.len(),
                wf_dependent_items(self.extras@),
                name_s@ == self.name@,
                formatter.tabs() == 2,
                formatter.delims() == seq![Delimiters::Parenthesis, Delimiters::Bracket],
                ends_with_nl_indent(formatter.text(), 2),
                formatter.text() == t4 + spec_operation_lines(
                    self.name@,
                    case,
                    self.extras@.take(i as int),
                ),
            decreases self.extras@.len() - i,
        {
            let ghost itv = self.extras@[i as int];
            let ghost lines_so_far = spec_operation_lines(
                self.name@,
                case,
                self.extras@.take(i as int),
            );
            proof {
                assert(self.extras@.take(i + 1).drop_last() =~= self.extras@.take(i as int));
                assert(self.extras@.take(i + 1).last() == itv);
            }
            let ghost before = formatter.text();
            let it = &self.extras[i];
            if !it.is_constructor {
                let sig_s: &str = it.signature.as_str();
                add_doc(formatter, &it.docs);
                let method_name: &str = match &it.method_info {
                    Option::Some(mi) => mi.name.as_str(),
                    Option::None => "",
                };
                proof {
                    assert(method_name@ == method_name_of(itv));
                }
                let alias = alias_suffix(case, method_name);
                let alias_s: &str = alias.as_str();
                let ghost pre4 = formatter.text();
                formatter.add_text_and_colon(toks5("fn ", name_s, "::", sig_s, alias_s));
                proof {
                    let d = doc_lines(strings_view(itv.docs@), 2);
                    lemma_cat_view5("fn ", name_s, "::", sig_s, alias_s);
                    lemma_line_keeps_shape(
                        pre4 + ("fn "@ + name_s@ + "::"@ + sig_s@ + alias_s@),
                        ";"@,
                        2,
                    );
                    assert(ends_with_nl_indent(formatter.text(), 2));
                    lemma_regroup5(
                        before,
                        d,
                        "fn "@,
                        self.name@,
                        "::"@,
                        itv.signature@,
                        spec_alias_suffix(case, method_name_of(itv)),
                        ";"@,
                        2,
                    );
                    assert(formatter.text() == before + spec_operation_line(
                        self.name@,
                        case,
                        itv,
                    ));
                    lemma_assoc(t4, lines_so_far, spec_operation_line(self.name@, case, itv));
                    assert(formatter.text() == t4 + spec_operation_lines(
                        self.name@,
                        case,
                        self.extras@.take(i + 1),
                    ));
                }
            } else {
                proof {
                    assert(lines_so_far + Seq::<char>::empty() =~= lines_so_far);
                    assert(formatter.text() == t4 + spec_operation_lines(
                        self.name@,
                        case,
                        self.extras@.take(i + 1),
                    ));
                }
            }
            i = i + 1;
        }
        proof {
            assert(self.extras@.take(self.extras@.len() as int) =~= self.extras@);
            let open = spec_block_open(
                "foreign_class!"@,
                "class "@,
                strings_view(self.docs@),
                self.name@,
            );
            lemma_assoc(t0, open, spec_ctor_section(*self));
            lemma_assoc(
                t0,
                open + spec_ctor_section(*self),
                spec_operation_lines(self.name@, case, self.extras@),
            );
            assert(formatter.text() == t0 + spec_struct_body(*self, case));
            assert(formatter.balanced());
        }
    }

    /// Renders the body of a Contract-like block: header, doc lines, nested
    /// block, self-type line, then one terminated line per operation with
    /// the case-transformed name on the left.
    fn format_trait(&self, formatter: &mut StringFormatter, case: TypeCases)
        requires
            old(formatter).tabs() == 0,
            old(formatter).delims() == Seq::<Delimiters>::empty(),
            wf_dependent_items(self.extras@),
        ensures
            final(formatter).tabs() == 2,
            final(formatter).delims() == seq![Delimiters::Parenthesis, Delimiters::Bracket],
            final(formatter).text() == old(formatter).text() + spec_trait_body(*self, case),
            final(formatter).balanced(),
    {
        let ghost t0 = formatter.text();
        let name_s: &str = self.name.as_str();
        self.open_block(formatter, "foreign_callback!", "callback ", name_s);
        let ghost t1 = formatter.text();
        let ghost pre2 = formatter.text();
        formatter.add_text_and_colon(toks2("self_type ", name_s));
        proof {
            lemma_cat_view2("self_type ", name_s);
            lemma_line_keeps_shape(pre2 + ("self_type "@ + name_s@), ";"@, 2);
            assert(ends_with_nl_indent(formatter.text(), 2));
            lemma_regroup2(t1, "self_type "@, self.name@, ";"@, 2);
            assert(formatter.text() == t1 + spec_self_type_line(self.name@));
        }
        let ghost t2 = formatter.text();
        let mut i: usize = 0;
        proof {
            assert(formatter.text() + spec_callback_lines(
                self.name@,
                case,
                self.extras@.take(0),
            ) =~= formatter.text());
        }
        while i < self.extras.len()
            invariant
                i <= self.extras@.len(),
                wf_dependent_items(self.extras@),
                name_s@ == self.name@,
                formatter.tabs() == 2,
                formatter.delims() == seq![Delimiters::Parenthesis, Delimiters::Bracket],
                ends_with_nl_indent(formatter.text(), 2),
                formatter.text() == t2 + spec_callback_lines(
                    self.name@,
                    case,
                    self.extras@.take(i as int),
                ),
            decreases self.extras@.len() - i,
        {
            let ghost itv = self.extras@[i as int];
            let ghost lines_so_far = spec_callback_lines(
                self.name@,
                case,
                self.extras@.take(i as int),
            );
            proof {
                assert(self.extras@.take(i + 1).drop_last() =~= self.extras@.take(i as int));
                assert(self.extras@.take(i + 1).last() == itv);
            }
            let ghost before = formatter.text();
            let it = &self.extras[i];
            let sig_s: &str = it.signature.as_str();
            add_doc(formatter, &it.docs);
            let method_name: &str = match &it.method_info {
                Option::Some(mi) => mi.name.as_str(),
                Option::None => "",
            };
            proof {
                assert(method_name@ == method_name_of(itv));
            }
            let cased = cased_name(case, method_name);
            let cased_s: &str = cased.as_str();
            let ghost pre3 = formatter.text();
            formatter.add_text_and_colon(toks5(cased_s, " = ", name_s, "::", sig_s));
            proof {
                let d = doc_lines(strings_view(itv.docs@), 2);
                lemma_cat_view5(cased_s, " = ", name_s, "::", sig_s);
                lemma_line_keeps_shape(
                    pre3 + (cased_s@ + " = "@ + name_s@ + "::"@ + sig_s@),
                    ";"@,
                    2,
                );
                assert(ends_with_nl_indent(formatter.text(), 2));
                lemma_regroup5(
                    before,
                    d,
                    spec_cased_name(case, method_name_of(itv)),
                    " = "@,
                    self.name@,
                    "::"@,
                    itv.signature@,
                    ";"@,
                    2,
                );
                assert(formatter.text() == before + spec_callback_line(self.name@, case, itv));
                lemma_assoc(t2, lines_so_far, spec_callback_line(self.name@, case, itv));
                assert(formatter.text() == t2 + spec_callback_lines(
                    self.name@,
                    case,
                    self.extras@.take(i + 1),
                ));
            }
            i = i + 1;
        }
        proof {
            assert(self.extras@.take(self.extras@.len() as int) =~= self.extras@);
            let open = spec_block_open(
                "foreign_callback!"@,
                "callback "@,
                strings_view(self.docs@),
                self.name@,
            );
            lemma_assoc(t0, open, spec_self_type_line(self.name@));
            lemma_assoc(
                t0,
                open + spec_self_type_line(self.name@),
                spec_callback_lines(self.name@, case, self.extras@),
            );
            assert(formatter.text() == t0 + spec_trait_body(*self, case));
            assert(formatter.balanced());
        }
    }

    /// Renders the body of an Enumeration block: header, doc lines, nested
    /// block, then one comma-terminated line per variant.
    fn format_enum(&self, formatter: &mut StringFormatter)
        requires
            old(formatter).tabs() == 0,
            old(formatter).delims() == Seq::<Delimiters>::empty(),
        ensures
            final(formatter).tabs() == 2,
            final(formatter).delims() == seq![Delimiters::Parenthesis, Delimiters::Bracket],
            final(formatter).text() == old(formatter).text() + spec_enum_body(*self),
            final(formatter).balanced(),
    {
        let ghost t0 = formatter.text();
        let name_s: &str = self.name.as_str();
        self.open_block(formatter, "foreign_enum!", "enum ", name_s);
        let ghost t2 = formatter.text();
        let mut i: usize = 0;
        proof {
            assert(formatter.text() + spec_variant_lines(self.name@, self.extras@.take(0))
                =~= formatter.text());
        }
        while i < self.extras.len()
            invariant
                i <= self.extras@.len(),
                name_s@ == self.name@,
                formatter.tabs() == 2,
                formatter.delims() == seq![Delimiters::Parenthesis, Delimiters::Bracket],
                ends_with_nl_indent(formatter.text(), 2),
                formatter.text() == t2 + spec_variant_lines(
                    self.name@,
                    self.extras@.take(i as int),
                ),
            decreases self.extras@.len() - i,
        {
            let ghost itv = self.extras@[i as int];
            let ghost lines_so_far = spec_variant_lines(self.name@, self.extras@.take(i as int));
            proof {
                assert(self.extras@.take(i + 1).drop_last() =~= self.extras@.take(i as int));
                assert(self.extras@.take(i + 1).last() == itv);
            }
            let ghost before = formatter.text();
            let it = &self.extras[i];
            let sig_s: &str = it.signature.as_str();
            add_doc(formatter, &it.docs);
            let ghost pre2 = formatter.text();
            formatter.add_text_and_comma(toks5(sig_s, " = ", name_s, "::", sig_s));
            proof {
                let d = doc_lines(strings_view(itv.docs@), 2);
                lemma_cat_view5(sig_s, " = ", name_s, "::", sig_s);
                lemma_line_keeps_shape(
                    pre2 + (sig_s@ + " = "@ + name_s@ + "::"@ + sig_s@),
                    ","@,
                    2,
                );
                assert(ends_with_nl_indent(formatter.text(), 2));
                lemma_regroup5(
                    before,
                    d,
                    itv.signature@,
                    " = "@,
                    self.name@,
                    "::"@,
                    itv.signature@,
                    ","@,
                    2,
                );
                assert(formatter.text() == before + spec_variant_line(self.name@, itv));
                lemma_assoc(t2, lines_so_far, spec_variant_line(self.name@, itv));
                assert(formatter.text() == t2 + spec_variant_lines(
                    self.name@,
                    self.extras@.take(i + 1),
                ));
            }
            i = i + 1;
        }
        proof {
            assert(self.extras@.take(self.extras@.len() as int) =~= self.extras@);
            lemma_assoc(
                t0,
                spec_block_open("foreign_enum!"@, "enum "@, strings_view(self.docs@), self.name@),
                spec_variant_lines(self.name@, self.extras@),
            );
            assert(formatter.text() == t0 + spec_enum_body(*self));
            assert(formatter.balanced());
        }
    }

    /// Opens one block: the keyword header with its parenthesis, the type's
    /// doc lines, then the nested type block's header with its bracket.
    fn open_block(
        &self,
        formatter: &mut StringFormatter,
        kw: &str,
        head: &str,
        name_s: &str,
    )
        requires
            old(formatter).tabs() == 0,
            old(formatter).delims() == Seq::<Delimiters>::empty(),
            name_s@ == self.name@,
        ensures
            final(formatter).tabs() == 2,
            final(formatter).delims() == seq![Delimiters::Parenthesis, Delimiters::Bracket],
            final(formatter).text() == old(formatter).text() + spec_block_open(
                kw@,
                head@,
                strings_view(self.docs@),
                self.name@,
            ),
            final(formatter).balanced(),
    {
        let ghost t0 = formatter.text();
        formatter.add_text_delimiter_then_line(
            toks1(kw),
            Delimiters::Parenthesis,
            NewLineState::ShiftRight,
        );
        proof {
            lemma_cat_view1(kw);
        }
        add_doc(formatter, &self.docs);
        let ghost pre = formatter.text();
        formatter.add_text_delimiter_then_line(
            toks2(head, name_s),
            Delimiters::Bracket,
            NewLineState::ShiftRight,
        );
        proof {
            lemma_cat_view2(head, name_s);
            lemma_line_keeps_shape(pre + (head@ + name_s@), " {"@, 2);
            assert(ends_with_nl_indent(formatter.text(), 2));
            assert(formatter.delims() =~= seq![Delimiters::Parenthesis, Delimiters::Bracket]);
            lemma_regroup_open(t0, kw@, doc_lines(strings_view(self.docs@), 1), head@, self.name@);
            assert(formatter.text() == t0 + spec_block_open(
                kw@,
                head@,
                strings_view(self.docs@),
                self.name@,
            ));
        }
    }
}

/// Regrouping of the block-opening text: the emitter appends it in four
/// steps, the block-open spec states it as one sum.
proof fn lemma_regroup_open(
    t0: Seq<char>,
    kw: Seq<char>,
    d: Seq<char>,
    head: Seq<char>,
    name: Seq<char>,
)
    ensures
        t0 + kw + "("@ + nl_indent(1) + d + (head + name) + " {"@ + nl_indent(2) == t0 + (kw + "("@
            + nl_indent(1) + d + head + name + " {"@ + nl_indent(2)),
{
    assert(t0 + kw + "("@ + nl_indent(1) + d + (head + name) + " {"@ + nl_indent(2) =~= t0 + (kw
        + "("@ + nl_indent(1) + d + head + name + " {"@ + nl_indent(2)));
}

} // verus!
