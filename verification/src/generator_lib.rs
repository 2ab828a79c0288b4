//! The item registry and the emission orderer: scanned declarations are
//! registered under their names, dependent records are sequenced by a
//! depth-first, front-insertion, revisit-relocation traversal so that
//! referenced types precede referencing ones, and the registry is rendered
//! into the complete output text. The closing lemmas show that one run's
//! registry, order and output are functions of the scanned text alone, so
//! two runs over unchanged input are byte-identical.

use crate::casing::spec_cased_name;
use crate::enums::{holder_name, holder_types, is_enum_holder, record_of, TypeHolder, Types};
use crate::extract::{extracted_item_ok, method_item, MethodDecl, SourceItem, VariantDecl};
use crate::text_formatter::{lemma_assoc, str_eq, strings_view};
use crate::types_structs::{spec_type_block, wf_record, ItemInfo, MethodInfo, TypeRecord};
use crate::{Language, TypeCases};
use std::collections::VecDeque;
use vstd::prelude::*;
use vstd::seq_lib::*;

verus! {

/// The holder's variant and its record's kind agree.
pub open spec fn holder_kind_ok(h: TypeHolder) -> bool {
    match h {
        TypeHolder::Struct(r) => r.type_ matches Types::Struct,
        TypeHolder::Trait(r) => r.type_ matches Types::Trait,
        TypeHolder::Enum(r) => r.type_ matches Types::Enum,
    }
}

/// The dependent list holds only Struct-like and Contract-like records,
/// all well formed, with pairwise distinct names.
pub open spec fn wf_holder_list(list: Seq<TypeHolder>) -> bool {
    &&& forall|k: int|
        0 <= k < list.len() ==> !is_enum_holder(#[trigger] list[k]) && holder_kind_ok(list[k])
            && wf_record(record_of(list[k]))
    &&& forall|a: int, b: int|
        #![trigger list[a], list[b]]
        0 <= a < b < list.len() ==> holder_name(list[a]) != holder_name(list[b])
}

/// Record `a` references record `b`: `b`'s name appears among the type
/// names used by `a`'s operations. A record never references itself: a
/// constructor returning its own enclosing type makes no dependency.
pub open spec fn references(list: Seq<TypeHolder>, a: int, b: int) -> bool {
    &&& 0 <= a < list.len()
    &&& 0 <= b < list.len()
    &&& a != b
    &&& holder_types(list[a]).contains(holder_name(list[b]))
}

/// A chain of reference edges.
pub open spec fn is_ref_path(list: Seq<TypeHolder>, p: Seq<int>) -> bool {
    forall|k: int| 0 <= k < p.len() - 1 ==> references(list, #[trigger] p[k], p[k + 1])
}

/// The reference graph has no cycle (self-references are no edges, so they
/// never make a graph cyclic).
pub open spec fn acyclic(list: Seq<TypeHolder>) -> bool {
    forall|p: Seq<int>| p.len() >= 2 && #[trigger] is_ref_path(list, p) ==> p[0] != p.last()
}

/// `b` appears strictly before `a` in the emission order.
pub open spec fn before_in(out: Seq<usize>, b: usize, a: usize) -> bool {
    exists|ib: int, ia: int| 0 <= ib < ia < out.len() && out[ib] == b && out[ia] == a
}

/// How many entries of the visit stack are still unset: the termination
/// measure of the traversal.
pub open spec fn count_false(s: Seq<bool>) -> nat
    decreases s.len(),
{
    if s.len() == 0 {
        0
    } else {
        count_false(s.drop_last()) + if s.last() {
            0nat
        } else {
            1nat
        }
    }
}

/// Setting one unset stack entry decreases the measure by one.
pub proof fn lemma_count_false_update(s: Seq<bool>, j: int)
    requires
        0 <= j < s.len(),
        !s[j],
    ensures
        count_false(s.update(j, true)) + 1 == count_false(s),
    decreases s.len(),
{
    let s2 = s.update(j, true);
    if j == s.len() - 1 {
        assert(s2.drop_last() =~= s.drop_last());
    } else {
        assert(s2.drop_last() =~= s.drop_last().update(j, true));
        lemma_count_false_update(s.drop_last(), j);
    }
}

/// The index of the first record with the given name, searching from `k`;
/// negative when there is none.
pub open spec fn name_index_from(list: Seq<TypeHolder>, name: Seq<char>, k: int) -> int
    decreases list.len() - k,
{
    if !(0 <= k < list.len()) {
        -1
    } else if holder_name(list[k]) == name {
        k
    } else {
        name_index_from(list, name, k + 1)
    }
}

/// The index of the first record with the given name; negative when there
/// is none.
pub open spec fn name_index(list: Seq<TypeHolder>, name: Seq<char>) -> int {
    name_index_from(list, name, 0)
}

/// What a name search yields: either nothing, or the first index bearing
/// the name.
pub proof fn lemma_name_index_from_props(list: Seq<TypeHolder>, name: Seq<char>, k: int)
    requires
        0 <= k,
    ensures
        ({
            let j = name_index_from(list, name, k);
            ||| j == -1 && (forall|m: int| k <= m < list.len() ==> holder_name(#[trigger] list[m])
                != name)
            ||| (k <= j < list.len() && holder_name(list[j]) == name && (forall|m: int|
                k <= m < j ==> holder_name(#[trigger] list[m]) != name))
        }),
    decreases list.len() - k,
{
    if 0 <= k < list.len() && holder_name(list[k]) != name {
        lemma_name_index_from_props(list, name, k + 1);
    }
}

/// With pairwise distinct names, the search for a record's own name finds
/// exactly that record.
pub proof fn lemma_name_index_of_member(list: Seq<TypeHolder>, b: int)
    requires
        wf_holder_list(list),
        0 <= b < list.len(),
    ensures
        name_index(list, holder_name(list[b])) == b,
{
    let nm = holder_name(list[b]);
    lemma_name_index_from_props(list, nm, 0);
    let j = name_index(list, nm);
    if j == -1 {
        assert(holder_name(list[b]) == nm);
    } else if j != b {
        assert(holder_name(list[j]) == nm);
        assert(holder_name(list[j]) != holder_name(list[b]));
    }
}

/// The sorting state: the emission order built so far, and one placement
/// flag per dependent record.
pub open spec fn st_inv(n: int, st: (Seq<usize>, Seq<bool>)) -> bool {
    &&& st.1.len() == n
    &&& st.0.no_duplicates()
    &&& forall|m: int| 0 <= m < st.0.len() ==> (#[trigger] st.0[m]) < n
    &&& forall|x: usize| (x as int) < n ==> ((#[trigger] st.1[x as int]) <==> st.0.contains(x))
}

/// Fronting one record keeps the sorting-state invariant: the new order is
/// the old one with the record relocated to the front, the placement flags
/// gain the record.
pub proof fn lemma_front_st_inv(n: int, st: (Seq<usize>, Seq<bool>), i: usize)
    requires
        st_inv(n, st),
        (i as int) < n,
    ensures
        ({
            let out2 = seq![i] + st.0.remove_value(i);
            let placed2 = st.1.update(i as int, true);
            &&& st_inv(n, (out2, placed2))
            &&& forall|x: usize| st.0.contains(x) ==> out2.contains(x)
            &&& out2.contains(i)
            &&& forall|x: usize| out2.contains(x) ==> x == i || st.0.contains(x)
        }),
{
    let out2 = seq![i] + st.0.remove_value(i);
    let placed2 = st.1.update(i as int, true);
    lemma_remove_value_props(st.0, i);
    let r = st.0.remove_value(i);
    assert forall|a: int, b: int|
        0 <= a < out2.len() && 0 <= b < out2.len() && a != b implies out2[a] != out2[b] by {
        if a == 0 {
            assert(out2[b] == r[b - 1]);
            assert(r.contains(r[b - 1]));
        } else if b == 0 {
            assert(out2[a] == r[a - 1]);
            assert(r.contains(r[a - 1]));
        } else {
            assert(out2[a] == r[a - 1] && out2[b] == r[b - 1]);
        }
    }
    assert(out2.no_duplicates());
    assert forall|y: usize| r.contains(y) implies out2.contains(y) by {
        let q = choose|q: int| 0 <= q < r.len() && r[q] == y;
        assert(out2[q + 1] == y);
    }
    assert forall|y: usize| out2.contains(y) && y != i implies r.contains(y) by {
        let q = choose|q: int| 0 <= q < out2.len() && out2[q] == y;
        assert(q != 0);
        assert(r[q - 1] == y);
    }
    assert(out2[0] == i);
    assert(out2.contains(i));
    assert forall|m: int| 0 <= m < out2.len() implies (#[trigger] out2[m]) < n by {
        if m > 0 {
            assert(out2[m] == r[m - 1]);
            assert(r.contains(r[m - 1]));
            assert(st.0.contains(r[m - 1]));
            let q = choose|q: int| 0 <= q < st.0.len() && st.0[q] == r[m - 1];
            assert(st.0[q] < n);
        }
    }
    assert forall|x: usize| (x as int) < n implies ((#[trigger] placed2[x as int])
        <==> out2.contains(x)) by {
        if x != i {
            assert(st.1[x as int] <==> st.0.contains(x));
        }
    }
    assert forall|x: usize| st.0.contains(x) implies out2.contains(x) by {
        if x != i {
            assert(r.contains(x));
        }
    }
}

/// Removing a value's first occurrence keeps distinctness and, for a
/// distinct sequence, removes the value entirely and keeps everything else.
pub proof fn lemma_remove_value_props(s: Seq<usize>, x: usize)
    requires
        s.no_duplicates(),
    ensures
        s.remove_value(x).no_duplicates(),
        !s.remove_value(x).contains(x),
        forall|y: usize| y != x ==> (s.remove_value(x).contains(y) <==> s.contains(y)),
        forall|y: usize| s.remove_value(x).contains(y) ==> s.contains(y),
{
    s.index_of_first_ensures(x);
    let r = s.remove_value(x);
    match s.index_of_first(x) {
        Option::Some(p) => {
            s.remove_ensures(p);
            assert forall|i: int, j: int|
                0 <= i < r.len() && 0 <= j < r.len() && i != j implies r[i] != r[j] by {
                let oi: int = if i < p {
                    i
                } else {
                    i + 1
                };
                let oj: int = if j < p {
                    j
                } else {
                    j + 1
                };
                assert(r[i] == s[oi]);
                assert(r[j] == s[oj]);
            }
            assert(r.no_duplicates());
            assert forall|k: int| 0 <= k < r.len() implies r[k] != x by {
                let ok: int = if k < p {
                    k
                } else {
                    k + 1
                };
                assert(r[k] == s[ok]);
                assert(s[ok] == x ==> ok == p);
            }
            assert(!r.contains(x));
            assert forall|y: usize| y != x && s.contains(y) implies r.contains(y) by {
                let oi = choose|oi: int| 0 <= oi < s.len() && s[oi] == y;
                if oi < p {
                    assert(r[oi] == y);
                } else {
                    assert(oi != p);
                    assert(r[oi - 1] == y);
                }
            }
            assert forall|y: usize| r.contains(y) implies s.contains(y) by {
                let k = choose|k: int| 0 <= k < r.len() && r[k] == y;
                let ok: int = if k < p {
                    k
                } else {
                    k + 1
                };
                assert(s[ok] == y);
            }
        }
        Option::None => {
        }
    }
}

/// Relocating one value to the front keeps every pair whose second member
/// is another value in their order, and puts the relocated value before
/// everything else.
pub proof fn lemma_relocate_before(s: Seq<usize>, y: usize, u: usize, v: usize)
    requires
        s.no_duplicates(),
        before_in(s, u, v),
        v != y,
    ensures
        before_in(seq![y] + s.remove_value(y), u, v),
{
    let r = s.remove_value(y);
    let out = seq![y] + r;
    s.index_of_first_ensures(y);
    let (iu, iv): (int, int) = choose|iu: int, iv: int|
        0 <= iu < iv < s.len() && #[trigger] s[iu] == u && #[trigger] s[iv] == v;
    if u == y {
        match s.index_of_first(y) {
            Option::Some(p) => {
                s.remove_ensures(p);
                assert(iv != p);
                let nv: int = if iv < p {
                    iv
                } else {
                    iv - 1
                };
                assert(r[nv] == v);
                assert(out[0] == y);
                assert(out[nv + 1] == v);
                assert(0 < nv + 1 < out.len());
                assert(before_in(out, u, v));
            }
            Option::None => {
                assert(s[iu] == y);
                assert(s.contains(y));
            }
        }
    } else {
        match s.index_of_first(y) {
            Option::Some(p) => {
                s.remove_ensures(p);
                assert(iu != p && iv != p);
                let nu: int = if iu < p {
                    iu
                } else {
                    iu - 1
                };
                let nv: int = if iv < p {
                    iv
                } else {
                    iv - 1
                };
                assert(r[nu] == u && r[nv] == v);
                assert(nu < nv);
                assert(out[nu + 1] == u && out[nv + 1] == v);
                assert(before_in(out, u, v));
            }
            Option::None => {
                assert(r == s);
                assert(out[iu + 1] == u && out[iv + 1] == v);
                assert(before_in(out, u, v));
            }
        }
    }
}

/// One visit of the traversal: remove the record from wherever it stands,
/// insert it at the front, then visit every referenced record that is not
/// the record itself and not already on the visit stack.
pub open spec fn spec_visit(
    list: Seq<TypeHolder>,
    i: usize,
    stack: Seq<bool>,
    st: (Seq<usize>, Seq<bool>),
) -> (Seq<usize>, Seq<bool>)
    decreases count_false(stack), holder_types(list[i as int]).len() + 1,
{
    let out2 = seq![i] + st.0.remove_value(i);
    let placed2 = st.1.update(i as int, true);
    spec_visit_names(list, i, holder_types(list[i as int]), 0, stack, (out2, placed2))
}

/// The tail of one visit: handle the referenced names from position `k`
/// on, recursing into each known, distinct, unstacked record.
pub open spec fn spec_visit_names(
    list: Seq<TypeHolder>,
    i: usize,
    names: Seq<Seq<char>>,
    k: int,
    stack: Seq<bool>,
    st: (Seq<usize>, Seq<bool>),
) -> (Seq<usize>, Seq<bool>)
    decreases count_false(stack), names.len() - k,
    via spec_visit_names_decreases
{
    if k < 0 || k >= names.len() {
        st
    } else {
        let j: int = name_index(list, names[k]);
        let st2 = if 0 <= j < stack.len() && j != i as int && !stack[j] {
            spec_visit(list, j as usize, stack.update(j, true), st)
        } else {
            st
        };
        spec_visit_names(list, i, names, k + 1, stack, st2)
    }
}

#[via_fn]
proof fn spec_visit_names_decreases(
    list: Seq<TypeHolder>,
    i: usize,
    names: Seq<Seq<char>>,
    k: int,
    stack: Seq<bool>,
    st: (Seq<usize>, Seq<bool>),
) {
    if 0 <= k < names.len() {
        let j: int = name_index(list, names[k]);
        if 0 <= j < stack.len() && j != i as int && !stack[j] {
            lemma_count_false_update(stack, j);
        }
    }
}

/// The driver of the traversal: visit every record not yet placed, in
/// list order, each from a fresh visit stack.
pub open spec fn spec_sort_from(
    list: Seq<TypeHolder>,
    k: int,
    st: (Seq<usize>, Seq<bool>),
) -> (Seq<usize>, Seq<bool>)
    decreases list.len() - k,
{
    if k < 0 || k >= list.len() {
        st
    } else {
        let st2 = if !st.1[k] {
            spec_visit(list, k as usize, Seq::new(list.len(), |m: int| false).update(k, true), st)
        } else {
            st
        };
        spec_sort_from(list, k + 1, st2)
    }
}

/// The emission order of the dependent records, front to back.
pub open spec fn spec_sort(list: Seq<TypeHolder>) -> Seq<usize> {
    spec_sort_from(list, 0, (Seq::<usize>::empty(), Seq::new(list.len(), |m: int| false))).0
}

/// The visit keeps the sorting-state invariant, never drops a placed
/// record, and places the visited one.
pub proof fn lemma_visit_st_inv(
    list: Seq<TypeHolder>,
    i: usize,
    stack: Seq<bool>,
    st: (Seq<usize>, Seq<bool>),
)
    requires
        stack.len() == list.len(),
        (i as int) < list.len(),
        st_inv(list.len() as int, st),
    ensures
        st_inv(list.len() as int, spec_visit(list, i, stack, st)),
        forall|x: usize| st.0.contains(x) ==> spec_visit(list, i, stack, st).0.contains(x),
        spec_visit(list, i, stack, st).0.contains(i),
    decreases count_false(stack), holder_types(list[i as int]).len() + 1,
{
    let out2 = seq![i] + st.0.remove_value(i);
    let placed2 = st.1.update(i as int, true);
    lemma_front_st_inv(list.len() as int, st, i);
    lemma_visit_names_st_inv(list, i, holder_types(list[i as int]), 0, stack, (out2, placed2));
    let result = spec_visit(list, i, stack, st);
    assert(result == spec_visit_names(
        list,
        i,
        holder_types(list[i as int]),
        0,
        stack,
        (out2, placed2),
    ));
    assert forall|x: usize| st.0.contains(x) implies result.0.contains(x) by {
        assert(out2.contains(x));
    }
    assert(out2.contains(i));
    assert(result.0.contains(i));
}

/// The tail of the visit keeps the sorting-state invariant and never drops
/// a placed record.
pub proof fn lemma_visit_names_st_inv(
    list: Seq<TypeHolder>,
    i: usize,
    names: Seq<Seq<char>>,
    k: int,
    stack: Seq<bool>,
    st: (Seq<usize>, Seq<bool>),
)
    requires
        stack.len() == list.len(),
        st_inv(list.len() as int, st),
    ensures
        st_inv(list.len() as int, spec_visit_names(list, i, names, k, stack, st)),
        forall|x: usize|
            st.0.contains(x) ==> spec_visit_names(list, i, names, k, stack, st).0.contains(x),
    decreases count_false(stack), names.len() - k,
{
    if k < 0 || k >= names.len() {
    } else {
        let j: int = name_index(list, names[k]);
        let st2 = if 0 <= j < stack.len() && j != i as int && !stack[j] {
            spec_visit(list, j as usize, stack.update(j, true), st)
        } else {
            st
        };
        if 0 <= j < stack.len() && j != i as int && !stack[j] {
            lemma_count_false_update(stack, j);
            lemma_visit_st_inv(list, j as usize, stack.update(j, true), st);
        }
        lemma_visit_names_st_inv(list, i, names, k + 1, stack, st2);
    }
}

/// The registry: dependent records keyed by name, the enumeration records
/// in discovery order, and the emission order once computed.
pub struct ItemsHolder {
    /// The Struct-like and Contract-like records.
    pub list: Vec<TypeHolder>,
    /// The Enumeration records, emitted first, in discovery order.
    pub enums_list: Vec<TypeRecord>,
    /// Indices into `list` in emission order, once computed.
    pub final_list: VecDeque<usize>,
}

impl ItemsHolder {
    /// Builds an empty registry.
    pub fn new(capacity: usize) -> (r: ItemsHolder)
        ensures
            r.list@ == Seq::<TypeHolder>::empty(),
            r.enums_list@ == Seq::<TypeRecord>::empty(),
            r.final_list@ == Seq::<usize>::empty(),
    {
        ItemsHolder {
            list: Vec::new(),
            enums_list: Vec::new(),
            final_list: VecDeque::with_capacity(capacity),
        }
    }

    /// The index of the dependent record with the given name, if any.
    fn find_index(&self, name: &str) -> (r: Option<usize>)
        ensures
            match r {
                Option::Some(j) => j < self.list@.len() && name_index(self.list@, name@)
                    == j as int,
                Option::None => name_index(self.list@, name@) == -1,
            },
    {
        let mut k: usize = 0;
        while k < self.list.len()
            invariant
                k <= self.list@.len(),
                name_index(self.list@, name@) == name_index_from(self.list@, name@, k as int),
            decreases self.list@.len() - k,
        {
            let h = &self.list[k];
            if crate::text_formatter::str_eq(h.name(), name) {
                proof {
                    assert(holder_name(self.list@[k as int]) == name@);
                    assert(name_index_from(self.list@, name@, k as int) == k as int);
                }
                return Option::Some(k);
            }
            proof {
                assert(holder_name(self.list@[k as int]) != name@);
                assert(name_index_from(self.list@, name@, k as int) == name_index_from(
                    self.list@,
                    name@,
                    k as int + 1,
                ));
            }
            k = k + 1;
        }
        proof {
            assert(name_index_from(self.list@, name@, k as int) == -1);
        }
        Option::None
    }

    /// One visit of the depth-first, front-insertion, revisit-relocation
    /// traversal: the record is removed from wherever it stands in the
    /// order, inserted at the front, and every referenced record that is
    /// neither itself nor already on the visit stack is visited in turn.
    fn visit(&mut self, i: usize, stack: &mut Vec<bool>, placed: &mut Vec<bool>)
        requires
            wf_holder_list(old(self).list@),
            old(stack)@.len() == old(self).list@.len(),
            i < old(self).list@.len(),
            old(stack)@[i as int],
            st_inv(old(self).list@.len() as int, (old(self).final_list@, old(placed)@)),
        ensures
            final(self).list@ == old(self).list@,
            final(self).enums_list@ == old(self).enums_list@,
            final(stack)@ == old(stack)@,
            (final(self).final_list@, final(placed)@) == spec_visit(
                old(self).list@,
                i,
                old(stack)@,
                (old(self).final_list@, old(placed)@),
            ),
        decreases count_false(old(stack)@),
    {
        let ghost list0 = old(self).list@;
        let ghost st0 = (old(self).final_list@, old(placed)@);
        let ghost stack0 = old(stack)@;
        if placed[i] {
            let ghost outv = self.final_list@;
            proof {
                assert(outv.contains(i));
            }
            let mut p: usize = 0;
            while p < self.final_list.len()
                invariant_except_break
                    p <= outv.len(),
                    self.final_list@ == outv,
                    outv.contains(i),
                    forall|m: int| 0 <= m < p ==> outv[m] != i,
                ensures
                    self.final_list@ == outv,
                    p < outv.len(),
                    outv[p as int] == i,
                    forall|m: int| 0 <= m < p ==> outv[m] != i,
                decreases outv.len() - p,
            {
                if self.final_list[p] == i {
                    break ;
                }
                p = p + 1;
                proof {
                    if p == outv.len() {
                        let q = choose|q: int| 0 <= q < outv.len() && outv[q] == i;
                        assert(outv[q] != i);
                    }
                }
            }
            let _removed = self.final_list.remove(p);
            proof {
                outv.index_of_first_ensures(i);
                let q = outv.index_of_first(i);
                match q {
                    Option::Some(qi) => {
                        if qi < p as int {
                            assert(outv[qi] != i);
                        } else if qi > p as int {
                            assert(outv[p as int] != i);
                        }
                        assert(qi == p as int);
                    }
                    Option::None => {
                        assert(!outv.contains(i));
                    }
                }
                assert(self.final_list@ == st0.0.remove_value(i));
            }
        } else {
            proof {
                assert(!st0.0.contains(i));
                st0.0.index_of_first_ensures(i);
                match st0.0.index_of_first(i) {
                    Option::Some(qi) => {
                        assert(st0.0.contains(i));
                    }
                    Option::None => {}
                }
                assert(self.final_list@ == st0.0.remove_value(i));
            }
        }
        self.final_list.push_front(i);
        placed[i] = true;
        let ghost st1 = (self.final_list@, placed@);
        proof {
            assert(self.final_list@ == seq![i] + st0.0.remove_value(i));
            assert(placed@ == st0.1.update(i as int, true));
            lemma_front_st_inv(list0.len() as int, st0, i);
            assert(st_inv(list0.len() as int, st1));
        }
        let h = &self.list[i];
        let names = h.types();
        let ghost names_v = crate::text_formatter::strings_view(names@);
        proof {
            assert(names_v == holder_types(list0[i as int]));
        }
        let mut k: usize = 0;
        while k < names.len()
            invariant
                wf_holder_list(list0),
                self.list@ == list0,
                self.enums_list@ == old(self).enums_list@,
                stack@ == stack0,
                stack0 == old(stack)@,
                stack0.len() == list0.len(),
                i < list0.len(),
                placed@.len() == list0.len(),
                k <= names@.len(),
                names_v == crate::text_formatter::strings_view(names@),
                names_v.len() == names@.len(),
                st_inv(list0.len() as int, (self.final_list@, placed@)),
                spec_visit_names(list0, i, names_v, k as int, stack0, (self.final_list@, placed@))
                    == spec_visit_names(list0, i, names_v, 0, stack0, st1),
            decreases names@.len() - k,
        {
            let ghost st_cur = (self.final_list@, placed@);
            let nm: &str = names[k].as_str();
            proof {
                assert(nm@ == names_v[k as int]);
            }
            let found = self.find_index(nm);
            match found {
                Option::Some(j) => {
                    if j != i {
                        if !stack[j] {
                            stack[j] = true;
                            proof {
                                assert(stack@ =~= stack0.update(j as int, true));
                                lemma_count_false_update(stack0, j as int);
                            }
                            self.visit(j, stack, placed);
                            stack[j] = false;
                            proof {
                                assert(stack@ =~= stack0);
                                assert((self.final_list@, placed@) == spec_visit(
                                    list0,
                                    j,
                                    stack0.update(j as int, true),
                                    st_cur,
                                ));
                                lemma_visit_st_inv(
                                    list0,
                                    j,
                                    stack0.update(j as int, true),
                                    st_cur,
                                );
                            }
                        }
                    }
                }
                Option::None => {}
            }
            proof {
                let j: int = name_index(list0, names_v[k as int]);
                assert(spec_visit_names(list0, i, names_v, k as int, stack0, st_cur)
                    == spec_visit_names(
                    list0,
                    i,
                    names_v,
                    k as int + 1,
                    stack0,
                    (self.final_list@, placed@),
                ));
            }
            k = k + 1;
        }
        proof {
            assert(spec_visit_names(
                list0,
                i,
                names_v,
                names_v.len() as int,
                stack0,
                (self.final_list@, placed@),
            ) == (self.final_list@, placed@));
            assert((self.final_list@, placed@) == spec_visit(list0, i, stack0, st0));
        }
    }

    /// Computes the emission order: every dependent record is visited once
    /// as a traversal root, in list order; the final sequence, read front
    /// to back, places referenced records strictly before referencing ones
    /// for any acyclic reference graph.
    pub fn sort_items(&mut self)
        requires
            wf_holder_list(old(self).list@),
            old(self).final_list@.len() == 0,
        ensures
            final(self).list@ == old(self).list@,
            final(self).enums_list@ == old(self).enums_list@,
            final(self).final_list@ == spec_sort(old(self).list@),
            final(self).final_list@.no_duplicates(),
            forall|m: int|
                0 <= m < final(self).final_list@.len() ==> (#[trigger] final(self).final_list@[m])
                    < old(self).list@.len(),
            forall|m: int|
                0 <= m < old(self).list@.len() ==> final(self).final_list@.contains(
                    #[trigger] (m as usize),
                ),
            acyclic(old(self).list@) ==> (forall|a: usize, b: usize|
                #[trigger] references(old(self).list@, a as int, b as int) ==> before_in(
                    final(self).final_list@,
                    b,
                    a,
                )),
    {
        let n = self.list.len();
        let mut stack: Vec<bool> = Vec::new();
        let mut placed: Vec<bool> = Vec::new();
        let mut z: usize = 0;
        while z < n
            invariant
                stack@.len() == z,
                placed@.len() == z,
                z <= n,
                forall|m: int| 0 <= m < z ==> !(#[trigger] stack@[m]),
                forall|m: int| 0 <= m < z ==> !(#[trigger] placed@[m]),
            decreases n - z,
        {
            stack.push(false);
            placed.push(false);
            z = z + 1;
        }
        let ghost list0 = self.list@;
        let ghost st0 = (self.final_list@, placed@);
        proof {
            assert(st_inv(n as int, st0));
        }
        let mut k: usize = 0;
        while k < n
            invariant
                n == list0.len(),
                wf_holder_list(list0),
                self.list@ == list0,
                self.enums_list@ == old(self).enums_list@,
                k <= n,
                stack@.len() == n,
                placed@.len() == n,
                forall|m: int| 0 <= m < n ==> !(#[trigger] stack@[m]),
                st_inv(n as int, (self.final_list@, placed@)),
                spec_sort_from(list0, k as int, (self.final_list@, placed@)) == spec_sort_from(
                    list0,
                    0,
                    st0,
                ),
                forall|m: int| 0 <= m < k ==> self.final_list@.contains(#[trigger] (m as usize)),
                acyclic(list0) ==> ordered_inv(
                    list0,
                    self.final_list@,
                    Seq::new(list0.len(), |m: int| false),
                ),
            decreases n - k,
        {
            let ghost st_cur = (self.final_list@, placed@);
            if !placed[k] {
                stack[k] = true;
                proof {
                    assert(stack@ =~= Seq::new(list0.len(), |m: int| false).update(
                        k as int,
                        true,
                    ));
                }
                self.visit(k, &mut stack, &mut placed);
                stack[k] = false;
                proof {
                    assert(stack@ =~= Seq::new(list0.len(), |m: int| false).update(k as int, true)
                        .update(k as int, false));
                    assert forall|m: int| 0 <= m < n implies !(#[trigger] stack@[m]) by {}
                    lemma_visit_st_inv(
                        list0,
                        k,
                        Seq::new(list0.len(), |m: int| false).update(k as int, true),
                        st_cur,
                    );
                    assert((self.final_list@, placed@) == spec_visit(
                        list0,
                        k,
                        Seq::new(list0.len(), |m: int| false).update(k as int, true),
                        st_cur,
                    ));
                    let falses = Seq::new(list0.len(), |m: int| false);
                    let stack_k = falses.update(k as int, true);
                    let path0 = seq![k as int];
                    assert(is_ref_path(list0, path0));
                    assert(path0.no_duplicates());
                    assert(path_ok(list0, path0, stack_k, k as int)) by {
                        assert forall|q: int| 0 <= q < list0.len() implies ((#[trigger] stack_k[q])
                            <==> path0.contains(q)) by {
                            if q == k as int {
                                assert(path0[0] == k as int);
                                assert(path0.contains(q));
                            } else {
                                if path0.contains(q) {
                                    let c = choose|c: int| 0 <= c < path0.len() && path0[c] == q;
                                    assert(c == 0);
                                }
                            }
                        }
                    }
                    if acyclic(list0) {
                        assert(ordered_inv(list0, st_cur.0, stack_k)) by {
                            assert forall|a: usize, b: usize|
                                st_cur.0.contains(a) && !stack_k[a as int] && #[trigger] references(
                                    list0,
                                    a as int,
                                    b as int,
                                ) implies st_cur.0.contains(b) && before_in(st_cur.0, b, a) by {
                                assert(!falses[a as int]);
                            }
                        }
                    }
                    lemma_visit_props(list0, k, stack_k, st_cur, path0);
                    if acyclic(list0) {
                        assert(ordered_inv(list0, self.final_list@, falses)) by {
                            assert forall|a: usize, b: usize|
                                self.final_list@.contains(a) && !falses[a as int]
                                    && #[trigger] references(
                                    list0,
                                    a as int,
                                    b as int,
                                ) implies self.final_list@.contains(b) && before_in(
                                self.final_list@,
                                b,
                                a,
                            ) by {
                                if a == k {
                                    assert(references(list0, k as int, b as int));
                                } else {
                                    assert(!stack_k[a as int]);
                                }
                            }
                        }
                    }
                    assert(self.final_list@.contains(k));
                    assert forall|m: int| 0 <= m < k implies self.final_list@.contains(
                        #[trigger] (m as usize),
                    ) by {
                        assert(st_cur.0.contains(m as usize));
                    }
                }
            } else {
                proof {
                    assert(self.final_list@.contains(k));
                }
            }
            proof {
                assert(spec_sort_from(list0, k as int, st_cur) == spec_sort_from(
                    list0,
                    k as int + 1,
                    (self.final_list@, placed@),
                ));
            }
            k = k + 1;
        }
        proof {
            assert(spec_sort_from(list0, n as int, (self.final_list@, placed@)) == (
                self.final_list@,
                placed@,
            ));
            assert(st0.0 =~= Seq::<usize>::empty());
            assert(st0.1 =~= Seq::new(list0.len(), |m: int| false));
            assert(self.final_list@ == spec_sort(list0));
            if acyclic(list0) {
                assert forall|a: usize, b: usize|
                    #[trigger] references(list0, a as int, b as int) implies before_in(
                    self.final_list@,
                    b,
                    a,
                ) by {
                    assert(self.final_list@.contains(#[trigger] ((a as int) as usize)));
                    assert(self.final_list@.contains(a));
                    let falses = Seq::new(list0.len(), |m: int| false);
                    assert(!falses[a as int]);
                }
            }
        }
    }
}

/// The visit stack corresponds to one reference chain ending at the record
/// being visited.
pub open spec fn path_ok(list: Seq<TypeHolder>, p: Seq<int>, stack: Seq<bool>, i: int) -> bool {
    &&& is_ref_path(list, p)
    &&& p.no_duplicates()
    &&& p.len() >= 1
    &&& p.last() == i
    &&& forall|m: int| 0 <= m < p.len() ==> 0 <= #[trigger] p[m] < list.len()
    &&& forall|q: int| 0 <= q < list.len() ==> ((#[trigger] stack[q]) <==> p.contains(q))
}

/// Every settled record already stands behind everything it references:
/// the key invariant of the traversal, maintained for records not on the
/// visit stack.
pub open spec fn ordered_inv(list: Seq<TypeHolder>, out: Seq<usize>, stack: Seq<bool>) -> bool {
    forall|a: usize, b: usize|
        out.contains(a) && !stack[a as int] && #[trigger] references(list, a as int, b as int)
            ==> out.contains(b) && before_in(out, b, a)
}

/// Extending the chain by one referenced, unstacked record keeps it a
/// chain.
proof fn lemma_path_extend(
    list: Seq<TypeHolder>,
    p: Seq<int>,
    stack: Seq<bool>,
    i: usize,
    j: int,
)
    requires
        stack.len() == list.len(),
        path_ok(list, p, stack, i as int),
        references(list, i as int, j),
        !stack[j],
        0 <= j < list.len(),
    ensures
        path_ok(list, p.push(j), stack.update(j, true), j),
{
    let p2 = p.push(j);
    let stack2 = stack.update(j, true);
    assert(is_ref_path(list, p2)) by {
        assert forall|m: int| 0 <= m < p2.len() - 1 implies references(
            list,
            #[trigger] p2[m],
            p2[m + 1],
        ) by {
            if m < p.len() - 1 {
                assert(p2[m] == p[m] && p2[m + 1] == p[m + 1]);
                assert(references(list, p[m], p[m + 1]));
            } else {
                assert(p2[m] == p.last() && p2[m + 1] == j);
            }
        }
    }
    assert(!p.contains(j));
    assert(p2.no_duplicates()) by {
        assert forall|a: int, b: int|
            0 <= a < p2.len() && 0 <= b < p2.len() && a != b implies p2[a] != p2[b] by {
            if a < p.len() && b < p.len() {
                assert(p2[a] == p[a] && p2[b] == p[b]);
            } else if a < p.len() {
                assert(p2[a] == p[a] && p2[b] == j);
                assert(p.contains(p[a]));
            } else {
                assert(p2[a] == j && p2[b] == p[b]);
                assert(p.contains(p[b]));
            }
        }
    }
    assert forall|q: int| 0 <= q < list.len() implies ((#[trigger] stack2[q]) <==> p2.contains(
        q,
    )) by {
        if q == j {
            assert(p2[p2.len() - 1] == j);
            assert(p2.contains(j));
        } else {
            assert(stack2[q] == stack[q]);
            if p.contains(q) {
                let c = choose|c: int| 0 <= c < p.len() && p[c] == q;
                assert(p2[c] == q);
            }
            if p2.contains(q) {
                let c = choose|c: int| 0 <= c < p2.len() && p2[c] == q;
                assert(c < p.len());
                assert(p[c] == q);
            }
        }
    }
}

/// A reference back into the chain closes a cycle: such a graph is not
/// acyclic.
proof fn lemma_cycle_absurd(list: Seq<TypeHolder>, p: Seq<int>, stack: Seq<bool>, i: usize, j: int)
    requires
        stack.len() == list.len(),
        path_ok(list, p, stack, i as int),
        references(list, i as int, j),
        0 <= j < list.len(),
        stack[j],
    ensures
        !acyclic(list),
{
    assert(p.contains(j));
    let c = choose|c: int| 0 <= c < p.len() && p[c] == j;
    let cyc = p.subrange(c, p.len() as int).push(j);
    assert(is_ref_path(list, cyc)) by {
        assert forall|m: int| 0 <= m < cyc.len() - 1 implies references(
            list,
            #[trigger] cyc[m],
            cyc[m + 1],
        ) by {
            if m < cyc.len() - 2 {
                assert(cyc[m] == p[c + m] && cyc[m + 1] == p[c + m + 1]);
                assert(references(list, p[c + m], p[c + m + 1]));
            } else {
                assert(cyc[m] == p.last() && cyc[m + 1] == j);
            }
        }
    }
    assert(cyc.len() >= 2);
    assert(cyc[0] == j && cyc.last() == j);
    assert(!acyclic(list)) by {
        if acyclic(list) {
            assert(cyc[0] != cyc.last());
        }
    }
}

/// What one visit guarantees: the state invariant is kept, nothing placed
/// is lost, pairs ordered under a still-stacked record stay ordered, the
/// visited record ends up before every stacked one, and - for an acyclic
/// reference graph - everything the visited record references ends up
/// strictly before it.
#[verifier::rlimit(80)]
pub proof fn lemma_visit_props(
    list: Seq<TypeHolder>,
    i: usize,
    stack: Seq<bool>,
    st: (Seq<usize>, Seq<bool>),
    p: Seq<int>,
)
    requires
        wf_holder_list(list),
        list.len() <= usize::MAX,
        stack.len() == list.len(),
        (i as int) < list.len(),
        stack[i as int],
        st_inv(list.len() as int, st),
        forall|q: usize|
            (q as int) < list.len() && (#[trigger] stack[q as int]) && q != i ==> st.0.contains(q),
        path_ok(list, p, stack, i as int),
        acyclic(list) ==> ordered_inv(list, st.0, stack),
    ensures
        ({
            let st2 = spec_visit(list, i, stack, st);
            &&& st_inv(list.len() as int, st2)
            &&& (forall|x: usize| st.0.contains(x) ==> st2.0.contains(x))
            &&& st2.0.contains(i)
            &&& (forall|u: usize, v: usize|
                (v as int) < list.len() && stack[v as int] && v != i && #[trigger] before_in(
                    st.0,
                    u,
                    v,
                ) ==> before_in(st2.0, u, v))
            &&& (forall|q: usize|
                (q as int) < list.len() && (#[trigger] stack[q as int]) && q != i ==> before_in(
                    st2.0,
                    i,
                    q,
                ))
            &&& (acyclic(list) ==> ordered_inv(list, st2.0, stack))
            &&& (acyclic(list) ==> (forall|b: usize|
                #[trigger] references(list, i as int, b as int) ==> st2.0.contains(b) && before_in(
                    st2.0,
                    b,
                    i,
                )))
        }),
    decreases count_false(stack), holder_types(list[i as int]).len() + 1, 2nat,
{
    let n = list.len() as int;
    let names = holder_types(list[i as int]);
    let out2 = seq![i] + st.0.remove_value(i);
    let placed2 = st.1.update(i as int, true);
    let st1 = (out2, placed2);
    lemma_front_st_inv(n, st, i);
    lemma_remove_value_props(st.0, i);
    // pairs under a stacked record other than the visited one survive the
    // relocation
    assert forall|u: usize, v: usize|
        (v as int) < n && stack[v as int] && v != i && #[trigger] before_in(
            st.0,
            u,
            v,
        ) implies before_in(out2, u, v) by {
        lemma_relocate_before(st.0, i, u, v);
    }
    // the visited record now stands before every stacked one
    assert forall|q: usize|
        (q as int) < n && (#[trigger] stack[q as int]) && q != i implies before_in(
        out2,
        i,
        q,
    ) by {
        assert(st.0.contains(q));
        let r = st.0.remove_value(i);
        assert(r.contains(q));
        let m = choose|m: int| 0 <= m < r.len() && r[m] == q;
        assert(out2[m + 1] == q);
        assert(out2[0] == i);
        assert(before_in(out2, i, q));
    }
    // the ordering invariant survives the relocation
    if acyclic(list) {
        assert forall|a: usize, b: usize|
            out2.contains(a) && !stack[a as int] && #[trigger] references(
                list,
                a as int,
                b as int,
            ) implies out2.contains(b) && before_in(out2, b, a) by {
            assert(a != i);
            assert(st.0.contains(a));
            assert(st.0.contains(b) && before_in(st.0, b, a));
            lemma_relocate_before(st.0, i, b, a);
        }
        assert(ordered_inv(list, out2, stack));
    }
    assert(st1.0.contains(i));
    lemma_visit_names_props(list, i, names, 0, stack, st1, p);
    let st2 = spec_visit_names(list, i, names, 0, stack, st1);
    assert(st2 == spec_visit(list, i, stack, st));
    // everything the record references ends up before it
    if acyclic(list) {
        assert forall|b: usize| #[trigger] references(list, i as int, b as int) implies
            st2.0.contains(b) && before_in(st2.0, b, i) by {
            let nmb = holder_name(list[b as int]);
            assert(names.contains(nmb));
            let m = choose|m: int| 0 <= m < names.len() && names[m] == nmb;
            lemma_name_index_of_member(list, b as int);
            assert(name_index(list, names[m]) == b as int);
            assert(b as int != i as int);
        }
    }
    // growth and stability, chained through the relocation
    assert forall|x: usize| st.0.contains(x) implies st2.0.contains(x) by {
        assert(out2.contains(x));
    }
    assert forall|u: usize, v: usize|
        (v as int) < n && stack[v as int] && v != i && #[trigger] before_in(
            st.0,
            u,
            v,
        ) implies before_in(st2.0, u, v) by {
        assert(before_in(out2, u, v));
    }
    assert forall|q: usize|
        (q as int) < n && (#[trigger] stack[q as int]) && q != i implies before_in(
        st2.0,
        i,
        q,
    ) by {
        assert(before_in(out2, i, q));
    }
}

/// One recursive step of the visit tail: the referenced record is visited
/// on an extended chain; it ends up placed and, under acyclicity, strictly
/// before the record whose references are being handled.
#[verifier::rlimit(80)]
proof fn lemma_visit_child(
    list: Seq<TypeHolder>,
    i: usize,
    ju: usize,
    stack: Seq<bool>,
    st: (Seq<usize>, Seq<bool>),
    p: Seq<int>,
)
    requires
        wf_holder_list(list),
        list.len() <= usize::MAX,
        stack.len() == list.len(),
        (i as int) < list.len(),
        stack[i as int],
        st_inv(list.len() as int, st),
        st.0.contains(i),
        forall|q: usize|
            (q as int) < list.len() && (#[trigger] stack[q as int]) ==> st.0.contains(q),
        path_ok(list, p, stack, i as int),
        acyclic(list) ==> ordered_inv(list, st.0, stack),
        references(list, i as int, ju as int),
        !stack[ju as int],
    ensures
        ({
            let stn = spec_visit(list, ju, stack.update(ju as int, true), st);
            &&& st_inv(list.len() as int, stn)
            &&& (forall|x: usize| st.0.contains(x) ==> stn.0.contains(x))
            &&& stn.0.contains(ju)
            &&& (forall|u: usize, v: usize|
                (v as int) < list.len() && stack[v as int] && #[trigger] before_in(st.0, u, v)
                    ==> before_in(stn.0, u, v))
            &&& before_in(stn.0, ju, i)
            &&& (acyclic(list) ==> ordered_inv(list, stn.0, stack))
        }),
    decreases count_false(stack.update(ju as int, true)), holder_types(
        list[ju as int],
    ).len() + 1, 3nat,
{
    let n = list.len() as int;
    let j = ju as int;
    let stack2 = stack.update(j, true);
    lemma_path_extend(list, p, stack, i, j);
    if acyclic(list) {
        assert(ordered_inv(list, st.0, stack2)) by {
            assert forall|a: usize, b: usize|
                st.0.contains(a) && !stack2[a as int] && #[trigger] references(
                    list,
                    a as int,
                    b as int,
                ) implies st.0.contains(b) && before_in(st.0, b, a) by {
                assert(!stack[a as int]);
            }
        }
    }
    assert forall|q: usize|
        (q as int) < n && (#[trigger] stack2[q as int]) && q != ju implies st.0.contains(q) by {
        assert(stack[q as int]);
    }
    lemma_visit_props(list, ju, stack2, st, p.push(j));
    let stn = spec_visit(list, ju, stack2, st);
    assert(before_in(stn.0, ju, i)) by {
        assert(stack2[i as int] && i != ju);
    }
    assert forall|u: usize, v: usize|
        (v as int) < n && stack[v as int] && #[trigger] before_in(st.0, u, v) implies before_in(
        stn.0,
        u,
        v,
    ) by {
        assert(stack2[v as int] && v != ju);
    }
    if acyclic(list) {
        assert(ordered_inv(list, stn.0, stack)) by {
            assert forall|a: usize, b: usize|
                stn.0.contains(a) && !stack[a as int] && #[trigger] references(
                    list,
                    a as int,
                    b as int,
                ) implies stn.0.contains(b) && before_in(stn.0, b, a) by {
                if a == ju {
                    assert(references(list, ju as int, b as int));
                } else {
                    assert(!stack2[a as int]);
                }
            }
        }
    }
}

/// The tail of one visit, from name position `k` on, with the same
/// guarantees and, additionally, that every named, known, distinct record
/// from position `k` on ends up strictly before the visited record.
#[verifier::rlimit(80)]
pub proof fn lemma_visit_names_props(
    list: Seq<TypeHolder>,
    i: usize,
    names: Seq<Seq<char>>,
    k: int,
    stack: Seq<bool>,
    st: (Seq<usize>, Seq<bool>),
    p: Seq<int>,
)
    requires
        0 <= k,
        wf_holder_list(list),
        list.len() <= usize::MAX,
        stack.len() == list.len(),
        (i as int) < list.len(),
        stack[i as int],
        st_inv(list.len() as int, st),
        st.0.contains(i),
        forall|q: usize|
            (q as int) < list.len() && (#[trigger] stack[q as int]) ==> st.0.contains(q),
        path_ok(list, p, stack, i as int),
        forall|m: int|
            k <= m < names.len() ==> holder_types(list[i as int]).contains(#[trigger] names[m]),
        acyclic(list) ==> ordered_inv(list, st.0, stack),
    ensures
        ({
            let st2 = spec_visit_names(list, i, names, k, stack, st);
            &&& st_inv(list.len() as int, st2)
            &&& (forall|x: usize| st.0.contains(x) ==> st2.0.contains(x))
            &&& (forall|u: usize, v: usize|
                (v as int) < list.len() && stack[v as int] && #[trigger] before_in(st.0, u, v)
                    ==> before_in(st2.0, u, v))
            &&& (acyclic(list) ==> ordered_inv(list, st2.0, stack))
            &&& (acyclic(list) ==> (forall|m: int|
                k <= m < names.len() ==> ({
                    let j = name_index(list, #[trigger] names[m]);
                    (0 <= j < list.len() && j != i as int) ==> st2.0.contains(j as usize)
                        && before_in(st2.0, j as usize, i)
                })))
        }),
    decreases count_false(stack), names.len() - k, 1nat,
{
    let n = list.len() as int;
    let st2 = spec_visit_names(list, i, names, k, stack, st);
    if k < 0 || k >= names.len() {
    } else {
        let j: int = name_index(list, names[k]);
        let guard = 0 <= j < stack.len() && j != i as int && !stack[j];
        let st_next = if guard {
            spec_visit(list, j as usize, stack.update(j, true), st)
        } else {
            st
        };
        lemma_name_index_from_props(list, names[k], 0);
        if guard {
            assert(holder_name(list[j]) == names[k]);
            assert(references(list, i as int, j)) by {
                assert(holder_types(list[i as int]).contains(names[k]));
            }
            lemma_count_false_update(stack, j);
            lemma_visit_child(list, i, j as usize, stack, st, p);
        } else {
            if acyclic(list) && 0 <= j < n && j != i as int {
                assert(holder_name(list[j]) == names[k]);
                assert(references(list, i as int, j)) by {
                    assert(holder_types(list[i as int]).contains(names[k]));
                }
                lemma_cycle_absurd(list, p, stack, i, j);
                assert(false);
            }
        }
        // facts about the state after this step, in either branch
        assert(st_inv(n, st_next));
        assert(forall|x: usize| st.0.contains(x) ==> st_next.0.contains(x));
        assert(st_next.0.contains(i));
        assert forall|q: usize|
            (q as int) < n && (#[trigger] stack[q as int]) implies st_next.0.contains(q) by {
            assert(st.0.contains(q));
        }
        lemma_visit_names_props(list, i, names, k + 1, stack, st_next, p);
        assert(st2 == spec_visit_names(list, i, names, k + 1, stack, st_next));
        // growth
        assert forall|x: usize| st.0.contains(x) implies st2.0.contains(x) by {
            assert(st_next.0.contains(x));
        }
        // stability
        assert forall|u: usize, v: usize|
            (v as int) < n && stack[v as int] && #[trigger] before_in(
                st.0,
                u,
                v,
            ) implies before_in(st2.0, u, v) by {
            assert(before_in(st_next.0, u, v));
        }
        // the per-name conclusion
        if acyclic(list) {
            assert forall|m: int| k <= m < names.len() implies ({
                let jm = name_index(list, #[trigger] names[m]);
                (0 <= jm < list.len() && jm != i as int) ==> st2.0.contains(jm as usize)
                    && before_in(st2.0, jm as usize, i)
            }) by {
                let jm = name_index(list, names[m]);
                if 0 <= jm < list.len() && jm != i as int {
                    if m == k {
                        assert(jm == j);
                        assert(guard);
                        assert((jm as usize) as int == jm);
                        assert(st_next == spec_visit(
                            list,
                            jm as usize,
                            stack.update((jm as usize) as int, true),
                            st,
                        ));
                        assert(before_in(st_next.0, jm as usize, i));
                        assert(stack[i as int]);
                        assert(before_in(st2.0, jm as usize, i));
                        assert(st_next.0.contains(jm as usize));
                        assert(st2.0.contains(jm as usize));
                    } else {
                        assert(k + 1 <= m < names.len());
                        let stq = spec_visit_names(list, i, names, k + 1, stack, st_next);
                        assert(stq == st2);
                        assert((0 <= jm < list.len() && jm != i as int) ==> stq.0.contains(
                            jm as usize,
                        ) && before_in(stq.0, jm as usize, i));
                    }
                }
            }
        }
    }
}

/// The index of the first enumeration record with the given name,
/// searching from `k`; negative when there is none.
pub open spec fn enum_name_index_from(enums: Seq<TypeRecord>, name: Seq<char>, k: int) -> int
    decreases enums.len() - k,
{
    if !(0 <= k < enums.len()) {
        -1
    } else if enums[k].name@ == name {
        k
    } else {
        enum_name_index_from(enums, name, k + 1)
    }
}

/// The index of the first enumeration record with the given name; negative
/// when there is none.
pub open spec fn enum_name_index(enums: Seq<TypeRecord>, name: Seq<char>) -> int {
    enum_name_index_from(enums, name, 0)
}

/// A fatal configuration error: the run aborts and reports the offending
/// name.
#[derive(Debug)]
pub enum ConfigError {
    /// A type was declared twice with a marker.
    DuplicateType(String),
    /// A marked operation was declared outside any owning type.
    FreeStandingOperation(String),
    /// A record of another shape is already bound to the name.
    ShapeConflict(String),
}

/// The report text of a configuration error.
pub open spec fn spec_error_message(e: ConfigError) -> Seq<char> {
    match e {
        ConfigError::DuplicateType(n) => "Multiple definitions of "@ + n@,
        ConfigError::FreeStandingOperation(n) =>
            "interface functions should be declared in impl blocks.\nName of function "@ + n@,
        ConfigError::ShapeConflict(n) => "Expected "@ + n@ + " to be a struct"@,
    }
}

impl ConfigError {
    /// Renders the report text of this error, naming the offending item.
    pub fn message(&self) -> (r: String)
        ensures
            r@ == spec_error_message(*self),
    {
        match self {
            ConfigError::DuplicateType(n) => {
                let mut r = "Multiple definitions of ".to_owned();
                r.append(n.as_str());
                r
            }
            ConfigError::FreeStandingOperation(n) => {
                let mut r =
                    "interface functions should be declared in impl blocks.\nName of function ".to_owned();
                r.append(n.as_str());
                r
            }
            ConfigError::ShapeConflict(n) => {
                let mut r = "Expected ".to_owned();
                r.append(n.as_str());
                r.append(" to be a struct");
                r
            }
        }
    }
}

impl ItemsHolder {
    /// The registry invariant: only well-formed non-enumeration records in
    /// the dependent list, only well-formed enumeration records in the
    /// enumeration list, and one record per name over both.
    pub open spec fn wf(self) -> bool {
        &&& wf_holder_list(self.list@)
        &&& forall|k: int|
            0 <= k < self.enums_list@.len() ==> ((#[trigger] self.enums_list@[k]).type_ matches
            Types::Enum) && wf_record(self.enums_list@[k])
        &&& forall|a: int, b: int|
            #![trigger self.enums_list@[a], self.enums_list@[b]]
            0 <= a < b < self.enums_list@.len() ==> self.enums_list@[a].name@
                != self.enums_list@[b].name@
        &&& forall|a: int, b: int|
            #![trigger self.list@[a], self.enums_list@[b]]
            0 <= a < self.list@.len() && 0 <= b < self.enums_list@.len() ==> holder_name(
                self.list@[a],
            ) != self.enums_list@[b].name@
    }

    /// The index of the enumeration record with the given name, if any.
    fn find_enum_index(&self, name: &str) -> (r: Option<usize>)
        ensures
            match r {
                Option::Some(j) => j < self.enums_list@.len() && enum_name_index(
                    self.enums_list@,
                    name@,
                ) == j as int,
                Option::None => enum_name_index(self.enums_list@, name@) == -1,
            },
    {
        let mut k: usize = 0;
        while k < self.enums_list.len()
            invariant
                k <= self.enums_list@.len(),
                enum_name_index(self.enums_list@, name@) == enum_name_index_from(
                    self.enums_list@,
                    name@,
                    k as int,
                ),
            decreases self.enums_list@.len() - k,
        {
            if str_eq(self.enums_list[k].name.as_str(), name) {
                proof {
                    assert(enum_name_index_from(self.enums_list@, name@, k as int) == k as int);
                }
                return Option::Some(k);
            }
            proof {
                assert(enum_name_index_from(self.enums_list@, name@, k as int)
                    == enum_name_index_from(self.enums_list@, name@, k as int + 1));
            }
            k = k + 1;
        }
        proof {
            assert(enum_name_index_from(self.enums_list@, name@, k as int) == -1);
        }
        Option::None
    }

    /// Inserts a dependent record under its name, overwriting any record
    /// already bound to it.
    pub fn add_items(&mut self, name: String, item: TypeHolder)
        requires
            old(self).wf(),
            name@ == holder_name(item),
            !is_enum_holder(item),
            holder_kind_ok(item),
            wf_record(record_of(item)),
            enum_name_index(old(self).enums_list@, name@) == -1,
        ensures
            final(self).wf(),
            final(self).enums_list@ == old(self).enums_list@,
            final(self).final_list@ == old(self).final_list@,
            ({
                let li = name_index(old(self).list@, name@);
                if li >= 0 {
                    final(self).list@ == old(self).list@.update(li, item)
                } else {
                    final(self).list@ == old(self).list@.push(item)
                }
            }),
    {
        proof {
            lemma_name_index_from_props(self.list@, name@, 0);
            lemma_enum_name_index_props(self.enums_list@, name@, 0);
        }
        let found = self.find_index(name.as_str());
        match found {
            Option::Some(j) => {
                self.list[j] = item;
                proof {
                    assert forall|a: int, b: int|
                        #![trigger self.list@[a], self.list@[b]]
                        0 <= a < b < self.list@.len() implies holder_name(self.list@[a])
                        != holder_name(self.list@[b]) by {
                        assert(holder_name(old(self).list@[a]) != holder_name(old(self).list@[b]));
                    }
                }
            }
            Option::None => {
                self.list.push(item);
                proof {
                    assert forall|a: int, b: int|
                        #![trigger self.list@[a], self.list@[b]]
                        0 <= a < b < self.list@.len() implies holder_name(self.list@[a])
                        != holder_name(self.list@[b]) by {
                        if b < old(self).list@.len() {
                            assert(holder_name(old(self).list@[a]) != holder_name(
                                old(self).list@[b],
                            ));
                        } else {
                            assert(holder_name(old(self).list@[a]) != name@);
                        }
                    }
                }
            }
        }
    }

    /// Appends an enumeration record, in discovery order.
    pub fn add_enum(&mut self, data: TypeRecord)
        requires
            old(self).wf(),
            data.type_ matches Types::Enum,
            wf_record(data),
            name_index(old(self).list@, data.name@) == -1,
            enum_name_index(old(self).enums_list@, data.name@) == -1,
        ensures
            final(self).wf(),
            final(self).list@ == old(self).list@,
            final(self).final_list@ == old(self).final_list@,
            final(self).enums_list@ == old(self).enums_list@.push(data),
    {
        proof {
            lemma_name_index_from_props(self.list@, data.name@, 0);
            lemma_enum_name_index_props(self.enums_list@, data.name@, 0);
        }
        let ghost nm = data.name@;
        self.enums_list.push(data);
        proof {
            assert forall|a: int, b: int|
                #![trigger self.enums_list@[a], self.enums_list@[b]]
                0 <= a < b < self.enums_list@.len() implies self.enums_list@[a].name@
                != self.enums_list@[b].name@ by {
                if b < old(self).enums_list@.len() {
                    assert(old(self).enums_list@[a].name@ != old(self).enums_list@[b].name@);
                } else {
                    assert(old(self).enums_list@[a].name@ != nm);
                }
            }
            assert forall|a: int, b: int|
                #![trigger self.list@[a], self.enums_list@[b]]
                0 <= a < self.list@.len() && 0 <= b < self.enums_list@.len() implies holder_name(
                self.list@[a],
            ) != self.enums_list@[b].name@ by {
                if b < old(self).enums_list@.len() {
                    assert(holder_name(old(self).list@[a]) != old(self).enums_list@[b].name@);
                } else {
                    assert(holder_name(old(self).list@[a]) != nm);
                }
            }
        }
    }
}

/// What an enumeration-name search yields: either nothing, or the first
/// index bearing the name.
pub proof fn lemma_enum_name_index_props(enums: Seq<TypeRecord>, name: Seq<char>, k: int)
    requires
        0 <= k,
    ensures
        ({
            let j = enum_name_index_from(enums, name, k);
            ||| j == -1 && (forall|m: int|
                k <= m < enums.len() ==> (#[trigger] enums[m]).name@ != name)
            ||| (k <= j < enums.len() && enums[j].name@ == name && (forall|m: int|
                k <= m < j ==> (#[trigger] enums[m]).name@ != name))
        }),
    decreases enums.len() - k,
{
    if 0 <= k < enums.len() && enums[k].name@ != name {
        lemma_enum_name_index_props(enums, name, k + 1);
    }
}

/// The record enrichment or insertion performed by a marked type
/// declaration, and the fatal outcomes: a second declaration of a declared
/// record, or a declaration against a record of another shape.
pub open spec fn struct_decl_outcome(
    pre: ItemsHolder,
    post: ItemsHolder,
    name: Seq<char>,
    docs: Seq<String>,
    r: Result<(), ConfigError>,
) -> bool {
    let li = name_index(pre.list@, name);
    let ei = enum_name_index(pre.enums_list@, name);
    &&& post.final_list@ == pre.final_list@
    &&& match r {
        Result::Ok(_) => {
            &&& post.enums_list@ == pre.enums_list@
            &&& if li >= 0 {
                let rec = record_of(pre.list@[li]);
                &&& pre.list@[li] matches TypeHolder::Struct(_)
                &&& !rec.declared
                &&& post.list@.len() == pre.list@.len()
                &&& (forall|m: int|
                    0 <= m < pre.list@.len() && m != li ==> post.list@[m] == #[trigger] pre.list@[m])
                &&& (post.list@[li] matches TypeHolder::Struct(nr) && nr.name@ == rec.name@
                    && nr.type_ == rec.type_ && nr.docs@ == rec.docs@ + docs && nr.extras@
                    == rec.extras@ && nr.declared)
            } else {
                &&& ei == -1
                &&& post.list@.len() == pre.list@.len() + 1
                &&& (forall|m: int|
                    0 <= m < pre.list@.len() ==> post.list@[m] == #[trigger] pre.list@[m])
                &&& (post.list@[pre.list@.len() as int] matches TypeHolder::Struct(nr) && nr.name@
                    == name && (nr.type_ matches Types::Struct) && nr.docs@ == docs
                    && nr.extras@.len() == 0 && nr.declared)
            }
        },
        Result::Err(e) => {
            &&& post == pre
            &&& match e {
                ConfigError::DuplicateType(n) => n@ == name && li >= 0 && (pre.list@[li] matches
                TypeHolder::Struct(_)) && record_of(pre.list@[li]).declared,
                ConfigError::ShapeConflict(n) => n@ == name && ((li >= 0 && !(pre.list@[li] matches
                TypeHolder::Struct(_))) || (li == -1 && ei >= 0)),
                ConfigError::FreeStandingOperation(_) => false,
            }
        },
    }
}

/// The operation append or placeholder synthesis performed by one marked
/// operation, and the fatal outcome: an operation against a record that is
/// not Struct-like.
pub open spec fn operation_outcome(
    pre: ItemsHolder,
    post: ItemsHolder,
    name: Seq<char>,
    item: ItemInfo,
    r: Result<(), ConfigError>,
) -> bool {
    let li = name_index(pre.list@, name);
    let ei = enum_name_index(pre.enums_list@, name);
    &&& post.final_list@ == pre.final_list@
    &&& match r {
        Result::Ok(_) => {
            &&& post.enums_list@ == pre.enums_list@
            &&& if li >= 0 {
                let rec = record_of(pre.list@[li]);
                &&& pre.list@[li] matches TypeHolder::Struct(_)
                &&& post.list@.len() == pre.list@.len()
                &&& (forall|m: int|
                    0 <= m < pre.list@.len() && m != li ==> post.list@[m] == #[trigger] pre.list@[m])
                &&& (post.list@[li] matches TypeHolder::Struct(nr) && nr.name@ == rec.name@
                    && nr.type_ == rec.type_ && nr.docs@ == rec.docs@ && nr.extras@
                    == rec.extras@.push(item) && nr.declared == rec.declared)
            } else {
                &&& ei == -1
                &&& post.list@.len() == pre.list@.len() + 1
                &&& (forall|m: int|
                    0 <= m < pre.list@.len() ==> post.list@[m] == #[trigger] pre.list@[m])
                &&& (post.list@[pre.list@.len() as int] matches TypeHolder::Struct(nr) && nr.name@
                    == name && (nr.type_ matches Types::Struct) && nr.docs@.len() == 0
                    && nr.extras@ == seq![item] && !nr.declared)
            }
        },
        Result::Err(e) => {
            &&& post == pre
            &&& match e {
                ConfigError::ShapeConflict(n) => n@ == name && ((li >= 0 && !(pre.list@[li] matches
                TypeHolder::Struct(_))) || (li == -1 && ei >= 0)),
                ConfigError::DuplicateType(_) => false,
                ConfigError::FreeStandingOperation(_) => false,
            }
        },
    }
}

/// The insertion performed by a marked Contract-like declaration, and the
/// fatal outcome: a name already bound.
pub open spec fn trait_decl_outcome(
    pre: ItemsHolder,
    post: ItemsHolder,
    record: TypeRecord,
    r: Result<(), ConfigError>,
) -> bool {
    let li = name_index(pre.list@, record.name@);
    let ei = enum_name_index(pre.enums_list@, record.name@);
    &&& post.final_list@ == pre.final_list@
    &&& match r {
        Result::Ok(_) => {
            &&& li == -1 && ei == -1
            &&& post.enums_list@ == pre.enums_list@
            &&& post.list@ == pre.list@.push(TypeHolder::Trait(record))
        },
        Result::Err(e) => {
            &&& post == pre
            &&& match e {
                ConfigError::DuplicateType(n) => n@ == record.name@ && (li >= 0 || ei >= 0),
                ConfigError::ShapeConflict(_) => false,
                ConfigError::FreeStandingOperation(_) => false,
            }
        },
    }
}

/// The insertion performed by a marked Enumeration declaration, and the
/// fatal outcome: a name already bound.
pub open spec fn enum_decl_outcome(
    pre: ItemsHolder,
    post: ItemsHolder,
    record: TypeRecord,
    r: Result<(), ConfigError>,
) -> bool {
    let li = name_index(pre.list@, record.name@);
    let ei = enum_name_index(pre.enums_list@, record.name@);
    &&& post.final_list@ == pre.final_list@
    &&& match r {
        Result::Ok(_) => {
            &&& li == -1 && ei == -1
            &&& post.list@ == pre.list@
            &&& post.enums_list@ == pre.enums_list@.push(record)
        },
        Result::Err(e) => {
            &&& post == pre
            &&& match e {
                ConfigError::DuplicateType(n) => n@ == record.name@ && (li >= 0 || ei >= 0),
                ConfigError::ShapeConflict(_) => false,
                ConfigError::FreeStandingOperation(_) => false,
            }
        },
    }
}

impl ItemsHolder {
    /// Registers a marked type declaration: enriches the implicit record
    /// synthesized earlier for the name, or creates the declared record.
    /// Fatal if the name was already declared or is bound to another shape.
    pub fn add_struct_decl(&mut self, name: String, docs: Vec<String>) -> (r: Result<
        (),
        ConfigError,
    >)
        requires
            old(self).wf(),
        ensures
            final(self).wf(),
            struct_decl_outcome(*old(self), *final(self), name@, docs@, r),
    {
        let found = self.find_index(name.as_str());
        match found {
            Option::Some(li) => {
                let shape_ok: bool;
                let already: bool;
                match &self.list[li] {
                    TypeHolder::Struct(rec) => {
                        shape_ok = true;
                        already = rec.declared;
                    }
                    _ => {
                        shape_ok = false;
                        already = false;
                    }
                }
                if !shape_ok {
                    return Result::Err(ConfigError::ShapeConflict(name));
                }
                if already {
                    return Result::Err(ConfigError::DuplicateType(name));
                }
                let old_holder = self.list.remove(li);
                match old_holder {
                    TypeHolder::Struct(rec) => {
                        let TypeRecord { name: rname, type_, docs: mut rdocs, extras, declared: _ }
                            = rec;
                        let mut new_docs = docs;
                        rdocs.append(&mut new_docs);
                        let nr = TypeRecord {
                            name: rname,
                            type_,
                            docs: rdocs,
                            extras,
                            declared: true,
                        };
                        self.list.insert(li, TypeHolder::Struct(nr));
                        proof {
                            assert(self.list@ =~= old(self).list@.update(
                                li as int,
                                self.list@[li as int],
                            ));
                            assert forall|a: int, b: int|
                                #![trigger self.list@[a], self.list@[b]]
                                0 <= a < b < self.list@.len() implies holder_name(self.list@[a])
                                != holder_name(self.list@[b]) by {
                                assert(holder_name(old(self).list@[a]) != holder_name(
                                    old(self).list@[b],
                                ));
                            }
                            assert forall|a: int, b: int|
                                #![trigger self.list@[a], self.enums_list@[b]]
                                0 <= a < self.list@.len() && 0 <= b
                                    < self.enums_list@.len() implies holder_name(self.list@[a])
                                != self.enums_list@[b].name@ by {
                                assert(holder_name(old(self).list@[a])
                                    != old(self).enums_list@[b].name@);
                            }
                        }
                        Result::Ok(())
                    }
                    other => {
                        self.list.insert(li, other);
                        proof {
                            assert(false);
                        }
                        Result::Ok(())
                    }
                }
            }
            Option::None => {
                let e_found = self.find_enum_index(name.as_str());
                match e_found {
                    Option::Some(_) => Result::Err(ConfigError::ShapeConflict(name)),
                    Option::None => {
                        proof {
                            lemma_name_index_from_props(self.list@, name@, 0);
                        }
                        let nr = TypeRecord {
                            name,
                            type_: Types::Struct,
                            docs,
                            extras: Vec::new(),
                            declared: true,
                        };
                        let ghost nm = nr.name@;
                        self.list.push(TypeHolder::Struct(nr));
                        proof {
                            assert forall|a: int, b: int|
                                #![trigger self.list@[a], self.list@[b]]
                                0 <= a < b < self.list@.len() implies holder_name(self.list@[a])
                                != holder_name(self.list@[b]) by {
                                if b < old(self).list@.len() {
                                    assert(holder_name(old(self).list@[a]) != holder_name(
                                        old(self).list@[b],
                                    ));
                                } else {
                                    assert(holder_name(old(self).list@[a]) != nm);
                                }
                            }
                            assert forall|a: int, b: int|
                                #![trigger self.list@[a], self.enums_list@[b]]
                                0 <= a < self.list@.len() && 0 <= b
                                    < self.enums_list@.len() implies holder_name(self.list@[a])
                                != self.enums_list@[b].name@ by {
                                if a < old(self).list@.len() {
                                    assert(holder_name(old(self).list@[a])
                                        != old(self).enums_list@[b].name@);
                                } else {
                                    lemma_enum_name_index_props(self.enums_list@, nm, 0);
                                }
                            }
                        }
                        Result::Ok(())
                    }
                }
            }
        }
    }

    /// Registers one marked operation under its owning type's name:
    /// appends it to the existing Struct-like record, or synthesizes an
    /// implicit placeholder when operations are discovered before the
    /// declaration. Fatal against a record of another shape.
    pub fn add_operation(&mut self, name: String, item: ItemInfo) -> (r: Result<(), ConfigError>)
        requires
            old(self).wf(),
            item.method_info matches Option::Some(_),
        ensures
            final(self).wf(),
            operation_outcome(*old(self), *final(self), name@, item, r),
    {
        let found = self.find_index(name.as_str());
        match found {
            Option::Some(li) => {
                let shape_ok: bool;
                match &self.list[li] {
                    TypeHolder::Struct(_) => {
                        shape_ok = true;
                    }
                    _ => {
                        shape_ok = false;
                    }
                }
                if !shape_ok {
                    return Result::Err(ConfigError::ShapeConflict(name));
                }
                let old_holder = self.list.remove(li);
                match old_holder {
                    TypeHolder::Struct(rec) => {
                        let TypeRecord { name: rname, type_, docs: rdocs, extras: mut rextras, declared }
                            = rec;
                        rextras.push(item);
                        let nr = TypeRecord {
                            name: rname,
                            type_,
                            docs: rdocs,
                            extras: rextras,
                            declared,
                        };
                        self.list.insert(li, TypeHolder::Struct(nr));
                        proof {
                            assert(self.list@ =~= old(self).list@.update(
                                li as int,
                                self.list@[li as int],
                            ));
                            assert(wf_record(record_of(self.list@[li as int]))) by {
                                let orec = record_of(old(self).list@[li as int]);
                                assert(wf_record(orec));
                                assert(holder_kind_ok(old(self).list@[li as int]));
                                let nrec = record_of(self.list@[li as int]);
                                assert(crate::types_structs::wf_dependent_items(nrec.extras@)) by {
                                    assert forall|k: int|
                                        0 <= k < nrec.extras@.len() implies (#[trigger] nrec.extras@[k]).method_info
                                        matches Option::Some(_) by {
                                        if k < orec.extras@.len() {
                                            assert(orec.extras@[k].method_info matches Option::Some(
                                                _,
                                            ));
                                        } else {
                                            assert(nrec.extras@[k] == item);
                                        }
                                    }
                                }
                            }
                            assert forall|a: int, b: int|
                                #![trigger self.list@[a], self.list@[b]]
                                0 <= a < b < self.list@.len() implies holder_name(self.list@[a])
                                != holder_name(self.list@[b]) by {
                                assert(holder_name(old(self).list@[a]) != holder_name(
                                    old(self).list@[b],
                                ));
                            }
                            assert forall|a: int, b: int|
                                #![trigger self.list@[a], self.enums_list@[b]]
                                0 <= a < self.list@.len() && 0 <= b
                                    < self.enums_list@.len() implies holder_name(self.list@[a])
                                != self.enums_list@[b].name@ by {
                                assert(holder_name(old(self).list@[a])
                                    != old(self).enums_list@[b].name@);
                            }
                        }
                        Result::Ok(())
                    }
                    other => {
                        self.list.insert(li, other);
                        proof {
                            assert(false);
                        }
                        Result::Ok(())
                    }
                }
            }
            Option::None => {
                let e_found = self.find_enum_index(name.as_str());
                match e_found {
                    Option::Some(_) => Result::Err(ConfigError::ShapeConflict(name)),
                    Option::None => {
                        proof {
                            lemma_name_index_from_props(self.list@, name@, 0);
                        }
                        let mut one = Vec::new();
                        one.push(item);
                        proof {
                            assert(one@ =~= seq![item]);
                        }
                        let nr = TypeRecord {
                            name,
                            type_: Types::Struct,
                            docs: Vec::new(),
                            extras: one,
                            declared: false,
                        };
                        let ghost nm = nr.name@;
                        self.list.push(TypeHolder::Struct(nr));
                        proof {
                            assert forall|a: int, b: int|
                                #![trigger self.list@[a], self.list@[b]]
                                0 <= a < b < self.list@.len() implies holder_name(self.list@[a])
                                != holder_name(self.list@[b]) by {
                                if b < old(self).list@.len() {
                                    assert(holder_name(old(self).list@[a]) != holder_name(
                                        old(self).list@[b],
                                    ));
                                } else {
                                    assert(holder_name(old(self).list@[a]) != nm);
                                }
                            }
                            assert forall|a: int, b: int|
                                #![trigger self.list@[a], self.enums_list@[b]]
                                0 <= a < self.list@.len() && 0 <= b
                                    < self.enums_list@.len() implies holder_name(self.list@[a])
                                != self.enums_list@[b].name@ by {
                                if a < old(self).list@.len() {
                                    assert(holder_name(old(self).list@[a])
                                        != old(self).enums_list@[b].name@);
                                } else {
                                    lemma_enum_name_index_props(self.enums_list@, nm, 0);
                                }
                            }
                        }
                        Result::Ok(())
                    }
                }
            }
        }
    }

    /// Registers a marked Contract-like declaration. Fatal when the name is
    /// already bound.
    pub fn add_trait_decl(&mut self, record: TypeRecord) -> (r: Result<(), ConfigError>)
        requires
            old(self).wf(),
            record.type_ matches Types::Trait,
            wf_record(record),
        ensures
            final(self).wf(),
            trait_decl_outcome(*old(self), *final(self), record, r),
    {
        let found = self.find_index(record.name.as_str());
        let e_found = self.find_enum_index(record.name.as_str());
        match (found, e_found) {
            (Option::None, Option::None) => {
                let ghost nm = record.name@;
                proof {
                    lemma_name_index_from_props(self.list@, nm, 0);
                    lemma_enum_name_index_props(self.enums_list@, nm, 0);
                }
                self.list.push(TypeHolder::Trait(record));
                proof {
                    assert forall|a: int, b: int|
                        #![trigger self.list@[a], self.list@[b]]
                        0 <= a < b < self.list@.len() implies holder_name(self.list@[a])
                        != holder_name(self.list@[b]) by {
                        if b < old(self).list@.len() {
                            assert(holder_name(old(self).list@[a]) != holder_name(
                                old(self).list@[b],
                            ));
                        } else {
                            assert(holder_name(old(self).list@[a]) != nm);
                        }
                    }
                    assert forall|a: int, b: int|
                        #![trigger self.list@[a], self.enums_list@[b]]
                        0 <= a < self.list@.len() && 0 <= b
                            < self.enums_list@.len() implies holder_name(self.list@[a])
                        != self.enums_list@[b].name@ by {
                        if a < old(self).list@.len() {
                            assert(holder_name(old(self).list@[a])
                                != old(self).enums_list@[b].name@);
                        }
                    }
                }
                Result::Ok(())
            }
            _ => Result::Err(ConfigError::DuplicateType(record.name)),
        }
    }

    /// Registers a marked Enumeration declaration. Fatal when the name is
    /// already bound.
    pub fn add_enum_decl(&mut self, record: TypeRecord) -> (r: Result<(), ConfigError>)
        requires
            old(self).wf(),
            record.type_ matches Types::Enum,
            wf_record(record),
        ensures
            final(self).wf(),
            enum_decl_outcome(*old(self), *final(self), record, r),
    {
        let found = self.find_index(record.name.as_str());
        let e_found = self.find_enum_index(record.name.as_str());
        match (found, e_found) {
            (Option::None, Option::None) => {
                self.add_enum(record);
                Result::Ok(())
            }
            _ => Result::Err(ConfigError::DuplicateType(record.name)),
        }
    }
}

/// One enumeration's operation records are its variants: name as the
/// signature, doc lines kept, never a constructor, never method facts.
pub open spec fn variant_items_ok(extras: Seq<ItemInfo>, vs: Seq<VariantDecl>) -> bool {
    &&& extras.len() == vs.len()
    &&& forall|k: int|
        0 <= k < vs.len() ==> (#[trigger] extras[k]).signature@ == vs[k].name@ && strings_view(
            extras[k].docs@,
        ) == strings_view(vs[k].docs@) && !extras[k].is_constructor && extras[k].method_info
            matches Option::None
}

/// One Contract-like record's operations are the extractions of its
/// declared operations, none a constructor.
pub open spec fn trait_items_ok(extras: Seq<ItemInfo>, methods: Seq<MethodDecl>) -> bool {
    &&& extras.len() == methods.len()
    &&& forall|k: int|
        0 <= k < methods.len() ==> extracted_item_ok(#[trigger] extras[k], methods[k], false)
}

/// What processing the marked operations of one owning type does: each
/// marked operation is extracted and registered in order; the first fatal
/// outcome aborts the walk.
pub open spec fn impl_outcome(
    pre: ItemsHolder,
    post: ItemsHolder,
    name: Seq<char>,
    methods: Seq<MethodDecl>,
    r: Result<(), ConfigError>,
) -> bool
    decreases methods.len(),
{
    if methods.len() == 0 {
        post == pre && r matches Result::Ok(_)
    } else if !methods[0].is_marked {
        impl_outcome(pre, post, name, methods.skip(1), r)
    } else {
        exists|it: ItemInfo, step: Result<(), ConfigError>, mid: ItemsHolder|
            {
                &&& #[trigger] operation_outcome(pre, mid, name, it, step)
                &&& extracted_item_ok(it, methods[0], methods[0].is_constructor)
                &&& match step {
                    Result::Ok(_) => impl_outcome(mid, post, name, methods.skip(1), r),
                    Result::Err(_) => post == mid && r == step,
                }
            }
    }
}

/// What registering one scanned declaration does to the registry.
pub open spec fn process_outcome(
    pre: ItemsHolder,
    post: ItemsHolder,
    item: SourceItem,
    r: Result<(), ConfigError>,
) -> bool {
    match item {
        SourceItem::StructDecl { name, is_doc_marked, docs } => {
            if is_doc_marked {
                struct_decl_outcome(pre, post, name@, docs@, r)
            } else {
                post == pre && r matches Result::Ok(_)
            }
        },
        SourceItem::FreeFn { name, is_marked } => {
            &&& post == pre
            &&& if is_marked {
                r matches Result::Err(ConfigError::FreeStandingOperation(n)) && n@ == name@
            } else {
                r matches Result::Ok(_)
            }
        },
        SourceItem::ImplBlock { self_name, methods } => {
            match self_name {
                Option::None => post == pre && r matches Result::Ok(_),
                Option::Some(nm) => impl_outcome(pre, post, nm@, methods@, r),
            }
        },
        SourceItem::EnumDecl { name, is_marked, docs, variants } => {
            if is_marked {
                exists|rec: TypeRecord|
                    {
                        &&& #[trigger] enum_decl_outcome(pre, post, rec, r)
                        &&& rec.name@ == name@
                        &&& rec.type_ matches Types::Enum
                        &&& strings_view(rec.docs@) == strings_view(docs@)
                        &&& variant_items_ok(rec.extras@, variants@)
                    }
            } else {
                post == pre && r matches Result::Ok(_)
            }
        },
        SourceItem::TraitDecl { name, is_marked, docs, methods } => {
            if is_marked {
                exists|rec: TypeRecord|
                    {
                        &&& #[trigger] trait_decl_outcome(pre, post, rec, r)
                        &&& rec.name@ == name@
                        &&& rec.type_ matches Types::Trait
                        &&& strings_view(rec.docs@) == strings_view(docs@)
                        &&& trait_items_ok(rec.extras@, methods@)
                    }
            } else {
                post == pre && r matches Result::Ok(_)
            }
        },
        SourceItem::Other => post == pre && r matches Result::Ok(_),
    }
}

impl ItemsHolder {
    /// Walks the marked operations of one owning type, in order.
    fn apply_impl(&mut self, name: &String, methods: &Vec<MethodDecl>, k: usize) -> (r: Result<
        (),
        ConfigError,
    >)
        requires
            old(self).wf(),
            k <= methods@.len(),
        ensures
            final(self).wf(),
            final(self).final_list@ == old(self).final_list@,
            impl_outcome(*old(self), *final(self), name@, methods@.skip(k as int), r),
        decreases methods@.len() - k,
    {
        if k == methods.len() {
            proof {
                assert(methods@.skip(k as int).len() == 0);
            }
            return Result::Ok(());
        }
        let ghost remaining = methods@.skip(k as int);
        proof {
            assert(remaining[0] == methods@[k as int]);
            assert(remaining.skip(1) =~= methods@.skip(k as int + 1));
        }
        let m = &methods[k];
        if !m.is_marked {
            let r = self.apply_impl(name, methods, k + 1);
            return r;
        }
        let info = method_item(m, m.is_constructor);
        let ghost ginfo = info;
        let ghost pre0 = *self;
        let step = self.add_operation(name.clone(), info);
        let ghost mid0 = *self;
        match step {
            Result::Ok(_) => {
                let rest = self.apply_impl(name, methods, k + 1);
                proof {
                    assert(operation_outcome(pre0, mid0, name@, ginfo, Result::Ok(())));
                    assert(impl_outcome(
                        mid0,
                        *self,
                        name@,
                        methods@.skip(k as int + 1),
                        rest,
                    ));
                    assert(impl_outcome(pre0, *self, name@, remaining, rest));
                }
                rest
            }
            Result::Err(e) => {
                proof {
                    assert(operation_outcome(
                        pre0,
                        mid0,
                        name@,
                        ginfo,
                        Result::Err::<(), ConfigError>(e),
                    ));
                    assert(impl_outcome(
                        pre0,
                        *self,
                        name@,
                        remaining,
                        Result::Err::<(), ConfigError>(e),
                    ));
                }
                Result::Err(e)
            }
        }
    }

    /// Registers one scanned declaration: marked type declarations enrich
    /// or create records, marked operations are appended under their owning
    /// type, marked enumerations and contracts are inserted whole, and a
    /// marked free-standing operation is fatal.
    pub fn process_item(&mut self, item: SourceItem) -> (r: Result<(), ConfigError>)
        requires
            old(self).wf(),
        ensures
            final(self).wf(),
            final(self).final_list@ == old(self).final_list@,
            process_outcome(*old(self), *final(self), item, r),
    {
        match item {
            SourceItem::StructDecl { name, is_doc_marked, docs } => {
                if is_doc_marked {
                    self.add_struct_decl(name, docs)
                } else {
                    Result::Ok(())
                }
            }
            SourceItem::FreeFn { name, is_marked } => {
                if is_marked {
                    Result::Err(ConfigError::FreeStandingOperation(name))
                } else {
                    Result::Ok(())
                }
            }
            SourceItem::ImplBlock { self_name, methods } => {
                match self_name {
                    Option::Some(nm) => {
                        let r = self.apply_impl(&nm, &methods, 0);
                        proof {
                            assert(methods@.skip(0) =~= methods@);
                        }
                        r
                    }
                    Option::None => Result::Ok(()),
                }
            }
            SourceItem::EnumDecl { name, is_marked, docs, variants } => {
                if is_marked {
                    let mut extras: Vec<ItemInfo> = Vec::new();
                    let mut i: usize = 0;
                    while i < variants.len()
                        invariant
                            i <= variants@.len(),
                            extras@.len() == i,
                            forall|m: int|
                                0 <= m < i ==> (#[trigger] extras@[m]).signature@
                                    == variants@[m].name@ && strings_view(extras@[m].docs@)
                                    == strings_view(variants@[m].docs@)
                                    && !extras@[m].is_constructor && extras@[m].method_info matches
                                Option::None,
                        decreases variants@.len() - i,
                    {
                        let v = &variants[i];
                        extras.push(
                            ItemInfo::new_enum(
                                v.name.clone(),
                                crate::text_formatter::clone_strings(&v.docs),
                            ),
                        );
                        i = i + 1;
                    }
                    let rec = TypeRecord::new(name, Types::Enum, docs, extras);
                    let ghost grec = rec;
                    proof {
                        assert(wf_record(grec)) by {
                            assert(crate::types_structs::wf_enum_items(grec.extras@));
                        }
                        assert(variant_items_ok(grec.extras@, variants@));
                    }
                    let r = self.add_enum_decl(rec);
                    proof {
                        assert(enum_decl_outcome(*old(self), *self, grec, r));
                    }
                    r
                } else {
                    Result::Ok(())
                }
            }
            SourceItem::TraitDecl { name, is_marked, docs, methods } => {
                if is_marked {
                    let mut extras: Vec<ItemInfo> = Vec::new();
                    let mut i: usize = 0;
                    while i < methods.len()
                        invariant
                            i <= methods@.len(),
                            extras@.len() == i,
                            forall|m: int|
                                0 <= m < i ==> extracted_item_ok(
                                    #[trigger] extras@[m],
                                    methods@[m],
                                    false,
                                ),
                        decreases methods@.len() - i,
                    {
                        let m = &methods[i];
                        extras.push(method_item(m, false));
                        i = i + 1;
                    }
                    let rec = TypeRecord::new(name, Types::Trait, docs, extras);
                    let ghost grec = rec;
                    proof {
                        assert(wf_record(grec)) by {
                            assert(crate::types_structs::wf_dependent_items(grec.extras@)) by {
                                assert forall|k: int|
                                    0 <= k < grec.extras@.len() implies (#[trigger] grec.extras@[k]).method_info
                                    matches Option::Some(_) by {
                                    assert(extracted_item_ok(grec.extras@[k], methods@[k], false));
                                }
                            }
                        }
                        assert(trait_items_ok(grec.extras@, methods@));
                    }
                    let r = self.add_trait_decl(rec);
                    proof {
                        assert(trait_decl_outcome(*old(self), *self, grec, r));
                    }
                    r
                } else {
                    Result::Ok(())
                }
            }
            SourceItem::Other => Result::Ok(()),
        }
    }
}

/// The blocks of the enumeration records, in discovery order.
pub open spec fn spec_enum_blocks(enums: Seq<TypeRecord>, case: TypeCases) -> Seq<char>
    decreases enums.len(),
{
    if enums.len() == 0 {
        Seq::<char>::empty()
    } else {
        spec_enum_blocks(enums.drop_last(), case) + spec_type_block(enums.last(), case)
    }
}

/// The blocks of the dependent records, in the given emission order.
pub open spec fn spec_ordered_blocks(
    list: Seq<TypeHolder>,
    order: Seq<usize>,
    case: TypeCases,
) -> Seq<char>
    decreases order.len(),
{
    if order.len() == 0 {
        Seq::<char>::empty()
    } else {
        spec_ordered_blocks(list, order.drop_last(), case) + (if (order.last() as int)
            < list.len() {
            spec_type_block(record_of(list[order.last() as int]), case)
        } else {
            Seq::<char>::empty()
        })
    }
}

/// The fixed generated-file banner, plus the one dialect-specific line.
pub open spec fn spec_banner(language: Language) -> Seq<char> {
    "//Automatically generated by rifgen\nuse crate::*;\n"@ + (match language {
        Language::Java => "use jni_sys::*;\n"@,
        Language::Cpp => Seq::<char>::empty(),
    })
}

/// The complete output text of a registry: the banner, every Enumeration
/// block in discovery order, then every dependent block in emission order.
pub open spec fn spec_output(h: ItemsHolder, language: Language, case: TypeCases) -> Seq<char> {
    spec_banner(language) + spec_enum_blocks(h.enums_list@, case) + spec_ordered_blocks(
        h.list@,
        spec_sort(h.list@),
        case,
    )
}

impl ItemsHolder {
    /// Renders the complete interface description: the banner, the
    /// enumeration blocks in discovery order, then the dependent blocks in
    /// the computed emission order.
    pub fn generate_interface(self, language: Language, case: TypeCases) -> (r: String)
        requires
            self.wf(),
            self.final_list@.len() == 0,
        ensures
            r@ == spec_output(self, language, case),
    {
        let ghost h0 = self;
        let mut this = self;
        this.sort_items();
        let mut out = "//Automatically generated by rifgen\nuse crate::*;\n".to_owned();
        match language {
            Language::Java => {
                out.append("use jni_sys::*;\n");
            }
            Language::Cpp => {}
        }
        proof {
            assert(out@ =~= spec_banner(language));
        }
        let ghost eb_all = spec_enum_blocks(h0.enums_list@, case);
        let mut i: usize = 0;
        proof {
            assert(out@ + spec_enum_blocks(h0.enums_list@.take(0), case) =~= out@);
        }
        while i < this.enums_list.len()
            invariant
                this.enums_list@ == h0.enums_list@,
                this.list@ == h0.list@,
                this.final_list@ == spec_sort(h0.list@),
                h0.wf(),
                i <= h0.enums_list@.len(),
                out@ == spec_banner(language) + spec_enum_blocks(h0.enums_list@.take(i as int), case),
            decreases h0.enums_list@.len() - i,
        {
            proof {
                assert(h0.enums_list@.take(i + 1).drop_last() =~= h0.enums_list@.take(i as int));
                assert(h0.enums_list@.take(i + 1).last() == h0.enums_list@[i as int]);
            }
            let block = this.enums_list[i].generate_interface(case);
            out.append(block.as_str());
            proof {
                lemma_assoc(
                    spec_banner(language),
                    spec_enum_blocks(h0.enums_list@.take(i as int), case),
                    spec_type_block(h0.enums_list@[i as int], case),
                );
                assert(out@ == spec_banner(language) + spec_enum_blocks(
                    h0.enums_list@.take(i + 1),
                    case,
                ));
            }
            i = i + 1;
        }
        proof {
            assert(h0.enums_list@.take(h0.enums_list@.len() as int) =~= h0.enums_list@);
        }
        let ghost order = spec_sort(h0.list@);
        let mut k: usize = 0;
        proof {
            assert(out@ + spec_ordered_blocks(h0.list@, order.take(0), case) =~= out@);
        }
        while k < this.final_list.len()
            invariant
                this.enums_list@ == h0.enums_list@,
                this.list@ == h0.list@,
                this.final_list@ == order,
                order == spec_sort(h0.list@),
                h0.wf(),
                forall|m: int| 0 <= m < order.len() ==> (#[trigger] order[m]) < h0.list@.len(),
                k <= order.len(),
                out@ == spec_banner(language) + spec_enum_blocks(h0.enums_list@, case)
                    + spec_ordered_blocks(h0.list@, order.take(k as int), case),
            decreases order.len() - k,
        {
            proof {
                assert(order.take(k + 1).drop_last() =~= order.take(k as int));
                assert(order.take(k + 1).last() == order[k as int]);
            }
            let idx = this.final_list[k];
            let h = &this.list[idx];
            let block = h.generate_interface(case);
            out.append(block.as_str());
            proof {
                lemma_assoc(
                    spec_banner(language) + spec_enum_blocks(h0.enums_list@, case),
                    spec_ordered_blocks(h0.list@, order.take(k as int), case),
                    spec_type_block(record_of(h0.list@[order[k as int] as int]), case),
                );
                assert(out@ == spec_banner(language) + spec_enum_blocks(h0.enums_list@, case)
                    + spec_ordered_blocks(h0.list@, order.take(k + 1), case));
            }
            k = k + 1;
        }
        proof {
            assert(order.take(order.len() as int) =~= order);
            assert(out@ == spec_output(h0, language, case));
        }
        out
    }
}

/// Self-reference exclusion: a record never references itself, so a
/// constructor returning its own enclosing type creates no dependency and
/// no loop: a two-step chain from a record back to itself is never a chain.
pub proof fn lemma_self_reference_excluded(list: Seq<TypeHolder>, i: int)
    ensures
        !references(list, i, i),
        forall|p: Seq<int>|
            p.len() == 2 && p[0] == i && p[1] == i ==> !#[trigger] is_ref_path(list, p),
{
    assert forall|p: Seq<int>|
        p.len() == 2 && p[0] == i && p[1] == i implies !#[trigger] is_ref_path(list, p) by {
        if is_ref_path(list, p) {
            assert(references(list, p[0], p[1]));
        }
    }
}


/// What scanning a whole declaration list does: each declaration is
/// registered in order; the first fatal outcome aborts the scan.
pub open spec fn registry_scan(
    pre: ItemsHolder,
    post: ItemsHolder,
    items: Seq<SourceItem>,
    r: Result<(), ConfigError>,
) -> bool
    decreases items.len(),
{
    if items.len() == 0 {
        post == pre && r matches Result::Ok(_)
    } else {
        exists|step: Result<(), ConfigError>, mid: ItemsHolder|
            {
                &&& #[trigger] process_outcome(pre, mid, items[0], step)
                &&& mid.wf()
                &&& match step {
                    Result::Ok(_) => registry_scan(mid, post, items.skip(1), r),
                    Result::Err(_) => post == mid && r == step,
                }
            }
    }
}

impl ItemsHolder {
    /// Scans a whole declaration list into the registry, in order, aborting
    /// at the first fatal configuration error.
    pub fn process_all(&mut self, items: Vec<SourceItem>) -> (r: Result<(), ConfigError>)
        requires
            old(self).wf(),
        ensures
            final(self).wf(),
            final(self).final_list@ == old(self).final_list@,
            registry_scan(*old(self), *final(self), items@, r),
    {
        let ghost pre0 = *self;
        let n = items.len();
        let mut items = items;
        let ghost itemsv = items@;
        let mut k: usize = 0;
        let mut failure: Option<ConfigError> = Option::None;
        proof {
            assert(itemsv.skip(0) =~= itemsv);
        }
        while k < n
            invariant_except_break
                self.wf(),
                n == itemsv.len(),
                items@ == itemsv.skip(k as int),
                k <= n,
                failure matches Option::None,
                self.final_list@ == pre0.final_list@,
                forall|post: ItemsHolder, rr: Result<(), ConfigError>|
                    #[trigger] registry_scan(*self, post, itemsv.skip(k as int), rr)
                        ==> registry_scan(pre0, post, itemsv, rr),
            ensures
                self.wf(),
                self.final_list@ == pre0.final_list@,
                match failure {
                    Option::None => k == n && (forall|post: ItemsHolder, rr: Result<
                        (),
                        ConfigError,
                    >|
                        #[trigger] registry_scan(*self, post, itemsv.skip(k as int), rr)
                            ==> registry_scan(pre0, post, itemsv, rr)) && k as int == itemsv.len(),
                    Option::Some(e) => registry_scan(
                        pre0,
                        *self,
                        itemsv,
                        Result::Err::<(), ConfigError>(e),
                    ),
                },
            decreases n - k,
        {
            let ghost mid_pre = *self;
            let item = items.remove(0);
            proof {
                assert(item == itemsv.skip(k as int)[0]);
                assert(items@ =~= itemsv.skip(k as int + 1));
            }
            let step = self.process_item(item);
            let ghost gstep = step;
            proof {
                assert(process_outcome(mid_pre, *self, itemsv.skip(k as int)[0], gstep));
            }
            match step {
                Result::Err(e) => {
                    proof {
                        assert(gstep == Result::Err::<(), ConfigError>(e));
                        assert(registry_scan(
                            mid_pre,
                            *self,
                            itemsv.skip(k as int),
                            Result::Err::<(), ConfigError>(e),
                        ));
                        assert(registry_scan(
                            pre0,
                            *self,
                            itemsv,
                            Result::Err::<(), ConfigError>(e),
                        ));
                    }
                    failure = Option::Some(e);
                    break ;
                }
                Result::Ok(_) => {
                    proof {
                        assert(gstep matches Result::Ok(_));
                        assert(itemsv.skip(k as int).skip(1) =~= itemsv.skip(k as int + 1));
                        assert forall|post: ItemsHolder, rr: Result<(), ConfigError>|
                            #[trigger] registry_scan(*self, post, itemsv.skip(k as int + 1), rr)
                                implies registry_scan(pre0, post, itemsv, rr) by {
                            assert(registry_scan(*self, post, itemsv.skip(k as int).skip(1), rr));
                            assert(registry_scan(mid_pre, post, itemsv.skip(k as int), rr));
                        }
                    }
                }
            }
            k = k + 1;
        }
        match failure {
            Option::Some(e) => Result::Err(e),
            Option::None => {
                proof {
                    assert(itemsv.skip(n as int).len() == 0);
                    assert(registry_scan(*self, *self, itemsv.skip(n as int), Result::Ok::<
                        (),
                        ConfigError,
                    >(())));
                    assert(registry_scan(pre0, *self, itemsv, Result::Ok::<(), ConfigError>(())));
                }
                Result::Ok(())
            }
        }
    }
}

/// Drives the interface-file generation: holds the configured naming case
/// and the two paths of a run. The directory walk, the parsing of each
/// source file and the writing of the output are performed by the
/// surrounding program.
pub struct FileGenerator {
    /// The naming-case transform applied to emitted aliases.
    pub type_case: TypeCases,
    /// Where the interface description is written.
    pub interface_file_path: String,
    /// The root folder that is recursively walked.
    pub starting_point: String,
}

impl FileGenerator {
    /// Builds a generator run from its configuration.
    pub fn new(type_case: TypeCases, interface_file_path: String, starting_point: String) -> (r:
        FileGenerator)
        ensures
            r == (FileGenerator { type_case, interface_file_path, starting_point }),
    {
        FileGenerator { type_case, interface_file_path, starting_point }
    }
}

/// Two optional method facts carry the same names.
pub open spec fn method_info_equiv(a: Option<MethodInfo>, b: Option<MethodInfo>) -> bool {
    match (a, b) {
        (Option::Some(x), Option::Some(y)) => x.name@ == y.name@ && strings_view(
            x.types_in_method@,
        ) == strings_view(y.types_in_method@) && strings_view(x.return_types@) == strings_view(
            y.return_types@,
        ),
        (Option::None, Option::None) => true,
        _ => false,
    }
}

/// Two operation records carry the same text.
pub open spec fn item_equiv(a: ItemInfo, b: ItemInfo) -> bool {
    &&& strings_view(a.docs@) == strings_view(b.docs@)
    &&& a.signature@ == b.signature@
    &&& a.is_constructor == b.is_constructor
    &&& method_info_equiv(a.method_info, b.method_info)
}

/// Two operation lists carry the same text, record for record.
pub open spec fn items_equiv(a: Seq<ItemInfo>, b: Seq<ItemInfo>) -> bool {
    &&& a.len() == b.len()
    &&& forall|k: int| 0 <= k < a.len() ==> item_equiv(#[trigger] a[k], #[trigger] b[k])
}

/// Two Type Records carry the same text.
pub open spec fn record_equiv(a: TypeRecord, b: TypeRecord) -> bool {
    &&& a.name@ == b.name@
    &&& a.type_ == b.type_
    &&& strings_view(a.docs@) == strings_view(b.docs@)
    &&& items_equiv(a.extras@, b.extras@)
}

/// Two dependent records carry the same text, as the same kind; Struct-like
/// records also agree on whether the declaration itself was seen, the one
/// piece of state later registrations read back.
pub open spec fn holder_equiv(a: TypeHolder, b: TypeHolder) -> bool {
    &&& (a matches TypeHolder::Struct(_) <==> b matches TypeHolder::Struct(_))
    &&& (a matches TypeHolder::Trait(_) <==> b matches TypeHolder::Trait(_))
    &&& (a matches TypeHolder::Enum(_) <==> b matches TypeHolder::Enum(_))
    &&& record_equiv(record_of(a), record_of(b))
    &&& (a matches TypeHolder::Struct(_) ==> record_of(a).declared == record_of(b).declared)
}

/// Two registries carry the same text in the same shape.
pub open spec fn registry_equiv(a: ItemsHolder, b: ItemsHolder) -> bool {
    &&& a.list@.len() == b.list@.len()
    &&& (forall|k: int| 0 <= k < a.list@.len() ==> holder_equiv(#[trigger] a.list@[k], #[trigger] b.list@[k]))
    &&& a.enums_list@.len() == b.enums_list@.len()
    &&& (forall|k: int|
        0 <= k < a.enums_list@.len() ==> record_equiv(
            #[trigger] a.enums_list@[k],
            #[trigger] b.enums_list@[k],
        ))
    &&& a.final_list@ == b.final_list@
}

/// Equivalent doc lists emit the same doc lines.
proof fn lemma_doc_lines_equiv(a: Seq<Seq<char>>, b: Seq<Seq<char>>, depth: nat)
    requires
        a == b,
    ensures
        crate::types_structs::doc_lines(a, depth) == crate::types_structs::doc_lines(b, depth),
{
}

/// Equivalent operation lists have constructors together.
proof fn lemma_has_constructors_equiv(a: Seq<ItemInfo>, b: Seq<ItemInfo>)
    requires
        items_equiv(a, b),
    ensures
        crate::types_structs::has_constructors(a) == crate::types_structs::has_constructors(b),
    decreases a.len(),
{
    if a.len() > 0 {
        assert(item_equiv(a[a.len() - 1], b[a.len() - 1]));
        assert(items_equiv(a.drop_last(), b.drop_last())) by {
            assert forall|k: int|
                0 <= k < a.drop_last().len() implies item_equiv(
                #[trigger] a.drop_last()[k],
                #[trigger] b.drop_last()[k],
            ) by {
                assert(item_equiv(a[k], b[k]));
            }
        }
        lemma_has_constructors_equiv(a.drop_last(), b.drop_last());
    }
}

/// Equivalent operation lists emit the same member lines, for every kind of
/// line.
proof fn lemma_lines_equiv(name: Seq<char>, case: TypeCases, a: Seq<ItemInfo>, b: Seq<ItemInfo>)
    requires
        items_equiv(a, b),
    ensures
        crate::types_structs::spec_constructor_lines(name, a)
            == crate::types_structs::spec_constructor_lines(name, b),
        crate::types_structs::spec_operation_lines(name, case, a)
            == crate::types_structs::spec_operation_lines(name, case, b),
        crate::types_structs::spec_callback_lines(name, case, a)
            == crate::types_structs::spec_callback_lines(name, case, b),
        crate::types_structs::spec_variant_lines(name, a)
            == crate::types_structs::spec_variant_lines(name, b),
    decreases a.len(),
{
    if a.len() > 0 {
        let x = a[a.len() - 1];
        let y = b[a.len() - 1];
        assert(item_equiv(x, y));
        assert(items_equiv(a.drop_last(), b.drop_last())) by {
            assert forall|k: int|
                0 <= k < a.drop_last().len() implies item_equiv(
                #[trigger] a.drop_last()[k],
                #[trigger] b.drop_last()[k],
            ) by {
                assert(item_equiv(a[k], b[k]));
            }
        }
        lemma_lines_equiv(name, case, a.drop_last(), b.drop_last());
        assert(crate::types_structs::method_name_of(x) == crate::types_structs::method_name_of(y));
        assert(crate::types_structs::spec_constructor_line(name, x)
            == crate::types_structs::spec_constructor_line(name, y));
        assert(crate::types_structs::spec_operation_line(name, case, x)
            == crate::types_structs::spec_operation_line(name, case, y));
        assert(crate::types_structs::spec_callback_line(name, case, x)
            == crate::types_structs::spec_callback_line(name, case, y));
        assert(crate::types_structs::spec_variant_line(name, x)
            == crate::types_structs::spec_variant_line(name, y));
    }
}

/// Equivalent records render byte-identical blocks.
pub proof fn lemma_block_equiv(a: TypeRecord, b: TypeRecord, case: TypeCases)
    requires
        record_equiv(a, b),
    ensures
        spec_type_block(a, case) == spec_type_block(b, case),
{
    lemma_lines_equiv(a.name@, case, a.extras@, b.extras@);
    lemma_has_constructors_equiv(a.extras@, b.extras@);
}

/// Equivalent operation lists reference the same type names.
proof fn lemma_items_types_equiv(a: Seq<ItemInfo>, b: Seq<ItemInfo>)
    requires
        items_equiv(a, b),
    ensures
        crate::enums::items_types(a) == crate::enums::items_types(b),
    decreases a.len(),
{
    if a.len() > 0 {
        assert(item_equiv(a[a.len() - 1], b[a.len() - 1]));
        assert(items_equiv(a.drop_last(), b.drop_last())) by {
            assert forall|k: int|
                0 <= k < a.drop_last().len() implies item_equiv(
                #[trigger] a.drop_last()[k],
                #[trigger] b.drop_last()[k],
            ) by {
                assert(item_equiv(a[k], b[k]));
            }
        }
        lemma_items_types_equiv(a.drop_last(), b.drop_last());
        assert(crate::types_structs::method_types_of(a.last())
            == crate::types_structs::method_types_of(b.last()));
    }
}

/// Equivalent dependent lists resolve every name to the same index.
proof fn lemma_name_index_equiv(a: Seq<TypeHolder>, b: Seq<TypeHolder>, name: Seq<char>, k: int)
    requires
        a.len() == b.len(),
        forall|m: int| 0 <= m < a.len() ==> holder_equiv(#[trigger] a[m], #[trigger] b[m]),
    ensures
        name_index_from(a, name, k) == name_index_from(b, name, k),
    decreases a.len() - k,
{
    if 0 <= k < a.len() {
        assert(holder_equiv(a[k], b[k]));
        lemma_name_index_equiv(a, b, name, k + 1);
    }
}

/// Equivalent dependent lists are ordered identically by the traversal.
proof fn lemma_visit_equiv(
    a: Seq<TypeHolder>,
    b: Seq<TypeHolder>,
    i: usize,
    stack: Seq<bool>,
    st: (Seq<usize>, Seq<bool>),
)
    requires
        a.len() == b.len(),
        forall|m: int| 0 <= m < a.len() ==> holder_equiv(#[trigger] a[m], #[trigger] b[m]),
        (i as int) < a.len(),
    ensures
        spec_visit(a, i, stack, st) == spec_visit(b, i, stack, st),
    decreases count_false(stack), holder_types(a[i as int]).len() + 1, 1nat,
{
    assert(holder_equiv(a[i as int], b[i as int]));
    lemma_items_types_equiv(record_of(a[i as int]).extras@, record_of(b[i as int]).extras@);
    assert(holder_types(a[i as int]) == holder_types(b[i as int]));
    let out2 = seq![i] + st.0.remove_value(i);
    let placed2 = st.1.update(i as int, true);
    lemma_visit_names_equiv(a, b, i, holder_types(a[i as int]), 0, stack, (out2, placed2));
}

/// The tail of a visit orders equivalent lists identically.
proof fn lemma_visit_names_equiv(
    a: Seq<TypeHolder>,
    b: Seq<TypeHolder>,
    i: usize,
    names: Seq<Seq<char>>,
    k: int,
    stack: Seq<bool>,
    st: (Seq<usize>, Seq<bool>),
)
    requires
        a.len() == b.len(),
        forall|m: int| 0 <= m < a.len() ==> holder_equiv(#[trigger] a[m], #[trigger] b[m]),
    ensures
        spec_visit_names(a, i, names, k, stack, st) == spec_visit_names(b, i, names, k, stack, st),
    decreases count_false(stack), names.len() - k, 0nat,
{
    if k < 0 || k >= names.len() {
    } else {
        lemma_name_index_equiv(a, b, names[k], 0);
        let j: int = name_index(a, names[k]);
        let st2 = if 0 <= j < stack.len() && j != i as int && !stack[j] {
            spec_visit(a, j as usize, stack.update(j, true), st)
        } else {
            st
        };
        if 0 <= j < stack.len() && j != i as int && !stack[j] {
            lemma_count_false_update(stack, j);
            if (j as int) < a.len() {
                lemma_visit_equiv(a, b, j as usize, stack.update(j, true), st);
            } else {
                lemma_name_index_from_props(a, names[k], 0);
            }
        }
        lemma_visit_names_equiv(a, b, i, names, k + 1, stack, st2);
    }
}

/// Equivalent dependent lists yield the same emission order.
pub proof fn lemma_sort_equiv(a: Seq<TypeHolder>, b: Seq<TypeHolder>)
    requires
        a.len() == b.len(),
        forall|m: int| 0 <= m < a.len() ==> holder_equiv(#[trigger] a[m], #[trigger] b[m]),
    ensures
        spec_sort(a) == spec_sort(b),
{
    lemma_sort_from_equiv(a, b, 0, (Seq::<usize>::empty(), Seq::new(a.len(), |m: int| false)));
    assert(Seq::new(a.len(), |m: int| false) =~= Seq::new(b.len(), |m: int| false));
}

/// The driver orders equivalent lists identically, from any position.
proof fn lemma_sort_from_equiv(
    a: Seq<TypeHolder>,
    b: Seq<TypeHolder>,
    k: int,
    st: (Seq<usize>, Seq<bool>),
)
    requires
        a.len() == b.len(),
        forall|m: int| 0 <= m < a.len() ==> holder_equiv(#[trigger] a[m], #[trigger] b[m]),
    ensures
        spec_sort_from(a, k, st) == spec_sort_from(b, k, st),
    decreases a.len() - k,
{
    if 0 <= k < a.len() {
        let st2 = if !st.1[k] {
            spec_visit(a, k as usize, Seq::new(a.len(), |m: int| false).update(k, true), st)
        } else {
            st
        };
        if !st.1[k] {
            lemma_visit_equiv(
                a,
                b,
                k as usize,
                Seq::new(a.len(), |m: int| false).update(k, true),
                st,
            );
            assert(Seq::new(a.len(), |m: int| false) =~= Seq::new(b.len(), |m: int| false));
        }
        lemma_sort_from_equiv(a, b, k + 1, st2);
    }
}

/// Idempotence of ordering and rendering together: registries that carry
/// the same text render byte-identical output under one configuration.
pub proof fn lemma_output_equiv(
    a: ItemsHolder,
    b: ItemsHolder,
    language: Language,
    case: TypeCases,
)
    requires
        registry_equiv(a, b),
    ensures
        spec_output(a, language, case) == spec_output(b, language, case),
{
    lemma_enum_blocks_equiv(a.enums_list@, b.enums_list@, case);
    lemma_sort_equiv(a.list@, b.list@);
    lemma_ordered_blocks_equiv(a.list@, b.list@, spec_sort(a.list@), case);
}

/// Equivalent enumeration lists render byte-identical blocks.
proof fn lemma_enum_blocks_equiv(a: Seq<TypeRecord>, b: Seq<TypeRecord>, case: TypeCases)
    requires
        a.len() == b.len(),
        forall|k: int| 0 <= k < a.len() ==> record_equiv(#[trigger] a[k], #[trigger] b[k]),
    ensures
        spec_enum_blocks(a, case) == spec_enum_blocks(b, case),
    decreases a.len(),
{
    if a.len() > 0 {
        assert(record_equiv(a[a.len() - 1], b[a.len() - 1]));
        lemma_block_equiv(a.last(), b.last(), case);
        assert forall|k: int|
            0 <= k < a.drop_last().len() implies record_equiv(
            #[trigger] a.drop_last()[k],
            #[trigger] b.drop_last()[k],
        ) by {
            assert(record_equiv(a[k], b[k]));
        }
        lemma_enum_blocks_equiv(a.drop_last(), b.drop_last(), case);
    }
}

/// Equivalent dependent lists render byte-identical blocks in one order.
proof fn lemma_ordered_blocks_equiv(
    a: Seq<TypeHolder>,
    b: Seq<TypeHolder>,
    order: Seq<usize>,
    case: TypeCases,
)
    requires
        a.len() == b.len(),
        forall|m: int| 0 <= m < a.len() ==> holder_equiv(#[trigger] a[m], #[trigger] b[m]),
    ensures
        spec_ordered_blocks(a, order, case) == spec_ordered_blocks(b, order, case),
    decreases order.len(),
{
    if order.len() > 0 {
        if (order.last() as int) < a.len() {
            assert(holder_equiv(a[order.last() as int], b[order.last() as int]));
            lemma_block_equiv(
                record_of(a[order.last() as int]),
                record_of(b[order.last() as int]),
                case,
            );
        }
        lemma_ordered_blocks_equiv(a, b, order.drop_last(), case);
    }
}

/// Two parameter declarations carry the same text.
pub open spec fn param_equiv(a: crate::extract::ParamDecl, b: crate::extract::ParamDecl) -> bool {
    match (a, b) {
        (crate::extract::ParamDecl::Receiver, crate::extract::ParamDecl::Receiver) => true,
        (crate::extract::ParamDecl::Typed(x), crate::extract::ParamDecl::Typed(y)) => x@ == y@,
        _ => false,
    }
}

/// Two return path segments carry the same text.
pub open spec fn segment_equiv(
    a: crate::extract::RetSegment,
    b: crate::extract::RetSegment,
) -> bool {
    a.ident@ == b.ident@ && strings_view(a.args@) == strings_view(b.args@)
}

/// Two operation declarations carry the same text and marker facts.
pub open spec fn method_decl_equiv(a: MethodDecl, b: MethodDecl) -> bool {
    &&& a.name@ == b.name@
    &&& a.is_marked == b.is_marked
    &&& a.is_constructor == b.is_constructor
    &&& strings_view(a.docs@) == strings_view(b.docs@)
    &&& strings_view(a.sig_tokens@) == strings_view(b.sig_tokens@)
    &&& a.params@.len() == b.params@.len()
    &&& (forall|k: int| 0 <= k < a.params@.len() ==> param_equiv(#[trigger] a.params@[k], #[trigger] b.params@[k]))
    &&& a.ret_segments@.len() == b.ret_segments@.len()
    &&& (forall|k: int|
        0 <= k < a.ret_segments@.len() ==> segment_equiv(
            #[trigger] a.ret_segments@[k],
            #[trigger] b.ret_segments@[k],
        ))
}

/// Two operation declaration lists carry the same text, method for method.
pub open spec fn methods_equiv(a: Seq<MethodDecl>, b: Seq<MethodDecl>) -> bool {
    &&& a.len() == b.len()
    &&& forall|k: int| 0 <= k < a.len() ==> method_decl_equiv(#[trigger] a[k], #[trigger] b[k])
}

/// Two scanned declarations carry the same text and marker facts.
pub open spec fn source_item_equiv(a: SourceItem, b: SourceItem) -> bool {
    match (a, b) {
        (
            SourceItem::StructDecl { name: n1, is_doc_marked: m1, docs: d1 },
            SourceItem::StructDecl { name: n2, is_doc_marked: m2, docs: d2 },
        ) => n1@ == n2@ && m1 == m2 && strings_view(d1@) == strings_view(d2@),
        (
            SourceItem::FreeFn { name: n1, is_marked: m1 },
            SourceItem::FreeFn { name: n2, is_marked: m2 },
        ) => n1@ == n2@ && m1 == m2,
        (
            SourceItem::ImplBlock { self_name: s1, methods: ms1 },
            SourceItem::ImplBlock { self_name: s2, methods: ms2 },
        ) => {
            &&& match (s1, s2) {
                (Option::Some(x), Option::Some(y)) => x@ == y@,
                (Option::None, Option::None) => true,
                _ => false,
            }
            &&& methods_equiv(ms1@, ms2@)
        },
        (
            SourceItem::EnumDecl { name: n1, is_marked: m1, docs: d1, variants: v1 },
            SourceItem::EnumDecl { name: n2, is_marked: m2, docs: d2, variants: v2 },
        ) => {
            &&& n1@ == n2@
            &&& m1 == m2
            &&& strings_view(d1@) == strings_view(d2@)
            &&& v1@.len() == v2@.len()
            &&& (forall|k: int|
                0 <= k < v1@.len() ==> (#[trigger] v1@[k]).name@ == (#[trigger] v2@[k]).name@
                    && strings_view(v1@[k].docs@) == strings_view(v2@[k].docs@))
        },
        (
            SourceItem::TraitDecl { name: n1, is_marked: m1, docs: d1, methods: ms1 },
            SourceItem::TraitDecl { name: n2, is_marked: m2, docs: d2, methods: ms2 },
        ) => n1@ == n2@ && m1 == m2 && strings_view(d1@) == strings_view(d2@) && methods_equiv(
            ms1@,
            ms2@,
        ),
        (SourceItem::Other, SourceItem::Other) => true,
        _ => false,
    }
}

/// Two scanned declaration lists carry the same text.
pub open spec fn source_items_equiv(a: Seq<SourceItem>, b: Seq<SourceItem>) -> bool {
    &&& a.len() == b.len()
    &&& forall|k: int| 0 <= k < a.len() ==> source_item_equiv(#[trigger] a[k], #[trigger] b[k])
}

/// Two run outcomes agree: both succeed, or both fail the same way over the
/// same name.
pub open spec fn result_equiv(a: Result<(), ConfigError>, b: Result<(), ConfigError>) -> bool {
    match (a, b) {
        (Result::Ok(_), Result::Ok(_)) => true,
        (Result::Err(e1), Result::Err(e2)) => match (e1, e2) {
            (ConfigError::DuplicateType(n1), ConfigError::DuplicateType(n2)) => n1@ == n2@,
            (
                ConfigError::FreeStandingOperation(n1),
                ConfigError::FreeStandingOperation(n2),
            ) => n1@ == n2@,
            (ConfigError::ShapeConflict(n1), ConfigError::ShapeConflict(n2)) => n1@ == n2@,
            _ => false,
        },
        _ => false,
    }
}

/// The views of a concatenation are the concatenated views.
proof fn lemma_strings_view_concat(a: Seq<String>, b: Seq<String>)
    ensures
        strings_view(a + b) == strings_view(a) + strings_view(b),
{
    assert(strings_view(a + b) =~= strings_view(a) + strings_view(b));
}

/// Equivalent parameter lists simplify to the same type names.
proof fn lemma_param_types_equiv(
    a: Seq<crate::extract::ParamDecl>,
    b: Seq<crate::extract::ParamDecl>,
)
    requires
        a.len() == b.len(),
        forall|k: int| 0 <= k < a.len() ==> param_equiv(#[trigger] a[k], #[trigger] b[k]),
    ensures
        crate::extract::spec_param_types(a) == crate::extract::spec_param_types(b),
    decreases a.len(),
{
    if a.len() > 0 {
        assert(param_equiv(a[a.len() - 1], b[a.len() - 1]));
        assert forall|k: int|
            0 <= k < a.drop_last().len() implies param_equiv(
            #[trigger] a.drop_last()[k],
            #[trigger] b.drop_last()[k],
        ) by {
            assert(param_equiv(a[k], b[k]));
        }
        lemma_param_types_equiv(a.drop_last(), b.drop_last());
    }
}

/// Equivalent return paths contribute the same names.
proof fn lemma_return_types_equiv(
    a: Seq<crate::extract::RetSegment>,
    b: Seq<crate::extract::RetSegment>,
)
    requires
        a.len() == b.len(),
        forall|k: int| 0 <= k < a.len() ==> segment_equiv(#[trigger] a[k], #[trigger] b[k]),
    ensures
        crate::extract::spec_return_types(a) == crate::extract::spec_return_types(b),
    decreases a.len(),
{
    if a.len() > 0 {
        assert(segment_equiv(a[a.len() - 1], b[a.len() - 1]));
        assert forall|k: int|
            0 <= k < a.drop_last().len() implies segment_equiv(
            #[trigger] a.drop_last()[k],
            #[trigger] b.drop_last()[k],
        ) by {
            assert(segment_equiv(a[k], b[k]));
        }
        lemma_return_types_equiv(a.drop_last(), b.drop_last());
        assert(crate::extract::spec_segment_types(a.last()) == crate::extract::spec_segment_types(
            b.last(),
        ));
    }
}

/// Extractions of equivalent operation declarations are equivalent records.
proof fn lemma_extracted_equiv(
    it1: ItemInfo,
    it2: ItemInfo,
    m1: MethodDecl,
    m2: MethodDecl,
    ctor: bool,
)
    requires
        extracted_item_ok(it1, m1, ctor),
        extracted_item_ok(it2, m2, ctor),
        method_decl_equiv(m1, m2),
    ensures
        item_equiv(it1, it2),
{
    lemma_param_types_equiv(m1.params@, m2.params@);
    lemma_return_types_equiv(m1.ret_segments@, m2.ret_segments@);
}

/// Equivalent enumeration lists resolve every name to the same index.
proof fn lemma_enum_name_index_equiv(
    a: Seq<TypeRecord>,
    b: Seq<TypeRecord>,
    name: Seq<char>,
    k: int,
)
    requires
        a.len() == b.len(),
        forall|m: int| 0 <= m < a.len() ==> record_equiv(#[trigger] a[m], #[trigger] b[m]),
    ensures
        enum_name_index_from(a, name, k) == enum_name_index_from(b, name, k),
    decreases a.len() - k,
{
    if 0 <= k < a.len() {
        assert(record_equiv(a[k], b[k]));
        lemma_enum_name_index_equiv(a, b, name, k + 1);
    }
}

/// Registering equivalent type declarations in equivalent registries ends
/// equivalently.
proof fn lemma_struct_decl_det(
    p1: ItemsHolder,
    q1: ItemsHolder,
    p2: ItemsHolder,
    q2: ItemsHolder,
    name: Seq<char>,
    docs1: Seq<String>,
    docs2: Seq<String>,
    r1: Result<(), ConfigError>,
    r2: Result<(), ConfigError>,
)
    requires
        registry_equiv(p1, p2),
        strings_view(docs1) == strings_view(docs2),
        struct_decl_outcome(p1, q1, name, docs1, r1),
        struct_decl_outcome(p2, q2, name, docs2, r2),
    ensures
        registry_equiv(q1, q2),
        result_equiv(r1, r2),
{
    lemma_name_index_equiv(p1.list@, p2.list@, name, 0);
    lemma_enum_name_index_equiv(p1.enums_list@, p2.enums_list@, name, 0);
    lemma_name_index_from_props(p1.list@, name, 0);
    let li = name_index(p1.list@, name);
    if li >= 0 {
        assert(0 <= li < p1.list@.len());
        assert(holder_equiv(p1.list@[li], p2.list@[li]));
    }
    match (r1, r2) {
        (Result::Ok(_), Result::Ok(_)) => {
            if li >= 0 {
                let rec1 = record_of(p1.list@[li]);
                let rec2 = record_of(p2.list@[li]);
                lemma_strings_view_concat(rec1.docs@, docs1);
                lemma_strings_view_concat(rec2.docs@, docs2);
                assert forall|k: int|
                    0 <= k < q1.list@.len() implies holder_equiv(
                    #[trigger] q1.list@[k],
                    #[trigger] q2.list@[k],
                ) by {
                    if k != li {
                        assert(holder_equiv(p1.list@[k], p2.list@[k]));
                    }
                }
            } else {
                assert forall|k: int|
                    0 <= k < q1.list@.len() implies holder_equiv(
                    #[trigger] q1.list@[k],
                    #[trigger] q2.list@[k],
                ) by {
                    if k < p1.list@.len() {
                        assert(holder_equiv(p1.list@[k], p2.list@[k]));
                    } else {
                        assert(strings_view(Seq::<String>::empty())
                            =~= Seq::<Seq<char>>::empty());
                    }
                }
            }
        }
        (Result::Err(_), Result::Err(_)) => {
        }
        _ => {
        }
    }
}

/// Registering equivalent operations in equivalent registries ends
/// equivalently.
proof fn lemma_operation_det(
    p1: ItemsHolder,
    q1: ItemsHolder,
    p2: ItemsHolder,
    q2: ItemsHolder,
    name: Seq<char>,
    it1: ItemInfo,
    it2: ItemInfo,
    r1: Result<(), ConfigError>,
    r2: Result<(), ConfigError>,
)
    requires
        registry_equiv(p1, p2),
        item_equiv(it1, it2),
        operation_outcome(p1, q1, name, it1, r1),
        operation_outcome(p2, q2, name, it2, r2),
    ensures
        registry_equiv(q1, q2),
        result_equiv(r1, r2),
{
    lemma_name_index_equiv(p1.list@, p2.list@, name, 0);
    lemma_enum_name_index_equiv(p1.enums_list@, p2.enums_list@, name, 0);
    lemma_name_index_from_props(p1.list@, name, 0);
    let li = name_index(p1.list@, name);
    if li >= 0 {
        assert(0 <= li < p1.list@.len());
        assert(holder_equiv(p1.list@[li], p2.list@[li]));
    }
    match (r1, r2) {
        (Result::Ok(_), Result::Ok(_)) => {
            if li >= 0 {
                let rec1 = record_of(p1.list@[li]);
                let rec2 = record_of(p2.list@[li]);
                assert forall|k: int|
                    0 <= k < q1.list@.len() implies holder_equiv(
                    #[trigger] q1.list@[k],
                    #[trigger] q2.list@[k],
                ) by {
                    if k != li {
                        assert(holder_equiv(p1.list@[k], p2.list@[k]));
                    } else {
                        assert forall|m: int|
                            0 <= m < rec1.extras@.push(it1).len() implies item_equiv(
                            #[trigger] rec1.extras@.push(it1)[m],
                            #[trigger] rec2.extras@.push(it2)[m],
                        ) by {
                            if m < rec1.extras@.len() {
                                assert(item_equiv(rec1.extras@[m], rec2.extras@[m]));
                            }
                        }
                    }
                }
            } else {
                assert forall|k: int|
                    0 <= k < q1.list@.len() implies holder_equiv(
                    #[trigger] q1.list@[k],
                    #[trigger] q2.list@[k],
                ) by {
                    if k < p1.list@.len() {
                        assert(holder_equiv(p1.list@[k], p2.list@[k]));
                    } else {
                        assert(strings_view(record_of(q1.list@[k]).docs@)
                            =~= Seq::<Seq<char>>::empty());
                        assert(strings_view(record_of(q2.list@[k]).docs@)
                            =~= Seq::<Seq<char>>::empty());
                        assert(record_of(q1.list@[k]).extras@ == seq![it1]);
                        assert(record_of(q2.list@[k]).extras@ == seq![it2]);
                        assert forall|m: int|
                            0 <= m < 1 implies item_equiv(
                            #[trigger] record_of(q1.list@[k]).extras@[m],
                            #[trigger] record_of(q2.list@[k]).extras@[m],
                        ) by {
                            assert(record_of(q1.list@[k]).extras@[0] == it1);
                        }
                    }
                }
            }
        }
        (Result::Err(_), Result::Err(_)) => {
        }
        _ => {
        }
    }
}

/// Registering equivalent Contract-like declarations in equivalent
/// registries ends equivalently.
proof fn lemma_trait_decl_det(
    p1: ItemsHolder,
    q1: ItemsHolder,
    p2: ItemsHolder,
    q2: ItemsHolder,
    rec1: TypeRecord,
    rec2: TypeRecord,
    r1: Result<(), ConfigError>,
    r2: Result<(), ConfigError>,
)
    requires
        registry_equiv(p1, p2),
        record_equiv(rec1, rec2),
        !(rec1.type_ matches Types::Struct),
        trait_decl_outcome(p1, q1, rec1, r1),
        trait_decl_outcome(p2, q2, rec2, r2),
    ensures
        registry_equiv(q1, q2),
        result_equiv(r1, r2),
{
    lemma_name_index_equiv(p1.list@, p2.list@, rec1.name@, 0);
    lemma_enum_name_index_equiv(p1.enums_list@, p2.enums_list@, rec1.name@, 0);
    match (r1, r2) {
        (Result::Ok(_), Result::Ok(_)) => {
            assert forall|k: int|
                0 <= k < q1.list@.len() implies holder_equiv(
                #[trigger] q1.list@[k],
                #[trigger] q2.list@[k],
            ) by {
                if k < p1.list@.len() {
                    assert(holder_equiv(p1.list@[k], p2.list@[k]));
                }
            }
        }
        (Result::Err(_), Result::Err(_)) => {
        }
        _ => {
        }
    }
}

/// Registering equivalent Enumeration declarations in equivalent registries
/// ends equivalently.
proof fn lemma_enum_decl_det(
    p1: ItemsHolder,
    q1: ItemsHolder,
    p2: ItemsHolder,
    q2: ItemsHolder,
    rec1: TypeRecord,
    rec2: TypeRecord,
    r1: Result<(), ConfigError>,
    r2: Result<(), ConfigError>,
)
    requires
        registry_equiv(p1, p2),
        record_equiv(rec1, rec2),
        enum_decl_outcome(p1, q1, rec1, r1),
        enum_decl_outcome(p2, q2, rec2, r2),
    ensures
        registry_equiv(q1, q2),
        result_equiv(r1, r2),
{
    lemma_name_index_equiv(p1.list@, p2.list@, rec1.name@, 0);
    lemma_enum_name_index_equiv(p1.enums_list@, p2.enums_list@, rec1.name@, 0);
    match (r1, r2) {
        (Result::Ok(_), Result::Ok(_)) => {
            assert forall|k: int|
                0 <= k < q1.enums_list@.len() implies record_equiv(
                #[trigger] q1.enums_list@[k],
                #[trigger] q2.enums_list@[k],
            ) by {
                if k < p1.enums_list@.len() {
                    assert(record_equiv(p1.enums_list@[k], p2.enums_list@[k]));
                }
            }
        }
        (Result::Err(_), Result::Err(_)) => {
        }
        _ => {
        }
    }
}

/// Walking equivalent operation lists over equivalent registries ends
/// equivalently.
proof fn lemma_impl_det(
    p1: ItemsHolder,
    q1: ItemsHolder,
    p2: ItemsHolder,
    q2: ItemsHolder,
    name: Seq<char>,
    ms1: Seq<MethodDecl>,
    ms2: Seq<MethodDecl>,
    r1: Result<(), ConfigError>,
    r2: Result<(), ConfigError>,
)
    requires
        registry_equiv(p1, p2),
        methods_equiv(ms1, ms2),
        impl_outcome(p1, q1, name, ms1, r1),
        impl_outcome(p2, q2, name, ms2, r2),
    ensures
        registry_equiv(q1, q2),
        result_equiv(r1, r2),
    decreases ms1.len(),
{
    if ms1.len() == 0 {
    } else {
        assert(method_decl_equiv(ms1[0], ms2[0]));
        assert forall|k: int|
            0 <= k < ms1.skip(1).len() implies method_decl_equiv(
            #[trigger] ms1.skip(1)[k],
            #[trigger] ms2.skip(1)[k],
        ) by {
            assert(method_decl_equiv(ms1[k + 1], ms2[k + 1]));
        }
        if !ms1[0].is_marked {
            lemma_impl_det(p1, q1, p2, q2, name, ms1.skip(1), ms2.skip(1), r1, r2);
        } else {
            let (it1, step1, mid1): (ItemInfo, Result<(), ConfigError>, ItemsHolder) = choose|
                it: ItemInfo,
                step: Result<(), ConfigError>,
                mid: ItemsHolder,
            |
                {
                    &&& #[trigger] operation_outcome(p1, mid, name, it, step)
                    &&& extracted_item_ok(it, ms1[0], ms1[0].is_constructor)
                    &&& match step {
                        Result::Ok(_) => impl_outcome(mid, q1, name, ms1.skip(1), r1),
                        Result::Err(_) => q1 == mid && r1 == step,
                    }
                };
            let (it2, step2, mid2): (ItemInfo, Result<(), ConfigError>, ItemsHolder) = choose|
                it: ItemInfo,
                step: Result<(), ConfigError>,
                mid: ItemsHolder,
            |
                {
                    &&& #[trigger] operation_outcome(p2, mid, name, it, step)
                    &&& extracted_item_ok(it, ms2[0], ms2[0].is_constructor)
                    &&& match step {
                        Result::Ok(_) => impl_outcome(mid, q2, name, ms2.skip(1), r2),
                        Result::Err(_) => q2 == mid && r2 == step,
                    }
                };
            lemma_extracted_equiv(it1, it2, ms1[0], ms2[0], ms1[0].is_constructor);
            lemma_operation_det(p1, mid1, p2, mid2, name, it1, it2, step1, step2);
            match (step1, step2) {
                (Result::Ok(_), Result::Ok(_)) => {
                    lemma_impl_det(mid1, q1, mid2, q2, name, ms1.skip(1), ms2.skip(1), r1, r2);
                }
                (Result::Err(_), Result::Err(_)) => {
                }
                _ => {
                }
            }
        }
    }
}

/// Registering equivalent scanned declarations in equivalent registries
/// ends equivalently.
proof fn lemma_process_det(
    p1: ItemsHolder,
    q1: ItemsHolder,
    p2: ItemsHolder,
    q2: ItemsHolder,
    item1: SourceItem,
    item2: SourceItem,
    r1: Result<(), ConfigError>,
    r2: Result<(), ConfigError>,
)
    requires
        registry_equiv(p1, p2),
        source_item_equiv(item1, item2),
        process_outcome(p1, q1, item1, r1),
        process_outcome(p2, q2, item2, r2),
    ensures
        registry_equiv(q1, q2),
        result_equiv(r1, r2),
{
    match (item1, item2) {
        (
            SourceItem::StructDecl { name: n1, is_doc_marked: m1, docs: d1 },
            SourceItem::StructDecl { name: n2, is_doc_marked: m2, docs: d2 },
        ) => {
            if m1 {
                lemma_struct_decl_det(p1, q1, p2, q2, n1@, d1@, d2@, r1, r2);
            }
        }
        (
            SourceItem::FreeFn { name: n1, is_marked: m1 },
            SourceItem::FreeFn { name: n2, is_marked: m2 },
        ) => {
        }
        (
            SourceItem::ImplBlock { self_name: s1, methods: ms1 },
            SourceItem::ImplBlock { self_name: s2, methods: ms2 },
        ) => {
            match (s1, s2) {
                (Option::Some(x1), Option::Some(x2)) => {
                    lemma_impl_det(p1, q1, p2, q2, x1@, ms1@, ms2@, r1, r2);
                }
                _ => {
                }
            }
        }
        (
            SourceItem::EnumDecl { name: n1, is_marked: m1, docs: d1, variants: v1 },
            SourceItem::EnumDecl { name: n2, is_marked: m2, docs: d2, variants: v2 },
        ) => {
            if m1 {
                let rec1: TypeRecord = choose|rec: TypeRecord|
                    {
                        &&& #[trigger] enum_decl_outcome(p1, q1, rec, r1)
                        &&& rec.name@ == n1@
                        &&& rec.type_ matches Types::Enum
                        &&& strings_view(rec.docs@) == strings_view(d1@)
                        &&& variant_items_ok(rec.extras@, v1@)
                    };
                let rec2: TypeRecord = choose|rec: TypeRecord|
                    {
                        &&& #[trigger] enum_decl_outcome(p2, q2, rec, r2)
                        &&& rec.name@ == n2@
                        &&& rec.type_ matches Types::Enum
                        &&& strings_view(rec.docs@) == strings_view(d2@)
                        &&& variant_items_ok(rec.extras@, v2@)
                    };
                assert(record_equiv(rec1, rec2)) by {
                    assert forall|k: int|
                        0 <= k < rec1.extras@.len() implies item_equiv(
                        #[trigger] rec1.extras@[k],
                        #[trigger] rec2.extras@[k],
                    ) by {
                        assert(v1@[k].name@ == v2@[k].name@);
                    }
                }
                lemma_enum_decl_det(p1, q1, p2, q2, rec1, rec2, r1, r2);
            }
        }
        (
            SourceItem::TraitDecl { name: n1, is_marked: m1, docs: d1, methods: ms1 },
            SourceItem::TraitDecl { name: n2, is_marked: m2, docs: d2, methods: ms2 },
        ) => {
            if m1 {
                let rec1: TypeRecord = choose|rec: TypeRecord|
                    {
                        &&& #[trigger] trait_decl_outcome(p1, q1, rec, r1)
                        &&& rec.name@ == n1@
                        &&& rec.type_ matches Types::Trait
                        &&& strings_view(rec.docs@) == strings_view(d1@)
                        &&& trait_items_ok(rec.extras@, ms1@)
                    };
                let rec2: TypeRecord = choose|rec: TypeRecord|
                    {
                        &&& #[trigger] trait_decl_outcome(p2, q2, rec, r2)
                        &&& rec.name@ == n2@
                        &&& rec.type_ matches Types::Trait
                        &&& strings_view(rec.docs@) == strings_view(d2@)
                        &&& trait_items_ok(rec.extras@, ms2@)
                    };
                assert(record_equiv(rec1, rec2)) by {
                    assert forall|k: int|
                        0 <= k < rec1.extras@.len() implies item_equiv(
                        #[trigger] rec1.extras@[k],
                        #[trigger] rec2.extras@[k],
                    ) by {
                        assert(extracted_item_ok(rec1.extras@[k], ms1@[k], false));
                        assert(extracted_item_ok(rec2.extras@[k], ms2@[k], false));
                        assert(method_decl_equiv(ms1@[k], ms2@[k]));
                        lemma_extracted_equiv(
                            rec1.extras@[k],
                            rec2.extras@[k],
                            ms1@[k],
                            ms2@[k],
                            false,
                        );
                    }
                }
                lemma_trait_decl_det(p1, q1, p2, q2, rec1, rec2, r1, r2);
            }
        }
        (SourceItem::Other, SourceItem::Other) => {
        }
        _ => {
            assert(false);
        }
    }
}

/// Scanning equivalent declaration lists over equivalent registries ends
/// equivalently.
pub proof fn lemma_scan_det(
    p1: ItemsHolder,
    q1: ItemsHolder,
    p2: ItemsHolder,
    q2: ItemsHolder,
    items1: Seq<SourceItem>,
    items2: Seq<SourceItem>,
    r1: Result<(), ConfigError>,
    r2: Result<(), ConfigError>,
)
    requires
        registry_equiv(p1, p2),
        source_items_equiv(items1, items2),
        registry_scan(p1, q1, items1, r1),
        registry_scan(p2, q2, items2, r2),
    ensures
        registry_equiv(q1, q2),
        result_equiv(r1, r2),
    decreases items1.len(),
{
    if items1.len() == 0 {
    } else {
        assert(source_item_equiv(items1[0], items2[0]));
        assert forall|k: int|
            0 <= k < items1.skip(1).len() implies source_item_equiv(
            #[trigger] items1.skip(1)[k],
            #[trigger] items2.skip(1)[k],
        ) by {
            assert(source_item_equiv(items1[k + 1], items2[k + 1]));
        }
        let (step1, mid1): (Result<(), ConfigError>, ItemsHolder) = choose|
            step: Result<(), ConfigError>,
            mid: ItemsHolder,
        |
            {
                &&& #[trigger] process_outcome(p1, mid, items1[0], step)
                &&& mid.wf()
                &&& match step {
                    Result::Ok(_) => registry_scan(mid, q1, items1.skip(1), r1),
                    Result::Err(_) => q1 == mid && r1 == step,
                }
            };
        let (step2, mid2): (Result<(), ConfigError>, ItemsHolder) = choose|
            step: Result<(), ConfigError>,
            mid: ItemsHolder,
        |
            {
                &&& #[trigger] process_outcome(p2, mid, items2[0], step)
                &&& mid.wf()
                &&& match step {
                    Result::Ok(_) => registry_scan(mid, q2, items2.skip(1), r2),
                    Result::Err(_) => q2 == mid && r2 == step,
                }
            };
        lemma_process_det(p1, mid1, p2, mid2, items1[0], items2[0], step1, step2);
        match (step1, step2) {
            (Result::Ok(_), Result::Ok(_)) => {
                lemma_scan_det(mid1, q1, mid2, q2, items1.skip(1), items2.skip(1), r1, r2);
            }
            (Result::Err(_), Result::Err(_)) => {
            }
            _ => {
            }
        }
    }
}

/// Idempotence, end to end: two runs over unchanged input and configuration
/// produce byte-identical output. The two runs each scan a declaration list
/// carrying the same text from an empty registry; whenever both succeed,
/// the rendered texts are equal character for character.
pub proof fn lemma_runs_idempotent(
    h01: ItemsHolder,
    h1: ItemsHolder,
    items1: Seq<SourceItem>,
    rr1: Result<(), ConfigError>,
    h02: ItemsHolder,
    h2: ItemsHolder,
    items2: Seq<SourceItem>,
    rr2: Result<(), ConfigError>,
    language: Language,
    case: TypeCases,
    t1: Seq<char>,
    t2: Seq<char>,
)
    requires
        source_items_equiv(items1, items2),
        h01.list@.len() == 0,
        h01.enums_list@.len() == 0,
        h01.final_list@.len() == 0,
        h02.list@.len() == 0,
        h02.enums_list@.len() == 0,
        h02.final_list@.len() == 0,
        registry_scan(h01, h1, items1, rr1),
        registry_scan(h02, h2, items2, rr2),
        rr1 matches Result::Ok(_),
        rr2 matches Result::Ok(_),
        t1 == spec_output(h1, language, case),
        t2 == spec_output(h2, language, case),
    ensures
        t1 == t2,
{
    assert(registry_equiv(h01, h02)) by {
        assert(h01.final_list@ =~= h02.final_list@);
    }
    lemma_scan_det(h01, h1, h02, h2, items1, items2, rr1, rr2);
    lemma_output_equiv(h1, h2, language, case);
}

} // verus!
