//! The type/size resolver: computes, for every definition of a module, its
//! exact bit width and byte-rounded footprint, validates that every custom
//! type reference names an existing definition, detects reference cycles, and
//! produces a dependency-respecting emission order.
//!
//! The mathematical model: a size assignment maps definition names to bit
//! widths. [`sizes_consistent`] says that an assignment agrees with the sum
//! of the effective field widths of every definition it covers, and
//! [`is_dependency_order`] says that a name sequence lists every definition
//! after all definitions it references. A consistent, complete assignment
//! together with such an order pins the widths down uniquely
//! ([`lemma_resolution_unique`]), independently of the textual order of the
//! definitions ([`lemma_resolution_order_independent`]).

use vstd::prelude::*;
use vstd::seq_lib::*;
use vstd::set_lib::*;
use crate::ast::{Definition, Field, OnyxModule, Type, find_def, find_def_from, lemma_find_def_name};
use crate::generators::CompileError;
use crate::text::str_eq_str;

verus! {

// ------------------------------------------------------------------
// Spec model: references and widths
// ------------------------------------------------------------------

/// The custom type name a field depends on, if any: a field with an explicit
/// bit-field width occupies that width and depends on nothing.
pub open spec fn field_ref(f: Field) -> Option<Seq<char>> {
    match f.bit_field_size {
        Some(_) => None,
        None => match f.type_info {
            Type::Primitive(_) => None,
            Type::Custom(c) => Some(c@),
        },
    }
}

/// The fields of a definition; enums have none.
pub open spec fn def_fields(d: Definition) -> Seq<Field> {
    match d {
        Definition::Struct(s) => s.fields@,
        Definition::Message(m) => m.fields@,
        Definition::Enum(_) => Seq::empty(),
    }
}

/// Whether definition `d` references the name `n` through one of its fields.
pub open spec fn refers_to(d: Definition, n: Seq<char>) -> bool {
    exists|i: int| 0 <= i < def_fields(d).len() && field_ref(def_fields(d)[i]) == Some(n)
}

/// The effective bit width of a field with respect to a size assignment `s`:
/// the explicit bit-field width if present, else the natural width of a
/// primitive type, else the assigned width of the referenced name.
pub open spec fn field_width_wrt(f: Field, s: Map<Seq<char>, nat>) -> nat {
    match f.bit_field_size {
        Some(x) => x as nat,
        None => match f.type_info {
            Type::Primitive(p) => p.spec_bit_width(),
            Type::Custom(c) => s[c@],
        },
    }
}

/// The summed effective bit width of the first `k` fields.
pub open spec fn fields_width_prefix(fs: Seq<Field>, k: int, s: Map<Seq<char>, nat>) -> nat
    decreases k,
{
    if k <= 0 {
        0
    } else {
        fields_width_prefix(fs, k - 1, s) + field_width_wrt(fs[k - 1], s)
    }
}

/// The bit width of a definition with respect to a size assignment: an enum
/// is as wide as its underlying type; a struct or message is the sum of the
/// effective widths of its fields.
pub open spec fn def_width_wrt(d: Definition, s: Map<Seq<char>, nat>) -> nat {
    match d {
        Definition::Enum(e) => e.underlying_type.spec_bit_width(),
        _ => fields_width_prefix(def_fields(d), def_fields(d).len() as int, s),
    }
}

/// Whether every custom reference among the first `k` fields lies in `dom`.
pub open spec fn fields_prefix_refs_in(fs: Seq<Field>, k: int, dom: Set<Seq<char>>) -> bool {
    forall|i: int|
        0 <= i < k ==> (#[trigger] field_ref(fs[i]) matches Some(r) ==> dom.contains(r))
}

/// Whether every custom reference of `d` lies in `dom`.
pub open spec fn def_refs_in(d: Definition, dom: Set<Seq<char>>) -> bool {
    fields_prefix_refs_in(def_fields(d), def_fields(d).len() as int, dom)
}

/// A size assignment is consistent when every name it covers is defined, all
/// references of that definition are covered too, and the assigned width is
/// the definition's width with respect to the assignment itself.
pub open spec fn sizes_consistent(defs: Seq<Definition>, s: Map<Seq<char>, nat>) -> bool {
    forall|n: Seq<char>|
        #[trigger] s.dom().contains(n) ==> (find_def(defs, n) matches Some(d) && def_refs_in(
            d,
            s.dom(),
        ) && s[n] == def_width_wrt(d, s))
}

/// A size assignment is complete when it covers every defined name.
pub open spec fn sizes_complete(defs: Seq<Definition>, s: Map<Seq<char>, nat>) -> bool {
    forall|n: Seq<char>| #[trigger] find_def(defs, n) is Some ==> s.dom().contains(n)
}

// ------------------------------------------------------------------
// Spec model: dependency order, cycles, undefined references
// ------------------------------------------------------------------

/// The views of a sequence of strings.
pub open spec fn names_of(ss: Seq<String>) -> Seq<Seq<char>> {
    ss.map_values(|s: String| s@)
}

/// Every listed name is defined, and every reference of its definition
/// appears strictly earlier in the list.
pub open spec fn is_dependency_order(defs: Seq<Definition>, ord: Seq<Seq<char>>) -> bool {
    forall|i: int|
        0 <= i < ord.len() ==> (#[trigger] find_def(defs, ord[i]) matches Some(d) && forall|
            n: Seq<char>,
        |
            refers_to(d, n) ==> exists|j: int| 0 <= j < i && ord[j] == n)
}

/// Every defined name occurs in the order.
pub open spec fn order_covers(defs: Seq<Definition>, ord: Seq<Seq<char>>) -> bool {
    forall|n: Seq<char>| #[trigger] find_def(defs, n) is Some ==> ord.contains(n)
}

/// A non-empty sequence of defined names in which every definition references
/// the next name, cyclically.
pub open spec fn is_reference_cycle(defs: Seq<Definition>, ns: Seq<Seq<char>>) -> bool {
    ns.len() > 0 && forall|i: int|
        0 <= i < ns.len() ==> (#[trigger] find_def(defs, ns[i]) matches Some(d) && refers_to(
            d,
            ns[(i + 1) % (ns.len() as int)],
        ))
}

/// Whether the reference graph of the module contains a cycle.
pub open spec fn has_reference_cycle(defs: Seq<Definition>) -> bool {
    exists|ns: Seq<Seq<char>>| is_reference_cycle(defs, ns)
}

/// Definition `n` exists and references the name `r`, which is not defined
/// anywhere in the module.
pub open spec fn undefined_ref_witness(defs: Seq<Definition>, n: Seq<char>, r: Seq<char>) -> bool {
    find_def(defs, n) matches Some(d) && refers_to(d, r) && find_def(defs, r) is None
}

/// Whether some definition references a name that is not defined anywhere in
/// the module.
pub open spec fn has_undefined_reference(defs: Seq<Definition>) -> bool {
    exists|n: Seq<char>, r: Seq<char>| #[trigger] undefined_ref_witness(defs, n, r)
}

/// Under the consistent partial assignment `s`, the first `k` fields of the
/// definition named `n` already sum past `usize::MAX` bits.
pub open spec fn width_exceeds_witness(
    defs: Seq<Definition>,
    s: Map<Seq<char>, nat>,
    n: Seq<char>,
    k: int,
) -> bool {
    sizes_consistent(defs, s) && (find_def(defs, n) matches Some(d) && 0 <= k <= def_fields(
        d,
    ).len() && fields_prefix_refs_in(def_fields(d), k, s.dom()) && fields_width_prefix(
        def_fields(d),
        k,
        s,
    ) > usize::MAX)
}

/// Whether, under some consistent partial assignment, a prefix of some
/// definition's fields already sums past `usize::MAX` bits, so that the
/// resolved width cannot be represented.
pub open spec fn some_width_exceeds(defs: Seq<Definition>) -> bool {
    exists|s: Map<Seq<char>, nat>, n: Seq<char>, k: int|
        #[trigger] width_exceeds_witness(defs, s, n, k)
}

/// The byte footprint of a bit width: the width rounded up to whole bytes.
pub open spec fn spec_byte_width(bits: nat) -> nat {
    (bits + 7) / 8
}

// ------------------------------------------------------------------
// The size table
// ------------------------------------------------------------------

/// One resolved definition: its name, exact bit width, and byte footprint.
#[derive(Debug, PartialEq)]
pub struct SizeEntry {
    /// The definition's name.
    pub name: String,
    /// The exact bit width.
    pub bits: usize,
    /// The bit width rounded up to whole bytes.
    pub bytes: usize,
}

/// The resolver's output: one entry per definition, in dependency order —
/// every entry comes after the entries of all definitions it references.
#[derive(Debug, PartialEq)]
pub struct SizeTable {
    /// The resolved entries, in dependency order.
    pub entries: Vec<SizeEntry>,
}

/// The first entry with the given name at or after index `i`.
pub open spec fn find_entry_from(es: Seq<SizeEntry>, name: Seq<char>, i: int) -> Option<SizeEntry>
    decreases es.len() - i,
{
    if i < 0 || i >= es.len() {
        None
    } else if es[i].name@ == name {
        Some(es[i])
    } else {
        find_entry_from(es, name, i + 1)
    }
}

/// The entry with the given name, if any.
pub open spec fn find_entry(es: Seq<SizeEntry>, name: Seq<char>) -> Option<SizeEntry> {
    find_entry_from(es, name, 0)
}

/// The names of the entries, in table order.
pub open spec fn entry_names(es: Seq<SizeEntry>) -> Seq<Seq<char>> {
    es.map_values(|e: SizeEntry| e.name@)
}

/// The size assignment a table denotes: each listed name maps to its bit
/// width.
pub open spec fn bits_map(es: Seq<SizeEntry>) -> Map<Seq<char>, nat> {
    Map::new(
        |n: Seq<char>| find_entry(es, n) is Some,
        |n: Seq<char>| find_entry(es, n)->Some_0.bits as nat,
    )
}

/// A name is found in a table exactly when it is among the entry names.
pub proof fn lemma_find_entry_names(es: Seq<SizeEntry>, name: Seq<char>, i: int)
    requires
        0 <= i <= es.len(),
    ensures
        (find_entry_from(es, name, i) is Some) <==> exists|j: int|
            i <= j < es.len() && entry_names(es)[j] == name,
    decreases es.len() - i,
{
    if i < es.len() {
        lemma_find_entry_names(es, name, i + 1);
        if es[i].name@ == name {
            assert(entry_names(es)[i] == name);
        }
    }
}

/// Appending an entry leaves all lookups of other names, and all lookups that
/// already succeeded, unchanged.
pub proof fn lemma_find_entry_push(es: Seq<SizeEntry>, e: SizeEntry, name: Seq<char>, i: int)
    requires
        0 <= i <= es.len(),
    ensures
        find_entry_from(es.push(e), name, i) == if find_entry_from(es, name, i) is Some {
            find_entry_from(es, name, i)
        } else if e.name@ == name {
            Some(e)
        } else {
            None::<SizeEntry>
        },
    decreases es.len() - i,
{
    if i < es.len() {
        assert(es.push(e)[i] == es[i]);
        lemma_find_entry_push(es, e, name, i + 1);
    } else {
        assert(es.push(e)[i] == e);
        if e.name@ != name {
            assert(find_entry_from(es.push(e), name, i + 1) is None);
        }
    }
}

/// Appending an entry with a fresh name extends the denoted assignment by
/// exactly that name.
pub proof fn lemma_bits_map_push(es: Seq<SizeEntry>, e: SizeEntry)
    requires
        !entry_names(es).contains(e.name@),
    ensures
        bits_map(es.push(e)) =~= bits_map(es).insert(e.name@, e.bits as nat),
{
    lemma_find_entry_names(es, e.name@, 0);
    assert forall|n: Seq<char>| true implies find_entry_from(es.push(e), n, 0)
        == if find_entry_from(es, n, 0) is Some {
        find_entry_from(es, n, 0)
    } else if e.name@ == n {
        Some(e)
    } else {
        None::<SizeEntry>
    } by {
        lemma_find_entry_push(es, e, n, 0);
    }
}

// ------------------------------------------------------------------
// Stability of widths under assignment extension
// ------------------------------------------------------------------

/// `s2` extends `s1`: it covers every name `s1` covers, with the same width.
pub open spec fn map_extends(s1: Map<Seq<char>, nat>, s2: Map<Seq<char>, nat>) -> bool {
    forall|n: Seq<char>|
        #[trigger] s1.dom().contains(n) ==> s2.dom().contains(n) && s2[n] == s1[n]
}

/// Field-width prefix sums only read the assignment at referenced names, so
/// they are stable under extension.
pub proof fn lemma_prefix_width_stable(
    fs: Seq<Field>,
    k: int,
    s1: Map<Seq<char>, nat>,
    s2: Map<Seq<char>, nat>,
)
    requires
        k <= fs.len(),
        fields_prefix_refs_in(fs, k, s1.dom()),
        map_extends(s1, s2),
    ensures
        fields_width_prefix(fs, k, s2) == fields_width_prefix(fs, k, s1),
    decreases k,
{
    if k > 0 {
        lemma_prefix_width_stable(fs, k - 1, s1, s2);
        assert(field_ref(fs[k - 1]) matches Some(r) ==> s1.dom().contains(r));
    }
}

/// Definition widths are stable under assignment extension.
pub proof fn lemma_def_width_stable(
    d: Definition,
    s1: Map<Seq<char>, nat>,
    s2: Map<Seq<char>, nat>,
)
    requires
        def_refs_in(d, s1.dom()),
        map_extends(s1, s2),
    ensures
        def_width_wrt(d, s2) == def_width_wrt(d, s1),
{
    lemma_prefix_width_stable(def_fields(d), def_fields(d).len() as int, s1, s2);
}

/// Inserting a new name whose width is consistent keeps the assignment
/// consistent.
pub proof fn lemma_consistent_insert(
    defs: Seq<Definition>,
    s: Map<Seq<char>, nat>,
    n0: Seq<char>,
    d0: Definition,
    w0: nat,
)
    requires
        sizes_consistent(defs, s),
        !s.dom().contains(n0),
        find_def(defs, n0) == Some(d0),
        def_refs_in(d0, s.dom()),
        w0 == def_width_wrt(d0, s),
    ensures
        sizes_consistent(defs, s.insert(n0, w0)),
{
    let s2 = s.insert(n0, w0);
    assert(map_extends(s, s2));
    assert forall|n: Seq<char>| #[trigger] s2.dom().contains(n) implies (find_def(defs, n) matches
        Some(d) && def_refs_in(d, s2.dom()) && s2[n] == def_width_wrt(d, s2)) by {
        if n == n0 {
            lemma_def_width_stable(d0, s, s2);
            assert(def_refs_in(d0, s2.dom()));
        } else {
            assert(s.dom().contains(n));
            let d = find_def(defs, n)->Some_0;
            lemma_def_width_stable(d, s, s2);
            assert(def_refs_in(d, s2.dom()));
        }
    }
}

// ------------------------------------------------------------------
// Cardinality: distinct defined names are no more numerous than definitions
// ------------------------------------------------------------------

/// The index of the first definition with the given name.
pub open spec fn find_def_index_from(defs: Seq<Definition>, name: Seq<char>, i: int) -> int
    decreases defs.len() - i,
{
    if i < 0 || i >= defs.len() {
        defs.len() as int
    } else if defs[i].spec_name() == name {
        i
    } else {
        find_def_index_from(defs, name, i + 1)
    }
}

/// When a name is defined, its first index is in range and carries the name.
pub proof fn lemma_find_def_index(defs: Seq<Definition>, name: Seq<char>, i: int)
    requires
        find_def_from(defs, name, i) is Some,
        0 <= i,
    ensures
        i <= find_def_index_from(defs, name, i) < defs.len(),
        defs[find_def_index_from(defs, name, i)].spec_name() == name,
    decreases defs.len() - i,
{
    if i < defs.len() && defs[i].spec_name() != name {
        lemma_find_def_index(defs, name, i + 1);
    }
}

/// A duplicate-free sequence of defined names is no longer than the list of
/// definitions.
pub proof fn lemma_distinct_defined_names_bound(defs: Seq<Definition>, names: Seq<Seq<char>>)
    requires
        names.no_duplicates(),
        forall|i: int| 0 <= i < names.len() ==> #[trigger] find_def(defs, names[i]) is Some,
    ensures
        names.len() <= defs.len(),
{
    let idx = Seq::new(names.len(), |i: int| find_def_index_from(defs, names[i], 0));
    assert forall|i: int| 0 <= i < idx.len() implies 0 <= idx[i] < defs.len()
        && defs[idx[i]].spec_name() == names[i] by {
        assert(find_def(defs, names[i]) is Some);
        lemma_find_def_index(defs, names[i], 0);
    }
    assert(idx.no_duplicates()) by {
        assert forall|i: int, j: int| 0 <= i < j < idx.len() implies idx[i] != idx[j] by {
            assert(find_def(defs, names[i]) is Some);
            assert(find_def(defs, names[j]) is Some);
            lemma_find_def_index(defs, names[i], 0);
            lemma_find_def_index(defs, names[j], 0);
        }
    }
    idx.unique_seq_to_set();
    assert(idx.to_set().subset_of(set_int_range(0, defs.len() as int)));
    lemma_int_range(0, defs.len() as int);
    lemma_len_subset(idx.to_set(), set_int_range(0, defs.len() as int));
}

// ------------------------------------------------------------------
// Laws of resolution
// ------------------------------------------------------------------

/// Prefix sums agree on two assignments that agree on every referenced name.
pub proof fn lemma_prefix_width_congruent(
    fs: Seq<Field>,
    k: int,
    s1: Map<Seq<char>, nat>,
    s2: Map<Seq<char>, nat>,
)
    requires
        k <= fs.len(),
        forall|i: int|
            0 <= i < k ==> (#[trigger] field_ref(fs[i]) matches Some(r) ==> s1.dom().contains(r)
                && s2.dom().contains(r) && s1[r] == s2[r]),
    ensures
        fields_width_prefix(fs, k, s1) == fields_width_prefix(fs, k, s2),
    decreases k,
{
    if k > 0 {
        lemma_prefix_width_congruent(fs, k - 1, s1, s2);
        assert(field_ref(fs[k - 1]) matches Some(r) ==> s1[r] == s2[r]);
    }
}

/// Helper for [`lemma_resolution_unique`]: along a dependency order, two
/// consistent and complete assignments agree position by position.
proof fn lemma_unique_along_order(
    defs: Seq<Definition>,
    s1: Map<Seq<char>, nat>,
    s2: Map<Seq<char>, nat>,
    ord: Seq<Seq<char>>,
    i: int,
)
    requires
        sizes_consistent(defs, s1),
        sizes_complete(defs, s1),
        sizes_consistent(defs, s2),
        sizes_complete(defs, s2),
        is_dependency_order(defs, ord),
        0 <= i <= ord.len(),
    ensures
        forall|k: int| 0 <= k < i ==> s1[ord[k]] == s2[ord[k]],
    decreases i,
{
    if i > 0 {
        lemma_unique_along_order(defs, s1, s2, ord, i - 1);
        let n = ord[i - 1];
        let d = find_def(defs, n)->Some_0;
        assert(find_def(defs, n) is Some);
        assert(s1.dom().contains(n));
        assert(s2.dom().contains(n));
        assert forall|j: int|
            0 <= j < def_fields(d).len() implies (#[trigger] field_ref(def_fields(d)[j]) matches
            Some(r) ==> s1.dom().contains(r) && s2.dom().contains(r) && s1[r] == s2[r]) by {
            if field_ref(def_fields(d)[j]) is Some {
                let r = field_ref(def_fields(d)[j])->Some_0;
                assert(refers_to(d, r));
                let w = choose|jj: int| 0 <= jj < i - 1 && ord[jj] == r;
                assert(s1[ord[w]] == s2[ord[w]]);
            }
        }
        lemma_prefix_width_congruent(def_fields(d), def_fields(d).len() as int, s1, s2);
        assert(s1[n] == def_width_wrt(d, s1));
        assert(s2[n] == def_width_wrt(d, s2));
    }
}

/// Resolution is unique: any two consistent, complete size assignments for a
/// module that admits a dependency order assign the same bit width to every
/// defined name. In particular, resolving a module twice, or resolving it
/// through any algorithm whatsoever, yields identical sizes.
pub proof fn lemma_resolution_unique(
    defs: Seq<Definition>,
    s1: Map<Seq<char>, nat>,
    s2: Map<Seq<char>, nat>,
    ord: Seq<Seq<char>>,
)
    requires
        sizes_consistent(defs, s1),
        sizes_complete(defs, s1),
        sizes_consistent(defs, s2),
        sizes_complete(defs, s2),
        is_dependency_order(defs, ord),
        order_covers(defs, ord),
    ensures
        forall|n: Seq<char>| #[trigger] find_def(defs, n) is Some ==> s1[n] == s2[n],
{
    lemma_unique_along_order(defs, s1, s2, ord, ord.len() as int);
    assert forall|n: Seq<char>| #[trigger] find_def(defs, n) is Some implies s1[n] == s2[n] by {
        let k = choose|k: int| 0 <= k < ord.len() && ord[k] == n;
        assert(s1[ord[k]] == s2[ord[k]]);
    }
}

/// Resolution is independent of declaration order: two modules that resolve
/// every name to the same definition (for example, one a permutation of the
/// other with unique names) give every defined name the same bit width.
pub proof fn lemma_resolution_order_independent(
    defs1: Seq<Definition>,
    defs2: Seq<Definition>,
    s1: Map<Seq<char>, nat>,
    s2: Map<Seq<char>, nat>,
    ord1: Seq<Seq<char>>,
)
    requires
        forall|n: Seq<char>| #[trigger] find_def(defs1, n) == find_def(defs2, n),
        sizes_consistent(defs1, s1),
        sizes_complete(defs1, s1),
        sizes_consistent(defs2, s2),
        sizes_complete(defs2, s2),
        is_dependency_order(defs1, ord1),
        order_covers(defs1, ord1),
    ensures
        forall|n: Seq<char>| #[trigger] find_def(defs1, n) is Some ==> s1[n] == s2[n],
{
    assert(sizes_consistent(defs1, s2)) by {
        assert forall|n: Seq<char>| #[trigger] s2.dom().contains(n) implies (find_def(
            defs1,
            n,
        ) matches Some(d) && def_refs_in(d, s2.dom()) && s2[n] == def_width_wrt(d, s2)) by {
            assert(find_def(defs1, n) == find_def(defs2, n));
        }
    }
    assert(sizes_complete(defs1, s2)) by {
        assert forall|n: Seq<char>| #[trigger] find_def(defs1, n) is Some implies s2.dom().contains(
            n,
        ) by {
            assert(find_def(defs1, n) == find_def(defs2, n));
        }
    }
    lemma_resolution_unique(defs1, s1, s2, ord1);
}

/// Helper: along a dependency order, following the cycle strictly decreases
/// the first position at which each cycle member occurs.
proof fn lemma_cycle_position_decreases(
    defs: Seq<Definition>,
    ord: Seq<Seq<char>>,
    ns: Seq<Seq<char>>,
    k: int,
)
    requires
        is_dependency_order(defs, ord),
        order_covers(defs, ord),
        is_reference_cycle(defs, ns),
        0 <= k < ns.len(),
    ensures
        ord.contains(ns[k]),
        ord.contains(ns[(k + 1) % (ns.len() as int)]),
        ord.index_of_first(ns[(k + 1) % (ns.len() as int)])->Some_0 < ord.index_of_first(
            ns[k],
        )->Some_0,
{
    let n = ns[k];
    let m = ns[(k + 1) % (ns.len() as int)];
    assert(find_def(defs, n) is Some);
    assert(0 <= (k + 1) % (ns.len() as int) < ns.len()) by {
        assert(ns.len() > 0);
    }
    assert(find_def(defs, m) is Some);
    assert(ord.contains(n));
    assert(ord.contains(m));
    ord.index_of_first_ensures(n);
    ord.index_of_first_ensures(m);
    let pn = ord.index_of_first(n)->Some_0;
    let pm = ord.index_of_first(m)->Some_0;
    let d = find_def(defs, ord[pn])->Some_0;
    assert(refers_to(d, m));
    let j = choose|j: int| 0 <= j < pn && ord[j] == m;
    assert(pm <= j);
}

/// Helper: iterating [`lemma_cycle_position_decreases`] `t` times pushes the
/// first position below its starting value by `t`.
proof fn lemma_cycle_position_chain(
    defs: Seq<Definition>,
    ord: Seq<Seq<char>>,
    ns: Seq<Seq<char>>,
    t: int,
)
    requires
        is_dependency_order(defs, ord),
        order_covers(defs, ord),
        is_reference_cycle(defs, ns),
        0 <= t,
    ensures
        ord.contains(ns[t % (ns.len() as int)]),
        ord.index_of_first(ns[t % (ns.len() as int)])->Some_0 <= ord.index_of_first(
            ns[0],
        )->Some_0 - t,
    decreases t,
{
    let len = ns.len() as int;
    if t == 0 {
        lemma_cycle_position_decreases(defs, ord, ns, 0);
    } else {
        lemma_cycle_position_chain(defs, ord, ns, t - 1);
        let k = (t - 1) % len;
        lemma_cycle_position_decreases(defs, ord, ns, k);
        assert((k + 1) % len == t % len) by (nonlinear_arith)
            requires
                len > 0,
                0 <= t,
                k == (t - 1) % len,
        ;
    }
}

/// A module that admits a dependency order has no reference cycle. Together
/// with [`lemma_resolution_unique`] this pins resolution down completely:
/// success rules cycles out, and the computed sizes are the only consistent
/// ones.
pub proof fn lemma_dependency_order_excludes_cycle(defs: Seq<Definition>, ord: Seq<Seq<char>>)
    requires
        is_dependency_order(defs, ord),
        order_covers(defs, ord),
    ensures
        !has_reference_cycle(defs),
{
    if has_reference_cycle(defs) {
        let ns = choose|ns: Seq<Seq<char>>| is_reference_cycle(defs, ns);
        lemma_cycle_position_decreases(defs, ord, ns, 0);
        ord.index_of_first_ensures(ns[0]);
        let p0 = ord.index_of_first(ns[0])->Some_0;
        assert(p0 >= 0);
        lemma_cycle_position_chain(defs, ord, ns, p0 + 1);
        let k = (p0 + 1) % (ns.len() as int);
        ord.index_of_first_ensures(ns[k]);
        assert(ord.contains(ns[k]));
        assert(ord.index_of_first(ns[k])->Some_0 >= 0);
    }
}

// ------------------------------------------------------------------
// Table extension lemmas and exec lookups
// ------------------------------------------------------------------

/// A successful lookup survives extension of the table.
pub proof fn lemma_find_entry_extend(es1: Seq<SizeEntry>, es2: Seq<SizeEntry>, name: Seq<char>)
    requires
        es1.is_prefix_of(es2),
        find_entry(es1, name) is Some,
    ensures
        find_entry(es2, name) == find_entry(es1, name),
    decreases es2.len() - es1.len(),
{
    if es1.len() < es2.len() {
        let es_mid = es2.drop_last();
        assert(es1.is_prefix_of(es_mid)) by {
            assert forall|i: int| 0 <= i < es1.len() implies es1[i] == es_mid[i] by {
                assert(es1[i] == es2[i]);
            }
        }
        lemma_find_entry_extend(es1, es_mid, name);
        lemma_find_entry_push(es_mid, es2.last(), name, 0);
        assert(es2 =~= es_mid.push(es2.last()));
    } else {
        assert(es1 =~= es2);
    }
}

/// Extending a table extends the assignment it denotes.
pub proof fn lemma_bits_map_extends(es1: Seq<SizeEntry>, es2: Seq<SizeEntry>)
    requires
        es1.is_prefix_of(es2),
    ensures
        map_extends(bits_map(es1), bits_map(es2)),
{
    assert forall|n: Seq<char>| #[trigger] bits_map(es1).dom().contains(n) implies bits_map(
        es2,
    ).dom().contains(n) && bits_map(es2)[n] == bits_map(es1)[n] by {
        lemma_find_entry_extend(es1, es2, n);
    }
}

/// A name carried by some definition is always found.
pub proof fn lemma_find_def_covers(defs: Seq<Definition>, j: int, k: int)
    requires
        0 <= k <= j < defs.len(),
    ensures
        find_def_from(defs, defs[j].spec_name(), k) is Some,
    decreases j - k,
{
    if defs[k].spec_name() != defs[j].spec_name() {
        lemma_find_def_covers(defs, j, k + 1);
    }
}

impl SizeTable {
    /// The entry for the given definition name, if any.
    pub fn get<'a>(&'a self, name: &str) -> (r: Option<&'a SizeEntry>)
        ensures
            match r {
                Some(e) => find_entry(self.entries@, name@) == Some(*e),
                None => find_entry(self.entries@, name@) is None,
            },
    {
        let n = self.entries.len();
        let mut i: usize = 0;
        while i < n
            invariant
                n == self.entries@.len(),
                i <= n,
                find_entry(self.entries@, name@) == find_entry_from(self.entries@, name@, i as int),
            decreases n - i,
        {
            if str_eq_str(self.entries[i].name.as_str(), name) {
                return Some(&self.entries[i]);
            }
            i = i + 1;
        }
        None
    }
}

/// The position of the first string in `stack` whose characters equal `name`.
fn stack_find(stack: &Vec<String>, name: &str) -> (r: Option<usize>)
    ensures
        match r {
            Some(j) => j < stack@.len() && stack@[j as int]@ == name@,
            None => !names_of(stack@).contains(name@),
        },
{
    let n = stack.len();
    let mut i: usize = 0;
    while i < n
        invariant
            n == stack@.len(),
            i <= n,
            forall|j: int| 0 <= j < i ==> stack@[j]@ != name@,
        decreases n - i,
    {
        if str_eq_str(stack[i].as_str(), name) {
            return Some(i);
        }
        i = i + 1;
    }
    proof {
        assert forall|j: int| 0 <= j < names_of(stack@).len() implies names_of(stack@)[j]
            != name@ by {
            assert(names_of(stack@)[j] == stack@[j]@);
        }
    }
    None
}

// ------------------------------------------------------------------
// The resolution algorithm
// ------------------------------------------------------------------

/// Why resolution failed: a reference cycle (carrying the chain of names for
/// display, ending with a repetition of the first name on the cycle), a
/// reference to an undefined name, or a bit width too large to represent.
#[derive(Debug)]
pub enum ResolveFailure {
    /// A circular chain of type references.
    Cycle(Vec<String>),
    /// A reference to a name not defined in the module.
    Undefined(String),
    /// A definition whose bit width cannot be represented.
    TooLarge(String),
}

/// What each failure report guarantees about the module.
pub open spec fn failure_spec(defs: Seq<Definition>, f: ResolveFailure) -> bool {
    match f {
        ResolveFailure::Cycle(_) => has_reference_cycle(defs),
        ResolveFailure::Undefined(n) => find_def(defs, n@) is None && has_undefined_reference(
            defs,
        ),
        ResolveFailure::TooLarge(_) => some_width_exceeds(defs),
    }
}

/// The resolver's running state is sound: entry names are unique, the table
/// denotes a consistent assignment, and the table order respects
/// dependencies, with each byte footprint rounded up from the bit width.
pub open spec fn memo_wf(defs: Seq<Definition>, es: Seq<SizeEntry>) -> bool {
    &&& entry_names(es).no_duplicates()
    &&& sizes_consistent(defs, bits_map(es))
    &&& is_dependency_order(defs, entry_names(es))
    &&& forall|i: int|
        0 <= i < es.len() ==> (#[trigger] es[i].bytes) as nat == spec_byte_width(es[i].bits as nat)
}

/// The in-progress stack is sound: the names are distinct, each is defined,
/// and each definition on it references the next name.
pub open spec fn stack_wf(defs: Seq<Definition>, ss: Seq<Seq<char>>) -> bool {
    &&& ss.no_duplicates()
    &&& forall|i: int| 0 <= i < ss.len() ==> #[trigger] find_def(defs, ss[i]) is Some
    &&& forall|i: int|
        0 <= i < ss.len() - 1 ==> refers_to(find_def(defs, #[trigger] ss[i])->Some_0, ss[i + 1])
}

/// No name occurs in both sequences.
pub open spec fn disjoint_names(a: Seq<Seq<char>>, b: Seq<Seq<char>>) -> bool {
    forall|n: Seq<char>| a.contains(n) ==> !b.contains(n)
}

/// Recursively resolves the definition named `name`, memoizing results in
/// `memo` and detecting cycles with the in-progress `stack`. On success the
/// returned value is the definition's byte footprint, and `memo` has gained
/// an entry for `name` (and for every definition it transitively references)
/// while `stack` is restored.
fn resolve_packed_size_recursive(
    module: &OnyxModule,
    name: &str,
    memo: &mut SizeTable,
    stack: &mut Vec<String>,
) -> (r: Result<usize, ResolveFailure>)
    requires
        memo_wf(module.definitions@, old(memo).entries@),
        stack_wf(module.definitions@, names_of(old(stack)@)),
        disjoint_names(names_of(old(stack)@), entry_names(old(memo).entries@)),
        old(stack)@.len() > 0 ==> refers_to(
            find_def(module.definitions@, names_of(old(stack)@).last())->Some_0,
            name@,
        ),
        old(stack)@.len() == 0 ==> find_def(module.definitions@, name@) is Some,
    ensures
        r matches Ok(bytes) ==> {
            &&& final(stack)@ == old(stack)@
            &&& old(memo).entries@.is_prefix_of(final(memo).entries@)
            &&& memo_wf(module.definitions@, final(memo).entries@)
            &&& disjoint_names(names_of(old(stack)@), entry_names(final(memo).entries@))
            &&& find_entry(final(memo).entries@, name@) matches Some(e) && e.bytes == bytes
            &&& find_def(module.definitions@, name@) is Some
        },
        r matches Err(f) ==> failure_spec(module.definitions@, f),
    decreases module.definitions@.len() - old(stack)@.len(), 0int,
{
    let ghost defs = module.definitions@;
    // Already resolved: return the cached footprint.
    let hit = memo.get(name);
    if hit.is_some() {
        let e = hit.unwrap();
        proof {
            assert(bits_map(memo.entries@).dom().contains(name@));
        }
        return Ok(e.bytes);
    }
    // A name already being resolved means the references loop back.
    match stack_find(stack, name) {
        Some(j) => {
            proof {
                let sv = names_of(stack@);
                let cyc = sv.subrange(j as int, sv.len() as int);
                assert(sv[j as int] == stack@[j as int]@);
                assert(sv.last() == stack@[sv.len() - 1]@);
                assert forall|i: int|
                    0 <= i < cyc.len() implies (#[trigger] find_def(defs, cyc[i]) matches Some(d)
                    && refers_to(d, cyc[(i + 1) % (cyc.len() as int)])) by {
                    assert(cyc[i] == sv[j + i]);
                    assert(find_def(defs, sv[j + i]) is Some);
                    if i < cyc.len() - 1 {
                        assert((i + 1) % (cyc.len() as int) == i + 1) by (nonlinear_arith)
                            requires
                                0 <= i + 1 < cyc.len(),
                        ;
                        assert(cyc[(i + 1) % (cyc.len() as int)] == sv[j + i + 1]);
                        assert(refers_to(find_def(defs, sv[j + i])->Some_0, sv[j + i + 1]));
                    } else {
                        assert((i + 1) % (cyc.len() as int) == 0) by (nonlinear_arith)
                            requires
                                i + 1 == cyc.len(),
                                cyc.len() > 0,
                        ;
                        assert(cyc[0] == sv[j as int]);
                        assert(sv[j as int] == name@);
                        assert(j + i == sv.len() - 1);
                        assert(refers_to(find_def(defs, sv.last())->Some_0, name@));
                    }
                }
                assert(is_reference_cycle(defs, cyc));
            }
            let mut chain: Vec<String> = Vec::new();
            let mut k = j;
            let n = stack.len();
            while k < n
                invariant
                    n == stack@.len(),
                    k <= n,
                    stack@ == old(stack)@,
                decreases n - k,
            {
                chain.push(stack[k].clone());
                k = k + 1;
            }
            chain.push(String::from_str(name));
            return Err(ResolveFailure::Cycle(chain));
        },
        None => {},
    }
    // Look the definition up; a missing name is an undefined reference.
    let dref = match module.get_definition(name) {
        Some(d) => d,
        None => {
            proof {
                if old(stack)@.len() == 0 {
                    assert(false);
                } else {
                    let sv = names_of(old(stack)@);
                    assert(find_def(defs, sv.last()) is Some);
                    assert(undefined_ref_witness(defs, sv.last(), name@));
                }
            }
            return Err(ResolveFailure::Undefined(String::from_str(name)));
        },
    };
    // Mark the name as in progress while its fields are summed.
    stack.push(String::from_str(name));
    let ghost stack_pushed = stack@;
    proof {
        assert(names_of(stack_pushed) =~= names_of(old(stack)@).push(name@));
        assert(stack_wf(defs, names_of(stack_pushed))) by {
            let sv = names_of(stack_pushed);
            let ov = names_of(old(stack)@);
            assert(!ov.contains(name@));
            assert forall|i: int| 0 <= i < sv.len() implies #[trigger] find_def(defs, sv[i])
                is Some by {
                if i < ov.len() {
                    assert(sv[i] == ov[i]);
                } else {
                    assert(sv[i] == name@);
                }
            }
            assert forall|i: int| 0 <= i < sv.len() - 1 implies refers_to(
                find_def(defs, #[trigger] sv[i])->Some_0,
                sv[i + 1],
            ) by {
                if i < ov.len() - 1 {
                    assert(sv[i] == ov[i] && sv[i + 1] == ov[i + 1]);
                } else {
                    assert(i == ov.len() - 1);
                    assert(sv[i] == ov.last() && sv[i + 1] == name@);
                }
            }
        }
        assert(names_of(stack_pushed).len() <= defs.len()) by {
            lemma_distinct_defined_names_bound(defs, names_of(stack_pushed));
        }
        assert(disjoint_names(names_of(stack_pushed), entry_names(memo.entries@))) by {
            let sv = names_of(stack_pushed);
            let ov = names_of(old(stack)@);
            assert forall|nm: Seq<char>| sv.contains(nm) implies !entry_names(
                memo.entries@,
            ).contains(nm) by {
                let w = choose|w: int| 0 <= w < sv.len() && sv[w] == nm;
                if w < ov.len() {
                    assert(ov[w] == nm);
                    assert(ov.contains(nm));
                } else {
                    assert(nm == name@);
                    lemma_find_entry_names(memo.entries@, nm, 0);
                }
            }
        }
    }
    let sum = match dref {
        Definition::Enum(e) => {
            let w = e.underlying_type.get_bit_width();
            proof {
                assert(def_fields(*dref) =~= Seq::<Field>::empty());
                assert(w as nat == def_width_wrt(*dref, bits_map(memo.entries@)));
            }
            Ok(w)
        },
        Definition::Struct(s) => get_struct_packed_size_bytes(s, module, memo, stack),
        Definition::Message(m) => get_message_packed_size_bytes(m, module, memo, stack),
    };
    let bits = match sum {
        Ok(b) => b,
        Err(f) => {
            return Err(f);
        },
    };
    let _popped = stack.pop();
    proof {
        assert(stack@ =~= old(stack)@);
    }
    let bytes = bits / 8 + (if bits % 8 != 0 { 1usize } else { 0usize });
    proof {
        assert(bytes as nat == spec_byte_width(bits as nat)) by {
            assert(bits as nat == 8 * ((bits as nat) / 8) + (bits as nat) % 8) by (nonlinear_arith);
            assert((bits as nat + 7) / 8 == (bits as nat) / 8 + (if (bits as nat) % 8 != 0 {
                1nat
            } else {
                0nat
            })) by (nonlinear_arith)
                requires
                    bits as nat == 8 * ((bits as nat) / 8) + (bits as nat) % 8,
                    0 <= (bits as nat) % 8 < 8,
            ;
        }
    }
    let ghost es_before = memo.entries@;
    let entry = SizeEntry { name: String::from_str(name), bits, bytes };
    memo.entries.push(entry);
    proof {
        let es2 = memo.entries@;
        let bm = bits_map(es_before);
        assert(!entry_names(es_before).contains(name@)) by {
            let sv = names_of(stack_pushed);
            assert(sv[sv.len() - 1] == name@);
            assert(sv.contains(name@));
            assert(disjoint_names(sv, entry_names(es_before)));
        }
        lemma_bits_map_push(es_before, entry);
        assert(entry_names(es2) =~= entry_names(es_before).push(name@));
        // The new assignment stays consistent.
        assert(find_def(defs, name@) == Some(*dref));
        assert(!bm.dom().contains(name@)) by {
            lemma_find_entry_names(es_before, name@, 0);
        }
        assert(def_refs_in(*dref, bm.dom()));
        assert(bits as nat == def_width_wrt(*dref, bm));
        lemma_consistent_insert(defs, bm, name@, *dref, bits as nat);
        assert(sizes_consistent(defs, bits_map(es2)));
        // Uniqueness of entry names.
        assert(entry_names(es2).no_duplicates()) by {
            let en = entry_names(es_before);
            assert forall|a: int, b: int|
                0 <= a < b < entry_names(es2).len() implies entry_names(es2)[a] != entry_names(
                es2,
            )[b] by {
                if b < en.len() {
                    assert(entry_names(es2)[a] == en[a] && entry_names(es2)[b] == en[b]);
                } else {
                    assert(entry_names(es2)[b] == name@);
                    assert(entry_names(es2)[a] == en[a]);
                    assert(en.contains(en[a]));
                }
            }
        }
        // The table order still respects dependencies.
        assert(is_dependency_order(defs, entry_names(es2))) by {
            let en = entry_names(es_before);
            let en2 = entry_names(es2);
            assert forall|i: int| 0 <= i < en2.len() implies (#[trigger] find_def(defs, en2[i])
                matches Some(d) && forall|nm: Seq<char>|
                refers_to(d, nm) ==> exists|jj: int| 0 <= jj < i && en2[jj] == nm) by {
                if i < en.len() {
                    assert(en2[i] == en[i]);
                    let d = find_def(defs, en[i])->Some_0;
                    assert forall|nm: Seq<char>| refers_to(d, nm) implies exists|jj: int|
                        0 <= jj < i && en2[jj] == nm by {
                        let jj = choose|jj: int| 0 <= jj < i && en[jj] == nm;
                        assert(en2[jj] == nm);
                    }
                } else {
                    assert(en2[i] == name@);
                    assert forall|nm: Seq<char>| refers_to(*dref, nm) implies exists|jj: int|
                        0 <= jj < i && en2[jj] == nm by {
                        assert(bm.dom().contains(nm));
                        lemma_find_entry_names(es_before, nm, 0);
                        let jj = choose|jj: int| 0 <= jj < en.len() && en[jj] == nm;
                        assert(en2[jj] == nm);
                    }
                }
            }
        }
        // Byte footprints remain rounded-up bit widths.
        assert forall|i: int|
            0 <= i < es2.len() implies (#[trigger] es2[i].bytes) as nat == spec_byte_width(
            es2[i].bits as nat,
        ) by {
            if i < es_before.len() {
                assert(es2[i] == es_before[i]);
            } else {
                assert(es2[i] == entry);
            }
        }
        assert(es_before.is_prefix_of(es2));
        assert(old(memo).entries@.is_prefix_of(es2));
        // The new entry is found under its name.
        lemma_find_entry_push(es_before, entry, name@, 0);
        assert(find_entry(es2, name@) == Some(entry));
        // Disjointness from the caller's stack.
        assert(disjoint_names(names_of(old(stack)@), entry_names(es2))) by {
            let ov = names_of(old(stack)@);
            let sv = names_of(stack_pushed);
            assert forall|nm: Seq<char>| ov.contains(nm) implies !entry_names(es2).contains(
                nm,
            ) by {
                let w = choose|w: int| 0 <= w < ov.len() && ov[w] == nm;
                assert(sv[w] == nm);
                assert(sv.contains(nm));
                assert(!entry_names(es_before).contains(nm));
                assert(nm != name@) by {
                    assert(!names_of(old(stack)@).contains(name@));
                }
                assert forall|b: int| 0 <= b < entry_names(es2).len() implies entry_names(es2)[b]
                    != nm by {
                    if b < entry_names(es_before).len() {
                        assert(entry_names(es2)[b] == entry_names(es_before)[b]);
                        assert(entry_names(es_before).contains(entry_names(es_before)[b]));
                    } else {
                        assert(entry_names(es2)[b] == name@);
                    }
                }
            }
        }
    }
    Ok(bytes)
}

/// Sums the effective bit widths of a struct's fields, resolving referenced
/// custom types as needed. The struct is the definition on top of `stack`.
fn get_struct_packed_size_bytes(
    s: &crate::ast::StructDef,
    module: &OnyxModule,
    memo: &mut SizeTable,
    stack: &mut Vec<String>,
) -> (r: Result<usize, ResolveFailure>)
    requires
        memo_wf(module.definitions@, old(memo).entries@),
        stack_wf(module.definitions@, names_of(old(stack)@)),
        disjoint_names(names_of(old(stack)@), entry_names(old(memo).entries@)),
        old(stack)@.len() >= 1,
        find_def(module.definitions@, names_of(old(stack)@).last()) matches Some(d) && def_fields(
            d,
        ) == s.fields@,
    ensures
        r matches Ok(bits) ==> {
            &&& final(stack)@ == old(stack)@
            &&& old(memo).entries@.is_prefix_of(final(memo).entries@)
            &&& memo_wf(module.definitions@, final(memo).entries@)
            &&& disjoint_names(names_of(old(stack)@), entry_names(final(memo).entries@))
            &&& fields_prefix_refs_in(
                s.fields@,
                s.fields@.len() as int,
                bits_map(final(memo).entries@).dom(),
            )
            &&& bits as nat == fields_width_prefix(
                s.fields@,
                s.fields@.len() as int,
                bits_map(final(memo).entries@),
            )
        },
        r matches Err(f) ==> failure_spec(module.definitions@, f),
    decreases module.definitions@.len() - old(stack)@.len(), 2int,
{
    sum_field_widths(&s.fields, module, memo, stack)
}

/// Sums the effective bit widths of a message's fields, resolving referenced
/// custom types as needed. The message is the definition on top of `stack`.
fn get_message_packed_size_bytes(
    m: &crate::ast::MessageDef,
    module: &OnyxModule,
    memo: &mut SizeTable,
    stack: &mut Vec<String>,
) -> (r: Result<usize, ResolveFailure>)
    requires
        memo_wf(module.definitions@, old(memo).entries@),
        stack_wf(module.definitions@, names_of(old(stack)@)),
        disjoint_names(names_of(old(stack)@), entry_names(old(memo).entries@)),
        old(stack)@.len() >= 1,
        find_def(module.definitions@, names_of(old(stack)@).last()) matches Some(d) && def_fields(
            d,
        ) == m.fields@,
    ensures
        r matches Ok(bits) ==> {
            &&& final(stack)@ == old(stack)@
            &&& old(memo).entries@.is_prefix_of(final(memo).entries@)
            &&& memo_wf(module.definitions@, final(memo).entries@)
            &&& disjoint_names(names_of(old(stack)@), entry_names(final(memo).entries@))
            &&& fields_prefix_refs_in(
                m.fields@,
                m.fields@.len() as int,
                bits_map(final(memo).entries@).dom(),
            )
            &&& bits as nat == fields_width_prefix(
                m.fields@,
                m.fields@.len() as int,
                bits_map(final(memo).entries@),
            )
        },
        r matches Err(f) ==> failure_spec(module.definitions@, f),
    decreases module.definitions@.len() - old(stack)@.len(), 2int,
{
    sum_field_widths(&m.fields, module, memo, stack)
}

/// Sums the effective bit widths of `fields`, resolving referenced custom
/// types as needed. The definition on top of `stack` is the one whose fields
/// are being summed.
fn sum_field_widths(
    fields: &Vec<Field>,
    module: &OnyxModule,
    memo: &mut SizeTable,
    stack: &mut Vec<String>,
) -> (r: Result<usize, ResolveFailure>)
    requires
        memo_wf(module.definitions@, old(memo).entries@),
        stack_wf(module.definitions@, names_of(old(stack)@)),
        disjoint_names(names_of(old(stack)@), entry_names(old(memo).entries@)),
        old(stack)@.len() >= 1,
        find_def(module.definitions@, names_of(old(stack)@).last()) matches Some(d) && def_fields(
            d,
        ) == fields@,
    ensures
        r matches Ok(bits) ==> {
            &&& final(stack)@ == old(stack)@
            &&& old(memo).entries@.is_prefix_of(final(memo).entries@)
            &&& memo_wf(module.definitions@, final(memo).entries@)
            &&& disjoint_names(names_of(old(stack)@), entry_names(final(memo).entries@))
            &&& fields_prefix_refs_in(
                fields@,
                fields@.len() as int,
                bits_map(final(memo).entries@).dom(),
            )
            &&& bits as nat == fields_width_prefix(
                fields@,
                fields@.len() as int,
                bits_map(final(memo).entries@),
            )
        },
        r matches Err(f) ==> failure_spec(module.definitions@, f),
    decreases module.definitions@.len() - old(stack)@.len(), 1int,
{
    let ghost defs = module.definitions@;
    let mut total: usize = 0;
    let n = fields.len();
    let mut i: usize = 0;
    while i < n
        invariant
            n == fields@.len(),
            i <= n,
            stack@ == old(stack)@,
            memo_wf(defs, memo.entries@),
            old(memo).entries@.is_prefix_of(memo.entries@),
            disjoint_names(names_of(old(stack)@), entry_names(memo.entries@)),
            fields_prefix_refs_in(fields@, i as int, bits_map(memo.entries@).dom()),
            total as nat == fields_width_prefix(fields@, i as int, bits_map(memo.entries@)),
            // context carried for the recursive calls
            memo_wf(module.definitions@, old(memo).entries@),
            stack_wf(module.definitions@, names_of(old(stack)@)),
            old(stack)@.len() >= 1,
            find_def(module.definitions@, names_of(old(stack)@).last()) matches Some(d)
                && def_fields(d) == fields@,
            defs == module.definitions@,
        decreases n - i,
    {
        let f = &fields[i];
        let w: usize = match f.bit_field_size {
            Some(x) => {
                proof {
                    assert(field_ref(fields@[i as int]) is None);
                    assert(field_width_wrt(fields@[i as int], bits_map(memo.entries@)) == x as nat);
                }
                x
            },
            None => match &f.type_info {
                Type::Primitive(p) => {
                    let w = p.get_bit_width();
                    proof {
                        assert(field_ref(fields@[i as int]) is None);
                        assert(field_width_wrt(fields@[i as int], bits_map(memo.entries@))
                            == w as nat);
                    }
                    w
                },
                Type::Custom(c) => {
                    proof {
                        assert(field_ref(fields@[i as int]) == Some(c@));
                        assert(refers_to(
                            find_def(defs, names_of(old(stack)@).last())->Some_0,
                            c@,
                        ));
                    }
                    let ghost es_before = memo.entries@;
                    match resolve_packed_size_recursive(module, c.as_str(), memo, stack) {
                        Ok(_) => {},
                        Err(e) => {
                            return Err(e);
                        },
                    }
                    let eref = memo.get(c.as_str()).unwrap();
                    proof {
                        let bm1 = bits_map(es_before);
                        let bm2 = bits_map(memo.entries@);
                        lemma_bits_map_extends(es_before, memo.entries@);
                        lemma_prefix_width_stable(fields@, i as int, bm1, bm2);
                        assert(old(memo).entries@.is_prefix_of(memo.entries@)) by {
                            assert(old(memo).entries@.is_prefix_of(es_before));
                            assert forall|q: int|
                                0 <= q < old(memo).entries@.len() implies old(memo).entries@[q]
                                == memo.entries@[q] by {
                                assert(old(memo).entries@[q] == es_before[q]);
                            }
                        }
                        assert(fields_prefix_refs_in(fields@, i as int, bm2.dom()));
                        assert(total as nat == fields_width_prefix(fields@, i as int, bm2));
                        assert(bm2.dom().contains(c@));
                        assert(field_width_wrt(fields@[i as int], bm2) == eref.bits as nat);
                    }
                    eref.bits
                },
            },
        };
        let new_total = match total.checked_add(w) {
            Some(t) => t,
            None => {
                proof {
                    let bm = bits_map(memo.entries@);
                    let nm = names_of(old(stack)@).last();
                    assert(fields_width_prefix(fields@, i as int + 1, bm) == total as nat
                        + w as nat);
                    assert(fields_prefix_refs_in(fields@, i as int + 1, bm.dom())) by {
                        assert forall|q: int|
                            0 <= q < i as int + 1 implies (#[trigger] field_ref(fields@[q]) matches
                            Some(rr) ==> bm.dom().contains(rr)) by {
                            if q < i as int {
                            } else {
                                if field_ref(fields@[q]) is Some {
                                    assert(field_width_wrt(fields@[q], bm) == w as nat);
                                    assert(bm.dom().contains(field_ref(fields@[q])->Some_0));
                                }
                            }
                        }
                    }
                    assert(width_exceeds_witness(defs, bm, nm, i as int + 1));
                }
                return Err(ResolveFailure::TooLarge(stack[stack.len() - 1].clone()));
            },
        };
        proof {
            let bm = bits_map(memo.entries@);
            assert(fields_width_prefix(fields@, i as int + 1, bm) == fields_width_prefix(
                fields@,
                i as int,
                bm,
            ) + field_width_wrt(fields@[i as int], bm));
            assert(fields_prefix_refs_in(fields@, i as int + 1, bm.dom())) by {
                assert forall|q: int|
                    0 <= q < i as int + 1 implies (#[trigger] field_ref(fields@[q]) matches Some(
                    rr,
                ) ==> bm.dom().contains(rr)) by {
                    if q == i as int && field_ref(fields@[q]) is Some {
                        assert(bm.dom().contains(field_ref(fields@[q])->Some_0));
                    }
                }
            }
        }
        total = new_total;
        i = i + 1;
    }
    Ok(total)
}

/// Resolves every definition of the module, filling the table in dependency
/// order.
pub(crate) fn resolve_widths(module: &OnyxModule) -> (r: Result<SizeTable, ResolveFailure>)
    ensures
        r matches Ok(t) ==> {
            &&& memo_wf(module.definitions@, t.entries@)
            &&& sizes_complete(module.definitions@, bits_map(t.entries@))
            &&& order_covers(module.definitions@, entry_names(t.entries@))
        },
        r matches Err(f) ==> failure_spec(module.definitions@, f),
{
    let ghost defs = module.definitions@;
    let mut memo = SizeTable { entries: Vec::new() };
    let mut stack: Vec<String> = Vec::new();
    proof {
        assert(entry_names(memo.entries@) =~= Seq::<Seq<char>>::empty());
        assert(memo_wf(defs, memo.entries@)) by {
            assert forall|nm: Seq<char>| !(#[trigger] bits_map(memo.entries@).dom().contains(
                nm,
            )) by {
                assert(find_entry(memo.entries@, nm) is None);
            }
        }
    }
    let n = module.definitions.len();
    let mut i: usize = 0;
    while i < n
        invariant
            n == defs.len(),
            defs == module.definitions@,
            i <= n,
            stack@.len() == 0,
            memo_wf(defs, memo.entries@),
            forall|j: int|
                0 <= j < i ==> #[trigger] find_entry(memo.entries@, defs[j].spec_name()) is Some,
        decreases n - i,
    {
        let name = module.definitions[i].name();
        proof {
            lemma_find_def_covers(defs, i as int, 0);
            assert(names_of(stack@) =~= Seq::<Seq<char>>::empty());
        }
        let ghost es_before = memo.entries@;
        match resolve_packed_size_recursive(module, name, &mut memo, &mut stack) {
            Ok(_) => {},
            Err(f) => {
                return Err(f);
            },
        }
        proof {
            assert forall|j: int| 0 <= j < i + 1 implies #[trigger] find_entry(
                memo.entries@,
                defs[j].spec_name(),
            ) is Some by {
                if j < i {
                    lemma_find_entry_extend(es_before, memo.entries@, defs[j].spec_name());
                }
            }
        }
        i = i + 1;
    }
    proof {
        assert(sizes_complete(defs, bits_map(memo.entries@))) by {
            assert forall|nm: Seq<char>| #[trigger] find_def(defs, nm) is Some implies bits_map(
                memo.entries@,
            ).dom().contains(nm) by {
                lemma_find_def_name(defs, nm, 0);
                let j = choose|j: int|
                    0 <= j < defs.len() && defs[j] == find_def(defs, nm)->Some_0
                        && defs[j].spec_name() == nm;
                assert(find_entry(memo.entries@, defs[j].spec_name()) is Some);
            }
        }
        assert(order_covers(defs, entry_names(memo.entries@))) by {
            assert forall|nm: Seq<char>| #[trigger] find_def(defs, nm) is Some implies entry_names(
                memo.entries@,
            ).contains(nm) by {
                assert(bits_map(memo.entries@).dom().contains(nm));
                lemma_find_entry_names(memo.entries@, nm, 0);
            }
        }
    }
    Ok(memo)
}

/// The names joined with an arrow separator, as cycle chains are displayed.
pub open spec fn spec_join_arrow(ns: Seq<Seq<char>>) -> Seq<char>
    decreases ns.len(),
{
    if ns.len() == 0 {
        Seq::empty()
    } else if ns.len() == 1 {
        ns[0]
    } else {
        spec_join_arrow(ns.drop_last()) + " -> "@ + ns.last()
    }
}

/// Joins names with an arrow separator for display in cycle reports.
pub(crate) fn join_arrow(names: &Vec<String>) -> (r: String)
    ensures
        r@ == spec_join_arrow(names_of(names@)),
{
    let mut r = String::new();
    let n = names.len();
    let mut i: usize = 0;
    while i < n
        invariant
            n == names@.len(),
            i <= n,
            r@ == spec_join_arrow(names_of(names@).subrange(0, i as int)),
        decreases n - i,
    {
        if i > 0 {
            r.append(" -> ");
        }
        r.append(names[i].as_str());
        proof {
            let ns = names_of(names@);
            assert(ns[i as int] == names@[i as int]@);
            if i == 0 {
                assert(r@ =~= ns.subrange(0, 1)[0]);
            } else {
                assert(ns.subrange(0, i as int + 1).drop_last() =~= ns.subrange(0, i as int));
                assert(ns.subrange(0, i as int + 1).last() == ns[i as int]);
            }
        }
        i = i + 1;
    }
    proof {
        assert(names_of(names@).subrange(0, n as int) =~= names_of(names@));
    }
    r
}

/// The main resolution entry point: computes the size table of a module.
///
/// On success the table covers exactly the defined names, lists them in
/// dependency order, and assigns the one consistent family of bit widths,
/// each paired with its byte-rounded footprint; the module then has no
/// reference cycle and no undefined reference. Failure occurs exactly when
/// the module has a reference cycle, references an undefined name, or needs
/// a width too large to represent.
pub fn resolve_module(module: &OnyxModule) -> (r: Result<SizeTable, CompileError>)
    ensures
        r matches Ok(t) ==> {
            &&& entry_names(t.entries@).no_duplicates()
            &&& sizes_consistent(module.definitions@, bits_map(t.entries@))
            &&& sizes_complete(module.definitions@, bits_map(t.entries@))
            &&& is_dependency_order(module.definitions@, entry_names(t.entries@))
            &&& order_covers(module.definitions@, entry_names(t.entries@))
            &&& forall|i: int|
                0 <= i < t.entries@.len() ==> (#[trigger] t.entries@[i].bytes) as nat
                    == spec_byte_width(t.entries@[i].bits as nat)
            &&& !has_reference_cycle(module.definitions@)
            &&& !has_undefined_reference(module.definitions@)
        },
        r matches Err(_) ==> has_reference_cycle(module.definitions@) || has_undefined_reference(
            module.definitions@,
        ) || some_width_exceeds(module.definitions@),
{
    let ghost defs = module.definitions@;
    match resolve_widths(module) {
        Ok(t) => {
            proof {
                lemma_dependency_order_excludes_cycle(defs, entry_names(t.entries@));
                assert(!has_undefined_reference(defs)) by {
                    if has_undefined_reference(defs) {
                        let (nm, rr) = choose|nm: Seq<char>, rr: Seq<char>|
                            undefined_ref_witness(defs, nm, rr);
                        let bm = bits_map(t.entries@);
                        assert(bm.dom().contains(nm));
                        let d = find_def(defs, nm)->Some_0;
                        assert(def_refs_in(d, bm.dom()));
                        let w = choose|w: int|
                            0 <= w < def_fields(d).len() && field_ref(def_fields(d)[w]) == Some(
                                rr,
                            );
                        assert(field_ref(def_fields(d)[w]) matches Some(q) ==> bm.dom().contains(
                            q,
                        ));
                        assert(bm.dom().contains(rr));
                        assert(find_def(defs, rr) is Some);
                    }
                }
            }
            Ok(t)
        },
        Err(f) => {
            let msg = match &f {
                ResolveFailure::Cycle(chain) => {
                    let mut m = String::from_str("Circular dependency detected: '");
                    m.append(join_arrow(chain).as_str());
                    m.append("'.");
                    m
                },
                ResolveFailure::Undefined(nm) => {
                    let mut m = String::from_str("Type '");
                    m.append(nm.as_str());
                    m.append("' is used but not defined.");
                    m
                },
                ResolveFailure::TooLarge(nm) => {
                    let mut m = String::from_str("Definition '");
                    m.append(nm.as_str());
                    m.append("' has a bit width that cannot be represented.");
                    m
                },
            };
            Err(CompileError(msg))
        },
    }
}

/// A simple error type for resolution failures.
#[derive(Debug)]
pub struct ResolveError(pub String);

impl ResolveError {
    /// The error message.
    pub fn message(&self) -> (r: &str)
        ensures
            r@ == self.0@,
    {
        self.0.as_str()
    }
}

} // verus!
