//! What holds of every analysis.
use crate::analyzer::{
    analysis, cardinality, descend, items_cost, raw_cost, scale_factor, set_cost, visit_cost,
    ErrorSpec, MAX_DEPTH, MAX_SCALE, MIN_SCALE,
};
use crate::model::{
    entry_keys, entry_value, lemma_entry_value_index,
    field_names, first_index, lemma_field_of_index, lemma_object_type_index, object_type,
    rate_of, type_names, FieldType, ResponseValue, SchemaModel, SelectionNode, TypeDefinition,
};
use crate::selection::{lemma_merge_repeat, lemma_merge_suffix, merged, VisitSpec};
use vstd::prelude::*;

verus! {

/// Every field of every type of the schema has a zero or absent rate.
pub open spec fn rates_all_zero(s: SchemaModel) -> bool {
    forall|i: int, j: int|
        0 <= i < s.types@.len() && 0 <= j < s.types@[i].fields@.len() ==> rate_of(
            #[trigger] s.types@[i].fields@[j],
        ) == 0
}

proof fn lemma_zero_descend(
    s: SchemaModel,
    field: Seq<char>,
    children: Seq<SelectionNode>,
    ft: FieldType,
    v: ResponseValue,
    fuel: nat,
)
    requires
        rates_all_zero(s),
    ensures
        descend(s, field, children, ft, v, fuel) is Ok ==> descend(
            s,
            field,
            children,
            ft,
            v,
            fuel,
        )->Ok_0 == 0,
    decreases fuel, 0int, 0int,
{
    if fuel > 0 {
        match ft {
            FieldType::List(inner) => {
                if let ResponseValue::List(items) = v {
                    lemma_zero_items(
                        s,
                        field,
                        children,
                        *inner,
                        items@,
                        (fuel - 1) as nat,
                        items@.len() as int,
                    );
                }
            },
            FieldType::Named(n) => {
                lemma_object_type_index(s, n@);
                if let Some(t) = object_type(s, n@) {
                    if let ResponseValue::Object(entries) = v {
                        let ti = first_index(type_names(s), n@)->Some_0;
                        lemma_zero_set(
                            s,
                            merged(children),
                            t,
                            ti,
                            entries@,
                            (fuel - 1) as nat,
                            merged(children).len() as int,
                        );
                    }
                }
            },
        }
    }
}

proof fn lemma_zero_items(
    s: SchemaModel,
    field: Seq<char>,
    children: Seq<SelectionNode>,
    inner: FieldType,
    items: Seq<ResponseValue>,
    fuel: nat,
    n: int,
)
    requires
        rates_all_zero(s),
    ensures
        items_cost(s, field, children, inner, items, fuel, n) is Ok ==> items_cost(
            s,
            field,
            children,
            inner,
            items,
            fuel,
            n,
        )->Ok_0 == 0,
    decreases fuel, 1int, n,
{
    if 0 < n <= items.len() {
        lemma_zero_items(s, field, children, inner, items, fuel, n - 1);
        lemma_zero_descend(s, field, children, inner, items[n - 1], fuel);
    }
}

proof fn lemma_zero_set(
    s: SchemaModel,
    visits: Seq<VisitSpec>,
    t: TypeDefinition,
    ti: int,
    entries: Seq<(String, ResponseValue)>,
    fuel: nat,
    n: int,
)
    requires
        rates_all_zero(s),
        0 <= ti < s.types@.len(),
        s.types@[ti] == t,
    ensures
        set_cost(s, visits, t, entries, fuel, n) is Ok ==> set_cost(
            s,
            visits,
            t,
            entries,
            fuel,
            n,
        )->Ok_0 == 0,
    decreases fuel, 1int, n,
{
    if 0 < n <= visits.len() {
        lemma_zero_set(s, visits, t, ti, entries, fuel, n - 1);
        lemma_zero_visit(s, visits[n - 1], t, ti, entries, fuel);
    }
}

proof fn lemma_zero_visit(
    s: SchemaModel,
    visit: VisitSpec,
    t: TypeDefinition,
    ti: int,
    entries: Seq<(String, ResponseValue)>,
    fuel: nat,
)
    requires
        rates_all_zero(s),
        0 <= ti < s.types@.len(),
        s.types@[ti] == t,
    ensures
        visit_cost(s, visit, t, entries, fuel) is Ok ==> visit_cost(
            s,
            visit,
            t,
            entries,
            fuel,
        )->Ok_0 == 0,
    decreases fuel, 0int, 1int,
{
    lemma_field_of_index(t, visit.0);
    if let Some(j) = first_index(field_names(t), visit.0) {
        assert(rate_of(s.types@[ti].fields@[j]) == 0);
        let f = t.fields@[j];
        if let Some(v) = crate::model::entry_value(entries, visit.0) {
            lemma_zero_descend(s, visit.0, visit.1, f.field_type, v, fuel);
            assert(rate_of(f) * cardinality(s, f.field_type, v) == 0);
        }
    }
}

/// Where no field of the schema carries a rate, every analysis that succeeds
/// reports the baseline `MIN_SCALE`.
pub proof fn lemma_floor(s: SchemaModel, query: Seq<SelectionNode>, sample: ResponseValue)
    requires
        rates_all_zero(s),
    ensures
        analysis(s, query, sample) is Ok ==> analysis(s, query, sample) == Ok::<int, ErrorSpec>(
            MIN_SCALE as int,
        ),
{
    lemma_object_type_index(s, s.query_type@);
    if let Some(t) = object_type(s, s.query_type@) {
        if let ResponseValue::Object(entries) = sample {
            let ti = first_index(type_names(s), s.query_type@)->Some_0;
            lemma_zero_set(
                s,
                merged(query),
                t,
                ti,
                entries@,
                MAX_DEPTH as nat,
                merged(query).len() as int,
            );
        }
    }
}

/// Whenever the raw cost reaches `MAX_SCALE`, the analysis reports exactly
/// `MAX_SCALE`.
pub proof fn lemma_ceiling(s: SchemaModel, query: Seq<SelectionNode>, sample: ResponseValue)
    requires
        raw_cost(s, query, sample) is Ok,
        raw_cost(s, query, sample)->Ok_0 >= MAX_SCALE,
    ensures
        analysis(s, query, sample) == Ok::<int, ErrorSpec>(MAX_SCALE as int),
{
}

/// The reported factor never falls as the raw cost grows.
pub proof fn lemma_scale_factor_monotone(a: int, b: int)
    requires
        a <= b,
    ensures
        scale_factor(a) <= scale_factor(b),
{
}

/// The analysis depends on its three inputs alone: equal inputs give equal
/// outcomes.
pub proof fn lemma_deterministic(
    s1: SchemaModel,
    q1: Seq<SelectionNode>,
    v1: ResponseValue,
    s2: SchemaModel,
    q2: Seq<SelectionNode>,
    v2: ResponseValue,
)
    requires
        s1 == s2,
        q1 == q2,
        v1 == v2,
    ensures
        analysis(s1, q1, v1) == analysis(s2, q2, v2),
{
}

/// Selecting a field again at the top level, with the same nested
/// selections as an earlier selection of it, leaves the analysis unchanged;
/// by repetition, a field selected any number of times is analyzed as if
/// selected once.
pub proof fn lemma_repeated_selection(
    s: SchemaModel,
    a: Seq<SelectionNode>,
    i: int,
    n: SelectionNode,
    b: Seq<SelectionNode>,
    sample: ResponseValue,
)
    requires
        0 <= i < a.len(),
        a[i] == n,
    ensures
        analysis(s, a.push(n) + b, sample) == analysis(s, a + b, sample),
{
    lemma_merge_repeat(a, i, n);
    lemma_merge_suffix(a.push(n), a, b);
}

proof fn lemma_nonneg_descend(
    s: SchemaModel,
    field: Seq<char>,
    children: Seq<SelectionNode>,
    ft: FieldType,
    v: ResponseValue,
    fuel: nat,
)
    ensures
        descend(s, field, children, ft, v, fuel) is Ok ==> descend(
            s,
            field,
            children,
            ft,
            v,
            fuel,
        )->Ok_0 >= 0,
    decreases fuel, 0int, 0int,
{
    if fuel > 0 {
        match ft {
            FieldType::List(inner) => {
                if let ResponseValue::List(items) = v {
                    lemma_nonneg_items(
                        s,
                        field,
                        children,
                        *inner,
                        items@,
                        (fuel - 1) as nat,
                        items@.len() as int,
                    );
                }
            },
            FieldType::Named(n) => {
                if let Some(t) = object_type(s, n@) {
                    if let ResponseValue::Object(entries) = v {
                        lemma_nonneg_set(
                            s,
                            merged(children),
                            t,
                            entries@,
                            (fuel - 1) as nat,
                            merged(children).len() as int,
                        );
                    }
                }
            },
        }
    }
}

proof fn lemma_nonneg_items(
    s: SchemaModel,
    field: Seq<char>,
    children: Seq<SelectionNode>,
    inner: FieldType,
    items: Seq<ResponseValue>,
    fuel: nat,
    n: int,
)
    ensures
        items_cost(s, field, children, inner, items, fuel, n) is Ok ==> items_cost(
            s,
            field,
            children,
            inner,
            items,
            fuel,
            n,
        )->Ok_0 >= 0,
    decreases fuel, 1int, n,
{
    if 0 < n <= items.len() {
        lemma_nonneg_items(s, field, children, inner, items, fuel, n - 1);
        lemma_nonneg_descend(s, field, children, inner, items[n - 1], fuel);
    }
}

proof fn lemma_nonneg_set(
    s: SchemaModel,
    visits: Seq<VisitSpec>,
    t: TypeDefinition,
    entries: Seq<(String, ResponseValue)>,
    fuel: nat,
    n: int,
)
    ensures
        set_cost(s, visits, t, entries, fuel, n) is Ok ==> set_cost(
            s,
            visits,
            t,
            entries,
            fuel,
            n,
        )->Ok_0 >= 0,
    decreases fuel, 1int, n,
{
    if 0 < n <= visits.len() {
        lemma_nonneg_set(s, visits, t, entries, fuel, n - 1);
        lemma_nonneg_visit(s, visits[n - 1], t, entries, fuel);
    }
}

proof fn lemma_nonneg_visit(
    s: SchemaModel,
    visit: VisitSpec,
    t: TypeDefinition,
    entries: Seq<(String, ResponseValue)>,
    fuel: nat,
)
    ensures
        visit_cost(s, visit, t, entries, fuel) is Ok ==> visit_cost(
            s,
            visit,
            t,
            entries,
            fuel,
        )->Ok_0 >= 0,
    decreases fuel, 0int, 1int,
{
    if let Some(f) = crate::model::field_of(t, visit.0) {
        if let Some(v) = entry_value(entries, visit.0) {
            lemma_nonneg_descend(s, visit.0, visit.1, f.field_type, v, fuel);
            let r = rate_of(f);
            let c = cardinality(s, f.field_type, v);
            assert(r * c >= 0) by (nonlinear_arith)
                requires
                    r >= 0,
                    c >= 0,
            ;
        }
    }
}

proof fn lemma_items_grow(
    s: SchemaModel,
    field: Seq<char>,
    children: Seq<SelectionNode>,
    inner: FieldType,
    items: Seq<ResponseValue>,
    fuel: nat,
    m: int,
    n: int,
)
    requires
        0 <= m <= n <= items.len(),
        items_cost(s, field, children, inner, items, fuel, n) is Ok,
    ensures
        items_cost(s, field, children, inner, items, fuel, m) is Ok,
        items_cost(s, field, children, inner, items, fuel, m)->Ok_0 <= items_cost(
            s,
            field,
            children,
            inner,
            items,
            fuel,
            n,
        )->Ok_0,
    decreases n - m,
{
    if m < n {
        lemma_nonneg_descend(s, field, children, inner, items[n - 1], fuel);
        lemma_items_grow(s, field, children, inner, items, fuel, m, n - 1);
    }
}

/// `v2` is `v1` with lists grown by elements at their ends, anywhere in the
/// value: the same shape, the same object keys in the same order, every list
/// at least as long, and the elements they share grown in the same way.
pub open spec fn grows(v1: ResponseValue, v2: ResponseValue) -> bool
    decreases v1, 1int, 0int,
{
    match (v1, v2) {
        (ResponseValue::List(a), ResponseValue::List(b)) => a@.len() <= b@.len() && items_grow(
            v1,
            v2,
            a@.len() as int,
        ),
        (ResponseValue::Object(a), ResponseValue::Object(b)) => a@.len() == b@.len()
            && entries_grow(v1, v2, a@.len() as int),
        _ => v1 == v2,
    }
}

/// The first `n` elements of two lists have grown position by position.
pub open spec fn items_grow(v1: ResponseValue, v2: ResponseValue, n: int) -> bool
    decreases v1, 0int, n,
{
    match (v1, v2) {
        (ResponseValue::List(a), ResponseValue::List(b)) => if n <= 0 {
            true
        } else {
            n <= a@.len() && n <= b@.len() && items_grow(v1, v2, n - 1) && grows(
                a@[n - 1],
                b@[n - 1],
            )
        },
        _ => false,
    }
}

/// The first `n` entries of two objects have the same keys and grown values.
pub open spec fn entries_grow(v1: ResponseValue, v2: ResponseValue, n: int) -> bool
    decreases v1, 0int, n,
{
    match (v1, v2) {
        (ResponseValue::Object(a), ResponseValue::Object(b)) => if n <= 0 {
            true
        } else {
            n <= a@.len() && n <= b@.len() && entries_grow(v1, v2, n - 1) && a@[n - 1].0@ == b@[
                n - 1
            ].0@ && grows(a@[n - 1].1, b@[n - 1].1)
        },
        _ => false,
    }
}

proof fn lemma_items_grow_at(v1: ResponseValue, v2: ResponseValue, n: int, k: int)
    requires
        items_grow(v1, v2, n),
        0 <= k < n,
    ensures
        grows(v1->List_0@[k], v2->List_0@[k]),
        k < v1->List_0@.len(),
        k < v2->List_0@.len(),
    decreases n,
{
    if k < n - 1 {
        lemma_items_grow_at(v1, v2, n - 1, k);
    }
}

proof fn lemma_entries_grow_at(v1: ResponseValue, v2: ResponseValue, n: int, k: int)
    requires
        entries_grow(v1, v2, n),
        0 <= k < n,
    ensures
        v1->Object_0@[k].0@ == v2->Object_0@[k].0@,
        grows(v1->Object_0@[k].1, v2->Object_0@[k].1),
    decreases n,
{
    if k < n - 1 {
        lemma_entries_grow_at(v1, v2, n - 1, k);
    }
}

proof fn lemma_mono_descend(
    s: SchemaModel,
    field: Seq<char>,
    children: Seq<SelectionNode>,
    ft: FieldType,
    v1: ResponseValue,
    v2: ResponseValue,
    fuel: nat,
)
    requires
        grows(v1, v2),
        descend(s, field, children, ft, v1, fuel) is Ok,
        descend(s, field, children, ft, v2, fuel) is Ok,
    ensures
        descend(s, field, children, ft, v1, fuel)->Ok_0 <= descend(
            s,
            field,
            children,
            ft,
            v2,
            fuel,
        )->Ok_0,
    decreases fuel, 0int, 0int,
{
    if fuel > 0 {
        match ft {
            FieldType::List(inner) => {
                if let ResponseValue::List(a) = v1 {
                    let b = v2->List_0;
                    lemma_items_grow(
                        s,
                        field,
                        children,
                        *inner,
                        b@,
                        (fuel - 1) as nat,
                        a@.len() as int,
                        b@.len() as int,
                    );
                    lemma_mono_items(
                        s,
                        field,
                        children,
                        *inner,
                        v1,
                        v2,
                        (fuel - 1) as nat,
                        a@.len() as int,
                    );
                }
            },
            FieldType::Named(n) => {
                if let Some(t) = object_type(s, n@) {
                    if let ResponseValue::Object(a) = v1 {
                        lemma_mono_set(
                            s,
                            merged(children),
                            t,
                            v1,
                            v2,
                            (fuel - 1) as nat,
                            merged(children).len() as int,
                        );
                    }
                }
            },
        }
    }
}

proof fn lemma_mono_items(
    s: SchemaModel,
    field: Seq<char>,
    children: Seq<SelectionNode>,
    inner: FieldType,
    v1: ResponseValue,
    v2: ResponseValue,
    fuel: nat,
    n: int,
)
    requires
        items_grow(v1, v2, n),
        items_cost(s, field, children, inner, v1->List_0@, fuel, n) is Ok,
        items_cost(s, field, children, inner, v2->List_0@, fuel, n) is Ok,
    ensures
        items_cost(s, field, children, inner, v1->List_0@, fuel, n)->Ok_0 <= items_cost(
            s,
            field,
            children,
            inner,
            v2->List_0@,
            fuel,
            n,
        )->Ok_0,
    decreases fuel, 1int, n,
{
    if n > 0 {
        lemma_mono_items(s, field, children, inner, v1, v2, fuel, n - 1);
        lemma_items_grow_at(v1, v2, n, n - 1);
        lemma_mono_descend(
            s,
            field,
            children,
            inner,
            v1->List_0@[n - 1],
            v2->List_0@[n - 1],
            fuel,
        );
    }
}

proof fn lemma_mono_set(
    s: SchemaModel,
    visits: Seq<VisitSpec>,
    t: TypeDefinition,
    v1: ResponseValue,
    v2: ResponseValue,
    fuel: nat,
    n: int,
)
    requires
        grows(v1, v2),
        v1 is Object,
        v2 is Object,
        set_cost(s, visits, t, v1->Object_0@, fuel, n) is Ok,
        set_cost(s, visits, t, v2->Object_0@, fuel, n) is Ok,
    ensures
        set_cost(s, visits, t, v1->Object_0@, fuel, n)->Ok_0 <= set_cost(
            s,
            visits,
            t,
            v2->Object_0@,
            fuel,
            n,
        )->Ok_0,
    decreases fuel, 1int, n,
{
    if 0 < n <= visits.len() {
        lemma_mono_set(s, visits, t, v1, v2, fuel, n - 1);
        lemma_mono_visit(s, visits[n - 1], t, v1, v2, fuel);
    }
}

proof fn lemma_mono_visit(
    s: SchemaModel,
    visit: VisitSpec,
    t: TypeDefinition,
    v1: ResponseValue,
    v2: ResponseValue,
    fuel: nat,
)
    requires
        grows(v1, v2),
        v1 is Object,
        v2 is Object,
        visit_cost(s, visit, t, v1->Object_0@, fuel) is Ok,
        visit_cost(s, visit, t, v2->Object_0@, fuel) is Ok,
    ensures
        visit_cost(s, visit, t, v1->Object_0@, fuel)->Ok_0 <= visit_cost(
            s,
            visit,
            t,
            v2->Object_0@,
            fuel,
        )->Ok_0,
    decreases fuel, 0int, 1int,
{
    let e1 = v1->Object_0@;
    let e2 = v2->Object_0@;
    assert forall|k: int| 0 <= k < e1.len() implies entry_keys(e1)[k] == entry_keys(e2)[k] by {
        lemma_entries_grow_at(v1, v2, e1.len() as int, k);
    }
    assert(entry_keys(e1) =~= entry_keys(e2));
    lemma_entry_value_index(e1, visit.0);
    lemma_entry_value_index(e2, visit.0);
    if let Some(i) = first_index(entry_keys(e1), visit.0) {
        let f = crate::model::field_of(t, visit.0)->Some_0;
        let w1 = e1[i].1;
        let w2 = e2[i].1;
        lemma_entries_grow_at(v1, v2, e1.len() as int, i);
        lemma_mono_descend(s, visit.0, visit.1, f.field_type, w1, w2, fuel);
        let r = rate_of(f);
        let c1 = cardinality(s, f.field_type, w1);
        let c2 = cardinality(s, f.field_type, w2);
        assert(c1 <= c2);
        assert(r * c1 <= r * c2) by (nonlinear_arith)
            requires
                r >= 0,
                c1 <= c2,
        ;
    }
}

/// Growing lists of the sample by elements at their ends, anywhere in it,
/// with schema and query unchanged, never lowers the reported factor of a
/// successful analysis.
pub proof fn lemma_longer_lists(
    s: SchemaModel,
    query: Seq<SelectionNode>,
    sample1: ResponseValue,
    sample2: ResponseValue,
)
    requires
        grows(sample1, sample2),
        analysis(s, query, sample1) is Ok,
        analysis(s, query, sample2) is Ok,
    ensures
        analysis(s, query, sample1)->Ok_0 <= analysis(s, query, sample2)->Ok_0,
{
    if let ResponseValue::Object(a) = sample1 {
        let t = object_type(s, s.query_type@)->Some_0;
        lemma_mono_set(
            s,
            merged(query),
            t,
            sample1,
            sample2,
            MAX_DEPTH as nat,
            merged(query).len() as int,
        );
    }
}

} // verus!
