//! The scale-limit analyzer: walks a query and a response sample in lock-step,
//! weighs each realized field occurrence by the field's rate, and bounds the
//! total into a scale factor.
use crate::model::{
    entry_value, field_of, find_entry, object_type, rate_of, FieldDefinition, FieldType,
    ResponseValue, SchemaModel, SelectionNode, TypeDefinition,
};
use crate::selection::{deref_all, merge_selections, merged, visits_view, FieldVisit, VisitSpec};
use vstd::prelude::*;

verus! {

/// One unit of rate and of scale factor: values are fixed-point millionths.
pub const SCALE_UNIT: u64 = 1_000_000;

/// The least scale factor reported: the baseline, `1.0`.
pub const MIN_SCALE: u64 = 1_000_000;

/// The greatest scale factor reported: `10.0`.
pub const MAX_SCALE: u64 = 10_000_000;

/// How many levels of nested values the analysis descends before it gives up.
pub const MAX_DEPTH: usize = 128;

/// Why an analysis failed.
#[derive(Debug)]
pub enum AnalysisError {
    /// A selection names a field that the enclosing type lacks.
    SchemaResolution { enclosing_type: String, field_name: String },
    /// The sample's value for a field has another shape than the field's type.
    ShapeMismatch { field_name: String },
    /// The sample or the query nests deeper than the analysis descends.
    DepthExceeded,
    /// The schema has no object type of the root query type's name.
    UnknownQueryType { query_type: String },
}

/// What an error says, as mathematical values.
pub enum ErrorSpec {
    SchemaResolution(Seq<char>, Seq<char>),
    ShapeMismatch(Seq<char>),
    DepthExceeded,
    UnknownQueryType(Seq<char>),
}

impl View for AnalysisError {
    type V = ErrorSpec;

    open spec fn view(&self) -> ErrorSpec {
        match self {
            AnalysisError::SchemaResolution { enclosing_type, field_name } => ErrorSpec::SchemaResolution(
                enclosing_type@,
                field_name@,
            ),
            AnalysisError::ShapeMismatch { field_name } => ErrorSpec::ShapeMismatch(field_name@),
            AnalysisError::DepthExceeded => ErrorSpec::DepthExceeded,
            AnalysisError::UnknownQueryType { query_type } => ErrorSpec::UnknownQueryType(
                query_type@,
            ),
        }
    }
}

/// How many times a field's value is realized: the length of a list, none
/// for a null object or list, and once otherwise.
pub open spec fn cardinality(s: SchemaModel, ft: FieldType, v: ResponseValue) -> int {
    match ft {
        FieldType::List(_) => match v {
            ResponseValue::List(items) => items@.len() as int,
            _ => 0,
        },
        FieldType::Named(n) => match v {
            ResponseValue::Null => if object_type(s, n@) is Some {
                0
            } else {
                1
            },
            _ => 1,
        },
    }
}

/// The cost of the nested selections `children` of field `field`, whose
/// declared type is `ft`, over its value `v`; `fuel` levels remain.
pub open spec fn descend(
    s: SchemaModel,
    field: Seq<char>,
    children: Seq<SelectionNode>,
    ft: FieldType,
    v: ResponseValue,
    fuel: nat,
) -> Result<int, ErrorSpec>
    decreases fuel, 0int, 0int,
{
    if fuel == 0 {
        Err(ErrorSpec::DepthExceeded)
    } else {
        match ft {
            FieldType::List(inner) => match v {
                ResponseValue::Null => Ok(0),
                ResponseValue::List(items) => items_cost(
                    s,
                    field,
                    children,
                    *inner,
                    items@,
                    (fuel - 1) as nat,
                    items@.len() as int,
                ),
                _ => Err(ErrorSpec::ShapeMismatch(field)),
            },
            FieldType::Named(n) => match object_type(s, n@) {
                Some(t) => match v {
                    ResponseValue::Null => Ok(0),
                    ResponseValue::Object(entries) => set_cost(
                        s,
                        merged(children),
                        t,
                        entries@,
                        (fuel - 1) as nat,
                        merged(children).len() as int,
                    ),
                    _ => Err(ErrorSpec::ShapeMismatch(field)),
                },
                None => match v {
                    ResponseValue::Null => Ok(0),
                    ResponseValue::Scalar => Ok(0),
                    _ => Err(ErrorSpec::ShapeMismatch(field)),
                },
            },
        }
    }
}

/// The summed cost of `children` over the first `n` elements of a list.
pub open spec fn items_cost(
    s: SchemaModel,
    field: Seq<char>,
    children: Seq<SelectionNode>,
    inner: FieldType,
    items: Seq<ResponseValue>,
    fuel: nat,
    n: int,
) -> Result<int, ErrorSpec>
    decreases fuel, 1int, n,
{
    if n <= 0 || n > items.len() {
        Ok(0)
    } else {
        match items_cost(s, field, children, inner, items, fuel, n - 1) {
            Err(e) => Err(e),
            Ok(a) => match descend(s, field, children, inner, items[n - 1], fuel) {
                Err(e) => Err(e),
                Ok(b) => Ok(a + b),
            },
        }
    }
}

/// The summed cost of the first `n` field visits over an object of type `t`.
pub open spec fn set_cost(
    s: SchemaModel,
    visits: Seq<VisitSpec>,
    t: TypeDefinition,
    entries: Seq<(String, ResponseValue)>,
    fuel: nat,
    n: int,
) -> Result<int, ErrorSpec>
    decreases fuel, 1int, n,
{
    if n <= 0 || n > visits.len() {
        Ok(0)
    } else {
        match set_cost(s, visits, t, entries, fuel, n - 1) {
            Err(e) => Err(e),
            Ok(a) => match visit_cost(s, visits[n - 1], t, entries, fuel) {
                Err(e) => Err(e),
                Ok(b) => Ok(a + b),
            },
        }
    }
}

/// The cost of one field visit over an object of type `t`: the field's rate
/// times its cardinality, plus what its nested selections cost. A field that
/// the object lacks costs nothing.
pub open spec fn visit_cost(
    s: SchemaModel,
    visit: VisitSpec,
    t: TypeDefinition,
    entries: Seq<(String, ResponseValue)>,
    fuel: nat,
) -> Result<int, ErrorSpec>
    decreases fuel, 0int, 1int,
{
    match field_of(t, visit.0) {
        None => Err(ErrorSpec::SchemaResolution(t.name@, visit.0)),
        Some(f) => match entry_value(entries, visit.0) {
            None => Ok(0),
            Some(v) => match descend(s, visit.0, visit.1, f.field_type, v, fuel) {
                Err(e) => Err(e),
                Ok(c) => Ok(rate_of(f) * cardinality(s, f.field_type, v) + c),
            },
        },
    }
}

/// The raw cost of a query over a sample, before the floor and ceiling.
pub open spec fn raw_cost(s: SchemaModel, query: Seq<SelectionNode>, sample: ResponseValue) -> Result<
    int,
    ErrorSpec,
> {
    match object_type(s, s.query_type@) {
        None => Err(ErrorSpec::UnknownQueryType(s.query_type@)),
        Some(t) => match sample {
            ResponseValue::Null => Ok(0),
            ResponseValue::Object(entries) => set_cost(
                s,
                merged(query),
                t,
                entries@,
                MAX_DEPTH as nat,
                merged(query).len() as int,
            ),
            _ => Err(ErrorSpec::ShapeMismatch(s.query_type@)),
        },
    }
}

/// A raw cost bounded below by `MIN_SCALE` and above by `MAX_SCALE`.
pub open spec fn scale_factor(raw: int) -> int {
    if raw < MIN_SCALE {
        MIN_SCALE as int
    } else if raw > MAX_SCALE {
        MAX_SCALE as int
    } else {
        raw
    }
}

/// The outcome of an analysis: the bounded raw cost, or the error met first.
pub open spec fn analysis(s: SchemaModel, query: Seq<SelectionNode>, sample: ResponseValue) -> Result<
    int,
    ErrorSpec,
> {
    match raw_cost(s, query, sample) {
        Ok(raw) => Ok(scale_factor(raw)),
        Err(e) => Err(e),
    }
}

/// A cost that has stopped counting at the ceiling.
pub open spec fn capped(x: int) -> int {
    if x > MAX_SCALE {
        MAX_SCALE as int
    } else {
        x
    }
}

/// `r` is `spec` with a successful cost capped at the ceiling.
pub open spec fn agrees_capped(r: Result<u64, AnalysisError>, spec: Result<int, ErrorSpec>) -> bool {
    match spec {
        Ok(c) => c >= 0 && r is Ok && r->Ok_0 == capped(c),
        Err(e) => r is Err && r->Err_0@ == e,
    }
}

proof fn lemma_capped_add(x: int, y: int)
    requires
        x >= 0,
        y >= 0,
    ensures
        capped(capped(x) + capped(y)) == capped(x + y),
{
}

proof fn lemma_items_err_stays(
    s: SchemaModel,
    field: Seq<char>,
    children: Seq<SelectionNode>,
    inner: FieldType,
    items: Seq<ResponseValue>,
    fuel: nat,
    k: int,
    n: int,
)
    requires
        0 < k <= n <= items.len(),
        items_cost(s, field, children, inner, items, fuel, k) is Err,
    ensures
        items_cost(s, field, children, inner, items, fuel, n) == items_cost(
            s,
            field,
            children,
            inner,
            items,
            fuel,
            k,
        ),
    decreases n - k,
{
    if n > k {
        lemma_items_err_stays(s, field, children, inner, items, fuel, k, n - 1);
    }
}

proof fn lemma_set_err_stays(
    s: SchemaModel,
    visits: Seq<VisitSpec>,
    t: TypeDefinition,
    entries: Seq<(String, ResponseValue)>,
    fuel: nat,
    k: int,
    n: int,
)
    requires
        0 < k <= n <= visits.len(),
        set_cost(s, visits, t, entries, fuel, k) is Err,
    ensures
        set_cost(s, visits, t, entries, fuel, n) == set_cost(s, visits, t, entries, fuel, k),
    decreases n - k,
{
    if n > k {
        lemma_set_err_stays(s, visits, t, entries, fuel, k, n - 1);
    }
}

/// Adds two capped costs.
fn add_capped(a: u64, b: u64) -> (r: u64)
    requires
        a <= MAX_SCALE,
        b <= MAX_SCALE,
    ensures
        r == capped(a + b),
{
    if a + b > MAX_SCALE {
        MAX_SCALE
    } else {
        a + b
    }
}

proof fn lemma_wide_product(a: int, b: int) by (nonlinear_arith)
    requires
        0 <= a <= 0xffff_ffff_ffff_ffff,
        0 <= b <= 0xffff_ffff_ffff_ffff,
    ensures
        0 <= a * b <= 0xffff_ffff_ffff_ffff * 0xffff_ffff_ffff_ffff,
{
}

/// The capped product of a rate and a cardinality.
fn weigh(rate: u64, count: usize) -> (r: u64)
    ensures
        r == capped(rate * count),
{
    proof {
        lemma_wide_product(rate as int, count as int);
    }
    let wide = (rate as u128) * (count as u128);
    if wide > MAX_SCALE as u128 {
        MAX_SCALE
    } else {
        wide as u64
    }
}

/// The cardinality of a field's value.
fn cardinality_exec(s: &SchemaModel, ft: &FieldType, v: &ResponseValue) -> (r: usize)
    ensures
        r == cardinality(*s, *ft, *v),
{
    match ft {
        FieldType::List(_) => match v {
            ResponseValue::List(items) => items.len(),
            _ => 0,
        },
        FieldType::Named(n) => match v {
            ResponseValue::Null => {
                let found = s.find_type(n);
                proof {
                    crate::model::lemma_object_type_index(*s, n@);
                }
                if found.is_some() {
                    0
                } else {
                    1
                }
            },
            _ => 1,
        },
    }
}

/// Computes `descend`, with the cost capped at the ceiling.
fn descend_exec(
    s: &SchemaModel,
    field: &String,
    children: &Vec<&SelectionNode>,
    ft: &FieldType,
    v: &ResponseValue,
    fuel: usize,
) -> (r: Result<u64, AnalysisError>)
    ensures
        agrees_capped(r, descend(*s, field@, deref_all(children@), *ft, *v, fuel as nat)),
    decreases fuel, 0int,
{
    if fuel == 0 {
        return Err(AnalysisError::DepthExceeded);
    }
    match ft {
        FieldType::List(inner) => match v {
            ResponseValue::Null => Ok(0),
            ResponseValue::List(items) => {
                let mut total: u64 = 0;
                let mut k: usize = 0;
                while k < items.len()
                    invariant
                        fuel > 0,
                        *ft == FieldType::List(*inner),
                        *v == ResponseValue::List(*items),
                        0 <= k <= items@.len(),
                        agrees_capped(
                            Ok(total),
                            items_cost(
                                *s,
                                field@,
                                deref_all(children@),
                                **inner,
                                items@,
                                (fuel - 1) as nat,
                                k as int,
                            ),
                        ),
                    decreases items@.len() - k,
                {
                    let ghost prev = items_cost(
                        *s,
                        field@,
                        deref_all(children@),
                        **inner,
                        items@,
                        (fuel - 1) as nat,
                        k as int,
                    );
                    let one = descend_exec(s, field, children, inner, &items[k], fuel - 1);
                    match one {
                        Err(e) => {
                            proof {
                                assert(items_cost(
                                    *s,
                                    field@,
                                    deref_all(children@),
                                    **inner,
                                    items@,
                                    (fuel - 1) as nat,
                                    k + 1,
                                ) == Err::<int, ErrorSpec>(e@));
                                lemma_items_err_stays(
                                    *s,
                                    field@,
                                    deref_all(children@),
                                    **inner,
                                    items@,
                                    (fuel - 1) as nat,
                                    k + 1,
                                    items@.len() as int,
                                );
                            }
                            return Err(e);
                        },
                        Ok(c) => {
                            proof {
                                let a = prev->Ok_0;
                                let b = descend(
                                    *s,
                                    field@,
                                    deref_all(children@),
                                    **inner,
                                    items@[k as int],
                                    (fuel - 1) as nat,
                                )->Ok_0;
                                lemma_capped_add(a, b);
                            }
                            total = add_capped(total, c);
                        },
                    }
                    k = k + 1;
                }
                Ok(total)
            },
            _ => Err(AnalysisError::ShapeMismatch { field_name: field.clone() }),
        },
        FieldType::Named(n) => {
            let found = s.find_type(n);
            proof {
                crate::model::lemma_object_type_index(*s, n@);
            }
            match found {
                Some(ti) => match v {
                    ResponseValue::Null => Ok(0),
                    ResponseValue::Object(entries) => {
                        let visits = merge_selections(children);
                        set_cost_exec(s, &visits, &s.types[ti], entries, fuel - 1)
                    },
                    _ => Err(AnalysisError::ShapeMismatch { field_name: field.clone() }),
                },
                None => match v {
                    ResponseValue::Null => Ok(0),
                    ResponseValue::Scalar => Ok(0),
                    _ => Err(AnalysisError::ShapeMismatch { field_name: field.clone() }),
                },
            }
        },
    }
}

/// Computes `set_cost` over all the visits, with the cost capped.
fn set_cost_exec(
    s: &SchemaModel,
    visits: &Vec<FieldVisit>,
    t: &TypeDefinition,
    entries: &Vec<(String, ResponseValue)>,
    fuel: usize,
) -> (r: Result<u64, AnalysisError>)
    ensures
        agrees_capped(
            r,
            set_cost(*s, visits_view(visits@), *t, entries@, fuel as nat, visits@.len() as int),
        ),
    decreases fuel, 2int,
{
    let mut total: u64 = 0;
    let mut k: usize = 0;
    while k < visits.len()
        invariant
            0 <= k <= visits@.len(),
            agrees_capped(
                Ok(total),
                set_cost(*s, visits_view(visits@), *t, entries@, fuel as nat, k as int),
            ),
        decreases visits@.len() - k,
    {
        let ghost prev = set_cost(*s, visits_view(visits@), *t, entries@, fuel as nat, k as int);
        let one = visit_exec(s, &visits[k], t, entries, fuel);
        match one {
            Err(e) => {
                proof {
                    lemma_set_err_stays(
                        *s,
                        visits_view(visits@),
                        *t,
                        entries@,
                        fuel as nat,
                        k + 1,
                        visits@.len() as int,
                    );
                }
                return Err(e);
            },
            Ok(c) => {
                proof {
                    let a = prev->Ok_0;
                    let b = visit_cost(
                        *s,
                        visits_view(visits@)[k as int],
                        *t,
                        entries@,
                        fuel as nat,
                    )->Ok_0;
                    lemma_capped_add(a, b);
                }
                total = add_capped(total, c);
            },
        }
        k = k + 1;
    }
    Ok(total)
}

/// Computes `visit_cost`, with the cost capped.
fn visit_exec(
    s: &SchemaModel,
    visit: &FieldVisit,
    t: &TypeDefinition,
    entries: &Vec<(String, ResponseValue)>,
    fuel: usize,
) -> (r: Result<u64, AnalysisError>)
    ensures
        agrees_capped(
            r,
            visit_cost(*s, (visit.name@, deref_all(visit.selections@)), *t, entries@, fuel as nat),
        ),
    decreases fuel, 1int,
{
    let fi = t.find_field(visit.name);
    proof {
        crate::model::lemma_field_of_index(*t, visit.name@);
    }
    match fi {
        None => Err(
            AnalysisError::SchemaResolution {
                enclosing_type: t.name.clone(),
                field_name: visit.name.clone(),
            },
        ),
        Some(i) => {
            let f: &FieldDefinition = &t.fields[i];
            let ei = find_entry(entries, visit.name);
            proof {
                crate::model::lemma_entry_value_index(entries@, visit.name@);
            }
            match ei {
                None => Ok(0),
                Some(j) => {
                    let v = &entries[j].1;
                    let nested = descend_exec(
                        s,
                        visit.name,
                        &visit.selections,
                        &f.field_type,
                        v,
                        fuel,
                    );
                    match nested {
                        Err(e) => Err(e),
                        Ok(c) => {
                            let count = cardinality_exec(s, &f.field_type, v);
                            let rate: u64 = match f.rate {
                                Some(x) => x,
                                None => 0,
                            };
                            let own = weigh(rate, count);
                            proof {
                                let d = descend(
                                    *s,
                                    visit.name@,
                                    deref_all(visit.selections@),
                                    f.field_type,
                                    *v,
                                    fuel as nat,
                                )->Ok_0;
                                assert(rate * count >= 0) by (nonlinear_arith);
                                lemma_capped_add(rate * count, d);
                            }
                            Ok(add_capped(own, c))
                        },
                    }
                },
            }
        },
    }
}

/// The scale-limit analyzer of annotated schemas.
pub struct BluejaySchemaAnalyzer;

impl BluejaySchemaAnalyzer {
    /// Estimates how far the workload of `query` over the response sample
    /// `input` exceeds the baseline: the sum, over every realized occurrence
    /// of a selected field, of the field's rate (a list field occurs once per
    /// element), bounded to `MIN_SCALE..=MAX_SCALE`. Repeated selections of a
    /// field at one level count once. The result is in millionths.
    pub fn analyze_schema_definition(
        schema: &SchemaModel,
        query: &Vec<SelectionNode>,
        input: &ResponseValue,
    ) -> (r: Result<u64, AnalysisError>)
        ensures
            match analysis(*schema, query@, *input) {
                Ok(f) => r is Ok && r->Ok_0 == f,
                Err(e) => r is Err && r->Err_0@ == e,
            },
    {
        let root = schema.find_type(&schema.query_type);
        proof {
            crate::model::lemma_object_type_index(*schema, schema.query_type@);
        }
        let raw = match root {
            None => {
                return Err(AnalysisError::UnknownQueryType { query_type: schema.query_type.clone() });
            },
            Some(ti) => match input {
                ResponseValue::Null => 0,
                ResponseValue::Object(entries) => {
                    let mut refs: Vec<&SelectionNode> = Vec::new();
                    let mut k: usize = 0;
                    while k < query.len()
                        invariant
                            0 <= k <= query@.len(),
                            refs@.len() == k,
                            deref_all(refs@) == query@.take(k as int),
                        decreases query@.len() - k,
                    {
                        refs.push(&query[k]);
                        assert(deref_all(refs@) =~= query@.take(k + 1)) by {
                            assert(deref_all(refs@)[k as int] == query@[k as int]);
                        }
                        k = k + 1;
                    }
                    assert(query@.take(query@.len() as int) =~= query@);
                    let visits = merge_selections(&refs);
                    match set_cost_exec(schema, &visits, &schema.types[ti], entries, MAX_DEPTH) {
                        Ok(c) => c,
                        Err(e) => {
                            return Err(e);
                        },
                    }
                },
                _ => {
                    return Err(AnalysisError::ShapeMismatch { field_name: schema.query_type.clone() });
                },
            },
        };
        if raw < MIN_SCALE {
            Ok(MIN_SCALE)
        } else {
            Ok(raw)
        }
    }
}

} // verus!
