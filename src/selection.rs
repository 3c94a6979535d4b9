//! Merging of repeated field selections within one selection set.
use crate::model::SelectionNode;
use vstd::prelude::*;

verus! {

/// Two selections are alike: same field name and, position by position,
/// alike nested selections.
pub open spec fn same_selection(a: SelectionNode, b: SelectionNode) -> bool
    decreases a, 1int, 0int,
{
    &&& a.name@ == b.name@
    &&& a.selections@.len() == b.selections@.len()
    &&& same_prefix(a, b, a.selections@.len() as int)
}

/// The first `n` nested selections of `a` and `b` are alike, position by
/// position.
pub open spec fn same_prefix(a: SelectionNode, b: SelectionNode, n: int) -> bool
    decreases a, 0int, n,
{
    if n <= 0 || n > a.selections@.len() || n > b.selections@.len() {
        n <= 0
    } else {
        same_prefix(a, b, n - 1) && same_selection(a.selections@[n - 1], b.selections@[n - 1])
    }
}

proof fn lemma_same_prefix_at(a: SelectionNode, b: SelectionNode, n: int, k: int)
    requires
        same_prefix(a, b, n),
        0 <= k < n,
    ensures
        same_selection(a.selections@[k], b.selections@[k]),
    decreases n,
{
    if k < n - 1 {
        lemma_same_prefix_at(a, b, n - 1, k);
    }
}

/// Some selection of `s` is alike to `c`.
pub open spec fn contains_same(s: Seq<SelectionNode>, c: SelectionNode) -> bool {
    exists|k: int| 0 <= k < s.len() && #[trigger] same_selection(s[k], c)
}

/// `acc` followed by each selection of `extra` that is alike to none before it.
pub open spec fn union_of(acc: Seq<SelectionNode>, extra: Seq<SelectionNode>) -> Seq<SelectionNode>
    decreases extra.len(),
{
    if extra.len() == 0 {
        acc
    } else {
        let u = union_of(acc, extra.drop_last());
        if contains_same(u, extra.last()) {
            u
        } else {
            u.push(extra.last())
        }
    }
}

/// One logical visit of a field: its name and the merged nested selections.
pub type VisitSpec = (Seq<char>, Seq<SelectionNode>);

pub open spec fn has_visit(m: Seq<VisitSpec>, name: Seq<char>) -> bool {
    exists|i: int| 0 <= i < m.len() && #[trigger] m[i].0 == name
}

/// Adds one selection to the visits: into the visit of its name, if there is
/// one, else as a new visit at the end.
pub open spec fn add_selection(m: Seq<VisitSpec>, n: SelectionNode) -> Seq<VisitSpec> {
    if has_visit(m, n.name@) {
        let i = choose|i: int| 0 <= i < m.len() && #[trigger] m[i].0 == n.name@;
        m.update(i, (m[i].0, union_of(m[i].1, n.selections@)))
    } else {
        m.push((n.name@, union_of(Seq::empty(), n.selections@)))
    }
}

/// The distinct field visits of a selection set, in order of first
/// occurrence.
pub open spec fn merged(s: Seq<SelectionNode>) -> Seq<VisitSpec>
    decreases s.len(),
{
    if s.len() == 0 {
        Seq::empty()
    } else {
        add_selection(merged(s.drop_last()), s.last())
    }
}

pub open spec fn names_unique(m: Seq<VisitSpec>) -> bool {
    forall|i: int, j: int| 0 <= i < m.len() && 0 <= j < m.len() && i != j ==> m[i].0 != m[j].0
}

pub proof fn lemma_merged_unique(s: Seq<SelectionNode>)
    ensures
        names_unique(merged(s)),
    decreases s.len(),
{
    if s.len() > 0 {
        lemma_merged_unique(s.drop_last());
    }
}

/// A field selection of a query, with the merged nested selections that a
/// visit of it descends into.
pub struct FieldVisit<'a> {
    pub name: &'a String,
    pub selections: Vec<&'a SelectionNode>,
}

pub open spec fn deref_all(v: Seq<&SelectionNode>) -> Seq<SelectionNode> {
    v.map_values(|n: &SelectionNode| *n)
}

pub open spec fn visit_view(v: FieldVisit) -> VisitSpec {
    (v.name@, deref_all(v.selections@))
}

pub open spec fn visits_view(vs: Seq<FieldVisit>) -> Seq<VisitSpec> {
    vs.map_values(|v: FieldVisit| visit_view(v))
}

/// Decides whether two selections are alike.
pub fn same_selection_exec(a: &SelectionNode, b: &SelectionNode) -> (r: bool)
    ensures
        r == same_selection(*a, *b),
    decreases a,
{
    if a.name != b.name || a.selections.len() != b.selections.len() {
        return false;
    }
    let mut i: usize = 0;
    while i < a.selections.len()
        invariant
            0 <= i <= a.selections@.len(),
            a.selections@.len() == b.selections@.len(),
            a.name@ == b.name@,
            same_prefix(*a, *b, i as int),
        decreases a.selections@.len() - i,
    {
        let alike = same_selection_exec(&a.selections[i], &b.selections[i]);
        assert(alike == same_selection(a.selections@[i as int], b.selections@[i as int]));
        if !alike {
            proof {
                if same_prefix(*a, *b, a.selections@.len() as int) {
                    lemma_same_prefix_at(*a, *b, a.selections@.len() as int, i as int);
                }
            }
            return false;
        }
        i = i + 1;
    }
    assert(same_selection(*a, *b));
    true
}

/// Decides whether some selection of `s` is alike to `c`.
fn contains_same_exec(s: &Vec<&SelectionNode>, c: &SelectionNode) -> (r: bool)
    ensures
        r == contains_same(deref_all(s@), *c),
{
    let mut k: usize = 0;
    while k < s.len()
        invariant
            0 <= k <= s@.len(),
            forall|j: int| 0 <= j < k ==> !same_selection(deref_all(s@)[j], *c),
        decreases s@.len() - k,
    {
        if same_selection_exec(s[k], c) {
            assert(same_selection(deref_all(s@)[k as int], *c));
            return true;
        }
        k = k + 1;
    }
    false
}

/// `acc` followed by each selection of `extra` alike to none before it.
fn union_exec<'a>(acc: &Vec<&'a SelectionNode>, extra: &'a Vec<SelectionNode>) -> (r: Vec<
    &'a SelectionNode,
>)
    ensures
        deref_all(r@) == union_of(deref_all(acc@), extra@),
{
    let mut r: Vec<&'a SelectionNode> = Vec::new();
    let mut k: usize = 0;
    while k < acc.len()
        invariant
            0 <= k <= acc@.len(),
            r@.len() == k,
            deref_all(r@) == deref_all(acc@).take(k as int),
        decreases acc@.len() - k,
    {
        r.push(acc[k]);
        assert(deref_all(r@) =~= deref_all(acc@).take(k + 1)) by {
            assert(deref_all(r@)[k as int] == deref_all(acc@)[k as int]);
        }
        k = k + 1;
    }
    assert(deref_all(acc@).take(acc@.len() as int) =~= deref_all(acc@));
    let mut i: usize = 0;
    while i < extra.len()
        invariant
            0 <= i <= extra@.len(),
            deref_all(r@) == union_of(deref_all(acc@), extra@.take(i as int)),
        decreases extra@.len() - i,
    {
        assert(extra@.take(i + 1).drop_last() =~= extra@.take(i as int));
        if !contains_same_exec(&r, &extra[i]) {
            r.push(&extra[i]);
            assert(deref_all(r@) =~= union_of(deref_all(acc@), extra@.take(i as int)).push(
                extra@[i as int],
            ));
        }
        i = i + 1;
    }
    assert(extra@.take(extra@.len() as int) =~= extra@);
    r
}

/// Where the visit of `name` stands, if there is one.
fn find_visit(r: &Vec<FieldVisit>, name: &String) -> (found: Option<usize>)
    ensures
        match found {
            Some(j) => j < r@.len() && visits_view(r@)[j as int].0 == name@,
            None => !has_visit(visits_view(r@), name@),
        },
{
    let mut j: usize = 0;
    while j < r.len()
        invariant
            0 <= j <= r@.len(),
            forall|k: int| 0 <= k < j ==> visits_view(r@)[k].0 != name@,
        decreases r@.len() - j,
    {
        if *r[j].name == *name {
            return Some(j);
        }
        j = j + 1;
    }
    None
}

/// The distinct field visits of a selection set, in order of first
/// occurrence; repeated selections of a field are merged into one visit.
pub fn merge_selections<'a>(sels: &Vec<&'a SelectionNode>) -> (r: Vec<FieldVisit<'a>>)
    ensures
        visits_view(r@) == merged(deref_all(sels@)),
{
    let mut r: Vec<FieldVisit<'a>> = Vec::new();
    let mut i: usize = 0;
    while i < sels.len()
        invariant
            0 <= i <= sels@.len(),
            visits_view(r@) == merged(deref_all(sels@).take(i as int)),
        decreases sels@.len() - i,
    {
        let node: &'a SelectionNode = sels[i];
        let ghost prefix = deref_all(sels@).take(i as int);
        assert(deref_all(sels@).take(i + 1).drop_last() =~= prefix);
        assert(deref_all(sels@).take(i + 1).last() == *node);
        proof {
            lemma_merged_unique(prefix);
        }
        let found = find_visit(&r, &node.name);
        if let Some(j) = found {
            let ghost m = visits_view(r@);
            assert(m[j as int].0 == node.name@);
            assert(has_visit(m, node.name@));
            let sel = union_exec(&r[j].selections, &node.selections);
            let name = r[j].name;
            r.set(j, FieldVisit { name, selections: sel });
            proof {
                let c = choose|c: int| 0 <= c < m.len() && #[trigger] m[c].0 == node.name@;
                assert(c == j);
                assert(visits_view(r@) =~= add_selection(m, *node));
            }
        } else {
            let empty: Vec<&'a SelectionNode> = Vec::new();
            let sel = union_exec(&empty, &node.selections);
            let ghost m = visits_view(r@);
            assert(deref_all(empty@) =~= Seq::<SelectionNode>::empty());
            r.push(FieldVisit { name: &node.name, selections: sel });
            assert(!has_visit(m, node.name@));
            assert(visits_view(r@) =~= add_selection(m, *node));
        }
        i = i + 1;
    }
    assert(deref_all(sels@).take(sels@.len() as int) =~= deref_all(sels@));
    r
}

proof fn lemma_same_reflexive(x: SelectionNode)
    ensures
        same_selection(x, x),
    decreases x, 1int, 0int,
{
    lemma_same_prefix_reflexive(x, x.selections@.len() as int);
}

proof fn lemma_same_prefix_reflexive(x: SelectionNode, n: int)
    requires
        n <= x.selections@.len(),
    ensures
        same_prefix(x, x, n),
    decreases x, 0int, n,
{
    if n > 0 {
        lemma_same_prefix_reflexive(x, n - 1);
        lemma_same_reflexive(x.selections@[n - 1]);
    }
}

proof fn lemma_union_extends(acc: Seq<SelectionNode>, extra: Seq<SelectionNode>)
    ensures
        union_of(acc, extra).len() >= acc.len(),
        forall|k: int| 0 <= k < acc.len() ==> union_of(acc, extra)[k] == acc[k],
    decreases extra.len(),
{
    if extra.len() > 0 {
        lemma_union_extends(acc, extra.drop_last());
    }
}

proof fn lemma_union_contains(acc: Seq<SelectionNode>, extra: Seq<SelectionNode>)
    ensures
        forall|j: int| 0 <= j < extra.len() ==> contains_same(union_of(acc, extra), #[trigger] extra[j]),
    decreases extra.len(),
{
    if extra.len() > 0 {
        let prev = extra.drop_last();
        lemma_union_contains(acc, prev);
        let u = union_of(acc, prev);
        assert forall|j: int| 0 <= j < extra.len() implies contains_same(
            union_of(acc, extra),
            #[trigger] extra[j],
        ) by {
            if j < extra.len() - 1 {
                assert(prev[j] == extra[j]);
                assert(contains_same(u, extra[j]));
                let k = choose|k: int| 0 <= k < u.len() && #[trigger] same_selection(u[k], extra[j]);
                assert(union_of(acc, extra)[k] == u[k]);
            } else if !contains_same(u, extra.last()) {
                lemma_same_reflexive(extra.last());
                assert(union_of(acc, extra)[u.len() as int] == extra.last());
            }
        }
    }
}

proof fn lemma_union_absorbs(acc: Seq<SelectionNode>, extra: Seq<SelectionNode>)
    requires
        forall|j: int| 0 <= j < extra.len() ==> contains_same(acc, #[trigger] extra[j]),
    ensures
        union_of(acc, extra) == acc,
    decreases extra.len(),
{
    if extra.len() > 0 {
        let prev = extra.drop_last();
        assert forall|j: int| 0 <= j < prev.len() implies contains_same(acc, #[trigger] prev[j]) by {
            assert(prev[j] == extra[j]);
        }
        lemma_union_absorbs(acc, prev);
        assert(contains_same(acc, extra[extra.len() - 1]));
    }
}

/// The visit of the `i`-th selection's name in `merged(a)`, which takes in
/// every nested selection of it, up to likeness.
proof fn lemma_merged_covers(a: Seq<SelectionNode>, i: int) -> (c: int)
    requires
        0 <= i < a.len(),
    ensures
        0 <= c < merged(a).len(),
        merged(a)[c].0 == a[i].name@,
        forall|j: int|
            0 <= j < a[i].selections@.len() ==> contains_same(
                merged(a)[c].1,
                #[trigger] a[i].selections@[j],
            ),
    decreases a.len(),
{
    let m0 = merged(a.drop_last());
    let x = a.last();
    let m = merged(a);
    assert(m == add_selection(m0, x));
    if i == a.len() - 1 {
        if has_visit(m0, x.name@) {
            let c = choose|c: int| 0 <= c < m0.len() && #[trigger] m0[c].0 == x.name@;
            lemma_union_contains(m0[c].1, x.selections@);
            c
        } else {
            lemma_union_contains(Seq::empty(), x.selections@);
            m0.len() as int
        }
    } else {
        let c0 = lemma_merged_covers(a.drop_last(), i);
        assert(a.drop_last()[i] == a[i]);
        if has_visit(m0, x.name@) {
            let c = choose|c: int| 0 <= c < m0.len() && #[trigger] m0[c].0 == x.name@;
            if c == c0 {
                lemma_union_extends(m0[c].1, x.selections@);
                assert forall|j: int| 0 <= j < a[i].selections@.len() implies contains_same(
                    m[c0].1,
                    #[trigger] a[i].selections@[j],
                ) by {
                    assert(contains_same(m0[c0].1, a[i].selections@[j]));
                    let k = choose|k: int|
                        0 <= k < m0[c0].1.len() && #[trigger] same_selection(
                            m0[c0].1[k],
                            a[i].selections@[j],
                        );
                    assert(m[c0].1[k] == m0[c0].1[k]);
                }
            }
        }
        c0
    }
}

/// Adding a selection identical to one already present leaves the merged
/// visits as they were.
pub proof fn lemma_merge_repeat(a: Seq<SelectionNode>, i: int, n: SelectionNode)
    requires
        0 <= i < a.len(),
        a[i] == n,
    ensures
        merged(a.push(n)) == merged(a),
{
    let m = merged(a);
    assert(a.push(n).drop_last() =~= a);
    let c = lemma_merged_covers(a, i);
    lemma_merged_unique(a);
    let c2 = choose|c2: int| 0 <= c2 < m.len() && #[trigger] m[c2].0 == n.name@;
    assert(c2 == c);
    lemma_union_absorbs(m[c].1, n.selections@);
    assert(add_selection(m, n) =~= m);
}

/// Merging is a fold: two selection sequences with the same merged visits
/// keep the same merged visits when the same selections follow both.
pub proof fn lemma_merge_suffix(a1: Seq<SelectionNode>, a2: Seq<SelectionNode>, b: Seq<SelectionNode>)
    requires
        merged(a1) == merged(a2),
    ensures
        merged(a1 + b) == merged(a2 + b),
    decreases b.len(),
{
    if b.len() > 0 {
        lemma_merge_suffix(a1, a2, b.drop_last());
        assert((a1 + b).drop_last() =~= a1 + b.drop_last());
        assert((a2 + b).drop_last() =~= a2 + b.drop_last());
    } else {
        assert(a1 + b =~= a1);
        assert(a2 + b =~= a2);
    }
}

/// No selection of `s` is alike to one before it.
pub open spec fn no_repeats(s: Seq<SelectionNode>) -> bool {
    forall|i: int, j: int| 0 <= i < j < s.len() ==> !#[trigger] same_selection(s[i], s[j])
}

proof fn lemma_union_no_repeats(acc: Seq<SelectionNode>, extra: Seq<SelectionNode>)
    requires
        no_repeats(acc),
    ensures
        no_repeats(union_of(acc, extra)),
    decreases extra.len(),
{
    if extra.len() > 0 {
        lemma_union_no_repeats(acc, extra.drop_last());
        let u = union_of(acc, extra.drop_last());
        if !contains_same(u, extra.last()) {
            let w = u.push(extra.last());
            assert forall|i: int, j: int| 0 <= i < j < w.len() implies !#[trigger] same_selection(
                w[i],
                w[j],
            ) by {
                if j == u.len() {
                    assert(!same_selection(u[i], extra.last()));
                } else {
                    assert(w[i] == u[i] && w[j] == u[j]);
                }
            }
        }
    }
}

/// Every visit of a merged selection set descends into nested selections
/// among which none is alike to another: a selection repeated under a field,
/// or under repeated selections of a field, is visited once.
pub proof fn lemma_merged_no_repeats(s: Seq<SelectionNode>)
    ensures
        forall|c: int| 0 <= c < merged(s).len() ==> no_repeats(#[trigger] merged(s)[c].1),
    decreases s.len(),
{
    if s.len() > 0 {
        let m0 = merged(s.drop_last());
        let x = s.last();
        lemma_merged_no_repeats(s.drop_last());
        if has_visit(m0, x.name@) {
            let c = choose|c: int| 0 <= c < m0.len() && #[trigger] m0[c].0 == x.name@;
            lemma_union_no_repeats(m0[c].1, x.selections@);
        } else {
            lemma_union_no_repeats(Seq::empty(), x.selections@);
        }
    }
}

} // verus!
