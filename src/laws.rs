//! Properties of the component graph that hold across operations.
use vstd::prelude::*;

use crate::closure::{
    closed_under, closure, dep_edge, dep_rel, deps_of, is_first, lemma_closure_closed,
    lemma_closure_least,
};
use crate::ids::id_set;
use crate::manifest::{
    all_components, child_id, dependants_of_id, dependencies_of_id, fully_required, ids_of,
    in_whole, query_starts, renamed_category, required_by, required_in, required_set, Category,
    Component, ComponentList,
};

verus! {

/// Every identifier that a component declares it depends on names a
/// component of the manifest.
pub open spec fn no_dangling(list: ComponentList) -> bool {
    forall|i: int, j: int|
        0 <= i < all_components(list).len() && 0 <= j < deps_of(all_components(list)[i]).len()
            ==> ids_of(all_components(list)).contains(#[trigger] deps_of(all_components(list)[i])[j])
}

/// Resolving a component's dependencies yields the component itself.
pub proof fn lemma_dependencies_hold_self(list: ComponentList, id: Seq<char>)
    requires
        ids_of(all_components(list)).contains(id),
    ensures
        dependencies_of_id(list, id).contains(id),
{
    assert(query_starts(list, id) == set![id]);
    lemma_closure_closed(dep_rel(all_components(list)), set![id]);
}

/// Resolving dependencies is a fixed point: resolving each identifier that
/// the dependencies of a component hold, and joining the results, gives
/// those dependencies again (in a manifest where every declared dependency
/// names a component).
pub proof fn lemma_dependencies_fixed_point(list: ComponentList, id: Seq<char>)
    requires
        ids_of(all_components(list)).contains(id),
        no_dangling(list),
    ensures
        Set::new(
            |y: Seq<char>|
                exists|x: Seq<char>|
                    dependencies_of_id(list, id).contains(x) && #[trigger] dependencies_of_id(list, x).contains(y),
        ) == dependencies_of_id(list, id),
{
    let comps = all_components(list);
    let edge = dep_rel(comps);
    let d = dependencies_of_id(list, id);
    assert(query_starts(list, id) == set![id]);
    lemma_closure_closed(edge, set![id]);
    // Whatever the closure holds is `id` or a declared dependency.
    let named = Set::new(|x: Seq<char>| x == id || ids_of(comps).contains(x));
    assert(closed_under(edge, named)) by {
        assert forall|a: Seq<char>, b: Seq<char>| #[trigger] named.contains(a) && #[trigger] edge(a, b) implies named.contains(b) by {
            assert(dep_edge(comps, a, b));
            let i = choose|i: int| #[trigger] is_first(comps, i, a) && deps_of(comps[i]).contains(b);
            let j = choose|j: int| 0 <= j < deps_of(comps[i]).len() && deps_of(comps[i])[j] == b;
            assert(ids_of(comps).contains(deps_of(comps[i])[j]));
        }
    }
    lemma_closure_least(edge, set![id], named);
    let joined = Set::new(
        |y: Seq<char>| exists|x: Seq<char>| d.contains(x) && #[trigger] dependencies_of_id(list, x).contains(y),
    );
    assert forall|y: Seq<char>| joined.contains(y) implies d.contains(y) by {
        let x = choose|x: Seq<char>| d.contains(x) && #[trigger] dependencies_of_id(list, x).contains(y);
        assert(named.contains(x));
        assert(ids_of(comps).contains(x));
        assert(query_starts(list, x) == set![x]);
        lemma_closure_least(edge, set![x], d);
    }
    assert forall|y: Seq<char>| d.contains(y) implies joined.contains(y) by {
        assert(named.contains(y));
        assert(ids_of(comps).contains(y));
        assert(query_starts(list, y) == set![y]);
        lemma_closure_closed(edge, set![y]);
        assert(dependencies_of_id(list, y).contains(y));
    }
    assert(joined =~= d);
}

/// The dependants of an identifier never hold a required identifier.
pub proof fn lemma_dependants_exclude_required(list: ComponentList, id: Seq<char>)
    ensures
        dependants_of_id(list, id).disjoint(id_set(list.required@)),
{
}

/// Selecting and then unselecting a component that is not required, that no
/// component depends on, that was not selected and that needs nothing
/// unselected, gives back the selection it started from; and a required
/// identifier that either selection held is never taken out.
pub proof fn lemma_select_unselect_round_trip(list: ComponentList, id: Seq<char>, selected: Set<Seq<char>>)
    requires
        ids_of(all_components(list)).contains(id),
        !id_set(list.required@).contains(id),
        forall|i: int| 0 <= i < all_components(list).len() ==> !(#[trigger] deps_of(all_components(list)[i])).contains(id),
        !selected.contains(id),
        dependencies_of_id(list, id).subset_of(selected.insert(id)),
    ensures
        selected.union(dependencies_of_id(list, id)).difference(crate::manifest::unselected_ids(list, id)) == selected,
        id_set(list.required@).intersect(selected.union(dependencies_of_id(list, id))).subset_of(
            selected.union(dependencies_of_id(list, id)).difference(crate::manifest::unselected_ids(list, id)),
        ),
{
    let comps = all_components(list);
    let rel = crate::closure::dependant_rel(comps);
    assert(query_starts(list, id) == set![id]);
    lemma_closure_closed(rel, set![id]);
    lemma_dependencies_hold_self(list, id);
    assert(closed_under(rel, set![id])) by {
        assert forall|a: Seq<char>, b: Seq<char>| #[trigger] set![id].contains(a) && #[trigger] rel(a, b) implies set![id].contains(b) by {
            assert(crate::closure::dependant_edge(comps, a, b));
            let i = choose|i: int| 0 <= i < comps.len() && #[trigger] comps[i].id@ == b && deps_of(comps[i]).contains(a);
            assert(!deps_of(comps[i]).contains(id));
        }
    }
    lemma_closure_least(rel, set![id], set![id]);
    assert(dependants_of_id(list, id) =~= set![id]);
    assert(crate::manifest::unselected_ids(list, id) =~= set![id]);
    assert(selected.union(dependencies_of_id(list, id)).difference(crate::manifest::unselected_ids(list, id)) =~= selected);
}

/// A category at the top of the manifest is in the required set when it is
/// marked required or fully required.
pub proof fn lemma_top_category_required(cats: Seq<Category>, k: int)
    requires
        0 <= k < cats.len(),
        cats[k].required || fully_required(cats[k]),
    ensures
        required_set(cats).contains(cats[k].id@),
{
    assert(required_by(crate::manifest::forest_components(cats), cats[k], cats[k].id@));
}

/// Below a category that is not marked required, a subcategory is made
/// required when it is marked required or fully required.
pub proof fn lemma_subcategory_required(comps: Seq<Component>, c: Category, k: int)
    requires
        0 <= k < c.subcategories@.len(),
        c.subcategories@[k].required || fully_required(c.subcategories@[k]),
    ensures
        required_in(
            comps,
            c,
            c.components@.len() as int,
            c.subcategories@.len() as int,
            true,
            c.subcategories@[k].id@,
        ),
{
    let sub = c.subcategories@[k];
    if sub.required {
        assert(in_whole(comps, sub, sub.id@));
    } else {
        assert(required_in(comps, sub, sub.components@.len() as int, sub.subcategories@.len() as int, true, sub.id@));
    }
}

/// Every component under a category that is marked required is in the
/// required set, whether it is marked required or not.
pub proof fn lemma_marked_category_components_required(cats: Seq<Category>, k: int, i: int)
    requires
        0 <= k < cats.len(),
        cats[k].required,
        0 <= i < crate::manifest::category_components(cats[k]).len(),
    ensures
        required_set(cats).contains(crate::manifest::category_components(cats[k])[i].id@),
{
    let x = crate::manifest::category_components(cats[k])[i].id@;
    let fc = crate::manifest::forest_components(cats);
    assert(ids_of(crate::manifest::category_components(cats[k])).contains(x));
    lemma_closure_closed(dep_rel(fc), ids_of(crate::manifest::category_components(cats[k])));
    assert(required_by(crate::manifest::forest_components(cats), cats[k], x));
}

/// Two categories that carry the same identifiers all through their trees.
pub open spec fn same_ids(a: Category, b: Category) -> bool
    decreases a,
{
    &&& a.id@ == b.id@
    &&& a.subcategories@.len() == b.subcategories@.len()
    &&& forall|i: int|
        0 <= i < a.subcategories@.len() ==> same_ids(#[trigger] a.subcategories@[i], b.subcategories@[i])
    &&& a.components@.len() == b.components@.len()
    &&& forall|i: int| 0 <= i < a.components@.len() ==> (#[trigger] a.components@[i]).id@ == b.components@[i].id@
}

/// Deriving identifiers is deterministic: two derivations of one tree give
/// the same identifiers everywhere.
pub proof fn lemma_derivation_deterministic(raw: Category, a: Category, b: Category, id: Seq<char>)
    requires
        renamed_category(raw, a, id),
        renamed_category(raw, b, id),
    ensures
        same_ids(a, b),
    decreases raw,
{
    assert forall|i: int| 0 <= i < a.subcategories@.len() implies same_ids(#[trigger] a.subcategories@[i], b.subcategories@[i]) by {
        lemma_derivation_deterministic(
            raw.subcategories@[i],
            a.subcategories@[i],
            b.subcategories@[i],
            child_id(id, raw.subcategories@[i].id@),
        );
    }
    assert forall|i: int| 0 <= i < a.components@.len() implies (#[trigger] a.components@[i]).id@ == b.components@[i].id@ by {
        assert(crate::manifest::renamed_component(raw.components@[i], a.components@[i], child_id(id, raw.components@[i].id@)));
        assert(crate::manifest::renamed_component(raw.components@[i], b.components@[i], child_id(id, raw.components@[i].id@)));
    }
}

/// Children with different raw identifiers get different derived ones, and
/// a child's derived identifier strictly extends its parent's.
pub proof fn lemma_child_ids_distinct(parent: Seq<char>, a: Seq<char>, b: Seq<char>)
    requires
        a != b,
    ensures
        child_id(parent, a) != child_id(parent, b),
        child_id(parent, a).len() > parent.len(),
        child_id(parent, a).subrange(0, parent.len() as int) == parent,
{
    let pa = child_id(parent, a);
    let pb = child_id(parent, b);
    let n = parent.len() + 1;
    if pa == pb {
        assert(pa.subrange(n as int, pa.len() as int) =~= a);
        assert(pb.subrange(n as int, pb.len() as int) =~= b);
    }
    assert(pa.subrange(0, parent.len() as int) =~= parent);
}

/// Raw identifiers joined by `-`, as derivation joins a path of them.
pub open spec fn joined(segs: Seq<Seq<char>>) -> Seq<char>
    decreases segs.len(),
{
    if segs.len() == 0 {
        Seq::empty()
    } else if segs.len() == 1 {
        segs[0]
    } else {
        child_id(joined(segs.drop_last()), segs.last())
    }
}

pub open spec fn dash_free(s: Seq<char>) -> bool {
    forall|i: int| 0 <= i < s.len() ==> s[i] != '-'
}

pub open spec fn all_dash_free(segs: Seq<Seq<char>>) -> bool {
    forall|i: int| 0 <= i < segs.len() ==> dash_free(#[trigger] segs[i])
}

proof fn lemma_joined_dash(segs: Seq<Seq<char>>)
    requires
        segs.len() >= 2,
    ensures
        joined(segs)[joined(segs.drop_last()).len() as int] == '-',
{
}

proof fn lemma_joined_single_dash_free(segs: Seq<Seq<char>>)
    requires
        segs.len() == 1,
        all_dash_free(segs),
    ensures
        dash_free(joined(segs)),
{
    assert(dash_free(segs[0]));
}

/// Splitting at the last `-`: `p-x` and `q-y` with dash-free `x`, `y` are
/// equal only if `p == q` and `x == y`.
proof fn lemma_split_last_dash(p: Seq<char>, x: Seq<char>, q: Seq<char>, y: Seq<char>)
    requires
        dash_free(x),
        dash_free(y),
        child_id(p, x) == child_id(q, y),
    ensures
        p == q,
        x == y,
{
    let s = child_id(p, x);
    assert(s.len() == p.len() + 1 + x.len());
    assert(child_id(q, y).len() == q.len() + 1 + y.len());
    if x.len() < y.len() {
        let k = s.len() - x.len() - 1;
        assert(s[k] == '-');
        let j = k - (q.len() + 1);
        assert(child_id(q, y)[k] == y[j]);
    } else if y.len() < x.len() {
        let k = s.len() - y.len() - 1;
        assert(child_id(q, y)[k] == '-');
        let j = k - (p.len() + 1);
        assert(s[k] == x[j]);
    }
    assert(x.len() == y.len());
    assert(p.len() == q.len());
    assert(x =~= s.subrange(p.len() as int + 1, s.len() as int));
    assert(y =~= s.subrange(q.len() as int + 1, s.len() as int));
    assert(p =~= s.subrange(0, p.len() as int));
    assert(q =~= s.subrange(0, q.len() as int));
}

/// Derived identifiers are injective: two different paths of raw
/// identifiers without `-` join to different identifiers. Where sibling
/// categories and components carry different raw identifiers, different
/// places in the tree have different paths, hence different identifiers.
pub proof fn lemma_joined_injective(a: Seq<Seq<char>>, b: Seq<Seq<char>>)
    requires
        a.len() >= 1,
        b.len() >= 1,
        all_dash_free(a),
        all_dash_free(b),
        a != b,
    ensures
        joined(a) != joined(b),
    decreases a.len() + b.len(),
{
    if joined(a) == joined(b) {
        if a.len() == 1 && b.len() == 1 {
            assert(a =~= b);
        } else if a.len() == 1 {
            lemma_joined_single_dash_free(a);
            lemma_joined_dash(b);
        } else if b.len() == 1 {
            lemma_joined_single_dash_free(b);
            lemma_joined_dash(a);
        } else {
            assert(dash_free(a.last()));
            assert(dash_free(b.last()));
            lemma_split_last_dash(joined(a.drop_last()), a.last(), joined(b.drop_last()), b.last());
            assert(all_dash_free(a.drop_last()));
            assert(all_dash_free(b.drop_last()));
            if a.drop_last() != b.drop_last() {
                lemma_joined_injective(a.drop_last(), b.drop_last());
            } else {
                assert(a =~= a.drop_last().push(a.last()));
                assert(b =~= b.drop_last().push(b.last()));
            }
        }
    }
}

/// Under a category derived as the path `segs`, each subcategory and each
/// component is derived as that path followed by its raw identifier.
pub proof fn lemma_derived_ids_are_paths(raw: Category, new: Category, segs: Seq<Seq<char>>)
    requires
        segs.len() >= 1,
        renamed_category(raw, new, joined(segs)),
    ensures
        forall|i: int|
            0 <= i < new.subcategories@.len() ==> (#[trigger] new.subcategories@[i]).id@ == joined(
                segs.push(raw.subcategories@[i].id@),
            ),
        forall|i: int|
            0 <= i < new.components@.len() ==> (#[trigger] new.components@[i]).id@ == joined(
                segs.push(raw.components@[i].id@),
            ),
{
    assert forall|i: int| 0 <= i < new.subcategories@.len() implies (#[trigger] new.subcategories@[i]).id@ == joined(segs.push(raw.subcategories@[i].id@)) by {
        assert(segs.push(raw.subcategories@[i].id@).drop_last() =~= segs);
        assert(renamed_category(raw.subcategories@[i], new.subcategories@[i], child_id(joined(segs), raw.subcategories@[i].id@)));
    }
    assert forall|i: int| 0 <= i < new.components@.len() implies (#[trigger] new.components@[i]).id@ == joined(segs.push(raw.components@[i].id@)) by {
        assert(segs.push(raw.components@[i].id@).drop_last() =~= segs);
        assert(crate::manifest::renamed_component(raw.components@[i], new.components@[i], child_id(joined(segs), raw.components@[i].id@)));
    }
}

/// No category in the tree of `c` is marked required.
pub open spec fn unflagged(c: Category) -> bool
    decreases c,
{
    !c.required && forall|k: int|
        0 <= k < c.subcategories@.len() ==> unflagged(#[trigger] c.subcategories@[k])
}

/// A category named `x` in the tree of `c` is fully required: every
/// component below it is required.
pub open spec fn fully_required_named(c: Category, x: Seq<char>) -> bool
    decreases c,
{
    (c.id@ == x && fully_required(c)) || exists|k: int|
        0 <= k < c.subcategories@.len() && fully_required_named(#[trigger] c.subcategories@[k], x)
}

/// `x` is named by no `depends` list of `comps`.
pub open spec fn not_a_dependency(comps: Seq<Component>, x: Seq<char>) -> bool {
    forall|i: int| 0 <= i < comps.len() ==> !(#[trigger] deps_of(comps[i])).contains(x)
}

/// What a component needs holds nothing but the component and names from
/// `depends` lists.
proof fn lemma_closure_of_one(comps: Seq<Component>, id: Seq<char>, x: Seq<char>)
    requires
        x != id,
        not_a_dependency(comps, x),
    ensures
        !closure(dep_rel(comps), set![id]).contains(x),
{
    let edge = dep_rel(comps);
    let named = Set::new(|y: Seq<char>| y != x);
    assert(closed_under(edge, named)) by {
        assert forall|a: Seq<char>, b: Seq<char>| #[trigger] named.contains(a) && #[trigger] edge(a, b) implies named.contains(b) by {
            assert(dep_edge(comps, a, b));
            let i = choose|i: int| #[trigger] is_first(comps, i, a) && deps_of(comps[i]).contains(b);
            assert(!deps_of(comps[i]).contains(x));
        }
    }
    lemma_closure_least(edge, set![id], named);
}

proof fn lemma_forest_holds(cats: Seq<Category>, k: int, y: Seq<char>)
    requires
        0 <= k < cats.len(),
        ids_of(crate::manifest::category_components(cats[k])).contains(y),
    ensures
        ids_of(crate::manifest::forest_components(cats)).contains(y),
    decreases cats.len(),
{
    let f = crate::manifest::forest_components(cats);
    let prev = crate::manifest::forest_components(cats.drop_last());
    let last = crate::manifest::category_components(cats.last());
    assert(f == prev + last);
    if k < cats.len() - 1 {
        assert(cats.drop_last()[k] == cats[k]);
        lemma_forest_holds(cats.drop_last(), k, y);
        let i = choose|i: int| 0 <= i < prev.len() && prev[i].id@ == y;
        assert(f[i].id@ == y);
    } else {
        let i = choose|i: int| 0 <= i < last.len() && last[i].id@ == y;
        assert(f[prev.len() + i].id@ == y);
    }
}

/// Without marks, the bottom-up rule alone decides: a category name `x`
/// that names no component below `c` and no dependency is made required by
/// `c` exactly when a category of that name below `c` (or `c` itself) is
/// fully required.
pub proof fn lemma_required_iff_fully_required(comps: Seq<Component>, c: Category, x: Seq<char>)
    requires
        unflagged(c),
        !ids_of(crate::manifest::category_components(c)).contains(x),
        not_a_dependency(comps, x),
    ensures
        required_in(comps, c, c.components@.len() as int, c.subcategories@.len() as int, true, x)
            == fully_required_named(c, x),
    decreases c,
{
    let cc = crate::manifest::category_components(c);
    let fs = crate::manifest::forest_components(c.subcategories@);
    assert(cc == fs + c.components@);
    assert forall|k: int| 0 <= k < c.components@.len() implies !closure(dep_rel(comps), set![(#[trigger] c.components@[k]).id@]).contains(x) by {
        assert(cc[fs.len() + k] == c.components@[k]);
        assert(ids_of(cc).contains(c.components@[k].id@));
        lemma_closure_of_one(comps, c.components@[k].id@, x);
    }
    assert forall|k: int| 0 <= k < c.subcategories@.len() implies required_in(
        comps,
        #[trigger] c.subcategories@[k],
        c.subcategories@[k].components@.len() as int,
        c.subcategories@[k].subcategories@.len() as int,
        true,
        x,
    ) == fully_required_named(c.subcategories@[k], x) by {
        let sub = c.subcategories@[k];
        assert(unflagged(sub));
        assert(!ids_of(crate::manifest::category_components(sub)).contains(x)) by {
            if ids_of(crate::manifest::category_components(sub)).contains(x) {
                lemma_forest_holds(c.subcategories@, k, x);
                let i = choose|i: int| 0 <= i < fs.len() && fs[i].id@ == x;
                assert(cc[i].id@ == x);
            }
        }
        lemma_required_iff_fully_required(comps, sub, x);
    }
    assert forall|k: int| 0 <= k < c.subcategories@.len() implies !(#[trigger] c.subcategories@[k]).required by {
        assert(unflagged(c.subcategories@[k]));
    }
    let lhs = required_in(comps, c, c.components@.len() as int, c.subcategories@.len() as int, true, x);
    if lhs {
        if exists|k: int|
            0 <= k < c.subcategories@.len() && if (#[trigger] c.subcategories@[k]).required {
                in_whole(comps, c.subcategories@[k], x)
            } else {
                required_in(comps, c.subcategories@[k], c.subcategories@[k].components@.len() as int, c.subcategories@[k].subcategories@.len() as int, true, x)
            } {
            let k = choose|k: int|
                0 <= k < c.subcategories@.len() && if (#[trigger] c.subcategories@[k]).required {
                    in_whole(comps, c.subcategories@[k], x)
                } else {
                    required_in(comps, c.subcategories@[k], c.subcategories@[k].components@.len() as int, c.subcategories@[k].subcategories@.len() as int, true, x)
                };
            assert(fully_required_named(c.subcategories@[k], x));
        }
    }
    if fully_required_named(c, x) && !(c.id@ == x && fully_required(c)) {
        let k = choose|k: int| 0 <= k < c.subcategories@.len() && fully_required_named(#[trigger] c.subcategories@[k], x);
        assert(required_in(comps, c.subcategories@[k], c.subcategories@[k].components@.len() as int, c.subcategories@[k].subcategories@.len() as int, true, x));
    }
}

/// Across a manifest without marks, the required set holds a category name
/// (that names no component and no dependency) exactly when a category of
/// that name is fully required.
pub proof fn lemma_required_set_iff_fully_required(cats: Seq<Category>, x: Seq<char>)
    requires
        forall|k: int| 0 <= k < cats.len() ==> unflagged(#[trigger] cats[k]),
        !ids_of(crate::manifest::forest_components(cats)).contains(x),
        not_a_dependency(crate::manifest::forest_components(cats), x),
    ensures
        required_set(cats).contains(x) == exists|k: int| 0 <= k < cats.len() && fully_required_named(#[trigger] cats[k], x),
{
    let comps = crate::manifest::forest_components(cats);
    assert forall|k: int| 0 <= k < cats.len() implies required_by(comps, #[trigger] cats[k], x) == fully_required_named(cats[k], x) by {
        assert(!ids_of(crate::manifest::category_components(cats[k])).contains(x)) by {
            if ids_of(crate::manifest::category_components(cats[k])).contains(x) {
                lemma_forest_holds(cats, k, x);
            }
        }
        lemma_required_iff_fully_required(comps, cats[k], x);
    }
}

/// Every category below a category marked required is in the required set.
pub proof fn lemma_marked_ancestor_required(cats: Seq<Category>, k: int, x: Seq<char>)
    requires
        0 <= k < cats.len(),
        cats[k].required,
        crate::manifest::in_tree(cats[k], x),
    ensures
        required_set(cats).contains(x),
{
    assert(required_by(crate::manifest::forest_components(cats), cats[k], x));
}

/// Whether `p` is a path of subcategory positions below `c`.
pub open spec fn valid_path(c: Category, p: Seq<int>) -> bool
    decreases p.len(),
{
    p.len() == 0 || (0 <= p[0] < c.subcategories@.len() && valid_path(
        c.subcategories@[p[0]],
        p.drop_first(),
    ))
}

/// The category that the path `p` leads to from `c`.
pub open spec fn category_at(c: Category, p: Seq<int>) -> Category
    decreases p.len(),
{
    if p.len() == 0 || !(0 <= p[0] < c.subcategories@.len()) {
        c
    } else {
        category_at(c.subcategories@[p[0]], p.drop_first())
    }
}

/// The raw identifiers met along the path `p` from `c`, `c`'s first.
pub open spec fn raw_path(c: Category, p: Seq<int>) -> Seq<Seq<char>>
    decreases p.len(),
{
    if p.len() == 0 || !(0 <= p[0] < c.subcategories@.len()) {
        seq![c.id@]
    } else {
        seq![c.id@] + raw_path(c.subcategories@[p[0]], p.drop_first())
    }
}

/// Each category of a derived tree carries its raw path joined by `-`, and
/// each component the raw path of its category followed by its own raw
/// identifier.
pub proof fn lemma_tree_ids_are_paths(raw: Category, new: Category, pre: Seq<Seq<char>>, p: Seq<int>)
    requires
        renamed_category(raw, new, joined(pre.push(raw.id@))),
        valid_path(raw, p),
    ensures
        valid_path(new, p),
        renamed_category(
            category_at(raw, p),
            category_at(new, p),
            joined(pre + raw_path(raw, p)),
        ),
        category_at(new, p).id@ == joined(pre + raw_path(raw, p)),
        forall|j: int|
            0 <= j < category_at(new, p).components@.len() ==> (#[trigger] category_at(new, p).components@[j]).id@
                == joined((pre + raw_path(raw, p)).push(category_at(raw, p).components@[j].id@)),
    decreases p.len(),
{
    let segs = pre + raw_path(raw, p);
    if p.len() == 0 {
        assert(pre.push(raw.id@) =~= pre + seq![raw.id@]);
    } else {
        let k = p[0];
        let sub = raw.subcategories@[k];
        let nsub = new.subcategories@[k];
        let pre2 = pre.push(raw.id@);
        assert(pre2.len() >= 1);
        assert(renamed_category(sub, nsub, child_id(joined(pre2), sub.id@)));
        assert(pre2.push(sub.id@).drop_last() =~= pre2);
        assert(joined(pre2.push(sub.id@)) == child_id(joined(pre2), sub.id@));
        lemma_tree_ids_are_paths(sub, nsub, pre2, p.drop_first());
        assert(pre2 + raw_path(sub, p.drop_first()) =~= pre + raw_path(raw, p));
    }
    let at = category_at(raw, p);
    let nat_ = category_at(new, p);
    assert forall|j: int| 0 <= j < nat_.components@.len() implies (#[trigger] nat_.components@[j]).id@ == joined(segs.push(at.components@[j].id@)) by {
        assert(crate::manifest::renamed_component(at.components@[j], nat_.components@[j], child_id(joined(segs), at.components@[j].id@)));
        assert(segs.len() >= 1) by {
            assert(raw_path(raw, p).len() >= 1);
        }
        assert(segs.push(at.components@[j].id@).drop_last() =~= segs);
    }
}

proof fn lemma_raw_path_len(c: Category, p: Seq<int>)
    requires
        valid_path(c, p),
    ensures
        raw_path(c, p).len() == p.len() + 1,
    decreases p.len(),
{
    if p.len() > 0 {
        lemma_raw_path_len(c.subcategories@[p[0]], p.drop_first());
    }
}

/// Within every category of the tree, subcategories and components carry
/// pairwise different raw identifiers, none of which holds `-`.
pub open spec fn well_named(c: Category) -> bool
    decreases c,
{
    &&& dash_free(c.id@)
    &&& forall|i: int, j: int|
        0 <= i < c.subcategories@.len() && 0 <= j < c.subcategories@.len() && i != j
            ==> (#[trigger] c.subcategories@[i]).id@ != (#[trigger] c.subcategories@[j]).id@
    &&& forall|i: int, j: int|
        0 <= i < c.components@.len() && 0 <= j < c.components@.len() && i != j
            ==> (#[trigger] c.components@[i]).id@ != (#[trigger] c.components@[j]).id@
    &&& forall|i: int, j: int|
        0 <= i < c.subcategories@.len() && 0 <= j < c.components@.len()
            ==> (#[trigger] c.subcategories@[i]).id@ != (#[trigger] c.components@[j]).id@
    &&& forall|j: int| 0 <= j < c.components@.len() ==> dash_free((#[trigger] c.components@[j]).id@)
    &&& forall|k: int| 0 <= k < c.subcategories@.len() ==> well_named(#[trigger] c.subcategories@[k])
}

proof fn lemma_path_well_named(c: Category, p: Seq<int>)
    requires
        well_named(c),
        valid_path(c, p),
    ensures
        well_named(category_at(c, p)),
        all_dash_free(raw_path(c, p)),
    decreases p.len(),
{
    if p.len() > 0 {
        let sub = c.subcategories@[p[0]];
        lemma_path_well_named(sub, p.drop_first());
        let r = raw_path(c, p);
        let t = raw_path(sub, p.drop_first());
        assert(r == seq![c.id@] + t);
        assert forall|i: int| 0 <= i < r.len() implies dash_free(#[trigger] r[i]) by {
            if i > 0 {
                assert(r[i] == t[i - 1]);
            }
        }
    }
}

/// Raw paths of two different category positions differ.
proof fn lemma_category_paths_differ(c: Category, p: Seq<int>, q: Seq<int>)
    requires
        well_named(c),
        valid_path(c, p),
        valid_path(c, q),
        p != q,
    ensures
        raw_path(c, p) != raw_path(c, q),
    decreases p.len(),
{
    lemma_raw_path_len(c, p);
    lemma_raw_path_len(c, q);
    if p.len() == q.len() && p.len() > 0 {
        let rp = raw_path(c, p);
        let rq = raw_path(c, q);
        if p[0] != q[0] {
            assert(rp[1] == raw_path(c.subcategories@[p[0]], p.drop_first())[0]);
            assert(rq[1] == raw_path(c.subcategories@[q[0]], q.drop_first())[0]);
            assert(c.subcategories@[p[0]].id@ != c.subcategories@[q[0]].id@);
        } else {
            assert(p.drop_first() != q.drop_first()) by {
                if p.drop_first() == q.drop_first() {
                    assert(p =~= seq![p[0]] + p.drop_first());
                    assert(q =~= seq![q[0]] + q.drop_first());
                }
            }
            let sub = c.subcategories@[p[0]];
            lemma_category_paths_differ(sub, p.drop_first(), q.drop_first());
            if rp == rq {
                assert(raw_path(sub, p.drop_first()) =~= rp.drop_first());
                assert(raw_path(sub, q.drop_first()) =~= rq.drop_first());
            }
        }
    } else if p.len() == q.len() {
        assert(p =~= q);
    }
}

/// Extending a path by one position adds the raw identifier found there.
proof fn lemma_raw_path_push(c: Category, q: Seq<int>, k: int)
    requires
        valid_path(c, q),
        0 <= k < category_at(c, q).subcategories@.len(),
    ensures
        valid_path(c, q.push(k)),
        raw_path(c, q.push(k)) == raw_path(c, q).push(category_at(c, q).subcategories@[k].id@),
        category_at(c, q.push(k)) == category_at(c, q).subcategories@[k],
    decreases q.len(),
{
    let qk = q.push(k);
    if q.len() == 0 {
        assert(qk.drop_first() =~= Seq::<int>::empty());
        assert(qk[0] == k);
        let sub = c.subcategories@[k];
        assert(raw_path(sub, qk.drop_first()) == seq![sub.id@]);
        assert(category_at(sub, qk.drop_first()) == sub);
        assert(valid_path(sub, qk.drop_first()));
        assert(raw_path(c, qk) =~= raw_path(c, q).push(category_at(c, q).subcategories@[k].id@));
    } else {
        assert(qk.drop_first() =~= q.drop_first().push(k));
        assert(qk[0] == q[0]);
        lemma_raw_path_push(c.subcategories@[q[0]], q.drop_first(), k);
        assert(raw_path(c, qk) =~= raw_path(c, q).push(category_at(c, q).subcategories@[k].id@));
    }
}

/// Derived identifiers are unique across a tree whose siblings carry
/// different raw identifiers without `-`: two different categories, two
/// different components, or a category and a component never share one.
pub proof fn lemma_tree_ids_unique(raw: Category, new: Category, p: Seq<int>, q: Seq<int>, j: int, l: int)
    requires
        well_named(raw),
        renamed_category(raw, new, raw.id@),
        valid_path(raw, p),
        valid_path(raw, q),
        0 <= l < category_at(raw, q).components@.len(),
    ensures
        p != q ==> category_at(new, p).id@ != category_at(new, q).id@,
        category_at(new, p).id@ != category_at(new, q).components@[l].id@,
        (0 <= j < category_at(raw, p).components@.len() && (p != q || j != l))
            ==> category_at(new, p).components@[j].id@ != category_at(new, q).components@[l].id@,
{
    let pre = Seq::<Seq<char>>::empty();
    assert(pre.push(raw.id@) =~= seq![raw.id@]);
    assert(joined(seq![raw.id@]) == raw.id@);
    lemma_tree_ids_are_paths(raw, new, pre, p);
    lemma_tree_ids_are_paths(raw, new, pre, q);
    assert(pre + raw_path(raw, p) =~= raw_path(raw, p));
    assert(pre + raw_path(raw, q) =~= raw_path(raw, q));
    let rp = raw_path(raw, p);
    let rq = raw_path(raw, q);
    lemma_path_well_named(raw, p);
    lemma_path_well_named(raw, q);
    lemma_raw_path_len(raw, p);
    lemma_raw_path_len(raw, q);
    let cq = category_at(raw, q);
    let lq = cq.components@[l].id@;
    assert(all_dash_free(rq.push(lq))) by {
        assert forall|i: int| 0 <= i < rq.push(lq).len() implies dash_free(#[trigger] rq.push(lq)[i]) by {
            if i < rq.len() {
                assert(rq.push(lq)[i] == rq[i]);
            }
        }
    }
    // two categories
    if p != q {
        lemma_category_paths_differ(raw, p, q);
        lemma_joined_injective(rp, rq);
    }
    // a category and a component
    assert(rp != rq.push(lq)) by {
        if rp == rq.push(lq) {
            assert(p.len() == q.len() + 1);
            let q2 = p.drop_last();
            let k = p.last();
            assert(p =~= q2.push(k));
            lemma_prefix_valid(raw, p);
            lemma_raw_path_push(raw, q2, k);
            lemma_raw_path_len(raw, q2);
            assert(raw_path(raw, q2) =~= rp.drop_last());
            assert(rq =~= rp.drop_last());
            if q2 != q {
                lemma_category_paths_differ(raw, q2, q);
            }
            assert(q2 == q);
            assert(category_at(raw, q).subcategories@[k].id@ == lq);
        }
    }
    lemma_joined_injective(rp, rq.push(lq));
    // two components
    if 0 <= j < category_at(raw, p).components@.len() && (p != q || j != l) {
        let cp = category_at(raw, p);
        let lp = cp.components@[j].id@;
        assert(all_dash_free(rp.push(lp))) by {
            assert forall|i: int| 0 <= i < rp.push(lp).len() implies dash_free(#[trigger] rp.push(lp)[i]) by {
                if i < rp.len() {
                    assert(rp.push(lp)[i] == rp[i]);
                }
            }
        }
        assert(rp.push(lp) != rq.push(lq)) by {
            if rp.push(lp) == rq.push(lq) {
                assert(rp =~= rp.push(lp).drop_last());
                assert(rq =~= rq.push(lq).drop_last());
                if p != q {
                    lemma_category_paths_differ(raw, p, q);
                }
                assert(rp.push(lp).last() == lp);
                assert(rq.push(lq).last() == lq);
            }
        }
        lemma_joined_injective(rp.push(lp), rq.push(lq));
    }
}

proof fn lemma_prefix_valid(c: Category, p: Seq<int>)
    requires
        valid_path(c, p),
        p.len() >= 1,
    ensures
        valid_path(c, p.drop_last()),
        0 <= p.last() < category_at(c, p.drop_last()).subcategories@.len(),
    decreases p.len(),
{
    if p.len() > 1 {
        let sub = c.subcategories@[p[0]];
        lemma_prefix_valid(sub, p.drop_first());
        assert(p.drop_last().drop_first() =~= p.drop_first().drop_last());
        assert(p.drop_last()[0] == p[0]);
    } else {
        assert(p.drop_last() =~= Seq::<int>::empty());
    }
}

/// The derived identifier at a place of the tree: the category at `p`, or
/// with `j >= 0` its component `j`.
pub open spec fn node_id(c: Category, p: Seq<int>, j: int) -> Seq<char> {
    if j < 0 {
        category_at(c, p).id@
    } else {
        category_at(c, p).components@[j].id@
    }
}

/// Whether `(p, j)` names a place of the tree of `c`.
pub open spec fn valid_node(c: Category, p: Seq<int>, j: int) -> bool {
    valid_path(c, p) && j < category_at(c, p).components@.len()
}

proof fn lemma_node_path(raw: Category, new: Category, p: Seq<int>, j: int) -> (path: Seq<Seq<char>>)
    requires
        well_named(raw),
        renamed_category(raw, new, raw.id@),
        valid_node(raw, p, j),
    ensures
        path.len() >= 1,
        path[0] == raw.id@,
        all_dash_free(path),
        node_id(new, p, j) == joined(path),
{
    let pre = Seq::<Seq<char>>::empty();
    assert(pre.push(raw.id@) =~= seq![raw.id@]);
    lemma_tree_ids_are_paths(raw, new, pre, p);
    assert(pre + raw_path(raw, p) =~= raw_path(raw, p));
    lemma_path_well_named(raw, p);
    lemma_raw_path_len(raw, p);
    let rp = raw_path(raw, p);
    assert(rp[0] == raw.id@);
    if j < 0 {
        rp
    } else {
        let x = category_at(raw, p).components@[j].id@;
        assert(all_dash_free(rp.push(x))) by {
            assert forall|i: int| 0 <= i < rp.push(x).len() implies dash_free(#[trigger] rp.push(x)[i]) by {
                if i < rp.len() {
                    assert(rp.push(x)[i] == rp[i]);
                }
            }
        }
        rp.push(x)
    }
}

/// Places in the trees of two top categories with different raw
/// identifiers never share a derived identifier.
pub proof fn lemma_forest_ids_unique(
    raw1: Category,
    new1: Category,
    raw2: Category,
    new2: Category,
    p: Seq<int>,
    j: int,
    q: Seq<int>,
    l: int,
)
    requires
        well_named(raw1),
        well_named(raw2),
        raw1.id@ != raw2.id@,
        renamed_category(raw1, new1, raw1.id@),
        renamed_category(raw2, new2, raw2.id@),
        valid_node(raw1, p, j),
        valid_node(raw2, q, l),
    ensures
        node_id(new1, p, j) != node_id(new2, q, l),
{
    let a = lemma_node_path(raw1, new1, p, j);
    let b = lemma_node_path(raw2, new2, q, l);
    assert(a != b);
    lemma_joined_injective(a, b);
}

/// Components that agree on all that the graph reads.
pub open spec fn similar_component(a: Component, b: Component) -> bool {
    a.id@ == b.id@ && a.required == b.required && deps_of(a) == deps_of(b)
}

pub open spec fn similar_components(a: Seq<Component>, b: Seq<Component>) -> bool {
    a.len() == b.len() && forall|i: int| 0 <= i < a.len() ==> similar_component(#[trigger] a[i], b[i])
}

/// Categories that agree on all that the graph reads, all through their
/// trees.
pub open spec fn similar(a: Category, b: Category) -> bool
    decreases a,
{
    &&& a.id@ == b.id@
    &&& a.required == b.required
    &&& a.subcategories@.len() == b.subcategories@.len()
    &&& forall|i: int|
        0 <= i < a.subcategories@.len() ==> similar(#[trigger] a.subcategories@[i], b.subcategories@[i])
    &&& similar_components(a.components@, b.components@)
}

pub open spec fn similar_forests(a: Seq<Category>, b: Seq<Category>) -> bool {
    a.len() == b.len() && forall|i: int| 0 <= i < a.len() ==> similar(#[trigger] a[i], b[i])
}

proof fn lemma_renamed_similar(raw: Category, a: Category, b: Category, id: Seq<char>)
    requires
        renamed_category(raw, a, id),
        renamed_category(raw, b, id),
    ensures
        similar(a, b),
    decreases raw,
{
    assert forall|i: int| 0 <= i < a.subcategories@.len() implies similar(#[trigger] a.subcategories@[i], b.subcategories@[i]) by {
        lemma_renamed_similar(raw.subcategories@[i], a.subcategories@[i], b.subcategories@[i], child_id(id, raw.subcategories@[i].id@));
    }
    assert forall|i: int| 0 <= i < a.components@.len() implies similar_component(#[trigger] a.components@[i], b.components@[i]) by {
        assert(crate::manifest::renamed_component(raw.components@[i], a.components@[i], child_id(id, raw.components@[i].id@)));
        assert(crate::manifest::renamed_component(raw.components@[i], b.components@[i], child_id(id, raw.components@[i].id@)));
    }
}

proof fn lemma_similar_concat(a1: Seq<Component>, b1: Seq<Component>, a2: Seq<Component>, b2: Seq<Component>)
    requires
        similar_components(a1, b1),
        similar_components(a2, b2),
    ensures
        similar_components(a1 + a2, b1 + b2),
{
    assert forall|i: int| 0 <= i < (a1 + a2).len() implies similar_component(#[trigger] (a1 + a2)[i], (b1 + b2)[i]) by {
        if i < a1.len() {
            assert(similar_component(a1[i], b1[i]));
        } else {
            assert(similar_component(a2[i - a1.len()], b2[i - a1.len()]));
        }
    }
}

proof fn lemma_forest_components_similar(a: Seq<Category>, b: Seq<Category>)
    requires
        similar_forests(a, b),
    ensures
        similar_components(crate::manifest::forest_components(a), crate::manifest::forest_components(b)),
    decreases a,
{
    if a.len() > 0 {
        assert(similar_forests(a.drop_last(), b.drop_last())) by {
            assert forall|i: int| 0 <= i < a.drop_last().len() implies similar(#[trigger] a.drop_last()[i], b.drop_last()[i]) by {
                assert(similar(a[i], b[i]));
            }
        }
        lemma_forest_components_similar(a.drop_last(), b.drop_last());
        lemma_category_components_similar(a.last(), b.last());
        lemma_similar_concat(
            crate::manifest::forest_components(a.drop_last()),
            crate::manifest::forest_components(b.drop_last()),
            crate::manifest::category_components(a.last()),
            crate::manifest::category_components(b.last()),
        );
    }
}

proof fn lemma_category_components_similar(a: Category, b: Category)
    requires
        similar(a, b),
    ensures
        similar_components(crate::manifest::category_components(a), crate::manifest::category_components(b)),
    decreases a,
{
    assert(similar_forests(a.subcategories@, b.subcategories@));
    lemma_forest_components_similar(a.subcategories@, b.subcategories@);
    lemma_similar_concat(
        crate::manifest::forest_components(a.subcategories@),
        crate::manifest::forest_components(b.subcategories@),
        a.components@,
        b.components@,
    );
}

proof fn lemma_similar_ids(a: Seq<Component>, b: Seq<Component>)
    requires
        similar_components(a, b),
    ensures
        ids_of(a) == ids_of(b),
        dep_rel(a) == dep_rel(b),
{
    assert forall|x| ids_of(a).contains(x) == ids_of(b).contains(x) by {
        if ids_of(a).contains(x) {
            let i = choose|i: int| 0 <= i < a.len() && a[i].id@ == x;
            assert(similar_component(a[i], b[i]));
        }
        if ids_of(b).contains(x) {
            let i = choose|i: int| 0 <= i < b.len() && b[i].id@ == x;
            assert(similar_component(a[i], b[i]));
        }
    }
    assert(ids_of(a) =~= ids_of(b));
    assert forall|x: Seq<char>, y: Seq<char>| #[trigger] dep_rel(a)(x, y) == dep_rel(b)(x, y) by {
        assert forall|i: int| is_first(a, i, x) == is_first(b, i, x) by {
            if 0 <= i < a.len() {
                assert(similar_component(a[i], b[i]));
            }
            if is_first(a, i, x) {
                assert forall|j: int| 0 <= j < i implies #[trigger] b[j].id@ != x by {
                    assert(similar_component(a[j], b[j]));
                    assert(a[j].id@ != x);
                }
            }
            if is_first(b, i, x) {
                assert forall|j: int| 0 <= j < i implies #[trigger] a[j].id@ != x by {
                    assert(similar_component(a[j], b[j]));
                    assert(b[j].id@ != x);
                }
            }
        }
        if dep_edge(a, x, y) {
            let i = choose|i: int| #[trigger] is_first(a, i, x) && deps_of(a[i]).contains(y);
            assert(similar_component(a[i], b[i]));
            assert(is_first(b, i, x));
        }
        if dep_edge(b, x, y) {
            let i = choose|i: int| #[trigger] is_first(b, i, x) && deps_of(b[i]).contains(y);
            assert(similar_component(a[i], b[i]));
            assert(is_first(a, i, x));
        }
    }
    assert(dep_rel(a) =~= dep_rel(b));
}

proof fn lemma_similar_tree(a: Category, b: Category, x: Seq<char>)
    requires
        similar(a, b),
    ensures
        crate::manifest::in_tree(a, x) == crate::manifest::in_tree(b, x),
        fully_required(a) == fully_required(b),
    decreases a,
{
    assert forall|k: int| 0 <= k < a.subcategories@.len() implies (crate::manifest::in_tree(#[trigger] a.subcategories@[k], x) == crate::manifest::in_tree(b.subcategories@[k], x)
        && fully_required(a.subcategories@[k]) == fully_required(b.subcategories@[k])
        && a.subcategories@[k].required == b.subcategories@[k].required) by {
        lemma_similar_tree(a.subcategories@[k], b.subcategories@[k], x);
    }
    assert forall|k: int| 0 <= k < a.components@.len() implies (#[trigger] a.components@[k]).required == b.components@[k].required by {
        assert(similar_component(a.components@[k], b.components@[k]));
    }
    if fully_required(a) {
        assert forall|k: int| 0 <= k < b.components@.len() implies (#[trigger] b.components@[k]).required by {
            assert(a.components@[k].required);
        }
        assert forall|k: int| 0 <= k < b.subcategories@.len() implies (#[trigger] b.subcategories@[k]).required || fully_required(b.subcategories@[k]) by {
            assert(a.subcategories@[k].required || fully_required(a.subcategories@[k]));
        }
    }
    if fully_required(b) {
        assert forall|k: int| 0 <= k < a.components@.len() implies (#[trigger] a.components@[k]).required by {
            assert(b.components@[k].required);
        }
        assert forall|k: int| 0 <= k < a.subcategories@.len() implies (#[trigger] a.subcategories@[k]).required || fully_required(a.subcategories@[k]) by {
            assert(b.subcategories@[k].required || fully_required(b.subcategories@[k]));
        }
    }
    if crate::manifest::in_tree(b, x) && b.id@ != x {
        let k = choose|k: int| 0 <= k < b.subcategories@.len() && crate::manifest::in_tree(#[trigger] b.subcategories@[k], x);
        assert(crate::manifest::in_tree(a.subcategories@[k], x));
    }
    if crate::manifest::in_tree(a, x) && a.id@ != x {
        let k = choose|k: int| 0 <= k < a.subcategories@.len() && crate::manifest::in_tree(#[trigger] a.subcategories@[k], x);
        assert(crate::manifest::in_tree(b.subcategories@[k], x));
    }
}

proof fn lemma_similar_required_in(ca: Seq<Component>, cb: Seq<Component>, a: Category, b: Category, x: Seq<char>)
    requires
        similar_components(ca, cb),
        similar(a, b),
    ensures
        required_in(ca, a, a.components@.len() as int, a.subcategories@.len() as int, true, x)
            == required_in(cb, b, b.components@.len() as int, b.subcategories@.len() as int, true, x),
        in_whole(ca, a, x) == in_whole(cb, b, x),
    decreases a,
{
    lemma_similar_ids(ca, cb);
    lemma_similar_tree(a, b, x);
    lemma_category_components_similar(a, b);
    lemma_similar_ids(crate::manifest::category_components(a), crate::manifest::category_components(b));
    assert forall|k: int| 0 <= k < a.subcategories@.len() implies (required_in(ca, #[trigger] a.subcategories@[k], a.subcategories@[k].components@.len() as int, a.subcategories@[k].subcategories@.len() as int, true, x)
        == required_in(cb, b.subcategories@[k], b.subcategories@[k].components@.len() as int, b.subcategories@[k].subcategories@.len() as int, true, x)
        && in_whole(ca, a.subcategories@[k], x) == in_whole(cb, b.subcategories@[k], x)
        && a.subcategories@[k].required == b.subcategories@[k].required) by {
        lemma_similar_required_in(ca, cb, a.subcategories@[k], b.subcategories@[k], x);
    }
    assert forall|k: int| 0 <= k < a.components@.len() implies ((#[trigger] a.components@[k]).required == b.components@[k].required
        && a.components@[k].id@ == b.components@[k].id@) by {
        assert(similar_component(a.components@[k], b.components@[k]));
    }
    let na = a.components@.len() as int;
    let sa = a.subcategories@.len() as int;
    let nb = b.components@.len() as int;
    let sb = b.subcategories@.len() as int;
    if required_in(ca, a, na, sa, true, x) {
        if exists|k: int| 0 <= k < na && k < a.components@.len() && (#[trigger] a.components@[k]).required && closure(dep_rel(ca), set![a.components@[k].id@]).contains(x) {
            let k = choose|k: int| 0 <= k < na && k < a.components@.len() && (#[trigger] a.components@[k]).required && closure(dep_rel(ca), set![a.components@[k].id@]).contains(x);
            assert(b.components@[k].required && closure(dep_rel(cb), set![b.components@[k].id@]).contains(x));
        } else if exists|k: int| 0 <= k < sa && k < a.subcategories@.len() && if (#[trigger] a.subcategories@[k]).required {
            in_whole(ca, a.subcategories@[k], x)
        } else {
            required_in(ca, a.subcategories@[k], a.subcategories@[k].components@.len() as int, a.subcategories@[k].subcategories@.len() as int, true, x)
        } {
            let k = choose|k: int| 0 <= k < sa && k < a.subcategories@.len() && if (#[trigger] a.subcategories@[k]).required {
                in_whole(ca, a.subcategories@[k], x)
            } else {
                required_in(ca, a.subcategories@[k], a.subcategories@[k].components@.len() as int, a.subcategories@[k].subcategories@.len() as int, true, x)
            };
            assert(if b.subcategories@[k].required {
                in_whole(cb, b.subcategories@[k], x)
            } else {
                required_in(cb, b.subcategories@[k], b.subcategories@[k].components@.len() as int, b.subcategories@[k].subcategories@.len() as int, true, x)
            });
        }
    }
    if required_in(cb, b, nb, sb, true, x) {
        if exists|k: int| 0 <= k < nb && k < b.components@.len() && (#[trigger] b.components@[k]).required && closure(dep_rel(cb), set![b.components@[k].id@]).contains(x) {
            let k = choose|k: int| 0 <= k < nb && k < b.components@.len() && (#[trigger] b.components@[k]).required && closure(dep_rel(cb), set![b.components@[k].id@]).contains(x);
            assert(a.components@[k].required && closure(dep_rel(ca), set![a.components@[k].id@]).contains(x));
        } else if exists|k: int| 0 <= k < sb && k < b.subcategories@.len() && if (#[trigger] b.subcategories@[k]).required {
            in_whole(cb, b.subcategories@[k], x)
        } else {
            required_in(cb, b.subcategories@[k], b.subcategories@[k].components@.len() as int, b.subcategories@[k].subcategories@.len() as int, true, x)
        } {
            let k = choose|k: int| 0 <= k < sb && k < b.subcategories@.len() && if (#[trigger] b.subcategories@[k]).required {
                in_whole(cb, b.subcategories@[k], x)
            } else {
                required_in(cb, b.subcategories@[k], b.subcategories@[k].components@.len() as int, b.subcategories@[k].subcategories@.len() as int, true, x)
            };
            assert(if a.subcategories@[k].required {
                in_whole(ca, a.subcategories@[k], x)
            } else {
                required_in(ca, a.subcategories@[k], a.subcategories@[k].components@.len() as int, a.subcategories@[k].subcategories@.len() as int, true, x)
            });
        }
    }
}

proof fn lemma_similar_required_set(a: Seq<Category>, b: Seq<Category>)
    requires
        similar_forests(a, b),
    ensures
        required_set(a) == required_set(b),
{
    let ca = crate::manifest::forest_components(a);
    let cb = crate::manifest::forest_components(b);
    lemma_forest_components_similar(a, b);
    assert forall|x| required_set(a).contains(x) == required_set(b).contains(x) by {
        assert forall|k: int| 0 <= k < a.len() implies required_by(ca, #[trigger] a[k], x) == required_by(cb, b[k], x) by {
            lemma_similar_required_in(ca, cb, a[k], b[k], x);
        }
        if required_set(a).contains(x) {
            let k = choose|k: int| 0 <= k < a.len() && k < a.len() && required_by(ca, #[trigger] a[k], x);
            assert(required_by(cb, b[k], x));
        }
        if required_set(b).contains(x) {
            let k = choose|k: int| 0 <= k < b.len() && k < b.len() && required_by(cb, #[trigger] b[k], x);
            assert(required_by(ca, a[k], x));
        }
    }
    assert(required_set(a) =~= required_set(b));
}

/// A set has one strictly sorted list.
pub proof fn lemma_canonical_unique(a: Seq<String>, b: Seq<String>, s: Set<Seq<char>>)
    requires
        crate::ids::canonical(a, s),
        crate::ids::canonical(b, s),
    ensures
        crate::closure::views(a) == crate::closure::views(b),
    decreases a.len(),
{
    if a.len() == 0 || b.len() == 0 {
        if a.len() > 0 {
            assert(id_set(a).contains(a[0]@));
            let j = choose|j: int| 0 <= j < b.len() && b[j]@ == a[0]@;
        }
        if b.len() > 0 {
            assert(id_set(b).contains(b[0]@));
            let j = choose|j: int| 0 <= j < a.len() && a[j]@ == b[0]@;
        }
        assert(crate::closure::views(a) =~= crate::closure::views(b));
    } else {
        // The first elements are both the least of the set.
        assert(id_set(b).contains(a[0]@));
        let j = choose|j: int| 0 <= j < b.len() && b[j]@ == a[0]@;
        assert(id_set(a).contains(b[0]@));
        let i = choose|i: int| 0 <= i < a.len() && a[i]@ == b[0]@;
        if j > 0 {
            assert(crate::ids::id_le(b[0]@, b[j]@));
            if i > 0 {
                assert(crate::ids::id_le(a[0]@, a[i]@));
                crate::ids::lemma_id_le_antisymmetric(a[0]@, b[0]@);
            }
        }
        assert(a[0]@ == b[0]@) by {
            if j > 0 && i > 0 {
            } else if j == 0 {
            } else {
            }
        }
        let a2 = a.drop_first();
        let b2 = b.drop_first();
        let s2 = s.remove(a[0]@);
        assert(id_set(a2) =~= s2) by {
            assert forall|x| id_set(a2).contains(x) <==> s2.contains(x) by {
                if id_set(a2).contains(x) {
                    let k = choose|k: int| 0 <= k < a2.len() && a2[k]@ == x;
                    assert(a[k + 1]@ == x);
                    assert(id_set(a).contains(x));
                    assert(crate::ids::id_le(a[0]@, a[k + 1]@));
                }
                if s2.contains(x) {
                    assert(id_set(a).contains(x));
                    let k = choose|k: int| 0 <= k < a.len() && a[k]@ == x;
                    assert(k != 0);
                    assert(a2[k - 1]@ == x);
                }
            }
        }
        assert(id_set(b2) =~= s2) by {
            assert forall|x| id_set(b2).contains(x) <==> s2.contains(x) by {
                if id_set(b2).contains(x) {
                    let k = choose|k: int| 0 <= k < b2.len() && b2[k]@ == x;
                    assert(b[k + 1]@ == x);
                    assert(id_set(b).contains(x));
                    assert(crate::ids::id_le(b[0]@, b[k + 1]@));
                }
                if s2.contains(x) {
                    assert(id_set(b).contains(x));
                    let k = choose|k: int| 0 <= k < b.len() && b[k]@ == x;
                    assert(k != 0);
                    assert(b2[k - 1]@ == x);
                }
            }
        }
        assert(crate::ids::strictly_sorted(a2)) by {
            assert forall|p: int, q: int| 0 <= p < q < a2.len() implies #[trigger] crate::ids::id_le(a2[p]@, a2[q]@) && a2[p]@ != a2[q]@ by {
                assert(crate::ids::id_le(a[p + 1]@, a[q + 1]@));
            }
        }
        assert(crate::ids::strictly_sorted(b2)) by {
            assert forall|p: int, q: int| 0 <= p < q < b2.len() implies #[trigger] crate::ids::id_le(b2[p]@, b2[q]@) && b2[p]@ != b2[q]@ by {
                assert(crate::ids::id_le(b[p + 1]@, b[q + 1]@));
            }
        }
        lemma_canonical_unique(a2, b2, s2);
        assert(crate::closure::views(a2).len() == a2.len());
        assert(crate::closure::views(b2).len() == b2.len());
        assert(crate::closure::views(a) =~= crate::closure::views(b)) by {
            assert forall|k: int| 0 <= k < a.len() implies crate::closure::views(a)[k] == crate::closure::views(b)[k] by {
                if k > 0 {
                    assert(crate::closure::views(a2)[k - 1] == crate::closure::views(b2)[k - 1]);
                    assert(a2[k - 1] == a[k]);
                    assert(b2[k - 1] == b[k]);
                }
            }
        }
    }
}

/// Setting up the same manifest twice gives the same derived identifiers
/// everywhere and the same required list.
pub proof fn lemma_setup_deterministic(
    raw: Seq<Category>,
    a: Seq<Category>,
    b: Seq<Category>,
    ra: Seq<String>,
    rb: Seq<String>,
)
    requires
        crate::manifest::renamed_forest(raw, a),
        crate::manifest::renamed_forest(raw, b),
        crate::ids::canonical(ra, required_set(a)),
        crate::ids::canonical(rb, required_set(b)),
    ensures
        forall|k: int| 0 <= k < a.len() ==> same_ids(#[trigger] a[k], b[k]),
        crate::closure::views(ra) == crate::closure::views(rb),
{
    assert forall|k: int| 0 <= k < a.len() implies same_ids(#[trigger] a[k], b[k]) && similar(a[k], b[k]) by {
        lemma_derivation_deterministic(raw[k], a[k], b[k], raw[k].id@);
        lemma_renamed_similar(raw[k], a[k], b[k], raw[k].id@);
    }
    lemma_similar_required_set(a, b);
    lemma_canonical_unique(ra, rb, required_set(a));
}

} // verus!
