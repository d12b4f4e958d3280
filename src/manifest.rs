//! The component graph: a tree of categories holding components, with
//! derived identifiers, a required set and a selected set.
use vstd::prelude::*;

use crate::closure::{closure, dep_rel, dependant_rel, dependency_closure, dependant_closure};
use crate::ids::{canonical, canonicalize, contains_id, id_set};

verus! {

/// A leaf installable unit of the manifest.
#[derive(Debug, Clone)]
pub struct Component {
    /// Identifier: raw as the manifest gives it, derived once `setup` ran.
    pub id: String,
    /// The identifier as the manifest gives it; set by `setup`.
    pub raw_id: String,
    pub name: String,
    pub description: String,
    pub date_modified: String,
    pub download_size: u64,
    pub install_size: u64,
    /// Optional subpath, relative to the installation root.
    pub path: Option<String>,
    /// CRC-32 of the archive, hexadecimal; `"00000000"` disables the check.
    pub hash: String,
    /// Whitespace separated identifiers of the components this one needs.
    pub depends: Option<String>,
    pub required: bool,
    pub installed: bool,
}

/// A node of the manifest tree.
#[derive(Debug)]
pub struct Category {
    pub id: String,
    pub name: String,
    pub description: String,
    pub subcategories: Vec<Category>,
    pub components: Vec<Component>,
    /// Set by the manifest's author: everything below is required.
    pub required: bool,
}

/// The manifest of one channel, with the required and selected identifiers.
#[derive(Debug)]
pub struct ComponentList {
    pub url: String,
    pub categories: Vec<Category>,
    pub selected: Vec<String>,
    pub required: Vec<String>,
}

// ---------------------------------------------------------------------------
// The tree as sequences
// ---------------------------------------------------------------------------

/// Every component under a list of categories, depth first: for each
/// category, those of its subcategories, then its own.
pub open spec fn forest_components(cats: Seq<Category>) -> Seq<Component>
    decreases cats,
{
    if cats.len() == 0 {
        Seq::empty()
    } else {
        forest_components(cats.drop_last()) + category_components(cats.last())
    }
}

/// Every component under a category, its subcategories' first.
pub open spec fn category_components(c: Category) -> Seq<Component>
    decreases c,
{
    forest_components(c.subcategories@) + c.components@
}

/// Every component of the manifest.
pub open spec fn all_components(list: ComponentList) -> Seq<Component> {
    forest_components(list.categories@)
}

/// The identifiers of a sequence of components.
pub open spec fn ids_of(comps: Seq<Component>) -> Set<Seq<char>> {
    Set::new(|x: Seq<char>| exists|i: int| 0 <= i < comps.len() && comps[i].id@ == x)
}

/// The components that a list of references points at.
pub open spec fn deref_all(s: Seq<&Component>) -> Seq<Component> {
    s.map_values(|c: &Component| *c)
}

proof fn lemma_forest_push(cats: Seq<Category>, i: int)
    requires
        0 <= i < cats.len(),
    ensures
        forest_components(cats.subrange(0, i + 1)) == forest_components(cats.subrange(0, i))
            + category_components(cats[i]),
{
    let s = cats.subrange(0, i + 1);
    assert(s.drop_last() =~= cats.subrange(0, i));
}

/// Appends every component under `category` to `out`.
fn collect_category_components<'a>(category: &'a Category, out: &mut Vec<&'a Component>)
    ensures
        deref_all(final(out)@) == deref_all(old(out)@) + category_components(*category),
    decreases category,
{
    let ghost start = deref_all(out@);
    let mut i: usize = 0;
    while i < category.subcategories.len()
        invariant
            i <= category.subcategories@.len(),
            deref_all(out@) == start + forest_components(category.subcategories@.subrange(0, i as int)),
        decreases category.subcategories@.len() - i,
    {
        proof {
            lemma_forest_push(category.subcategories@, i as int);
        }
        collect_category_components(&category.subcategories[i], out);
        i = i + 1;
    }
    assert(category.subcategories@.subrange(0, i as int) =~= category.subcategories@);
    let ghost mid = deref_all(out@);
    let mut j: usize = 0;
    while j < category.components.len()
        invariant
            j <= category.components@.len(),
            deref_all(out@) == mid + category.components@.subrange(0, j as int),
        decreases category.components@.len() - j,
    {
        let ghost before = out@;
        out.push(&category.components[j]);
        assert(deref_all(out@) =~= deref_all(before).push(category.components@[j as int]));
        assert(category.components@.subrange(0, j + 1) =~= category.components@.subrange(0, j as int).push(category.components@[j as int]));
        j = j + 1;
    }
    assert(category.components@.subrange(0, j as int) =~= category.components@);
}

/// Every component of a list of categories.
pub(crate) fn collect_components<'a>(categories: &'a Vec<Category>) -> (r: Vec<&'a Component>)
    ensures
        deref_all(r@) == forest_components(categories@),
{
    let mut out: Vec<&'a Component> = Vec::new();
    assert(deref_all(out@) =~= Seq::empty());
    assert(categories@.subrange(0, 0) =~= Seq::empty());
    let mut i: usize = 0;
    while i < categories.len()
        invariant
            i <= categories@.len(),
            deref_all(out@) == forest_components(categories@.subrange(0, i as int)),
        decreases categories@.len() - i,
    {
        proof {
            lemma_forest_push(categories@, i as int);
        }
        collect_category_components(&categories[i], &mut out);
        i = i + 1;
    }
    assert(categories@.subrange(0, i as int) =~= categories@);
    out
}

// ---------------------------------------------------------------------------
// Category lookup
// ---------------------------------------------------------------------------

/// The first category named `id`, depth first, a category before its
/// subcategories.
pub open spec fn find_in_forest(cats: Seq<Category>, id: Seq<char>) -> Option<Category>
    decreases cats,
{
    if cats.len() == 0 {
        None
    } else {
        match find_in_category(cats.first(), id) {
            Some(c) => Some(c),
            None => find_in_forest(cats.drop_first(), id),
        }
    }
}

/// The first category named `id` in the tree of `c`, `c` included.
pub open spec fn find_in_category(c: Category, id: Seq<char>) -> Option<Category>
    decreases c,
{
    if c.id@ == id {
        Some(c)
    } else {
        find_in_forest(c.subcategories@, id)
    }
}

proof fn lemma_find_skip(cats: Seq<Category>, id: Seq<char>, i: int)
    requires
        0 <= i <= cats.len(),
        forall|k: int| 0 <= k < i ==> find_in_category(#[trigger] cats[k], id) is None,
    ensures
        find_in_forest(cats, id) == find_in_forest(cats.subrange(i, cats.len() as int), id),
    decreases i,
{
    if i > 0 {
        lemma_find_skip(cats, id, i - 1);
        let rest = cats.subrange(i - 1, cats.len() as int);
        assert(rest.first() == cats[i - 1]);
        assert(rest.drop_first() =~= cats.subrange(i, cats.len() as int));
    } else {
        assert(cats.subrange(0, cats.len() as int) =~= cats);
    }
}

/// The first category named `id` among `cats` and their subcategories.
fn find_category_recursive<'a>(cats: &'a Vec<Category>, id: &String) -> (r: Option<&'a Category>)
    ensures
        match r {
            Some(c) => find_in_forest(cats@, id@) == Some(*c),
            None => find_in_forest(cats@, id@) is None,
        },
    decreases cats,
{
    let mut i: usize = 0;
    while i < cats.len()
        invariant
            i <= cats@.len(),
            forall|k: int| 0 <= k < i ==> find_in_category(#[trigger] cats@[k], id@) is None,
        decreases cats@.len() - i,
    {
        let c = &cats[i];
        proof {
            lemma_find_skip(cats@, id@, i as int);
            let rest = cats@.subrange(i as int, cats@.len() as int);
            assert(rest.first() == cats@[i as int]);
            assert(rest.drop_first() =~= cats@.subrange(i + 1, cats@.len() as int));
        }
        if c.id == *id {
            return Some(c);
        }
        match find_category_recursive(&c.subcategories, id) {
            Some(found) => {
                return Some(found);
            },
            None => {},
        }
        proof {
            lemma_find_skip(cats@, id@, i + 1);
        }
        i = i + 1;
    }
    proof {
        lemma_find_skip(cats@, id@, i as int);
    }
    None
}

// ---------------------------------------------------------------------------
// Queries on the graph
// ---------------------------------------------------------------------------

/// What a query on `id` starts from: the component itself, or every
/// component under the category of that name, or nothing.
pub open spec fn query_starts(list: ComponentList, id: Seq<char>) -> Set<Seq<char>> {
    if ids_of(all_components(list)).contains(id) {
        set![id]
    } else {
        match find_in_forest(list.categories@, id) {
            Some(c) => ids_of(category_components(c)),
            None => Set::empty(),
        }
    }
}

/// What selecting `id` brings in.
pub open spec fn dependencies_of_id(list: ComponentList, id: Seq<char>) -> Set<Seq<char>> {
    closure(dep_rel(all_components(list)), query_starts(list, id))
}

/// What unselecting `id` takes out: everything that needs it, `id`
/// included, but for the required identifiers.
pub open spec fn dependants_of_id(list: ComponentList, id: Seq<char>) -> Set<Seq<char>> {
    closure(dependant_rel(all_components(list)), query_starts(list, id)).difference(
        id_set(list.required@),
    )
}

/// What unselecting `id` takes out: its dependants, and `id` itself unless
/// it is required.
pub open spec fn unselected_ids(list: ComponentList, id: Seq<char>) -> Set<Seq<char>> {
    if id_set(list.required@).contains(id) {
        dependants_of_id(list, id)
    } else {
        dependants_of_id(list, id).insert(id)
    }
}

/// The identifiers of the components behind a list of references.
fn ids_of_refs(v: &Vec<&Component>) -> (r: Vec<String>)
    ensures
        id_set(r@) == ids_of(deref_all(v@)),
{
    let mut out: Vec<String> = Vec::new();
    let mut i: usize = 0;
    while i < v.len()
        invariant
            i <= v@.len(),
            out@.len() == i,
            forall|k: int| 0 <= k < i ==> #[trigger] out@[k]@ == v@[k].id@,
        decreases v@.len() - i,
    {
        out.push(v[i].id.clone());
        i = i + 1;
    }
    proof {
        assert(id_set(out@) =~= ids_of(deref_all(v@))) by {
            assert forall|x| ids_of(deref_all(v@)).contains(x) implies id_set(out@).contains(x) by {
                let k = choose|k: int| 0 <= k < deref_all(v@).len() && deref_all(v@)[k].id@ == x;
                assert(out@[k]@ == x);
            }
            assert forall|x| id_set(out@).contains(x) implies ids_of(deref_all(v@)).contains(x) by {
                let k = choose|k: int| 0 <= k < out@.len() && out@[k]@ == x;
                assert(deref_all(v@)[k].id@ == x);
            }
        }
    }
    out
}

impl ComponentList {
    /// The category named `id`, searched depth first.
    fn find_category_by_id(&self, id: &String) -> (r: Option<&Category>)
        ensures
            match r {
                Some(c) => find_in_forest(self.categories@, id@) == Some(*c),
                None => find_in_forest(self.categories@, id@) is None,
            },
    {
        find_category_recursive(&self.categories, id)
    }

    /// The starts of a query on `id`, as a list.
    fn starts_of(&self, comps: &Vec<&Component>, id: &String) -> (r: Vec<String>)
        requires
            deref_all(comps@) == all_components(*self),
        ensures
            id_set(r@) == query_starts(*self, id@),
    {
        let all = ids_of_refs(comps);
        if contains_id(&all, id) {
            let mut r: Vec<String> = Vec::new();
            r.push(id.clone());
            proof {
                assert(id_set(r@) =~= set![id@]) by {
                    assert(r@[0]@ == id@);
                }
            }
            r
        } else {
            match self.find_category_by_id(id) {
                Some(category) => {
                    let mut under: Vec<&Component> = Vec::new();
                    collect_category_components(category, &mut under);
                    assert(deref_all(under@) =~= category_components(*category));
                    ids_of_refs(&under)
                },
                None => {
                    let r: Vec<String> = Vec::new();
                    assert(id_set(r@) =~= Set::empty());
                    r
                },
            }
        }
    }

    /// Everything that `id` needs, `id` included, sorted; for a category,
    /// that of every component under it.
    pub fn find_dependencies(&self, id: &str) -> (r: Vec<String>)
        ensures
            canonical(r@, dependencies_of_id(*self, id@)),
    {
        let id = id.to_owned();
        let comps = collect_components(&self.categories);
        let starts = self.starts_of(&comps, &id);
        let found = dependency_closure(&comps, &starts);
        canonicalize(found)
    }

    /// Everything that needs `id`, `id` included, sorted, but for the
    /// required identifiers; for a category, that of every component under it.
    pub fn find_dependants(&self, id: &str) -> (r: Vec<String>)
        ensures
            canonical(r@, dependants_of_id(*self, id@)),
    {
        let id = id.to_owned();
        let comps = collect_components(&self.categories);
        let starts = self.starts_of(&comps, &id);
        let found = dependant_closure(&comps, &starts);
        let mut kept: Vec<String> = Vec::new();
        let mut i: usize = 0;
        while i < found.len()
            invariant
                i <= found@.len(),
                forall|x| #[trigger] id_set(kept@).contains(x) <==> (exists|k: int| 0 <= k < i && found@[k]@ == x) && !id_set(self.required@).contains(x),
            decreases found@.len() - i,
        {
            let ghost before = kept@;
            if !contains_id(&self.required, &found[i]) {
                kept.push(found[i].clone());
                proof {
                    assert forall|x| #[trigger] id_set(kept@).contains(x) <==> (exists|k: int| 0 <= k < i + 1 && found@[k]@ == x) && !id_set(self.required@).contains(x) by {
                        if id_set(kept@).contains(x) {
                            let k = choose|k: int| 0 <= k < kept@.len() && kept@[k]@ == x;
                            if k < before.len() {
                                assert(id_set(before).contains(x)) by { assert(before[k]@ == x); }
                            } else {
                                assert(found@[i as int]@ == x);
                            }
                        }
                        if (exists|k: int| 0 <= k < i + 1 && found@[k]@ == x) && !id_set(self.required@).contains(x) {
                            let k = choose|k: int| 0 <= k < i + 1 && found@[k]@ == x;
                            if k < i {
                                assert(id_set(before).contains(x));
                                let q = choose|q: int| 0 <= q < before.len() && before[q]@ == x;
                                assert(kept@[q]@ == x);
                            } else {
                                assert(kept@[before.len() as int]@ == x);
                            }
                        }
                    }
                }
            } else {
                proof {
                    assert forall|x| #[trigger] id_set(kept@).contains(x) <==> (exists|k: int| 0 <= k < i + 1 && found@[k]@ == x) && !id_set(self.required@).contains(x) by {
                        if (exists|k: int| 0 <= k < i + 1 && found@[k]@ == x) && !id_set(self.required@).contains(x) {
                            let k = choose|k: int| 0 <= k < i + 1 && found@[k]@ == x;
                            if k == i {
                                assert(id_set(self.required@).contains(found@[i as int]@));
                            }
                        }
                    }
                }
            }
            i = i + 1;
        }
        proof {
            assert(id_set(kept@) =~= dependants_of_id(*self, id@));
        }
        canonicalize(kept)
    }

    /// Adds `id` and everything it needs to the selection.
    pub fn select(&mut self, id: &str)
        ensures
            canonical(final(self).selected@, id_set(old(self).selected@).union(dependencies_of_id(*old(self), id@))),
            final(self).url == old(self).url,
            final(self).categories == old(self).categories,
            final(self).required == old(self).required,
    {
        let mut dependencies = self.find_dependencies(id);
        let mut all: Vec<String> = Vec::new();
        std::mem::swap(&mut all, &mut self.selected);
        let ghost a = all@;
        let ghost d = dependencies@;
        all.append(&mut dependencies);
        proof {
            assert(id_set(all@) =~= id_set(a).union(id_set(d))) by {
                assert forall|x| id_set(all@).contains(x) implies id_set(a).union(id_set(d)).contains(x) by {
                    let k = choose|k: int| 0 <= k < all@.len() && all@[k]@ == x;
                    if k < a.len() {
                        assert(a[k]@ == x);
                    } else {
                        assert(d[k - a.len()]@ == x);
                    }
                }
                assert forall|x| id_set(a).union(id_set(d)).contains(x) implies id_set(all@).contains(x) by {
                    if id_set(a).contains(x) {
                        let k = choose|k: int| 0 <= k < a.len() && a[k]@ == x;
                        assert(all@[k]@ == x);
                    } else {
                        let k = choose|k: int| 0 <= k < d.len() && d[k]@ == x;
                        assert(all@[a.len() + k]@ == x);
                    }
                }
            }
        }
        self.selected = canonicalize(all);
    }

    /// Takes `id` and everything that needs it out of the selection, but for
    /// the required identifiers; the rest keeps its order.
    pub fn unselect(&mut self, id: &str)
        ensures
            final(self).selected@ == old(self).selected@.filter(
                |s: String| !unselected_ids(*old(self), id@).contains(s@),
            ),
            final(self).url == old(self).url,
            final(self).categories == old(self).categories,
            final(self).required == old(self).required,
    {
        let dependants = self.find_dependants(id);
        let id_text = id.to_owned();
        let id_required = contains_id(&self.required, &id_text);
        let ghost gone = unselected_ids(*self, id@);
        let ghost pred = |s: String| !gone.contains(s@);
        let mut old_selected: Vec<String> = Vec::new();
        std::mem::swap(&mut old_selected, &mut self.selected);
        let mut kept: Vec<String> = Vec::new();
        let mut i: usize = 0;
        while i < old_selected.len()
            invariant
                i <= old_selected@.len(),
                id_set(dependants@) == dependants_of_id(*self, id@),
                id_text@ == id@,
                id_required == id_set(self.required@).contains(id@),
                gone == unselected_ids(*self, id@),
                pred == (|s: String| !gone.contains(s@)),
                kept@ == old_selected@.subrange(0, i as int).filter(pred),
            decreases old_selected@.len() - i,
        {
            let ghost s1 = old_selected@.subrange(0, i + 1);
            proof {
                assert(s1.drop_last() =~= old_selected@.subrange(0, i as int));
                assert(s1.last() == old_selected@[i as int]);
                reveal(Seq::filter);
                assert(s1.filter(pred) == if pred(s1.last()) {
                    s1.drop_last().filter(pred).push(s1.last())
                } else {
                    s1.drop_last().filter(pred)
                });
            }
            let drop = contains_id(&dependants, &old_selected[i]) || (!id_required && old_selected[i] == id_text);
            if !drop {
                kept.push(old_selected[i].clone());
                assert(pred(s1.last()));
            } else {
                assert(!pred(s1.last()));
            }
            i = i + 1;
        }
        assert(old_selected@.subrange(0, i as int) =~= old_selected@);
        self.selected = kept;
    }
}

// ---------------------------------------------------------------------------
// Derived identifiers
// ---------------------------------------------------------------------------

/// The derived identifier of a child named `raw` under `parent`.
pub open spec fn child_id(parent: Seq<char>, raw: Seq<char>) -> Seq<char> {
    parent + seq!['-'] + raw
}

/// `new` is `old` with identifier `id` and its raw identifier kept.
pub open spec fn renamed_component(old: Component, new: Component, id: Seq<char>) -> bool {
    &&& new.id@ == id
    &&& new.raw_id@ == old.id@
    &&& new.name == old.name
    &&& new.description == old.description
    &&& new.date_modified == old.date_modified
    &&& new.download_size == old.download_size
    &&& new.install_size == old.install_size
    &&& new.path == old.path
    &&& new.hash == old.hash
    &&& new.depends == old.depends
    &&& new.required == old.required
    &&& new.installed == old.installed
}

/// `new` is the tree of `old` with derived identifiers, `new` itself named
/// `id`: each child is named after its parent's derived identifier.
pub open spec fn renamed_category(old: Category, new: Category, id: Seq<char>) -> bool
    decreases old,
{
    &&& new.id@ == id
    &&& new.name == old.name
    &&& new.description == old.description
    &&& new.required == old.required
    &&& new.subcategories@.len() == old.subcategories@.len()
    &&& forall|i: int|
        0 <= i < old.subcategories@.len() ==> renamed_category(
            #[trigger] old.subcategories@[i],
            new.subcategories@[i],
            child_id(id, old.subcategories@[i].id@),
        )
    &&& new.components@.len() == old.components@.len()
    &&& forall|i: int|
        0 <= i < old.components@.len() ==> renamed_component(
            #[trigger] old.components@[i],
            new.components@[i],
            child_id(id, old.components@[i].id@),
        )
}

/// `new` is the forest `old` with derived identifiers: a top category keeps
/// its identifier.
pub open spec fn renamed_forest(old: Seq<Category>, new: Seq<Category>) -> bool {
    old.len() == new.len() && forall|i: int|
        0 <= i < old.len() ==> renamed_category(#[trigger] old[i], new[i], old[i].id@)
}

/// `parent` followed by `-` and `raw`.
fn join_id(parent: &String, raw: &String) -> (r: String)
    ensures
        r@ == child_id(parent@, raw@),
{
    let mut r = parent.clone();
    r.append("-");
    r.append(raw.as_str());
    proof {
        reveal_strlit("-");
    }
    r
}

/// `c` under the identifier `id`, its raw identifier kept.
fn renamed_comp(c: Component, id: String) -> (r: Component)
    ensures
        renamed_component(c, r, id@),
{
    Component {
        id: id,
        raw_id: c.id,
        name: c.name,
        description: c.description,
        date_modified: c.date_modified,
        download_size: c.download_size,
        install_size: c.install_size,
        path: c.path,
        hash: c.hash,
        depends: c.depends,
        required: c.required,
        installed: c.installed,
    }
}

/// The tree of `category` with derived identifiers, `category` itself
/// named `id`.
fn update_ids_in_category(category: Category, id: String) -> (r: Category)
    ensures
        renamed_category(category, r, id@),
    decreases category,
{
    let ghost orig = category;
    let Category { id: _raw, name, description, subcategories, components, required } = category;
    let mut rest = subcategories;
    let mut subs: Vec<Category> = Vec::new();
    let ghost n = rest@.len();
    while rest.len() > 0
        invariant
            orig == category,
            orig.subcategories@.len() == n,
            subs@.len() + rest@.len() == n,
            rest@ == orig.subcategories@.subrange(subs@.len() as int, n as int),
            forall|i: int|
                0 <= i < subs@.len() ==> renamed_category(
                    #[trigger] orig.subcategories@[i],
                    subs@[i],
                    child_id(id@, orig.subcategories@[i].id@),
                ),
        decreases rest@.len(),
    {
        let sub = rest.remove(0);
        let ghost at = subs@.len() as int;
        assert(sub == orig.subcategories@[at]);
        let sub_id = join_id(&id, &sub.id);
        let renamed = update_ids_in_category(sub, sub_id);
        subs.push(renamed);
        assert(rest@ =~= orig.subcategories@.subrange(subs@.len() as int, n as int));
    }
    let mut rest_c = components;
    let mut comps: Vec<Component> = Vec::new();
    let ghost m = rest_c@.len();
    while rest_c.len() > 0
        invariant
            orig.components@.len() == m,
            comps@.len() + rest_c@.len() == m,
            rest_c@ == orig.components@.subrange(comps@.len() as int, m as int),
            forall|i: int|
                0 <= i < comps@.len() ==> renamed_component(
                    #[trigger] orig.components@[i],
                    comps@[i],
                    child_id(id@, orig.components@[i].id@),
                ),
        decreases rest_c@.len(),
    {
        let c = rest_c.remove(0);
        let ghost at = comps@.len() as int;
        assert(c == orig.components@[at]);
        let c_id = join_id(&id, &c.id);
        comps.push(renamed_comp(c, c_id));
        assert(rest_c@ =~= orig.components@.subrange(comps@.len() as int, m as int));
    }
    Category { id, name, description, subcategories: subs, components: comps, required }
}

// ---------------------------------------------------------------------------
// The required set
// ---------------------------------------------------------------------------

/// The first `nc` components of `c` are required, and each of its first
/// `ns` subcategories is marked required or is fully required itself.
pub open spec fn required_upto(c: Category, nc: int, ns: int) -> bool
    decreases c,
{
    &&& forall|k: int| 0 <= k < nc && k < c.components@.len() ==> (#[trigger] c.components@[k]).required
    &&& forall|k: int|
        0 <= k < ns && k < c.subcategories@.len() ==> (#[trigger] c.subcategories@[k]).required
            || required_upto(
            c.subcategories@[k],
            c.subcategories@[k].components@.len() as int,
            c.subcategories@[k].subcategories@.len() as int,
        )
}

/// Every component of `c` is required and every subcategory is marked
/// required or is fully required itself.
pub open spec fn fully_required(c: Category) -> bool {
    required_upto(c, c.components@.len() as int, c.subcategories@.len() as int)
}

/// `x` is `c` or a category below it.
pub open spec fn in_tree(c: Category, x: Seq<char>) -> bool
    decreases c,
{
    x == c.id@ || exists|k: int|
        0 <= k < c.subcategories@.len() && in_tree(#[trigger] c.subcategories@[k], x)
}

/// What a category marked required brings: itself, every category below
/// it, every component below it and everything those components need.
pub open spec fn in_whole(comps: Seq<Component>, c: Category, x: Seq<char>) -> bool {
    in_tree(c, x) || closure(dep_rel(comps), ids_of(category_components(c))).contains(x)
}

/// `new` starts with `old`.
pub open spec fn extends(new: Seq<String>, old: Seq<String>) -> bool {
    old.len() <= new.len() && forall|i: int| 0 <= i < old.len() ==> #[trigger] new[i] == old[i]
}

/// What the first `nc` components and the first `ns` subcategories of `c`
/// make required (and `c` itself, if `last` and `c` is fully required):
/// a required component brings everything it needs; a subcategory marked
/// required brings itself, every category and component below it and
/// everything those components need; another brings what it makes required
/// in turn. A subcategory marked required counts as fully required for its
/// parent: the mark settles that branch.
pub open spec fn required_in(comps: Seq<Component>, c: Category, nc: int, ns: int, last: bool, x: Seq<char>) -> bool
    decreases c,
{
    ||| exists|k: int|
        0 <= k < nc && k < c.components@.len() && (#[trigger] c.components@[k]).required && closure(
            dep_rel(comps),
            set![c.components@[k].id@],
        ).contains(x)
    ||| exists|k: int|
        0 <= k < ns && k < c.subcategories@.len() && if (#[trigger] c.subcategories@[k]).required {
            in_whole(comps, c.subcategories@[k], x)
        } else {
            required_in(
                comps,
                c.subcategories@[k],
                c.subcategories@[k].components@.len() as int,
                c.subcategories@[k].subcategories@.len() as int,
                true,
                x,
            )
        }
    ||| last && fully_required(c) && x == c.id@
}

/// What a category of the forest makes required.
pub open spec fn required_by(comps: Seq<Component>, c: Category, x: Seq<char>) -> bool {
    if c.required {
        in_whole(comps, c, x)
    } else {
        required_in(comps, c, c.components@.len() as int, c.subcategories@.len() as int, true, x)
    }
}

/// The required set of a forest: what its first `n` categories make
/// required.
pub open spec fn required_set_upto(cats: Seq<Category>, n: int) -> Set<Seq<char>> {
    Set::new(
        |x: Seq<char>|
            exists|k: int| 0 <= k < n && k < cats.len() && required_by(forest_components(cats), #[trigger] cats[k], x),
    )
}

/// The required set of a forest.
pub open spec fn required_set(cats: Seq<Category>) -> Set<Seq<char>> {
    required_set_upto(cats, cats.len() as int)
}

/// Appends every identifier of `more` to `list`.
fn append_ids(list: &mut Vec<String>, more: &Vec<String>)
    ensures
        extends(final(list)@, old(list)@),
        forall|x| #[trigger] id_set(final(list)@).contains(x) <==> id_set(old(list)@).contains(x) || id_set(more@).contains(x),
{
    let ghost start = list@;
    let mut i: usize = 0;
    while i < more.len()
        invariant
            i <= more@.len(),
            list@.len() == start.len() + i,
            list@.subrange(0, start.len() as int) == start,
            forall|k: int| 0 <= k < i ==> #[trigger] list@[start.len() + k]@ == more@[k]@,
        decreases more@.len() - i,
    {
        let ghost before = list@;
        list.push(more[i].clone());
        assert(list@.subrange(0, start.len() as int) =~= before.subrange(0, start.len() as int));
        i = i + 1;
    }
    proof {
        assert forall|x| #[trigger] id_set(list@).contains(x) <==> id_set(start).contains(x) || id_set(more@).contains(x) by {
            if id_set(list@).contains(x) {
                let k = choose|k: int| 0 <= k < list@.len() && list@[k]@ == x;
                if k < start.len() {
                    assert(list@.subrange(0, start.len() as int)[k] == list@[k]);
                    assert(start[k]@ == x);
                } else {
                    let q = k - start.len();
                    assert(list@[start.len() + q]@ == more@[q]@);
                    assert(more@[q]@ == x);
                }
            }
            if id_set(start).contains(x) {
                let k = choose|k: int| 0 <= k < start.len() && start[k]@ == x;
                assert(list@.subrange(0, start.len() as int)[k] == list@[k]);
                assert(list@[k]@ == x);
            }
            if id_set(more@).contains(x) {
                let k = choose|k: int| 0 <= k < more@.len() && more@[k]@ == x;
                assert(list@[start.len() + k]@ == x);
            }
        }
        assert forall|i: int| 0 <= i < start.len() implies #[trigger] list@[i] == start[i] by {
            assert(list@.subrange(0, start.len() as int)[i] == list@[i]);
        }
    }
}

/// Appends `c` and every category below it to `list`.
fn add_category_ids(c: &Category, list: &mut Vec<String>)
    ensures
        extends(final(list)@, old(list)@),
        forall|x| #[trigger] id_set(final(list)@).contains(x) <==> id_set(old(list)@).contains(x) || in_tree(*c, x),
    decreases c,
{
    let ghost start = list@;
    let ghost before = list@;
    list.push(c.id.clone());
    proof {
        assert forall|x| #[trigger] id_set(list@).contains(x) <==> id_set(start).contains(x) || x == c.id@ by {
            if id_set(list@).contains(x) {
                let k = choose|k: int| 0 <= k < list@.len() && list@[k]@ == x;
                if k < before.len() {
                    assert(before[k]@ == x);
                }
            }
            if id_set(start).contains(x) {
                let k = choose|k: int| 0 <= k < start.len() && start[k]@ == x;
                assert(list@[k]@ == x);
            }
            if x == c.id@ {
                assert(list@[before.len() as int]@ == x);
            }
        }
    }
    let mut j: usize = 0;
    while j < c.subcategories.len()
        invariant
            j <= c.subcategories@.len(),
            extends(list@, start),
            forall|x| #[trigger] id_set(list@).contains(x) <==> id_set(start).contains(x) || x == c.id@
                || exists|k: int| 0 <= k < j && in_tree(#[trigger] c.subcategories@[k], x),
        decreases c.subcategories@.len() - j,
    {
        add_category_ids(&c.subcategories[j], list);
        proof {
            assert forall|x| #[trigger] id_set(list@).contains(x) <==> id_set(start).contains(x) || x == c.id@
                || exists|k: int| 0 <= k < j + 1 && in_tree(#[trigger] c.subcategories@[k], x) by {
                if exists|k: int| 0 <= k < j + 1 && in_tree(#[trigger] c.subcategories@[k], x) {
                    let k = choose|k: int| 0 <= k < j + 1 && in_tree(#[trigger] c.subcategories@[k], x);
                    if k < j {
                        assert(exists|q: int| 0 <= q < j && in_tree(#[trigger] c.subcategories@[q], x));
                    }
                }
            }
        }
        j = j + 1;
    }
}

/// Appends what a category marked required brings to `list`.
fn add_whole(comps: &Vec<&Component>, c: &Category, list: &mut Vec<String>)
    ensures
        extends(final(list)@, old(list)@),
        forall|x| #[trigger] id_set(final(list)@).contains(x) <==> id_set(old(list)@).contains(x) || in_whole(deref_all(comps@), *c, x),
{
    let mut under: Vec<&Component> = Vec::new();
    collect_category_components(c, &mut under);
    assert(deref_all(under@) =~= category_components(*c));
    let ids = ids_of_refs(&under);
    let needed = dependency_closure(comps, &ids);
    let ghost before = list@;
    append_ids(list, &needed);
    add_category_ids(c, list);
}

/// Adds to `list` what `category` makes required, and tells whether it is
/// fully required.
fn find_required(comps: &Vec<&Component>, category: &Category, list: &mut Vec<String>) -> (r: bool)
    ensures
        extends(final(list)@, old(list)@),
        r == fully_required(*category),
        forall|x| #[trigger] id_set(final(list)@).contains(x) <==> id_set(old(list)@).contains(x)
            || required_in(deref_all(comps@), *category, category.components@.len() as int, category.subcategories@.len() as int, true, x),
    decreases category,
{
    let ghost cs = deref_all(comps@);
    let ghost start = list@;
    let ghost c = *category;
    let nc = category.components.len();
    let ns = category.subcategories.len();
    let mut is_required = true;
    let mut k: usize = 0;
    while k < nc
        invariant
            c == *category,
            cs == deref_all(comps@),
            nc == c.components@.len(),
            k <= nc,
            is_required == required_upto(c, k as int, 0),
            extends(list@, start),
            forall|x| #[trigger] id_set(list@).contains(x) <==> id_set(start).contains(x) || required_in(cs, c, k as int, 0, false, x),
        decreases nc - k,
    {
        let component = &category.components[k];
        let ghost before = list@;
        if component.required {
            let mut one: Vec<String> = Vec::new();
            one.push(component.id.clone());
            assert(id_set(one@) =~= set![component.id@]) by {
                assert(one@[0]@ == component.id@);
            }
            let deps = dependency_closure(comps, &one);
            append_ids(list, &deps);
        } else {
            is_required = false;
        }
        proof {
            assert forall|x| #[trigger] id_set(list@).contains(x) <==> id_set(start).contains(x) || required_in(cs, c, k + 1, 0, false, x) by {
                if required_in(cs, c, k + 1, 0, false, x) && !required_in(cs, c, k as int, 0, false, x) {
                    let q = choose|q: int| 0 <= q < k + 1 && q < c.components@.len() && (#[trigger] c.components@[q]).required && closure(dep_rel(cs), set![c.components@[q].id@]).contains(x);
                    assert(q == k);
                }
                if required_in(cs, c, k as int, 0, false, x) {
                    let q = choose|q: int| 0 <= q < k && q < c.components@.len() && (#[trigger] c.components@[q]).required && closure(dep_rel(cs), set![c.components@[q].id@]).contains(x);
                    assert(required_in(cs, c, k + 1, 0, false, x));
                }
                if component.required && id_set(list@).contains(x) && !id_set(before).contains(x) {
                    assert(c.components@[k as int].required);
                    assert(required_in(cs, c, k + 1, 0, false, x));
                }
            }
            if !component.required {
                assert(!required_upto(c, k + 1, 0)) by {
                    assert(!c.components@[k as int].required);
                }
            }
        }
        k = k + 1;
    }
    let mut j: usize = 0;
    while j < ns
        invariant
            c == *category,
            cs == deref_all(comps@),
            nc == c.components@.len(),
            ns == c.subcategories@.len(),
            j <= ns,
            is_required == required_upto(c, nc as int, j as int),
            extends(list@, start),
            forall|x| #[trigger] id_set(list@).contains(x) <==> id_set(start).contains(x) || required_in(cs, c, nc as int, j as int, false, x),
        decreases ns - j,
    {
        let subcat = &category.subcategories[j];
        let ghost before = list@;
        let ghost sub = c.subcategories@[j as int];
        if subcat.required {
            add_whole(comps, subcat, list);
        } else {
            let sub_required = find_required(comps, subcat, list);
            if !sub_required {
                is_required = false;
            }
        }
        proof {
            assert forall|x| #[trigger] id_set(list@).contains(x) <==> id_set(start).contains(x) || required_in(cs, c, nc as int, j + 1, false, x) by {
                if required_in(cs, c, nc as int, j as int, false, x) {
                    if exists|q: int| 0 <= q < j && q < c.subcategories@.len() && if (#[trigger] c.subcategories@[q]).required {
                        in_whole(cs, c.subcategories@[q], x)
                    } else {
                        required_in(cs, c.subcategories@[q], c.subcategories@[q].components@.len() as int, c.subcategories@[q].subcategories@.len() as int, true, x)
                    } {
                        assert(required_in(cs, c, nc as int, j + 1, false, x));
                    }
                }
                if required_in(cs, c, nc as int, j + 1, false, x) && !required_in(cs, c, nc as int, j as int, false, x) {
                    let q = choose|q: int| 0 <= q < j + 1 && q < c.subcategories@.len() && if (#[trigger] c.subcategories@[q]).required {
                        in_whole(cs, c.subcategories@[q], x)
                    } else {
                        required_in(cs, c.subcategories@[q], c.subcategories@[q].components@.len() as int, c.subcategories@[q].subcategories@.len() as int, true, x)
                    };
                    assert(q == j);
                }
                if id_set(list@).contains(x) && !id_set(before).contains(x) {
                    assert(sub == c.subcategories@[j as int]);
                    assert(required_in(cs, c, nc as int, j + 1, false, x));
                }
            }
            assert(required_upto(c, nc as int, j + 1) == (required_upto(c, nc as int, j as int) && (sub.required || fully_required(sub))));
        }
        j = j + 1;
    }
    let ghost before = list@;
    if is_required {
        list.push(category.id.clone());
    }
    proof {
        assert forall|x| #[trigger] id_set(list@).contains(x) <==> id_set(start).contains(x) || required_in(cs, c, nc as int, ns as int, true, x) by {
            if id_set(list@).contains(x) && !id_set(before).contains(x) {
                let q = choose|q: int| 0 <= q < list@.len() && list@[q]@ == x;
                if q < before.len() {
                    assert(before[q]@ == x);
                }
            }
            if id_set(before).contains(x) {
                let q = choose|q: int| 0 <= q < before.len() && before[q]@ == x;
                assert(list@[q]@ == x);
            }
            if is_required && x == c.id@ {
                assert(list@[before.len() as int]@ == x);
            }
        }
    }
    is_required
}

impl ComponentList {
    /// Derives every identifier from its ancestry, computes the required set
    /// and adds it to the selection.
    pub fn setup(&mut self)
        ensures
            renamed_forest(old(self).categories@, final(self).categories@),
            canonical(final(self).required@, required_set(final(self).categories@)),
            canonical(final(self).selected@, id_set(old(self).selected@).union(required_set(final(self).categories@))),
            final(self).url == old(self).url,
    {
        let mut rest: Vec<Category> = Vec::new();
        std::mem::swap(&mut rest, &mut self.categories);
        let ghost orig = rest@;
        let ghost n = rest@.len();
        let mut cats: Vec<Category> = Vec::new();
        while rest.len() > 0
            invariant
                cats@.len() + rest@.len() == n,
                orig.len() == n,
                rest@ == orig.subrange(cats@.len() as int, n as int),
                forall|i: int| 0 <= i < cats@.len() ==> renamed_category(#[trigger] orig[i], cats@[i], orig[i].id@),
            decreases rest@.len(),
        {
            let c = rest.remove(0);
            assert(c == orig[cats@.len() as int]);
            let raw = c.id.clone();
            cats.push(update_ids_in_category(c, raw));
            assert(rest@ =~= orig.subrange(cats@.len() as int, n as int));
        }
        self.categories = cats;
        let ghost forest = self.categories@;
        let comps = collect_components(&self.categories);
        let mut required: Vec<String> = Vec::new();
        let mut i: usize = 0;
        while i < self.categories.len()
            invariant
                forest == self.categories@,
                deref_all(comps@) == forest_components(forest),
                i <= forest.len(),
                forall|x| #[trigger] id_set(required@).contains(x) <==> required_set_upto(forest, i as int).contains(x),
            decreases forest.len() - i,
        {
            let category = &self.categories[i];
            let ghost before = required@;
            if category.required {
                add_whole(&comps, category, &mut required);
            } else {
                find_required(&comps, category, &mut required);
            }
            proof {
                assert forall|x| #[trigger] id_set(required@).contains(x) <==> required_set_upto(forest, i + 1).contains(x) by {
                    if required_set_upto(forest, i + 1).contains(x) && !required_set_upto(forest, i as int).contains(x) {
                        let q = choose|q: int| 0 <= q < i + 1 && q < forest.len() && required_by(forest_components(forest), #[trigger] forest[q], x);
                        assert(q == i);
                    }
                    if required_set_upto(forest, i as int).contains(x) {
                        let q = choose|q: int| 0 <= q < i && q < forest.len() && required_by(forest_components(forest), #[trigger] forest[q], x);
                        assert(required_set_upto(forest, i + 1).contains(x));
                    }
                    if id_set(required@).contains(x) && !id_set(before).contains(x) {
                        assert(required_by(forest_components(forest), forest[i as int], x));
                        assert(required_set_upto(forest, i + 1).contains(x));
                    }
                }
            }
            i = i + 1;
        }
        let req = canonicalize(required);
        let mut sel: Vec<String> = Vec::new();
        std::mem::swap(&mut sel, &mut self.selected);
        let ghost old_sel = sel@;
        append_ids(&mut sel, &req);
        assert(id_set(req@) =~= required_set(forest));
        assert(id_set(sel@) =~= id_set(old_sel).union(required_set(forest)));
        self.selected = canonicalize(sel);
        self.required = req;
    }
}

impl ComponentList {
    /// An empty manifest.
    pub fn new() -> (r: ComponentList)
        ensures
            r.url@ == "Example Component List"@,
            r.categories@.len() == 0,
            r.selected@.len() == 0,
            r.required@.len() == 0,
    {
        proof {
            reveal_strlit("Example Component List");
        }
        ComponentList {
            url: "Example Component List".to_owned(),
            categories: Vec::new(),
            selected: Vec::new(),
            required: Vec::new(),
        }
    }
}

/// Reads a required flag as the manifest writes it: `1` is set, anything
/// else is not.
pub fn parse_flag(s: &str) -> (r: bool)
    ensures
        r == (s@ == "1"@),
{
    proof {
        reveal_strlit("1");
    }
    let n = s.unicode_len();
    if n == 1 {
        let c = s.get_char(0);
        if c == '1' {
            assert(s@ =~= "1"@);
            true
        } else {
            false
        }
    } else {
        false
    }
}

} // verus!
