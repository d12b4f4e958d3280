//! Transitive closures over the `depends` relation between components.
use vstd::prelude::*;

use crate::ids::{char_string, contains_id, id_set};
use crate::manifest::{deref_all, Component};

verus! {

/// The characters with Unicode's White_Space property.
pub open spec fn is_space(c: char) -> bool {
    let u = c as u32;
    (0x9 <= u && u <= 0xD) || u == 0x20 || u == 0x85 || u == 0xA0 || u == 0x1680 || (0x2000 <= u
        && u <= 0x200A) || u == 0x2028 || u == 0x2029 || u == 0x202F || u == 0x205F || u == 0x3000
}

/// The words of a text: its maximal runs of characters that are not white
/// space, in order.
pub open spec fn words_of(s: Seq<char>) -> Seq<Seq<char>>
    decreases s.len(),
{
    if s.len() == 0 {
        Seq::empty()
    } else {
        let w = words_of(s.drop_last());
        let c = s.last();
        if is_space(c) {
            w
        } else if s.len() >= 2 && !is_space(s[s.len() - 2]) {
            w.drop_last().push(w.last().push(c))
        } else {
            w.push(seq![c])
        }
    }
}

/// Whether `c` is white space.
fn is_space_char(c: char) -> (r: bool)
    ensures
        r == is_space(c),
{
    let u = c as u32;
    (0x9 <= u && u <= 0xD) || u == 0x20 || u == 0x85 || u == 0xA0 || u == 0x1680 || (0x2000 <= u
        && u <= 0x200A) || u == 0x2028 || u == 0x2029 || u == 0x202F || u == 0x205F || u == 0x3000
}

/// The words of `s`, in order.
pub fn split_words(s: &str) -> (r: Vec<String>)
    ensures
        r@.len() == words_of(s@).len(),
        forall|i: int| 0 <= i < r@.len() ==> #[trigger] r@[i]@ == words_of(s@)[i],
{
    let n = s.unicode_len();
    let mut out: Vec<String> = Vec::new();
    let mut prev_space = true;
    let mut i: usize = 0;
    assert(views(out@) =~= words_of(s@.subrange(0, 0)));
    while i < n
        invariant
            n == s@.len(),
            i <= n,
            views(out@) == words_of(s@.subrange(0, i as int)),
            prev_space == (i == 0 || is_space(s@[i - 1])),
            !prev_space ==> out@.len() > 0,
        decreases n - i,
    {
        let c = s.get_char(i);
        let sp = is_space_char(c);
        let ghost t = s@.subrange(0, i + 1);
        let ghost before = views(out@);
        proof {
            assert(t.drop_last() =~= s@.subrange(0, i as int));
            assert(t.last() == c);
            if i >= 1 {
                assert(t[t.len() - 2] == s@[i - 1]);
            }
        }
        if sp {
        } else if !prev_space {
            let ghost out0 = out@;
            let mut last = out.pop().unwrap();
            let piece = char_string(c);
            last.append(piece.as_str());
            proof {
                assert(out@ == out0.drop_last());
                assert(views(out@) =~= before.drop_last());
                assert(before.last() == out0.last()@);
                assert(last@ =~= before.last().push(c));
            }
            out.push(last);
            assert(views(out@) =~= before.drop_last().push(before.last().push(c)));
        } else {
            out.push(char_string(c));
            assert(views(out@) =~= before.push(seq![c]));
        }
        prev_space = sp;
        i = i + 1;
    }
    assert(s@.subrange(0, n as int) =~= s@);
    assert forall|i: int| 0 <= i < out@.len() implies #[trigger] out@[i]@ == words_of(s@)[i] by {
        assert(views(out@)[i] == out@[i]@);
    }
    out
}

/// The identifiers that a component declares it depends on.
pub open spec fn deps_of(c: Component) -> Seq<Seq<char>> {
    match c.depends {
        Some(d) => words_of(d@),
        None => Seq::empty(),
    }
}

/// `i` is the first position of a component named `a`.
pub open spec fn is_first(comps: Seq<Component>, i: int, a: Seq<char>) -> bool {
    0 <= i < comps.len() && comps[i].id@ == a && forall|j: int|
        0 <= j < i ==> #[trigger] comps[j].id@ != a
}

/// `a` needs `b`: the first component named `a` lists `b` among its
/// dependencies.
pub open spec fn dep_edge(comps: Seq<Component>, a: Seq<char>, b: Seq<char>) -> bool {
    exists|i: int| #[trigger] is_first(comps, i, a) && deps_of(comps[i]).contains(b)
}

/// `b` depends on `a`: some component named `b` lists `a`.
pub open spec fn dependant_edge(comps: Seq<Component>, a: Seq<char>, b: Seq<char>) -> bool {
    exists|i: int|
        0 <= i < comps.len() && #[trigger] comps[i].id@ == b && deps_of(comps[i]).contains(a)
}

/// No edge leaves `t`.
pub open spec fn closed_under(edge: spec_fn(Seq<char>, Seq<char>) -> bool, t: Set<Seq<char>>) -> bool {
    forall|a: Seq<char>, b: Seq<char>| #[trigger] t.contains(a) && #[trigger] edge(a, b) ==> t.contains(b)
}

/// The least set that holds `starts` and that no edge leaves: what is
/// reachable from `starts` in zero or more steps.
pub open spec fn closure(edge: spec_fn(Seq<char>, Seq<char>) -> bool, starts: Set<Seq<char>>) -> Set<Seq<char>> {
    Set::new(
        |x: Seq<char>|
            forall|t: Set<Seq<char>>|
                starts.subset_of(t) && closed_under(edge, t) ==> #[trigger] t.contains(x),
    )
}

pub open spec fn dep_rel(comps: Seq<Component>) -> spec_fn(Seq<char>, Seq<char>) -> bool {
    |a: Seq<char>, b: Seq<char>| dep_edge(comps, a, b)
}

pub open spec fn dependant_rel(comps: Seq<Component>) -> spec_fn(Seq<char>, Seq<char>) -> bool {
    |a: Seq<char>, b: Seq<char>| dependant_edge(comps, a, b)
}

/// Every identifier the closure can ever hold: the starts, the components'
/// names and the names they depend on.
pub open spec fn names_seq(comps: Seq<Component>) -> Seq<Seq<char>>
    decreases comps.len(),
{
    if comps.len() == 0 {
        Seq::empty()
    } else {
        names_seq(comps.drop_last()) + seq![comps.last().id@] + deps_of(comps.last())
    }
}

pub open spec fn views(v: Seq<String>) -> Seq<Seq<char>> {
    v.map_values(|s: String| s@)
}

/// No identifier twice.
pub open spec fn distinct(v: Seq<String>) -> bool {
    forall|p: int, q: int| 0 <= p < v.len() && 0 <= q < v.len() && p != q ==> v[p]@ != v[q]@
}

pub proof fn lemma_closure_holds_starts(
    edge: spec_fn(Seq<char>, Seq<char>) -> bool,
    starts: Set<Seq<char>>,
    x: Seq<char>,
)
    requires
        starts.contains(x),
    ensures
        closure(edge, starts).contains(x),
{
}

pub proof fn lemma_closure_step(
    edge: spec_fn(Seq<char>, Seq<char>) -> bool,
    starts: Set<Seq<char>>,
    a: Seq<char>,
    b: Seq<char>,
)
    requires
        closure(edge, starts).contains(a),
        edge(a, b),
    ensures
        closure(edge, starts).contains(b),
{
    assert forall|t: Set<Seq<char>>| starts.subset_of(t) && closed_under(edge, t) implies #[trigger] t.contains(b) by {
        assert(t.contains(a));
    }
}

pub proof fn lemma_closure_least(
    edge: spec_fn(Seq<char>, Seq<char>) -> bool,
    starts: Set<Seq<char>>,
    v: Set<Seq<char>>,
)
    requires
        starts.subset_of(v),
        closed_under(edge, v),
    ensures
        closure(edge, starts).subset_of(v),
{
    assert forall|x| closure(edge, starts).contains(x) implies v.contains(x) by {
        assert(starts.subset_of(v) && closed_under(edge, v) ==> v.contains(x));
    }
}

/// The closure itself holds its starts and no edge leaves it.
pub proof fn lemma_closure_closed(
    edge: spec_fn(Seq<char>, Seq<char>) -> bool,
    starts: Set<Seq<char>>,
)
    ensures
        starts.subset_of(closure(edge, starts)),
        closed_under(edge, closure(edge, starts)),
{
    assert forall|a: Seq<char>, b: Seq<char>| #[trigger] closure(edge, starts).contains(a) && #[trigger] edge(a, b) implies closure(edge, starts).contains(b) by {
        lemma_closure_step(edge, starts, a, b);
    }
}

proof fn lemma_names_hold(comps: Seq<Component>, i: int)
    requires
        0 <= i < comps.len(),
    ensures
        names_seq(comps).contains(comps[i].id@),
        forall|j: int| 0 <= j < deps_of(comps[i]).len() ==> names_seq(comps).contains(#[trigger] deps_of(comps[i])[j]),
    decreases comps.len(),
{
    let n = names_seq(comps);
    let prev = names_seq(comps.drop_last());
    let last = comps.last();
    assert(n == prev + seq![last.id@] + deps_of(last));
    if i < comps.len() - 1 {
        lemma_names_hold(comps.drop_last(), i);
        assert(comps.drop_last()[i] == comps[i]);
        let k = choose|k: int| 0 <= k < prev.len() && prev[k] == comps[i].id@;
        assert(n[k] == comps[i].id@);
        assert forall|j: int| 0 <= j < deps_of(comps[i]).len() implies n.contains(#[trigger] deps_of(comps[i])[j]) by {
            assert(prev.contains(deps_of(comps[i])[j]));
            let k = choose|k: int| 0 <= k < prev.len() && prev[k] == deps_of(comps[i])[j];
            assert(n[k] == deps_of(comps[i])[j]);
        }
    } else {
        assert(n[prev.len() as int] == comps[i].id@);
        assert forall|j: int| 0 <= j < deps_of(comps[i]).len() implies n.contains(#[trigger] deps_of(comps[i])[j]) by {
            assert(n[prev.len() + 1 + j] == deps_of(comps[i])[j]);
        }
    }
}

proof fn lemma_distinct_bound(v: Seq<String>, u: Seq<Seq<char>>)
    requires
        distinct(v),
        forall|k: int| 0 <= k < v.len() ==> u.contains(#[trigger] v[k]@),
    ensures
        v.len() <= u.len(),
{
    let w = views(v);
    assert(w.no_duplicates()) by {
        assert forall|p: int, q: int| 0 <= p < w.len() && 0 <= q < w.len() && p != q implies w[p] != w[q] by {
            assert(w[p] == v[p]@);
            assert(w[q] == v[q]@);
        }
    }
    w.unique_seq_to_set();
    u.lemma_cardinality_of_set();
    assert(w.to_set().subset_of(u.to_set())) by {
        assert forall|x| w.to_set().contains(x) implies u.to_set().contains(x) by {
            let k = choose|k: int| 0 <= k < w.len() && w[k] == x;
            assert(u.contains(v[k]@));
        }
    }
    vstd::seq_lib::seq_to_set_is_finite(u);
    vstd::set_lib::lemma_len_subset(w.to_set(), u.to_set());
}

/// Appends `w` unless `v` holds it already.
fn push_new(v: &mut Vec<String>, w: String)
    requires
        distinct(old(v)@),
    ensures
        distinct(final(v)@),
        id_set(final(v)@) == id_set(old(v)@).insert(w@),
        old(v)@.len() <= final(v)@.len(),
        final(v)@.subrange(0, old(v)@.len() as int) == old(v)@,
        forall|k: int| 0 <= k < final(v)@.len() ==> (k < old(v)@.len() || #[trigger] final(v)@[k]@ == w@),
{
    let ghost before = v@;
    if !contains_id(v, &w) {
        v.push(w);
        proof {
            assert(v@.subrange(0, before.len() as int) =~= before);
            assert(id_set(v@) =~= id_set(before).insert(v@.last()@)) by {
                assert forall|x| id_set(v@).contains(x) implies id_set(before).insert(v@.last()@).contains(x) by {
                    let k = choose|k: int| 0 <= k < v@.len() && v@[k]@ == x;
                    if k < before.len() {
                        assert(before[k]@ == x);
                    }
                }
                assert forall|x| id_set(before).insert(v@.last()@).contains(x) implies id_set(v@).contains(x) by {
                    if x != v@.last()@ {
                        let k = choose|k: int| 0 <= k < before.len() && before[k]@ == x;
                        assert(v@[k]@ == x);
                    } else {
                        assert(v@[v@.len() - 1]@ == x);
                    }
                }
            }
            assert forall|p: int, q: int| 0 <= p < v@.len() && 0 <= q < v@.len() && p != q implies v@[p]@ != v@[q]@ by {
                if p == before.len() {
                    assert(!id_set(before).contains(v@[p]@));
                    if v@[p]@ == v@[q]@ {
                        assert(before[q]@ == v@[p]@);
                    }
                } else if q == before.len() {
                    if v@[p]@ == v@[q]@ {
                        assert(before[p]@ == v@[q]@);
                    }
                } else {
                    assert(before[p] == v@[p]);
                    assert(before[q] == v@[q]);
                }
            }
        }
    } else {
        proof {
            assert(id_set(v@) =~= id_set(before).insert(w@));
            assert(v@.subrange(0, before.len() as int) =~= before);
        }
    }
}

/// Position of the first component named `id`.
fn find_first(comps: &Vec<&Component>, id: &String) -> (r: Option<usize>)
    ensures
        match r {
            Some(i) => is_first(deref_all(comps@), i as int, id@),
            None => forall|k: int| 0 <= k < comps@.len() ==> #[trigger] deref_all(comps@)[k].id@ != id@,
        },
{
    let ghost cs = deref_all(comps@);
    let mut i: usize = 0;
    while i < comps.len()
        invariant
            i <= comps@.len(),
            cs == deref_all(comps@),
            forall|k: int| 0 <= k < i ==> #[trigger] cs[k].id@ != id@,
        decreases comps@.len() - i,
    {
        if comps[i].id == *id {
            return Some(i);
        }
        i = i + 1;
    }
    None
}

/// The identifiers named by the `depends` list of `c`.
fn dependencies_of(c: &Component) -> (r: Vec<String>)
    ensures
        r@.len() == deps_of(*c).len(),
        forall|i: int| 0 <= i < r@.len() ==> #[trigger] r@[i]@ == deps_of(*c)[i],
{
    match &c.depends {
        Some(d) => split_words(d.as_str()),
        None => Vec::new(),
    }
}

/// What one edge leads to from `starts`.
pub open spec fn successors(edge: spec_fn(Seq<char>, Seq<char>) -> bool, starts: Set<Seq<char>>) -> Set<Seq<char>> {
    Set::new(|b: Seq<char>| exists|a: Seq<char>| starts.contains(a) && #[trigger] edge(a, b))
}

/// The closure of `starts` is the starts together with what one or more
/// steps reach. A query names its start in its result whether or not the
/// start lies on a cycle, so the results use the closure itself.
pub proof fn lemma_closure_is_starts_and_strict(
    edge: spec_fn(Seq<char>, Seq<char>) -> bool,
    starts: Set<Seq<char>>,
)
    ensures
        closure(edge, starts) == starts.union(closure(edge, successors(edge, starts))),
{
    let c = closure(edge, starts);
    let strict = closure(edge, successors(edge, starts));
    lemma_closure_closed(edge, starts);
    lemma_closure_closed(edge, successors(edge, starts));
    assert(successors(edge, starts).subset_of(c)) by {
        assert forall|b| successors(edge, starts).contains(b) implies c.contains(b) by {
            let a = choose|a: Seq<char>| starts.contains(a) && #[trigger] edge(a, b);
            assert(c.contains(a));
        }
    }
    lemma_closure_least(edge, successors(edge, starts), c);
    let u = starts.union(strict);
    assert(closed_under(edge, u)) by {
        assert forall|a: Seq<char>, b: Seq<char>| #[trigger] u.contains(a) && #[trigger] edge(a, b) implies u.contains(b) by {
            if starts.contains(a) {
                assert(successors(edge, starts).contains(b));
            } else {
                assert(strict.contains(a));
            }
        }
    }
    lemma_closure_least(edge, starts, u);
    assert(c =~= u);
}

/// Seeds a visited list with the starts, each once.
fn seed(starts: &Vec<String>) -> (r: Vec<String>)
    ensures
        distinct(r@),
        id_set(r@) == id_set(starts@),
{
    let mut v: Vec<String> = Vec::new();
    let mut i: usize = 0;
    assert(id_set(v@) =~= Set::empty());
    while i < starts.len()
        invariant
            i <= starts@.len(),
            distinct(v@),
            id_set(v@) == id_set(starts@.subrange(0, i as int)),
        decreases starts@.len() - i,
    {
        push_new(&mut v, starts[i].clone());
        proof {
            assert(id_set(starts@.subrange(0, i + 1)) =~= id_set(starts@.subrange(0, i as int)).insert(starts@[i as int]@)) by {
                let s0 = starts@.subrange(0, i as int);
                let s1 = starts@.subrange(0, i + 1);
                assert forall|x| id_set(s1).contains(x) implies id_set(s0).insert(starts@[i as int]@).contains(x) by {
                    let k = choose|k: int| 0 <= k < s1.len() && s1[k]@ == x;
                    if k < i {
                        assert(s0[k]@ == x);
                    }
                }
                assert forall|x| id_set(s0).insert(starts@[i as int]@).contains(x) implies id_set(s1).contains(x) by {
                    if x == starts@[i as int]@ {
                        assert(s1[i as int]@ == x);
                    } else {
                        let k = choose|k: int| 0 <= k < s0.len() && s0[k]@ == x;
                        assert(s1[k]@ == x);
                    }
                }
            }
        }
        i = i + 1;
    }
    assert(starts@.subrange(0, i as int) =~= starts@);
    v
}

/// Everything that `starts` needs, directly or not, the starts included.
pub fn dependency_closure(comps: &Vec<&Component>, starts: &Vec<String>) -> (r: Vec<String>)
    ensures
        id_set(r@) == closure(dep_rel(deref_all(comps@)), id_set(starts@)),
        distinct(r@),
{
    let ghost cs = deref_all(comps@);
    let ghost edge = dep_rel(cs);
    let ghost target = closure(edge, id_set(starts@));
    let ghost universe = views(starts@) + names_seq(cs);
    let mut visited = seed(starts);
    proof {
        assert forall|x| id_set(visited@).contains(x) implies target.contains(x) && universe.contains(x) by {
            lemma_closure_holds_starts(edge, id_set(starts@), x);
            let k = choose|k: int| 0 <= k < starts@.len() && starts@[k]@ == x;
            assert(universe[k] == x);
        }
        assert forall|k: int| 0 <= k < visited@.len() implies universe.contains(#[trigger] visited@[k]@) by {
            assert(id_set(visited@).contains(visited@[k]@));
        }
        lemma_distinct_bound(visited@, universe);
    }
    let mut i: usize = 0;
    while i < visited.len()
        invariant
            cs == deref_all(comps@),
            edge == dep_rel(cs),
            target == closure(edge, id_set(starts@)),
            universe == views(starts@) + names_seq(cs),
            i <= visited@.len(),
            visited@.len() <= universe.len(),
            distinct(visited@),
            id_set(starts@).subset_of(id_set(visited@)),
            forall|x| id_set(visited@).contains(x) ==> target.contains(x) && universe.contains(x),
            forall|k: int, b: Seq<char>| 0 <= k < i && #[trigger] dep_edge(cs, visited@[k]@, b) ==> id_set(visited@).contains(b),
        decreases 2 * universe.len() - visited@.len() - i,
    {
        let a = visited[i].clone();
        let ghost v0 = visited@;
        proof {
            assert(id_set(visited@).contains(a@)) by {
                assert(visited@[i as int]@ == a@);
            }
            assert(target.contains(a@));
            assert(views(starts@).len() == starts@.len());
        }
        match find_first(comps, &a) {
            Some(idx) => {
                let words = dependencies_of(comps[idx]);
                let mut j: usize = 0;
                while j < words.len()
                    invariant
                        cs == deref_all(comps@),
                        edge == dep_rel(cs),
                        target == closure(edge, id_set(starts@)),
                        universe == views(starts@) + names_seq(cs),
                        is_first(cs, idx as int, a@),
                        words@.len() == deps_of(cs[idx as int]).len(),
                        forall|q: int| 0 <= q < words@.len() ==> #[trigger] words@[q]@ == deps_of(cs[idx as int])[q],
                        target.contains(a@),
                        j <= words@.len(),
                        i < v0.len(),
                        v0.len() <= visited@.len(),
                        visited@.subrange(0, v0.len() as int) == v0,
                        views(starts@).len() == starts@.len(),
                        distinct(visited@),
                        id_set(v0).subset_of(id_set(visited@)),
                        forall|x| id_set(visited@).contains(x) ==> target.contains(x) && universe.contains(x),
                        forall|q: int| 0 <= q < j ==> id_set(visited@).contains(#[trigger] words@[q]@),
                    decreases words@.len() - j,
                {
                    let ghost w = words@[j as int]@;
                    proof {
                        assert(dep_edge(cs, a@, w)) by {
                            assert(deps_of(cs[idx as int])[j as int] == w);
                        }
                        assert(edge(a@, w));
                        lemma_closure_step(edge, id_set(starts@), a@, w);
                        lemma_names_hold(cs, idx as int);
                        assert(names_seq(cs).contains(w));
                        let k = choose|k: int| 0 <= k < names_seq(cs).len() && names_seq(cs)[k] == w;
                        assert(universe[starts@.len() + k] == names_seq(cs)[k]);
                    }
                    let ghost before = visited@;
                    push_new(&mut visited, words[j].clone());
                    proof {
                        assert(visited@.subrange(0, v0.len() as int) =~= before.subrange(0, v0.len() as int));
                    }
                    j = j + 1;
                }
                proof {
                    assert forall|b: Seq<char>| #[trigger] dep_edge(cs, a@, b) implies id_set(visited@).contains(b) by {
                        let p = choose|p: int| #[trigger] is_first(cs, p, a@) && deps_of(cs[p]).contains(b);
                        if p < idx {
                            assert(cs[p].id@ != a@);
                        } else if p > idx {
                            assert(cs[idx as int].id@ != a@);
                        }
                        let q = choose|q: int| 0 <= q < deps_of(cs[p]).len() && deps_of(cs[p])[q] == b;
                        assert(words@[q]@ == b);
                    }
                }
            },
            None => {
                proof {
                    assert forall|b: Seq<char>| #[trigger] dep_edge(cs, a@, b) implies id_set(visited@).contains(b) by {
                        let p = choose|p: int| #[trigger] is_first(cs, p, a@) && deps_of(cs[p]).contains(b);
                        assert(cs[p].id@ != a@);
                    }
                }
            },
        }
        proof {
            assert(visited@.subrange(0, v0.len() as int)[i as int] == visited@[i as int]);
            assert forall|k: int, b: Seq<char>| 0 <= k < i + 1 && #[trigger] dep_edge(cs, visited@[k]@, b) implies id_set(visited@).contains(b) by {
                assert(visited@.subrange(0, v0.len() as int)[k] == visited@[k]);
                if k < i {
                    assert(id_set(v0).contains(b));
                }
            }
            assert forall|k: int| 0 <= k < visited@.len() implies universe.contains(#[trigger] visited@[k]@) by {
                assert(id_set(visited@).contains(visited@[k]@));
            }
            lemma_distinct_bound(visited@, universe);
        }
        i = i + 1;
    }
    proof {
        assert(closed_under(edge, id_set(visited@))) by {
            assert forall|a: Seq<char>, b: Seq<char>| #[trigger] id_set(visited@).contains(a) && #[trigger] edge(a, b) implies id_set(visited@).contains(b) by {
                let k = choose|k: int| 0 <= k < visited@.len() && visited@[k]@ == a;
                assert(dep_edge(cs, visited@[k]@, b));
            }
        }
        lemma_closure_least(edge, id_set(starts@), id_set(visited@));
        assert(id_set(visited@) =~= target);
    }
    visited
}

/// Whether `c` lists `a` among its dependencies.
fn needs(c: &Component, a: &String) -> (r: bool)
    ensures
        r == deps_of(*c).contains(a@),
{
    let words = dependencies_of(c);
    let r = contains_id(&words, a);
    proof {
        if r {
            let k = choose|k: int| 0 <= k < words@.len() && words@[k]@ == a@;
            assert(deps_of(*c)[k] == a@);
        }
        if deps_of(*c).contains(a@) {
            let k = choose|k: int| 0 <= k < deps_of(*c).len() && deps_of(*c)[k] == a@;
            assert(words@[k]@ == a@);
        }
    }
    r
}

/// Everything that needs `starts`, directly or not, the starts included.
pub fn dependant_closure(comps: &Vec<&Component>, starts: &Vec<String>) -> (r: Vec<String>)
    ensures
        id_set(r@) == closure(dependant_rel(deref_all(comps@)), id_set(starts@)),
        distinct(r@),
{
    let ghost cs = deref_all(comps@);
    let ghost edge = dependant_rel(cs);
    let ghost target = closure(edge, id_set(starts@));
    let ghost universe = views(starts@) + names_seq(cs);
    let mut visited = seed(starts);
    proof {
        assert forall|x| id_set(visited@).contains(x) implies target.contains(x) && universe.contains(x) by {
            lemma_closure_holds_starts(edge, id_set(starts@), x);
            let k = choose|k: int| 0 <= k < starts@.len() && starts@[k]@ == x;
            assert(universe[k] == x);
        }
        assert forall|k: int| 0 <= k < visited@.len() implies universe.contains(#[trigger] visited@[k]@) by {
            assert(id_set(visited@).contains(visited@[k]@));
        }
        lemma_distinct_bound(visited@, universe);
    }
    let mut i: usize = 0;
    while i < visited.len()
        invariant
            cs == deref_all(comps@),
            edge == dependant_rel(cs),
            target == closure(edge, id_set(starts@)),
            universe == views(starts@) + names_seq(cs),
            i <= visited@.len(),
            visited@.len() <= universe.len(),
            distinct(visited@),
            id_set(starts@).subset_of(id_set(visited@)),
            forall|x| id_set(visited@).contains(x) ==> target.contains(x) && universe.contains(x),
            forall|k: int, b: Seq<char>| 0 <= k < i && #[trigger] dependant_edge(cs, visited@[k]@, b) ==> id_set(visited@).contains(b),
        decreases 2 * universe.len() - visited@.len() - i,
    {
        let a = visited[i].clone();
        let ghost v0 = visited@;
        proof {
            assert(id_set(visited@).contains(a@)) by {
                assert(visited@[i as int]@ == a@);
            }
            assert(target.contains(a@));
            assert(views(starts@).len() == starts@.len());
        }
        let mut j: usize = 0;
        while j < comps.len()
            invariant
                cs == deref_all(comps@),
                edge == dependant_rel(cs),
                target == closure(edge, id_set(starts@)),
                universe == views(starts@) + names_seq(cs),
                target.contains(a@),
                j <= comps@.len(),
                i < v0.len(),
                v0.len() <= visited@.len(),
                visited@.subrange(0, v0.len() as int) == v0,
                views(starts@).len() == starts@.len(),
                distinct(visited@),
                id_set(v0).subset_of(id_set(visited@)),
                forall|x| id_set(visited@).contains(x) ==> target.contains(x) && universe.contains(x),
                forall|q: int| 0 <= q < j && deps_of(cs[q]).contains(a@) ==> id_set(visited@).contains(#[trigger] cs[q].id@),
            decreases comps@.len() - j,
        {
            if needs(comps[j], &a) {
                let ghost w = cs[j as int].id@;
                proof {
                    assert(dependant_edge(cs, a@, w));
                    assert(edge(a@, w));
                    lemma_closure_step(edge, id_set(starts@), a@, w);
                    lemma_names_hold(cs, j as int);
                    let k = choose|k: int| 0 <= k < names_seq(cs).len() && names_seq(cs)[k] == w;
                    assert(universe[starts@.len() + k] == names_seq(cs)[k]);
                }
                let ghost before = visited@;
                push_new(&mut visited, comps[j].id.clone());
                proof {
                    assert(visited@.subrange(0, v0.len() as int) =~= before.subrange(0, v0.len() as int));
                }
            }
            j = j + 1;
        }
        proof {
            assert forall|b: Seq<char>| #[trigger] dependant_edge(cs, a@, b) implies id_set(visited@).contains(b) by {
                let p = choose|p: int| 0 <= p < cs.len() && #[trigger] cs[p].id@ == b && deps_of(cs[p]).contains(a@);
                assert(id_set(visited@).contains(cs[p].id@));
            }
            assert(visited@.subrange(0, v0.len() as int)[i as int] == visited@[i as int]);
            assert forall|k: int, b: Seq<char>| 0 <= k < i + 1 && #[trigger] dependant_edge(cs, visited@[k]@, b) implies id_set(visited@).contains(b) by {
                assert(visited@.subrange(0, v0.len() as int)[k] == visited@[k]);
                if k < i {
                    assert(id_set(v0).contains(b));
                }
            }
            assert forall|k: int| 0 <= k < visited@.len() implies universe.contains(#[trigger] visited@[k]@) by {
                assert(id_set(visited@).contains(visited@[k]@));
            }
            lemma_distinct_bound(visited@, universe);
        }
        i = i + 1;
    }
    proof {
        assert(closed_under(edge, id_set(visited@))) by {
            assert forall|a: Seq<char>, b: Seq<char>| #[trigger] id_set(visited@).contains(a) && #[trigger] edge(a, b) implies id_set(visited@).contains(b) by {
                let k = choose|k: int| 0 <= k < visited@.len() && visited@[k]@ == a;
                assert(dependant_edge(cs, visited@[k]@, b));
            }
        }
        lemma_closure_least(edge, id_set(starts@), id_set(visited@));
        assert(id_set(visited@) =~= target);
    }
    visited
}

} // verus!
