use bootstrapper::closure::split_words;
use bootstrapper::manifest::{parse_flag, Category, Component, ComponentList};

fn comp(id: &str, depends: Option<&str>, required: bool) -> Component {
    Component {
        id: id.to_owned(),
        raw_id: String::new(),
        name: format!("{} name", id),
        description: String::new(),
        date_modified: String::new(),
        download_size: 10,
        install_size: 20,
        path: None,
        hash: "00000000".to_owned(),
        depends: depends.map(|d| d.to_owned()),
        required,
        installed: false,
    }
}

fn cat(id: &str, subcategories: Vec<Category>, components: Vec<Component>, required: bool) -> Category {
    Category {
        id: id.to_owned(),
        name: id.to_owned(),
        description: String::new(),
        subcategories,
        components,
        required,
    }
}

fn list(categories: Vec<Category>) -> ComponentList {
    let mut l = ComponentList::new();
    l.categories = categories;
    l
}

fn strings(v: &[&str]) -> Vec<String> {
    v.iter().map(|s| s.to_string()).collect()
}

/// Categories `A{comp1 (required), comp2, comp4 (needs comp1 and comp3)}`
/// and `B (required){comp3}`.
fn scenario() -> ComponentList {
    list(vec![
        cat(
            "A",
            vec![],
            vec![comp("comp1", None, true), comp("comp2", None, false), comp("comp4", Some("comp1 comp3"), false)],
            false,
        ),
        cat("B", vec![], vec![comp("comp3", None, false)], true),
    ])
}

#[test]
fn scenario_required_set() {
    let mut l = scenario();
    l.setup();
    assert_eq!(l.required, strings(&["A-comp1", "B", "B-comp3"]));
    assert_eq!(l.selected, strings(&["A-comp1", "B", "B-comp3"]));
}

#[test]
fn scenario_select_without_dependencies() {
    let mut l = scenario();
    l.setup();
    l.select("A-comp2");
    assert_eq!(l.selected, strings(&["A-comp1", "A-comp2", "B", "B-comp3"]));
}

#[test]
fn scenario_select_with_dependencies() {
    let mut l = scenario();
    l.setup();
    l.selected = vec![];
    l.select("A-comp4");
    assert_eq!(l.selected, strings(&["A-comp4", "comp1", "comp3"]));
}

#[test]
fn derived_identifiers() {
    let mut l = list(vec![cat(
        "core",
        vec![cat("extra", vec![], vec![comp("x", None, false)], false)],
        vec![comp("db", None, false)],
        false,
    )]);
    l.setup();
    let top = &l.categories[0];
    assert_eq!(top.id, "core");
    assert_eq!(top.components[0].id, "core-db");
    assert_eq!(top.components[0].raw_id, "db");
    assert_eq!(top.subcategories[0].id, "core-extra");
    assert_eq!(top.subcategories[0].components[0].id, "core-extra-x");
    assert_eq!(top.subcategories[0].components[0].raw_id, "x");
}

#[test]
fn setup_twice_gives_same_ids() {
    let build = || {
        list(vec![cat(
            "a",
            vec![cat("b", vec![], vec![comp("c", None, true)], false)],
            vec![comp("e", None, false), comp("d", None, false)],
            false,
        )])
    };
    let mut one = build();
    let mut two = build();
    one.setup();
    two.setup();
    let ids = |l: &ComponentList| {
        let mut v = vec![];
        for c in &l.categories {
            v.push(c.id.clone());
            for s in &c.subcategories {
                v.push(s.id.clone());
                for x in &s.components {
                    v.push(x.id.clone());
                }
            }
            for x in &c.components {
                v.push(x.id.clone());
            }
        }
        v
    };
    assert_eq!(ids(&one), ids(&two));
    let all = ids(&one);
    let mut unique = all.clone();
    unique.sort();
    unique.dedup();
    assert_eq!(all.len(), unique.len());
}

fn chain() -> ComponentList {
    // y needs x, z needs y, w stands alone.
    let mut l = list(vec![cat(
        "g",
        vec![],
        vec![
            comp("x", None, false),
            comp("y", Some("g-x"), false),
            comp("z", Some("g-y"), false),
            comp("w", None, false),
        ],
        false,
    )]);
    l.setup();
    l
}

#[test]
fn dependencies_include_self_and_are_transitive() {
    let l = chain();
    assert_eq!(l.find_dependencies("g-z"), strings(&["g-x", "g-y", "g-z"]));
    assert_eq!(l.find_dependencies("g-w"), strings(&["g-w"]));
}

#[test]
fn dependencies_fixed_point() {
    let l = chain();
    let first = l.find_dependencies("g-z");
    let mut again: Vec<String> = vec![];
    for id in &first {
        again.extend(l.find_dependencies(id));
    }
    again.sort();
    again.dedup();
    assert_eq!(again, first);
}

#[test]
fn dependencies_of_category() {
    let l = chain();
    assert_eq!(l.find_dependencies("g"), strings(&["g-w", "g-x", "g-y", "g-z"]));
    assert_eq!(l.find_dependencies("nothing"), Vec::<String>::new());
}

#[test]
fn dependencies_with_a_cycle() {
    let mut l = list(vec![cat(
        "c",
        vec![],
        vec![comp("a", Some("c-b"), false), comp("b", Some("c-a"), false)],
        false,
    )]);
    l.setup();
    assert_eq!(l.find_dependencies("c-a"), strings(&["c-a", "c-b"]));
    assert_eq!(l.find_dependants("c-a"), strings(&["c-a", "c-b"]));
}

#[test]
fn dependants_are_transitive() {
    let l = chain();
    assert_eq!(l.find_dependants("g-x"), strings(&["g-x", "g-y", "g-z"]));
    assert_eq!(l.find_dependants("g-w"), strings(&["g-w"]));
    assert_eq!(l.find_dependants("g"), strings(&["g-w", "g-x", "g-y", "g-z"]));
}

#[test]
fn dependants_skip_required() {
    let mut l = list(vec![cat(
        "g",
        vec![],
        vec![comp("x", None, false), comp("y", Some("g-x"), true)],
        false,
    )]);
    l.setup();
    assert_eq!(l.required, strings(&["g-x", "g-y"]));
    assert_eq!(l.find_dependants("g-x"), Vec::<String>::new());
    assert_eq!(l.find_dependants("g-y"), Vec::<String>::new());
}

#[test]
fn unselect_removes_dependants() {
    let mut l = list(vec![cat(
        "p",
        vec![],
        vec![comp("X", None, false), comp("Y", Some("p-X"), false), comp("Z", None, false)],
        false,
    )]);
    l.setup();
    l.select("p-Y");
    l.select("p-Z");
    assert_eq!(l.selected, strings(&["p-X", "p-Y", "p-Z"]));
    l.unselect("p-X");
    assert_eq!(l.selected, strings(&["p-Z"]));
}

#[test]
fn select_unselect_round_trip() {
    let mut l = chain();
    l.select("g-y");
    let before = l.selected.clone();
    l.select("g-w");
    assert_eq!(l.selected, strings(&["g-w", "g-x", "g-y"]));
    l.unselect("g-w");
    assert_eq!(l.selected, before);
}

#[test]
fn unselect_keeps_required() {
    let mut l = scenario();
    l.setup();
    l.select("A-comp2");
    l.unselect("A-comp1");
    l.unselect("B");
    assert_eq!(l.selected, strings(&["A-comp1", "A-comp2", "B", "B-comp3"]));
}

#[test]
fn select_and_unselect_are_idempotent() {
    let mut l = chain();
    l.select("g-y");
    let once = l.selected.clone();
    l.select("g-y");
    assert_eq!(l.selected, once);
    l.unselect("missing");
    assert_eq!(l.selected, once);
}

#[test]
fn fully_required_category_is_required() {
    let mut l = list(vec![cat(
        "top",
        vec![
            cat("full", vec![], vec![comp("a", None, true)], false),
            cat("part", vec![], vec![comp("b", None, true), comp("c", None, false)], false),
            cat("marked", vec![cat("deep", vec![], vec![comp("e", None, false)], false)], vec![comp("d", None, false)], true),
        ],
        vec![comp("t", None, true)],
        false,
    )]);
    l.setup();
    assert_eq!(
        l.required,
        strings(&[
            "top-full",
            "top-full-a",
            "top-marked",
            "top-marked-d",
            "top-marked-deep",
            "top-marked-deep-e",
            "top-part-b",
            "top-t",
        ])
    );
}

#[test]
fn nested_required_grandchild() {
    // A category that is not required, holding one that is fully required.
    let mut l = list(vec![cat(
        "r",
        vec![cat(
            "mid",
            vec![cat("leaf", vec![], vec![comp("k", None, true)], false)],
            vec![comp("m", None, false)],
            false,
        )],
        vec![],
        false,
    )]);
    l.setup();
    assert_eq!(l.required, strings(&["r-mid-leaf", "r-mid-leaf-k"]));
}

#[test]
fn fully_required_tree_adds_every_level() {
    let mut l = list(vec![cat(
        "r",
        vec![cat("s", vec![], vec![comp("k", None, true)], false)],
        vec![comp("j", None, true)],
        false,
    )]);
    l.setup();
    assert_eq!(l.required, strings(&["r", "r-j", "r-s", "r-s-k"]));
}

#[test]
fn required_component_brings_its_dependencies() {
    let mut l = list(vec![cat(
        "q",
        vec![],
        vec![comp("base", None, false), comp("app", Some("q-base"), true)],
        false,
    )]);
    l.setup();
    assert_eq!(l.required, strings(&["q-app", "q-base"]));
}

#[test]
fn empty_manifest() {
    let mut l = ComponentList::new();
    assert_eq!(l.url, "Example Component List");
    l.setup();
    assert!(l.required.is_empty());
    assert!(l.selected.is_empty());
    assert!(l.find_dependencies("x").is_empty());
}

#[test]
fn required_flag_text() {
    assert!(parse_flag("1"));
    assert!(!parse_flag("0"));
    assert!(!parse_flag("true"));
    assert!(!parse_flag(""));
    assert!(!parse_flag("11"));
}

#[test]
fn flagged_category_requires_nested_categories() {
    let mut l = list(vec![cat("T", vec![cat("S", vec![], vec![], false)], vec![], true)]);
    l.setup();
    assert_eq!(l.required, strings(&["T", "T-S"]));
}

#[test]
fn flagged_category_brings_dependencies() {
    let mut l = list(vec![
        cat("lib", vec![], vec![comp("base", None, false)], false),
        cat("app", vec![], vec![comp("main", Some("lib-base"), true)], true),
    ]);
    l.setup();
    assert_eq!(l.required, strings(&["app", "app-main", "lib-base"]));
}

#[test]
fn unselect_drops_a_category_id() {
    let mut l = chain();
    l.selected = strings(&["g", "g-w", "other"]);
    l.unselect("g");
    assert_eq!(l.selected, strings(&["other"]));
}

#[test]
fn unselect_drops_an_unknown_id() {
    let mut l = chain();
    l.selected = strings(&["dangling", "g-w"]);
    l.unselect("dangling");
    assert_eq!(l.selected, strings(&["g-w"]));
}

#[test]
fn words_of_depends_lists() {
    assert_eq!(split_words("A-comp1 B-comp3"), strings(&["A-comp1", "B-comp3"]));
    assert_eq!(split_words("  a\tbb\n c\u{3000}d "), strings(&["a", "bb", "c", "d"]));
    assert_eq!(split_words(""), Vec::<String>::new());
    assert_eq!(split_words(" \t "), Vec::<String>::new());
}
