//! Maps and sets of names, graphs of names and texts.

use bend::name::{to_decimal, Name};
use bend::name_graph::groups;
use bend::name_map::{NameMap, NameSet};
use bend::scc::components;
use bend::text::{find, from_chars, join, to_chars};

fn name(x: &str) -> Name {
    Name::new(x.to_string())
}

fn texts(ns: Vec<Name>) -> Vec<String> {
    ns.into_iter().map(|n| n.0).collect()
}

#[test]
fn names_are_ordered_by_their_characters() {
    assert!(name("A").before(&name("B")));
    assert!(name("A").before(&name("AA")));
    assert!(name("Z").before(&name("a")));
    assert!(name("z").before(&name("é")));
    assert!(name("é").before(&name("λ")));
    assert!(!name("A").before(&name("A")));
    assert!(!name("B").before(&name("A")));
    assert!(name("").before(&name("A")));
    assert!(name("A").same(&name("A")));
    assert!(!name("A").same(&name("a")));
}

#[test]
fn map_keeps_its_names_in_order() {
    let mut m: NameMap<usize> = NameMap::new();
    assert_eq!(m.insert(name("b"), 1), None);
    assert_eq!(m.insert(name("c"), 2), None);
    assert_eq!(m.insert(name("a"), 3), None);
    assert_eq!(m.insert(name("b"), 4), Some(1));
    assert_eq!(texts(m.keys()), vec!["a", "b", "c"]);
    assert_eq!((*m.value_at(0), *m.value_at(1), *m.value_at(2)), (3, 4, 2));
    assert_eq!(m.name_at(1).0, "b");
    assert_eq!(m.get(&name("b")), Some(&4));
    assert_eq!(m.get(&name("x")), None);
    assert!(m.contains_key(&name("c")));
    assert_eq!(m.remove(&name("b")), Some(4));
    assert_eq!(m.remove(&name("b")), None);
    assert_eq!(m.len(), 2);
    assert_eq!(texts(m.keys()), vec!["a", "c"]);
}

#[test]
fn set_keeps_its_names_in_order() {
    let mut s = NameSet::from_vec(&vec![name("c"), name("a"), name("c")]);
    assert_eq!(texts(s.to_vec()), vec!["a", "c"]);
    assert!(s.insert(name("b")));
    assert!(!s.insert(name("b")));
    assert_eq!(s.index_of(&name("b")), Some(1));
    assert_eq!(s.index_of(&name("d")), None);
    s.extend(&NameSet::from_vec(&vec![name("d"), name("a")]));
    assert_eq!(texts(s.to_vec()), vec!["a", "b", "c", "d"]);
    let t = s.minus(&NameSet::from_vec(&vec![name("c"), name("x")]));
    assert_eq!(texts(t.to_vec()), vec!["a", "b", "d"]);
    assert!(t.contains(&name("a")) && !t.contains(&name("c")));
    assert_eq!(t.len(), 3);
}

#[test]
fn groups_come_after_what_they_need() {
    let mut deps: NameMap<NameSet> = NameMap::new();
    deps.insert(name("a"), NameSet::from_vec(&vec![name("c"), name("b")]));
    deps.insert(name("b"), NameSet::from_vec(&vec![name("a")]));
    deps.insert(name("c"), NameSet::from_vec(&vec![name("e"), name("d")]));
    deps.insert(name("e"), NameSet::from_vec(&vec![name("c")]));
    let gs: Vec<Vec<String>> = groups(&deps).into_iter().map(texts).collect();
    assert_eq!(gs, vec![vec!["d"], vec!["c", "e"], vec!["a", "b"]]);
}

#[test]
fn components_of_numbers() {
    let adj = vec![vec![1], vec![2], vec![0, 3], vec![4], vec![3], vec![]];
    let mut cs = components(&adj);
    for c in cs.iter_mut() {
        c.sort();
    }
    assert_eq!(cs, vec![vec![3, 4], vec![0, 1, 2], vec![5]]);
    assert_eq!(components(&vec![]), Vec::<Vec<usize>>::new());
}

#[test]
fn decimal_texts() {
    assert_eq!(to_decimal(0), "0");
    assert_eq!(to_decimal(7), "7");
    assert_eq!(to_decimal(10), "10");
    assert_eq!(to_decimal(90210), "90210");
    assert_eq!(to_decimal(usize::MAX), usize::MAX.to_string());
}

#[test]
fn texts_are_searched_and_cut() {
    let cs = to_chars("aabaab");
    assert_eq!(find(&cs, &to_chars("aab")), Some(0));
    assert_eq!(find(&cs, &to_chars("ba")), Some(2));
    assert_eq!(find(&cs, &to_chars("")), Some(0));
    assert_eq!(find(&cs, &to_chars("bb")), None);
    assert_eq!(find(&cs, &to_chars("aabaabb")), None);
    assert_eq!(find(&vec![], &vec![]), Some(0));
    assert_eq!(from_chars(&to_chars("naïve"), 1, 4), "aïv");
    assert_eq!(from_chars(&to_chars("abc"), 2, 2), "");
}

#[test]
fn texts_are_joined() {
    let xs = |s: &[&str]| s.iter().map(|x| x.to_string()).collect::<Vec<String>>();
    assert_eq!(join(&xs(&[]), ", "), "");
    assert_eq!(join(&xs(&["a"]), ", "), "a");
    assert_eq!(join(&xs(&["a", "", "b"]), ", "), "a, , b");
}
