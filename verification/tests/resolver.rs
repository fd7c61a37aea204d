use mod_bisect::closure::{close_dependencies, resolve_selected};
use mod_bisect::dependency_resolver::{contains_id, find_provider, selection_declares};
use mod_bisect::error::BisectError;
use mod_bisect::model::{ModFile, ModMetadata};
use mod_bisect::selection::Selection;

fn package(file_name: &str, declarations: &[(&str, &[&str])]) -> ModFile {
    ModFile {
        file_name: file_name.to_string(),
        meta_list: declarations
            .iter()
            .map(|(id, dependencies)| ModMetadata {
                name: format!("Name of {id}"),
                id: id.to_string(),
                dependencies: dependencies.iter().map(|d| d.to_string()).collect(),
            })
            .collect(),
    }
}

fn texts(ids: &[&str]) -> Vec<String> {
    ids.iter().map(|id| id.to_string()).collect()
}

fn chosen(capacity: usize, positions: &[usize]) -> Selection {
    let mut selection = Selection::new(capacity);
    for position in positions {
        selection.insert(*position);
    }
    selection
}

#[test]
fn new_selection_is_empty() {
    let selection = Selection::new(4);
    assert_eq!(selection.capacity(), 4);
    assert_eq!(selection.len(), 0);
    assert_eq!(selection.positions(), Vec::<usize>::new());
    assert!(!selection.contains(0));
    assert!(!selection.contains(4));
}

#[test]
fn selection_of_no_positions() {
    let selection = Selection::new(0);
    assert_eq!(selection.capacity(), 0);
    assert_eq!(selection.len(), 0);
    assert_eq!(selection.complement().len(), 0);
}

#[test]
fn inserted_positions_are_listed_in_ascending_order() {
    let mut selection = Selection::new(5);
    selection.insert(3);
    selection.insert(0);
    selection.insert(3);
    assert_eq!(selection.len(), 2);
    assert_eq!(selection.positions(), vec![0, 3]);
    assert!(selection.contains(0));
    assert!(selection.contains(3));
    assert!(!selection.contains(1));
    assert!(!selection.contains(7));
    assert_eq!(selection.capacity(), 5);
}

#[test]
fn merge_is_the_union() {
    let mut left = chosen(4, &[0, 1]);
    left.merge(&chosen(4, &[1, 3]));
    assert_eq!(left.positions(), vec![0, 1, 3]);
    assert_eq!(left.len(), 3);
}

#[test]
fn complement_holds_the_other_positions() {
    let selection = chosen(4, &[1, 2]);
    let rest = selection.complement();
    assert_eq!(rest.positions(), vec![0, 3]);
    assert_eq!(rest.capacity(), 4);
    assert_eq!(rest.complement().positions(), vec![1, 2]);
}

#[test]
fn mod_ids_come_in_declaration_order() {
    let a = package("a.jar", &[("second", &[]), ("first", &["x"])]);
    assert_eq!(a.get_mod_ids(), vec!["second", "first"]);
    assert!(package("empty.jar", &[]).get_mod_ids().is_empty());
}

#[test]
fn required_ids_span_all_declarations() {
    let a = package("a.jar", &[("a", &["x", "y"]), ("b", &[]), ("c", &["y", "z"])]);
    assert_eq!(a.get_required_ids(), vec!["x", "y", "y", "z"]);
}

#[test]
fn declares_looks_at_every_declaration() {
    let a = package("a.jar", &[("a", &["x"]), ("b", &[])]);
    assert!(a.declares(&"a".to_string()));
    assert!(a.declares(&"b".to_string()));
    assert!(!a.declares(&"x".to_string()));
    assert!(!a.declares(&"".to_string()));
}

#[test]
fn packages_are_equal_by_file_name() {
    let a = package("same.jar", &[("a", &[])]);
    let b = package("same.jar", &[("b", &["x"])]);
    let c = package("other.jar", &[("a", &[])]);
    assert!(a == b);
    assert!(a != c);
}

#[test]
fn ids_are_found_in_a_list() {
    let ids = texts(&["minecraft", "neoforge"]);
    assert!(contains_id(&ids, &"neoforge".to_string()));
    assert!(!contains_id(&ids, &"forge".to_string()));
    assert!(!contains_id(&Vec::new(), &"forge".to_string()));
}

#[test]
fn provider_is_the_first_package_that_declares_the_id() {
    let a = package("a.jar", &[("a", &[])]);
    let b = package("b.jar", &[("b", &[]), ("shared", &[])]);
    let c = package("c.jar", &[("shared", &[])]);
    let mods = vec![&a, &b, &c];
    assert_eq!(find_provider(&mods, &"shared".to_string()), Some(1));
    assert_eq!(find_provider(&mods, &"a".to_string()), Some(0));
    assert_eq!(find_provider(&mods, &"none".to_string()), None);
    assert!(selection_declares(&mods, &chosen(3, &[2]), &"shared".to_string()));
    assert!(!selection_declares(&mods, &chosen(3, &[0]), &"shared".to_string()));
}

#[test]
fn unmet_dependency_is_taken_from_the_candidates() {
    let a = package("a.jar", &[("a", &[])]);
    let b = package("b.jar", &[("b", &["a"])]);
    let c = package("c.jar", &[("c", &[])]);
    let mods = vec![&a, &b, &c];
    let extra = b.get_extra_dependencies(&mods, &chosen(3, &[1]), &Vec::new()).unwrap();
    assert_eq!(extra.positions(), vec![0]);
    assert_eq!(extra.capacity(), 3);
}

#[test]
fn dependency_on_itself_a_builtin_or_a_selected_package_adds_nothing() {
    let a = package("a.jar", &[("a", &[])]);
    let b = package("b.jar", &[("b", &["a", "minecraft", "inner"]), ("inner", &[])]);
    let mods = vec![&a, &b];
    let builtin = texts(&["minecraft", "neoforge"]);
    let extra = b.get_extra_dependencies(&mods, &chosen(2, &[0]), &builtin).unwrap();
    assert_eq!(extra.len(), 0);
}

#[test]
fn builtin_id_is_never_looked_up() {
    let a = package("a.jar", &[("minecraft", &[])]);
    let b = package("b.jar", &[("b", &["minecraft"])]);
    let mods = vec![&a, &b];
    let builtin = texts(&["minecraft"]);
    let extra = b.get_extra_dependencies(&mods, &Selection::new(2), &builtin).unwrap();
    assert_eq!(extra.len(), 0);
    let without = b.get_extra_dependencies(&mods, &Selection::new(2), &Vec::new()).unwrap();
    assert_eq!(without.positions(), vec![0]);
}

#[test]
fn dependency_that_nothing_provides_is_reported() {
    let a = package("a.jar", &[("a", &["present", "lost", "gone"])]);
    let b = package("b.jar", &[("present", &[])]);
    let mods = vec![&a, &b];
    match a.get_extra_dependencies(&mods, &Selection::new(2), &Vec::new()) {
        Err(BisectError::MissingDependency(id)) => assert_eq!(id, "lost"),
        other => panic!("unexpected: {other:?}"),
    }
}

#[test]
fn duplicate_requirements_add_their_provider_once() {
    let a = package("a.jar", &[("a", &["b", "b"]), ("a2", &["b"])]);
    let b = package("b.jar", &[("b", &[])]);
    let mods = vec![&a, &b];
    let extra = a.get_extra_dependencies(&mods, &Selection::new(2), &Vec::new()).unwrap();
    assert_eq!(extra.positions(), vec![1]);
}

#[test]
fn package_need_not_be_among_the_candidates() {
    let outsider = package("outsider.jar", &[("o", &["a"])]);
    let a = package("a.jar", &[("a", &[])]);
    let mods = vec![&a];
    let extra = outsider.get_extra_dependencies(&mods, &Selection::new(1), &Vec::new()).unwrap();
    assert_eq!(extra.positions(), vec![0]);
}

#[test]
fn selected_provider_takes_precedence_over_an_earlier_one() {
    let first = package("first.jar", &[("lib", &[])]);
    let second = package("second.jar", &[("lib", &[])]);
    let user = package("user.jar", &[("user", &["lib"])]);
    let mods = vec![&first, &second, &user];
    let with_second = user.get_extra_dependencies(&mods, &chosen(3, &[1, 2]), &Vec::new());
    assert_eq!(with_second.unwrap().len(), 0);
    let alone = user.get_extra_dependencies(&mods, &chosen(3, &[2]), &Vec::new());
    assert_eq!(alone.unwrap().positions(), vec![0]);
}

#[test]
fn one_pass_collects_what_every_selected_package_asks_for() {
    let a = package("a.jar", &[("a", &["c"])]);
    let b = package("b.jar", &[("b", &["d"])]);
    let c = package("c.jar", &[("c", &["e"])]);
    let d = package("d.jar", &[("d", &[])]);
    let e = package("e.jar", &[("e", &[])]);
    let mods = vec![&a, &b, &c, &d, &e];
    let added = resolve_selected(&mods, &chosen(5, &[0, 1]), &Vec::new()).unwrap();
    assert_eq!(added.positions(), vec![2, 3]);
}

#[test]
fn closure_follows_chains_of_dependencies() {
    let a = package("a.jar", &[("a", &["b"])]);
    let b = package("b.jar", &[("b", &["c"])]);
    let c = package("c.jar", &[("c", &["d"])]);
    let d = package("d.jar", &[("d", &[])]);
    let e = package("e.jar", &[("e", &[])]);
    let mods = vec![&e, &d, &c, &b, &a];
    let closed = close_dependencies(&mods, chosen(5, &[4]), &Vec::new()).unwrap();
    assert_eq!(closed.positions(), vec![1, 2, 3, 4]);
}

#[test]
fn closure_of_a_complete_selection_is_the_selection() {
    let a = package("a.jar", &[("a", &["b"])]);
    let b = package("b.jar", &[("b", &["a"])]);
    let c = package("c.jar", &[("c", &[])]);
    let mods = vec![&a, &b, &c];
    let closed = close_dependencies(&mods, chosen(3, &[0, 1]), &Vec::new()).unwrap();
    assert_eq!(closed.positions(), vec![0, 1]);
    let empty = close_dependencies(&mods, Selection::new(3), &Vec::new()).unwrap();
    assert_eq!(empty.len(), 0);
}

#[test]
fn closure_fails_on_a_dependency_of_an_added_package() {
    let a = package("a.jar", &[("a", &["b"])]);
    let b = package("b.jar", &[("b", &["nowhere"])]);
    let mods = vec![&a, &b];
    match close_dependencies(&mods, chosen(2, &[0]), &Vec::new()) {
        Err(BisectError::MissingDependency(id)) => assert_eq!(id, "nowhere"),
        other => panic!("unexpected: {other:?}"),
    }
}

#[test]
fn closure_reports_the_first_selected_package_that_fails() {
    let a = package("a.jar", &[("a", &["lost_by_a"])]);
    let b = package("b.jar", &[("b", &["lost_by_b"])]);
    let mods = vec![&b, &a];
    match close_dependencies(&mods, chosen(2, &[0, 1]), &Vec::new()) {
        Err(BisectError::MissingDependency(id)) => assert_eq!(id, "lost_by_b"),
        other => panic!("unexpected: {other:?}"),
    }
}
