use solflow::meetings::{delete_project, new_project, rename_project, Project};

fn p(id: &str, name: &str) -> Project {
    Project { id: id.to_string(), name: name.to_string() }
}

fn names(list: &[Project]) -> Vec<(String, String)> {
    list.iter().map(|x| (x.id.clone(), x.name.clone())).collect()
}

#[test]
fn a_project_takes_its_moment_and_a_trimmed_name() {
    let made = new_project("  Клиенты  ", 1700000000123).unwrap();
    assert_eq!(made.id, "1700000000123");
    assert_eq!(made.name, "Клиенты");
    assert!(new_project("   ", 5).is_none());
}

#[test]
fn rename_changes_only_the_first_of_that_id() {
    let mut list = vec![p("1", "a"), p("2", "b"), p("2", "c")];
    assert!(rename_project(&mut list, "2", " new "));
    assert_eq!(names(&list), vec![("1".into(), "a".into()), ("2".into(), "new".into()), ("2".into(), "c".into())]);
    assert!(!rename_project(&mut list, "2", "  "));
    assert!(!rename_project(&mut list, "9", "x"));
    assert_eq!(list.len(), 3);
}

#[test]
fn delete_removes_every_project_of_that_id() {
    let mut list = vec![p("1", "a"), p("2", "b"), p("3", "c"), p("2", "d")];
    delete_project(&mut list, "2");
    assert_eq!(names(&list), vec![("1".into(), "a".into()), ("3".into(), "c".into())]);
    delete_project(&mut list, "9");
    assert_eq!(list.len(), 2);
}
