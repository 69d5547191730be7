use exzet::nfs::{join_name, listing_start, name_ok, parent, readdir_page, IdTable, ROOT_ID};

fn p(parts: &[&str]) -> Vec<Vec<u8>> {
    parts.iter().map(|s| s.as_bytes().to_vec()).collect()
}

#[test]
fn ids_are_stable_and_new_paths_get_the_next() {
    let root = p(&["/", "w"]);
    let mut t = IdTable::new(&root);
    assert_eq!(t.path_of(ROOT_ID), Some(root.clone()));
    assert_eq!(t.next(), 2);
    let a = p(&["/", "w", "a"]);
    let id = t.id_for(&a);
    assert_eq!(id, 2);
    assert_eq!(t.id_for(&a), 2);
    assert_eq!(t.id_for(&root), ROOT_ID);
    assert_eq!(t.path_of(2), Some(a.clone()));
    assert_eq!(t.next(), 3);
}

#[test]
fn forgotten_paths_lose_their_id() {
    let mut t = IdTable::new(&p(&["/", "w"]));
    let a = p(&["/", "w", "a"]);
    let id = t.id_for(&a);
    t.forget(&a);
    assert_eq!(t.path_of(id), None);
    assert_eq!(t.id_for(&a), 3);
}

#[test]
fn renames_keep_ids() {
    let mut t = IdTable::new(&p(&["/", "w"]));
    let d = t.id_for(&p(&["/", "w", "d"]));
    let f = t.id_for(&p(&["/", "w", "d", "f"]));
    let other = t.id_for(&p(&["/", "w", "dd"]));
    t.move_prefix(&p(&["/", "w", "d"]), &p(&["/", "w", "e"]));
    assert_eq!(t.path_of(d), Some(p(&["/", "w", "e"])));
    assert_eq!(t.path_of(f), Some(p(&["/", "w", "e", "f"])));
    assert_eq!(t.path_of(other), Some(p(&["/", "w", "dd"])));
    assert_eq!(t.id_for(&p(&["/", "w", "e", "f"])), f);
}

#[test]
fn names_a_client_may_use() {
    assert!(name_ok(b"file.txt"));
    assert!(name_ok(b"."));
    assert!(!name_ok(b""));
    assert!(!name_ok(b".."));
    assert!(!name_ok(b"a/b"));
}

#[test]
fn joining_and_parents() {
    let d = p(&["/", "w"]);
    assert_eq!(join_name(&d, b"x"), p(&["/", "w", "x"]));
    assert_eq!(join_name(&d, b"."), d);
    assert_eq!(parent(&d, &d), d);
    assert_eq!(parent(&p(&["/", "w", "x"]), &d), d);
    assert_eq!(parent(&p(&["/"]), &d), d);
}

#[test]
fn listings_resume_after_the_last_name() {
    let names = p(&["a", "b", "d"]);
    assert_eq!(listing_start(&names, None), 0);
    assert_eq!(listing_start(&names, Some(b"b")), 2);
    assert_eq!(listing_start(&names, Some(b"c")), 2);
    assert_eq!(listing_start(&names, Some(b"z")), 3);
}

#[test]
fn directory_pages() {
    let ok = [true, false, true, true, true];
    assert_eq!(readdir_page(&ok, 0, 10), (vec![0, 2, 3, 4], true));
    assert_eq!(readdir_page(&ok, 0, 2), (vec![0, 2], false));
    assert_eq!(readdir_page(&ok, 1, 3), (vec![2, 3, 4], true));
    assert_eq!(readdir_page(&ok, 5, 0), (vec![], true));
    assert_eq!(readdir_page(&ok, 4, 0), (vec![], false));
    assert_eq!(readdir_page(&[false, false], 0, 1), (vec![], true));
}
