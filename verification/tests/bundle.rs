use launch::bundle::{unique_entries, ZipEntry};

#[test]
fn first_entry_of_a_path_wins() {
    let es = vec![
        ZipEntry { path: "a.png".to_string(), data: vec![1] },
        ZipEntry { path: "b.png".to_string(), data: vec![2] },
        ZipEntry { path: "a.png".to_string(), data: vec![3] },
    ];
    let u = unique_entries(es);
    assert_eq!(u.len(), 2);
    assert_eq!(u[0].path, "a.png");
    assert_eq!(u[0].data, vec![1]);
    assert_eq!(u[1].path, "b.png");
}
