//! Round-trip fixture whose statement groups the spacing policy must keep stable.

#[test]
fn fixture_mutation_rounds() {
    let mut a = Vec::new();
    let mut b = Vec::new();
    a.push((
        "first fixture",
        "a multiline fixture value long enough to retain the setup layout after rustfmt",
    ));
    b.push((
        "second fixture",
        "another multiline fixture value long enough to retain the setup layout after rustfmt",
    ));
    let mut enabled = true;
    assert!(enabled && a.len() == b.len());

    enabled = false;
    assert!(!enabled && a.len() == b.len());

    enabled = true;
    b.clear();
    b.push(("replacement", "value"));
    assert!(enabled && a.len() == b.len());

    a.clear();
    assert!(a.is_empty());

    b.clear();

    assert!(a.is_empty());
}
