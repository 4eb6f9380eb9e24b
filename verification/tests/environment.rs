use interpreter_starter_rust::environment::{Environment, Environments};

fn k(s: &str) -> Vec<char> {
    s.chars().collect()
}

#[test]
fn empty() {
    let mut envs = Environments::<u32>::new();
    let sut = Environment::new(&mut envs);
    assert_eq!(None, sut.get(&envs, &k("foo")));
}

#[test]
fn define_and_get() {
    let mut envs = Environments::new();
    let sut = Environment::new(&mut envs);
    sut.define(&mut envs, k("foo"), 42);
    assert_eq!(Some(42), sut.get(&envs, &k("foo")));
}

#[test]
fn define_and_get_in_enclosed_1() {
    let mut envs = Environments::<u32>::new();
    let sut = Environment::new(&mut envs);
    sut.define(&mut envs, k("foo"), 42);
    let enclosing = sut.enclose(&mut envs);
    enclosing.define(&mut envs, k("foo"), 84);
    assert_eq!(Some(84), enclosing.get(&envs, &k("foo")));
    assert_eq!(Some(42), sut.get(&envs, &k("foo")));
}

#[test]
fn define_and_get_in_enclosed_2() {
    let mut envs = Environments::<u32>::new();
    let sut = Environment::new(&mut envs);
    sut.define(&mut envs, k("foo"), 42);
    let enclosing = sut.enclose(&mut envs);
    enclosing.define(&mut envs, k("bar"), 84);
    assert_eq!(Some(84), enclosing.get(&envs, &k("bar")));
    assert_eq!(None, sut.get(&envs, &k("bar")));
}

#[test]
fn define_and_get_in_enclosed_3() {
    let mut envs = Environments::<u32>::new();
    let sut = Environment::new(&mut envs);
    sut.define(&mut envs, k("foo"), 42);
    let enclosing = sut.enclose(&mut envs);
    assert_eq!(Some(42), enclosing.get(&envs, &k("foo")));
    assert_eq!(Some(42), sut.get(&envs, &k("foo")));
}

#[test]
fn define_and_get_in_enclosed_4() {
    let mut envs = Environments::<u32>::new();
    let sut = Environment::new(&mut envs);
    sut.define(&mut envs, k("foo"), 42);
    let enclosing_1 = sut.enclose(&mut envs);
    enclosing_1.define(&mut envs, k("foo"), 84);
    let enclosing_2 = enclosing_1.enclose(&mut envs);
    enclosing_2.define(&mut envs, k("foo"), 168);
    assert_eq!(Some(42), sut.get(&envs, &k("foo")));
    assert_eq!(Some(84), enclosing_1.get(&envs, &k("foo")));
    assert_eq!(Some(168), enclosing_2.get(&envs, &k("foo")));
}

#[test]
fn get_at_1() {
    let mut envs = Environments::<u32>::new();
    let sut = Environment::new(&mut envs);
    sut.define(&mut envs, k("foo"), 42);
    let enclosing_1 = sut.enclose(&mut envs);
    enclosing_1.define(&mut envs, k("foo"), 84);
    assert_eq!(Some(42), enclosing_1.get_at(&envs, &k("foo"), 1));
    assert_eq!(Some(84), enclosing_1.get_at(&envs, &k("foo"), 0));
}

#[test]
fn get_at_2() {
    let mut envs = Environments::<u32>::new();
    let sut = Environment::new(&mut envs);
    sut.define(&mut envs, k("foo"), 42);
    let enclosing_1 = sut.enclose(&mut envs);
    let enclosing_2 = enclosing_1.enclose(&mut envs);
    let enclosing_3 = enclosing_2.enclose(&mut envs);
    enclosing_3.define(&mut envs, k("foo"), 84);
    assert_eq!(Some(42), enclosing_3.get_at(&envs, &k("foo"), 3));
    assert_eq!(None, enclosing_3.get_at(&envs, &k("foo"), 2));
    assert_eq!(None, enclosing_3.get_at(&envs, &k("foo"), 1));
    assert_eq!(Some(84), enclosing_3.get_at(&envs, &k("foo"), 0));
}

#[test]
fn assign_updates_visible_definition() {
    let mut envs = Environments::<u32>::new();
    let outer = Environment::new(&mut envs);
    outer.define(&mut envs, k("foo"), 1);
    let inner = outer.enclose(&mut envs);
    assert_eq!(Ok(()), inner.assign(&mut envs, &k("foo"), 2));
    assert_eq!(Some(2), outer.get(&envs, &k("foo")));
    assert_eq!(Some(2), inner.get(&envs, &k("foo")));
    assert_eq!(Err(()), inner.assign(&mut envs, &k("bar"), 3));
    assert_eq!(None, inner.get(&envs, &k("bar")));
}

#[test]
fn redefine_replaces_value() {
    let mut envs = Environments::<u32>::new();
    let sut = Environment::new(&mut envs);
    sut.define(&mut envs, k("foo"), 1);
    sut.define(&mut envs, k("foo"), 2);
    assert_eq!(Some(2), sut.get(&envs, &k("foo")));
    assert_eq!(Ok(()), sut.assign(&mut envs, &k("foo"), 3));
    assert_eq!(Some(3), sut.get_at(&envs, &k("foo"), 0));
}
