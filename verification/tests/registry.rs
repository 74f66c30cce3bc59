use type_manager::layout::Mode;
use type_manager::type_system::{Atomic, Struct, Type, TypeError, TypeList, TypeManager, Union};

// shortcut to create atomic types in tests
#[allow(unused)]
fn atom(repr: usize, align: usize) -> Type {
    Type::Atomic(Atomic::new(repr, align))
}

#[allow(unused)]
fn strc(members: TypeList) -> Type {
    Type::Struct(Struct::new(members))
}

#[allow(unused)]
fn uni(variants: TypeList) -> Type {
    Type::Union(Union::new(variants))
}

#[test]
fn test_add_atomics() {
    let mut manager = TypeManager::new();
    let name = format!("int");
    // check add ok
    assert!(manager.add(name.clone(), atom(4, 4)).is_ok());
    assert_eq!(manager.add(name, atom(4, 4)), Err(TypeError::TypeRedefinition));

    // check add 0 sized should crash
    assert_eq!(manager.add(format!("zero"), atom(0, 4)), Err(TypeError::NoZeroSizedType));

    // check add 0 aligned should crash
    assert_eq!(manager.add(format!("zero"), atom(4, 0)), Err(TypeError::NoZeroAlign));
}

#[test]
fn test_add_atomic_both_zero() {
    // the size check precedes the alignment check
    let mut manager = TypeManager::new();
    assert_eq!(manager.add(format!("zero"), atom(0, 0)), Err(TypeError::NoZeroSizedType));
}

#[test]
fn test_add_compound() {
    let mut manager = TypeManager::new();
    let _ = manager.add(format!("int"), atom(4, 4));
    let _ = manager.add(format!("char"), atom(2, 4));

    // check adding non existent type crashes
    assert_eq!(
        manager.add(format!("s"), strc(vec!["int".to_string(), "foo".to_string()])),
        Err(TypeError::TypeDoesNotExist(format!("foo")))
    );

    // check cannot add empty compund
    assert_eq!(manager.add("s".to_string(), uni(vec![])), Err(TypeError::EmptyCompoundType));

    assert_eq!(manager.add("s".to_string(), strc(vec![])), Err(TypeError::EmptyCompoundType));

    assert_eq!(manager.add("s".to_string(), strc(vec!["int".to_string()])), Ok(()));

    assert_eq!(
        manager.add(
            "u".to_string(),
            uni(vec!["s".to_string(), "s".to_string(), "int".to_string()])
        ),
        Ok(())
    );
}

#[test]
fn test_size_struct() {
    let mut manager = TypeManager::new();
    let int = "int".to_string();
    let my_char = "char".to_string();

    let _ = manager.add(int.clone(), atom(4, 4));
    let _ = manager.add(my_char.clone(), atom(1, 4));
    let _ = manager.add("s1".to_string(), strc(vec![int.clone(), my_char.clone()]));
    let _ = manager.add("s2".to_string(), strc(vec![my_char, int]));

    // check sizes
    let s1 = manager.get(&"s1".to_string()).unwrap();
    let s2 = manager.get(&"s2".to_string()).unwrap();

    // s1 it's well-sorted by default, so it has the same size for every packing
    assert_eq!(s1.size(&manager, Mode::Unpacked), 5);
    assert_eq!(s1.size(&manager, Mode::Optimized), 5);
    assert_eq!(s1.size(&manager, Mode::Packed), 5);

    // s2 will lose some space in its unpacked version, but with optimal sorting
    // becomes s1
    assert_eq!(s2.size(&manager, Mode::Unpacked), 8);
    assert_eq!(s2.size(&manager, Mode::Optimized), 5);
    assert_eq!(s2.size(&manager, Mode::Packed), 5);
}

#[test]
fn test_size_and_align_union() {
    let mut manager = TypeManager::new();
    let int = "int".to_string();
    let my_char = "char".to_string();

    let _ = manager.add(int.clone(), atom(4, 4));
    let _ = manager.add(my_char.clone(), atom(1, 4));
    let _ = manager.add("s1".to_string(), strc(vec![int.clone(), my_char.clone()]));
    let _ = manager.add("s2".to_string(), strc(vec![my_char.clone(), int.clone()]));
    let _ = manager.add("u1".to_string(), uni(vec![int.clone(), int.clone()]));
    let _ = manager.add("u2".to_string(), uni(vec!["s2".to_string(), "s1".to_string()]));

    // check sizes
    let u1 = manager.get(&"u1".to_string()).unwrap();
    let u2 = manager.get(&"u2".to_string()).unwrap();

    // for every packing type
    assert_eq!(u1.align(&manager, Mode::Unpacked), 4);
    assert_eq!(u1.align(&manager, Mode::Packed), 4);
    assert_eq!(u1.align(&manager, Mode::Optimized), 4);

    // size for every packing type
    assert_eq!(u1.size(&manager, Mode::Unpacked), 4);
    assert_eq!(u1.size(&manager, Mode::Packed), 4);
    assert_eq!(u1.size(&manager, Mode::Optimized), 4);

    // now with a more complex union type
    assert_eq!(u2.align(&manager, Mode::Unpacked), 4);
    assert_eq!(u2.align(&manager, Mode::Packed), 4);
    assert_eq!(u2.align(&manager, Mode::Optimized), 4);

    assert_eq!(u2.size(&manager, Mode::Unpacked), 8); // 1 bytes for char + 3 bytes align + 4 bytes for int
    assert_eq!(u2.size(&manager, Mode::Packed), 5);
    assert_eq!(u2.size(&manager, Mode::Optimized), 5);
}

#[test]
fn test_single_variant_union_align() {
    // the pairwise lcm fold has no pair for a single variant: alignment 1
    let mut manager = TypeManager::new();
    let _ = manager.add("int".to_string(), atom(4, 4));
    let _ = manager.add("u".to_string(), uni(vec!["int".to_string()]));
    let u = manager.get(&"u".to_string()).unwrap();
    assert_eq!(u.align(&manager, Mode::Unpacked), 1);
    assert_eq!(u.align(&manager, Mode::Packed), 1);
    assert_eq!(u.align(&manager, Mode::Optimized), 1);
    assert_eq!(u.size(&manager, Mode::Unpacked), 4);
}

#[test]
fn test_union_loss() {
    let mut manager = TypeManager::new();
    let _ = manager.add("int".to_string(), atom(4, 4));
    let _ = manager.add("char".to_string(), atom(1, 4));
    let _ = manager.add("s1".to_string(), strc(vec!["int".to_string(), "char".to_string()]));
    let _ = manager.add("s2".to_string(), strc(vec!["char".to_string(), "int".to_string()]));
    let u2 = Union::new(vec!["s2".to_string(), "s1".to_string()]);
    // unpacked: size 8 from s2 alone, whose packed size is 5
    assert_eq!(u2.loss(&manager, Mode::Unpacked), 3);
    // packed and optimized: both variants tie at 5, packed best is 5
    assert_eq!(u2.loss(&manager, Mode::Packed), 0);
    assert_eq!(u2.loss(&manager, Mode::Optimized), 0);
}

#[test]
fn test_optimal_layout() {
    let mut manager = TypeManager::new();
    let _ = manager.add("int".to_string(), atom(4, 4));
    let _ = manager.add("char".to_string(), atom(1, 4));
    let s2 = Struct::new(vec!["char".to_string(), "int".to_string()]);
    let (layout, size) = s2.get_optimal_layout(&manager);
    assert_eq!(size, 5);
    assert_eq!(layout, vec!["int".to_string(), "char".to_string()]);
    // the optimized alignment comes from the winning ordering's first member
    assert_eq!(s2.optimized_align(&manager), 4);
    assert_eq!(s2.unpacked_align(&manager), 4);
}

#[test]
fn test_get() {
    let mut manager = TypeManager::new();
    assert!(manager.get(&"int".to_string()).is_none());
    let _ = manager.add("int".to_string(), atom(4, 2));
    match manager.get(&"int".to_string()) {
        Some(Type::Atomic(a)) => {
            assert_eq!(a.size(), 4);
            assert_eq!(a.align(), 2);
        },
        _ => panic!("expected the registered atomic"),
    }
}

#[test]
fn test_display_missing() {
    let manager = TypeManager::new();
    match manager.display(&"nope".to_string()) {
        Err(TypeError::TypeDoesNotExist(n)) => assert_eq!(n, "nope"),
        _ => panic!("expected TypeDoesNotExist"),
    }
}

#[test]
fn test_display_atomic() {
    let mut manager = TypeManager::new();
    let _ = manager.add("int".to_string(), atom(4, 4));
    let report = manager.display(&"int".to_string()).unwrap();
    assert_eq!(report, "Atomic:\n   * representation: 4\n   * alignment: 4\n");
}

#[test]
fn test_display_struct() {
    let mut manager = TypeManager::new();
    let _ = manager.add("int".to_string(), atom(4, 4));
    let _ = manager.add("char".to_string(), atom(1, 4));
    let _ = manager.add("s2".to_string(), strc(vec!["char".to_string(), "int".to_string()]));
    let report = manager.display(&"s2".to_string()).unwrap();
    let expected = "Struct:\n\
         \x20  * optimized:\n      + size: 5\n      + loss: 0\n\
         \x20  * unpacked:\n      + size: 8\n      + loss: 3\n\
         \x20  * packed:\n      + size: 5\n      + loss: 0\n";
    assert_eq!(report, expected);
}

#[test]
fn test_error_display() {
    assert_eq!(TypeError::TypeRedefinition.display(), "cannot redefine an existing type");
    assert_eq!(
        TypeError::TypeDoesNotExist("foo".to_string()).display(),
        "the symbol 'foo' does not exist"
    );
    assert_eq!(TypeError::EmptyCompoundType.display(), "empty compound types are not allowed");
    assert_eq!(TypeError::NoZeroSizedType.display(), "zero-sized types are not allowed");
    assert_eq!(TypeError::NoZeroAlign.display(), "zero alignment is not allowed");
}

#[test]
fn test_queries_idempotent() {
    // repeated queries against an unchanged registry give identical results
    let mut manager = TypeManager::new();
    let _ = manager.add("int".to_string(), atom(4, 4));
    let _ = manager.add("char".to_string(), atom(1, 4));
    let _ = manager.add("s2".to_string(), strc(vec!["char".to_string(), "int".to_string()]));
    let s2 = manager.get(&"s2".to_string()).unwrap();
    for mode in [Mode::Unpacked, Mode::Packed, Mode::Optimized] {
        assert_eq!(s2.size(&manager, mode), s2.size(&manager, mode));
        assert_eq!(s2.align(&manager, mode), s2.align(&manager, mode));
    }
    assert_eq!(
        manager.display(&"s2".to_string()).unwrap(),
        manager.display(&"s2".to_string()).unwrap()
    );
}

#[test]
fn test_registry_unchanged_on_failure() {
    let mut manager = TypeManager::new();
    let _ = manager.add("int".to_string(), atom(4, 4));
    // a failed registration leaves the registry untouched
    let _ = manager.add("s".to_string(), strc(vec!["missing".to_string()]));
    assert!(manager.get(&"s".to_string()).is_none());
    assert!(manager.get(&"int".to_string()).is_some());
    // and the caller may re-attempt with corrected input
    assert_eq!(manager.add("s".to_string(), strc(vec!["int".to_string()])), Ok(()));
    assert!(manager.get(&"s".to_string()).is_some());
}
