use markdown_it::typekey::{RuleMark, TypeKey};

#[test]
fn typekey_eq() {
    struct A;
    struct B;
    assert_eq!(
        TypeKey {
            id: std::any::TypeId::of::<A>(),
            name: "foo"
        },
        TypeKey {
            id: std::any::TypeId::of::<A>(),
            name: "bar"
        }
    );
    assert_ne!(
        TypeKey {
            id: std::any::TypeId::of::<A>(),
            name: "foo"
        },
        TypeKey {
            id: std::any::TypeId::of::<B>(),
            name: "foo"
        }
    );
}

#[test]
fn rule_marks_compare_by_name() {
    assert_eq!(RuleMark::named("a"), RuleMark::named("a"));
    assert_ne!(RuleMark::named("a"), RuleMark::named("b"));
}
