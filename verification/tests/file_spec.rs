use poet::class_name::StructName;
use poet::code_block::{Argument, CodeBlock};
use poet::file_spec::FileSpecBuilder;
use poet::line_wrapper::LayoutFault;
use poet::member_name::MemberName;
use poet::sorting::{comes_first, insert_name, sort_names};

fn type_ref(package: &str, name: &str) -> Argument {
    Argument::Type(StructName { package_name: String::from(package), simple_name: String::from(name) })
}

fn member(package: &str, enclosing: Option<&str>, name: &str) -> Argument {
    Argument::Member(MemberName {
        package_name: String::from(package),
        enclosing_class_name: enclosing.map(|e| StructName {
            package_name: String::from(package),
            simple_name: String::from(e),
        }),
        simple_name: String::from(name),
        operator: None,
    })
}

fn names(list: &[&str]) -> Vec<String> {
    list.iter().map(|s| String::from(*s)).collect()
}

#[test]
fn file_with_imports_in_order() {
    let mut builder = FileSpecBuilder::new("com.phodal", "HelloWorld");
    let file = builder.build();
    let body = CodeBlock::of(
        "val a: %T = %M(%T, %T, %T, %T)\n",
        vec![
            type_ref("org.zeta", "Zed"),
            member("org.alpha", Some("Tools"), "make"),
            type_ref("com.phodal", "Local"),
            type_ref("", "Int"),
            type_ref("org.other", "Zed"),
            type_ref("org.alpha", "Able"),
        ],
    )
    .unwrap();
    let text = file.try_render_with(&body).unwrap();
    assert_eq!(
        "package com.phodal\n\
         \n\
         import org.alpha.Able\n\
         import org.alpha.Tools.make\n\
         import org.zeta.Zed\n\
         \n\
         val a: Zed = make(Local, Int, org.other.Zed, Able)\n",
        text
    );
    assert_eq!(Ok(text), file.try_render_with(&body));
}

#[test]
fn file_without_imports() {
    let mut builder = FileSpecBuilder::new("com.phodal", "HelloWorld");
    let file = builder.build();
    let body = CodeBlock::of("fun main() {\n⇥%L()\n⇤}\n", vec![Argument::Literal(String::from("run"))]).unwrap();
    assert_eq!(
        Ok(String::from("package com.phodal\n\nfun main() {\n    run()\n}\n")),
        file.try_render_with(&body)
    );
    let empty = CodeBlock::of("", vec![]).unwrap();
    assert_eq!(Ok(String::from("package com.phodal\n\n")), file.try_render_with(&empty));
}

#[test]
fn file_with_a_faulty_body() {
    let mut builder = FileSpecBuilder::new("com.phodal", "HelloWorld");
    let file = builder.build();
    let body = CodeBlock::of("a\n⇤b", vec![]).unwrap();
    assert_eq!(Err(LayoutFault::IndentUnderflow), file.try_render_with(&body));
}

#[test]
fn names_are_compared_by_characters() {
    assert!(comes_first("", ""));
    assert!(comes_first("", "a"));
    assert!(!comes_first("a", ""));
    assert!(comes_first("a", "a"));
    assert!(comes_first("a", "ab"));
    assert!(!comes_first("ab", "a"));
    assert!(comes_first("ab", "b"));
    assert!(!comes_first("b", "ab"));
    assert!(comes_first("Z", "a"));
    assert!(comes_first("z", "é"));
    assert!(!comes_first("é", "z"));
}

#[test]
fn names_are_sorted() {
    assert_eq!(names(&[]), sort_names(names(&[])));
    assert_eq!(names(&["a"]), sort_names(names(&["a"])));
    assert_eq!(
        names(&["", "a", "a", "a.b", "ab", "b", "c"]),
        sort_names(names(&["c", "a", "", "ab", "a.b", "b", "a"]))
    );
    let mut sorted = names(&["a", "c", "e"]);
    insert_name(&mut sorted, String::from("d"));
    insert_name(&mut sorted, String::from("a"));
    insert_name(&mut sorted, String::from("f"));
    insert_name(&mut sorted, String::from(""));
    assert_eq!(names(&["", "a", "a", "c", "d", "e", "f"]), sorted);
    let mut expected = names(&["q.W", "e.R", "t.Y", "u.I", "o.P", "a.S", "d.F"]);
    let got = sort_names(expected.clone());
    expected.sort();
    assert_eq!(expected, got);
}
