use poet::class_name::StructName;
use poet::code_block::{Argument, CodeBlock, FormatError};
use poet::code_writer::{render, try_render, CodeWriter};
use poet::file_spec::FileSpecBuilder;
use poet::line_wrapper::LayoutFault;
use poet::member_name::MemberName;
use poet::modifier::{Modifier, PublicModifier, Target};
use poet::operator::Operator;
use poet::DEFAULT_INDENT;

fn literal(s: &str) -> Argument {
    Argument::Literal(String::from(s))
}

fn type_ref(package: &str, name: &str) -> Argument {
    Argument::Type(StructName { package_name: String::from(package), simple_name: String::from(name) })
}

fn member(package: &str, enclosing: Option<&str>, name: &str) -> Argument {
    Argument::Member(MemberName {
        package_name: String::from(package),
        enclosing_class_name: enclosing.map(|e| StructName {
            package_name: String::from(package),
            simple_name: String::from(e),
        }),
        simple_name: String::from(name),
        operator: None,
    })
}

fn text_of(format: &str, args: Vec<Argument>) -> String {
    render(&CodeBlock::of(format, args).unwrap(), "  ")
}

#[test]
fn init() {
    let mut out = "hello".to_string();
    let mut writer = CodeWriter::new(&mut out, DEFAULT_INDENT);
    writer.out.append(String::from(" zero"), None, None);
    writer.out.close();
    assert_eq!("hello zero", out);
}

#[test]
fn should_call_builder() {
    let mut builder = FileSpecBuilder::new("com.phodal", "HelloWorld");
    let spec = builder.build();
    println!("{:?}", spec);
    assert_eq!("com.phodal", spec.package_name);
}

#[test]
fn modifier_should_enum() {
    let public = Modifier::PUBLIC;
    println!("{:?}", public.value());
}

#[test]
fn operator_should_enum() {
    let operator = Operator::NOT_EQUALS;
    println!("{:?}", operator.value());
}

#[test]
fn operator_values() {
    assert_eq!("!=", Operator::NOT_EQUALS.value().operator);
    assert_eq!("equals", Operator::NOT_EQUALS.value().function_name);
    assert_eq!("+", Operator::UNARY_PLUS.value().operator);
    assert_eq!("unaryPlus", Operator::UNARY_PLUS.value().function_name);
    assert_eq!("!in", Operator::NOT_CONTAINS.value().operator);
    assert_eq!("contains", Operator::NOT_CONTAINS.value().function_name);
    assert_eq!("in", Operator::ITERATOR.value().operator);
    assert_eq!("iterator", Operator::ITERATOR.value().function_name);
    assert_eq!("%=", Operator::REM_ASSIGN.value().operator);
    assert_eq!("remAssign", Operator::REM_ASSIGN.value().function_name);
}

#[test]
fn modifier_values() {
    assert_eq!("", Modifier::PRIVATE.value().keyword);
    assert!(Modifier::PRIVATE.value().targets.is_empty());
    let public = PublicModifier::default();
    assert_eq!("public", public.modifier.keyword);
    assert_eq!(vec![Target::PROPERTY], public.modifier.targets);
}

#[test]
fn file_writes_its_package() {
    let mut builder = FileSpecBuilder::new("com.phodal", "HelloWorld");
    builder.add_file_comment(String::from("c"));
    builder.add_import();
    builder.add_type_alias();
    let spec = builder.build();
    assert_eq!("HelloWorld", spec.name);
    assert_eq!(DEFAULT_INDENT, spec.indent);
    let mut out = String::from("// head\n");
    spec.write_to(&mut out);
    assert_eq!("// head\npackage com.phodal\n", out);
    let mut again = String::from("// head\n");
    spec.write_to(&mut again);
    assert_eq!(out, again);
}

#[test]
fn emit_splits_lines_and_indents() {
    let mut out = String::new();
    let mut writer = CodeWriter::new(&mut out, "  ");
    writer.emit(String::from("a {\n"));
    writer.indent(1);
    writer.emit(String::from("b\n\nc\n"));
    writer.unindent(1);
    writer.emit_literal(String::from("}"));
    writer.close();
    assert_eq!("a {\n  b\n\n  c\n}", out);
}

#[test]
fn indent_markers_move_the_level() {
    assert_eq!("a {\n  b\n    c\n  d\n}\n", text_of("a {\n⇥b\n⇥c\n⇤d\n⇤}\n", vec![]));
}

#[test]
fn statement_continuation_lines_get_one_more_level() {
    assert_eq!("x =\n  1 +\n  2\ny\n", text_of("«x =\n1 +\n2»\ny\n", vec![]));
    assert_eq!("{\n  a =\n    b\n  c\n}", text_of("{\n⇥«a =\nb»\nc\n⇤}", vec![]));
    // a statement on one line leaves the level alone
    assert_eq!("a\nb\n", text_of("«a»\nb\n", vec![]));
}

#[test]
fn percent_escape_writes_a_percent() {
    assert_eq!("100%", text_of("100%%", vec![]));
    assert_eq!("%L", text_of("%%L", vec![]));
}

#[test]
fn quoted_and_raw_strings() {
    assert_eq!("\"This is \\\"quoted\\\"!\"", text_of("%S", vec![literal("This is \"quoted\"!")]));
    assert_eq!("\"${'$'}x\" \"$x\"", text_of("%S %P", vec![literal("$x"), literal("$x")]));
    assert_eq!("\"a\\n\"\n    + \"b\"", text_of("%S", vec![literal("a\nb")]));
}

#[test]
fn names_and_literals() {
    assert_eq!("foo bar", text_of("%N %L", vec![Argument::Name(String::from("foo")), Argument::Name(String::from("bar"))]));
    assert_eq!("Taco eat", text_of("%N %N", vec![type_ref("com.example", "Taco"), member("com.example", Some("Taco"), "eat")]));
    // a name directive resolves a type or a member as the reference directives do
    assert_eq!("X b.X X", text_of("%N %T %N", vec![type_ref("a", "X"), type_ref("b", "X"), type_ref("a", "X")]));
    assert_eq!("f b.f", text_of("%N %N", vec![member("a", None, "f"), member("b", None, "f")]));
}

#[test]
fn first_type_takes_the_simple_name() {
    assert_eq!(
        "Taco Taco org.other.Taco Taco Burrito",
        text_of(
            "%T %T %T %T %T",
            vec![
                type_ref("com.example", "Taco"),
                type_ref("com.example", "Taco"),
                type_ref("org.other", "Taco"),
                type_ref("com.example", "Taco"),
                type_ref("org.other", "Burrito"),
            ]
        )
    );
    assert_eq!("Taco x.Taco", text_of("%T %T", vec![type_ref("", "Taco"), type_ref("x", "Taco")]));
    // the type that is written first takes the name, whatever its position
    assert_eq!("Taco Taco", text_of("%2T %1T", vec![type_ref("", "Taco"), type_ref("x", "Taco")]));
    assert_eq!("Taco y.Taco", text_of("%2T %1T", vec![type_ref("y", "Taco"), type_ref("x", "Taco")]));
}

#[test]
fn first_member_takes_the_simple_name() {
    assert_eq!(
        "eat eat a.Taco.eat b.eat eat",
        text_of(
            "%M %M %M %M %L",
            vec![
                member("a", None, "eat"),
                member("a", None, "eat"),
                member("a", Some("Taco"), "eat"),
                member("b", None, "eat"),
                member("a", None, "eat"),
            ]
        )
    );
}

#[test]
fn writer_collects_what_it_meets() {
    let block = CodeBlock::of(
        "%T %T %M %S",
        vec![
            type_ref("a", "X"),
            type_ref("b", "X"),
            member("a", None, "f"),
            type_ref("c", "Y"),
        ],
    )
    .unwrap();
    let mut out = String::new();
    let mut writer = CodeWriter::new(&mut out, "  ");
    writer.push_package("a");
    writer.emit_block(&block);
    assert_eq!("a", writer.package_name);
    assert_eq!(1, writer.import_types.len());
    assert_eq!("a", writer.import_types[0].package_name);
    assert_eq!(1, writer.import_members.len());
    assert_eq!("f", writer.import_members[0].simple_name);
    writer.close();
    assert_eq!("X b.X f \"c.Y\"", out);
}

#[test]
fn emit_code_compiles_and_emits() {
    let mut out = String::new();
    let mut writer = CodeWriter::new(&mut out, "  ");
    assert_eq!(Ok(()), writer.emit_code("package·%L\n", vec![literal("com.phodal")]));
    assert_eq!(Err(FormatError::UnknownDirective), writer.emit_code("x%", vec![]));
    assert_eq!(Err(FormatError::MixedIndexing), writer.emit_code("%L%1L", vec![literal("a")]));
    writer.close();
    assert_eq!("package com.phodal\n", out);
}

#[test]
fn long_lines_wrap_at_the_column_limit() {
    let words = vec!["abcdefghi"; 12].join(" ");
    let text = text_of("⇥%L", vec![literal(&words)]);
    let lines: Vec<&str> = text.split('\n').collect();
    assert_eq!(2, lines.len());
    assert_eq!(vec!["abcdefghi"; 10].join(" "), lines[0]);
    assert_eq!(format!("      {}", vec!["abcdefghi"; 2].join(" ")), lines[1]);
}

#[test]
fn placeholder_without_its_argument_writes_nothing() {
    let mut block = CodeBlock::of("a%Lb", vec![literal("x")]).unwrap();
    block.args.clear();
    assert_eq!("ab", render(&block, "  "));
}

#[test]
fn unindent_below_zero_is_a_fault() {
    let block = CodeBlock::of("a\n⇤b\n", vec![]).unwrap();
    assert_eq!(Err(LayoutFault::IndentUnderflow), try_render(&block, "  "));
    let block = CodeBlock::of("⇥a\n⇤⇤", vec![]).unwrap();
    assert_eq!(Err(LayoutFault::IndentUnderflow), try_render(&block, "  "));
    let block = CodeBlock::of("⇤⇥a", vec![]).unwrap();
    assert_eq!(Err(LayoutFault::IndentUnderflow), try_render(&block, "  "));
    // a nested block that lowers the level below zero
    let inner = CodeBlock::of("⇤", vec![]).unwrap();
    let outer = CodeBlock::of("a%Lb", vec![Argument::Block(inner)]).unwrap();
    assert_eq!(Err(LayoutFault::IndentUnderflow), try_render(&outer, "  "));
    // the end of a statement takes back one level
    let block = CodeBlock::of("«a\n⇤b»", vec![]).unwrap();
    assert_eq!(Err(LayoutFault::IndentUnderflow), try_render(&block, "  "));
    let block = CodeBlock::of("⇥a\n⇤b", vec![]).unwrap();
    assert_eq!(Ok(String::from("a\nb")), try_render(&block, "  "));
}

#[test]
fn emitting_behind_close_is_a_fault() {
    let mut out = String::new();
    let mut writer = CodeWriter::new(&mut out, "  ");
    assert_eq!(Ok(()), writer.check());
    assert_eq!(Ok(()), writer.out.check_closed());
    assert_eq!(Ok(()), writer.try_emit(String::from("a")));
    writer.close();
    assert_eq!(Err(LayoutFault::AppendAfterClose), writer.out.check_closed());
    assert_eq!(Err(LayoutFault::AppendAfterClose), writer.check());
    assert_eq!(Err(LayoutFault::AppendAfterClose), writer.try_emit(String::from("b")));
    let block = CodeBlock::of("c", vec![]).unwrap();
    assert_eq!(Err(LayoutFault::AppendAfterClose), writer.try_emit_block(&block));
    assert_eq!("a", out);
}

#[test]
fn counters_at_the_end_of_their_range_are_a_fault() {
    let mut out = String::new();
    let mut writer = CodeWriter::new(&mut out, "");
    writer.indent_level = i32::MAX - 3;
    assert_eq!(Ok(()), writer.check());
    let block = CodeBlock::of("⇥", vec![]).unwrap();
    assert_eq!(Err(LayoutFault::CounterOverflow), writer.try_emit_block(&block));
    writer.indent_level = 0;
    writer.statement_line = i32::MAX;
    assert_eq!(Err(LayoutFault::CounterOverflow), writer.check());
    writer.indent_level = -1;
    writer.statement_line = -1;
    assert_eq!(Err(LayoutFault::IndentUnderflow), writer.check());
}

#[test]
fn what_a_writer_adds_does_not_depend_on_the_sink() {
    let block = CodeBlock::of(
        "«val %N = %S +\n%T.%M()»\n⇥x\n⇤",
        vec![
            Argument::Name(String::from("x")),
            literal("a b"),
            type_ref("com.example", "Taco"),
            member("com.example", None, "eat"),
        ],
    )
    .unwrap();
    let alone = render(&block, "  ");
    for head in ["", "// head\n", "no newline at the end", "   "] {
        let mut out = String::from(head);
        let mut writer = CodeWriter::new(&mut out, "  ");
        writer.emit_block(&block);
        writer.close();
        assert_eq!(format!("{}{}", head, alone), out);
    }
    assert_eq!(alone, render(&block, "  "));
    assert_eq!(Ok(alone), try_render(&block, "  "));
}
