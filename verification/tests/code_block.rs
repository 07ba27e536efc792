use poet::class_name::StructName;
use poet::code_block::{Argument, CodeBlock, CodeBlockBuilder, Directive, FormatError, FormatPart};
use poet::member_name::MemberName;

fn literal(s: &str) -> Argument {
    Argument::Literal(String::from(s))
}

fn error_of(format: &str, args: Vec<Argument>) -> FormatError {
    match CodeBlock::of(format, args) {
        Ok(block) => panic!("compiled to {:?}", block),
        Err(e) => e,
    }
}

fn strict_error_of(format: &str, args: Vec<Argument>) -> Option<FormatError> {
    let mut builder = CodeBlockBuilder::new();
    builder.add_strict(format, args).err()
}

fn shape(block: &CodeBlock) -> Vec<String> {
    block
        .format_parts
        .iter()
        .map(|part| match part {
            FormatPart::Text(text) => format!("text:{}", text),
            FormatPart::Placeholder { directive, index } => format!("{:?}:{:?}", directive, index),
        })
        .collect()
}

#[test]
fn of() {
    let code_block = CodeBlock::of("%L taco", vec![literal("delicious")]).unwrap();
    assert_eq!("delicious taco", code_block.to_string());
}

#[test]
fn percent_escape_cannot_be_indexed() {
    let mut builder = CodeBlockBuilder::new();
    let result = builder.add("%1%", vec![literal("taco")]);
    assert_eq!(Err(FormatError::PercentEscapeHasIndex), result);
    assert!(builder.format_parts.is_empty());
    assert!(builder.args.is_empty());
}

#[test]
fn name_format_can_be_indexed() {
    let mut builder = CodeBlockBuilder::new();
    builder.add("%1L", vec![literal("taco")]).unwrap();
    let block = builder.build();
    assert_eq!("taco", block.to_string());
}

#[test]
fn indexed_literal_with_text() {
    let block = CodeBlock::of("%1L taco", vec![literal("delicious")]).unwrap();
    assert_eq!("delicious taco", block.to_string());
}

#[test]
fn out_of_range_positional_index() {
    assert_eq!(FormatError::IndexOutOfRange, error_of("%5L", vec![literal("only-one-arg")]));
    assert_eq!(FormatError::IndexOutOfRange, error_of("%2L", vec![literal("a")]));
    assert_eq!(FormatError::IndexOutOfRange, error_of("%0L", vec![literal("a")]));
    assert_eq!(FormatError::IndexOutOfRange, error_of("%1L", vec![]));
    assert_eq!(
        FormatError::IndexOutOfRange,
        error_of("%99999999999999999999999999999999L", vec![literal("a")])
    );
}

#[test]
fn too_few_relative_arguments() {
    assert_eq!(FormatError::IndexOutOfRange, error_of("%L %L", vec![literal("a")]));
    assert_eq!(FormatError::IndexOutOfRange, error_of("%L", vec![]));
}

#[test]
fn mixed_indexing_is_refused() {
    assert_eq!(FormatError::MixedIndexing, error_of("%1L %L", vec![literal("a"), literal("b")]));
    assert_eq!(FormatError::MixedIndexing, error_of("%L %1L", vec![literal("a"), literal("b")]));
    assert_eq!(FormatError::MixedIndexing, error_of("%N%%%2T", vec![literal("a"), literal("b")]));
    // mixing comes before the range of an index
    assert_eq!(FormatError::MixedIndexing, error_of("%5L %L", vec![literal("a")]));
    // and before a token that is no directive
    assert_eq!(FormatError::MixedIndexing, error_of("%1L %L %Q", vec![literal("a")]));
    assert_eq!(FormatError::MixedIndexing, error_of("%1% %L %1L", vec![literal("a")]));
    // a token that is no directive takes no part in the mixing
    assert_eq!(FormatError::UnknownDirective, error_of("%1Q %L", vec![literal("a")]));
    assert_eq!(FormatError::PercentEscapeHasIndex, error_of("%1% %L", vec![literal("a")]));
    assert_eq!(FormatError::UnknownDirective, error_of("%Q %1%", vec![]));
    assert_eq!(FormatError::PercentEscapeHasIndex, error_of("%1% %Q", vec![]));
}

#[test]
fn unknown_directives() {
    assert_eq!(FormatError::UnknownDirective, error_of("%Q", vec![literal("a")]));
    assert_eq!(FormatError::UnknownDirective, error_of("%l", vec![literal("a")]));
    assert_eq!(FormatError::UnknownDirective, error_of("abc%", vec![]));
    assert_eq!(FormatError::UnknownDirective, error_of("abc%12", vec![literal("a")]));
    assert_eq!(FormatError::UnknownDirective, error_of("% L", vec![literal("a")]));
    assert_eq!(FormatError::UnknownDirective, error_of("%⇥", vec![]));
}

#[test]
fn percent_escape_with_index_is_refused() {
    assert_eq!(FormatError::PercentEscapeHasIndex, error_of("%1%", vec![literal("taco")]));
    assert_eq!(FormatError::PercentEscapeHasIndex, error_of("a %20% b", vec![]));
}

#[test]
fn unused_argument_in_strict_compilation() {
    assert_eq!(
        Some(FormatError::UnusedArgument),
        strict_error_of("%1L", vec![literal("a"), literal("b")])
    );
    assert_eq!(
        Some(FormatError::UnusedArgument),
        strict_error_of("%2L %2L", vec![literal("a"), literal("b")])
    );
    assert_eq!(Some(FormatError::UnusedArgument), strict_error_of("%L", vec![literal("a"), literal("b")]));
    assert_eq!(Some(FormatError::UnusedArgument), strict_error_of("text", vec![literal("a")]));
    assert_eq!(None, strict_error_of("%2L %1L", vec![literal("a"), literal("b")]));
    assert_eq!(None, strict_error_of("%L %L", vec![literal("a"), literal("b")]));
    assert_eq!(None, strict_error_of("text", vec![]));
    // without the strict check an unused argument is accepted
    let block = CodeBlock::of("%1L", vec![literal("a"), literal("b")]).unwrap();
    assert_eq!(2, block.args.len());
    assert_eq!("a", block.to_string());
}

#[test]
fn parts_of_a_format() {
    let block = CodeBlock::of(
        "a%%b «%L⇥%2N⇤»\n%S%P%T%M",
        vec![],
    );
    assert_eq!(Err(FormatError::MixedIndexing), block.map(|b| shape(&b)));
    let block = CodeBlock::of(
        "a%%b «%L⇥%N⇤»\n%S%P",
        vec![literal("1"), literal("2"), literal("3"), literal("4")],
    )
    .unwrap();
    assert_eq!(
        vec![
            "text:a",
            "PercentEscape:None",
            "text:b ",
            "StatementBegin:None",
            "Literal:Some(0)",
            "IndentIncrease:None",
            "Name:Some(1)",
            "IndentDecrease:None",
            "StatementEnd:None",
            "text:\n",
            "QuotedString:Some(2)",
            "RawString:Some(3)",
        ],
        shape(&block)
    );
    let block = CodeBlock::of("%2T%1M%2L", vec![literal("1"), literal("2")]).unwrap();
    assert_eq!(vec!["TypeRef:Some(1)", "MemberRef:Some(0)", "Literal:Some(1)"], shape(&block));
    let block = CodeBlock::of("%010L", vec![
        literal("1"), literal("2"), literal("3"), literal("4"), literal("5"),
        literal("6"), literal("7"), literal("8"), literal("9"), literal("10"),
    ]).unwrap();
    assert_eq!(vec!["Literal:Some(9)"], shape(&block));
    assert_eq!("10", block.to_string());
    let empty = CodeBlock::of("", vec![]).unwrap();
    assert!(empty.format_parts.is_empty());
    assert_eq!("", empty.to_string());
}

#[test]
fn later_formats_refer_to_their_own_arguments() {
    let mut builder = CodeBlockBuilder::new();
    builder.add("%L + ", vec![literal("a")]).unwrap();
    builder.add("%2L%1L", vec![literal("b"), literal("c")]).unwrap();
    assert_eq!(Err(FormatError::IndexOutOfRange), builder.add("%3L", vec![literal("d")]));
    let block = builder.build();
    assert_eq!(
        vec!["Literal:Some(0)", "text: + ", "Literal:Some(2)", "Literal:Some(1)"],
        shape(&block)
    );
    assert_eq!(3, block.args.len());
    assert_eq!("a + cb", block.to_string());
}

#[test]
fn a_failed_add_leaves_the_builder_as_it_was() {
    let mut builder = CodeBlockBuilder::new();
    builder.add("x%L", vec![literal("a")]).unwrap();
    for format in ["y%Q", "%1%", "%1L%L", "%9L", "%L%L%L"] {
        assert!(builder.add(format, vec![literal("b"), literal("c")]).is_err());
        assert_eq!(vec!["text:x", "Literal:Some(0)"], shape(&builder.build()));
        assert_eq!(1, builder.args.len());
    }
}

#[test]
fn nested_blocks_are_rendered_in_place() {
    let inner = CodeBlock::of("[%L]", vec![literal("in")]).unwrap();
    let outer = CodeBlock::of("<%L|%L>", vec![Argument::Block(inner), literal("out")]).unwrap();
    assert_eq!("<[in]|out>", outer.to_string());
    let copy = outer.clone();
    assert_eq!("<[in]|out>", copy.to_string());
    assert_eq!(shape(&outer), shape(&copy));
}

#[test]
fn rendering_twice_gives_the_same_text() {
    let block = CodeBlock::of(
        "«val %N = %S +\n%T.%M()»\n",
        vec![
            Argument::Name(String::from("x")),
            literal("a b"),
            Argument::Type(StructName {
                package_name: String::from("com.example"),
                simple_name: String::from("Taco"),
            }),
            Argument::Member(MemberName {
                package_name: String::from("com.example"),
                enclosing_class_name: None,
                simple_name: String::from("eat"),
                operator: None,
            }),
        ],
    )
    .unwrap();
    let first = block.to_string();
    let second = block.to_string();
    assert_eq!(first, second);
    assert_eq!("val x = \"a b\" +\n    Taco.eat()\n", first);
}

#[test]
fn builder_markers() {
    let mut builder = CodeBlockBuilder::new();
    builder.indent();
    builder.unindent();
    builder.next_control_flow("if", String::new());
    builder.end_control_flow_none();
    builder.end_control_flow("while", String::new());
    builder.add_statement("x", String::new());
    assert_eq!(vec!["IndentIncrease:None", "IndentDecrease:None"], shape(&builder.build()));
    builder.add_argument("%L", 'L', String::from("lit"));
    builder.add_argument("%T", 'T', String::from("typ"));
    assert_eq!(1, builder.args.len());
    assert_eq!("x", builder.arg_to_literal(String::from("x")));
    assert_eq!("%L", CodeBlockBuilder::merge_str_c("%", 'L'));
    assert!(CodeBlockBuilder::is_multi_char_no_arg_placeholder('%'));
    assert!(!CodeBlockBuilder::is_multi_char_no_arg_placeholder('L'));
    assert_eq!(Directive::Literal, Directive::Literal);
}
