//! The emitter: walks code blocks, resolves names against the import
//! tables, tracks indentation and statements, and drives a line wrapper.
use crate::class_name::StructName;
use crate::code_block::{
    ArgModel, Argument, CodeBlock, Directive, FormatError, FormatPart, MemberModel, PartModel,
    Template, TypeModel,
};
use crate::import::Import;
use crate::line_wrapper::{
    lemma_append_ignores_output, lemma_append_keeps_open, lemma_append_keeps_setup,
    lemma_flush_ignores_output, Layout, LayoutFault, LineWrapper,
};
use crate::member_name::MemberName;
use crate::text::{
    chars_of, push_char, push_repeated, quoted, repeated, string_literal, string_of_range,
};
use vstd::string::StrSliceExecFns;
use vstd::string::StringExecFns;
use vstd::prelude::*;

verus! {

/// The name of the package of a file that is in none.
pub const NO_PACKAGE: &'static str = "";

/// The column limit of the wrapper that a writer drives.
pub const COLUMN_LIMIT: i32 = 100;

/// The mathematical state of an emitter.
pub struct Emission {
    /// The state of the line wrapper.
    pub layout: Layout,
    /// The indent unit that the emitter was made with.
    pub indent: Seq<char>,
    /// The column limit that the emitter was made with.
    pub column_limit: int,
    /// The package of the file.
    pub package_name: Seq<char>,
    /// The imports that were given by hand.
    pub imports: Seq<Import>,
    /// The types met so far, each registered under its simple name.
    pub import_types: Seq<TypeModel>,
    /// The members met so far, each registered under its simple name.
    pub import_members: Seq<MemberModel>,
    /// The current indent level.
    pub indent_level: int,
    /// -1 outside a statement; inside one, the number of line breaks
    /// since it began.
    pub statement_line: int,
    /// Whether the last thing written was a line break.
    pub trailing_newline: bool,
}

/// The position of the first newline from `pos` on, or the length of `s`
/// where there is none.
pub open spec fn line_end(s: Seq<char>, pos: int) -> int
    decreases s.len() - pos,
{
    if pos < 0 || pos >= s.len() {
        s.len() as int
    } else if s[pos] == '\n' {
        pos
    } else {
        line_end(s, pos + 1)
    }
}

/// A line ends at or behind the position where it starts, and within the
/// text.
pub proof fn lemma_line_end_bounds(s: Seq<char>, pos: int)
    requires
        0 <= pos <= s.len(),
    ensures
        pos <= line_end(s, pos) <= s.len(),
    decreases s.len() - pos,
{
    if pos < s.len() && s[pos] != '\n' {
        lemma_line_end_bounds(s, pos + 1);
    }
}

/// A type's name with its package in front, where it has one.
pub open spec fn qualified_type(t: TypeModel) -> Seq<char> {
    if t.package_name.len() == 0 {
        t.simple_name
    } else {
        t.package_name + seq!['.'] + t.simple_name
    }
}

/// A member's name with its package and its enclosing type in front,
/// where it has them.
pub open spec fn qualified_member(m: MemberModel) -> Seq<char> {
    let scoped = match m.enclosing {
        Some(t) => t.simple_name + seq!['.'] + m.simple_name,
        None => m.simple_name,
    };
    if m.package_name.len() == 0 {
        scoped
    } else {
        m.package_name + seq!['.'] + scoped
    }
}

/// The index of the first type in `table` with the simple name `name`,
/// or the length of `table` where there is none.
pub open spec fn find_type(table: Seq<TypeModel>, name: Seq<char>, from: int) -> int
    decreases table.len() - from,
{
    if from < 0 || from >= table.len() {
        table.len() as int
    } else if table[from].simple_name == name {
        from
    } else {
        find_type(table, name, from + 1)
    }
}

/// The index of the first member in `table` with the simple name `name`,
/// or the length of `table` where there is none.
pub open spec fn find_member(table: Seq<MemberModel>, name: Seq<char>, from: int) -> int
    decreases table.len() - from,
{
    if from < 0 || from >= table.len() {
        table.len() as int
    } else if table[from].simple_name == name {
        from
    } else {
        find_member(table, name, from + 1)
    }
}

impl Emission {
    /// The state of a new emitter that writes behind `out` with the
    /// indent unit `indent`.
    pub open spec fn fresh(out: Seq<char>, indent: Seq<char>) -> Emission {
        Emission {
            layout: Layout {
                out,
                indent,
                column_limit: 100,
                segments: seq![Seq::empty()],
                indent_level: -1,
                line_prefix: Seq::empty(),
                closed: false,
            },
            indent,
            column_limit: 100,
            package_name: Seq::empty(),
            imports: Seq::empty(),
            import_types: Seq::empty(),
            import_members: Seq::empty(),
            indent_level: 0,
            statement_line: -1,
            trailing_newline: false,
        }
    }

    /// What keeps the emitter from going on, if anything: a closed
    /// wrapper, an indent level below zero, or a counter at the end of its
    /// range.
    pub open spec fn fault(self) -> Option<LayoutFault> {
        if self.layout.closed {
            Some(LayoutFault::AppendAfterClose)
        } else if self.indent_level < 0 {
            Some(LayoutFault::IndentUnderflow)
        } else if self.indent_level > i32::MAX - 3 || self.statement_line >= i32::MAX {
            Some(LayoutFault::CounterOverflow)
        } else {
            None
        }
    }

    /// The emitter can go on: a segment is pending in its wrapper, and
    /// nothing keeps it.
    pub open spec fn ok(self) -> bool {
        self.layout.wf() && self.fault() is None
    }

    /// The state with another wrapper state.
    pub open spec fn with_layout(self, layout: Layout) -> Emission {
        Emission { layout, ..self }
    }

    /// The state after one line of text without a newline in it. An empty
    /// line changes nothing. Behind a line break the line is indented.
    pub open spec fn after_line(self, line: Seq<char>) -> Emission {
        if line.len() == 0 {
            self
        } else {
            let indented = if self.trailing_newline {
                self.layout.extended(repeated(self.layout.indent, self.indent_level))
            } else {
                self.layout
            };
            Emission {
                layout: indented.after_append(line, self.indent_level + 2, Seq::empty()),
                trailing_newline: false,
                ..self
            }
        }
    }

    /// The state after a line break. The first break inside a statement
    /// raises the indent level by one for the rest of the statement.
    pub open spec fn after_break(self) -> Emission {
        Emission {
            layout: self.layout.after_new_line(),
            trailing_newline: true,
            indent_level: if self.statement_line == 0 {
                self.indent_level + 1
            } else {
                self.indent_level
            },
            statement_line: if self.statement_line == -1 {
                -1
            } else {
                self.statement_line + 1
            },
            ..self
        }
    }

    /// The state after the lines of `s` from position `pos` on.
    pub open spec fn after_text_from(self, s: Seq<char>, pos: int) -> Emission
        decreases s.len() - pos,
    {
        let end = line_end(s, pos);
        let line = self.after_line(s.subrange(pos, end));
        if pos < 0 || end >= s.len() {
            line
        } else {
            proof {
                lemma_line_end_bounds(s, pos);
            }
            line.after_break().after_text_from(s, end + 1)
        }
    }

    /// The state after the text `s`.
    pub open spec fn after_text(self, s: Seq<char>) -> Emission {
        self.after_text_from(s, 0)
    }

    /// The first fault that the emitter meets on the lines of `s` from
    /// `pos` on, if any. It looks at its state before each line.
    pub open spec fn text_fault_from(self, s: Seq<char>, pos: int) -> Option<LayoutFault>
        decreases s.len() - pos,
    {
        let end = line_end(s, pos);
        let line = self.after_line(s.subrange(pos, end));
        if self.fault() is Some {
            self.fault()
        } else if pos < 0 || end >= s.len() {
            None
        } else {
            proof {
                lemma_line_end_bounds(s, pos);
            }
            line.after_break().text_fault_from(s, end + 1)
        }
    }

    /// The first fault that the emitter meets on the text `s`, if any.
    pub open spec fn text_fault(self, s: Seq<char>) -> Option<LayoutFault> {
        self.text_fault_from(s, 0)
    }

    /// The state with the indent level changed by `levels`.
    pub open spec fn indented(self, levels: int) -> Emission {
        Emission { indent_level: self.indent_level + levels, ..self }
    }

    /// The state after a statement was opened. Inside a statement the
    /// marker changes nothing.
    pub open spec fn statement_begun(self) -> Emission {
        if self.statement_line == -1 {
            Emission { statement_line: 0, ..self }
        } else {
            self
        }
    }

    /// The state after a statement was closed: the indent of its
    /// continuation lines is taken back.
    pub open spec fn statement_ended(self) -> Emission {
        Emission {
            indent_level: if self.statement_line > 0 {
                self.indent_level - 1
            } else {
                self.indent_level
            },
            statement_line: -1,
            ..self
        }
    }

    /// How a reference to the type `t` is written: by its simple name,
    /// unless another type holds that name in the table.
    pub open spec fn type_text(self, t: TypeModel) -> Seq<char> {
        let at = find_type(self.import_types, t.simple_name, 0);
        if at < self.import_types.len() && self.import_types[at] != t {
            qualified_type(t)
        } else {
            t.simple_name
        }
    }

    /// The state after the type `t` was met: it is registered under its
    /// simple name unless that name is taken.
    pub open spec fn with_type(self, t: TypeModel) -> Emission {
        if find_type(self.import_types, t.simple_name, 0) < self.import_types.len() {
            self
        } else {
            Emission { import_types: self.import_types.push(t), ..self }
        }
    }

    /// How a reference to the member `m` is written: by its simple name,
    /// unless another member holds that name in the table.
    pub open spec fn member_text(self, m: MemberModel) -> Seq<char> {
        let at = find_member(self.import_members, m.simple_name, 0);
        if at < self.import_members.len() && self.import_members[at] != m {
            qualified_member(m)
        } else {
            m.simple_name
        }
    }

    /// The state after the member `m` was met: it is registered under
    /// its simple name unless that name is taken.
    pub open spec fn with_member(self, m: MemberModel) -> Emission {
        if find_member(self.import_members, m.simple_name, 0) < self.import_members.len() {
            self
        } else {
            Emission { import_members: self.import_members.push(m), ..self }
        }
    }

    /// The text `s` as the directive writes it: quoted for the two string
    /// directives, as it stands for the others.
    pub open spec fn shown(self, directive: Directive, s: Seq<char>) -> Seq<char> {
        match directive {
            Directive::QuotedString => string_literal(s, self.layout.indent, true),
            Directive::RawString => string_literal(s, self.layout.indent, false),
            _ => s,
        }
    }

    /// The text that the directive writes for an argument that is no
    /// nested block.
    pub open spec fn arg_text(self, directive: Directive, arg: ArgModel) -> Seq<char> {
        match arg {
            ArgModel::Literal(s) => self.shown(directive, s),
            ArgModel::Name(s) => self.shown(directive, s),
            ArgModel::Type(t) => match directive {
                Directive::QuotedString => self.shown(directive, qualified_type(t)),
                Directive::RawString => self.shown(directive, qualified_type(t)),
                _ => self.type_text(t),
            },
            ArgModel::Member(m) => match directive {
                Directive::QuotedString => self.shown(directive, qualified_member(m)),
                Directive::RawString => self.shown(directive, qualified_member(m)),
                _ => self.member_text(m),
            },
            ArgModel::Block(_) => Seq::empty(),
        }
    }

    /// The state in which the argument is registered: a type or a member
    /// that the directive writes by its resolved name.
    pub open spec fn registered(self, directive: Directive, arg: ArgModel) -> Emission {
        match arg {
            ArgModel::Type(t) => match directive {
                Directive::QuotedString => self,
                Directive::RawString => self,
                _ => self.with_type(t),
            },
            ArgModel::Member(m) => match directive {
                Directive::QuotedString => self,
                Directive::RawString => self,
                _ => self.with_member(m),
            },
            _ => self,
        }
    }

    /// The state after the directive wrote an argument that is no nested
    /// block.
    pub open spec fn after_arg(self, directive: Directive, arg: ArgModel) -> Emission {
        self.registered(directive, arg).after_text(self.arg_text(directive, arg))
    }

    /// The first fault that the emitter meets when the directive writes
    /// the argument, if any.
    pub open spec fn arg_fault(self, directive: Directive, arg: ArgModel) -> Option<LayoutFault> {
        self.registered(directive, arg).text_fault(self.arg_text(directive, arg))
    }

    /// The state after one part, which may refer to one of `args`. A
    /// placeholder whose index refers to no argument writes nothing.
    pub open spec fn after_part(self, part: PartModel, args: Seq<ArgModel>) -> Emission
        decreases args, 0int,
    {
        match part {
            PartModel::Text(s) => self.after_text(s),
            PartModel::Placeholder { directive, index } => match directive {
                Directive::PercentEscape => self.after_text(seq!['%']),
                Directive::IndentIncrease => self.indented(1),
                Directive::IndentDecrease => self.indented(-1),
                Directive::StatementBegin => self.statement_begun(),
                Directive::StatementEnd => self.statement_ended(),
                _ => match index {
                    Some(k) => if 0 <= k < args.len() {
                        match args[k] {
                            ArgModel::Block(b) => self.after_block(b),
                            arg => self.after_arg(directive, arg),
                        }
                    } else {
                        self
                    },
                    None => self,
                },
            },
        }
    }

    /// The state after the parts from index `i` on, which refer to `args`.
    pub open spec fn after_parts(self, parts: Seq<PartModel>, args: Seq<ArgModel>, i: int) -> Emission
        decreases args, parts.len() - i + 1,
    {
        if i < 0 || i >= parts.len() {
            self
        } else {
            self.after_part(parts[i], args).after_parts(parts, args, i + 1)
        }
    }

    /// The state after the block `t` was emitted.
    pub open spec fn after_block(self, t: Template) -> Emission
        decreases t,
    {
        self.after_parts(t.parts, t.args, 0)
    }

    /// The first fault that the emitter meets on one part, if any.
    pub open spec fn part_fault(self, part: PartModel, args: Seq<ArgModel>) -> Option<LayoutFault>
        decreases args, 0int,
    {
        match part {
            PartModel::Text(s) => self.text_fault(s),
            PartModel::Placeholder { directive, index } => match directive {
                Directive::PercentEscape => self.text_fault(seq!['%']),
                Directive::IndentIncrease => self.fault(),
                Directive::IndentDecrease => self.fault(),
                Directive::StatementBegin => self.fault(),
                Directive::StatementEnd => self.fault(),
                _ => match index {
                    Some(k) => if 0 <= k < args.len() {
                        match args[k] {
                            ArgModel::Block(b) => self.block_fault(b),
                            arg => self.arg_fault(directive, arg),
                        }
                    } else {
                        self.fault()
                    },
                    None => self.fault(),
                },
            },
        }
    }

    /// The first fault that the emitter meets on the parts from index `i`
    /// on, if any. It looks at its state before each part and behind the
    /// last one, so that an unindent below zero is met at the next part or
    /// at the end of the block.
    pub open spec fn parts_fault(self, parts: Seq<PartModel>, args: Seq<ArgModel>, i: int) -> Option<
        LayoutFault,
    >
        decreases args, parts.len() - i + 1,
    {
        if i < 0 || i >= parts.len() {
            self.fault()
        } else if self.part_fault(parts[i], args) is Some {
            self.part_fault(parts[i], args)
        } else {
            self.after_part(parts[i], args).parts_fault(parts, args, i + 1)
        }
    }

    /// The first fault that the emitter meets on the block `t`, if any.
    pub open spec fn block_fault(self, t: Template) -> Option<LayoutFault>
        decreases t,
    {
        self.parts_fault(t.parts, t.args, 0)
    }
}

/// Outside a statement an emitter that can go on meets no fault on any
/// text, and can go on behind it, at the same indent level and with the
/// same tables.
pub proof fn lemma_text_fits_outside_statement(st: Emission, s: Seq<char>, pos: int)
    requires
        st.ok(),
        st.statement_line == -1,
        0 <= pos <= s.len(),
    ensures
        st.text_fault_from(s, pos) is None,
        st.after_text_from(s, pos).ok(),
        st.after_text_from(s, pos).statement_line == -1,
        st.after_text_from(s, pos).indent_level == st.indent_level,
        st.after_text_from(s, pos).import_types == st.import_types,
        st.after_text_from(s, pos).import_members == st.import_members,
        st.after_text_from(s, pos).package_name == st.package_name,
        st.after_text_from(s, pos).layout.indent == st.layout.indent,
    decreases s.len() - pos,
{
    let end = line_end(s, pos);
    lemma_line_end_bounds(s, pos);
    let line = s.subrange(pos, end);
    let indented = if st.trailing_newline {
        st.layout.extended(repeated(st.layout.indent, st.indent_level))
    } else {
        st.layout
    };
    lemma_append_keeps_open(indented, line, st.indent_level + 2, Seq::empty());
    if end < s.len() {
        lemma_text_fits_outside_statement(st.after_line(line).after_break(), s, end + 1);
    }
}

/// Where a simple name is found in a table of types, it is found at the
/// same place in every table that continues it.
pub proof fn lemma_find_type_is_stable(
    table: Seq<TypeModel>,
    more: Seq<TypeModel>,
    name: Seq<char>,
    from: int,
)
    requires
        0 <= from,
    ensures
        from <= find_type(table, name, from) || from > table.len(),
        find_type(table, name, from) <= table.len(),
        find_type(table, name, from) < table.len() ==> table[find_type(
            table,
            name,
            from,
        )].simple_name == name && find_type(table + more, name, from) == find_type(
            table,
            name,
            from,
        ),
    decreases table.len() - from,
{
    if from < table.len() {
        assert((table + more)[from] == table[from]);
        if table[from].simple_name != name {
            lemma_find_type_is_stable(table, more, name, from + 1);
        }
    }
}

/// Where a simple name is found in a table of members, it is found at
/// the same place in every table that continues it.
pub proof fn lemma_find_member_is_stable(
    table: Seq<MemberModel>,
    more: Seq<MemberModel>,
    name: Seq<char>,
    from: int,
)
    requires
        0 <= from,
    ensures
        from <= find_member(table, name, from) || from > table.len(),
        find_member(table, name, from) <= table.len(),
        find_member(table, name, from) < table.len() ==> table[find_member(
            table,
            name,
            from,
        )].simple_name == name && find_member(table + more, name, from) == find_member(
            table,
            name,
            from,
        ),
    decreases table.len() - from,
{
    if from < table.len() {
        assert((table + more)[from] == table[from]);
        if table[from].simple_name != name {
            lemma_find_member_is_stable(table, more, name, from + 1);
        }
    }
}

/// Whether no simple name occurs twice in a table of types.
pub open spec fn type_names_apart(table: Seq<TypeModel>) -> bool {
    forall|i: int, j: int|
        0 <= i < j < table.len() ==> table[i].simple_name != table[j].simple_name
}

/// Whether no simple name occurs twice in a table of members.
pub open spec fn member_names_apart(table: Seq<MemberModel>) -> bool {
    forall|i: int, j: int|
        0 <= i < j < table.len() ==> table[i].simple_name != table[j].simple_name
}

/// A simple name that is not found from `from` on is held by no entry
/// from there on.
pub proof fn lemma_free_type_name(table: Seq<TypeModel>, name: Seq<char>, from: int)
    requires
        0 <= from,
        find_type(table, name, from) >= table.len(),
    ensures
        forall|i: int| from <= i < table.len() ==> (#[trigger] table[i]).simple_name != name,
    decreases table.len() - from,
{
    if from < table.len() {
        lemma_find_type_is_stable(table, Seq::empty(), name, from + 1);
        lemma_free_type_name(table, name, from + 1);
    }
}

/// A simple name that is not found from `from` on is held by no entry
/// from there on.
pub proof fn lemma_free_member_name(table: Seq<MemberModel>, name: Seq<char>, from: int)
    requires
        0 <= from,
        find_member(table, name, from) >= table.len(),
    ensures
        forall|i: int| from <= i < table.len() ==> (#[trigger] table[i]).simple_name != name,
    decreases table.len() - from,
{
    if from < table.len() {
        lemma_find_member_is_stable(table, Seq::empty(), name, from + 1);
        lemma_free_member_name(table, name, from + 1);
    }
}

/// The tables hold each simple name once: where they do before a type or
/// a member is met, they do behind it.
pub proof fn law_tables_hold_each_name_once(st: Emission, t: TypeModel, m: MemberModel)
    requires
        type_names_apart(st.import_types),
        member_names_apart(st.import_members),
    ensures
        type_names_apart(st.with_type(t).import_types),
        member_names_apart(st.with_type(t).import_members),
        type_names_apart(st.with_member(m).import_types),
        member_names_apart(st.with_member(m).import_members),
{
    if find_type(st.import_types, t.simple_name, 0) >= st.import_types.len() {
        lemma_free_type_name(st.import_types, t.simple_name, 0);
        let grown = st.import_types.push(t);
        assert forall|i: int, j: int| 0 <= i < j < grown.len() implies grown[i].simple_name
            != grown[j].simple_name by {
            if j < st.import_types.len() {
                assert(grown[i] == st.import_types[i] && grown[j] == st.import_types[j]);
            } else {
                assert(grown[i] == st.import_types[i]);
            }
        }
    } else {
        lemma_find_type_is_stable(st.import_types, Seq::empty(), t.simple_name, 0);
    }
    if find_member(st.import_members, m.simple_name, 0) >= st.import_members.len() {
        lemma_free_member_name(st.import_members, m.simple_name, 0);
        let grown = st.import_members.push(m);
        assert forall|i: int, j: int| 0 <= i < j < grown.len() implies grown[i].simple_name
            != grown[j].simple_name by {
            if j < st.import_members.len() {
                assert(grown[i] == st.import_members[i] && grown[j] == st.import_members[j]);
            } else {
                assert(grown[i] == st.import_members[i]);
            }
        }
    } else {
        lemma_find_member_is_stable(st.import_members, Seq::empty(), m.simple_name, 0);
    }
}

/// The first type that is met under a simple name takes that name: it is
/// written by it at once and after any further type was met, and a type
/// of another identity with the same simple name is written qualified.
pub proof fn law_first_type_takes_the_simple_name(
    st: Emission,
    t: TypeModel,
    later: TypeModel,
    other: TypeModel,
)
    requires
        find_type(st.import_types, t.simple_name, 0) == st.import_types.len(),
        other.simple_name == t.simple_name,
        other != t,
    ensures
        st.type_text(t) == t.simple_name,
        st.with_type(t).type_text(t) == t.simple_name,
        st.with_type(t).with_type(later).type_text(t) == t.simple_name,
        st.with_type(t).type_text(other) == qualified_type(other),
        st.with_type(t).with_type(later).type_text(other) == qualified_type(other),
{
    let grown = st.import_types.push(t);
    lemma_find_type_is_stable(st.import_types, seq![t], t.simple_name, 0);
    assert(grown =~= st.import_types + seq![t]);
    lemma_first_free_place(st.import_types, t, 0);
    assert(find_type(grown, t.simple_name, 0) == st.import_types.len());
    lemma_find_type_is_stable(grown, seq![later], t.simple_name, 0);
    assert(grown.push(later) =~= grown + seq![later]);
}

/// A type that is put behind a table in which its simple name is free is
/// found at the end of the table.
pub proof fn lemma_first_free_place(table: Seq<TypeModel>, t: TypeModel, from: int)
    requires
        0 <= from <= table.len(),
        find_type(table, t.simple_name, from) == table.len(),
    ensures
        find_type(table.push(t), t.simple_name, from) == table.len(),
    decreases table.len() - from,
{
    if from < table.len() {
        assert(table.push(t)[from] == table[from]);
        lemma_first_free_place(table, t, from + 1);
    }
}

/// The first member that is met under a simple name takes that name: it
/// is written by it at once and after any further member was met, and a
/// member of another identity with the same simple name is written
/// qualified.
pub proof fn law_first_member_takes_the_simple_name(
    st: Emission,
    m: MemberModel,
    later: MemberModel,
    other: MemberModel,
)
    requires
        find_member(st.import_members, m.simple_name, 0) == st.import_members.len(),
        other.simple_name == m.simple_name,
        other != m,
    ensures
        st.member_text(m) == m.simple_name,
        st.with_member(m).member_text(m) == m.simple_name,
        st.with_member(m).with_member(later).member_text(m) == m.simple_name,
        st.with_member(m).member_text(other) == qualified_member(other),
        st.with_member(m).with_member(later).member_text(other) == qualified_member(other),
{
    let grown = st.import_members.push(m);
    lemma_find_member_is_stable(st.import_members, seq![m], m.simple_name, 0);
    assert(grown =~= st.import_members + seq![m]);
    lemma_first_free_member_place(st.import_members, m, 0);
    assert(find_member(grown, m.simple_name, 0) == st.import_members.len());
    lemma_find_member_is_stable(grown, seq![later], m.simple_name, 0);
    assert(grown.push(later) =~= grown + seq![later]);
}

/// A member that is put behind a table in which its simple name is free
/// is found at the end of the table.
pub proof fn lemma_first_free_member_place(table: Seq<MemberModel>, m: MemberModel, from: int)
    requires
        0 <= from <= table.len(),
        find_member(table, m.simple_name, from) == table.len(),
    ensures
        find_member(table.push(m), m.simple_name, from) == table.len(),
    decreases table.len() - from,
{
    if from < table.len() {
        assert(table.push(m)[from] == table[from]);
        lemma_first_free_member_place(table, m, from + 1);
    }
}

/// An emitter that meets no fault on a text has a segment pending behind
/// it and can go on.
pub proof fn lemma_text_keeps_going(st: Emission, s: Seq<char>, pos: int)
    requires
        st.layout.wf(),
        st.text_fault_from(s, pos) is None,
        0 <= pos <= s.len(),
    ensures
        st.after_text_from(s, pos).ok(),
    decreases s.len() - pos,
{
    let end = line_end(s, pos);
    lemma_line_end_bounds(s, pos);
    let line = s.subrange(pos, end);
    let indented = if st.trailing_newline {
        st.layout.extended(repeated(st.layout.indent, st.indent_level))
    } else {
        st.layout
    };
    lemma_append_keeps_open(indented, line, st.indent_level + 2, Seq::empty());
    if end < s.len() {
        lemma_text_keeps_going(st.after_line(line).after_break(), s, end + 1);
    }
}

/// An emitter that meets no fault on a part has a segment pending behind
/// it.
pub proof fn lemma_part_keeps_going(st: Emission, part: PartModel, args: Seq<ArgModel>)
    requires
        st.layout.wf(),
        st.part_fault(part, args) is None,
    ensures
        st.after_part(part, args).layout.wf(),
    decreases args, 0int,
{
    match part {
        PartModel::Text(s) => {
            lemma_text_keeps_going(st, s, 0);
        },
        PartModel::Placeholder { directive, index } => match directive {
            Directive::PercentEscape => {
                lemma_text_keeps_going(st, seq!['%'], 0);
            },
            Directive::IndentIncrease => {},
            Directive::IndentDecrease => {},
            Directive::StatementBegin => {},
            Directive::StatementEnd => {},
            _ => match index {
                Some(k) => {
                    if 0 <= k < args.len() {
                        match args[k] {
                            ArgModel::Block(t) => {
                                law_emitted_blocks_leave_the_emitter_sound(st, t);
                            },
                            arg => {
                                lemma_text_keeps_going(
                                    st.registered(directive, arg),
                                    st.arg_text(directive, arg),
                                    0,
                                );
                            },
                        }
                    }
                },
                None => {},
            },
        },
    }
}

/// An emitter that meets no fault on the parts from index `i` on can go
/// on behind them.
pub proof fn lemma_parts_keep_going(
    st: Emission,
    parts: Seq<PartModel>,
    args: Seq<ArgModel>,
    i: int,
)
    requires
        st.layout.wf(),
        st.parts_fault(parts, args, i) is None,
    ensures
        st.after_parts(parts, args, i).ok(),
    decreases args, parts.len() - i + 1,
{
    if 0 <= i < parts.len() {
        lemma_part_keeps_going(st, parts[i], args);
        lemma_parts_keep_going(st.after_part(parts[i], args), parts, args, i + 1);
    }
}

/// Behind a block that was emitted without a fault the emitter is sound:
/// its indent level is not below zero, its wrapper is open and has a
/// segment pending.
pub proof fn law_emitted_blocks_leave_the_emitter_sound(st: Emission, t: Template)
    requires
        st.layout.wf(),
        st.block_fault(t) is None,
    ensures
        st.after_block(t).ok(),
        st.after_block(t).indent_level >= 0,
        !st.after_block(t).layout.closed,
    decreases t,
{
    lemma_parts_keep_going(st, t.parts, t.args, 0);
}

/// Whether two emitters steer alike: they agree on everything but the
/// contents of their wrappers, that is on the package, the tables, the
/// counters, the indent unit and on whether the wrapper is closed.
pub open spec fn alike(a: Emission, b: Emission) -> bool {
    &&& a.package_name == b.package_name
    &&& a.import_types == b.import_types
    &&& a.import_members == b.import_members
    &&& a.indent_level == b.indent_level
    &&& a.statement_line == b.statement_line
    &&& a.layout.closed == b.layout.closed
    &&& a.layout.indent == b.layout.indent
}

/// Emitters that steer alike still do so after the same text, and meet the
/// same fault on it.
pub proof fn lemma_text_steers_alike(a: Emission, b: Emission, s: Seq<char>, pos: int)
    requires
        alike(a, b),
        0 <= pos <= s.len(),
    ensures
        alike(a.after_text_from(s, pos), b.after_text_from(s, pos)),
        a.text_fault_from(s, pos) == b.text_fault_from(s, pos),
    decreases s.len() - pos,
{
    let end = line_end(s, pos);
    lemma_line_end_bounds(s, pos);
    let line = s.subrange(pos, end);
    let a_indented = if a.trailing_newline {
        a.layout.extended(repeated(a.layout.indent, a.indent_level))
    } else {
        a.layout
    };
    let b_indented = if b.trailing_newline {
        b.layout.extended(repeated(b.layout.indent, b.indent_level))
    } else {
        b.layout
    };
    lemma_append_keeps_setup(a_indented, line, a.indent_level + 2, Seq::empty());
    lemma_append_keeps_setup(b_indented, line, b.indent_level + 2, Seq::empty());
    assert(alike(a.after_line(line), b.after_line(line)));
    if end < s.len() {
        lemma_text_steers_alike(
            a.after_line(line).after_break(),
            b.after_line(line).after_break(),
            s,
            end + 1,
        );
    }
}

/// Emitters that steer alike still do so after the same part, and meet
/// the same fault on it.
pub proof fn lemma_part_steers_alike(a: Emission, b: Emission, part: PartModel, args: Seq<ArgModel>)
    requires
        alike(a, b),
    ensures
        alike(a.after_part(part, args), b.after_part(part, args)),
        a.part_fault(part, args) == b.part_fault(part, args),
    decreases args, 0int,
{
    match part {
        PartModel::Text(s) => {
            lemma_text_steers_alike(a, b, s, 0);
        },
        PartModel::Placeholder { directive, index } => match directive {
            Directive::PercentEscape => {
                lemma_text_steers_alike(a, b, seq!['%'], 0);
            },
            Directive::IndentIncrease => {},
            Directive::IndentDecrease => {},
            Directive::StatementBegin => {},
            Directive::StatementEnd => {},
            _ => match index {
                Some(k) => {
                    if 0 <= k < args.len() {
                        match args[k] {
                            ArgModel::Block(t) => {
                                lemma_block_steers_alike(a, b, t);
                            },
                            arg => {
                                assert(a.arg_text(directive, arg) == b.arg_text(directive, arg));
                                assert(alike(
                                    a.registered(directive, arg),
                                    b.registered(directive, arg),
                                ));
                                lemma_text_steers_alike(
                                    a.registered(directive, arg),
                                    b.registered(directive, arg),
                                    a.arg_text(directive, arg),
                                    0,
                                );
                            },
                        }
                    }
                },
                None => {},
            },
        },
    }
}

/// Emitters that steer alike still do so after the same parts, and meet
/// the same fault on them.
pub proof fn lemma_parts_steer_alike(
    a: Emission,
    b: Emission,
    parts: Seq<PartModel>,
    args: Seq<ArgModel>,
    i: int,
)
    requires
        alike(a, b),
    ensures
        alike(a.after_parts(parts, args, i), b.after_parts(parts, args, i)),
        a.parts_fault(parts, args, i) == b.parts_fault(parts, args, i),
    decreases args, parts.len() - i + 1,
{
    if 0 <= i < parts.len() {
        lemma_part_steers_alike(a, b, parts[i], args);
        lemma_parts_steer_alike(
            a.after_part(parts[i], args),
            b.after_part(parts[i], args),
            parts,
            args,
            i + 1,
        );
    }
}

/// What an emitter meets on a block, and what it has registered behind
/// it, does not depend on what its wrapper holds: emitters that steer
/// alike still do so after the same block, and meet the same fault on it.
pub proof fn lemma_block_steers_alike(a: Emission, b: Emission, t: Template)
    requires
        alike(a, b),
    ensures
        alike(a.after_block(t), b.after_block(t)),
        a.block_fault(t) == b.block_fault(t),
    decreases t,
{
    lemma_parts_steer_alike(a, b, t.parts, t.args, 0);
}

impl Emission {
    /// The state with `prefix` before everything written so far.
    pub open spec fn behind(self, prefix: Seq<char>) -> Emission {
        self.with_layout(self.layout.behind(prefix))
    }
}

/// Text changes an emitter in the same way whatever was written before.
pub proof fn lemma_text_ignores_output(a: Emission, prefix: Seq<char>, s: Seq<char>, pos: int)
    requires
        0 <= pos <= s.len(),
    ensures
        a.behind(prefix).after_text_from(s, pos) == a.after_text_from(s, pos).behind(prefix),
    decreases s.len() - pos,
{
    let end = line_end(s, pos);
    lemma_line_end_bounds(s, pos);
    let line = s.subrange(pos, end);
    let indented = if a.trailing_newline {
        a.layout.extended(repeated(a.layout.indent, a.indent_level))
    } else {
        a.layout
    };
    lemma_append_ignores_output(indented, prefix, line, a.indent_level + 2, Seq::empty());
    assert(a.behind(prefix).after_line(line) == a.after_line(line).behind(prefix));
    if end < s.len() {
        let next = a.after_line(line);
        lemma_flush_ignores_output(next.layout, prefix);
        assert(next.behind(prefix).after_break() == next.after_break().behind(prefix));
        lemma_text_ignores_output(next.after_break(), prefix, s, end + 1);
    }
}

/// A part changes an emitter in the same way whatever was written before.
pub proof fn lemma_part_ignores_output(
    a: Emission,
    prefix: Seq<char>,
    part: PartModel,
    args: Seq<ArgModel>,
)
    ensures
        a.behind(prefix).after_part(part, args) == a.after_part(part, args).behind(prefix),
    decreases args, 0int,
{
    match part {
        PartModel::Text(s) => {
            lemma_text_ignores_output(a, prefix, s, 0);
        },
        PartModel::Placeholder { directive, index } => match directive {
            Directive::PercentEscape => {
                lemma_text_ignores_output(a, prefix, seq!['%'], 0);
            },
            Directive::IndentIncrease => {},
            Directive::IndentDecrease => {},
            Directive::StatementBegin => {},
            Directive::StatementEnd => {},
            _ => match index {
                Some(k) => {
                    if 0 <= k < args.len() {
                        match args[k] {
                            ArgModel::Block(t) => {
                                lemma_block_ignores_output(a, prefix, t);
                            },
                            arg => {
                                assert(a.behind(prefix).arg_text(directive, arg) == a.arg_text(
                                    directive,
                                    arg,
                                ));
                                assert(a.behind(prefix).registered(directive, arg) == a.registered(
                                    directive,
                                    arg,
                                ).behind(prefix));
                                lemma_text_ignores_output(
                                    a.registered(directive, arg),
                                    prefix,
                                    a.arg_text(directive, arg),
                                    0,
                                );
                            },
                        }
                    }
                },
                None => {},
            },
        },
    }
}

/// Parts change an emitter in the same way whatever was written before.
pub proof fn lemma_parts_ignore_output(
    a: Emission,
    prefix: Seq<char>,
    parts: Seq<PartModel>,
    args: Seq<ArgModel>,
    i: int,
)
    ensures
        a.behind(prefix).after_parts(parts, args, i) == a.after_parts(parts, args, i).behind(
            prefix,
        ),
    decreases args, parts.len() - i + 1,
{
    if 0 <= i < parts.len() {
        lemma_part_ignores_output(a, prefix, parts[i], args);
        lemma_parts_ignore_output(a.after_part(parts[i], args), prefix, parts, args, i + 1);
    }
}

/// A block changes an emitter in the same way whatever was written
/// before.
pub proof fn lemma_block_ignores_output(a: Emission, prefix: Seq<char>, t: Template)
    ensures
        a.behind(prefix).after_block(t) == a.after_block(t).behind(prefix),
    decreases t,
{
    lemma_parts_ignore_output(a, prefix, t.parts, t.args, 0);
}

/// The views of a table of types, element by element.
pub open spec fn type_models(table: Seq<StructName>) -> Seq<TypeModel> {
    Seq::new(table.len(), |i: int| table[i]@)
}

/// The views of a table of members, element by element.
pub open spec fn member_models(table: Seq<MemberName>) -> Seq<MemberModel> {
    Seq::new(table.len(), |i: int| table[i]@)
}

/// Turns code blocks into text on a string sink. It honours indentation
/// and statements, and collects the types and members it meets.
#[derive(Debug)]
pub struct CodeWriter<'a> {
    pub out: Box<LineWrapper<'a>>,
    pub indent: &'static str,
    pub package_name: String,
    pub imports: Vec<Import>,
    pub import_types: Vec<StructName>,
    pub import_members: Vec<MemberName>,
    pub column_limit: i32,
    pub indent_level: i32,
    pub statement_line: i32,
    pub trailing_newline: bool,
}

impl<'a> View for CodeWriter<'a> {
    type V = Emission;

    open spec fn view(&self) -> Emission {
        Emission {
            layout: self.out@,
            indent: self.indent@,
            column_limit: self.column_limit as int,
            package_name: self.package_name@,
            imports: self.imports@,
            import_types: type_models(self.import_types@),
            import_members: member_models(self.import_members@),
            indent_level: self.indent_level as int,
            statement_line: self.statement_line as int,
            trailing_newline: self.trailing_newline,
        }
    }
}

/// Where the line that starts at `pos` ends.
pub fn find_line_end(chars: &Vec<char>, pos: usize) -> (r: usize)
    requires
        pos <= chars.len(),
    ensures
        r == line_end(chars@, pos as int),
        pos <= r <= chars.len(),
{
    let mut i: usize = pos;
    while i < chars.len() && chars[i] != '\n'
        invariant
            pos <= i <= chars.len(),
            line_end(chars@, i as int) == line_end(chars@, pos as int),
        decreases chars.len() - i,
    {
        i = i + 1;
    }
    i
}

impl<'a> CodeWriter<'a> {
    /// A writer that writes behind what `out` holds, with the indent unit
    /// `ident`.
    pub fn new(out: &'a mut String, ident: &'static str) -> (r: Self)
        ensures
            r@ == Emission::fresh(old(out)@, ident@),
            r@.ok(),
            *final(out) == *final(r.out.out),
    {
        let line_wrapper = LineWrapper::new(out, String::from_str(ident), COLUMN_LIMIT);
        let wrapper = Box::new(line_wrapper);
        let r = CodeWriter {
            out: wrapper,
            indent: ident,
            package_name: String::from_str(NO_PACKAGE),
            imports: Vec::new(),
            import_types: Vec::new(),
            import_members: Vec::new(),
            column_limit: COLUMN_LIMIT,
            indent_level: 0,
            statement_line: -1,
            trailing_newline: false,
        };
        proof {
            reveal_strlit("");
            assert(r@.package_name =~= Seq::empty());
            assert(r@.import_types =~= Seq::empty());
            assert(r@.import_members =~= Seq::empty());
        }
        r
    }

    /// Sets the package of the file.
    pub fn push_package(&mut self, package_name: &str)
        ensures
            final(self)@ == (Emission { package_name: package_name@, ..old(self)@ }),
            *final(final(self).out.out) == *final(old(self).out.out),
    {
        self.package_name = String::from_str(package_name);
    }

    /// Raises the indent level by `levels`.
    pub fn indent(&mut self, levels: i32)
        requires
            0 <= old(self).indent_level + levels <= i32::MAX,
        ensures
            final(self)@ == old(self)@.indented(levels as int),
            *final(final(self).out.out) == *final(old(self).out.out),
    {
        self.indent_level = self.indent_level + levels;
    }

    /// Lowers the indent level by `levels`.
    pub fn unindent(&mut self, levels: i32)
        requires
            0 <= old(self).indent_level - levels <= i32::MAX,
        ensures
            final(self)@ == old(self)@.indented(-levels),
            *final(final(self).out.out) == *final(old(self).out.out),
    {
        self.indent_level = self.indent_level - levels;
    }

    /// Writes one line of text, which holds no newline: `chars[pos..end)`.
    fn emit_line(&mut self, chars: &Vec<char>, pos: usize, end: usize)
        requires
            old(self)@.ok(),
            pos <= end <= chars.len(),
        ensures
            final(self)@ == old(self)@.after_line(chars@.subrange(pos as int, end as int)),
            final(self)@.ok(),
            *final(final(self).out.out) == *final(old(self).out.out),
    {
        if end > pos {
            if self.trailing_newline {
                let mut pad = String::new();
                push_repeated(&mut pad, self.out.indent.as_str(), self.indent_level);
                assert(pad@ =~= repeated(self@.layout.indent, self@.indent_level));
                self.out.append_non_wrapping(pad);
            }
            let line = string_of_range(chars, pos, end);
            let level: i32 = self.indent_level + 2;
            self.out.append(line, Some(level), Some(String::new()));
            self.trailing_newline = false;
        }
    }

    /// Ends the line.
    fn break_line(&mut self)
        requires
            old(self)@.ok(),
        ensures
            final(self)@ == old(self)@.after_break(),
            *final(final(self).out.out) == *final(old(self).out.out),
    {
        self.out.new_line();
        self.trailing_newline = true;
        if self.statement_line != -1 {
            if self.statement_line == 0 {
                self.indent_level = self.indent_level + 1;
            }
            self.statement_line = self.statement_line + 1;
        }
    }

    /// The fault that keeps the writer from going on, if there is one.
    pub fn check(&self) -> (r: Result<(), LayoutFault>)
        ensures
            r == match self@.fault() {
                Some(f) => Err::<(), LayoutFault>(f),
                None => Ok::<(), LayoutFault>(()),
            },
    {
        if self.out.closed {
            Err(LayoutFault::AppendAfterClose)
        } else if self.indent_level < 0 {
            Err(LayoutFault::IndentUnderflow)
        } else if self.indent_level > i32::MAX - 3 || self.statement_line >= i32::MAX {
            Err(LayoutFault::CounterOverflow)
        } else {
            Ok(())
        }
    }

    /// Writes `s` line by line: each line goes to the wrapper, indented
    /// where it opens a line of the output, and each newline ends the
    /// logical line. At the first fault the writer stops and returns it;
    /// it is then left where it met the fault.
    pub fn try_emit(&mut self, s: String) -> (r: Result<(), LayoutFault>)
        requires
            old(self)@.layout.wf(),
        ensures
            match old(self)@.text_fault(s@) {
                None => r is Ok && final(self)@ == old(self)@.after_text(s@) && final(self)@.ok(),
                Some(f) => r == Err::<(), LayoutFault>(f),
            },
            *final(final(self).out.out) == *final(old(self).out.out),
    {
        let chars = chars_of(s.as_str());
        let mut pos: usize = 0;
        loop
            invariant
                pos <= chars.len(),
                chars@ == s@,
                self@.layout.wf(),
                self@.text_fault_from(chars@, pos as int) == old(self)@.text_fault(s@),
                self@.after_text_from(chars@, pos as int) == old(self)@.after_text(s@),
                *final(self.out.out) == *final(old(self).out.out),
            decreases chars.len() - pos,
        {
            match self.check() {
                Err(f) => {
                    return Err(f);
                },
                Ok(()) => {},
            }
            let end = find_line_end(&chars, pos);
            self.emit_line(&chars, pos, end);
            if end >= chars.len() {
                return Ok(());
            }
            self.break_line();
            pos = end + 1;
        }
    }

    /// Writes `s` line by line, as `try_emit` does.
    pub fn emit(&mut self, s: String)
        requires
            old(self)@.layout.wf(),
            old(self)@.text_fault(s@) is None,
        ensures
            final(self)@ == old(self)@.after_text(s@),
            final(self)@.ok(),
            *final(final(self).out.out) == *final(old(self).out.out),
    {
        let _ = self.try_emit(s);
    }

    /// Writes a literal.
    pub fn emit_literal(&mut self, arg: String)
        requires
            old(self)@.layout.wf(),
            old(self)@.text_fault(arg@) is None,
        ensures
            final(self)@ == old(self)@.after_text(arg@),
            final(self)@.ok(),
            *final(final(self).out.out) == *final(old(self).out.out),
    {
        self.emit(arg);
    }

    /// How a reference to `t` is written; registers `t` where its simple
    /// name is free.
    fn resolve_type(&mut self, t: &StructName) -> (r: String)
        ensures
            r@ == old(self)@.type_text(t@),
            final(self)@ == old(self)@.with_type(t@),
            *final(final(self).out.out) == *final(old(self).out.out),
    {
        let mut i: usize = 0;
        while i < self.import_types.len()
            invariant
                i <= self.import_types.len(),
                *self == *old(self),
                find_type(self@.import_types, t@.simple_name, i as int) == find_type(
                    self@.import_types,
                    t@.simple_name,
                    0,
                ),
            decreases self.import_types.len() - i,
        {
            if self.import_types[i].simple_name == t.simple_name {
                if self.import_types[i].package_name == t.package_name {
                    return t.simple_name.clone();
                }
                return qualified_type_name(t);
            }
            i = i + 1;
        }
        self.import_types.push(t.clone());
        assert(self@.import_types =~= old(self)@.import_types.push(t@));
        t.simple_name.clone()
    }

    /// How a reference to `m` is written; registers `m` where its simple
    /// name is free.
    fn resolve_member(&mut self, m: &MemberName) -> (r: String)
        ensures
            r@ == old(self)@.member_text(m@),
            final(self)@ == old(self)@.with_member(m@),
            *final(final(self).out.out) == *final(old(self).out.out),
    {
        let mut i: usize = 0;
        while i < self.import_members.len()
            invariant
                i <= self.import_members.len(),
                *self == *old(self),
                find_member(self@.import_members, m@.simple_name, i as int) == find_member(
                    self@.import_members,
                    m@.simple_name,
                    0,
                ),
            decreases self.import_members.len() - i,
        {
            if self.import_members[i].simple_name == m.simple_name {
                if same_member(&self.import_members[i], m) {
                    return m.simple_name.clone();
                }
                return qualified_member_name(m);
            }
            i = i + 1;
        }
        self.import_members.push(m.clone());
        assert(self@.import_members =~= old(self)@.import_members.push(m@));
        m.simple_name.clone()
    }

    /// `s` as the directive writes it.
    fn show(&self, directive: Directive, s: &str) -> (r: String)
        ensures
            r@ == self@.shown(directive, s@),
    {
        match directive {
            Directive::QuotedString => quoted(s, self.out.indent.as_str(), true),
            Directive::RawString => quoted(s, self.out.indent.as_str(), false),
            _ => String::from_str(s),
        }
    }

    /// Writes an argument that is no nested block as the directive asks.
    fn try_emit_arg(&mut self, directive: Directive, arg: &Argument) -> (r: Result<
        (),
        LayoutFault,
    >)
        requires
            !(arg is Block),
            old(self)@.layout.wf(),
        ensures
            match old(self)@.arg_fault(directive, arg@) {
                None => r is Ok && final(self)@ == old(self)@.after_arg(directive, arg@)
                    && final(self)@.ok(),
                Some(f) => r == Err::<(), LayoutFault>(f),
            },
            *final(final(self).out.out) == *final(old(self).out.out),
    {
        let text: String = match arg {
            Argument::Literal(s) => self.show(directive, s.as_str()),
            Argument::Name(s) => self.show(directive, s.as_str()),
            Argument::Type(t) => match directive {
                Directive::QuotedString => self.show(directive, qualified_type_name(t).as_str()),
                Directive::RawString => self.show(directive, qualified_type_name(t).as_str()),
                _ => self.resolve_type(t),
            },
            Argument::Member(m) => match directive {
                Directive::QuotedString => self.show(directive, qualified_member_name(m).as_str()),
                Directive::RawString => self.show(directive, qualified_member_name(m).as_str()),
                _ => self.resolve_member(m),
            },
            Argument::Block(_) => String::new(),
        };
        self.try_emit(text)
    }

    /// Emits the parts of `code_block` in order: text as it stands,
    /// placeholders by their arguments, nested blocks in the same state.
    /// At the first fault the writer stops and returns it; it is then left
    /// where it met the fault.
    pub fn try_emit_block(&mut self, code_block: &CodeBlock) -> (r: Result<(), LayoutFault>)
        requires
            old(self)@.layout.wf(),
        ensures
            match old(self)@.block_fault(code_block@) {
                None => r is Ok && final(self)@ == old(self)@.after_block(code_block@)
                    && final(self)@.ok(),
                Some(f) => r == Err::<(), LayoutFault>(f),
            },
            *final(final(self).out.out) == *final(old(self).out.out),
        decreases code_block,
    {
        let n = code_block.format_parts.len();
        let ghost t = code_block@;
        let mut i: usize = 0;
        while i < n
            invariant
                i <= n,
                n == code_block.format_parts.len(),
                t == code_block@,
                self@.layout.wf(),
                self@.parts_fault(t.parts, t.args, i as int) == old(self)@.block_fault(t),
                self@.after_parts(t.parts, t.args, i as int) == old(self)@.after_block(t),
                *final(self.out.out) == *final(old(self).out.out),
            decreases n - i,
        {
            assert(t.parts[i as int] == code_block.format_parts@[i as int]@);
            let ghost before = self@;
            let ghost fault = before.part_fault(t.parts[i as int], t.args);
            let step: Result<(), LayoutFault> = match &code_block.format_parts[i] {
                FormatPart::Text(s) => self.try_emit(s.clone()),
                FormatPart::Placeholder { directive, index } => match directive {
                    Directive::PercentEscape => {
                        proof {
                            reveal_strlit("%");
                            assert("%"@ =~= seq!['%']);
                        }
                        self.try_emit(String::from_str("%"))
                    },
                    Directive::IndentIncrease => {
                        let checked = self.check();
                        if checked.is_ok() {
                            self.indent_level = self.indent_level + 1;
                        }
                        checked
                    },
                    Directive::IndentDecrease => {
                        let checked = self.check();
                        if checked.is_ok() {
                            self.indent_level = self.indent_level - 1;
                        }
                        checked
                    },
                    Directive::StatementBegin => {
                        let checked = self.check();
                        if checked.is_ok() && self.statement_line == -1 {
                            self.statement_line = 0;
                        }
                        checked
                    },
                    Directive::StatementEnd => {
                        let checked = self.check();
                        if checked.is_ok() {
                            if self.statement_line > 0 {
                                self.indent_level = self.indent_level - 1;
                            }
                            self.statement_line = -1;
                        }
                        checked
                    },
                    _ => match index {
                        Some(k) => {
                            if *k < code_block.args.len() {
                                assert(t.args[*k as int] == code_block.args@[*k as int]@);
                                match &code_block.args[*k] {
                                    Argument::Block(b) => self.try_emit_block(b),
                                    arg => self.try_emit_arg(*directive, arg),
                                }
                            } else {
                                self.check()
                            }
                        },
                        None => self.check(),
                    },
                },
            };
            match step {
                Err(f) => {
                    assert(fault == Some(f));
                    return Err(f);
                },
                Ok(()) => {
                    assert(fault is None);
                    assert(self@ == before.after_part(t.parts[i as int], t.args));
                },
            }
            i = i + 1;
        }
        self.check()
    }

    /// Emits the parts of `code_block`, as `try_emit_block` does.
    pub fn emit_block(&mut self, code_block: &CodeBlock)
        requires
            old(self)@.layout.wf(),
            old(self)@.block_fault(code_block@) is None,
        ensures
            final(self)@ == old(self)@.after_block(code_block@),
            final(self)@.ok(),
            *final(final(self).out.out) == *final(old(self).out.out),
    {
        let _ = self.try_emit_block(code_block);
    }

    /// Compiles `format` against `args` and emits the block. An error of
    /// the format is returned, and nothing is written.
    pub fn emit_code(&mut self, format: &str, args: Vec<Argument>) -> (r: Result<(), FormatError>)
        requires
            old(self)@.layout.wf(),
            match crate::code_block::compiled(format@, args.len() as int, false, 0) {
                Ok(parts) => old(self)@.block_fault(
                    Template { parts, args: crate::code_block::arg_models(args@) },
                ) is None,
                Err(_) => true,
            },
        ensures
            match crate::code_block::compiled(format@, args.len() as int, false, 0) {
                Ok(parts) => r is Ok && final(self)@ == old(self)@.after_block(
                    Template { parts, args: crate::code_block::arg_models(args@) },
                ),
                Err(e) => r == Err::<(), FormatError>(e) && final(self)@ == old(self)@,
            },
            *final(final(self).out.out) == *final(old(self).out.out),
    {
        match CodeBlock::of(format, args) {
            Ok(block) => {
                self.emit_block(&block);
                Ok(())
            },
            Err(e) => Err(e),
        }
    }

    /// Flushes what is pending and closes the wrapper.
    pub fn close(&mut self)
        requires
            old(self)@.layout.wf(),
        ensures
            final(self)@ == old(self)@.with_layout(old(self)@.layout.after_close()),
            *final(final(self).out.out) == *final(old(self).out.out),
    {
        self.out.close();
    }
}

/// The name of `t` with its package in front, where it has one.
pub fn qualified_type_name(t: &StructName) -> (r: String)
    ensures
        r@ == qualified_type(t@),
{
    if t.package_name.as_str().unicode_len() == 0 {
        t.simple_name.clone()
    } else {
        let mut name = t.package_name.clone();
        push_char(&mut name, '.');
        name.append(t.simple_name.as_str());
        assert(name@ =~= qualified_type(t@));
        name
    }
}

/// The name of `m` with its package and its enclosing type in front,
/// where it has them.
pub fn qualified_member_name(m: &MemberName) -> (r: String)
    ensures
        r@ == qualified_member(m@),
{
    let mut name = String::new();
    if m.package_name.as_str().unicode_len() != 0 {
        name.append(m.package_name.as_str());
        push_char(&mut name, '.');
    }
    match &m.enclosing_class_name {
        Some(t) => {
            name.append(t.simple_name.as_str());
            push_char(&mut name, '.');
        },
        None => {},
    }
    name.append(m.simple_name.as_str());
    assert(name@ =~= qualified_member(m@));
    name
}

/// Whether two member names refer to the same member.
pub fn same_member(a: &MemberName, b: &MemberName) -> (r: bool)
    ensures
        r == (a@ == b@),
{
    let same_enclosing = match (&a.enclosing_class_name, &b.enclosing_class_name) {
        (Some(x), Some(y)) => x.package_name == y.package_name && x.simple_name == y.simple_name,
        (None, None) => true,
        _ => false,
    };
    a.package_name == b.package_name && same_enclosing && a.simple_name == b.simple_name
}

/// The text that a new writer with the indent unit `indent` gives for the
/// block `t`.
pub open spec fn rendered(t: Template, indent: Seq<char>) -> Seq<char> {
    Emission::fresh(Seq::empty(), indent).after_block(t).layout.after_close().out
}

/// The fault that a new writer with the indent unit `indent` meets on the
/// block `t`, if any.
pub open spec fn render_fault(t: Template, indent: Seq<char>) -> Option<LayoutFault> {
    Emission::fresh(Seq::empty(), indent).block_fault(t)
}

/// Whether a new writer with the indent unit `indent` can emit `t`.
pub open spec fn renders(t: Template, indent: Seq<char>) -> bool {
    render_fault(t, indent) is None
}

/// Rendering is repeatable: two new writers with the same indent unit
/// come to the same text for the same block, and to that of `rendered`.
pub proof fn law_rendering_twice_gives_the_same_text(
    first: Emission,
    second: Emission,
    t: Template,
    indent: Seq<char>,
)
    requires
        first == Emission::fresh(Seq::empty(), indent),
        second == Emission::fresh(Seq::empty(), indent),
    ensures
        first.after_block(t).layout.after_close().out == second.after_block(
            t,
        ).layout.after_close().out,
        first.after_block(t).layout.after_close().out == rendered(t, indent),
{
}

/// What a new writer adds to its sink for a block does not depend on what
/// the sink holds: it is the text of `rendered`, behind what was there, and
/// the writer meets the fault of `render_fault`, if any.
pub proof fn law_rendering_ignores_the_sink(out: Seq<char>, t: Template, indent: Seq<char>)
    ensures
        Emission::fresh(out, indent).after_block(t).layout.after_close().out == out + rendered(
            t,
            indent,
        ),
        Emission::fresh(out, indent).block_fault(t) == render_fault(t, indent),
{
    let empty = Emission::fresh(Seq::empty(), indent);
    assert(out + Seq::<char>::empty() =~= out);
    assert(Emission::fresh(out, indent) == empty.behind(out));
    lemma_block_ignores_output(empty, out, t);
    lemma_flush_ignores_output(empty.after_block(t).layout, out);
    lemma_block_steers_alike(empty.behind(out), empty, t);
}

/// Renders `block` with a new writer, or returns the fault that the
/// writer meets.
pub fn try_render(block: &CodeBlock, indent: &'static str) -> (r: Result<String, LayoutFault>)
    ensures
        match render_fault(block@, indent@) {
            None => r is Ok && r->Ok_0@ == rendered(block@, indent@),
            Some(f) => r == Err::<String, LayoutFault>(f),
        },
{
    let mut out = String::new();
    let mut writer = CodeWriter::new(&mut out, indent);
    match writer.try_emit_block(block) {
        Ok(()) => {
            writer.close();
            Ok(out)
        },
        Err(f) => Err(f),
    }
}

/// Renders `block` with a new writer.
pub fn render(block: &CodeBlock, indent: &'static str) -> (r: String)
    requires
        renders(block@, indent@),
    ensures
        r@ == rendered(block@, indent@),
{
    let mut out = String::new();
    let mut writer = CodeWriter::new(&mut out, indent);
    writer.emit_block(block);
    writer.close();
    out
}

} // verus!
