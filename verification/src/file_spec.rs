//! Files: a package and a name, written through a code writer.
use crate::code_block::{
    ArgModel, Argument, CodeBlock, Directive, FormatPart, MemberModel, PartModel, Template,
    TypeModel,
};
use crate::code_writer::{
    alike, lemma_block_steers_alike, lemma_text_fits_outside_statement, qualified_member,
    qualified_member_name, qualified_type, qualified_type_name, CodeWriter, Emission,
};
use crate::line_wrapper::LayoutFault;
use crate::sorting::{sort_names, sorted};
use crate::text::texts;
use vstd::prelude::*;
use vstd::string::StrSliceExecFns;
use vstd::string::StringExecFns;

verus! {

/// The block that declares the package `name`: the keyword, a space that
/// does not wrap, the name and a newline.
pub open spec fn package_line(name: Seq<char>) -> Template {
    Template {
        parts: seq![
            PartModel::Text("package·"@),
            PartModel::Placeholder { directive: Directive::Literal, index: Some(0) },
            PartModel::Text("\n"@),
        ],
        args: seq![ArgModel::Literal(name)],
    }
}

/// Outside a statement a writer that can go on meets no fault on the
/// package declaration, and can go on behind it, at the same indent level
/// and with the same tables.
pub proof fn lemma_package_line_fits(st: Emission, name: Seq<char>)
    requires
        st.ok(),
        st.statement_line == -1,
    ensures
        st.block_fault(package_line(name)) is None,
        st.after_block(package_line(name)).ok(),
        st.after_block(package_line(name)).statement_line == -1,
        st.after_block(package_line(name)).indent_level == st.indent_level,
        st.after_block(package_line(name)).import_types == st.import_types,
        st.after_block(package_line(name)).import_members == st.import_members,
        st.after_block(package_line(name)).package_name == st.package_name,
        st.after_block(package_line(name)).layout.indent == st.layout.indent,
{
    let t = package_line(name);
    lemma_text_fits_outside_statement(st, "package·"@, 0);
    let s1 = st.after_part(t.parts[0], t.args);
    assert(s1 == st.after_text("package·"@));
    lemma_text_fits_outside_statement(s1, name, 0);
    let s2 = s1.after_part(t.parts[1], t.args);
    assert(s2 == s1.after_text(name));
    lemma_text_fits_outside_statement(s2, "\n"@, 0);
    let s3 = s2.after_part(t.parts[2], t.args);
    assert(s3 == s2.after_text("\n"@));
    assert(s3.parts_fault(t.parts, t.args, 3) is None);
    assert(s3.after_parts(t.parts, t.args, 3) == s3);
    assert(s2.part_fault(t.parts[2], t.args) is None);
    assert(s2.parts_fault(t.parts, t.args, 2) is None);
    assert(s2.after_parts(t.parts, t.args, 2) == s3);
    assert(s1.arg_fault(Directive::Literal, t.args[0]) is None);
    assert(s1.part_fault(t.parts[1], t.args) is None);
    assert(s1.parts_fault(t.parts, t.args, 1) is None);
    assert(s1.after_parts(t.parts, t.args, 1) == s3);
    assert(st.part_fault(t.parts[0], t.args) is None);
    assert(st.parts_fault(t.parts, t.args, 0) is None);
    assert(st.after_parts(t.parts, t.args, 0) == s3);
}

/// Whether a name of the package `package` is imported into a file of the
/// package `file_package`: it has a package, and another one.
pub open spec fn importable(package: Seq<char>, file_package: Seq<char>) -> bool {
    package.len() > 0 && package != file_package
}

/// The qualified names of the importable types among the first `k` of
/// `table`, in the order of the table.
pub open spec fn type_imports(table: Seq<TypeModel>, file_package: Seq<char>, k: int) -> Seq<
    Seq<char>,
>
    decreases k,
{
    if k <= 0 {
        Seq::empty()
    } else if importable(table[k - 1].package_name, file_package) {
        type_imports(table, file_package, k - 1).push(qualified_type(table[k - 1]))
    } else {
        type_imports(table, file_package, k - 1)
    }
}

/// The qualified names of the importable members among the first `k` of
/// `table`, in the order of the table.
pub open spec fn member_imports(table: Seq<MemberModel>, file_package: Seq<char>, k: int) -> Seq<
    Seq<char>,
>
    decreases k,
{
    if k <= 0 {
        Seq::empty()
    } else if importable(table[k - 1].package_name, file_package) {
        member_imports(table, file_package, k - 1).push(qualified_member(table[k - 1]))
    } else {
        member_imports(table, file_package, k - 1)
    }
}

/// The names that a file imports when the writer `found` has gone through
/// its body: the importable types it met, then the importable members.
pub open spec fn import_names(found: Emission) -> Seq<Seq<char>> {
    type_imports(found.import_types, found.package_name, found.import_types.len() as int)
        + member_imports(
        found.import_members,
        found.package_name,
        found.import_members.len() as int,
    )
}

/// The line that imports `name`.
pub open spec fn import_line(name: Seq<char>) -> Seq<char> {
    "import·"@ + name + "\n"@
}

/// The state of a writer after the import lines of `names` from index `i`
/// on.
pub open spec fn after_imports(st: Emission, names: Seq<Seq<char>>, i: int) -> Emission
    decreases names.len() - i,
{
    if i < 0 || i >= names.len() {
        st
    } else {
        after_imports(st.after_text(import_line(names[i])), names, i + 1)
    }
}

/// The names that a file imports, as the writer has met them.
pub fn collect_imports(writer: &CodeWriter) -> (r: Vec<String>)
    ensures
        texts(r@) == import_names(writer@),
{
    let mut names: Vec<String> = Vec::new();
    let mut i: usize = 0;
    assert(texts(names@) =~= type_imports(writer@.import_types, writer@.package_name, 0));
    while i < writer.import_types.len()
        invariant
            i <= writer.import_types.len(),
            texts(names@) == type_imports(writer@.import_types, writer@.package_name, i as int),
        decreases writer.import_types.len() - i,
    {
        let t = &writer.import_types[i];
        let ghost before = texts(names@);
        assert(writer@.import_types[i as int] == t@);
        if t.package_name.as_str().unicode_len() > 0 && t.package_name != writer.package_name {
            names.push(qualified_type_name(t));
            assert(texts(names@) =~= before.push(qualified_type(t@)));
        }
        i = i + 1;
    }
    let ghost types = texts(names@);
    let mut k: usize = 0;
    assert(texts(names@) =~= types + member_imports(
        writer@.import_members,
        writer@.package_name,
        0,
    ));
    while k < writer.import_members.len()
        invariant
            k <= writer.import_members.len(),
            texts(names@) == types + member_imports(
                writer@.import_members,
                writer@.package_name,
                k as int,
            ),
        decreases writer.import_members.len() - k,
    {
        let m = &writer.import_members[k];
        let ghost before = texts(names@);
        assert(writer@.import_members[k as int] == m@);
        if m.package_name.as_str().unicode_len() > 0 && m.package_name != writer.package_name {
            names.push(qualified_member_name(m));
            assert(texts(names@) =~= before.push(qualified_member(m@)));
            assert(texts(names@) =~= types + member_imports(
                writer@.import_members,
                writer@.package_name,
                k + 1,
            ));
        }
        k = k + 1;
    }
    names
}

/// Writes the import line of each of `names`.
pub fn emit_imports(writer: &mut CodeWriter, names: &Vec<String>)
    requires
        old(writer)@.ok(),
        old(writer)@.statement_line == -1,
    ensures
        final(writer)@ == after_imports(old(writer)@, texts(names@), 0),
        final(writer)@.ok(),
        final(writer)@.statement_line == -1,
        final(writer)@.indent_level == old(writer)@.indent_level,
        final(writer)@.import_types == old(writer)@.import_types,
        final(writer)@.import_members == old(writer)@.import_members,
        final(writer)@.package_name == old(writer)@.package_name,
        final(writer)@.layout.indent == old(writer)@.layout.indent,
        *final(final(writer).out.out) == *final(old(writer).out.out),
{
    let mut i: usize = 0;
    while i < names.len()
        invariant
            i <= names.len(),
            writer@.ok(),
            writer@.statement_line == -1,
            writer@.indent_level == old(writer)@.indent_level,
            writer@.import_types == old(writer)@.import_types,
            writer@.import_members == old(writer)@.import_members,
            writer@.package_name == old(writer)@.package_name,
            writer@.layout.indent == old(writer)@.layout.indent,
            after_imports(writer@, texts(names@), i as int) == after_imports(
                old(writer)@,
                texts(names@),
                0,
            ),
            *final(writer.out.out) == *final(old(writer).out.out),
        decreases names.len() - i,
    {
        let mut line = String::from_str("import·");
        line.append(names[i].as_str());
        line.append("\n");
        proof {
            assert(texts(names@)[i as int] == names@[i as int]@);
            assert(line@ =~= import_line(texts(names@)[i as int]));
            lemma_text_fits_outside_statement(writer@, line@, 0);
        }
        writer.emit(line);
        i = i + 1;
    }
}

/// A source file with top-level declarations.
#[derive(Debug)]
pub struct FileSpec {
    pub package_name: &'static str,
    pub name: &'static str,
    pub indent: &'static str,
}

impl FileSpec {
    /// The file that `builder` describes.
    pub fn new(builder: &mut FileSpecBuilder) -> (r: Self)
        ensures
            *final(builder) == *old(builder),
            r.package_name == old(builder).package_name,
            r.name == old(builder).name,
            r.indent == old(builder).indent,
    {
        FileSpec { package_name: builder.package_name, name: builder.name, indent: builder.indent }
    }

    /// What a writer in state `st` comes to by emitting the file.
    pub open spec fn emitted(&self, st: Emission) -> Emission {
        (Emission { package_name: self.package_name@, ..st }).after_block(
            package_line(self.package_name@),
        )
    }

    /// Writes the file behind what `out` holds, with a new writer.
    pub fn write_to(&self, out: &mut String)
        ensures
            final(out)@ == self.emitted(
                Emission::fresh(old(out)@, self.indent@),
            ).layout.after_close().out,
    {
        let mut writer = CodeWriter::new(out, self.indent);
        self.emit(&mut writer);
        writer.close();
    }

    /// Sets the writer's package and emits the package declaration.
    pub fn emit(&self, writer: &mut CodeWriter)
        requires
            old(writer)@.ok(),
            old(writer)@.statement_line == -1,
        ensures
            final(writer)@ == self.emitted(old(writer)@),
            final(writer)@.ok(),
            *final(final(writer).out.out) == *final(old(writer).out.out),
    {
        writer.push_package(self.package_name);
        let mut parts: Vec<FormatPart> = Vec::new();
        parts.push(FormatPart::Text(String::from_str("package·")));
        parts.push(FormatPart::Placeholder { directive: Directive::Literal, index: Some(0) });
        parts.push(FormatPart::Text(String::from_str("\n")));
        let mut args: Vec<Argument> = Vec::new();
        args.push(Argument::Literal(String::from_str(self.package_name)));
        let block = CodeBlock { format_parts: parts, args };
        proof {
            let t = package_line(self.package_name@);
            block.lemma_view();
            assert(block@.parts =~= t.parts);
            assert(block@.args =~= t.args);
            lemma_package_line_fits(writer@, self.package_name@);
        }
        writer.emit_block(&block);
    }

    /// The state of the writer that has gone through `body` to find what
    /// the file imports.
    pub open spec fn discovered(&self, body: Template) -> Emission {
        (Emission {
            package_name: self.package_name@,
            ..Emission::fresh(Seq::empty(), self.indent@)
        }).after_block(body)
    }

    /// The state of the writer that has written the head of the file: the
    /// package declaration, an empty line, the import lines in order, and
    /// an empty line behind them where there are any.
    pub open spec fn headed(&self, body: Template) -> Emission {
        let names = sorted(import_names(self.discovered(body)));
        let imported = after_imports(
            self.emitted(Emission::fresh(Seq::empty(), self.indent@)).after_text("\n"@),
            names,
            0,
        );
        if names.len() > 0 {
            imported.after_text("\n"@)
        } else {
            imported
        }
    }

    /// The fault that the file with the content `body` meets, if any: the
    /// one that a new writer meets on the body.
    pub open spec fn file_fault(&self, body: Template) -> Option<LayoutFault> {
        (Emission {
            package_name: self.package_name@,
            ..Emission::fresh(Seq::empty(), self.indent@)
        }).block_fault(body)
    }

    /// The text of the file with the content `body`: the head, then the
    /// body.
    pub open spec fn file_text(&self, body: Template) -> Seq<char> {
        self.headed(body).after_block(body).layout.after_close().out
    }

    /// Renders the file with `body` as its content, in two passes. The
    /// first goes through the body with a sink that is thrown away, to
    /// find the types and members that the body refers to, and any fault.
    /// The second writes the package, the imports in order and the body.
    pub fn try_render_with(&self, body: &CodeBlock) -> (r: Result<String, LayoutFault>)
        ensures
            match self.file_fault(body@) {
                None => r is Ok && r->Ok_0@ == self.file_text(body@),
                Some(f) => r == Err::<String, LayoutFault>(f),
            },
    {
        let mut discard = String::new();
        let mut scout = CodeWriter::new(&mut discard, self.indent);
        scout.push_package(self.package_name);
        let ghost start = scout@;
        match scout.try_emit_block(body) {
            Err(f) => {
                return Err(f);
            },
            Ok(()) => {},
        }
        let names = sort_names(collect_imports(&scout));
        let mut out = String::new();
        let mut writer = CodeWriter::new(&mut out, self.indent);
        proof {
            lemma_package_line_fits(
                Emission { package_name: self.package_name@, ..writer@ },
                self.package_name@,
            );
        }
        self.emit(&mut writer);
        proof {
            lemma_text_fits_outside_statement(writer@, "\n"@, 0);
        }
        writer.emit(String::from_str("\n"));
        emit_imports(&mut writer, &names);
        if names.len() > 0 {
            proof {
                lemma_text_fits_outside_statement(writer@, "\n"@, 0);
            }
            writer.emit(String::from_str("\n"));
        }
        proof {
            assert(writer@ == self.headed(body@));
            assert(alike(start, writer@));
            lemma_block_steers_alike(start, writer@, body@);
        }
        writer.emit_block(body);
        writer.close();
        Ok(out)
    }
}

/// A file meets a fault only where a new writer meets one on its body:
/// the head that stands before the body in the second pass changes
/// nothing of that.
pub proof fn law_file_head_adds_no_fault(file: FileSpec, body: Template)
    ensures
        file.headed(body).block_fault(body) == file.file_fault(body),
{
    let fresh = Emission::fresh(Seq::empty(), file.indent@);
    let start = Emission { package_name: file.package_name@, ..fresh };
    let names = sorted(import_names(file.discovered(body)));
    lemma_package_line_fits(start, file.package_name@);
    let packaged = file.emitted(fresh);
    lemma_text_fits_outside_statement(packaged, "\n"@, 0);
    let spaced = packaged.after_text("\n"@);
    lemma_imports_fit(spaced, names, 0);
    let imported = after_imports(spaced, names, 0);
    if names.len() > 0 {
        lemma_text_fits_outside_statement(imported, "\n"@, 0);
    }
    lemma_block_steers_alike(start, file.headed(body), body);
}

/// Outside a statement a writer that can go on meets no fault on import
/// lines, and can go on behind them, at the same indent level and with
/// the same tables.
pub proof fn lemma_imports_fit(st: Emission, names: Seq<Seq<char>>, i: int)
    requires
        st.ok(),
        st.statement_line == -1,
        0 <= i,
    ensures
        after_imports(st, names, i).ok(),
        after_imports(st, names, i).statement_line == -1,
        after_imports(st, names, i).indent_level == st.indent_level,
        after_imports(st, names, i).import_types == st.import_types,
        after_imports(st, names, i).import_members == st.import_members,
        after_imports(st, names, i).package_name == st.package_name,
        after_imports(st, names, i).layout.indent == st.layout.indent,
    decreases names.len() - i,
{
    if i < names.len() {
        lemma_text_fits_outside_statement(st, import_line(names[i]), 0);
        lemma_imports_fit(st.after_text(import_line(names[i])), names, i + 1);
    }
}

/// Collects what a file is made of.
#[derive(Debug)]
pub struct FileSpecBuilder {
    pub package_name: &'static str,
    pub name: &'static str,
    pub indent: &'static str,
}

impl FileSpecBuilder {
    /// A builder for the file `file_name` in the package `package_name`,
    /// with the default indent.
    pub fn new(package_name: &'static str, file_name: &'static str) -> (r: Self)
        ensures
            r.package_name == package_name,
            r.name == file_name,
            r.indent == crate::DEFAULT_INDENT,
    {
        FileSpecBuilder { package_name, name: file_name, indent: crate::DEFAULT_INDENT }
    }

    /// Takes a comment for the head of the file; the file keeps none.
    pub fn add_file_comment(&self, _format: String) {
    }

    /// Imports are found from the body when the file is rendered; nothing
    /// is added here.
    pub fn add_import(&self) {
    }

    /// Type aliases are written as code blocks; nothing is added here.
    pub fn add_type_alias(&self) {
    }

    /// The file collected so far.
    pub fn build(&mut self) -> (r: FileSpec)
        ensures
            *final(self) == *old(self),
            r.package_name == old(self).package_name,
            r.name == old(self).name,
            r.indent == old(self).indent,
    {
        FileSpec::new(self)
    }
}

} // verus!
