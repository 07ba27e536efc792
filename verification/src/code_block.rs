//! Templates: percent-style format strings compiled into ordered parts that
//! refer to bound arguments.
use crate::class_name::StructName;
use crate::code_writer::{render, rendered, renders};
use crate::format::{lex, lexed, Piece, Token};
use crate::member_name::MemberName;
use crate::text::{chars_of, push_char};
use vstd::string::StringExecFns;
use vstd::prelude::*;

verus! {

/// What a placeholder asks the emitter to do.
#[derive(Clone, Copy, Debug, PartialEq, Eq, Structural)]
pub enum Directive {
    /// `%L`: the argument as it stands; a nested block is emitted in place.
    Literal,
    /// `%N`: a name; a type or a member is written as `%T` and `%M`
    /// write it.
    Name,
    /// `%S`: the argument as a string literal, dollar signs escaped.
    QuotedString,
    /// `%P`: the argument as a string literal that may hold templates.
    RawString,
    /// `%T`: a reference to a type, by its simple name where that is free.
    TypeRef,
    /// `%M`: a reference to a member, by its simple name where that is free.
    MemberRef,
    /// `%%`: a percent sign.
    PercentEscape,
    /// `⇥`: one indent level more.
    IndentIncrease,
    /// `⇤`: one indent level less.
    IndentDecrease,
    /// `«`: a statement begins; its second and later lines are indented by
    /// one level more.
    StatementBegin,
    /// `»`: the statement ends.
    StatementEnd,
}

/// Why a format string could not be compiled.
#[derive(Clone, Copy, Debug, PartialEq, Eq, Structural)]
pub enum FormatError {
    /// The escape character is followed by no directive letter, or by one
    /// that is not in the table.
    UnknownDirective,
    /// The doubled escape character carries an index.
    PercentEscapeHasIndex,
    /// Indexed and relative placeholders stand in one format string.
    MixedIndexing,
    /// A placeholder refers to an argument that was not given.
    IndexOutOfRange,
    /// An argument is referred to by no placeholder (strict compilation).
    UnusedArgument,
}

/// A type reference as the emitter sees it.
pub struct TypeModel {
    pub package_name: Seq<char>,
    pub simple_name: Seq<char>,
}

/// A member reference as the emitter sees it.
pub struct MemberModel {
    pub package_name: Seq<char>,
    pub enclosing: Option<TypeModel>,
    pub simple_name: Seq<char>,
}

/// The mathematical value of a format part.
pub enum PartModel {
    Text(Seq<char>),
    Placeholder { directive: Directive, index: Option<int> },
}

/// The mathematical value of an argument.
pub enum ArgModel {
    Literal(Seq<char>),
    Block(Template),
    Name(Seq<char>),
    Type(TypeModel),
    Member(MemberModel),
}

/// The mathematical value of a code block: its parts and its arguments.
pub struct Template {
    pub parts: Seq<PartModel>,
    pub args: Seq<ArgModel>,
}

/// One part of a compiled format string.
#[derive(Debug)]
pub enum FormatPart {
    /// Text that is written as it stands.
    Text(String),
    /// A directive, with the index of its argument where it takes one.
    Placeholder { directive: Directive, index: Option<usize> },
}

/// A value bound to a placeholder.
#[derive(Debug)]
pub enum Argument {
    /// Text that is written as it stands.
    Literal(String),
    /// A nested code block.
    Block(CodeBlock),
    /// A plain name.
    Name(String),
    /// A reference to a type.
    Type(StructName),
    /// A reference to a member.
    Member(MemberName),
}

/// A fragment of generated source: format parts and the arguments they
/// refer to. Code blocks are not checked to be well-formed target code.
#[derive(Debug)]
pub struct CodeBlock {
    pub format_parts: Vec<FormatPart>,
    pub args: Vec<Argument>,
}

impl View for FormatPart {
    type V = PartModel;

    open spec fn view(&self) -> PartModel {
        match self {
            FormatPart::Text(s) => PartModel::Text(s@),
            FormatPart::Placeholder { directive, index } => PartModel::Placeholder {
                directive: *directive,
                index: match index {
                    Some(i) => Some(*i as int),
                    None => None,
                },
            },
        }
    }
}

impl View for Argument {
    type V = ArgModel;

    open spec fn view(&self) -> ArgModel
        decreases self,
    {
        match self {
            Argument::Literal(s) => ArgModel::Literal(s@),
            Argument::Block(b) => ArgModel::Block(b.view()),
            Argument::Name(s) => ArgModel::Name(s@),
            Argument::Type(t) => ArgModel::Type(t@),
            Argument::Member(m) => ArgModel::Member(m@),
        }
    }
}

impl View for CodeBlock {
    type V = Template;

    open spec fn view(&self) -> Template
        decreases self,
    {
        Template {
            parts: Seq::new(self.format_parts@.len(), |i: int| self.format_parts@[i]@),
            args: Seq::new(
                self.args@.len(),
                |i: int|
                    if 0 <= i < self.args@.len() {
                        self.args@[i].view()
                    } else {
                        ArgModel::Literal(Seq::empty())
                    },
            ),
        }
    }
}

/// The views of a sequence of format parts, element by element.
pub open spec fn part_models(parts: Seq<FormatPart>) -> Seq<PartModel> {
    Seq::new(parts.len(), |i: int| parts[i]@)
}

/// The views of a sequence of arguments, element by element.
pub open spec fn arg_models(args: Seq<Argument>) -> Seq<ArgModel> {
    Seq::new(args.len(), |i: int| args[i]@)
}

/// Whether some token is an indexed placeholder.
pub open spec fn has_indexed(tokens: Seq<Token>) -> bool {
    exists|i: int| 0 <= i < tokens.len() && #[trigger] tokens[i] is Indexed
}

/// Whether some token is a relative placeholder.
pub open spec fn has_relative(tokens: Seq<Token>) -> bool {
    exists|i: int| 0 <= i < tokens.len() && #[trigger] tokens[i] is Relative
}

/// The number of relative placeholders among the first `i` tokens.
pub open spec fn rank(tokens: Seq<Token>, i: int) -> int
    decreases i,
{
    if i <= 0 {
        0
    } else if tokens[i - 1] is Relative {
        rank(tokens, i - 1) + 1
    } else {
        rank(tokens, i - 1)
    }
}

/// The zero-based position of the argument that token `i` refers to: the
/// written one for an indexed placeholder, the next one not yet taken for
/// a relative placeholder, none for other tokens.
pub open spec fn position(tokens: Seq<Token>, i: int) -> Option<int> {
    match tokens[i] {
        Token::Relative(_) => Some(rank(tokens, i)),
        Token::Indexed(_, at) => Some(at),
        _ => None,
    }
}

/// Whether token `i` refers to one of `n` arguments, or to none at all.
pub open spec fn refers_within(tokens: Seq<Token>, i: int, n: int) -> bool {
    match position(tokens, i) {
        Some(at) => 0 <= at < n,
        None => true,
    }
}

/// Whether every placeholder refers to one of `n` arguments.
pub open spec fn in_range(tokens: Seq<Token>, n: int) -> bool {
    forall|i: int| 0 <= i < tokens.len() ==> #[trigger] refers_within(tokens, i, n)
}

/// Whether one of the first `k` tokens refers to argument `a`.
pub open spec fn used_by(tokens: Seq<Token>, k: int, a: int) -> bool {
    exists|i: int| 0 <= i < k && #[trigger] position(tokens, i) == Some(a)
}

/// Whether each of `n` arguments is referred to by some placeholder.
pub open spec fn all_used(tokens: Seq<Token>, n: int) -> bool {
    forall|a: int| 0 <= a < n ==> #[trigger] used_by(tokens, tokens.len() as int, a)
}

/// The format part that token `i` becomes in a block that already holds
/// `base` arguments.
pub open spec fn part_of(tokens: Seq<Token>, i: int, base: int) -> PartModel {
    match tokens[i] {
        Token::Text(text) => PartModel::Text(text),
        Token::Marker(directive) => PartModel::Placeholder { directive, index: None },
        Token::Relative(directive) => PartModel::Placeholder {
            directive,
            index: Some(base + rank(tokens, i)),
        },
        Token::Indexed(directive, at) => PartModel::Placeholder { directive, index: Some(base + at) },
        Token::Bad(_) => PartModel::Text(Seq::empty()),
    }
}

/// The format parts that `tokens` become.
pub open spec fn parts_of(tokens: Seq<Token>, base: int) -> Seq<PartModel> {
    Seq::new(tokens.len(), |i: int| part_of(tokens, i, base))
}

/// The error of the first token from index `from` on that is no
/// directive, if there is one.
pub open spec fn first_bad(tokens: Seq<Token>, from: int) -> Option<FormatError>
    decreases tokens.len() - from,
{
    if from < 0 || from >= tokens.len() {
        None
    } else if let Token::Bad(e) = tokens[from] {
        Some(e)
    } else {
        first_bad(tokens, from + 1)
    }
}

/// What binding `tokens` to `n` arguments gives: the format parts for a
/// block that already holds `base` arguments, or the error.
///
/// Tokens that mix indexed and relative placeholders are refused first,
/// then the first token that is no directive, then a reference to an
/// argument that is not there, then, in strict compilation, an argument
/// that is left unused.
pub open spec fn bound(tokens: Seq<Token>, n: int, strict: bool, base: int) -> Result<
    Seq<PartModel>,
    FormatError,
> {
    if has_indexed(tokens) && has_relative(tokens) {
        Err(FormatError::MixedIndexing)
    } else if let Some(e) = first_bad(tokens, 0) {
        Err(e)
    } else if !in_range(tokens, n) {
        Err(FormatError::IndexOutOfRange)
    } else if strict && !all_used(tokens, n) {
        Err(FormatError::UnusedArgument)
    } else {
        Ok(parts_of(tokens, base))
    }
}

/// What compiling `format` against `n` arguments gives: the format parts
/// for a block that already holds `base` arguments, or the error.
pub open spec fn compiled(format: Seq<char>, n: int, strict: bool, base: int) -> Result<
    Seq<PartModel>,
    FormatError,
> {
    bound(lexed(format), n, strict, base)
}

/// Whether the directive takes an argument.
pub open spec fn takes_argument(directive: Directive) -> bool {
    match directive {
        Directive::Literal => true,
        Directive::Name => true,
        Directive::QuotedString => true,
        Directive::RawString => true,
        Directive::TypeRef => true,
        Directive::MemberRef => true,
        _ => false,
    }
}

/// Whether a token holds a directive of its own kind: a marker takes no
/// argument, a placeholder takes one.
pub open spec fn token_sound(token: Token) -> bool {
    match token {
        Token::Marker(d) => !takes_argument(d),
        Token::Relative(d) => takes_argument(d),
        Token::Indexed(d, _) => takes_argument(d),
        _ => true,
    }
}

/// Every token of a format string holds a directive of its own kind.
pub proof fn lemma_lexed_tokens_are_sound(format: Seq<char>, pos: int)
    requires
        0 <= pos,
    ensures
        forall|i: int|
            0 <= i < crate::format::lexed_from(format, pos).len() ==> token_sound(
                #[trigger] crate::format::lexed_from(format, pos)[i],
            ),
    decreases format.len() - pos,
{
    if pos < format.len() {
        let next = crate::format::token_end(format, pos);
        let rest = crate::format::lexed_from(format, next);
        let all = crate::format::lexed_from(format, pos);
        crate::format::lemma_token_end_bounds(format, pos);
        lemma_lexed_tokens_are_sound(format, next);
        assert(token_sound(crate::format::token_at(format, pos)));
        assert(all == seq![crate::format::token_at(format, pos)] + rest);
        assert forall|i: int| 0 <= i < all.len() implies token_sound(#[trigger] all[i]) by {
            if i > 0 {
                assert(all[i] == rest[i - 1]);
            }
        }
    }
}

/// A format that holds an indexed and a relative placeholder is refused
/// as mixed indexing, whatever else it holds, whatever the arguments, and
/// in either mode of compilation.
pub proof fn law_mixed_indexing_is_refused(format: Seq<char>, n: int, strict: bool, base: int)
    requires
        has_indexed(lexed(format)),
        has_relative(lexed(format)),
    ensures
        compiled(format, n, strict, base) == Err::<Seq<PartModel>, FormatError>(
            FormatError::MixedIndexing,
        ),
{
}

/// A format that compiles keeps to one way of indexing.
pub proof fn law_compiled_formats_index_one_way(format: Seq<char>, n: int, strict: bool, base: int)
    requires
        compiled(format, n, strict, base) is Ok,
    ensures
        !(has_indexed(lexed(format)) && has_relative(lexed(format))),
{
}

/// In the parts of a compiled format every placeholder that takes an
/// argument refers to one of the `n` arguments it was compiled against,
/// and no other placeholder carries an index.
pub proof fn law_compiled_parts_are_resolved(format: Seq<char>, n: int, strict: bool, base: int)
    requires
        compiled(format, n, strict, base) is Ok,
    ensures
        forall|i: int|
            0 <= i < compiled(format, n, strict, base)->Ok_0.len() ==> match (
            #[trigger] compiled(format, n, strict, base)->Ok_0[i]) {
                PartModel::Text(_) => true,
                PartModel::Placeholder { directive, index } => match index {
                    Some(at) => takes_argument(directive) && base <= at < base + n,
                    None => !takes_argument(directive),
                },
            },
{
    let tokens = lexed(format);
    let parts = compiled(format, n, strict, base)->Ok_0;
    lemma_lexed_tokens_are_sound(format, 0);
    assert forall|i: int| 0 <= i < parts.len() implies match (#[trigger] parts[i]) {
        PartModel::Text(_) => true,
        PartModel::Placeholder { directive, index } => match index {
            Some(at) => takes_argument(directive) && base <= at < base + n,
            None => !takes_argument(directive),
        },
    } by {
        assert(token_sound(tokens[i]));
        assert(refers_within(tokens, i, n));
        assert(parts[i] == part_of(tokens, i, base));
    }
}

/// In strict compilation every argument is referred to by a placeholder
/// of the compiled parts.
pub proof fn law_strict_formats_use_every_argument(format: Seq<char>, n: int, base: int, a: int)
    requires
        compiled(format, n, true, base) is Ok,
        0 <= a < n,
    ensures
        exists|i: int|
            0 <= i < compiled(format, n, true, base)->Ok_0.len() && (#[trigger] compiled(
                format,
                n,
                true,
                base,
            )->Ok_0[i]) is Placeholder && compiled(
                format,
                n,
                true,
                base,
            )->Ok_0[i]->index == Some(base + a),
{
    let tokens = lexed(format);
    let parts = compiled(format, n, true, base)->Ok_0;
    assert(used_by(tokens, tokens.len() as int, a));
    let i = choose|i: int| 0 <= i < tokens.len() && #[trigger] position(tokens, i) == Some(a);
    assert(parts[i] == part_of(tokens, i, base));
}

/// A block whose placeholders refer to its own arguments still does so
/// when a compiled format and the arguments it was compiled against are
/// added behind.
pub proof fn law_added_formats_keep_indices_bound(
    t: Template,
    format: Seq<char>,
    args: Seq<ArgModel>,
    strict: bool,
)
    requires
        t.indices_bound(),
        compiled(format, args.len() as int, strict, t.args.len() as int) is Ok,
    ensures
        t.extended(
            compiled(format, args.len() as int, strict, t.args.len() as int)->Ok_0,
            args,
        ).indices_bound(),
{
    let parts = compiled(format, args.len() as int, strict, t.args.len() as int)->Ok_0;
    let grown = t.extended(parts, args);
    law_compiled_parts_are_resolved(format, args.len() as int, strict, t.args.len() as int);
    assert forall|i: int| 0 <= i < grown.parts.len() implies match #[trigger] grown.parts[i] {
        PartModel::Placeholder { directive: _, index: Some(at) } => 0 <= at < grown.args.len(),
        _ => true,
    } by {
        if i < t.parts.len() {
            assert(grown.parts[i] == t.parts[i]);
        } else {
            assert(grown.parts[i] == parts[i - t.parts.len()]);
        }
    }
}

impl Template {
    /// The block without parts or arguments.
    pub open spec fn empty() -> Template {
        Template { parts: Seq::empty(), args: Seq::empty() }
    }

    /// The block with further parts and arguments behind its own.
    pub open spec fn extended(self, parts: Seq<PartModel>, args: Seq<ArgModel>) -> Template {
        Template { parts: self.parts + parts, args: self.args + args }
    }

    /// Whether every placeholder that carries an index refers to an
    /// argument of the block.
    pub open spec fn indices_bound(self) -> bool {
        forall|i: int|
            0 <= i < self.parts.len() ==> match #[trigger] self.parts[i] {
                PartModel::Placeholder { directive: _, index: Some(at) } => 0 <= at
                    < self.args.len(),
                _ => true,
            }
    }
}

/// Whether the binder's result is what the tokens are bound to.
pub open spec fn bind_agrees(
    got: Result<Vec<FormatPart>, FormatError>,
    expected: Result<Seq<PartModel>, FormatError>,
) -> bool {
    match (got, expected) {
        (Ok(parts), Ok(models)) => part_models(parts@) == models,
        (Err(e), Err(f)) => e == f,
        _ => false,
    }
}

/// Binds the scanner's pieces to `n` arguments.
fn bind(
    pieces: &Vec<Piece>,
    n: usize,
    strict: bool,
    base: usize,
    Ghost(tokens): Ghost<Seq<Token>>,
) -> (r: Result<Vec<FormatPart>, FormatError>)
    requires
        crate::format::pieces_are(pieces@, tokens),
        base + n <= usize::MAX,
    ensures
        bind_agrees(r, bound(tokens, n as int, strict, base as int)),
{
    let mut indexed = false;
    let mut relative = false;
    let mut k: usize = 0;
    while k < pieces.len()
        invariant
            k <= pieces.len(),
            crate::format::pieces_are(pieces@, tokens),
            indexed <==> exists|i: int| 0 <= i < k && #[trigger] tokens[i] is Indexed,
            relative <==> exists|i: int| 0 <= i < k && #[trigger] tokens[i] is Relative,
        decreases pieces.len() - k,
    {
        assert(crate::format::piece_is(pieces@[k as int], tokens[k as int]));
        match &pieces[k] {
            Piece::Indexed(_, _) => {
                indexed = true;
            },
            Piece::Relative(_) => {
                relative = true;
            },
            _ => {},
        }
        k = k + 1;
    }
    assert(indexed == has_indexed(tokens) && relative == has_relative(tokens));
    if indexed && relative {
        return Err(FormatError::MixedIndexing);
    }
    let mut k: usize = 0;
    while k < pieces.len()
        invariant
            k <= pieces.len(),
            crate::format::pieces_are(pieces@, tokens),
            !(has_indexed(tokens) && has_relative(tokens)),
            first_bad(tokens, k as int) == first_bad(tokens, 0),
        decreases pieces.len() - k,
    {
        assert(crate::format::piece_is(pieces@[k as int], tokens[k as int]));
        if let Piece::Bad(e) = &pieces[k] {
            return Err(*e);
        }
        k = k + 1;
    }
    let mut used: Vec<bool> = Vec::new();
    let mut a: usize = 0;
    while a < n
        invariant
            a <= n,
            used.len() == a,
            forall|j: int| 0 <= j < a ==> !used@[j],
        decreases n - a,
    {
        used.push(false);
        a = a + 1;
    }
    let mut parts: Vec<FormatPart> = Vec::new();
    let mut cursor: usize = 0;
    let mut k: usize = 0;
    while k < pieces.len()
        invariant
            k <= pieces.len(),
            crate::format::pieces_are(pieces@, tokens),
            base + n <= usize::MAX,
            !(has_indexed(tokens) && has_relative(tokens)),
            first_bad(tokens, 0) is None,
            cursor == rank(tokens, k as int),
            cursor <= k,
            parts.len() == k,
            used.len() == n,
            forall|i: int| 0 <= i < k ==> #[trigger] refers_within(tokens, i, n as int),
            forall|i: int| 0 <= i < k ==> (#[trigger] parts@[i])@ == part_of(tokens, i, base as int),
            forall|j: int| 0 <= j < n ==> (#[trigger] used@[j] <==> used_by(tokens, k as int, j)),
        decreases pieces.len() - k,
    {
        assert(crate::format::piece_is(pieces@[k as int], tokens[k as int]));
        let ghost before = used@;
        let found: Option<usize>;
        let part: FormatPart;
        match &pieces[k] {
            Piece::Text(text) => {
                found = None;
                part = FormatPart::Text(text.clone());
            },
            Piece::Marker(directive) => {
                found = None;
                part = FormatPart::Placeholder { directive: *directive, index: None };
            },
            Piece::Relative(directive) => {
                if cursor >= n {
                    assert(!refers_within(tokens, k as int, n as int));
                    return Err(FormatError::IndexOutOfRange);
                }
                found = Some(cursor);
                part = FormatPart::Placeholder { directive: *directive, index: Some(base + cursor) };
            },
            Piece::Bad(_) => {
                found = None;
                part = FormatPart::Text(String::new());
            },
            Piece::Indexed(directive, at) => {
                match at {
                    Some(at) => {
                        if *at >= n {
                            assert(!refers_within(tokens, k as int, n as int));
                            return Err(FormatError::IndexOutOfRange);
                        }
                        found = Some(*at);
                        part = FormatPart::Placeholder {
                            directive: *directive,
                            index: Some(base + *at),
                        };
                    },
                    None => {
                        assert(!refers_within(tokens, k as int, n as int));
                        return Err(FormatError::IndexOutOfRange);
                    },
                }
            },
        }
        assert(part@ == part_of(tokens, k as int, base as int));
        assert(refers_within(tokens, k as int, n as int));
        match found {
            Some(at) => {
                assert(position(tokens, k as int) == Some(at as int));
                used.set(at, true);
                if let Piece::Relative(_) = &pieces[k] {
                    cursor = cursor + 1;
                }
            },
            None => {
                assert(position(tokens, k as int) is None);
            },
        }
        parts.push(part);
        proof {
            assert forall|j: int| 0 <= j < n implies (#[trigger] used@[j] <==> used_by(
                tokens,
                k + 1,
                j,
            )) by {
                if used_by(tokens, k as int, j) {
                    let i = choose|i: int| 0 <= i < k && #[trigger] position(tokens, i) == Some(j);
                    assert(0 <= i < k + 1 && position(tokens, i) == Some(j));
                }
                if used_by(tokens, k + 1, j) {
                    let i = choose|i: int|
                        0 <= i < k + 1 && #[trigger] position(tokens, i) == Some(j);
                    if i < k {
                        assert(used_by(tokens, k as int, j));
                    }
                }
            }
        }
        k = k + 1;
    }
    if strict {
        let mut a: usize = 0;
        while a < n
            invariant
                a <= n,
                strict,
                used.len() == n,
                !(has_indexed(tokens) && has_relative(tokens)),
                first_bad(tokens, 0) is None,
                in_range(tokens, n as int),
                forall|j: int| 0 <= j < a ==> #[trigger] used_by(tokens, tokens.len() as int, j),
                forall|j: int|
                    0 <= j < n ==> (#[trigger] used@[j] <==> used_by(
                        tokens,
                        tokens.len() as int,
                        j,
                    )),
            decreases n - a,
        {
            if !used[a] {
                assert(!used_by(tokens, tokens.len() as int, a as int));
                return Err(FormatError::UnusedArgument);
            }
            a = a + 1;
        }
    }
    assert(part_models(parts@) =~= parts_of(tokens, base as int));
    Ok(parts)
}

impl FormatPart {
    /// A copy of the part.
    pub fn duplicate(&self) -> (r: FormatPart)
        ensures
            r@ == self@,
    {
        match self {
            FormatPart::Text(text) => FormatPart::Text(text.clone()),
            FormatPart::Placeholder { directive, index } => FormatPart::Placeholder {
                directive: *directive,
                index: *index,
            },
        }
    }
}

impl Argument {
    /// A copy of the argument, nested blocks included.
    pub fn duplicate(&self) -> (r: Argument)
        ensures
            r@ == self@,
        decreases self,
    {
        match self {
            Argument::Literal(text) => Argument::Literal(text.clone()),
            Argument::Block(block) => Argument::Block(block.duplicate()),
            Argument::Name(name) => Argument::Name(name.clone()),
            Argument::Type(name) => Argument::Type(name.clone()),
            Argument::Member(name) => Argument::Member(name.clone()),
        }
    }
}

/// A copy of `parts`.
pub fn duplicate_parts(parts: &Vec<FormatPart>) -> (r: Vec<FormatPart>)
    ensures
        part_models(r@) == part_models(parts@),
{
    let mut copy: Vec<FormatPart> = Vec::new();
    let mut i: usize = 0;
    while i < parts.len()
        invariant
            i <= parts.len(),
            copy.len() == i,
            forall|j: int| 0 <= j < i ==> (#[trigger] copy@[j])@ == parts@[j]@,
        decreases parts.len() - i,
    {
        copy.push(parts[i].duplicate());
        i = i + 1;
    }
    assert(part_models(copy@) =~= part_models(parts@));
    copy
}

/// A copy of `args`, nested blocks included.
pub fn duplicate_args(args: &Vec<Argument>) -> (r: Vec<Argument>)
    ensures
        arg_models(r@) == arg_models(args@),
    decreases args,
{
    let mut copy: Vec<Argument> = Vec::new();
    let mut i: usize = 0;
    while i < args.len()
        invariant
            i <= args.len(),
            copy.len() == i,
            forall|j: int| 0 <= j < i ==> (#[trigger] copy@[j])@ == args@[j]@,
        decreases args.len() - i,
    {
        copy.push(args[i].duplicate());
        i = i + 1;
    }
    assert(arg_models(copy@) =~= arg_models(args@));
    copy
}

impl CodeBlock {
    /// The block's value is its parts and arguments, element by element.
    pub proof fn lemma_view(&self)
        ensures
            self@ == (Template {
                parts: part_models(self.format_parts@),
                args: arg_models(self.args@),
            }),
    {
        assert(self@.parts =~= part_models(self.format_parts@));
        assert(self@.args =~= arg_models(self.args@));
    }

    /// The block that `builder` describes.
    pub fn new(builder: &CodeBlockBuilder) -> (r: Self)
        ensures
            r@ == builder@,
    {
        let r = CodeBlock {
            format_parts: duplicate_parts(&builder.format_parts),
            args: duplicate_args(&builder.args),
        };
        proof {
            r.lemma_view();
        }
        r
    }

    /// Compiles `format` against `args`: the block of its parts and the
    /// arguments, or the error of the format.
    pub fn of(format: &str, args: Vec<Argument>) -> (r: Result<CodeBlock, FormatError>)
        ensures
            match compiled(format@, args.len() as int, false, 0) {
                Ok(parts) => r is Ok && r->Ok_0@ == (Template {
                    parts,
                    args: arg_models(args@),
                }),
                Err(e) => r == Err::<CodeBlock, FormatError>(e),
            },
    {
        let mut builder = CodeBlockBuilder::new();
        match builder.add(format, args) {
            Ok(()) => {
                let block = CodeBlock { format_parts: builder.format_parts, args: builder.args };
                proof {
                    block.lemma_view();
                    assert(block@.parts =~= compiled(format@, args.len() as int, false, 0)->Ok_0);
                    assert(block@.args =~= arg_models(args@));
                }
                Ok(block)
            },
            Err(e) => Err(e),
        }
    }

    /// The text of the block as a new writer with the default indent
    /// renders it.
    pub fn to_string(&self) -> (r: String)
        requires
            renders(self@, crate::DEFAULT_INDENT@),
        ensures
            r@ == rendered(self@, crate::DEFAULT_INDENT@),
    {
        render(self, crate::DEFAULT_INDENT)
    }

    /// A copy of the block, nested blocks included.
    pub fn duplicate(&self) -> (r: CodeBlock)
        ensures
            r@ == self@,
        decreases self,
    {
        let r = CodeBlock {
            format_parts: duplicate_parts(&self.format_parts),
            args: duplicate_args(&self.args),
        };
        proof {
            r.lemma_view();
            self.lemma_view();
        }
        r
    }
}

impl Clone for FormatPart {
    fn clone(&self) -> (r: Self)
        ensures
            r@ == self@,
    {
        self.duplicate()
    }
}

impl Clone for Argument {
    fn clone(&self) -> (r: Self)
        ensures
            r@ == self@,
    {
        self.duplicate()
    }
}

impl Clone for CodeBlock {
    fn clone(&self) -> (r: Self)
        ensures
            r@ == self@,
    {
        self.duplicate()
    }
}

/// Collects the parts and arguments of a code block, one format string at
/// a time.
#[derive(Debug)]
pub struct CodeBlockBuilder {
    pub format_parts: Vec<FormatPart>,
    pub args: Vec<Argument>,
}

impl View for CodeBlockBuilder {
    type V = Template;

    open spec fn view(&self) -> Template {
        Template { parts: part_models(self.format_parts@), args: arg_models(self.args@) }
    }
}

impl Clone for CodeBlockBuilder {
    fn clone(&self) -> (r: Self)
        ensures
            r@ == self@,
    {
        CodeBlockBuilder {
            format_parts: duplicate_parts(&self.format_parts),
            args: duplicate_args(&self.args),
        }
    }
}

impl CodeBlockBuilder {
    /// A builder without parts or arguments.
    pub fn new() -> (r: Self)
        ensures
            r@ == Template::empty(),
    {
        let r = CodeBlockBuilder { format_parts: Vec::new(), args: Vec::new() };
        assert(r@.parts =~= Seq::empty());
        assert(r@.args =~= Seq::empty());
        r
    }

    /// The block collected so far.
    pub fn build(&self) -> (r: CodeBlock)
        ensures
            r@ == self@,
    {
        CodeBlock::new(self)
    }

    /// Adds nothing: control flow is written as text and markers through
    /// `add`.
    pub fn next_control_flow(&mut self, _control_flow: &'static str, _args: String)
        ensures
            *final(self) == *old(self),
    {
    }

    /// Adds nothing: control flow is written as text and markers through
    /// `add`.
    pub fn end_control_flow_none(&mut self)
        ensures
            *final(self) == *old(self),
    {
    }

    /// Adds nothing: control flow is written as text and markers through
    /// `add`.
    pub fn end_control_flow(&mut self, _control_flow: &'static str, _args: String)
        ensures
            *final(self) == *old(self),
    {
    }

    /// Adds nothing: a statement is written as text between the statement
    /// markers through `add`.
    pub fn add_statement(&mut self, _control_flow: &'static str, _args: String)
        ensures
            *final(self) == *old(self),
    {
    }

    /// Compiles `format` against `args` and adds the parts and the
    /// arguments behind those the builder holds. Placeholders either all
    /// carry a one-based index or all take the next argument in turn. On an
    /// error the builder is left as it was.
    pub fn add(&mut self, format: &str, args: Vec<Argument>) -> (r: Result<(), FormatError>)
        ensures
            match compiled(format@, args.len() as int, false, old(self).args.len() as int) {
                Ok(parts) => r is Ok && final(self)@ == old(self)@.extended(
                    parts,
                    arg_models(args@),
                ),
                Err(e) => r == Err::<(), FormatError>(e) && final(self)@ == old(self)@,
            },
    {
        self.add_with(format, args, false)
    }

    /// As `add`, and refuses a format that leaves an argument unused.
    pub fn add_strict(&mut self, format: &str, args: Vec<Argument>) -> (r: Result<
        (),
        FormatError,
    >)
        ensures
            match compiled(format@, args.len() as int, true, old(self).args.len() as int) {
                Ok(parts) => r is Ok && final(self)@ == old(self)@.extended(
                    parts,
                    arg_models(args@),
                ),
                Err(e) => r == Err::<(), FormatError>(e) && final(self)@ == old(self)@,
            },
    {
        self.add_with(format, args, true)
    }

    /// `add` or `add_strict`, by the flag.
    fn add_with(&mut self, format: &str, args: Vec<Argument>, strict: bool) -> (r: Result<
        (),
        FormatError,
    >)
        ensures
            match compiled(format@, args.len() as int, strict, old(self).args.len() as int) {
                Ok(parts) => r is Ok && final(self)@ == old(self)@.extended(
                    parts,
                    arg_models(args@),
                ),
                Err(e) => r == Err::<(), FormatError>(e) && final(self)@ == old(self)@,
            },
    {
        let chars = chars_of(format);
        let pieces = lex(&chars);
        let ghost tokens = lexed(format@);
        let base = self.args.len();
        let n = args.len();
        let mut args = args;
        let ghost added = arg_models(args@);
        self.args.append(&mut args);
        let total = self.args.len();
        assert(total == base + n);
        match bind(&pieces, n, strict, base, Ghost(tokens)) {
            Ok(parts) => {
                let mut parts = parts;
                let ghost new_parts = part_models(parts@);
                self.format_parts.append(&mut parts);
                assert(self@.parts =~= old(self)@.parts + new_parts);
                assert(self@.args =~= old(self)@.args + added);
                Ok(())
            },
            Err(e) => {
                self.args.truncate(base);
                assert(self@.parts =~= old(self)@.parts);
                assert(self@.args =~= old(self)@.args);
                Err(e)
            },
        }
    }

    /// Whether `c`, after the escape character, stands for a placeholder
    /// that takes no argument.
    pub fn is_multi_char_no_arg_placeholder(c: char) -> (r: bool)
        ensures
            r == (c == '%'),
    {
        c == '%'
    }

    /// `s` followed by `c`.
    pub fn merge_str_c(s: &str, c: char) -> (r: String)
        ensures
            r@ == s@.push(c),
    {
        let mut merged = String::from_str(s);
        push_char(&mut merged, c);
        merged
    }

    /// Binds `arg` as a literal when `c` is the letter of the literal
    /// directive; leaves the builder as it is for any other letter.
    pub fn add_argument(&mut self, _format: &str, c: char, arg: String)
        ensures
            c == 'L' ==> final(self)@ == old(self)@.extended(
                Seq::empty(),
                seq![ArgModel::Literal(arg@)],
            ),
            c != 'L' ==> *final(self) == *old(self),
    {
        if c == 'L' {
            self.args.push(Argument::Literal(self.arg_to_literal(arg)));
            assert(self@.parts =~= old(self)@.parts + Seq::<PartModel>::empty());
            assert(self@.args =~= old(self)@.args + seq![ArgModel::Literal(arg@)]);
        }
    }

    /// The text that a literal argument is written as: the argument.
    pub fn arg_to_literal(&self, arg: String) -> (r: String)
        ensures
            r == arg,
    {
        arg
    }

    /// Adds a part that lowers the indent level.
    pub fn unindent(&mut self)
        ensures
            final(self)@ == old(self)@.extended(
                seq![
                    PartModel::Placeholder { directive: Directive::IndentDecrease, index: None },
                ],
                Seq::empty(),
            ),
    {
        self.format_parts.push(
            FormatPart::Placeholder { directive: Directive::IndentDecrease, index: None },
        );
        assert(self@.parts =~= old(self)@.parts + seq![
            PartModel::Placeholder { directive: Directive::IndentDecrease, index: None },
        ]);
        assert(self@.args =~= old(self)@.args + Seq::<ArgModel>::empty());
    }

    /// Adds a part that raises the indent level.
    pub fn indent(&mut self)
        ensures
            final(self)@ == old(self)@.extended(
                seq![
                    PartModel::Placeholder { directive: Directive::IndentIncrease, index: None },
                ],
                Seq::empty(),
            ),
    {
        self.format_parts.push(
            FormatPart::Placeholder { directive: Directive::IndentIncrease, index: None },
        );
        assert(self@.parts =~= old(self)@.parts + seq![
            PartModel::Placeholder { directive: Directive::IndentIncrease, index: None },
        ]);
        assert(self@.args =~= old(self)@.args + Seq::<ArgModel>::empty());
    }
}

} // verus!
