//! Turns what the dusk passes report into protocol diagnostics, and decides which
//! pass runs next.
//!
//! Two entry points, split by what they cost. [`syntax_diagnostics`] works on a
//! single in-memory buffer and touches no other file, so it runs on every edit.
//! [`semantic_diagnostics`] speaks of the whole program as loaded from disk, names
//! and types across modules, so it runs on open and save.
//!
//! Neither runs a pass itself. Each is handed the reports that are in and answers
//! with the pass to run next, or with the diagnostics once they are settled.

use vstd::prelude::*;

use crate::compiler::ast::Module;
use crate::compiler::guard::{check, stop, TooComplex};
#[allow(unused_imports)]
use crate::compiler::guard::{guarded, reason_text};
#[allow(unused_imports)]
use crate::compiler::render::header_text;
use crate::compiler::symbols::Syntax;
#[allow(unused_imports)]
use crate::compiler::symbols::{details_of, range_of, symbols_of};
use crate::compiler::token::{Span, Token};
use crate::position::LineIndex;
#[allow(unused_imports)]
use crate::position::{fits, position_of};
use crate::protocol::{Diagnostic, DiagnosticSeverity, Position, Range};
#[allow(unused_imports)]
use crate::protocol::{diagnostic_models, DiagnosticModel};

verus! {

/// A message a dusk pass reports against a span.
#[derive(Debug)]
pub struct Diag {
    pub span: Span,
    pub msg: String,
}

/// What a report from dusk looks like to the editor. The compiler reports every
/// diagnostic as an error today, so severity is fixed until the compiler grows a
/// severity of its own.
pub open spec fn dusk_report(range: Range, message: Seq<char>) -> DiagnosticModel {
    DiagnosticModel {
        range,
        severity: Some(DiagnosticSeverity::Error),
        source: Some("dusk"@),
        message,
    }
}

/// A report against a text, ranged where its span falls.
pub open spec fn report(s: Seq<char>, d: Diag) -> DiagnosticModel {
    dusk_report(range_of(s, d.span), d.msg@)
}

/// Reports against a text, in order.
pub open spec fn reports(s: Seq<char>, list: Seq<Diag>) -> Seq<DiagnosticModel> {
    Seq::new(list.len(), |i: int| report(s, list[i]))
}

/// The note shown where a buffer was held back from the parser. It is tagged as
/// coming from vesper, not dusk, and warns rather than errors, since the code may
/// be perfectly valid, only too deep to analyze without risking the parser. The
/// range covers the token that first crossed the limit.
pub open spec fn guard_note(s: Seq<char>, why: TooComplex, span: Span) -> DiagnosticModel {
    DiagnosticModel {
        range: range_of(s, span),
        severity: Some(DiagnosticSeverity::Warning),
        source: Some("vesper"@),
        message: reason_text(why),
    }
}

/// Builds a protocol diagnostic tagged as coming from dusk.
fn dusk_diag(range: Range, message: &str) -> (d: Diagnostic)
    ensures
        d@ == dusk_report(range, message@),
{
    Diagnostic {
        range,
        severity: Some(DiagnosticSeverity::Error),
        source: Some("dusk".to_owned()),
        message: message.to_owned(),
    }
}

/// Converts one in-file diagnostic to a protocol diagnostic against `text`.
fn to_lsp(index: &LineIndex, text: &str, d: &Diag) -> (out: Diagnostic)
    requires
        index.maps(text@),
    ensures
        out@ == report(text@, *d),
{
    let range = Range::new(index.position(text, d.span.lo), index.position(text, d.span.hi));
    dusk_diag(range, d.msg.as_str())
}

/// Builds the note vesper shows where it held a buffer back from the parser. The
/// range covers the token that first crossed the limit.
fn guard_diag(index: &LineIndex, text: &str, why: TooComplex, span: Span) -> (out: Diagnostic)
    requires
        index.maps(text@),
    ensures
        out@ == guard_note(text@, why, span),
{
    let range = Range::new(index.position(text, span.lo), index.position(text, span.hi));
    Diagnostic {
        range,
        severity: Some(DiagnosticSeverity::Warning),
        source: Some("vesper".to_owned()),
        message: why.reason().to_owned(),
    }
}

/// Adds a diagnostic for each report, in order.
fn push_reports(out: &mut Vec<Diagnostic>, index: &LineIndex, text: &str, list: &[Diag])
    requires
        index.maps(text@),
    ensures
        diagnostic_models(final(out)@) == diagnostic_models(old(out)@) + reports(text@, list@),
{
    let mut i: usize = 0;
    while i < list.len()
        invariant
            index.maps(text@),
            0 <= i <= list@.len(),
            diagnostic_models(out@) =~= diagnostic_models(old(out)@) + reports(
                text@,
                list@,
            ).take(i as int),
        decreases list@.len() - i,
    {
        let ghost before = out@;
        out.push(to_lsp(index, text, &list[i]));
        assert(diagnostic_models(out@) =~= diagnostic_models(before).push(
            report(text@, list@[i as int]),
        ));
        assert(reports(text@, list@).take(i + 1) =~= reports(text@, list@).take(i as int).push(
            report(text@, list@[i as int]),
        ));
        i += 1;
    }
    assert(reports(text@, list@).take(i as int) =~= reports(text@, list@));
}

/// What to do next about a buffer's syntax.
#[derive(Debug, PartialEq)]
pub enum SyntaxStep {
    /// Parse the buffer and report.
    Parse,
    /// Gate the parsed buffer's paradigm and report.
    Gate,
    /// Everything is in: show these.
    Publish(Vec<Diagnostic>),
}

/// What a step says.
pub enum SyntaxStepModel {
    Parse,
    Gate,
    Publish(Seq<DiagnosticModel>),
}

impl SyntaxStep {
    pub open spec fn view(&self) -> SyntaxStepModel {
        match self {
            SyntaxStep::Parse => SyntaxStepModel::Parse,
            SyntaxStep::Gate => SyntaxStepModel::Gate,
            SyntaxStep::Publish(list) => SyntaxStepModel::Publish(diagnostic_models(list@)),
        }
    }
}

/// The diagnostics of a buffer that need no cross file context, given what every
/// pass would report on it.
pub open spec fn syntax_result(
    s: Seq<char>,
    tokens: Seq<Token>,
    lex_errs: Seq<Diag>,
    parse_errs: Seq<Diag>,
    gate_errs: Seq<Diag>,
) -> Seq<DiagnosticModel> {
    match guarded(tokens) {
        Some((why, span)) => seq![guard_note(s, why, span)],
        None => if lex_errs.len() > 0 || parse_errs.len() > 0 {
            reports(s, lex_errs) + reports(s, parse_errs)
        } else {
            reports(s, gate_errs)
        },
    }
}

/// What follows from the reports that are in: a buffer the guard stops goes no
/// further, and a paradigm is gated only where lexing and parsing were clean.
pub open spec fn syntax_step(
    s: Seq<char>,
    tokens: Seq<Token>,
    lex_errs: Seq<Diag>,
    parse_errs: Option<Seq<Diag>>,
    gate_errs: Option<Seq<Diag>>,
) -> SyntaxStepModel {
    match (guarded(tokens), parse_errs) {
        (Some((why, span)), _) => SyntaxStepModel::Publish(seq![guard_note(s, why, span)]),
        (None, None) => SyntaxStepModel::Parse,
        (None, Some(errs)) => if lex_errs.len() > 0 || errs.len() > 0 {
            SyntaxStepModel::Publish(reports(s, lex_errs) + reports(s, errs))
        } else {
            match gate_errs {
                None => SyntaxStepModel::Gate,
                Some(gate) => SyntaxStepModel::Publish(reports(s, gate)),
            }
        },
    }
}

/// A list that may not be there yet.
pub open spec fn reported(list: Option<&Vec<Diag>>) -> Option<Seq<Diag>> {
    match list {
        Some(v) => Some(v@),
        None => None,
    }
}

/// Takes one buffer's lexed tokens and the reports that are in, and says what to
/// do next. Paradigm gating runs only when the buffer lexes and parses clean, so
/// a half typed line does not pile a paradigm error on top of the parse error the
/// editor already shows.
pub fn syntax_diagnostics(
    text: &str,
    tokens: &[Token],
    lex_errs: &[Diag],
    parse_errs: Option<&Vec<Diag>>,
    gate_errs: Option<&Vec<Diag>>,
) -> (step: SyntaxStep)
    requires
        fits(text@),
    ensures
        step@ == syntax_step(
            text@,
            tokens@,
            lex_errs@,
            reported(parse_errs),
            reported(gate_errs),
        ),
{
    let index = LineIndex::new(text);
    let mut out: Vec<Diagnostic> = Vec::new();
    // Hold a pathologically shaped buffer back from the parser. The dusk parser
    // is recursive descent with no depth limit, so a wall of brackets or a chain
    // thousands deep would overflow its stack and abort the process, which Rust
    // cannot catch. One clear note stands in for the analysis that is skipped.
    if let Some((why, span)) = stop(tokens) {
        out.push(guard_diag(&index, text, why, span));
        assert(diagnostic_models(out@) =~= seq![guard_note(text@, why, span)]);
        return SyntaxStep::Publish(out);
    }
    let parse_errs = match parse_errs {
        Some(errs) => errs,
        None => {
            return SyntaxStep::Parse;
        },
    };
    if lex_errs.len() > 0 || parse_errs.len() > 0 {
        push_reports(&mut out, &index, text, lex_errs);
        push_reports(&mut out, &index, text, parse_errs.as_slice());
        assert(diagnostic_models(out@) =~= reports(text@, lex_errs@) + reports(
            text@,
            parse_errs@,
        ));
        return SyntaxStep::Publish(out);
    }
    match gate_errs {
        Some(errs) => {
            push_reports(&mut out, &index, text, errs.as_slice());
            assert(diagnostic_models(out@) =~= reports(text@, errs@));
            SyntaxStep::Publish(out)
        },
        None => SyntaxStep::Gate,
    }
}

/// Whatever the passes report, running the passes the steps ask for ends, after
/// at most a parse and a gating, in the diagnostics of the buffer.
pub proof fn law_syntax_steps_reach_the_result(
    s: Seq<char>,
    tokens: Seq<Token>,
    lex_errs: Seq<Diag>,
    parse_errs: Seq<Diag>,
    gate_errs: Seq<Diag>,
)
    ensures
        ({
            let done = SyntaxStepModel::Publish(
                syntax_result(s, tokens, lex_errs, parse_errs, gate_errs),
            );
            let first = syntax_step(s, tokens, lex_errs, None, None);
            let second = syntax_step(s, tokens, lex_errs, Some(parse_errs), None);
            let third = syntax_step(s, tokens, lex_errs, Some(parse_errs), Some(gate_errs));
            &&& first == done || first is Parse
            &&& first is Parse ==> second == done || second is Gate
            &&& first is Parse && second is Gate ==> third == done
        }),
{
}

/// A buffer the guard stops is never parsed or gated: one warning from vesper
/// stands in for every report, and it covers the token the guard stopped at.
pub proof fn law_a_guarded_buffer_gets_one_note(
    s: Seq<char>,
    tokens: Seq<Token>,
    lex_errs: Seq<Diag>,
    parse_errs: Option<Seq<Diag>>,
    gate_errs: Option<Seq<Diag>>,
)
    requires
        guarded(tokens) is Some,
    ensures
        syntax_step(s, tokens, lex_errs, parse_errs, gate_errs) matches SyntaxStepModel::Publish(
            list,
        ) && list.len() == 1 && list[0].severity == Some(DiagnosticSeverity::Warning)
            && list[0].source == Some("vesper"@) && list[0].range == range_of(
            s,
            guarded(tokens).unwrap().1,
        ),
{
}

/// Whether a buffer goes to the parser at all, for its outline, hover, definition or
/// the index as much as for its diagnostics: one the guard stops does not.
pub fn needs_parse(tokens: &[Token]) -> (b: bool)
    ensures
        b == (guarded(tokens@) is None),
{
    check(tokens).is_none()
}

/// A tree that declares nothing.
pub open spec fn bare(m: Module) -> bool {
    m.monads@.len() == 0 && m.items@.len() == 0
}

/// What a buffer's tokens and tree come to. A buffer the guard stops, or one that
/// was not parsed, has a tree that declares nothing, so its declarations are known
/// by its tokens alone.
pub fn syntax_of(tokens: Vec<Token>, parsed: Option<Module>) -> (syntax: Syntax)
    ensures
        syntax.tokens == tokens,
        match parsed {
            Some(module) => if guarded(tokens@) is None {
                syntax.module == module
            } else {
                bare(syntax.module)
            },
            None => bare(syntax.module),
        },
{
    let none = Module { monads: Vec::new(), items: Vec::new() };
    let module = match parsed {
        Some(module) => if needs_parse(tokens.as_slice()) {
            module
        } else {
            none
        },
        None => none,
    };
    Syntax { tokens, module }
}

/// A buffer that was not parsed still lists its declarations, each by its bare
/// header.
pub proof fn law_an_unparsed_buffer_shows_headers(s: Seq<char>, syntax: Syntax, i: int)
    requires
        bare(syntax.module),
        0 <= i < symbols_of(s, syntax).len(),
    ensures
        symbols_of(s, syntax)[i].detail == header_text(
            symbols_of(s, syntax)[i].kind,
            symbols_of(s, syntax)[i].name,
        ),
{
    assert(details_of(syntax.module) =~= Seq::empty());
}

/// One file of a loaded program: spans of the merged program that fall in it are
/// shifted by its base.
#[derive(Debug)]
pub struct FileSrc {
    pub path: String,
    pub base: u32,
    pub src: String,
}

/// A program as the loader leaves it.
#[derive(Debug)]
pub struct Program {
    /// Whether the root file lexed and parsed.
    pub parsed: bool,
    /// What the loader could not resolve, lex or parse, rendered as text.
    pub errors: Vec<String>,
    pub files: Vec<FileSrc>,
}

/// The diagnostics for one file in a loaded program, already ranged against that
/// file's own source.
#[derive(Debug, PartialEq)]
pub struct FileDiagnostics {
    pub path: String,
    pub diagnostics: Vec<Diagnostic>,
}

/// What the diagnostics of a file say.
#[verifier::ext_equal]
pub struct FileModel {
    pub path: Seq<char>,
    pub diagnostics: Seq<DiagnosticModel>,
}

impl FileDiagnostics {
    pub open spec fn view(&self) -> FileModel {
        FileModel { path: self.path@, diagnostics: diagnostic_models(self.diagnostics@) }
    }
}

/// What the diagnostics of several files say.
pub open spec fn file_models(list: Seq<FileDiagnostics>) -> Seq<FileModel> {
    Seq::new(list.len(), |i: int| list[i]@)
}

/// The last of the first `n` files whose base is not past `lo`. Spans are shifted
/// by each file's base at load time, so that is the file a span belongs to.
pub open spec fn owner(files: Seq<FileSrc>, n: int, lo: u32) -> Option<int>
    decreases n,
{
    if n <= 0 {
        None
    } else if files[n - 1].base <= lo {
        Some(n - 1)
    } else {
        owner(files, n - 1, lo)
    }
}

/// The file a report belongs to.
pub open spec fn owner_of(files: Seq<FileSrc>, d: Diag) -> Option<int> {
    owner(files, files.len() as int, d.span.lo)
}

/// A report as its own file shows it.
pub open spec fn local_report(file: FileSrc, d: Diag) -> DiagnosticModel {
    dusk_report(
        Range {
            start: position_of(file.src@, d.span.lo - file.base),
            end: position_of(
                file.src@,
                if d.span.hi >= file.base {
                    d.span.hi - file.base
                } else {
                    0
                },
            ),
        },
        d.msg@,
    )
}

/// The reports among the first `n` that belong to file `i`, as that file shows
/// them.
pub open spec fn owned(files: Seq<FileSrc>, list: Seq<Diag>, n: int, i: int) -> Seq<
    DiagnosticModel,
>
    decreases n,
{
    if n <= 0 {
        Seq::empty()
    } else if owner_of(files, list[n - 1]) == Some(i) {
        owned(files, list, n - 1, i).push(local_report(files[i], list[n - 1]))
    } else {
        owned(files, list, n - 1, i)
    }
}

/// The diagnostics of the first `m` files, leaving out files that have none.
pub open spec fn grouped(files: Seq<FileSrc>, list: Seq<Diag>, m: int) -> Seq<FileModel>
    decreases m,
{
    if m <= 0 {
        Seq::empty()
    } else {
        let before = grouped(files, list, m - 1);
        let mine = owned(files, list, list.len() as int, m - 1);
        if mine.len() > 0 {
            before.push(FileModel { path: files[m - 1].path@, diagnostics: mine })
        } else {
            before
        }
    }
}

/// The index of the file a merged span belongs to.
fn owning_file(files: &Vec<FileSrc>, lo: u32) -> (found: Option<usize>)
    ensures
        match found {
            Some(i) => i < files@.len() && owner(files@, files@.len() as int, lo) == Some(
                i as int,
            ) && files@[i as int].base <= lo,
            None => owner(files@, files@.len() as int, lo) is None,
        },
{
    let mut n: usize = files.len();
    while n > 0
        invariant
            0 <= n <= files@.len(),
            owner(files@, files@.len() as int, lo) == owner(files@, n as int, lo),
        decreases n,
    {
        if files[n - 1].base <= lo {
            return Some(n - 1);
        }
        n -= 1;
    }
    None
}

/// The reports that belong to file `i`, ranged against its source.
fn owned_by(files: &Vec<FileSrc>, owners: &Vec<Option<usize>>, list: &Vec<Diag>, i: usize) -> (out:
    Vec<Diagnostic>)
    requires
        i < files@.len(),
        fits(files@[i as int].src@),
        owners@.len() == list@.len(),
        forall|k: int|
            0 <= k < list@.len() ==> match #[trigger] owners@[k] {
                Some(o) => owner_of(files@, list@[k]) == Some(o as int) && files@[o as int].base
                    <= list@[k].span.lo,
                None => owner_of(files@, list@[k]) is None,
            },
    ensures
        diagnostic_models(out@) == owned(files@, list@, list@.len() as int, i as int),
{
    let file = &files[i];
    let src = file.src.as_str();
    let index = LineIndex::new(src);
    let mut out: Vec<Diagnostic> = Vec::new();
    let mut k: usize = 0;
    while k < list.len()
        invariant
            i < files@.len(),
            *file == files@[i as int],
            src@ == file.src@,
            index.maps(src@),
            owners@.len() == list@.len(),
            forall|k: int|
                0 <= k < list@.len() ==> match #[trigger] owners@[k] {
                    Some(o) => owner_of(files@, list@[k]) == Some(o as int)
                        && files@[o as int].base <= list@[k].span.lo,
                    None => owner_of(files@, list@[k]) is None,
                },
            0 <= k <= list@.len(),
            diagnostic_models(out@) == owned(files@, list@, k as int, i as int),
        decreases list@.len() - k,
    {
        let ghost before = out@;
        if let Some(o) = owners[k] {
            if o == i {
                let d = &list[k];
                let lo: u32 = d.span.lo - file.base;
                let hi: u32 = if d.span.hi >= file.base {
                    d.span.hi - file.base
                } else {
                    0
                };
                let range = Range::new(index.position(src, lo), index.position(src, hi));
                out.push(dusk_diag(range, d.msg.as_str()));
                assert(diagnostic_models(out@) =~= diagnostic_models(before).push(
                    local_report(*file, *d),
                ));
            }
        }
        k += 1;
    }
    out
}

/// Splits merged program diagnostics into per file lists, ranging each span
/// against the file it belongs to.
fn group_by_file(files: &Vec<FileSrc>, list: &Vec<Diag>) -> (out: Vec<FileDiagnostics>)
    requires
        forall|i: int| 0 <= i < files@.len() ==> fits((#[trigger] files@[i]).src@),
    ensures
        file_models(out@) == grouped(files@, list@, files@.len() as int),
{
    let mut owners: Vec<Option<usize>> = Vec::new();
    let mut k: usize = 0;
    while k < list.len()
        invariant
            0 <= k <= list@.len(),
            owners@.len() == k,
            forall|j: int|
                0 <= j < k ==> match #[trigger] owners@[j] {
                    Some(o) => owner_of(files@, list@[j]) == Some(o as int)
                        && files@[o as int].base <= list@[j].span.lo,
                    None => owner_of(files@, list@[j]) is None,
                },
        decreases list@.len() - k,
    {
        owners.push(owning_file(files, list[k].span.lo));
        k += 1;
    }
    let mut out: Vec<FileDiagnostics> = Vec::new();
    let mut i: usize = 0;
    while i < files.len()
        invariant
            forall|i: int| 0 <= i < files@.len() ==> fits((#[trigger] files@[i]).src@),
            owners@.len() == list@.len(),
            forall|j: int|
                0 <= j < list@.len() ==> match #[trigger] owners@[j] {
                    Some(o) => owner_of(files@, list@[j]) == Some(o as int)
                        && files@[o as int].base <= list@[j].span.lo,
                    None => owner_of(files@, list@[j]) is None,
                },
            0 <= i <= files@.len(),
            file_models(out@) == grouped(files@, list@, i as int),
        decreases files@.len() - i,
    {
        let ghost before = out@;
        let diagnostics = owned_by(files, &owners, list, i);
        let ghost mine = diagnostic_models(diagnostics@);
        if diagnostics.len() > 0 {
            out.push(FileDiagnostics { path: files[i].path.clone(), diagnostics });
            assert(file_models(out@) =~= file_models(before).push(
                FileModel { path: files@[i as int].path@, diagnostics: mine },
            ));
        }
        i += 1;
    }
    out
}

/// A message that has no span, pinned to the start of the file.
pub open spec fn whole_file_report(message: Seq<char>) -> DiagnosticModel {
    let start = Position { line: 0, character: 0 };
    dusk_report(Range { start, end: start }, message)
}

/// Messages that have no span, in order.
pub open spec fn whole_file_reports(errors: Seq<String>) -> Seq<DiagnosticModel> {
    Seq::new(errors.len(), |i: int| whole_file_report(errors[i]@))
}

/// Builds a diagnostic for a message that has no span, pinned to the start of
/// the file. Loader errors arrive already rendered as text, so this is the best
/// place to show them until the loader hands back spans of its own.
fn whole_file_diag(message: &str) -> (d: Diagnostic)
    ensures
        d@ == whole_file_report(message@),
{
    let start = Position::new(0, 0);
    dusk_diag(Range::new(start, start), message)
}

/// What to do next about a program's names and types.
#[derive(Debug, PartialEq)]
pub enum SemanticStep {
    /// Load the program from disk.
    Load,
    /// Check the loaded program's names and types and report.
    Check,
    /// Everything is in: show these.
    Publish(Vec<FileDiagnostics>),
}

/// What a step says.
pub enum SemanticStepModel {
    Load,
    Check,
    Publish(Seq<FileModel>),
}

impl SemanticStep {
    pub open spec fn view(&self) -> SemanticStepModel {
        match self {
            SemanticStep::Load => SemanticStepModel::Load,
            SemanticStep::Check => SemanticStepModel::Check,
            SemanticStep::Publish(list) => SemanticStepModel::Publish(file_models(list@)),
        }
    }
}

/// Whether the guard stops the root file. A root that could not be read is left
/// to the loader.
pub open spec fn root_guarded(root: Option<&Vec<Token>>) -> bool {
    match root {
        Some(tokens) => guarded(tokens@) is Some,
        None => false,
    }
}

/// The diagnostics of a program, given what every pass would report on it.
pub open spec fn semantic_result(
    path: Seq<char>,
    root: Option<&Vec<Token>>,
    program: Program,
    checked: Seq<Diag>,
) -> Seq<FileModel> {
    if root_guarded(root) || !program.parsed {
        Seq::empty()
    } else if program.errors@.len() > 0 {
        seq![FileModel { path, diagnostics: whole_file_reports(program.errors@) }]
    } else {
        grouped(program.files@, checked, program.files@.len() as int)
    }
}

/// What follows from what is in so far: a root the guard stops is not loaded, and
/// only a program that loaded without an error is checked.
pub open spec fn semantic_step(
    path: Seq<char>,
    root: Option<&Vec<Token>>,
    program: Option<&Program>,
    checked: Option<Seq<Diag>>,
) -> SemanticStepModel {
    if root_guarded(root) {
        SemanticStepModel::Publish(Seq::empty())
    } else {
        match program {
            None => SemanticStepModel::Load,
            Some(p) => if !p.parsed {
                SemanticStepModel::Publish(Seq::empty())
            } else if p.errors@.len() > 0 {
                SemanticStepModel::Publish(
                    seq![FileModel { path, diagnostics: whole_file_reports(p.errors@) }],
                )
            } else {
                match checked {
                    None => SemanticStepModel::Check,
                    Some(list) => SemanticStepModel::Publish(
                        grouped(p.files@, list, p.files@.len() as int),
                    ),
                }
            },
        }
    }
}

/// Takes what is in about the program rooted at `path`: the root file's tokens
/// where it could be read, the program once it is loaded, the reports once it is
/// checked. Says what to do next. Each diagnostic maps back to the file its span
/// falls in, so an error in an imported module points at that module rather than
/// the file that imported it.
pub fn semantic_diagnostics(
    path: &str,
    root: Option<&Vec<Token>>,
    program: Option<&Program>,
    checked: Option<&Vec<Diag>>,
) -> (step: SemanticStep)
    requires
        program matches Some(p) ==> forall|i: int|
            0 <= i < p.files@.len() ==> fits((#[trigger] p.files@[i]).src@),
    ensures
        step@ == semantic_step(path@, root, program, reported(checked)),
{
    // Guard the root before the loader parses it. The loader reads and parses the
    // file itself, so a pathological root would overflow the parser mid load. The
    // syntax pass already showed the reason against the buffer, so here just skip
    // the load rather than repeat it.
    if let Some(tokens) = root {
        if check(tokens.as_slice()).is_some() {
            let none: Vec<FileDiagnostics> = Vec::new();
            assert(file_models(none@) =~= Seq::empty());
            return SemanticStep::Publish(none);
        }
    }
    let program = match program {
        Some(p) => p,
        None => {
            return SemanticStep::Load;
        },
    };
    if !program.parsed {
        // The root file failed to lex or parse. The syntax pass already reports
        // that against the buffer with precise spans, so do not repeat it here as
        // a spanless whole file error.
        let none: Vec<FileDiagnostics> = Vec::new();
        assert(file_models(none@) =~= Seq::empty());
        return SemanticStep::Publish(none);
    }
    // The root parsed, but a loader error remains: an import that did not
    // resolve, or a file it pulled in that did not lex or parse. The imported
    // items are missing from the merged module, so running the checker over it
    // would both bury the real error and invent undefined name errors for every
    // missing symbol. Mirror the compiler's own pipeline and stop here, surfacing
    // the loader errors instead. They come pre-rendered without spans, so they
    // land on the root file rather than a precise range.
    if program.errors.len() > 0 {
        let mut diagnostics: Vec<Diagnostic> = Vec::new();
        let mut i: usize = 0;
        while i < program.errors.len()
            invariant
                0 <= i <= program.errors@.len(),
                diagnostic_models(diagnostics@) =~= whole_file_reports(program.errors@).take(
                    i as int,
                ),
            decreases program.errors@.len() - i,
        {
            let ghost before = diagnostics@;
            let ghost all = whole_file_reports(program.errors@);
            diagnostics.push(whole_file_diag(program.errors[i].as_str()));
            assert(diagnostic_models(diagnostics@) =~= diagnostic_models(before).push(
                all[i as int],
            ));
            assert(all.take(i + 1) =~= all.take(i as int).push(all[i as int]));
            i += 1;
        }
        assert(whole_file_reports(program.errors@).take(i as int) =~= whole_file_reports(
            program.errors@,
        ));
        let ghost listed = diagnostic_models(diagnostics@);
        let mut out: Vec<FileDiagnostics> = Vec::new();
        out.push(FileDiagnostics { path: path.to_owned(), diagnostics });
        assert(file_models(out@) =~= seq![FileModel { path: path@, diagnostics: listed }]);
        return SemanticStep::Publish(out);
    }
    match checked {
        Some(list) => SemanticStep::Publish(group_by_file(&program.files, list)),
        None => SemanticStep::Check,
    }
}

/// Whatever the loader and the checker report, running the passes the steps ask
/// for ends, after at most a load and a check, in the diagnostics of the program.
pub proof fn law_semantic_steps_reach_the_result(
    path: Seq<char>,
    root: Option<&Vec<Token>>,
    program: Program,
    checked: Seq<Diag>,
)
    ensures
        ({
            let done = SemanticStepModel::Publish(semantic_result(path, root, program, checked));
            let first = semantic_step(path, root, None, None);
            let second = semantic_step(path, root, Some(&program), None);
            let third = semantic_step(path, root, Some(&program), Some(checked));
            &&& first == done || first is Load
            &&& first is Load ==> second == done || second is Check
            &&& first is Load && second is Check ==> third == done
        }),
{
}

/// The file a report belongs to is the last whose base is not past it.
proof fn lemma_owner(files: Seq<FileSrc>, n: int, lo: u32)
    requires
        n <= files.len(),
    ensures
        match owner(files, n, lo) {
            Some(i) => 0 <= i < n && files[i].base <= lo && forall|j: int|
                i < j < n ==> lo < (#[trigger] files[j]).base,
            None => forall|j: int| 0 <= j < n ==> lo < (#[trigger] files[j]).base,
        },
    decreases n,
{
    if n > 0 && files[n - 1].base > lo {
        lemma_owner(files, n - 1, lo);
    }
}

/// How many of the first `n` reports belong to a file.
pub open spec fn owned_count(files: Seq<FileSrc>, list: Seq<Diag>, n: int) -> nat
    decreases n,
{
    if n <= 0 {
        0
    } else {
        owned_count(files, list, n - 1) + if owner_of(files, list[n - 1]) is Some {
            1nat
        } else {
            0nat
        }
    }
}

/// How many diagnostics the first `m` files of a result hold together.
pub open spec fn shown_count(result: Seq<FileModel>, m: int) -> nat
    decreases m,
{
    if m <= 0 {
        0
    } else {
        shown_count(result, m - 1) + result[m - 1].diagnostics.len()
    }
}

/// How many of the first `n` reports belong to one of the first `m` files.
spec fn held_count(files: Seq<FileSrc>, list: Seq<Diag>, n: int, m: int) -> nat
    decreases m,
{
    if m <= 0 {
        0
    } else {
        held_count(files, list, n, m - 1) + owned(files, list, n, m - 1).len()
    }
}

proof fn lemma_held_next(files: Seq<FileSrc>, list: Seq<Diag>, n: int, m: int)
    requires
        0 < n <= list.len(),
        0 <= m <= files.len(),
    ensures
        held_count(files, list, n, m) == held_count(files, list, n - 1, m) + match owner_of(
            files,
            list[n - 1],
        ) {
            Some(i) => if 0 <= i < m {
                1nat
            } else {
                0nat
            },
            None => 0nat,
        },
    decreases m,
{
    if m > 0 {
        lemma_held_next(files, list, n, m - 1);
    }
}

proof fn lemma_held_all(files: Seq<FileSrc>, list: Seq<Diag>, n: int)
    requires
        0 <= n <= list.len(),
    ensures
        held_count(files, list, n, files.len() as int) == owned_count(files, list, n),
    decreases n,
{
    if n > 0 {
        lemma_held_all(files, list, n - 1);
        lemma_held_next(files, list, n, files.len() as int);
        lemma_owner(files, files.len() as int, list[n - 1].span.lo);
    } else {
        lemma_held_none(files, list, files.len() as int);
    }
}

proof fn lemma_held_none(files: Seq<FileSrc>, list: Seq<Diag>, m: int)
    ensures
        held_count(files, list, 0, m) == 0,
    decreases m,
{
    if m > 0 {
        lemma_held_none(files, list, m - 1);
    }
}

proof fn lemma_shown_prefix(a: Seq<FileModel>, b: Seq<FileModel>, m: int)
    requires
        m <= a.len(),
        m <= b.len(),
        forall|i: int| 0 <= i < m ==> a[i] == b[i],
    ensures
        shown_count(a, m) == shown_count(b, m),
    decreases m,
{
    if m > 0 {
        lemma_shown_prefix(a, b, m - 1);
    }
}

proof fn lemma_shown_held(files: Seq<FileSrc>, list: Seq<Diag>, m: int)
    requires
        0 <= m <= files.len(),
    ensures
        shown_count(grouped(files, list, m), grouped(files, list, m).len() as int) == held_count(
            files,
            list,
            list.len() as int,
            m,
        ),
    decreases m,
{
    if m > 0 {
        lemma_shown_held(files, list, m - 1);
        let before = grouped(files, list, m - 1);
        lemma_shown_prefix(before, grouped(files, list, m), before.len() as int);
    }
}

/// No report is lost and none is shown twice: the files together show as many
/// diagnostics as there are reports with a file to belong to, which is all of
/// them where a file starts at base zero.
pub proof fn law_every_report_is_shown_once(files: Seq<FileSrc>, list: Seq<Diag>)
    ensures
        ({
            let result = grouped(files, list, files.len() as int);
            &&& shown_count(result, result.len() as int) == owned_count(
                files,
                list,
                list.len() as int,
            )
            &&& files.len() > 0 && files[0].base == 0 ==> shown_count(result, result.len() as int)
                == list.len()
        }),
{
    let n = list.len() as int;
    lemma_shown_held(files, list, files.len() as int);
    lemma_held_all(files, list, n);
    if files.len() > 0 && files[0].base == 0 {
        lemma_all_owned(files, list, n);
    }
}

proof fn lemma_all_owned(files: Seq<FileSrc>, list: Seq<Diag>, n: int)
    requires
        0 <= n <= list.len(),
        files.len() > 0,
        files[0].base == 0,
    ensures
        owned_count(files, list, n) == n,
    decreases n,
{
    if n > 0 {
        lemma_all_owned(files, list, n - 1);
        lemma_owner(files, files.len() as int, list[n - 1].span.lo);
    }
}

/// A report is shown against the file its span falls in, ranged in that file's
/// own source, and that file is the last whose base is not past the span.
pub proof fn law_reports_land_in_their_own_file(files: Seq<FileSrc>, list: Seq<Diag>, k: int)
    requires
        0 <= k < list.len(),
        owner_of(files, list[k]) is Some,
    ensures
        ({
            let i = owner_of(files, list[k])->0;
            &&& 0 <= i < files.len() && files[i].base <= list[k].span.lo
            &&& forall|j: int|
                i < j < files.len() ==> list[k].span.lo < (#[trigger] files[j]).base
            &&& exists|f: int|
                0 <= f < grouped(files, list, files.len() as int).len() && (#[trigger] grouped(
                    files,
                    list,
                    files.len() as int,
                )[f]).path == files[i].path@ && grouped(
                    files,
                    list,
                    files.len() as int,
                )[f].diagnostics.contains(local_report(files[i], list[k]))
        }),
{
    let i = owner_of(files, list[k])->0;
    lemma_owner(files, files.len() as int, list[k].span.lo);
    lemma_owned_listed(files, list, list.len() as int, k);
    let f = lemma_grouped_entry(files, list, files.len() as int, i);
    assert(grouped(files, list, files.len() as int)[f].path == files[i].path@);
}

proof fn lemma_owned_listed(files: Seq<FileSrc>, list: Seq<Diag>, n: int, k: int)
    requires
        0 <= k < n <= list.len(),
        owner_of(files, list[k]) is Some,
    ensures
        ({
            let i = owner_of(files, list[k])->0;
            owned(files, list, n, i).contains(local_report(files[i], list[k]))
        }),
    decreases n,
{
    let i = owner_of(files, list[k])->0;
    let it = local_report(files[i], list[k]);
    let all = owned(files, list, n, i);
    if k == n - 1 {
        assert(all.last() == it);
    } else {
        lemma_owned_listed(files, list, n - 1, k);
        let before = owned(files, list, n - 1, i);
        assert(all[before.index_of(it)] == it);
    }
}

proof fn lemma_grouped_entry(files: Seq<FileSrc>, list: Seq<Diag>, m: int, i: int) -> (f: int)
    requires
        0 <= i < m <= files.len(),
        owned(files, list, list.len() as int, i).len() > 0,
    ensures
        0 <= f < grouped(files, list, m).len(),
        grouped(files, list, m)[f] == (FileModel {
            path: files[i].path@,
            diagnostics: owned(files, list, list.len() as int, i),
        }),
    decreases m,
{
    if i == m - 1 {
        grouped(files, list, m - 1).len() as int
    } else {
        lemma_grouped_entry(files, list, m - 1, i)
    }
}

/// A file without a diagnostic is not listed.
pub proof fn law_no_file_is_listed_empty(files: Seq<FileSrc>, list: Seq<Diag>, m: int, f: int)
    requires
        0 <= f < grouped(files, list, m).len(),
    ensures
        grouped(files, list, m)[f].diagnostics.len() > 0,
    decreases m,
{
    if f < grouped(files, list, m - 1).len() {
        law_no_file_is_listed_empty(files, list, m - 1, f);
    }
}

/// What a buffer's steps come to, report by report: a guarded buffer publishes the
/// guard's warning over the token it stopped at, an unguarded one is parsed, every
/// lexing report and then every parsing report is published as an error from dusk
/// where there is any, and otherwise every gating report is.
pub proof fn law_a_buffer_shows_each_of_its_reports(
    s: Seq<char>,
    tokens: Seq<Token>,
    lex_errs: Seq<Diag>,
    parse_errs: Seq<Diag>,
    gate_errs: Seq<Diag>,
    parsed: Option<Seq<Diag>>,
    gated: Option<Seq<Diag>>,
)
    ensures
        ({
            let shown = |d: Diag|
                DiagnosticModel {
                    range: Range {
                        start: position_of(s, d.span.lo as int),
                        end: position_of(s, d.span.hi as int),
                    },
                    severity: Some(DiagnosticSeverity::Error),
                    source: Some("dusk"@),
                    message: d.msg@,
                };
            match guarded(tokens) {
                Some((why, span)) => syntax_step(s, tokens, lex_errs, parsed, gated)
                    == SyntaxStepModel::Publish(
                    seq![
                        DiagnosticModel {
                            range: Range {
                                start: position_of(s, span.lo as int),
                                end: position_of(s, span.hi as int),
                            },
                            severity: Some(DiagnosticSeverity::Warning),
                            source: Some("vesper"@),
                            message: reason_text(why),
                        },
                    ],
                ),
                None => {
                    &&& syntax_step(s, tokens, lex_errs, None, gated) is Parse
                    &&& (lex_errs + parse_errs).len() > 0 ==> syntax_step(
                        s,
                        tokens,
                        lex_errs,
                        Some(parse_errs),
                        gated,
                    ) == SyntaxStepModel::Publish((lex_errs + parse_errs).map_values(shown))
                    &&& (lex_errs + parse_errs).len() == 0 ==> syntax_step(
                        s,
                        tokens,
                        lex_errs,
                        Some(parse_errs),
                        None,
                    ) is Gate
                    &&& (lex_errs + parse_errs).len() == 0 ==> syntax_step(
                        s,
                        tokens,
                        lex_errs,
                        Some(parse_errs),
                        Some(gate_errs),
                    ) == SyntaxStepModel::Publish(gate_errs.map_values(shown))
                },
            }
        }),
{
    let shown = |d: Diag|
        DiagnosticModel {
            range: Range {
                start: position_of(s, d.span.lo as int),
                end: position_of(s, d.span.hi as int),
            },
            severity: Some(DiagnosticSeverity::Error),
            source: Some("dusk"@),
            message: d.msg@,
        };
    assert(reports(s, lex_errs) + reports(s, parse_errs) =~= (lex_errs + parse_errs).map_values(
        shown,
    ));
    assert(reports(s, gate_errs) =~= gate_errs.map_values(shown));
}

/// What a program's steps come to: a root the guard stops shows nothing and is not
/// loaded, one that was not parsed shows nothing, every loader error is published at
/// the start of the root file, as an error from dusk, and a program without one is
/// checked.
pub proof fn law_a_program_shows_each_loader_error(
    path: Seq<char>,
    root: Option<&Vec<Token>>,
    program: Program,
    list: Seq<Diag>,
    checked: Option<Seq<Diag>>,
)
    ensures
        root is Some && guarded(root->0@) is Some ==> semantic_step(path, root, None, checked)
            == SemanticStepModel::Publish(Seq::empty()) && semantic_step(
            path,
            root,
            Some(&program),
            checked,
        ) == SemanticStepModel::Publish(Seq::empty()),
        root is None || guarded(root->0@) is None ==> {
            &&& semantic_step(path, root, None, checked) is Load
            &&& !program.parsed ==> semantic_step(path, root, Some(&program), checked)
                == SemanticStepModel::Publish(Seq::empty())
            &&& program.parsed && program.errors@.len() > 0 ==> semantic_step(
                path,
                root,
                Some(&program),
                checked,
            ) == SemanticStepModel::Publish(
                seq![
                    FileModel {
                        path,
                        diagnostics: program.errors@.map_values(
                            |e: String|
                                DiagnosticModel {
                                    range: Range {
                                        start: Position { line: 0, character: 0 },
                                        end: Position { line: 0, character: 0 },
                                    },
                                    severity: Some(DiagnosticSeverity::Error),
                                    source: Some("dusk"@),
                                    message: e@,
                                },
                        ),
                    },
                ],
            )
            &&& program.parsed && program.errors@.len() == 0 ==> semantic_step(
                path,
                root,
                Some(&program),
                None,
            ) is Check && semantic_step(path, root, Some(&program), Some(list))
                == SemanticStepModel::Publish(
                grouped(program.files@, list, program.files@.len() as int),
            )
        },
{
    let shown = |e: String|
        DiagnosticModel {
            range: Range {
                start: Position { line: 0, character: 0 },
                end: Position { line: 0, character: 0 },
            },
            severity: Some(DiagnosticSeverity::Error),
            source: Some("dusk"@),
            message: e@,
        };
    assert(whole_file_reports(program.errors@) =~= program.errors@.map_values(shown));
}

/// The file a report belongs to is the last whose base is not past where the report
/// starts, and a report before every base belongs to none.
pub proof fn law_a_report_belongs_to_the_last_file_begun(files: Seq<FileSrc>, d: Diag, i: int)
    requires
        0 <= i < files.len(),
    ensures
        owner_of(files, d) == Some(i) <==> files[i].base <= d.span.lo && forall|j: int|
            i < j < files.len() ==> d.span.lo < (#[trigger] files[j]).base,
        owner_of(files, d) is None <==> forall|j: int|
            0 <= j < files.len() ==> d.span.lo < (#[trigger] files[j]).base,
{
    lemma_owner(files, files.len() as int, d.span.lo);
    match owner_of(files, d) {
        Some(o) => {
            if o < i {
                assert(d.span.lo < files[i].base);
            } else if i < o {
                assert(files[o].base <= d.span.lo);
            }
        },
        None => {
            assert(d.span.lo < files[i].base);
        },
    }
}

/// Each file shows every report that starts in it, in order, as an error from dusk
/// at its place in the file's own source, and the files come in their own order,
/// those without a report left out.
pub proof fn law_files_show_the_reports_that_start_in_them(files: Seq<FileSrc>, list: Seq<Diag>)
    ensures
        grouped(files, list, files.len() as int) == Seq::new(files.len(), |i: int| i).filter_map(
            |i: int|
                {
                    let mine = list.filter_map(
                        |d: Diag|
                            if files[i].base <= d.span.lo && forall|j: int|
                                i < j < files.len() ==> d.span.lo < (#[trigger] files[j]).base {
                                Some(
                                    DiagnosticModel {
                                        range: Range {
                                            start: position_of(
                                                files[i].src@,
                                                d.span.lo - files[i].base,
                                            ),
                                            end: position_of(
                                                files[i].src@,
                                                if d.span.hi < files[i].base {
                                                    0
                                                } else {
                                                    d.span.hi - files[i].base
                                                },
                                            ),
                                        },
                                        severity: Some(DiagnosticSeverity::Error),
                                        source: Some("dusk"@),
                                        message: d.msg@,
                                    },
                                )
                            } else {
                                None
                            },
                    );
                    if mine.len() == 0 {
                        None
                    } else {
                        Some(FileModel { path: files[i].path@, diagnostics: mine })
                    }
                },
        ),
{
    let pick = |i: int|
        {
            let mine = list.filter_map(
                |d: Diag|
                    if files[i].base <= d.span.lo && forall|j: int|
                        i < j < files.len() ==> d.span.lo < (#[trigger] files[j]).base {
                        Some(
                            DiagnosticModel {
                                range: Range {
                                    start: position_of(files[i].src@, d.span.lo - files[i].base),
                                    end: position_of(
                                        files[i].src@,
                                        if d.span.hi < files[i].base {
                                            0
                                        } else {
                                            d.span.hi - files[i].base
                                        },
                                    ),
                                },
                                severity: Some(DiagnosticSeverity::Error),
                                source: Some("dusk"@),
                                message: d.msg@,
                            },
                        )
                    } else {
                        None
                    },
            );
            if mine.len() == 0 {
                None
            } else {
                Some(FileModel { path: files[i].path@, diagnostics: mine })
            }
        };
    assert forall|i: int| 0 <= i < files.len() implies #[trigger] pick(i) == ({
        let mine = owned(files, list, list.len() as int, i);
        if mine.len() == 0 {
            None
        } else {
            Some(FileModel { path: files[i].path@, diagnostics: mine })
        }
    }) by {
        let each = |d: Diag|
            if files[i].base <= d.span.lo && forall|j: int|
                i < j < files.len() ==> d.span.lo < (#[trigger] files[j]).base {
                Some(
                    DiagnosticModel {
                        range: Range {
                            start: position_of(files[i].src@, d.span.lo - files[i].base),
                            end: position_of(
                                files[i].src@,
                                if d.span.hi < files[i].base {
                                    0
                                } else {
                                    d.span.hi - files[i].base
                                },
                            ),
                        },
                        severity: Some(DiagnosticSeverity::Error),
                        source: Some("dusk"@),
                        message: d.msg@,
                    },
                )
            } else {
                None
            };
        assert forall|d: Diag| #[trigger] each(d) == if owner_of(files, d) == Some(i) {
            Some(local_report(files[i], d))
        } else {
            None
        } by {
            law_a_report_belongs_to_the_last_file_begun(files, d, i);
        }
        lemma_owned_picked(files, list, list.len() as int, i, each);
        assert(list.take(list.len() as int) =~= list);
    }
    lemma_grouped_picked(files, list, files.len() as int, pick);
}

proof fn lemma_owned_picked(
    files: Seq<FileSrc>,
    list: Seq<Diag>,
    n: int,
    i: int,
    each: spec_fn(Diag) -> Option<DiagnosticModel>,
)
    requires
        0 <= n <= list.len(),
        forall|d: Diag| #[trigger]
            each(d) == if owner_of(files, d) == Some(i) {
                Some(local_report(files[i], d))
            } else {
                None
            },
    ensures
        owned(files, list, n, i) == list.take(n).filter_map(each),
    decreases n,
{
    if n > 0 {
        lemma_owned_picked(files, list, n - 1, i, each);
        assert(list.take(n).drop_last() =~= list.take(n - 1));
        assert(each(list[n - 1]) == each(list.take(n).last()));
        assert(owned(files, list, n, i) =~= list.take(n).filter_map(each));
    }
}

proof fn lemma_grouped_picked(
    files: Seq<FileSrc>,
    list: Seq<Diag>,
    m: int,
    pick: spec_fn(int) -> Option<FileModel>,
)
    requires
        0 <= m <= files.len(),
        forall|i: int|
            0 <= i < files.len() ==> #[trigger] pick(i) == ({
                let mine = owned(files, list, list.len() as int, i);
                if mine.len() == 0 {
                    None
                } else {
                    Some(FileModel { path: files[i].path@, diagnostics: mine })
                }
            }),
    ensures
        grouped(files, list, m) == Seq::new(m as nat, |i: int| i).filter_map(pick),
    decreases m,
{
    let upto = Seq::new(m as nat, |i: int| i);
    if m > 0 {
        lemma_grouped_picked(files, list, m - 1, pick);
        assert(upto.drop_last() =~= Seq::new((m - 1) as nat, |i: int| i));
        assert(upto.last() == m - 1);
        assert(pick(m - 1) == pick(upto.last()));
        assert(grouped(files, list, m) =~= upto.filter_map(pick));
    } else {
        assert(upto.filter_map(pick) =~= Seq::empty());
    }
}

/// What a file's diagnostics are taken to say is its path and all that each of them
/// says.
pub proof fn law_a_files_diagnostics_are_all_kept(list: Seq<FileDiagnostics>, i: int)
    requires
        0 <= i < list.len(),
    ensures
        file_models(list).len() == list.len(),
        file_models(list)[i].path == list[i].path@,
        file_models(list)[i].diagnostics == list[i].diagnostics@.map_values(|d: Diagnostic| d@),
{
    assert(diagnostic_models(list[i].diagnostics@) =~= list[i].diagnostics@.map_values(
        |d: Diagnostic| d@,
    ));
}

} // verus!
