//! The parts of the Language Server Protocol the server speaks in, as plain
//! values.

use vstd::prelude::*;

verus! {

/// A place in a document: a line, and a character counted in UTF-16 code units.
#[derive(Clone, Copy, Debug, PartialEq, Eq, Structural)]
pub struct Position {
    pub line: u32,
    pub character: u32,
}

impl Position {
    pub fn new(line: u32, character: u32) -> (p: Position)
        ensures
            p == (Position { line, character }),
    {
        Position { line, character }
    }

    /// Whether this place comes no later in a document than `other`.
    pub open spec fn at_or_before(self, other: Position) -> bool {
        self.line < other.line || (self.line == other.line && self.character <= other.character)
    }
}

/// A span of a document, from its start up to its end.
#[derive(Clone, Copy, Debug, PartialEq, Eq, Structural)]
pub struct Range {
    pub start: Position,
    pub end: Position,
}

impl Range {
    pub fn new(start: Position, end: Position) -> (r: Range)
        ensures
            r == (Range { start, end }),
    {
        Range { start, end }
    }
}

/// One highlighted span, placed relative to the one before it.
#[derive(Clone, Copy, Debug, PartialEq, Eq, Structural)]
pub struct SemanticToken {
    pub delta_line: u32,
    pub delta_start: u32,
    pub length: u32,
    pub token_type: u32,
    pub token_modifiers_bitset: u32,
}

/// The names the numbers in a semantic token stand for.
#[derive(Debug, PartialEq)]
pub struct SemanticTokensLegend {
    pub token_types: Vec<&'static str>,
    pub token_modifiers: Vec<&'static str>,
}

/// What a symbol declares.
#[derive(Clone, Copy, Debug, PartialEq, Eq, Structural)]
pub enum SymbolKind {
    Function,
    Struct,
    Enum,
    Interface,
    Namespace,
}

/// What an editor shows for the name under the cursor: markdown, and the span it
/// speaks of.
#[derive(Debug, PartialEq)]
pub struct Hover {
    pub value: String,
    pub range: Range,
}

/// How grave a diagnostic is.
#[derive(Clone, Copy, Debug, PartialEq, Eq, Structural)]
pub enum DiagnosticSeverity {
    Error,
    Warning,
}

/// A message about a span of a document.
#[derive(Debug, PartialEq)]
pub struct Diagnostic {
    pub range: Range,
    pub severity: Option<DiagnosticSeverity>,
    pub source: Option<String>,
    pub message: String,
}

/// What a diagnostic says, apart from how its strings are stored.
#[verifier::ext_equal]
pub struct DiagnosticModel {
    pub range: Range,
    pub severity: Option<DiagnosticSeverity>,
    pub source: Option<Seq<char>>,
    pub message: Seq<char>,
}

impl Diagnostic {
    pub open spec fn view(&self) -> DiagnosticModel {
        DiagnosticModel {
            range: self.range,
            severity: self.severity,
            source: match self.source {
                Some(text) => Some(text@),
                None => None,
            },
            message: self.message@,
        }
    }

    /// Another diagnostic that says the same.
    pub fn duplicate(&self) -> (copy: Diagnostic)
        ensures
            copy@ == self@,
    {
        Diagnostic {
            range: self.range,
            severity: self.severity,
            source: match &self.source {
                Some(text) => Some(text.clone()),
                None => None,
            },
            message: self.message.clone(),
        }
    }
}

/// What each of several diagnostics says.
pub open spec fn diagnostic_models(list: Seq<Diagnostic>) -> Seq<DiagnosticModel> {
    Seq::new(list.len(), |i: int| list[i]@)
}

/// Another list of diagnostics that says the same.
pub fn duplicate_diagnostics(list: &Vec<Diagnostic>) -> (copy: Vec<Diagnostic>)
    ensures
        diagnostic_models(copy@) == diagnostic_models(list@),
{
    let mut copy: Vec<Diagnostic> = Vec::new();
    let mut i: usize = 0;
    while i < list.len()
        invariant
            0 <= i <= list@.len(),
            copy@.len() == i,
            forall|j: int| 0 <= j < i ==> (#[trigger] copy@[j])@ == list@[j]@,
        decreases list@.len() - i,
    {
        copy.push(list[i].duplicate());
        i += 1;
    }
    assert(diagnostic_models(copy@) =~= diagnostic_models(list@));
    copy
}

/// A span of a document, named by its URI.
#[derive(Debug, PartialEq)]
pub struct Location {
    pub uri: String,
    pub range: Range,
}

/// What a location says.
#[verifier::ext_equal]
pub struct LocationModel {
    pub uri: Seq<char>,
    pub range: Range,
}

impl Location {
    pub open spec fn view(&self) -> LocationModel {
        LocationModel { uri: self.uri@, range: self.range }
    }

    pub fn new(uri: String, range: Range) -> (location: Location)
        ensures
            location == (Location { uri, range }),
    {
        Location { uri, range }
    }
}

/// What each of several locations says.
pub open spec fn location_models(list: Seq<Location>) -> Seq<LocationModel> {
    Seq::new(list.len(), |i: int| list[i]@)
}

/// A symbol of the workspace and where it is declared.
#[derive(Debug, PartialEq)]
pub struct SymbolInformation {
    pub name: String,
    pub kind: SymbolKind,
    pub location: Location,
}

/// What a workspace symbol says.
#[verifier::ext_equal]
pub struct SymbolInformationModel {
    pub name: Seq<char>,
    pub kind: SymbolKind,
    pub location: LocationModel,
}

impl SymbolInformation {
    pub open spec fn view(&self) -> SymbolInformationModel {
        SymbolInformationModel {
            name: self.name@,
            kind: self.kind,
            location: self.location@,
        }
    }
}

/// What each of several workspace symbols says.
pub open spec fn symbol_information_models(list: Seq<SymbolInformation>) -> Seq<
    SymbolInformationModel,
> {
    Seq::new(list.len(), |i: int| list[i]@)
}

/// A symbol of a document's outline.
#[derive(Debug, PartialEq)]
pub struct DocumentSymbol {
    pub name: String,
    pub detail: Option<String>,
    pub kind: SymbolKind,
    pub range: Range,
    pub selection_range: Range,
}

/// What an outline's symbol says.
#[verifier::ext_equal]
pub struct DocumentSymbolModel {
    pub name: Seq<char>,
    pub detail: Option<Seq<char>>,
    pub kind: SymbolKind,
    pub range: Range,
    pub selection_range: Range,
}

impl DocumentSymbol {
    pub open spec fn view(&self) -> DocumentSymbolModel {
        DocumentSymbolModel {
            name: self.name@,
            detail: match self.detail {
                Some(text) => Some(text@),
                None => None,
            },
            kind: self.kind,
            range: self.range,
            selection_range: self.selection_range,
        }
    }
}

/// What each of several diagnostics says is its range, severity, source and message,
/// one for one.
pub proof fn law_diagnostics_say_all_they_hold(list: Seq<Diagnostic>)
    ensures
        diagnostic_models(list) == list.map_values(
            |d: Diagnostic|
                DiagnosticModel {
                    range: d.range,
                    severity: d.severity,
                    source: if d.source is Some {
                        Some(d.source->0@)
                    } else {
                        None
                    },
                    message: d.message@,
                },
        ),
{
    let all = list.map_values(
        |d: Diagnostic|
            DiagnosticModel {
                range: d.range,
                severity: d.severity,
                source: if d.source is Some {
                    Some(d.source->0@)
                } else {
                    None
                },
                message: d.message@,
            },
    );
    assert forall|i: int| 0 <= i < list.len() implies #[trigger] diagnostic_models(list)[i]
        == all[i] by {}
    assert(diagnostic_models(list) =~= all);
}

/// What each of several locations says is its URI and range, one for one.
pub proof fn law_locations_say_all_they_hold(list: Seq<Location>)
    ensures
        location_models(list) == list.map_values(
            |l: Location| LocationModel { uri: l.uri@, range: l.range },
        ),
{
    assert(location_models(list) =~= list.map_values(
        |l: Location| LocationModel { uri: l.uri@, range: l.range },
    ));
}

/// What each of several workspace symbols says is its name, kind, URI and range, one
/// for one.
pub proof fn law_workspace_symbols_say_all_they_hold(list: Seq<SymbolInformation>)
    ensures
        symbol_information_models(list) == list.map_values(
            |x: SymbolInformation|
                SymbolInformationModel {
                    name: x.name@,
                    kind: x.kind,
                    location: LocationModel { uri: x.location.uri@, range: x.location.range },
                },
        ),
{
    assert(symbol_information_models(list) =~= list.map_values(
        |x: SymbolInformation|
            SymbolInformationModel {
                name: x.name@,
                kind: x.kind,
                location: LocationModel { uri: x.location.uri@, range: x.location.range },
            },
    ));
}

/// An outline's symbol says its name, detail, kind and ranges.
pub proof fn law_an_outline_symbol_says_all_it_holds(x: DocumentSymbol)
    ensures
        x@.name == x.name@,
        x@.kind == x.kind,
        x@.range == x.range,
        x@.selection_range == x.selection_range,
        x@.detail is Some <==> x.detail is Some,
        x.detail is Some ==> x@.detail->0 == x.detail->0@,
{
}

} // verus!
