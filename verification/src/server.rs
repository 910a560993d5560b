//! The Language Server Protocol backend. It keeps the open documents, the semantic
//! diagnostics of the last open or save, and the workspace index, and decides what
//! each notification changes and what is published.
//!
//! The passes themselves run outside. A refresh is begun here, handed out with
//! what the passes need, and finished here with what they reported.

use dashmap::DashMap;
use tower_lsp::lsp_types::Url;
use vstd::prelude::*;

use crate::compiler::analyze::FileDiagnostics;
#[allow(unused_imports)]
use crate::compiler::analyze::{file_models, FileModel};
use crate::compiler::symbols::{definition, document_symbols, Symbol, Syntax};
#[allow(unused_imports)]
use crate::compiler::symbols::{definition_of, symbol_models, symbols_of, SymbolModel};
#[allow(unused_imports)]
use crate::compiler::tokens::is_legend;
use crate::compiler::tokens::legend;
use crate::config::Config;
#[allow(unused_imports)]
use crate::document::DocumentModel;
#[allow(unused_imports)]
use crate::position::fits;
use crate::protocol::{
    duplicate_diagnostics, Diagnostic, DocumentSymbol, Location, Position, SemanticTokensLegend,
    SymbolInformation,
};
#[allow(unused_imports)]
use crate::protocol::{
    diagnostic_models, location_models, symbol_information_models, DiagnosticModel,
    DocumentSymbolModel, LocationModel,
};
use crate::store::Store;
use crate::text::same_str;
use crate::workspace::Workspace;
#[allow(unused_imports)]
use crate::workspace::{
    declared, index_of, lowercased, references_along, symbols_along, walks, IndexModel, Indexed,
};

verus! {

/// What a map of diagnostics holds, by the text of its keys.
pub uninterp spec fn diagnostics_in(cache: DashMap<String, Vec<Diagnostic>>) -> Map<
    Seq<char>,
    Vec<Diagnostic>,
>;

/// `DashMap::new`: a new map holds nothing.
#[verifier::external_body]
fn cache_new() -> (cache: DashMap<String, Vec<Diagnostic>>)
    ensures
        (diagnostics_in(cache) == Map::<Seq<char>, Vec<Diagnostic>>::empty()),
{
    DashMap::new()
}

/// `DashMap::insert`: the value stands under the key afterwards, in place of any
/// that stood there, and nothing else changes.
#[verifier::external_body]
fn cache_insert(cache: &mut DashMap<String, Vec<Diagnostic>>, uri: String, list: Vec<Diagnostic>)
    ensures
        diagnostics_in(*final(cache)) == diagnostics_in(*old(cache)).insert(uri@, list),
{
    cache.insert(uri, list);
}

/// `DashMap::remove`: nothing stands under the key afterwards, and nothing else
/// changes.
#[verifier::external_body]
fn cache_remove(cache: &mut DashMap<String, Vec<Diagnostic>>, uri: &str)
    ensures
        diagnostics_in(*final(cache)) == diagnostics_in(*old(cache)).remove(uri@),
{
    cache.remove(uri);
}

/// `DashMap::get`: finds the value under a key exactly where one stands there. The
/// diagnostics are copied out, so no lock is held once this returns.
#[verifier::external_body]
fn cache_get(cache: &DashMap<String, Vec<Diagnostic>>, uri: &str) -> (found: Option<
    Vec<Diagnostic>,
>)
    ensures
        match found {
            Some(list) => diagnostics_in(*cache).contains_key(uri@) && diagnostic_models(list@)
                == diagnostic_models(diagnostics_in(*cache)[uri@]@),
            None => !diagnostics_in(*cache).contains_key(uri@),
        },
{
    cache.get(uri).map(|list| duplicate_diagnostics(list.value()))
}

/// Whether `path`, or that there is none, is an answer `Url::to_file_path` gives for a
/// URI on some platform. A platform's own rules for paths decide as much as the URI
/// does, so a URI may have more than one answer.
pub uninterp spec fn names_path(uri: Seq<char>, path: Option<Seq<char>>) -> bool;

/// `Url::to_file_path`: the path on disk a URI names, read out as text by
/// `Path::to_string_lossy`, where the URI parses and names one. All that is claimed
/// is that the answer was made from this URI. Which path that is, and whether there
/// is one, depends on the platform's own rules for paths as much as on the URI, so
/// nothing more is said of it. A debug build of `url` asserts on Windows that the
/// path is absolute, which a URI that names a bare drive does not meet.
#[verifier::external_body]
fn file_path(uri: &str) -> (path: Option<String>)
    ensures
        names_path(
            uri@,
            match path {
                Some(text) => Some(text@),
                None => None,
            },
        ),
{
    let path = Url::parse(uri).ok()?.to_file_path().ok()?;
    Some(path.to_string_lossy().into_owned())
}

/// A refresh of one document's diagnostics that is under way: the text and version
/// it started from, and the path the semantic pass loads, where it is to run and
/// there is one.
#[derive(Debug)]
pub struct Refresh {
    pub uri: String,
    pub text: String,
    pub version: i32,
    pub run_semantic: bool,
    pub path: Option<String>,
}

/// What a refresh says.
#[verifier::ext_equal]
pub struct RefreshModel {
    pub uri: Seq<char>,
    pub text: Seq<char>,
    pub version: i32,
    pub run_semantic: bool,
    pub path: Option<Seq<char>>,
}

impl Refresh {
    pub open spec fn view(&self) -> RefreshModel {
        RefreshModel {
            uri: self.uri@,
            text: self.text@,
            version: self.version,
            run_semantic: self.run_semantic,
            path: match self.path {
                Some(path) => Some(path@),
                None => None,
            },
        }
    }
}

/// Diagnostics to publish for a document, tagged with the version they were made
/// from.
#[derive(Debug, PartialEq)]
pub struct Publish {
    pub uri: String,
    pub diagnostics: Vec<Diagnostic>,
    pub version: Option<i32>,
}

/// What a publish says.
#[verifier::ext_equal]
pub struct PublishModel {
    pub uri: Seq<char>,
    pub diagnostics: Seq<DiagnosticModel>,
    pub version: Option<i32>,
}

impl Publish {
    pub open spec fn view(&self) -> PublishModel {
        PublishModel {
            uri: self.uri@,
            diagnostics: diagnostic_models(self.diagnostics@),
            version: self.version,
        }
    }
}

/// What the backend knows.
#[verifier::ext_equal]
pub struct BackendModel {
    /// The open documents, by URI.
    pub documents: Map<Seq<char>, DocumentModel>,
    /// The semantic diagnostics of the last open or save, by URI.
    pub semantic: Map<Seq<char>, Seq<DiagnosticModel>>,
    /// The indexed files, by URI.
    pub index: Map<Seq<char>, IndexModel>,
}

/// The diagnostics of the files among the first `n` that have the path.
pub open spec fn own(files: Seq<FileModel>, n: int, path: Seq<char>) -> Seq<DiagnosticModel>
    decreases n,
{
    if n <= 0 {
        Seq::empty()
    } else if files[n - 1].path == path {
        own(files, n - 1, path) + files[n - 1].diagnostics
    } else {
        own(files, n - 1, path)
    }
}

/// The cached semantic diagnostics of a document, none where none are cached.
pub open spec fn cached(state: BackendModel, uri: Seq<char>) -> Seq<DiagnosticModel> {
    if state.semantic.contains_key(uri) {
        state.semantic[uri]
    } else {
        Seq::empty()
    }
}

/// The semantic diagnostics a refresh publishes: this file's own where the pass
/// ran, none where it had no path to load, and the cached ones where it was not
/// to run.
pub open spec fn semantic_part(
    state: BackendModel,
    refresh: RefreshModel,
    files: Seq<FileModel>,
) -> Seq<DiagnosticModel> {
    if refresh.run_semantic {
        match refresh.path {
            Some(path) => own(files, files.len() as int, path),
            None => Seq::empty(),
        }
    } else {
        cached(state, refresh.uri)
    }
}

/// The state a finished refresh leaves: the cache holds this file's own
/// diagnostics where the semantic pass ran.
pub open spec fn finished(
    state: BackendModel,
    refresh: RefreshModel,
    files: Seq<FileModel>,
) -> BackendModel {
    if refresh.run_semantic && refresh.path is Some {
        BackendModel {
            semantic: state.semantic.insert(
                refresh.uri,
                own(files, files.len() as int, refresh.path->0),
            ),
            ..state
        }
    } else {
        state
    }
}

/// Whether a document has been edited past a version, or closed.
pub open spec fn edited_past(state: BackendModel, uri: Seq<char>, version: i32) -> bool {
    !(state.documents.contains_key(uri) && state.documents[uri].version == version)
}

/// What a finished refresh publishes: nothing where the document has moved on,
/// else the syntax diagnostics and then the semantic ones.
pub open spec fn published(
    state: BackendModel,
    refresh: RefreshModel,
    syntax: Seq<DiagnosticModel>,
    files: Seq<FileModel>,
) -> Option<PublishModel> {
    if edited_past(state, refresh.uri, refresh.version) {
        None
    } else {
        Some(
            PublishModel {
                uri: refresh.uri,
                diagnostics: syntax + semantic_part(state, refresh, files),
                version: Some(refresh.version),
            },
        )
    }
}

/// The refresh of a document, given the path its URI names: it starts from what the
/// document holds, and a document that is not open has none.
pub open spec fn begin(
    state: BackendModel,
    uri: Seq<char>,
    run_semantic: bool,
    path: Option<Seq<char>>,
) -> Option<RefreshModel> {
    if state.documents.contains_key(uri) {
        Some(
            RefreshModel {
                uri,
                text: state.documents[uri].text,
                version: state.documents[uri].version,
                run_semantic,
                path: if run_semantic {
                    path
                } else {
                    None
                },
            },
        )
    } else {
        None
    }
}

/// Whether a refresh of a document is begun, with a path its URI names where the
/// semantic pass is to run.
pub open spec fn begun(
    state: BackendModel,
    uri: Seq<char>,
    run_semantic: bool,
    refresh: Option<RefreshModel>,
) -> bool {
    exists|path: Option<Seq<char>>|
        refresh == #[trigger] begin(state, uri, run_semantic, path) && (run_semantic ==> names_path(
            uri,
            path,
        ))
}

/// What a refresh that may not have begun says.
pub open spec fn refresh_model(refresh: Option<Refresh>) -> Option<RefreshModel> {
    match refresh {
        Some(r) => Some(r@),
        None => None,
    }
}

/// The diagnostics of the files that have the path.
pub fn own_diagnostics(per_file: Vec<FileDiagnostics>, path: &str) -> (mine: Vec<Diagnostic>)
    ensures
        diagnostic_models(mine@) == own(
            file_models(per_file@),
            per_file@.len() as int,
            path@,
        ),
{
    let ghost files = file_models(per_file@);
    let mut mine: Vec<Diagnostic> = Vec::new();
    let mut i: usize = 0;
    while i < per_file.len()
        invariant
            files == file_models(per_file@),
            0 <= i <= per_file@.len(),
            diagnostic_models(mine@) == own(files, i as int, path@),
        decreases per_file@.len() - i,
    {
        if same_str(per_file[i].path.as_str(), path) {
            let mut more = duplicate_diagnostics(&per_file[i].diagnostics);
            let ghost before = mine@;
            let ghost added = more@;
            mine.append(&mut more);
            assert(diagnostic_models(mine@) =~= diagnostic_models(before) + diagnostic_models(
                added,
            ));
        }
        i += 1;
    }
    mine
}

/// How a client sends a document's changes.
#[derive(Clone, Copy, Debug, PartialEq, Eq, Structural)]
pub enum TextDocumentSyncKind {
    /// Every change sends the whole document.
    Full,
}

/// What the server offers, as it advertises it.
#[derive(Debug, PartialEq)]
pub struct ServerCapabilities {
    pub open_close: bool,
    pub change: TextDocumentSyncKind,
    pub save: bool,
    pub semantic_tokens_legend: SemanticTokensLegend,
    pub semantic_tokens_range: bool,
    pub semantic_tokens_full: bool,
    pub hover: bool,
    pub definition: bool,
    pub references: bool,
    pub document_symbol: bool,
    pub workspace_symbol: bool,
}

/// The answer to a client that starts the server: its name, what it offers, and
/// the variable its settings put into the process environment.
#[derive(Debug, PartialEq)]
pub struct InitializeResult {
    pub name: &'static str,
    pub capabilities: ServerCapabilities,
    pub setting: Option<(String, String)>,
}

/// Answers a client that starts the server with these settings, if it sent any.
pub fn initialize(sent: Option<Config>) -> (result: InitializeResult)
    ensures
        result.name@ == "vesper"@,
        match sent {
            Some(config) => match config.dusk_home {
                Some(home) => result.setting matches Some((key, value)) && key@ == "DUSK_HOME"@
                    && value@ == home@,
                None => result.setting is None,
            },
            None => result.setting is None,
        },
        ({
            let offered = result.capabilities;
            &&& offered.open_close && offered.save && offered.change
                == TextDocumentSyncKind::Full
            &&& offered.semantic_tokens_full && !offered.semantic_tokens_range
            &&& offered.hover && offered.definition && offered.references
            &&& offered.document_symbol && offered.workspace_symbol
            &&& is_legend(offered.semantic_tokens_legend)
        }),
{
    let setting = Config::from_value(sent).apply();
    let capabilities = ServerCapabilities {
        // Advertise open, change, and save explicitly, so every client sends the
        // save notification the semantic pass depends on.
        open_close: true,
        change: TextDocumentSyncKind::Full,
        save: true,
        semantic_tokens_legend: legend(),
        semantic_tokens_range: false,
        semantic_tokens_full: true,
        hover: true,
        definition: true,
        references: true,
        document_symbol: true,
        workspace_symbol: true,
    };
    InitializeResult { name: "vesper", capabilities, setting }
}

/// The server state every request task shares.
pub struct Backend {
    store: Store,
    /// The semantic diagnostics from the last open or save, per document. The
    /// syntax pass runs on every edit, but the semantic pass needs the file on
    /// disk, so between saves the cached set is merged back in. Without it a
    /// name or type error would vanish on the first keystroke and only return on
    /// the next save.
    semantic: DashMap<String, Vec<Diagnostic>>,
    workspace: Workspace,
}

impl Backend {
    /// What the backend knows.
    pub closed spec fn view(&self) -> BackendModel {
        BackendModel {
            documents: self.store@,
            semantic: Map::new(
                |uri: Seq<char>| diagnostics_in(self.semantic).contains_key(uri),
                |uri: Seq<char>| diagnostic_models(diagnostics_in(self.semantic)[uri]@),
            ),
            index: self.workspace@,
        }
    }

    pub closed spec fn wf(&self) -> bool {
        self.store.wf() && self.workspace.wf()
    }

    pub fn new() -> (backend: Backend)
        ensures
            backend.wf(),
            backend@ == (BackendModel {
                documents: Map::empty(),
                semantic: Map::empty(),
                index: Map::empty(),
            }),
    {
        let backend = Backend {
            store: Store::new(),
            semantic: cache_new(),
            workspace: Workspace::new(),
        };
        assert(backend@.semantic =~= Map::<Seq<char>, Seq<DiagnosticModel>>::empty());
        backend
    }

    /// The current text of an open document, if it is open.
    pub fn text(&self, uri: &str) -> (text: Option<String>)
        ensures
            match text {
                Some(t) => self@.documents.contains_key(uri@) && t@ == self@.documents[uri@].text,
                None => !self@.documents.contains_key(uri@),
            },
    {
        self.store.text(uri)
    }

    /// Begins to recompute one file's diagnostics.
    ///
    /// The syntax pass always runs, on the in-memory buffer. When `run_semantic`
    /// is set and the file has a path on disk, the semantic pass runs too, its
    /// diagnostics for this file replace the cached set, and it joins the
    /// publish. Otherwise the cached semantic set joins instead, so an error
    /// from the last save stays visible while the buffer is edited.
    ///
    /// The document version is captured up front and checked again before every
    /// publish. A slow semantic load can outlast a fresh edit, and this makes
    /// the stale result step aside for the newer one rather than overwrite it.
    pub fn begin_refresh(&self, uri: &str, run_semantic: bool) -> (refresh: Option<Refresh>)
        ensures
            begun(self@, uri@, run_semantic, refresh_model(refresh)),
    {
        let path = if run_semantic {
            file_path(uri)
        } else {
            None
        };
        self.begin_with_path(uri, run_semantic, path)
    }

    /// Begins a refresh whose semantic pass, if it is to run, loads `path`.
    pub fn begin_with_path(&self, uri: &str, run_semantic: bool, path: Option<String>) -> (refresh:
        Option<Refresh>)
        ensures
            refresh_model(refresh) == begin(
                self@,
                uri@,
                run_semantic,
                match path {
                    Some(text) => Some(text@),
                    None => None,
                },
            ),
    {
        match self.store.snapshot(uri) {
            Some((text, version)) => Some(
                Refresh {
                    uri: uri.to_owned(),
                    text,
                    version,
                    run_semantic,
                    path: if run_semantic {
                        path
                    } else {
                        None
                    },
                },
            ),
            None => None,
        }
    }

    /// Finishes a refresh with what the passes reported: the diagnostics of the
    /// syntax pass, and those of the semantic pass per file where it ran.
    pub fn finish_refresh(
        &mut self,
        refresh: Refresh,
        syntax: Vec<Diagnostic>,
        per_file: Vec<FileDiagnostics>,
    ) -> (publish: Option<Publish>)
        requires
            old(self).wf(),
        ensures
            final(self).wf(),
            final(self)@ == finished(old(self)@, refresh@, file_models(per_file@)),
            match publish {
                Some(p) => published(
                    old(self)@,
                    refresh@,
                    diagnostic_models(syntax@),
                    file_models(per_file@),
                ) == Some(p@),
                None => published(
                    old(self)@,
                    refresh@,
                    diagnostic_models(syntax@),
                    file_models(per_file@),
                ) is None,
            },
    {
        let ghost files = file_models(per_file@);
        let ghost r = refresh@;
        let mut semantic = if refresh.run_semantic {
            self.run_semantic(&refresh, per_file)
        } else {
            match cache_get(&self.semantic, refresh.uri.as_str()) {
                Some(list) => list,
                None => {
                    let none: Vec<Diagnostic> = Vec::new();
                    assert(diagnostic_models(none@) =~= Seq::empty());
                    none
                },
            }
        };
        assert(diagnostic_models(semantic@) == semantic_part(old(self)@, r, files));
        // The semantic pass may outlast a newer edit. Let that edit's refresh
        // publish instead of overwriting it with a set built from older text and
        // tagged with an older version.
        if self.superseded(refresh.uri.as_str(), refresh.version) {
            return None;
        }
        let ghost shown = semantic@;
        let mut diagnostics = syntax;
        diagnostics.append(&mut semantic);
        assert(diagnostic_models(diagnostics@) =~= diagnostic_models(syntax@) + diagnostic_models(
            shown,
        ));
        Some(Publish { uri: refresh.uri, diagnostics, version: Some(refresh.version) })
    }

    /// Takes what the semantic pass reported and returns this file's own
    /// diagnostics, updating the cache so later syntax only publishes can merge
    /// them back in. A document with no path on disk has no semantic pass and
    /// yields an empty set.
    fn run_semantic(&mut self, refresh: &Refresh, per_file: Vec<FileDiagnostics>) -> (mine: Vec<
        Diagnostic,
    >)
        requires
            old(self).wf(),
            refresh.run_semantic,
        ensures
            final(self).wf(),
            final(self)@ == finished(old(self)@, refresh@, file_models(per_file@)),
            diagnostic_models(mine@) == semantic_part(
                old(self)@,
                refresh@,
                file_models(per_file@),
            ),
    {
        match &refresh.path {
            Some(path) => {
                let mine = own_diagnostics(per_file, path.as_str());
                let copy = duplicate_diagnostics(&mine);
                cache_insert(&mut self.semantic, refresh.uri.clone(), copy);
                assert(self@.semantic =~= old(self)@.semantic.insert(
                    refresh.uri@,
                    diagnostic_models(mine@),
                ));
                mine
            },
            None => {
                let none: Vec<Diagnostic> = Vec::new();
                assert(diagnostic_models(none@) =~= Seq::empty());
                none
            },
        }
    }

    /// True when the document has been edited past the version a refresh started
    /// from, so its result should be dropped in favor of the newer refresh.
    pub fn superseded(&self, uri: &str, version: i32) -> (b: bool)
        ensures
            b == edited_past(self@, uri@, version),
    {
        match self.store.version(uri) {
            Some(now) => now != version,
            None => true,
        }
    }

    /// Takes in a document the client opened, and begins its refresh.
    pub fn did_open(&mut self, uri: String, text: String, version: i32) -> (refresh: Option<Refresh>)
        requires
            old(self).wf(),
            fits(text@),
        ensures
            final(self).wf(),
            final(self)@ == (BackendModel {
                documents: old(self)@.documents.insert(
                    uri@,
                    DocumentModel { text: text@, version },
                ),
                ..old(self)@
            }),
            begun(final(self)@, uri@, true, refresh_model(refresh)),
    {
        let key = uri.clone();
        self.store.open(uri, text, version);
        self.begin_refresh(key.as_str(), true)
    }

    /// Takes in a change of a document, and begins its refresh. Full sync sends
    /// the whole document as the last change, so the last text wins.
    pub fn did_change(&mut self, uri: String, changes: Vec<String>, version: i32) -> (refresh:
        Option<Refresh>)
        requires
            old(self).wf(),
            changes@.len() > 0 ==> fits(changes@.last()@),
        ensures
            final(self).wf(),
            changes@.len() == 0 ==> refresh is None && final(self)@ == old(self)@,
            changes@.len() > 0 ==> final(self)@ == (BackendModel {
                documents: old(self)@.documents.insert(
                    uri@,
                    DocumentModel { text: changes@.last()@, version },
                ),
                ..old(self)@
            }) && begun(final(self)@, uri@, false, refresh_model(refresh)),
    {
        let mut changes = changes;
        match changes.pop() {
            Some(text) => {
                let key = uri.clone();
                self.store.update(uri, text, version);
                self.begin_refresh(key.as_str(), false)
            },
            None => None,
        }
    }

    /// Begins the refresh of a document the client saved.
    pub fn did_save(&self, uri: &str) -> (refresh: Option<Refresh>)
        ensures
            begun(self@, uri@, true, refresh_model(refresh)),
    {
        self.begin_refresh(uri, true)
    }

    /// Drops a document the client closed, and clears anything the editor still
    /// shows for a file it no longer tracks.
    pub fn did_close(&mut self, uri: String) -> (publish: Publish)
        requires
            old(self).wf(),
        ensures
            final(self).wf(),
            final(self)@ == (BackendModel {
                documents: old(self)@.documents.remove(uri@),
                semantic: old(self)@.semantic.remove(uri@),
                ..old(self)@
            }),
            publish@ == (PublishModel { uri: uri@, diagnostics: Seq::empty(), version: None }),
    {
        self.store.close(uri.as_str());
        cache_remove(&mut self.semantic, uri.as_str());
        assert(self@.semantic =~= old(self)@.semantic.remove(uri@));
        let publish = Publish { uri, diagnostics: Vec::new(), version: None };
        assert(publish@.diagnostics =~= Seq::empty());
        publish
    }

    /// Indexes a file from its current text, replacing any earlier entry.
    pub fn index(&mut self, uri: String, text: &str, syntax: &Syntax)
        requires
            old(self).wf(),
            fits(text@),
        ensures
            final(self).wf(),
            final(self)@ == (BackendModel {
                index: old(self)@.index.insert(uri@, index_of(text@, *syntax)),
                ..old(self)@
            }),
    {
        self.workspace.index(uri, text, syntax);
    }

    /// Indexes a file only if it is not already indexed.
    pub fn index_if_absent(&mut self, uri: String, text: &str, syntax: &Syntax)
        requires
            old(self).wf(),
            fits(text@),
        ensures
            final(self).wf(),
            final(self)@ == (if old(self)@.index.contains_key(uri@) {
                old(self)@
            } else {
                BackendModel {
                    index: old(self)@.index.insert(uri@, index_of(text@, *syntax)),
                    ..old(self)@
                }
            }),
    {
        self.workspace.index_if_absent(uri, text, syntax);
    }

    /// Every occurrence of a name met in a document. A name the workspace declares
    /// is searched everywhere; one it does not is likely a local and stays in its
    /// own file.
    pub fn references(&self, uri: &str, name: &str) -> (out: Vec<Location>)
        ensures
            exists|walk: Seq<Indexed>| #[trigger]
                walks(walk, self@.index) && location_models(out@) == references_along(
                    walk,
                    walk.len() as int,
                    name@,
                    if declared(self@.index, name@) {
                        None
                    } else {
                        Some(uri@)
                    },
                ),
    {
        assert(self@.index == self.workspace@);
        if self.workspace.declares(name) {
            self.workspace.references(name, None)
        } else {
            self.workspace.references(name, Some(uri))
        }
    }

    /// The declared symbols of the workspace whose name contains `query`, case
    /// insensitively. An empty query returns everything.
    pub fn symbols(&self, query: &str) -> (out: Vec<SymbolInformation>)
        ensures
            exists|walk: Seq<Indexed>| #[trigger]
                walks(walk, self@.index) && symbol_information_models(out@) == symbols_along(
                    walk,
                    walk.len() as int,
                    lowercased(query@),
                ) && (query@.len() == 0 ==> symbol_information_models(out@) == symbols_along(
                    walk,
                    walk.len() as int,
                    Seq::empty(),
                )),
    {
        assert(self@.index == self.workspace@);
        self.workspace.symbols(query)
    }
}

/// Where the name under `pos` is declared within its document, as a location.
pub fn goto_definition(uri: String, text: &str, pos: Position, syntax: &Syntax) -> (found: Option<
    Location,
>)
    requires
        fits(text@),
    ensures
        match definition_of(text@, *syntax, pos) {
            Some(range) => found matches Some(loc) && loc@ == (LocationModel {
                uri: uri@,
                range,
            }),
            None => found is None,
        },
{
    match definition(text, pos, syntax) {
        Some(range) => Some(Location::new(uri, range)),
        None => None,
    }
}

/// A symbol as the outline shows it.
pub open spec fn outlined(symbol: SymbolModel) -> DocumentSymbolModel {
    DocumentSymbolModel {
        name: symbol.name,
        detail: Some(symbol.detail),
        kind: symbol.kind,
        range: symbol.name_range,
        selection_range: symbol.name_range,
    }
}

/// Converts a vesper symbol into the protocol's document symbol. The name range
/// stands in for the full range too, since the tree does not span a whole
/// declaration.
pub fn to_document_symbol(symbol: Symbol) -> (out: DocumentSymbol)
    ensures
        out@ == outlined(symbol@),
{
    DocumentSymbol {
        name: symbol.name,
        detail: Some(symbol.detail),
        kind: symbol.kind,
        range: symbol.name_range,
        selection_range: symbol.name_range,
    }
}

/// The outline of a document: its symbols, in source order.
pub fn document_symbol(text: &str, syntax: &Syntax) -> (out: Vec<DocumentSymbol>)
    requires
        fits(text@),
    ensures
        out@.len() == symbols_of(text@, *syntax).len(),
        forall|i: int|
            0 <= i < out@.len() ==> (#[trigger] out@[i])@ == outlined(
                symbols_of(text@, *syntax)[i],
            ),
{
    let symbols = document_symbols(text, syntax);
    let mut out: Vec<DocumentSymbol> = Vec::new();
    let mut i: usize = 0;
    while i < symbols.len()
        invariant
            symbol_models(symbols@) == symbols_of(text@, *syntax),
            0 <= i <= symbols@.len(),
            out@.len() == i,
            forall|j: int|
                0 <= j < i ==> (#[trigger] out@[j])@ == outlined(
                    symbols_of(text@, *syntax)[j],
                ),
        decreases symbols@.len() - i,
    {
        assert(symbol_models(symbols@)[i as int] == symbols@[i as int]@);
        out.push(to_document_symbol(symbols[i].duplicate()));
        i += 1;
    }
    out
}

/// A stale result steps aside: once a document has moved on from the version a
/// refresh started from, finishing that refresh publishes nothing, and while it
/// has not, the publish carries that version.
pub proof fn law_a_stale_result_steps_aside(
    state: BackendModel,
    refresh: RefreshModel,
    syntax: Seq<DiagnosticModel>,
    files: Seq<FileModel>,
)
    ensures
        edited_past(state, refresh.uri, refresh.version) <==> published(
            state,
            refresh,
            syntax,
            files,
        ) is None,
        published(state, refresh, syntax, files) matches Some(p) ==> p.uri == refresh.uri
            && p.version == Some(refresh.version) && state.documents[refresh.uri].version
            == refresh.version,
{
}

/// A semantic error from the last save stays visible while the buffer is edited:
/// after a semantic pass on a document, an edit of it is published with what that
/// pass found, whatever the edit's own syntax diagnostics are.
pub proof fn law_semantic_errors_outlive_an_edit(
    state: BackendModel,
    saved: RefreshModel,
    files: Seq<FileModel>,
    edited: DocumentModel,
    edit: RefreshModel,
    syntax: Seq<DiagnosticModel>,
    none: Seq<FileModel>,
)
    requires
        saved.run_semantic,
        saved.path is Some,
        begin(
            BackendModel {
                documents: finished(state, saved, files).documents.insert(saved.uri, edited),
                ..finished(state, saved, files)
            },
            saved.uri,
            false,
            None,
        ) == Some(edit),
    ensures
        ({
            let after = finished(state, saved, files);
            let now = BackendModel {
                documents: after.documents.insert(saved.uri, edited),
                ..after
            };
            published(now, edit, syntax, none) == Some(
                PublishModel {
                    uri: saved.uri,
                    diagnostics: syntax + own(files, files.len() as int, saved.path->0),
                    version: Some(edited.version),
                },
            )
        }),
{
}

/// A refresh without the semantic pass leaves the state as it is, so one edit
/// after another keeps the same cached set.
pub proof fn law_an_edit_keeps_the_cached_set(
    state: BackendModel,
    refresh: RefreshModel,
    files: Seq<FileModel>,
)
    requires
        !refresh.run_semantic,
    ensures
        finished(state, refresh, files) == state,
{
}

/// Closing a document clears it: nothing of it is cached, and a refresh still
/// under way publishes nothing.
pub proof fn law_closing_clears_a_document(
    state: BackendModel,
    uri: Seq<char>,
    refresh: RefreshModel,
    syntax: Seq<DiagnosticModel>,
    files: Seq<FileModel>,
)
    requires
        refresh.uri == uri,
    ensures
        ({
            let closed = BackendModel {
                documents: state.documents.remove(uri),
                semantic: state.semantic.remove(uri),
                ..state
            };
            &&& cached(closed, uri).len() == 0
            &&& published(closed, refresh, syntax, files) is None
        }),
{
}

/// A refresh of one document changes nothing another document's refresh sees.
pub proof fn law_refreshes_do_not_mix(
    state: BackendModel,
    refresh: RefreshModel,
    files: Seq<FileModel>,
    other: RefreshModel,
    syntax: Seq<DiagnosticModel>,
    others: Seq<FileModel>,
)
    requires
        other.uri != refresh.uri,
    ensures
        published(finished(state, refresh, files), other, syntax, others) == published(
            state,
            other,
            syntax,
            others,
        ),
{
}

/// Only diagnostics of the document's own file are cached and published for it: a
/// file with another path adds nothing.
pub proof fn law_other_files_add_nothing(files: Seq<FileModel>, n: int, path: Seq<char>)
    requires
        0 <= n <= files.len(),
        forall|i: int| 0 <= i < n ==> (#[trigger] files[i]).path != path,
    ensures
        own(files, n, path).len() == 0,
    decreases n,
{
    if n > 0 {
        law_other_files_add_nothing(files, n - 1, path);
    }
}

/// A refresh that nothing overtakes is published: finished on the state it was
/// begun on, it says what the syntax pass and then the semantic pass found.
pub proof fn law_a_current_refresh_is_published(
    state: BackendModel,
    uri: Seq<char>,
    run_semantic: bool,
    path: Option<Seq<char>>,
    refresh: RefreshModel,
    syntax: Seq<DiagnosticModel>,
    files: Seq<FileModel>,
)
    requires
        begin(state, uri, run_semantic, path) == Some(refresh),
    ensures
        published(state, refresh, syntax, files) == Some(
            PublishModel {
                uri,
                diagnostics: syntax + semantic_part(state, refresh, files),
                version: Some(state.documents[uri].version),
            },
        ),
{
}

/// A document's own diagnostics are those of every listed file that has its path,
/// whole and in order: the lists of those files one after the other.
pub proof fn law_own_diagnostics_are_every_list_of_the_path(
    files: Seq<FileModel>,
    path: Seq<char>,
)
    ensures
        own(files, files.len() as int, path) == files.filter_map(
            |f: FileModel|
                if f.path == path {
                    Some(f.diagnostics)
                } else {
                    None
                },
        ).flatten(),
{
    let pick = |f: FileModel|
        if f.path == path {
            Some(f.diagnostics)
        } else {
            None
        };
    lemma_own_lists(files, files.len() as int, path, pick);
    assert(files.take(files.len() as int) =~= files);
    files.filter_map(pick).lemma_flatten_and_flatten_alt_are_equivalent();
}

proof fn lemma_own_lists(
    files: Seq<FileModel>,
    n: int,
    path: Seq<char>,
    pick: spec_fn(FileModel) -> Option<Seq<DiagnosticModel>>,
)
    requires
        0 <= n <= files.len(),
        forall|f: FileModel| #[trigger]
            pick(f) == if f.path == path {
                Some(f.diagnostics)
            } else {
                None
            },
    ensures
        own(files, n, path) == files.take(n).filter_map(pick).flatten_alt(),
    decreases n,
{
    if n > 0 {
        lemma_own_lists(files, n - 1, path, pick);
        assert(files.take(n).drop_last() =~= files.take(n - 1));
        let before = files.take(n - 1).filter_map(pick);
        let all = files.take(n).filter_map(pick);
        if files[n - 1].path == path {
            assert(all.drop_last() =~= before);
            assert(all.last() == files[n - 1].diagnostics);
        } else {
            assert(all == before);
        }
        assert(own(files, n, path) =~= all.flatten_alt());
    }
}

/// No diagnostic of a file with the document's path is lost: each stands among the
/// document's own, behind those of the files before it and in its place in its
/// list.
pub proof fn law_no_own_diagnostic_is_lost(
    files: Seq<FileModel>,
    path: Seq<char>,
    f: int,
    d: int,
)
    requires
        0 <= f < files.len(),
        files[f].path == path,
        0 <= d < files[f].diagnostics.len(),
    ensures
        ({
            let mine = own(files, files.len() as int, path);
            let ahead = own(files, f, path).len();
            &&& ahead + d < mine.len()
            &&& mine[ahead + d] == files[f].diagnostics[d]
        }),
{
    lemma_own_grows(files, f + 1, files.len() as int, path);
}

proof fn lemma_own_grows(files: Seq<FileModel>, m: int, n: int, path: Seq<char>)
    requires
        0 <= m <= n <= files.len(),
    ensures
        own(files, m, path).len() <= own(files, n, path).len(),
        forall|i: int|
            0 <= i < own(files, m, path).len() ==> #[trigger] own(files, n, path)[i] == own(
                files,
                m,
                path,
            )[i],
    decreases n - m,
{
    if m < n {
        lemma_own_grows(files, m, n - 1, path);
    }
}

/// Where one listed file has the document's path, its whole list is the document's
/// own.
pub proof fn law_a_single_file_gives_its_whole_list(
    files: Seq<FileModel>,
    path: Seq<char>,
    f: int,
)
    requires
        0 <= f < files.len(),
        files[f].path == path,
        forall|g: int| 0 <= g < files.len() && g != f ==> (#[trigger] files[g]).path != path,
    ensures
        own(files, files.len() as int, path) == files[f].diagnostics,
{
    law_other_files_add_nothing(files, f, path);
    assert(own(files, f + 1, path) =~= files[f].diagnostics);
    lemma_own_stays(files, f + 1, files.len() as int, path);
}

proof fn lemma_own_stays(files: Seq<FileModel>, m: int, n: int, path: Seq<char>)
    requires
        0 <= m <= n <= files.len(),
        forall|g: int| m <= g < n ==> (#[trigger] files[g]).path != path,
    ensures
        own(files, n, path) == own(files, m, path),
    decreases n - m,
{
    if m < n {
        lemma_own_stays(files, m, n - 1, path);
    }
}

/// What a refresh with a semantic pass comes to, where the document has not moved
/// on: it publishes every syntax diagnostic and then every diagnostic the pass lists
/// for the document's path, under the version it began with; the latter are cached
/// for the document, and nothing else changes.
pub proof fn law_a_semantic_refresh_publishes_and_caches_its_lists(
    state: BackendModel,
    refresh: RefreshModel,
    path: Seq<char>,
    syntax: Seq<DiagnosticModel>,
    files: Seq<FileModel>,
)
    requires
        refresh.run_semantic,
        refresh.path == Some(path),
    ensures
        ({
            let mine = files.filter_map(
                |f: FileModel|
                    if f.path == path {
                        Some(f.diagnostics)
                    } else {
                        None
                    },
            ).flatten();
            let after = finished(state, refresh, files);
            &&& after.semantic == state.semantic.insert(refresh.uri, mine)
            &&& after.documents == state.documents
            &&& after.index == state.index
            &&& state.documents.contains_key(refresh.uri)
                && state.documents[refresh.uri].version == refresh.version ==> published(
                state,
                refresh,
                syntax,
                files,
            ) == Some(
                PublishModel {
                    uri: refresh.uri,
                    diagnostics: syntax + mine,
                    version: Some(refresh.version),
                },
            )
        }),
{
    law_own_diagnostics_are_every_list_of_the_path(files, path);
}

/// What a refresh without a semantic pass comes to, where the document has not
/// moved on: it publishes every syntax diagnostic and then every cached one, if any
/// are cached, and changes nothing. So does one whose document has no path, but for
/// the cached ones.
pub proof fn law_a_syntax_refresh_publishes_the_cached_set(
    state: BackendModel,
    refresh: RefreshModel,
    syntax: Seq<DiagnosticModel>,
    files: Seq<FileModel>,
)
    requires
        !refresh.run_semantic || refresh.path is None,
        state.documents.contains_key(refresh.uri),
        state.documents[refresh.uri].version == refresh.version,
    ensures
        finished(state, refresh, files) == state,
        ({
            let shown = published(state, refresh, syntax, files);
            &&& shown is Some
            &&& shown->0.uri == refresh.uri
            &&& shown->0.version == Some(refresh.version)
            &&& !refresh.run_semantic && state.semantic.contains_key(refresh.uri)
                ==> shown->0.diagnostics == syntax + state.semantic[refresh.uri]
            &&& refresh.run_semantic || !state.semantic.contains_key(refresh.uri)
                ==> shown->0.diagnostics == syntax
        }),
{
    assert(syntax + Seq::<DiagnosticModel>::empty() =~= syntax);
}

/// A refresh publishes nothing once its document was closed or has another version,
/// newer or older.
pub proof fn law_only_the_version_in_force_is_published(
    state: BackendModel,
    refresh: RefreshModel,
    syntax: Seq<DiagnosticModel>,
    files: Seq<FileModel>,
)
    ensures
        published(state, refresh, syntax, files) is Some <==> state.documents.contains_key(
            refresh.uri,
        ) && state.documents[refresh.uri].version == refresh.version,
{
}

/// A refresh begins from the very text and version its document holds, and a
/// document that is not open has none. The path is taken along for a semantic pass
/// and for no other.
pub proof fn law_a_refresh_begins_from_its_document(
    state: BackendModel,
    uri: Seq<char>,
    run_semantic: bool,
    path: Option<Seq<char>>,
)
    ensures
        begin(state, uri, run_semantic, path) is Some <==> state.documents.contains_key(uri),
        begin(state, uri, run_semantic, path) matches Some(r) ==> r.uri == uri && r.text
            == state.documents[uri].text && r.version == state.documents[uri].version
            && r.run_semantic == run_semantic && (run_semantic ==> r.path == path) && (
        !run_semantic ==> r.path is None),
        forall|refresh: Option<RefreshModel>| #[trigger]
            begun(state, uri, run_semantic, refresh) ==> (refresh is Some
                <==> state.documents.contains_key(uri)) && (refresh matches Some(r) ==> r.uri
                == uri && r.text == state.documents[uri].text && r.version
                == state.documents[uri].version && r.run_semantic == run_semantic && (if run_semantic {
                names_path(uri, r.path)
            } else {
                r.path is None
            })),
{
}

/// The outline shows a symbol's own name, signature and kind, and its name's place
/// as both ranges.
pub proof fn law_the_outline_keeps_what_a_symbol_says(symbol: SymbolModel)
    ensures
        outlined(symbol).name == symbol.name,
        outlined(symbol).detail == Some(symbol.detail),
        outlined(symbol).kind == symbol.kind,
        outlined(symbol).range == symbol.name_range,
        outlined(symbol).selection_range == symbol.name_range,
{
}

/// A refresh and a publish say all they hold, and a refresh that has not begun says
/// nothing.
pub proof fn law_refreshes_and_publishes_say_all_they_hold(refresh: Refresh, publish: Publish)
    ensures
        refresh_model(Some(refresh)) is Some && refresh_model(None) is None,
        ({
            let said = refresh_model(Some(refresh))->0;
            &&& said == refresh@
            &&& said.uri == refresh.uri@ && said.text == refresh.text@
            &&& said.version == refresh.version && said.run_semantic == refresh.run_semantic
            &&& said.path is Some <==> refresh.path is Some
            &&& refresh.path is Some ==> said.path->0 == refresh.path->0@
        }),
        publish@.uri == publish.uri@,
        publish@.version == publish.version,
        publish@.diagnostics == publish.diagnostics@.map_values(|d: Diagnostic| d@),
{
    assert(publish@.diagnostics =~= publish.diagnostics@.map_values(|d: Diagnostic| d@));
}

} // verus!
