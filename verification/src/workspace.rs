//! A workspace wide index over the dusk files a project holds.
//!
//! Each file contributes the names it declares and every identifier it mentions.
//! Since the compiler does not hand back a resolved symbol per use, references
//! and cross file definitions are matched by name. A name the workspace declares
//! is treated as a global and searched everywhere; a name it does not is likely
//! a local and stays in its own file.

use std::sync::Arc;

use dashmap::DashMap;
use vstd::prelude::*;
#[allow(unused_imports)]
use vstd::utf8::is_ascii_chars;

use crate::compiler::symbols::{document_symbols, identifiers, Symbol, Syntax};
#[allow(unused_imports)]
use crate::compiler::symbols::{
    first_named, idents_of, law_declarations_are_identifiers, law_identifiers_are_the_name_tokens,
    occurrences, symbol_models, symbols_of, Occurrence, SymbolModel,
};
#[allow(unused_imports)]
use crate::compiler::token::{Token, TokenKind};
#[allow(unused_imports)]
use crate::position::{fits, position_of};
use crate::protocol::{Location, Range, SymbolInformation};
#[allow(unused_imports)]
use crate::protocol::{
    location_models, symbol_information_models, LocationModel, SymbolInformationModel,
};
use crate::text::{contains_str, same_str, str_before};
#[allow(unused_imports)]
use crate::text::{
    has_part, law_a_part_has_text_on_either_side, lemma_text_before_carries,
    lemma_text_before_one_way, text_before,
};

verus! {

/// One file's contribution to the index.
#[derive(Debug)]
pub struct FileIndex {
    pub symbols: Vec<Symbol>,
    pub idents: Vec<(String, Range)>,
}

/// What a file contributes: the names it declares and those it mentions.
#[verifier::ext_equal]
pub struct IndexModel {
    pub symbols: Seq<SymbolModel>,
    pub idents: Seq<Occurrence>,
}

impl FileIndex {
    pub open spec fn view(&self) -> IndexModel {
        IndexModel {
            symbols: symbol_models(self.symbols@),
            idents: occurrences(self.idents@),
        }
    }
}

/// What a text contributes.
pub open spec fn index_of(s: Seq<char>, syntax: Syntax) -> IndexModel {
    IndexModel {
        symbols: symbols_of(s, syntax),
        idents: idents_of(s, syntax.tokens@, syntax.tokens@.len() as int),
    }
}

/// Builds one file's index from its text.
fn build(text: &str, syntax: &Syntax) -> (file: FileIndex)
    requires
        fits(text@),
    ensures
        file@ == index_of(text@, *syntax),
{
    FileIndex {
        symbols: document_symbols(text, syntax),
        idents: identifiers(text, syntax.tokens.as_slice()),
    }
}

/// What a map of file indexes holds, by the text of its keys.
pub uninterp spec fn indexes_in(files: DashMap<String, Arc<FileIndex>>) -> Map<
    Seq<char>,
    FileIndex,
>;

/// `DashMap::new`: a new map holds nothing.
#[verifier::external_body]
fn files_new() -> (files: DashMap<String, Arc<FileIndex>>)
    ensures
        (indexes_in(files) == Map::<Seq<char>, FileIndex>::empty()),
{
    DashMap::new()
}

/// `DashMap::insert`: the value stands under the key afterwards, in place of any
/// that stood there, and nothing else changes.
#[verifier::external_body]
fn files_insert(files: &mut DashMap<String, Arc<FileIndex>>, uri: String, file: Arc<FileIndex>)
    ensures
        indexes_in(*final(files)) == indexes_in(*old(files)).insert(uri@, *file),
{
    files.insert(uri, file);
}

/// `DashMap::entry` and its `or_insert`: where nothing stands under the key the
/// value stands there afterwards; where something does, the map stays as it is.
#[verifier::external_body]
fn files_entry(files: &mut DashMap<String, Arc<FileIndex>>, uri: String, file: Arc<FileIndex>)
    ensures
        indexes_in(*final(files)) == (if indexes_in(*old(files)).contains_key(uri@) {
            indexes_in(*old(files))
        } else {
            indexes_in(*old(files)).insert(uri@, *file)
        }),
{
    files.entry(uri).or_insert(file);
}

/// `DashMap::remove`: nothing stands under the key afterwards, and nothing else
/// changes.
#[verifier::external_body]
fn files_remove(files: &mut DashMap<String, Arc<FileIndex>>, uri: &str)
    ensures
        indexes_in(*final(files)) == indexes_in(*old(files)).remove(uri@),
{
    files.remove(uri);
}

/// Whether the entries are those a map holds, each once, in whatever order.
pub open spec fn lists(
    entries: Seq<(String, Arc<FileIndex>)>,
    held: Map<Seq<char>, FileIndex>,
) -> bool {
    &&& forall|i: int|
        0 <= i < entries.len() ==> held.contains_key((#[trigger] entries[i]).0@) && *entries[i].1
            == held[entries[i].0@]
    &&& forall|i: int, j: int|
        0 <= i < j < entries.len() ==> (#[trigger] entries[i]).0@ != (#[trigger] entries[j]).0@
    &&& forall|uri: Seq<char>|
        #[trigger] held.contains_key(uri) ==> exists|i: int|
            0 <= i < entries.len() && (#[trigger] entries[i]).0@ == uri
}

/// `DashMap::iter`: walks every key and value once. The order is the hash map's
/// own and nothing is said of it.
#[verifier::external_body]
fn files_iter(files: &DashMap<String, Arc<FileIndex>>) -> (entries: Vec<
    (String, Arc<FileIndex>),
>)
    ensures
        lists(entries@, indexes_in(*files)),
{
    files.iter().map(|f| (f.key().clone(), f.value().clone())).collect()
}

/// One file of the index, as a walk comes upon it.
#[verifier::ext_equal]
pub struct Indexed {
    pub uri: Seq<char>,
    pub index: IndexModel,
}

/// The files a list of entries comes upon.
pub open spec fn walk_of(entries: Seq<(String, Arc<FileIndex>)>) -> Seq<Indexed> {
    Seq::new(
        entries.len(),
        |i: int| Indexed { uri: entries[i].0@, index: (*entries[i].1)@ },
    )
}

/// Whether a walk comes upon every file of the index once, in some order.
pub open spec fn walks(walk: Seq<Indexed>, files: Map<Seq<char>, IndexModel>) -> bool {
    &&& forall|i: int|
        0 <= i < walk.len() ==> files.contains_key((#[trigger] walk[i]).uri) && walk[i].index
            == files[walk[i].uri]
    &&& forall|i: int, j: int|
        0 <= i < j < walk.len() ==> (#[trigger] walk[i]).uri != (#[trigger] walk[j]).uri
    &&& forall|uri: Seq<char>|
        #[trigger] files.contains_key(uri) ==> exists|i: int|
            0 <= i < walk.len() && (#[trigger] walk[i]).uri == uri
}

/// Whether a file declares a name.
pub open spec fn declares_in(index: IndexModel, name: Seq<char>) -> bool {
    exists|k: int|
        0 <= k < index.symbols.len() && (#[trigger] index.symbols[k]).name == name
}

/// Whether some file declares a name.
pub open spec fn declared(files: Map<Seq<char>, IndexModel>, name: Seq<char>) -> bool {
    exists|uri: Seq<char>|
        #![trigger files[uri]]
        files.contains_key(uri) && declares_in(files[uri], name)
}

/// The declarations of a name among a file's first `k` symbols.
pub open spec fn declarations(file: Indexed, k: int, name: Seq<char>) -> Seq<LocationModel>
    decreases k,
{
    if k <= 0 {
        Seq::empty()
    } else if file.index.symbols[k - 1].name == name {
        declarations(file, k - 1, name).push(
            LocationModel { uri: file.uri, range: file.index.symbols[k - 1].name_range },
        )
    } else {
        declarations(file, k - 1, name)
    }
}

/// The declarations of a name in the first `n` files of a walk.
pub open spec fn definitions_along(walk: Seq<Indexed>, n: int, name: Seq<char>) -> Seq<
    LocationModel,
>
    decreases n,
{
    if n <= 0 {
        Seq::empty()
    } else {
        definitions_along(walk, n - 1, name) + declarations(
            walk[n - 1],
            walk[n - 1].index.symbols.len() as int,
            name,
        )
    }
}

/// The mentions of a name among a file's first `k` identifiers.
pub open spec fn mentions(file: Indexed, k: int, name: Seq<char>) -> Seq<LocationModel>
    decreases k,
{
    if k <= 0 {
        Seq::empty()
    } else if file.index.idents[k - 1].name == name {
        mentions(file, k - 1, name).push(
            LocationModel { uri: file.uri, range: file.index.idents[k - 1].range },
        )
    } else {
        mentions(file, k - 1, name)
    }
}

/// Whether a search takes in a file.
pub open spec fn searched(uri: Seq<char>, restrict: Option<Seq<char>>) -> bool {
    match restrict {
        Some(only) => uri == only,
        None => true,
    }
}

/// The mentions of a name in the first `n` files of a walk, of those the search
/// takes in.
pub open spec fn references_along(
    walk: Seq<Indexed>,
    n: int,
    name: Seq<char>,
    restrict: Option<Seq<char>>,
) -> Seq<LocationModel>
    decreases n,
{
    if n <= 0 {
        Seq::empty()
    } else {
        let before = references_along(walk, n - 1, name, restrict);
        let file = walk[n - 1];
        if searched(file.uri, restrict) {
            before + mentions(file, file.index.idents.len() as int, name)
        } else {
            before
        }
    }
}

/// What `str::to_lowercase` makes of a text.
pub uninterp spec fn lowercased(s: Seq<char>) -> Seq<char>;

/// A text with its capital ASCII letters made small.
pub open spec fn ascii_lowercased(s: Seq<char>) -> Seq<char> {
    Seq::new(
        s.len(),
        |i: int|
            if 'A' <= s[i] && s[i] <= 'Z' {
                ((s[i] as u32) + 32) as char
            } else {
                s[i]
            },
    )
}

/// `str::to_lowercase`: the lowercase of a text is fixed by the text, and on ASCII
/// it makes `A` to `Z` small and leaves the rest. Nothing is said of what it makes
/// of other scripts.
#[verifier::external_body]
fn lowercase(s: &str) -> (low: String)
    ensures
        low@ == lowercased(s@),
        is_ascii_chars(s@) ==> low@ == ascii_lowercased(s@),
{
    s.to_lowercase()
}

/// Whether a lowercased name answers to a lowercased query: it contains it, and an
/// empty query takes every name.
pub open spec fn answers(low: Seq<char>, needle: Seq<char>) -> bool {
    needle.len() == 0 || has_part(low, needle)
}

/// Whether a lowercased name answers to a lowercased query.
pub fn answers_to(low: &str, needle: &str) -> (b: bool)
    ensures
        b == answers(low@, needle@),
{
    needle.is_empty() || contains_str(low, needle)
}

/// A file's symbol as the workspace lists it.
pub open spec fn information(uri: Seq<char>, symbol: SymbolModel) -> SymbolInformationModel {
    SymbolInformationModel {
        name: symbol.name,
        kind: symbol.kind,
        location: LocationModel { uri, range: symbol.name_range },
    }
}

/// The symbols among a file's first `k` whose lowercased name answers to `needle`.
pub open spec fn hits(file: Indexed, k: int, needle: Seq<char>) -> Seq<SymbolInformationModel>
    decreases k,
{
    if k <= 0 {
        Seq::empty()
    } else if answers(lowercased(file.index.symbols[k - 1].name), needle) {
        hits(file, k - 1, needle).push(information(file.uri, file.index.symbols[k - 1]))
    } else {
        hits(file, k - 1, needle)
    }
}

/// The symbols in the first `n` files of a walk whose lowercased name answers to
/// `needle`.
pub open spec fn symbols_along(walk: Seq<Indexed>, n: int, needle: Seq<char>) -> Seq<
    SymbolInformationModel,
>
    decreases n,
{
    if n <= 0 {
        Seq::empty()
    } else {
        symbols_along(walk, n - 1, needle) + hits(
            walk[n - 1],
            walk[n - 1].index.symbols.len() as int,
            needle,
        )
    }
}

/// Whether one of the files declares `name`.
pub fn declares_among(entries: &Vec<(String, Arc<FileIndex>)>, name: &str) -> (b: bool)
    ensures
        b == exists|i: int|
            0 <= i < entries@.len() && declares_in(
                (#[trigger] walk_of(entries@)[i]).index,
                name@,
            ),
{
    let ghost walk = walk_of(entries@);
    let mut i: usize = 0;
    while i < entries.len()
        invariant
            walk == walk_of(entries@),
            0 <= i <= entries@.len(),
            forall|j: int| 0 <= j < i ==> !declares_in((#[trigger] walk[j]).index, name@),
        decreases entries@.len() - i,
    {
        if first_in(&entries[i].1, name).is_some() {
            assert(declares_in(walk[i as int].index, name@));
            return true;
        }
        i += 1;
    }
    false
}

/// The first symbol of a file that has the name.
fn first_in(file: &FileIndex, name: &str) -> (found: Option<usize>)
    ensures
        match found {
            Some(k) => k < file.symbols@.len() && first_named(file@.symbols, name@, 0) == Some(
                file@.symbols[k as int],
            ) && declares_in(file@, name@),
            None => first_named(file@.symbols, name@, 0) is None && !declares_in(file@, name@),
        },
{
    let ghost models = file@.symbols;
    let mut k: usize = 0;
    while k < file.symbols.len()
        invariant
            models == file@.symbols,
            0 <= k <= file.symbols@.len(),
            forall|j: int| 0 <= j < k ==> (#[trigger] models[j]).name != name@,
            first_named(models, name@, 0) == first_named(models, name@, k as int),
        decreases file.symbols@.len() - k,
    {
        if same_str(file.symbols[k].name.as_str(), name) {
            assert(models[k as int].name == name@);
            return Some(k);
        }
        k += 1;
    }
    None
}

/// The definition locations for a name in the files, in their order.
pub fn definitions_among(entries: &Vec<(String, Arc<FileIndex>)>, name: &str) -> (out: Vec<Location>)
    ensures
        location_models(out@) == definitions_along(
            walk_of(entries@),
            entries@.len() as int,
            name@,
        ),
{
    let ghost walk = walk_of(entries@);
    let mut out: Vec<Location> = Vec::new();
    let mut i: usize = 0;
    while i < entries.len()
        invariant
            walk == walk_of(entries@),
            0 <= i <= entries@.len(),
            location_models(out@) == definitions_along(walk, i as int, name@),
        decreases entries@.len() - i,
    {
        push_declarations(&mut out, entries[i].0.as_str(), &entries[i].1, name);
        assert(walk[i as int] == (Indexed {
            uri: entries@[i as int].0@,
            index: (*entries@[i as int].1)@,
        }));
        i += 1;
    }
    out
}

fn push_declarations(out: &mut Vec<Location>, uri: &str, file: &FileIndex, name: &str)
    ensures
        location_models(final(out)@) == location_models(old(out)@) + declarations(
            (Indexed { uri: uri@, index: file@ }),
            file.symbols@.len() as int,
            name@,
        ),
{
    let ghost start = location_models(out@);
    let ghost entry = Indexed { uri: uri@, index: file@ };
    let mut k: usize = 0;
    assert(start + declarations(entry, 0, name@) =~= start);
    while k < file.symbols.len()
        invariant
            entry == (Indexed { uri: uri@, index: file@ }),
            0 <= k <= file.symbols@.len(),
            location_models(out@) == start + declarations(entry, k as int, name@),
        decreases file.symbols@.len() - k,
    {
        let ghost before = out@;
        let symbol = &file.symbols[k];
        assert(entry.index.symbols[k as int] == symbol@);
        if same_str(symbol.name.as_str(), name) {
            out.push(Location::new(uri.to_owned(), symbol.name_range));
            assert(location_models(out@) =~= location_models(before).push(
                LocationModel { uri: uri@, range: symbol.name_range },
            ));
            assert(location_models(out@) =~= start + declarations(entry, k + 1, name@));
        }
        k += 1;
    }
}

/// A signature detail for a name: of the files that declare it, the one with the
/// smallest URI gives the signature of its first declaration.
pub fn detail_among(entries: &Vec<(String, Arc<FileIndex>)>, name: &str) -> (detail: Option<String>)
    ensures
        ({
            let walk = walk_of(entries@);
            match detail {
                Some(text) => exists|i: int|
                    #![trigger walk[i]]
                    0 <= i < walk.len() && first_named(walk[i].index.symbols, name@, 0) is Some
                        && first_named(walk[i].index.symbols, name@, 0)->0.detail == text@
                        && declares_in(walk[i].index, name@) && forall|j: int|
                        #![trigger walk[j]]
                        0 <= j < walk.len() && declares_in(walk[j].index, name@) ==> walk[j].uri
                            == walk[i].uri || text_before(walk[i].uri, walk[j].uri),
                None => forall|j: int|
                    #![trigger walk[j]]
                    0 <= j < walk.len() ==> !declares_in(walk[j].index, name@),
            }
        }),
{
    let ghost walk = walk_of(entries@);
    let mut best: Option<usize> = None;
    let mut i: usize = 0;
    while i < entries.len()
        invariant
            walk == walk_of(entries@),
            0 <= i <= entries@.len(),
            match best {
                Some(b) => b < i && declares_in(walk[b as int].index, name@) && forall|j: int|
                    #![trigger walk[j]]
                    0 <= j < i && declares_in(walk[j].index, name@) ==> walk[j].uri
                        == walk[b as int].uri || text_before(walk[b as int].uri, walk[j].uri),
                None => forall|j: int|
                    #![trigger walk[j]]
                    0 <= j < i ==> !declares_in(walk[j].index, name@),
            },
        decreases entries@.len() - i,
    {
        if first_in(&entries[i].1, name).is_some() {
            assert(declares_in(walk[i as int].index, name@));
            match best {
                Some(b) => {
                    if str_before(entries[i].0.as_str(), entries[b].0.as_str()) {
                        proof {
                            assert(text_before(walk[i as int].uri, walk[b as int].uri));
                            assert forall|j: int|
                                #![trigger walk[j]]
                                0 <= j < i + 1 && declares_in(
                                    walk[j].index,
                                    name@,
                                ) implies walk[j].uri == walk[i as int].uri || text_before(
                                walk[i as int].uri,
                                walk[j].uri,
                            ) by {
                                if j < i && walk[j].uri != walk[b as int].uri {
                                    lemma_text_before_carries(
                                        walk[i as int].uri,
                                        walk[b as int].uri,
                                        walk[j].uri,
                                    );
                                }
                            }
                        }
                        best = Some(i);
                    }
                },
                None => {
                    best = Some(i);
                },
            }
        } else {
            assert(!declares_in(walk[i as int].index, name@));
        }
        i += 1;
    }
    match best {
        Some(b) => {
            let file = &entries[b].1;
            match first_in(file, name) {
                Some(k) => {
                    assert(walk[b as int].index == file@);
                    Some(file.symbols[k].detail.clone())
                },
                None => {
                    assert(false);
                    None
                },
            }
        },
        None => None,
    }
}

/// Every occurrence of a name in the files the search takes in, in their order.
pub fn references_among(
    entries: &Vec<(String, Arc<FileIndex>)>,
    name: &str,
    restrict: Option<&str>,
) -> (out: Vec<Location>)
    ensures
        location_models(out@) == references_along(
            walk_of(entries@),
            entries@.len() as int,
            name@,
            restriction(restrict),
        ),
{
    let ghost walk = walk_of(entries@);
    let mut out: Vec<Location> = Vec::new();
    let mut i: usize = 0;
    while i < entries.len()
        invariant
            walk == walk_of(entries@),
            0 <= i <= entries@.len(),
            location_models(out@) == references_along(
                walk,
                i as int,
                name@,
                restriction(restrict),
            ),
        decreases entries@.len() - i,
    {
        let take = match restrict {
            Some(only) => same_str(entries[i].0.as_str(), only),
            None => true,
        };
        assert(walk[i as int] == (Indexed {
            uri: entries@[i as int].0@,
            index: (*entries@[i as int].1)@,
        }));
        if take {
            push_mentions(&mut out, entries[i].0.as_str(), &entries[i].1, name);
        }
        i += 1;
    }
    out
}

/// The file a search is restricted to.
pub open spec fn restriction(restrict: Option<&str>) -> Option<Seq<char>> {
    match restrict {
        Some(only) => Some(only@),
        None => None,
    }
}

fn push_mentions(out: &mut Vec<Location>, uri: &str, file: &FileIndex, name: &str)
    ensures
        location_models(final(out)@) == location_models(old(out)@) + mentions(
            (Indexed { uri: uri@, index: file@ }),
            file.idents@.len() as int,
            name@,
        ),
{
    let ghost start = location_models(out@);
    let ghost entry = Indexed { uri: uri@, index: file@ };
    let mut k: usize = 0;
    assert(start + mentions(entry, 0, name@) =~= start);
    while k < file.idents.len()
        invariant
            entry == (Indexed { uri: uri@, index: file@ }),
            0 <= k <= file.idents@.len(),
            location_models(out@) == start + mentions(entry, k as int, name@),
        decreases file.idents@.len() - k,
    {
        let ghost before = out@;
        let ident = &file.idents[k];
        assert(entry.index.idents[k as int] == (Occurrence { name: ident.0@, range: ident.1 }));
        if same_str(ident.0.as_str(), name) {
            out.push(Location::new(uri.to_owned(), ident.1));
            assert(location_models(out@) =~= location_models(before).push(
                LocationModel { uri: uri@, range: ident.1 },
            ));
            assert(location_models(out@) =~= start + mentions(entry, k + 1, name@));
        }
        k += 1;
    }
}

/// Builds a workspace symbol entry pointing at a declaration.
fn symbol_information(symbol: &Symbol, uri: &str) -> (info: SymbolInformation)
    ensures
        info@ == information(uri@, symbol@),
{
    SymbolInformation {
        name: symbol.name.clone(),
        kind: symbol.kind,
        location: Location::new(uri.to_owned(), symbol.name_range),
    }
}

/// The declared symbols of the files whose lowercased name answers to `needle`, in
/// their order.
pub fn symbols_among(entries: &Vec<(String, Arc<FileIndex>)>, needle: &str) -> (out: Vec<
    SymbolInformation,
>)
    ensures
        symbol_information_models(out@) == symbols_along(
            walk_of(entries@),
            entries@.len() as int,
            needle@,
        ),
{
    let ghost walk = walk_of(entries@);
    let mut out: Vec<SymbolInformation> = Vec::new();
    let mut i: usize = 0;
    while i < entries.len()
        invariant
            walk == walk_of(entries@),
            0 <= i <= entries@.len(),
            symbol_information_models(out@) == symbols_along(walk, i as int, needle@),
        decreases entries@.len() - i,
    {
        push_hits(&mut out, entries[i].0.as_str(), &entries[i].1, needle);
        assert(walk[i as int] == (Indexed {
            uri: entries@[i as int].0@,
            index: (*entries@[i as int].1)@,
        }));
        i += 1;
    }
    out
}

fn push_hits(out: &mut Vec<SymbolInformation>, uri: &str, file: &FileIndex, needle: &str)
    ensures
        symbol_information_models(final(out)@) == symbol_information_models(old(out)@) + hits(
            (Indexed { uri: uri@, index: file@ }),
            file.symbols@.len() as int,
            needle@,
        ),
{
    let ghost start = symbol_information_models(out@);
    let ghost entry = Indexed { uri: uri@, index: file@ };
    let mut k: usize = 0;
    assert(start + hits(entry, 0, needle@) =~= start);
    while k < file.symbols.len()
        invariant
            entry == (Indexed { uri: uri@, index: file@ }),
            0 <= k <= file.symbols@.len(),
            symbol_information_models(out@) == start + hits(entry, k as int, needle@),
        decreases file.symbols@.len() - k,
    {
        let ghost before = out@;
        let symbol = &file.symbols[k];
        assert(entry.index.symbols[k as int] == symbol@);
        let low = lowercase(symbol.name.as_str());
        if answers_to(low.as_str(), needle) {
            out.push(symbol_information(symbol, uri));
            assert(symbol_information_models(out@) =~= symbol_information_models(before).push(
                information(uri@, symbol@),
            ));
            assert(symbol_information_models(out@) =~= start + hits(entry, k + 1, needle@));
        }
        k += 1;
    }
}

/// Whether every declaration a file lists is among the names it mentions.
pub open spec fn consistent(files: Map<Seq<char>, IndexModel>) -> bool {
    forall|uri: Seq<char>, k: int|
        #![trigger files[uri].symbols[k]]
        files.contains_key(uri) && 0 <= k < files[uri].symbols.len()
            ==> files[uri].idents.contains(
            Occurrence {
                name: files[uri].symbols[k].name,
                range: files[uri].symbols[k].name_range,
            },
        )
}

/// Whether a detail is the one a name has: that of its first declaration in the
/// smallest URI that declares it.
pub open spec fn has_detail(
    files: Map<Seq<char>, IndexModel>,
    name: Seq<char>,
    detail: Option<Seq<char>>,
) -> bool {
    match detail {
        Some(text) => exists|uri: Seq<char>|
            #![trigger files[uri]]
            smallest_declaring(files, name, uri) && first_named(files[uri].symbols, name, 0)
                is Some && first_named(files[uri].symbols, name, 0)->0.detail == text,
        None => !declared(files, name),
    }
}

/// Whether a URI is the smallest of those that declare a name.
pub open spec fn smallest_declaring(
    files: Map<Seq<char>, IndexModel>,
    name: Seq<char>,
    uri: Seq<char>,
) -> bool {
    &&& files.contains_key(uri)
    &&& declares_in(files[uri], name)
    &&& forall|other: Seq<char>|
        #![trigger files[other]]
        files.contains_key(other) && declares_in(files[other], name) ==> other == uri
            || text_before(uri, other)
}

/// The project index, keyed by file URI.
pub struct Workspace {
    files: DashMap<String, Arc<FileIndex>>,
}

impl Workspace {
    /// The indexed files, by URI.
    pub closed spec fn view(&self) -> Map<Seq<char>, IndexModel> {
        Map::new(
            |uri: Seq<char>| indexes_in(self.files).contains_key(uri),
            |uri: Seq<char>| indexes_in(self.files)[uri]@,
        )
    }

    /// Every declaration is also a mention of its name.
    pub open spec fn wf(&self) -> bool {
        consistent(self@)
    }

    pub fn new() -> (ws: Workspace)
        ensures
            ws@ == Map::<Seq<char>, IndexModel>::empty(),
            ws.wf(),
    {
        let ws = Workspace { files: files_new() };
        assert(ws@ =~= Map::<Seq<char>, IndexModel>::empty());
        ws
    }

    /// Indexes a file from its current text, replacing any earlier entry.
    pub fn index(&mut self, uri: String, text: &str, syntax: &Syntax)
        requires
            old(self).wf(),
            fits(text@),
        ensures
            final(self).wf(),
            final(self)@ == old(self)@.insert(uri@, index_of(text@, *syntax)),
    {
        let ghost key = uri@;
        files_insert(&mut self.files, uri, Arc::new(build(text, syntax)));
        assert(self@ =~= old(self)@.insert(key, index_of(text@, *syntax)));
        proof {
            lemma_stays_consistent(old(self)@, key, text@, *syntax);
        }
    }

    /// Indexes a file only if it is not already indexed. The startup scan uses
    /// this so it cannot clobber a file an editor already opened and indexed from
    /// a newer, unsaved buffer.
    pub fn index_if_absent(&mut self, uri: String, text: &str, syntax: &Syntax)
        requires
            old(self).wf(),
            fits(text@),
        ensures
            final(self).wf(),
            final(self)@ == (if old(self)@.contains_key(uri@) {
                old(self)@
            } else {
                old(self)@.insert(uri@, index_of(text@, *syntax))
            }),
    {
        let ghost key = uri@;
        files_entry(&mut self.files, uri, Arc::new(build(text, syntax)));
        assert(self@ =~= (if old(self)@.contains_key(key) {
            old(self)@
        } else {
            old(self)@.insert(key, index_of(text@, *syntax))
        }));
        proof {
            lemma_stays_consistent(old(self)@, key, text@, *syntax);
        }
    }

    /// Drops a file from the index.
    pub fn remove(&mut self, uri: &str)
        requires
            old(self).wf(),
        ensures
            final(self).wf(),
            final(self)@ == old(self)@.remove(uri@),
    {
        files_remove(&mut self.files, uri);
        assert(self@ =~= old(self)@.remove(uri@));
        assert forall|u: Seq<char>, k: int|
            #![trigger self@[u].symbols[k]]
            self@.contains_key(u) && 0 <= k < self@[u].symbols.len() implies self@[u].idents.contains(
            Occurrence { name: self@[u].symbols[k].name, range: self@[u].symbols[k].name_range },
        ) by {
            assert(self@[u] == old(self)@[u]);
            assert(old(self)@[u].symbols[k] == self@[u].symbols[k]);
        }
    }

    /// The indexed files, in the order the map walks them.
    fn entries(&self) -> (entries: Vec<(String, Arc<FileIndex>)>)
        ensures
            walks(walk_of(entries@), self@),
    {
        let entries = files_iter(&self.files);
        proof {
            let walk = walk_of(entries@);
            let held = indexes_in(self.files);
            assert forall|uri: Seq<char>| #[trigger] self@.contains_key(uri) implies exists|i: int|
                0 <= i < walk.len() && (#[trigger] walk[i]).uri == uri by {
                assert(held.contains_key(uri));
                let i = choose|i: int| 0 <= i < entries@.len() && (#[trigger] entries@[i]).0@ == uri;
                assert(walk[i].uri == uri);
            }
        }
        entries
    }

    /// Whether any file declares `name`, which marks it a global worth searching
    /// the whole workspace for.
    pub fn declares(&self, name: &str) -> (b: bool)
        ensures
            b == declared(self@, name@),
    {
        let entries = self.entries();
        let ghost walk = walk_of(entries@);
        let b = declares_among(&entries, name);
        proof {
            lemma_declared_on_walk(self@, walk, name@);
        }
        b
    }

    /// The definition locations for a name, across every file.
    pub fn definitions(&self, name: &str) -> (out: Vec<Location>)
        ensures
            exists|walk: Seq<Indexed>| #[trigger]
                walks(walk, self@) && location_models(out@) == definitions_along(
                    walk,
                    walk.len() as int,
                    name@,
                ),
    {
        let entries = self.entries();
        definitions_among(&entries, name)
    }

    /// A signature detail for a name, for a cross file hover. When several files
    /// declare the name, the one with the smallest URI is chosen, so the hover is
    /// stable rather than depending on map iteration order.
    pub fn detail(&self, name: &str) -> (detail: Option<String>)
        ensures
            has_detail(
                self@,
                name@,
                match detail {
                    Some(text) => Some(text@),
                    None => None,
                },
            ),
    {
        let entries = self.entries();
        let ghost walk = walk_of(entries@);
        let detail = detail_among(&entries, name);
        proof {
            lemma_declared_on_walk(self@, walk, name@);
            if let Some(text) = &detail {
                let i = choose|i: int|
                    #![trigger walk[i]]
                    0 <= i < walk.len() && first_named(walk[i].index.symbols, name@, 0) is Some
                        && first_named(walk[i].index.symbols, name@, 0)->0.detail == text@
                        && declares_in(walk[i].index, name@) && forall|j: int|
                        #![trigger walk[j]]
                        0 <= j < walk.len() && declares_in(walk[j].index, name@) ==> walk[j].uri
                            == walk[i].uri || text_before(walk[i].uri, walk[j].uri);
                let uri = walk[i].uri;
                assert(self@[uri] == walk[i].index);
                assert forall|other: Seq<char>|
                    #![trigger self@[other]]
                    self@.contains_key(other) && declares_in(self@[other], name@) implies other
                    == uri || text_before(uri, other) by {
                    let j = choose|j: int| 0 <= j < walk.len() && (#[trigger] walk[j]).uri == other;
                    assert(walk[j].index == self@[other]);
                }
                assert(smallest_declaring(self@, name@, uri));
            }
        }
        detail
    }

    /// Every occurrence of a name. When `restrict` is set, only that file is
    /// searched, which keeps a likely local from matching unrelated names in
    /// other files.
    pub fn references(&self, name: &str, restrict: Option<&str>) -> (out: Vec<Location>)
        ensures
            exists|walk: Seq<Indexed>| #[trigger]
                walks(walk, self@) && location_models(out@) == references_along(
                    walk,
                    walk.len() as int,
                    name@,
                    restriction(restrict),
                ),
            restrict matches Some(only) ==> location_models(out@) == (if self@.contains_key(
                only@,
            ) {
                mentions(
                    (Indexed { uri: only@, index: self@[only@] }),
                    self@[only@].idents.len() as int,
                    name@,
                )
            } else {
                Seq::empty()
            }),
    {
        let entries = self.entries();
        let ghost walk = walk_of(entries@);
        let out = references_among(&entries, name, restrict);
        proof {
            assert(walks(walk, self@));
            if let Some(only) = restrict {
                lemma_restricted(self@, walk, walk.len() as int, name@, only@);
            }
        }
        out
    }

    /// The declared symbols whose name contains `query`, case insensitively. An
    /// empty query returns everything.
    pub fn symbols(&self, query: &str) -> (out: Vec<SymbolInformation>)
        ensures
            exists|walk: Seq<Indexed>| #[trigger]
                walks(walk, self@) && symbol_information_models(out@) == symbols_along(
                    walk,
                    walk.len() as int,
                    lowercased(query@),
                ) && (query@.len() == 0 ==> symbol_information_models(out@) == symbols_along(
                    walk,
                    walk.len() as int,
                    Seq::empty(),
                )),
    {
        let needle = lowercase(query);
        let entries = self.entries();
        let out = symbols_among(&entries, needle.as_str());
        proof {
            let walk = walk_of(entries@);
            assert(walks(walk, self@));
            if query@.len() == 0 {
                assert(is_ascii_chars(query@));
                assert(needle@ =~= Seq::empty());
            }
        }
        out
    }
}

proof fn lemma_stays_consistent(
    files: Map<Seq<char>, IndexModel>,
    key: Seq<char>,
    s: Seq<char>,
    syntax: Syntax,
)
    requires
        consistent(files),
    ensures
        consistent(files.insert(key, index_of(s, syntax))),
{
    let after = files.insert(key, index_of(s, syntax));
    assert forall|u: Seq<char>, k: int|
        #![trigger after[u].symbols[k]]
        after.contains_key(u) && 0 <= k < after[u].symbols.len() implies after[u].idents.contains(
        Occurrence { name: after[u].symbols[k].name, range: after[u].symbols[k].name_range },
    ) by {
        if u == key {
            law_declarations_are_identifiers(s, syntax, k);
        } else {
            assert(after[u] == files[u]);
            assert(files[u].symbols[k] == after[u].symbols[k]);
        }
    }
}

/// A name is declared exactly where a walk comes upon a file that declares it.
proof fn lemma_declared_on_walk(
    files: Map<Seq<char>, IndexModel>,
    walk: Seq<Indexed>,
    name: Seq<char>,
)
    requires
        walks(walk, files),
    ensures
        declared(files, name) == exists|i: int|
            0 <= i < walk.len() && declares_in((#[trigger] walk[i]).index, name),
{
    if declared(files, name) {
        let uri = choose|uri: Seq<char>|
            #![trigger files[uri]]
            files.contains_key(uri) && declares_in(files[uri], name);
        let i = choose|i: int| 0 <= i < walk.len() && (#[trigger] walk[i]).uri == uri;
        assert(declares_in(walk[i].index, name));
    }
    if exists|i: int| 0 <= i < walk.len() && declares_in((#[trigger] walk[i]).index, name) {
        let i = choose|i: int|
            0 <= i < walk.len() && declares_in((#[trigger] walk[i]).index, name);
        assert(files[walk[i].uri] == walk[i].index);
    }
}

/// A search restricted to one file finds what that file mentions, wherever in the
/// walk it comes.
proof fn lemma_restricted(
    files: Map<Seq<char>, IndexModel>,
    walk: Seq<Indexed>,
    n: int,
    name: Seq<char>,
    only: Seq<char>,
)
    requires
        walks(walk, files),
        0 <= n <= walk.len(),
    ensures
        references_along(walk, n, name, Some(only)) == (if exists|i: int|
            0 <= i < n && (#[trigger] walk[i]).uri == only {
            mentions(
                Indexed { uri: only, index: files[only] },
                files[only].idents.len() as int,
                name,
            )
        } else {
            Seq::empty()
        }),
        n == walk.len() ==> files.contains_key(only) == exists|i: int|
            0 <= i < n && (#[trigger] walk[i]).uri == only,
    decreases n,
{
    if n > 0 {
        lemma_restricted(files, walk, n - 1, name, only);
        let file = walk[n - 1];
        if file.uri == only {
            assert(forall|i: int| 0 <= i < n - 1 ==> (#[trigger] walk[i]).uri != only);
            assert(file == Indexed { uri: only, index: files[only] });
            assert(references_along(walk, n, name, Some(only)) =~= mentions(
                file,
                file.index.idents.len() as int,
                name,
            ));
        } else if exists|i: int| 0 <= i < n && (#[trigger] walk[i]).uri == only {
            let i = choose|i: int| 0 <= i < n && (#[trigger] walk[i]).uri == only;
            assert(0 <= i < n - 1 && walk[i].uri == only);
        }
    }
}

/// Whether a file declares a name at a range.
pub open spec fn declares_at(index: IndexModel, name: Seq<char>, range: Range) -> bool {
    exists|k: int|
        0 <= k < index.symbols.len() && (#[trigger] index.symbols[k]).name == name
            && index.symbols[k].name_range == range
}

proof fn lemma_declarations(file: Indexed, k: int, name: Seq<char>, loc: LocationModel)
    requires
        0 <= k <= file.index.symbols.len(),
    ensures
        declarations(file, k, name).contains(loc) <==> loc.uri == file.uri && exists|j: int|
            0 <= j < k && (#[trigger] file.index.symbols[j]).name == name
                && file.index.symbols[j].name_range == loc.range,
    decreases k,
{
    if k > 0 {
        lemma_declarations(file, k - 1, name, loc);
        let before = declarations(file, k - 1, name);
        let all = declarations(file, k, name);
        let symbol = file.index.symbols[k - 1];
        if before.contains(loc) {
            assert(all[before.index_of(loc)] == loc);
        }
        if symbol.name == name {
            assert(all.last() == LocationModel { uri: file.uri, range: symbol.name_range });
            if loc.uri == file.uri && symbol.name_range == loc.range {
                assert(all[all.len() - 1] == loc);
            }
            if all.contains(loc) && !before.contains(loc) {
                let i = all.index_of(loc);
                assert(i == all.len() - 1) by {
                    if i < before.len() {
                        assert(before[i] == loc);
                    }
                }
            }
        }
    }
}

proof fn lemma_mentions(file: Indexed, k: int, name: Seq<char>, loc: LocationModel)
    requires
        0 <= k <= file.index.idents.len(),
    ensures
        mentions(file, k, name).contains(loc) <==> loc.uri == file.uri && exists|j: int|
            0 <= j < k && #[trigger] file.index.idents[j] == (Occurrence {
                name,
                range: loc.range,
            }),
    decreases k,
{
    if k > 0 {
        lemma_mentions(file, k - 1, name, loc);
        let before = mentions(file, k - 1, name);
        let all = mentions(file, k, name);
        let ident = file.index.idents[k - 1];
        if before.contains(loc) {
            assert(all[before.index_of(loc)] == loc);
        }
        if ident.name == name {
            assert(all.last() == LocationModel { uri: file.uri, range: ident.range });
            if loc.uri == file.uri && ident.range == loc.range {
                assert(all[all.len() - 1] == loc);
                assert(ident == Occurrence { name, range: loc.range });
            }
            if all.contains(loc) && !before.contains(loc) {
                let i = all.index_of(loc);
                assert(i == all.len() - 1) by {
                    if i < before.len() {
                        assert(before[i] == loc);
                    }
                }
                assert(ident == Occurrence { name, range: loc.range });
            }
        }
    }
}

proof fn lemma_in_concat<A>(a: Seq<A>, b: Seq<A>, x: A)
    ensures
        (a + b).contains(x) <==> a.contains(x) || b.contains(x),
{
    let all = a + b;
    if a.contains(x) {
        assert(all[a.index_of(x)] == x);
    }
    if b.contains(x) {
        assert(all[a.len() + b.index_of(x)] == x);
    }
    if all.contains(x) {
        let i = all.index_of(x);
        if i < a.len() {
            assert(a[i] == x);
        } else {
            assert(b[i - a.len()] == x);
        }
    }
}

proof fn lemma_definitions(walk: Seq<Indexed>, n: int, name: Seq<char>, loc: LocationModel)
    requires
        0 <= n <= walk.len(),
    ensures
        definitions_along(walk, n, name).contains(loc) <==> exists|i: int|
            0 <= i < n && (#[trigger] walk[i]).uri == loc.uri && declares_at(
                walk[i].index,
                name,
                loc.range,
            ),
    decreases n,
{
    if n > 0 {
        let file = walk[n - 1];
        lemma_definitions(walk, n - 1, name, loc);
        lemma_declarations(file, file.index.symbols.len() as int, name, loc);
        lemma_in_concat(
            definitions_along(walk, n - 1, name),
            declarations(file, file.index.symbols.len() as int, name),
            loc,
        );
        if declarations(file, file.index.symbols.len() as int, name).contains(loc) {
            assert(walk[n - 1].uri == loc.uri && declares_at(walk[n - 1].index, name, loc.range));
        }
    }
}

/// The definitions of a name are its declarations and nothing else, in whatever
/// order the files are walked.
pub proof fn law_definitions_are_the_declarations(
    files: Map<Seq<char>, IndexModel>,
    walk: Seq<Indexed>,
    name: Seq<char>,
    loc: LocationModel,
)
    requires
        walks(walk, files),
    ensures
        definitions_along(walk, walk.len() as int, name).contains(loc) <==> files.contains_key(
            loc.uri,
        ) && declares_at(files[loc.uri], name, loc.range),
{
    lemma_definitions(walk, walk.len() as int, name, loc);
    if files.contains_key(loc.uri) {
        let i = choose|i: int| 0 <= i < walk.len() && (#[trigger] walk[i]).uri == loc.uri;
        assert(walk[i].index == files[loc.uri]);
    }
}

/// A name has a definition exactly where some file declares it.
pub proof fn law_declared_names_have_a_definition(
    files: Map<Seq<char>, IndexModel>,
    walk: Seq<Indexed>,
    name: Seq<char>,
)
    requires
        walks(walk, files),
    ensures
        declared(files, name) <==> definitions_along(walk, walk.len() as int, name).len() > 0,
{
    let defs = definitions_along(walk, walk.len() as int, name);
    if declared(files, name) {
        let uri = choose|uri: Seq<char>|
            #![trigger files[uri]]
            files.contains_key(uri) && declares_in(files[uri], name);
        let k = choose|k: int|
            0 <= k < files[uri].symbols.len() && (#[trigger] files[uri].symbols[k]).name == name;
        let loc = LocationModel { uri, range: files[uri].symbols[k].name_range };
        law_definitions_are_the_declarations(files, walk, name, loc);
        assert(declares_at(files[uri], name, loc.range));
        assert(defs.contains(loc));
    }
    if defs.len() > 0 {
        assert(defs.contains(defs[0]));
        law_definitions_are_the_declarations(files, walk, name, defs[0]);
        let index = files[defs[0].uri];
        let k = choose|k: int|
            0 <= k < index.symbols.len() && (#[trigger] index.symbols[k]).name == name
                && index.symbols[k].name_range == defs[0].range;
        assert(declares_in(index, name));
    }
}

proof fn lemma_references(
    walk: Seq<Indexed>,
    n: int,
    name: Seq<char>,
    restrict: Option<Seq<char>>,
    loc: LocationModel,
)
    requires
        0 <= n <= walk.len(),
    ensures
        references_along(walk, n, name, restrict).contains(loc) <==> exists|i: int|
            0 <= i < n && (#[trigger] walk[i]).uri == loc.uri && searched(loc.uri, restrict)
                && walk[i].index.idents.contains(Occurrence { name, range: loc.range }),
    decreases n,
{
    if n > 0 {
        let file = walk[n - 1];
        let it = Occurrence { name, range: loc.range };
        let mine = mentions(file, file.index.idents.len() as int, name);
        lemma_references(walk, n - 1, name, restrict, loc);
        lemma_mentions(file, file.index.idents.len() as int, name, loc);
        lemma_in_concat(references_along(walk, n - 1, name, restrict), mine, loc);
        if searched(file.uri, restrict) && mine.contains(loc) {
            assert(walk[n - 1].uri == loc.uri && walk[n - 1].index.idents.contains(it));
        }
        if file.uri == loc.uri && file.index.idents.contains(it) {
            assert(file.index.idents[file.index.idents.index_of(it)] == it);
        }
    }
}

/// The references to a name are its mentions in the files the search takes in and
/// nothing else, in whatever order the files are walked.
pub proof fn law_references_are_the_mentions(
    files: Map<Seq<char>, IndexModel>,
    walk: Seq<Indexed>,
    name: Seq<char>,
    restrict: Option<Seq<char>>,
    loc: LocationModel,
)
    requires
        walks(walk, files),
    ensures
        references_along(walk, walk.len() as int, name, restrict).contains(loc)
            <==> files.contains_key(loc.uri) && searched(loc.uri, restrict)
            && files[loc.uri].idents.contains(Occurrence { name, range: loc.range }),
{
    lemma_references(walk, walk.len() as int, name, restrict, loc);
    if files.contains_key(loc.uri) {
        let i = choose|i: int| 0 <= i < walk.len() && (#[trigger] walk[i]).uri == loc.uri;
        assert(walk[i].index == files[loc.uri]);
    }
}

/// Every definition of a name is among the references to it.
pub proof fn law_definitions_are_references(
    files: Map<Seq<char>, IndexModel>,
    one: Seq<Indexed>,
    other: Seq<Indexed>,
    name: Seq<char>,
    loc: LocationModel,
)
    requires
        consistent(files),
        walks(one, files),
        walks(other, files),
        definitions_along(one, one.len() as int, name).contains(loc),
    ensures
        references_along(other, other.len() as int, name, None).contains(loc),
{
    law_definitions_are_the_declarations(files, one, name, loc);
    law_references_are_the_mentions(files, other, name, None, loc);
    let index = files[loc.uri];
    let k = choose|k: int|
        0 <= k < index.symbols.len() && (#[trigger] index.symbols[k]).name == name
            && index.symbols[k].name_range == loc.range;
    assert(files[loc.uri].symbols[k].name == name);
}

/// A search that stays in one file finds nothing a search of every file misses.
pub proof fn law_a_restricted_search_finds_no_more(
    files: Map<Seq<char>, IndexModel>,
    one: Seq<Indexed>,
    other: Seq<Indexed>,
    name: Seq<char>,
    only: Seq<char>,
    loc: LocationModel,
)
    requires
        walks(one, files),
        walks(other, files),
        references_along(one, one.len() as int, name, Some(only)).contains(loc),
    ensures
        loc.uri == only,
        references_along(other, other.len() as int, name, None).contains(loc),
{
    law_references_are_the_mentions(files, one, name, Some(only), loc);
    law_references_are_the_mentions(files, other, name, None, loc);
}

/// The detail of a name does not depend on the order the files are walked in: the
/// index settles it.
pub proof fn law_detail_is_stable(
    files: Map<Seq<char>, IndexModel>,
    name: Seq<char>,
    one: Option<Seq<char>>,
    other: Option<Seq<char>>,
)
    requires
        has_detail(files, name, one),
        has_detail(files, name, other),
    ensures
        one == other,
{
    if one is Some && other is Some {
        let a = choose|uri: Seq<char>|
            #![trigger files[uri]]
            smallest_declaring(files, name, uri) && first_named(files[uri].symbols, name, 0)
                is Some && first_named(files[uri].symbols, name, 0)->0.detail == one->0;
        let b = choose|uri: Seq<char>|
            #![trigger files[uri]]
            smallest_declaring(files, name, uri) && first_named(files[uri].symbols, name, 0)
                is Some && first_named(files[uri].symbols, name, 0)->0.detail == other->0;
        if a != b {
            lemma_text_before_one_way(a, b);
        }
    }
}

proof fn lemma_hits(file: Indexed, k: int, needle: Seq<char>, info: SymbolInformationModel)
    requires
        0 <= k <= file.index.symbols.len(),
    ensures
        hits(file, k, needle).contains(info) <==> exists|j: int|
            0 <= j < k && information(file.uri, #[trigger] file.index.symbols[j]) == info && answers(
                lowercased(info.name),
                needle,
            ),
    decreases k,
{
    if k > 0 {
        lemma_hits(file, k - 1, needle, info);
        let before = hits(file, k - 1, needle);
        let all = hits(file, k, needle);
        let symbol = file.index.symbols[k - 1];
        if before.contains(info) {
            assert(all[before.index_of(info)] == info);
        }
        if answers(lowercased(symbol.name), needle) {
            assert(all.last() == information(file.uri, symbol));
            if information(file.uri, symbol) == info {
                assert(all[all.len() - 1] == info);
            }
            if all.contains(info) && !before.contains(info) {
                let i = all.index_of(info);
                assert(i == all.len() - 1) by {
                    if i < before.len() {
                        assert(before[i] == info);
                    }
                }
            }
        }
    }
}

proof fn lemma_symbols_along(
    walk: Seq<Indexed>,
    n: int,
    needle: Seq<char>,
    info: SymbolInformationModel,
)
    requires
        0 <= n <= walk.len(),
    ensures
        symbols_along(walk, n, needle).contains(info) <==> exists|i: int|
            0 <= i < n && (#[trigger] walk[i]).uri == info.location.uri && lists_symbol(
                walk[i].index,
                info,
            ) && answers(lowercased(info.name), needle),
    decreases n,
{
    if n > 0 {
        let file = walk[n - 1];
        let mine = hits(file, file.index.symbols.len() as int, needle);
        lemma_symbols_along(walk, n - 1, needle, info);
        lemma_hits(file, file.index.symbols.len() as int, needle, info);
        lemma_in_concat(symbols_along(walk, n - 1, needle), mine, info);
        if mine.contains(info) {
            let j = choose|j: int|
                0 <= j < file.index.symbols.len() && information(
                    file.uri,
                    #[trigger] file.index.symbols[j],
                ) == info && answers(lowercased(info.name), needle);
            assert(file.index.symbols[j].name == info.name);
            assert(walk[n - 1].uri == info.location.uri && lists_symbol(walk[n - 1].index, info));
        }
        if file.uri == info.location.uri && lists_symbol(file.index, info) {
            let j = choose|j: int|
                0 <= j < file.index.symbols.len() && information(
                    info.location.uri,
                    #[trigger] file.index.symbols[j],
                ) == info;
            assert(information(file.uri, file.index.symbols[j]) == info);
        }
    }
}

/// Whether a file declares the symbol a workspace entry speaks of.
pub open spec fn lists_symbol(index: IndexModel, info: SymbolInformationModel) -> bool {
    exists|k: int|
        0 <= k < index.symbols.len() && information(
            info.location.uri,
            #[trigger] index.symbols[k],
        ) == info
}

/// The workspace symbols a query finds are the declared symbols whose lowercased
/// name answers to it and nothing else, in whatever order the files are walked.
pub proof fn law_symbols_are_the_answering_declarations(
    files: Map<Seq<char>, IndexModel>,
    walk: Seq<Indexed>,
    needle: Seq<char>,
    info: SymbolInformationModel,
)
    requires
        walks(walk, files),
    ensures
        symbols_along(walk, walk.len() as int, needle).contains(info) <==> files.contains_key(
            info.location.uri,
        ) && lists_symbol(files[info.location.uri], info) && answers(
            lowercased(info.name),
            needle,
        ),
{
    lemma_symbols_along(walk, walk.len() as int, needle, info);
    if files.contains_key(info.location.uri) {
        let i = choose|i: int|
            0 <= i < walk.len() && (#[trigger] walk[i]).uri == info.location.uri;
        assert(walk[i].index == files[info.location.uri]);
    }
}

/// Removing a file drops what it declares and nothing else.
pub proof fn law_removing_a_file_drops_its_symbols(
    files: Map<Seq<char>, IndexModel>,
    uri: Seq<char>,
    name: Seq<char>,
)
    ensures
        declared(files.remove(uri), name) <==> exists|other: Seq<char>|
            #![trigger files[other]]
            other != uri && files.contains_key(other) && declares_in(files[other], name),
{
    let after = files.remove(uri);
    if declared(after, name) {
        let other = choose|u: Seq<char>|
            #![trigger after[u]]
            after.contains_key(u) && declares_in(after[u], name);
        assert(files[other] == after[other]);
    }
    if exists|other: Seq<char>|
        #![trigger files[other]]
        other != uri && files.contains_key(other) && declares_in(files[other], name) {
        let other = choose|other: Seq<char>|
            #![trigger files[other]]
            other != uri && files.contains_key(other) && declares_in(files[other], name);
        assert(after[other] == files[other]);
    }
}

/// Indexing a file makes every name it declares a global.
pub proof fn law_indexing_declares_a_files_names(
    files: Map<Seq<char>, IndexModel>,
    uri: Seq<char>,
    s: Seq<char>,
    syntax: Syntax,
    k: int,
)
    requires
        0 <= k < symbols_of(s, syntax).len(),
    ensures
        declared(files.insert(uri, index_of(s, syntax)), symbols_of(s, syntax)[k].name),
{
    let after = files.insert(uri, index_of(s, syntax));
    assert(after[uri].symbols[k].name == symbols_of(s, syntax)[k].name);
    assert(declares_in(after[uri], symbols_of(s, syntax)[k].name));
}

/// Removing a file undoes indexing it: where the file was not indexed before, the
/// index is as it was, and removing a file that is not indexed changes nothing.
pub proof fn law_removing_undoes_indexing(
    files: Map<Seq<char>, IndexModel>,
    uri: Seq<char>,
    index: IndexModel,
)
    requires
        !files.contains_key(uri),
    ensures
        files.insert(uri, index).remove(uri) == files,
        files.remove(uri) == files,
{
    assert(files.insert(uri, index).remove(uri) =~= files);
    assert(files.remove(uri) =~= files);
}

/// A lowercased name answers to a lowercased query exactly where it is some text,
/// the query, and some text again, however short the query is.
pub proof fn law_a_name_answers_to_every_part_of_it(low: Seq<char>, needle: Seq<char>)
    ensures
        answers(low, needle) <==> exists|a: Seq<char>, b: Seq<char>|
            low == #[trigger] (a + needle + b),
{
    law_a_part_has_text_on_either_side(low, needle);
    if needle.len() == 0 {
        assert(low =~= low + needle + Seq::<char>::empty());
    }
}

/// A search lists, file by file in the order they are walked, each declared symbol
/// whose lowercased name has the query in it, under its own name and kind and at its
/// own place, once and in order, and nothing else.
pub proof fn law_a_search_lists_every_name_with_the_query_in_it(
    walk: Seq<Indexed>,
    needle: Seq<char>,
)
    ensures
        symbols_along(walk, walk.len() as int, needle) == walk.map_values(
            |file: Indexed|
                file.index.symbols.filter_map(
                    |x: SymbolModel|
                        if exists|a: Seq<char>, b: Seq<char>|
                            lowercased(x.name) == #[trigger] (a + needle + b) {
                            Some(
                                SymbolInformationModel {
                                    name: x.name,
                                    kind: x.kind,
                                    location: LocationModel { uri: file.uri, range: x.name_range },
                                },
                            )
                        } else {
                            None
                        },
                ),
        ).flatten(),
{
    let pick = |file: Indexed|
        file.index.symbols.filter_map(
            |x: SymbolModel|
                if exists|a: Seq<char>, b: Seq<char>|
                    lowercased(x.name) == #[trigger] (a + needle + b) {
                    Some(
                        SymbolInformationModel {
                            name: x.name,
                            kind: x.kind,
                            location: LocationModel { uri: file.uri, range: x.name_range },
                        },
                    )
                } else {
                    None
                },
        );
    assert forall|file: Indexed| #[trigger] pick(file) == hits(
        file,
        file.index.symbols.len() as int,
        needle,
    ) by {
        let each = |x: SymbolModel|
            if exists|a: Seq<char>, b: Seq<char>|
                lowercased(x.name) == #[trigger] (a + needle + b) {
                Some(
                    SymbolInformationModel {
                        name: x.name,
                        kind: x.kind,
                        location: LocationModel { uri: file.uri, range: x.name_range },
                    },
                )
            } else {
                None
            };
        assert forall|x: SymbolModel| #[trigger] each(x) == if answers(lowercased(x.name), needle) {
            Some(information(file.uri, x))
        } else {
            None
        } by {
            law_a_name_answers_to_every_part_of_it(lowercased(x.name), needle);
        }
        lemma_hits_picked(file, file.index.symbols.len() as int, needle, each);
        assert(file.index.symbols.take(file.index.symbols.len() as int) =~= file.index.symbols);
    }
    lemma_symbols_flat(walk, walk.len() as int, needle, pick);
    let all = walk.map_values(pick);
    assert(all.take(walk.len() as int) =~= all);
    all.lemma_flatten_and_flatten_alt_are_equivalent();
}

proof fn lemma_hits_picked(
    file: Indexed,
    k: int,
    needle: Seq<char>,
    each: spec_fn(SymbolModel) -> Option<SymbolInformationModel>,
)
    requires
        0 <= k <= file.index.symbols.len(),
        forall|x: SymbolModel| #[trigger]
            each(x) == if answers(lowercased(x.name), needle) {
                Some(information(file.uri, x))
            } else {
                None
            },
    ensures
        hits(file, k, needle) == file.index.symbols.take(k).filter_map(each),
    decreases k,
{
    let symbols = file.index.symbols;
    if k > 0 {
        lemma_hits_picked(file, k - 1, needle, each);
        assert(symbols.take(k).drop_last() =~= symbols.take(k - 1));
        assert(each(symbols[k - 1]) == each(symbols.take(k).last()));
        assert(hits(file, k, needle) =~= symbols.take(k).filter_map(each));
    }
}

proof fn lemma_symbols_flat(
    walk: Seq<Indexed>,
    n: int,
    needle: Seq<char>,
    pick: spec_fn(Indexed) -> Seq<SymbolInformationModel>,
)
    requires
        0 <= n <= walk.len(),
        forall|file: Indexed| #[trigger]
            pick(file) == hits(file, file.index.symbols.len() as int, needle),
    ensures
        symbols_along(walk, n, needle) == walk.map_values(pick).take(n).flatten_alt(),
    decreases n,
{
    let all = walk.map_values(pick);
    if n > 0 {
        lemma_symbols_flat(walk, n - 1, needle, pick);
        assert(all.take(n).drop_last() =~= all.take(n - 1));
        assert(all.take(n).last() == pick(walk[n - 1]));
    }
}

/// The definitions of a name are, file by file in the order they are walked, the
/// ranges of the symbols that have it, each once and in order.
pub proof fn law_definitions_come_file_by_file(walk: Seq<Indexed>, name: Seq<char>)
    ensures
        definitions_along(walk, walk.len() as int, name) == walk.map_values(
            |file: Indexed|
                file.index.symbols.filter_map(
                    |x: SymbolModel|
                        if x.name == name {
                            Some(LocationModel { uri: file.uri, range: x.name_range })
                        } else {
                            None
                        },
                ),
        ).flatten(),
{
    let pick = |file: Indexed|
        file.index.symbols.filter_map(
            |x: SymbolModel|
                if x.name == name {
                    Some(LocationModel { uri: file.uri, range: x.name_range })
                } else {
                    None
                },
        );
    assert forall|file: Indexed| #[trigger] pick(file) == declarations(
        file,
        file.index.symbols.len() as int,
        name,
    ) by {
        let each = |x: SymbolModel|
            if x.name == name {
                Some(LocationModel { uri: file.uri, range: x.name_range })
            } else {
                None
            };
        lemma_declarations_picked(file, file.index.symbols.len() as int, name, each);
        assert(file.index.symbols.take(file.index.symbols.len() as int) =~= file.index.symbols);
    }
    lemma_definitions_flat(walk, walk.len() as int, name, pick);
    let all = walk.map_values(pick);
    assert(all.take(walk.len() as int) =~= all);
    all.lemma_flatten_and_flatten_alt_are_equivalent();
}

proof fn lemma_declarations_picked(
    file: Indexed,
    k: int,
    name: Seq<char>,
    each: spec_fn(SymbolModel) -> Option<LocationModel>,
)
    requires
        0 <= k <= file.index.symbols.len(),
        forall|x: SymbolModel| #[trigger]
            each(x) == if x.name == name {
                Some(LocationModel { uri: file.uri, range: x.name_range })
            } else {
                None
            },
    ensures
        declarations(file, k, name) == file.index.symbols.take(k).filter_map(each),
    decreases k,
{
    let symbols = file.index.symbols;
    if k > 0 {
        lemma_declarations_picked(file, k - 1, name, each);
        assert(symbols.take(k).drop_last() =~= symbols.take(k - 1));
        assert(each(symbols[k - 1]) == each(symbols.take(k).last()));
        assert(declarations(file, k, name) =~= symbols.take(k).filter_map(each));
    }
}

proof fn lemma_definitions_flat(
    walk: Seq<Indexed>,
    n: int,
    name: Seq<char>,
    pick: spec_fn(Indexed) -> Seq<LocationModel>,
)
    requires
        0 <= n <= walk.len(),
        forall|file: Indexed| #[trigger]
            pick(file) == declarations(file, file.index.symbols.len() as int, name),
    ensures
        definitions_along(walk, n, name) == walk.map_values(pick).take(n).flatten_alt(),
    decreases n,
{
    let all = walk.map_values(pick);
    if n > 0 {
        lemma_definitions_flat(walk, n - 1, name, pick);
        assert(all.take(n).drop_last() =~= all.take(n - 1));
        assert(all.take(n).last() == pick(walk[n - 1]));
    }
}

/// What a file mentions of a name is the range of each of its identifiers that is
/// the name, once and in order.
pub proof fn law_mentions_are_the_equal_identifiers(file: Indexed, name: Seq<char>)
    ensures
        mentions(file, file.index.idents.len() as int, name) == file.index.idents.filter_map(
            |x: Occurrence|
                if x.name == name {
                    Some(LocationModel { uri: file.uri, range: x.range })
                } else {
                    None
                },
        ),
{
    let each = |x: Occurrence|
        if x.name == name {
            Some(LocationModel { uri: file.uri, range: x.range })
        } else {
            None
        };
    lemma_mentions_picked(file, file.index.idents.len() as int, name, each);
    assert(file.index.idents.take(file.index.idents.len() as int) =~= file.index.idents);
}

proof fn lemma_mentions_picked(
    file: Indexed,
    k: int,
    name: Seq<char>,
    each: spec_fn(Occurrence) -> Option<LocationModel>,
)
    requires
        0 <= k <= file.index.idents.len(),
        forall|x: Occurrence| #[trigger]
            each(x) == if x.name == name {
                Some(LocationModel { uri: file.uri, range: x.range })
            } else {
                None
            },
    ensures
        mentions(file, k, name) == file.index.idents.take(k).filter_map(each),
    decreases k,
{
    let idents = file.index.idents;
    if k > 0 {
        lemma_mentions_picked(file, k - 1, name, each);
        assert(idents.take(k).drop_last() =~= idents.take(k - 1));
        assert(each(idents[k - 1]) == each(idents.take(k).last()));
        assert(mentions(file, k, name) =~= idents.take(k).filter_map(each));
    }
}

/// The references to a name are, file by file in the order they are walked, the
/// ranges of the identifiers that are the name, each once and in order. A search
/// that is restricted passes over every file but the one it names.
pub proof fn law_references_come_file_by_file(
    walk: Seq<Indexed>,
    name: Seq<char>,
    restrict: Option<&str>,
)
    ensures
        references_along(walk, walk.len() as int, name, restriction(restrict)) == walk.map_values(
            |file: Indexed|
                if restrict is Some && restrict->0@ != file.uri {
                    Seq::empty()
                } else {
                    file.index.idents.filter_map(
                        |x: Occurrence|
                            if x.name == name {
                                Some(LocationModel { uri: file.uri, range: x.range })
                            } else {
                                None
                            },
                    )
                },
        ).flatten(),
{
    let pick = |file: Indexed|
        if restrict is Some && restrict->0@ != file.uri {
            Seq::empty()
        } else {
            file.index.idents.filter_map(
                |x: Occurrence|
                    if x.name == name {
                        Some(LocationModel { uri: file.uri, range: x.range })
                    } else {
                        None
                    },
            )
        };
    assert forall|file: Indexed| #[trigger] pick(file) == if searched(
        file.uri,
        restriction(restrict),
    ) {
        mentions(file, file.index.idents.len() as int, name)
    } else {
        Seq::empty()
    } by {
        law_mentions_are_the_equal_identifiers(file, name);
    }
    lemma_references_flat(walk, walk.len() as int, name, restriction(restrict), pick);
    let all = walk.map_values(pick);
    assert(all.take(walk.len() as int) =~= all);
    all.lemma_flatten_and_flatten_alt_are_equivalent();
}

proof fn lemma_references_flat(
    walk: Seq<Indexed>,
    n: int,
    name: Seq<char>,
    restrict: Option<Seq<char>>,
    pick: spec_fn(Indexed) -> Seq<LocationModel>,
)
    requires
        0 <= n <= walk.len(),
        forall|file: Indexed| #[trigger]
            pick(file) == if searched(file.uri, restrict) {
                mentions(file, file.index.idents.len() as int, name)
            } else {
                Seq::empty()
            },
    ensures
        references_along(walk, n, name, restrict) == walk.map_values(pick).take(n).flatten_alt(),
    decreases n,
{
    let all = walk.map_values(pick);
    if n > 0 {
        lemma_references_flat(walk, n - 1, name, restrict, pick);
        assert(all.take(n).drop_last() =~= all.take(n - 1));
        assert(all.take(n).last() == pick(walk[n - 1]));
        assert(references_along(walk, n, name, restrict) =~= all.take(n).flatten_alt());
    }
}

/// A name is a global exactly where a symbol of some indexed file has it.
pub proof fn law_a_global_is_some_files_symbol(files: Map<Seq<char>, IndexModel>, name: Seq<char>)
    ensures
        declared(files, name) <==> exists|uri: Seq<char>, k: int|
            #![trigger files[uri].symbols[k]]
            files.contains_key(uri) && 0 <= k < files[uri].symbols.len()
                && files[uri].symbols[k].name == name,
{
    if declared(files, name) {
        let uri = choose|uri: Seq<char>|
            #![trigger files[uri]]
            files.contains_key(uri) && declares_in(files[uri], name);
        let k = choose|k: int|
            0 <= k < files[uri].symbols.len() && (#[trigger] files[uri].symbols[k]).name == name;
        assert(files[uri].symbols[k].name == name);
    }
    if exists|uri: Seq<char>, k: int|
        #![trigger files[uri].symbols[k]]
        files.contains_key(uri) && 0 <= k < files[uri].symbols.len() && files[uri].symbols[k].name
            == name {
        let (uri, k) = choose|uri: Seq<char>, k: int|
            #![trigger files[uri].symbols[k]]
            files.contains_key(uri) && 0 <= k < files[uri].symbols.len()
                && files[uri].symbols[k].name == name;
        assert(declares_in(files[uri], name));
    }
}

/// The detail of a name is that of a symbol that has it, with no symbol of the name
/// before it in its file, and no file with such a symbol whose URI sorts before its
/// file's. There is none only where no symbol has the name.
pub proof fn law_a_detail_is_the_first_of_the_smallest_file(
    files: Map<Seq<char>, IndexModel>,
    name: Seq<char>,
    detail: Option<Seq<char>>,
)
    requires
        has_detail(files, name, detail),
    ensures
        match detail {
            Some(text) => exists|uri: Seq<char>, k: int|
                #![trigger files[uri].symbols[k]]
                files.contains_key(uri) && 0 <= k < files[uri].symbols.len()
                    && files[uri].symbols[k].name == name && files[uri].symbols[k].detail == text
                    && (forall|j: int|
                    0 <= j < k ==> (#[trigger] files[uri].symbols[j]).name != name) && (forall|
                    other: Seq<char>,
                    j: int,
                |
                    #![trigger files[other].symbols[j]]
                    files.contains_key(other) && 0 <= j < files[other].symbols.len()
                        && files[other].symbols[j].name == name ==> !text_before(other, uri)),
            None => forall|uri: Seq<char>, k: int|
                #![trigger files[uri].symbols[k]]
                files.contains_key(uri) && 0 <= k < files[uri].symbols.len()
                    ==> files[uri].symbols[k].name != name,
        },
{
    law_a_global_is_some_files_symbol(files, name);
    if let Some(text) = detail {
        let uri = choose|uri: Seq<char>|
            #![trigger files[uri]]
            smallest_declaring(files, name, uri) && first_named(files[uri].symbols, name, 0)
                is Some && first_named(files[uri].symbols, name, 0)->0.detail == text;
        let symbols = files[uri].symbols;
        let k = lemma_first_of_a_name(symbols, name, 0);
        assert(symbols[k].detail == text);
        assert forall|other: Seq<char>, j: int|
            #![trigger files[other].symbols[j]]
            files.contains_key(other) && 0 <= j < files[other].symbols.len()
                && files[other].symbols[j].name == name implies !text_before(other, uri) by {
            assert(declares_in(files[other], name));
            if text_before(other, uri) {
                lemma_text_before_one_way(other, uri);
            }
        }
    }
}

proof fn lemma_first_of_a_name(symbols: Seq<SymbolModel>, name: Seq<char>, from: int) -> (k: int)
    requires
        0 <= from <= symbols.len(),
        first_named(symbols, name, from) is Some,
    ensures
        from <= k < symbols.len(),
        symbols[k].name == name,
        forall|j: int| from <= j < k ==> (#[trigger] symbols[j]).name != name,
        first_named(symbols, name, from) == Some(symbols[k]),
    decreases symbols.len() - from,
{
    if symbols[from].name == name {
        from
    } else {
        lemma_first_of_a_name(symbols, name, from + 1)
    }
}

/// Indexing a file keeps its symbols and every one of its name tokens.
pub proof fn law_an_index_keeps_every_name(s: Seq<char>, syntax: Syntax)
    ensures
        index_of(s, syntax).symbols == symbols_of(s, syntax),
        index_of(s, syntax).idents == syntax.tokens@.filter_map(
            |t: Token|
                match t.kind {
                    TokenKind::Ident(name) => Some(
                        Occurrence {
                            name: name@,
                            range: Range {
                                start: position_of(s, t.span.lo as int),
                                end: position_of(s, t.span.hi as int),
                            },
                        },
                    ),
                    _ => None,
                },
        ),
{
    law_identifiers_are_the_name_tokens(s, syntax.tokens@);
}

/// A walk passes over each file once, under its own URI and with its own index, and
/// misses none.
pub proof fn law_a_walk_meets_every_file_once(
    walk: Seq<Indexed>,
    files: Map<Seq<char>, IndexModel>,
    uri: Seq<char>,
)
    requires
        walks(walk, files),
    ensures
        walk.filter_map(
            |file: Indexed|
                if file.uri == uri {
                    Some(file.index)
                } else {
                    None
                },
        ) == (if files.contains_key(uri) {
            seq![files[uri]]
        } else {
            Seq::empty()
        }),
{
    let pick = |file: Indexed|
        if file.uri == uri {
            Some(file.index)
        } else {
            None
        };
    lemma_met_once(walk, files, uri, walk.len() as int, pick);
    assert(walk.take(walk.len() as int) =~= walk);
}

proof fn lemma_met_once(
    walk: Seq<Indexed>,
    files: Map<Seq<char>, IndexModel>,
    uri: Seq<char>,
    n: int,
    pick: spec_fn(Indexed) -> Option<IndexModel>,
)
    requires
        walks(walk, files),
        0 <= n <= walk.len(),
        forall|file: Indexed| #[trigger]
            pick(file) == if file.uri == uri {
                Some(file.index)
            } else {
                None
            },
    ensures
        walk.take(n).filter_map(pick) == (if exists|i: int|
            0 <= i < n && (#[trigger] walk[i]).uri == uri {
            seq![files[uri]]
        } else {
            Seq::empty()
        }),
        n == walk.len() ==> files.contains_key(uri) == exists|i: int|
            0 <= i < n && (#[trigger] walk[i]).uri == uri,
    decreases n,
{
    if n > 0 {
        lemma_met_once(walk, files, uri, n - 1, pick);
        assert(walk.take(n).drop_last() =~= walk.take(n - 1));
        assert(walk.take(n).last() == walk[n - 1]);
        assert(pick(walk[n - 1]) == pick(walk.take(n).last()));
        if walk[n - 1].uri == uri {
            assert(forall|i: int| 0 <= i < n - 1 ==> (#[trigger] walk[i]).uri != uri);
            assert(walk.take(n).filter_map(pick) =~= seq![files[uri]]);
        } else if exists|i: int| 0 <= i < n && (#[trigger] walk[i]).uri == uri {
            let i = choose|i: int| 0 <= i < n && (#[trigger] walk[i]).uri == uri;
            assert(0 <= i < n - 1 && walk[i].uri == uri);
        }
    }
}

/// An indexed file says every symbol and every name it holds, and a walk of indexed
/// files every file's URI and index, one for one.
pub proof fn law_an_indexed_file_says_all_it_holds(
    file: FileIndex,
    entries: Seq<(String, Arc<FileIndex>)>,
)
    ensures
        file@.symbols == file.symbols@.map_values(|x: Symbol| x@),
        file@.idents == file.idents@.map_values(
            |x: (String, Range)| Occurrence { name: x.0@, range: x.1 },
        ),
        walk_of(entries) == entries.map_values(
            |x: (String, Arc<FileIndex>)| Indexed { uri: x.0@, index: (*x.1)@ },
        ),
{
    assert(file@.symbols =~= file.symbols@.map_values(|x: Symbol| x@));
    assert(file@.idents =~= file.idents@.map_values(
        |x: (String, Range)| Occurrence { name: x.0@, range: x.1 },
    ));
    assert(walk_of(entries) =~= entries.map_values(
        |x: (String, Arc<FileIndex>)| Indexed { uri: x.0@, index: (*x.1)@ },
    ));
}

} // verus!
