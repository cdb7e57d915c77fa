//! An index of the symbols of a workspace: where each qualified name is
//! defined and referenced, which symbols each file holds, and a fuzzy
//! search over the names.
use vstd::prelude::*;
use dashmap::DashMap;
use std::collections::HashMap;
use vstd::utf8::encode_utf8;
use crate::input::str_chars;
use crate::theorems::{contains_text, has_infix};

verus! {

broadcast use vstd::std_specs::hash::group_hash_axioms;

/// A span of a file, by offsets.
#[derive(Debug, Clone, Copy, PartialEq, Eq, Structural)]
pub struct TextRange {
    pub start: usize,
    pub end: usize,
}

impl TextRange {
    pub fn new(start: usize, end: usize) -> (r: TextRange)
        ensures
            r.start == start,
            r.end == end,
    {
        TextRange { start, end }
    }
}

/// What a symbol declares.
#[derive(Debug, Clone, Copy, PartialEq, Eq, Structural)]
pub enum SymbolKind {
    Definition,
    Theorem,
    Axiom,
    Inductive,
    Structure,
    Class,
    Instance,
    Namespace,
    Variable,
}

/// Where a symbol occurs.
#[derive(Debug, Clone)]
pub struct SymbolLocation {
    pub file_path: String,
    pub range: TextRange,
    pub kind: SymbolKind,
    /// Whether this is the definition rather than a reference.
    pub definition: bool,
}

/// What a location says: its file, span, kind and whether it defines.
pub type LocationModel = (Seq<char>, TextRange, SymbolKind, bool);

/// What `l` says.
pub open spec fn location_model(l: SymbolLocation) -> LocationModel {
    (l.file_path@, l.range, l.kind, l.definition)
}

/// What each of `ls` says.
pub open spec fn location_models(ls: Seq<SymbolLocation>) -> Seq<LocationModel> {
    ls.map_values(|l: SymbolLocation| location_model(l))
}

impl SymbolLocation {
    /// A copy of this location.
    pub fn duplicate(&self) -> (l: SymbolLocation)
        ensures
            location_model(l) == location_model(*self),
    {
        SymbolLocation {
            file_path: self.file_path.clone(),
            range: self.range,
            kind: self.kind,
            definition: self.definition,
        }
    }
}

/// A copy of an optional text.
fn copy_text(t: &Option<String>) -> (r: Option<String>)
    ensures
        text_model(r) == text_model(*t),
{
    match t {
        Some(x) => Some(x.clone()),
        None => None,
    }
}

/// The characters of an optional text.
pub open spec fn text_model(t: Option<String>) -> Option<Seq<char>> {
    match t {
        Some(x) => Some(x@),
        None => None,
    }
}

/// A symbol that analysis found in a file; its name is given as text.
#[derive(Debug, Clone)]
pub struct Symbol {
    pub name: String,
    pub kind: SymbolKind,
    pub range: TextRange,
    pub definition_range: Option<TextRange>,
    pub signature: Option<String>,
    pub documentation: Option<String>,
}

/// What a symbol says.
pub ghost struct SymbolModel {
    pub name: Seq<char>,
    pub kind: SymbolKind,
    pub range: TextRange,
    pub definition_range: Option<TextRange>,
    pub signature: Option<Seq<char>>,
    pub documentation: Option<Seq<char>>,
}

/// What `s` says.
pub open spec fn symbol_model(s: Symbol) -> SymbolModel {
    SymbolModel {
        name: s.name@,
        kind: s.kind,
        range: s.range,
        definition_range: s.definition_range,
        signature: text_model(s.signature),
        documentation: text_model(s.documentation),
    }
}

impl Symbol {
    /// A copy of this symbol.
    pub fn duplicate(&self) -> (c: Symbol)
        ensures
            symbol_model(c) == symbol_model(*self),
    {
        Symbol {
            name: self.name.clone(),
            kind: self.kind,
            range: self.range,
            definition_range: self.definition_range,
            signature: copy_text(&self.signature),
            documentation: copy_text(&self.documentation),
        }
    }
}

/// A symbol with its qualified name and the namespaces it stands in.
#[derive(Debug, Clone)]
pub struct IndexedSymbol {
    pub symbol: Symbol,
    pub qualified_name: String,
    pub namespace: Vec<String>,
}

/// What an indexed symbol says.
pub ghost struct IndexedModel {
    pub symbol: SymbolModel,
    pub qualified: Seq<char>,
    pub namespace: Seq<Seq<char>>,
}

/// The texts of a list of strings.
pub open spec fn texts(v: Seq<String>) -> Seq<Seq<char>> {
    v.map_values(|s: String| s@)
}

/// What `x` says.
pub open spec fn indexed_model(x: IndexedSymbol) -> IndexedModel {
    IndexedModel { symbol: symbol_model(x.symbol), qualified: x.qualified_name@, namespace: texts(x.namespace@) }
}

/// What each of `xs` says.
pub open spec fn indexed_models(xs: Seq<IndexedSymbol>) -> Seq<IndexedModel> {
    xs.map_values(|x: IndexedSymbol| indexed_model(x))
}

/// A copy of a list of strings.
fn copy_texts(v: &Vec<String>) -> (r: Vec<String>)
    ensures
        texts(r@) == texts(v@),
{
    let mut r: Vec<String> = Vec::new();
    let mut k: usize = 0;
    while k < v.len()
        invariant
            k <= v@.len(),
            r@.len() == k,
            forall|i: int| 0 <= i < k ==> (#[trigger] r@[i])@ == v@[i]@,
        decreases v@.len() - k,
    {
        r.push(v[k].clone());
        k += 1;
    }
    assert(texts(r@) =~= texts(v@));
    r
}

impl IndexedSymbol {
    /// A copy of this indexed symbol.
    pub fn duplicate(&self) -> (c: IndexedSymbol)
        ensures
            indexed_model(c) == indexed_model(*self),
    {
        IndexedSymbol {
            symbol: self.symbol.duplicate(),
            qualified_name: self.qualified_name.clone(),
            namespace: copy_texts(&self.namespace),
        }
    }
}

#[verifier::external_type_specification]
#[verifier::external_body]
#[verifier::reject_recursive_types(K)]
#[verifier::reject_recursive_types(V)]
#[verifier::reject_recursive_types(S)]
pub struct ExDashMap<K, V, S>(DashMap<K, V, S>);

/// Locations by qualified name.
pub type LocationTable = Map<Seq<char>, Seq<LocationModel>>;

/// The locations that a map from qualified names holds, by name.
pub uninterp spec fn location_table(m: DashMap<String, Vec<SymbolLocation>>) -> LocationTable;

/// Calls `DashMap::new`: the map is empty.
#[verifier::external_body]
fn location_table_new() -> (m: DashMap<String, Vec<SymbolLocation>>)
    ensures
        location_table(m) == LocationTable::empty(),
{
    DashMap::new()
}

/// Calls `DashMap::get` and copies out the locations under `key`.
#[verifier::external_body]
fn location_table_get(m: &DashMap<String, Vec<SymbolLocation>>, key: &String) -> (r: Option<Vec<SymbolLocation>>)
    ensures
        match r {
            Some(v) => location_table(*m).contains_key(key@) && location_table(*m)[key@] == location_models(v@),
            None => !location_table(*m).contains_key(key@),
        },
{
    m.get(key).map(|entry| entry.value().clone())
}

/// The locations under `key` in `t`, none if there are none.
pub open spec fn locations_at(t: LocationTable, key: Seq<char>) -> Seq<LocationModel> {
    if t.contains_key(key) {
        t[key]
    } else {
        Seq::empty()
    }
}

/// Calls `DashMap::entry(key).or_default()` and pushes `loc` onto the
/// locations under `key`.
#[verifier::external_body]
fn location_table_push(m: &mut DashMap<String, Vec<SymbolLocation>>, key: String, loc: SymbolLocation)
    ensures
        location_table(*final(m)) == location_table(*old(m)).insert(
            key@,
            locations_at(location_table(*old(m)), key@).push(location_model(loc)),
        ),
{
    m.entry(key).or_default().push(loc);
}

/// Calls `DashMap::insert`: `key` maps to `v`.
#[verifier::external_body]
fn location_table_insert(m: &mut DashMap<String, Vec<SymbolLocation>>, key: String, v: Vec<SymbolLocation>)
    ensures
        location_table(*final(m)) == location_table(*old(m)).insert(key@, location_models(v@)),
{
    m.insert(key, v);
}

/// Calls `DashMap::remove`: `key` maps to nothing.
#[verifier::external_body]
fn location_table_remove(m: &mut DashMap<String, Vec<SymbolLocation>>, key: &String)
    ensures
        location_table(*final(m)) == location_table(*old(m)).remove(key@),
{
    m.remove(key);
}

/// `es` lists the entries of `t`, each key once, in some order.
pub open spec fn lists_locations(es: Seq<(String, Vec<SymbolLocation>)>, t: LocationTable) -> bool {
    &&& forall|i: int, j: int| 0 <= i < j < es.len() ==> (#[trigger] es[i]).0@ != (#[trigger] es[j]).0@
    &&& forall|i: int| 0 <= i < es.len() ==> t.contains_key((#[trigger] es[i]).0@) && t[es[i].0@] == location_models(es[i].1@)
    &&& forall|k: Seq<char>| #[trigger] t.contains_key(k) ==> exists|i: int| 0 <= i < es.len() && (#[trigger] es[i]).0@ == k
}

/// Calls `DashMap::iter` and copies out each entry. The order in which the
/// map is walked depends on the hashes of its keys, and is left open.
#[verifier::external_body]
fn location_table_entries(m: &DashMap<String, Vec<SymbolLocation>>) -> (r: Vec<(String, Vec<SymbolLocation>)>)
    ensures
        lists_locations(r@, location_table(*m)),
{
    m.iter().map(|entry| (entry.key().clone(), entry.value().clone())).collect()
}

/// Calls `DashMap::len`: the number of keys.
#[verifier::external_body]
fn location_table_len(m: &DashMap<String, Vec<SymbolLocation>>) -> (n: usize)
    ensures
        n == location_table(*m).dom().len(),
{
    m.len()
}

/// Calls `DashMap::clear`: the map is empty.
#[verifier::external_body]
fn location_table_clear(m: &mut DashMap<String, Vec<SymbolLocation>>)
    ensures
        location_table(*final(m)) == LocationTable::empty(),
{
    m.clear();
}

/// Indexed symbols by file.
pub type FileTable = Map<Seq<char>, Seq<IndexedModel>>;

/// The indexed symbols that a map from files holds, by file.
pub uninterp spec fn file_table(m: DashMap<String, Vec<IndexedSymbol>>) -> FileTable;

/// Calls `DashMap::new`: the map is empty.
#[verifier::external_body]
fn file_table_new() -> (m: DashMap<String, Vec<IndexedSymbol>>)
    ensures
        file_table(m) == FileTable::empty(),
{
    DashMap::new()
}

/// Calls `DashMap::get` and copies out the symbols of `key`.
#[verifier::external_body]
fn file_table_get(m: &DashMap<String, Vec<IndexedSymbol>>, key: &String) -> (r: Option<Vec<IndexedSymbol>>)
    ensures
        match r {
            Some(v) => file_table(*m).contains_key(key@) && file_table(*m)[key@] == indexed_models(v@),
            None => !file_table(*m).contains_key(key@),
        },
{
    m.get(key).map(|entry| entry.value().clone())
}

/// Calls `DashMap::insert`: `key` maps to `v`.
#[verifier::external_body]
fn file_table_insert(m: &mut DashMap<String, Vec<IndexedSymbol>>, key: String, v: Vec<IndexedSymbol>)
    ensures
        file_table(*final(m)) == file_table(*old(m)).insert(key@, indexed_models(v@)),
{
    m.insert(key, v);
}

/// Calls `DashMap::remove`: `key` maps to nothing, and what it mapped to
/// comes back.
#[verifier::external_body]
fn file_table_remove(m: &mut DashMap<String, Vec<IndexedSymbol>>, key: &String) -> (r: Option<Vec<IndexedSymbol>>)
    ensures
        file_table(*final(m)) == file_table(*old(m)).remove(key@),
        match r {
            Some(v) => file_table(*old(m)).contains_key(key@) && file_table(*old(m))[key@] == indexed_models(v@),
            None => !file_table(*old(m)).contains_key(key@),
        },
{
    m.remove(key).map(|pair| pair.1)
}

/// `es` lists the entries of `t`, each key once, in some order.
pub open spec fn lists_files(es: Seq<(String, Vec<IndexedSymbol>)>, t: FileTable) -> bool {
    &&& forall|i: int, j: int| 0 <= i < j < es.len() ==> (#[trigger] es[i]).0@ != (#[trigger] es[j]).0@
    &&& forall|i: int| 0 <= i < es.len() ==> t.contains_key((#[trigger] es[i]).0@) && t[es[i].0@] == indexed_models(es[i].1@)
    &&& forall|k: Seq<char>| #[trigger] t.contains_key(k) ==> exists|i: int| 0 <= i < es.len() && (#[trigger] es[i]).0@ == k
}

/// Calls `DashMap::iter` and copies out each entry. The order in which the
/// map is walked depends on the hashes of its keys, and is left open.
#[verifier::external_body]
fn file_table_entries(m: &DashMap<String, Vec<IndexedSymbol>>) -> (r: Vec<(String, Vec<IndexedSymbol>)>)
    ensures
        lists_files(r@, file_table(*m)),
{
    m.iter().map(|entry| (entry.key().clone(), entry.value().clone())).collect()
}

/// Calls `DashMap::len`: the number of keys.
#[verifier::external_body]
fn file_table_len(m: &DashMap<String, Vec<IndexedSymbol>>) -> (n: usize)
    ensures
        n == file_table(*m).dom().len(),
{
    m.len()
}

/// Calls `DashMap::clear`: the map is empty.
#[verifier::external_body]
fn file_table_clear(m: &mut DashMap<String, Vec<IndexedSymbol>>)
    ensures
        file_table(*final(m)) == FileTable::empty(),
{
    m.clear();
}

/// What `str::to_lowercase` answers: the Unicode lowercase mapping of the
/// text. Most characters map on their own, some to several; a capital sigma
/// maps by its context (to a final sigma at the end of a word).
pub uninterp spec fn unicode_lowercase(s: Seq<char>) -> Seq<char>;

/// Calls `str::to_lowercase`. The contract claims only that the answer is
/// a function of the text.
#[verifier::external_body]
fn lowercase(s: &str) -> (r: String)
    ensures
        r@ == unicode_lowercase(s@),
{
    s.to_lowercase()
}

/// How well a query matches a name, as the fraction `numerator /
/// denominator`; zero for no match.
#[derive(Debug, Clone, Copy, PartialEq, Eq, Structural)]
pub struct FuzzyScore {
    pub numerator: usize,
    pub denominator: usize,
}

/// No match.
pub open spec fn zero_score() -> FuzzyScore {
    FuzzyScore { numerator: 0, denominator: 1 }
}

/// The score of a query found whole in the name: nine tenths.
pub open spec fn substring_score() -> FuzzyScore {
    FuzzyScore { numerator: 9, denominator: 10 }
}

/// The length of `s` in UTF-8 bytes, as `str::len` reports it.
pub open spec fn byte_len(s: Seq<char>) -> usize {
    encode_utf8(s).len() as usize
}

/// How many characters of `q`, from its start, a walk through `t` meets in
/// order, taking each as soon as it comes.
pub open spec fn greedy_matches(q: Seq<char>, t: Seq<char>) -> nat
    decreases t.len(),
{
    if q.len() == 0 || t.len() == 0 {
        0
    } else if t[0] == q[0] {
        1 + greedy_matches(q.drop_first(), t.drop_first())
    } else {
        greedy_matches(q, t.drop_first())
    }
}

/// The score of query `q` against name `t`: zero for an empty query; nine
/// tenths where `q` occurs in `t`; else, where every character of `q` is
/// met in order (see `greedy_matches`), their count over the length of `t`
/// in UTF-8 bytes; else zero.
pub open spec fn score_of(q: Seq<char>, t: Seq<char>) -> FuzzyScore {
    if q.len() == 0 {
        zero_score()
    } else if has_infix(t, q) {
        substring_score()
    } else if greedy_matches(q, t) == q.len() {
        FuzzyScore { numerator: greedy_matches(q, t) as usize, denominator: byte_len(t) }
    } else {
        zero_score()
    }
}

/// `greedy_matches` counts at most the characters of either text.
proof fn lemma_greedy_matches_bound(q: Seq<char>, t: Seq<char>)
    ensures
        greedy_matches(q, t) <= q.len(),
        greedy_matches(q, t) <= t.len(),
    decreases t.len(),
{
    if q.len() == 0 || t.len() == 0 {
    } else if t[0] == q[0] {
        lemma_greedy_matches_bound(q.drop_first(), t.drop_first());
    } else {
        lemma_greedy_matches_bound(q, t.drop_first());
    }
}

/// Names and where each stands, for fuzzy search.
pub struct FuzzyIndex {
    names: Vec<String>,
    name_to_locations: HashMap<usize, Vec<SymbolLocation>>,
}

impl FuzzyIndex {
    /// The names, in order.
    pub closed spec fn names(self) -> Seq<Seq<char>> {
        texts(self.names@)
    }

    /// The locations of the name at each index.
    pub closed spec fn locations(self) -> Map<usize, Seq<LocationModel>> {
        Map::new(
            |i: usize| self.name_to_locations@.contains_key(i),
            |i: usize| location_models(self.name_to_locations@[i]@),
        )
    }

    /// An empty index.
    pub fn new() -> (f: FuzzyIndex)
        ensures
            f.names() == Seq::<Seq<char>>::empty(),
            f.locations() == Map::<usize, Seq<LocationModel>>::empty(),
    {
        let f = FuzzyIndex { names: Vec::new(), name_to_locations: HashMap::new() };
        assert(f.names() =~= Seq::<Seq<char>>::empty());
        assert(f.locations() =~= Map::<usize, Seq<LocationModel>>::empty());
        f
    }

    /// The score of `query` against `target` (see `score_of`).
    pub fn fuzzy_score(&self, query: &str, target: &str) -> (s: FuzzyScore)
        ensures
            s == score_of(query@, target@),
    {
        if query.is_empty() {
            return FuzzyScore { numerator: 0, denominator: 1 };
        }
        if contains_text(target, query) {
            return FuzzyScore { numerator: 9, denominator: 10 };
        }
        let q = str_chars(query);
        let t = str_chars(target);
        let mut qi: usize = 0;
        let mut matched: usize = 0;
        let mut ti: usize = 0;
        proof {
            assert(q@.skip(0) =~= q@);
            assert(t@.skip(0) =~= t@);
        }
        while ti < t.len()
            invariant_except_break
                ti <= t@.len(),
            invariant
                q@ == query@,
                t@ == target@,
                qi <= q@.len(),
                matched == qi,
                qi <= ti,
                greedy_matches(q@, t@) == matched + greedy_matches(q@.skip(qi as int), t@.skip(ti as int)),
            ensures
                greedy_matches(q@, t@) == matched,
            decreases t@.len() - ti,
        {
            if qi == q.len() {
                assert(q@.skip(qi as int).len() == 0);
                break;
            }
            proof {
                assert(q@.skip(qi as int).drop_first() =~= q@.skip(qi + 1));
                assert(t@.skip(ti as int).drop_first() =~= t@.skip(ti + 1));
            }
            if q[qi] == t[ti] {
                matched += 1;
                qi += 1;
            }
            ti += 1;
        }
        proof {
            lemma_greedy_matches_bound(q@, t@);
        }
        if matched == q.len() {
            FuzzyScore { numerator: matched, denominator: target.len() }
        } else {
            FuzzyScore { numerator: 0, denominator: 1 }
        }
    }
}

/// `a` is a lower score than `b`.
pub open spec fn score_less(a: FuzzyScore, b: FuzzyScore) -> bool {
    a.numerator * b.denominator < b.numerator * a.denominator
}

/// Is `a` a lower score than `b`?
pub fn lower_score(a: FuzzyScore, b: FuzzyScore) -> (r: bool)
    ensures
        r == score_less(a, b),
{
    let x: u128 = a.numerator as u128;
    let y: u128 = b.denominator as u128;
    let z: u128 = b.numerator as u128;
    let w: u128 = a.denominator as u128;
    assert(x * y <= u64::MAX * u64::MAX) by (nonlinear_arith)
        requires
            x <= u64::MAX,
            y <= u64::MAX,
    ;
    assert(z * w <= u64::MAX * u64::MAX) by (nonlinear_arith)
        requires
            z <= u64::MAX,
            w <= u64::MAX,
    ;
    x * y < z * w
}

/// A match of a fuzzy search: a name, one of its locations and the score.
#[derive(Debug, Clone)]
pub struct SymbolSearchResult {
    pub name: String,
    pub location: SymbolLocation,
    pub score: FuzzyScore,
}

/// What a search result says.
pub type ResultModel = (Seq<char>, LocationModel, FuzzyScore);

/// What `r` says.
pub open spec fn result_model(r: SymbolSearchResult) -> ResultModel {
    (r.name@, location_model(r.location), r.score)
}

/// What each of `rs` says.
pub open spec fn result_models(rs: Seq<SymbolSearchResult>) -> Seq<ResultModel> {
    rs.map_values(|r: SymbolSearchResult| result_model(r))
}

/// Where `x` goes in `sorted`: before the first result with a lower score.
pub open spec fn insert_pos(sorted: Seq<ResultModel>, x: ResultModel) -> nat
    decreases sorted.len(),
{
    if sorted.len() == 0 {
        0
    } else if score_less(sorted[0].2, x.2) {
        0
    } else {
        1 + insert_pos(sorted.drop_first(), x)
    }
}

/// `s` sorted by score, highest first, results of equal score keeping
/// their order.
pub open spec fn sort_by_score(s: Seq<ResultModel>) -> Seq<ResultModel>
    decreases s.len(),
{
    if s.len() == 0 {
        Seq::empty()
    } else {
        let r = sort_by_score(s.drop_last());
        r.insert(insert_pos(r, s.last()) as int, s.last())
    }
}

proof fn lemma_insert_pos(sorted: Seq<ResultModel>, x: ResultModel)
    ensures
        insert_pos(sorted, x) <= sorted.len(),
        forall|j: int| 0 <= j < insert_pos(sorted, x) ==> !score_less(#[trigger] sorted[j].2, x.2),
        insert_pos(sorted, x) < sorted.len() ==> score_less(sorted[insert_pos(sorted, x) as int].2, x.2),
    decreases sorted.len(),
{
    if sorted.len() > 0 && !score_less(sorted[0].2, x.2) {
        lemma_insert_pos(sorted.drop_first(), x);
        assert forall|j: int| 0 <= j < insert_pos(sorted, x) implies !score_less(#[trigger] sorted[j].2, x.2) by {
            if j > 0 {
                assert(sorted.drop_first()[j - 1] == sorted[j]);
            }
        }
    }
}

/// The results for the name at index `i`: each of its locations with its
/// score, if the score is above zero.
pub open spec fn entry_results(
    name: Seq<char>,
    i: usize,
    locs: Map<usize, Seq<LocationModel>>,
    lq: Seq<char>,
) -> Seq<ResultModel> {
    let sc = score_of(lq, unicode_lowercase(name));
    if sc.numerator > 0 && locs.contains_key(i) {
        locs[i].map_values(|l: LocationModel| (name, l, sc))
    } else {
        Seq::empty()
    }
}

/// The results for the first `n` names, in order.
pub open spec fn candidates(
    names: Seq<Seq<char>>,
    locs: Map<usize, Seq<LocationModel>>,
    lq: Seq<char>,
    n: int,
) -> Seq<ResultModel>
    decreases n,
{
    if n <= 0 {
        Seq::empty()
    } else {
        candidates(names, locs, lq, n - 1) + entry_results(names[n - 1], (n - 1) as usize, locs, lq)
    }
}

/// The first `limit` of `s`, or all of it.
pub open spec fn take_at_most<A>(s: Seq<A>, limit: usize) -> Seq<A> {
    if limit <= s.len() {
        s.subrange(0, limit as int)
    } else {
        s
    }
}

/// Sorting after one more result inserts it.
proof fn lemma_sort_push(s: Seq<ResultModel>, x: ResultModel)
    ensures
        sort_by_score(s.push(x)) == sort_by_score(s).insert(insert_pos(sort_by_score(s), x) as int, x),
{
    assert(s.push(x).drop_last() =~= s);
}

/// Inserts `r` into `out`, which is sorted by score, after the results of
/// a score no lower.
fn insert_by_score(out: &mut Vec<SymbolSearchResult>, r: SymbolSearchResult)
    ensures
        result_models(final(out)@) == result_models(old(out)@).insert(
            insert_pos(result_models(old(out)@), result_model(r)) as int,
            result_model(r),
        ),
{
    let ghost m = result_models(out@);
    proof {
        lemma_insert_pos(m, result_model(r));
        assert(m.skip(0) =~= m);
    }
    let mut j: usize = 0;
    while j < out.len() && !lower_score(out[j].score, r.score)
        invariant
            m == result_models(out@),
            j <= out@.len(),
            insert_pos(m, result_model(r)) == j + insert_pos(m.skip(j as int), result_model(r)),
        decreases out@.len() - j,
    {
        proof {
            assert(m.skip(j as int).drop_first() =~= m.skip(j + 1));
            assert(m.skip(j as int)[0] == m[j as int]);
        }
        j += 1;
    }
    proof {
        if j < out@.len() {
            assert(m.skip(j as int)[0] == m[j as int]);
        }
    }
    let ghost x = result_model(r);
    out.insert(j, r);
    assert(result_models(out@) =~= m.insert(j as int, x));
}

impl FuzzyIndex {
    /// The results of `query`: each location of each name whose lowercase
    /// form scores above zero against the lowercase query (see
    /// `candidates`), sorted by score, highest first and otherwise in the
    /// order of the names, at most `limit` of them.
    pub fn search(&self, query: &str, limit: usize) -> (r: Vec<SymbolSearchResult>)
        ensures
            result_models(r@) == take_at_most(
                sort_by_score(candidates(self.names(), self.locations(), unicode_lowercase(query@), self.names().len() as int)),
                limit,
            ),
    {
        let lq = lowercase(query);
        let ghost names = self.names();
        let ghost locs = self.locations();
        let mut out: Vec<SymbolSearchResult> = Vec::new();
        let mut i: usize = 0;
        while i < self.names.len()
            invariant
                names == self.names(),
                locs == self.locations(),
                lq@ == unicode_lowercase(query@),
                i <= self.names@.len(),
                result_models(out@) == sort_by_score(candidates(names, locs, lq@, i as int)),
            decreases self.names@.len() - i,
        {
            let ln = lowercase(self.names[i].as_str());
            let sc = self.fuzzy_score(lq.as_str(), ln.as_str());
            let ghost before = candidates(names, locs, lq@, i as int);
            proof {
                assert(names[i as int] == self.names@[i as int]@);
            }
            if sc.numerator > 0 {
                match self.name_to_locations.get(&i) {
                    Some(ls) => {
                        let ghost added = entry_results(names[i as int], i, locs, lq@);
                        assert(added =~= location_models(ls@).map_values(|l: LocationModel| (names[i as int], l, sc)));
                        let mut k: usize = 0;
                        while k < ls.len()
                            invariant
                                names == self.names(),
                                lq@ == unicode_lowercase(query@),
                                i < self.names@.len(),
                                k <= ls@.len(),
                                added == location_models(ls@).map_values(|l: LocationModel| (names[i as int], l, sc)),
                                result_models(out@) == sort_by_score(before + added.subrange(0, k as int)),
                            decreases ls@.len() - k,
                        {
                            let item = SymbolSearchResult {
                                name: self.names[i].clone(),
                                location: ls[k].duplicate(),
                                score: sc,
                            };
                            proof {
                                assert(result_model(item) == added[k as int]);
                                assert((before + added.subrange(0, k as int)).push(added[k as int]) =~= before
                                    + added.subrange(0, k + 1));
                                lemma_sort_push(before + added.subrange(0, k as int), added[k as int]);
                            }
                            insert_by_score(&mut out, item);
                            k += 1;
                        }
                        assert(added.subrange(0, ls@.len() as int) =~= added);
                    },
                    None => {
                        assert(before + Seq::<ResultModel>::empty() =~= before);
                    },
                }
            } else {
                assert(before + Seq::<ResultModel>::empty() =~= before);
            }
            i += 1;
        }
        out.truncate(limit);
        out
    }
}

/// `names` and `flocs` list the entries of `t` in some order: the name at
/// each index, each key once, and its locations under the same index.
pub open spec fn fuzzy_lists(names: Seq<Seq<char>>, flocs: Map<usize, Seq<LocationModel>>, t: LocationTable) -> bool {
    &&& forall|i: int, j: int| 0 <= i < j < names.len() ==> names[i] != names[j]
    &&& forall|i: int| 0 <= i < names.len() ==> #[trigger] t.contains_key(names[i])
        && flocs.contains_key(i as usize) && flocs[i as usize] == t[names[i]]
    &&& forall|k: Seq<char>| #[trigger] t.contains_key(k) ==> exists|i: int| 0 <= i < names.len() && names[i] == k
    &&& forall|i: usize| #[trigger] flocs.contains_key(i) ==> i < names.len()
}

/// The first location of `ls` that defines, if any.
pub open spec fn first_definition(ls: Seq<LocationModel>) -> Option<int>
    decreases ls.len(),
{
    if ls.len() == 0 {
        None
    } else if ls[0].3 {
        Some(0)
    } else {
        match first_definition(ls.drop_first()) {
            Some(i) => Some(i + 1),
            None => None,
        }
    }
}

/// Where `name` is defined according to `t`: the file and span of its
/// first defining location, or else of its first location.
pub open spec fn definition_of(t: LocationTable, name: Seq<char>) -> Option<(Seq<char>, TextRange)> {
    if !t.contains_key(name) {
        None
    } else {
        let ls = t[name];
        match first_definition(ls) {
            Some(i) => Some((ls[i].0, ls[i].1)),
            None => if ls.len() > 0 { Some((ls[0].0, ls[0].1)) } else { None },
        }
    }
}

proof fn lemma_first_definition(ls: Seq<LocationModel>)
    ensures
        match first_definition(ls) {
            Some(i) => 0 <= i < ls.len() && ls[i].3 && forall|j: int| 0 <= j < i ==> !(#[trigger] ls[j]).3,
            None => forall|j: int| 0 <= j < ls.len() ==> !(#[trigger] ls[j]).3,
        },
    decreases ls.len(),
{
    if ls.len() > 0 && !ls[0].3 {
        lemma_first_definition(ls.drop_first());
        match first_definition(ls.drop_first()) {
            Some(i) => {
                assert forall|j: int| 0 <= j < i + 1 implies !(#[trigger] ls[j]).3 by {
                    if j > 0 {
                        assert(ls.drop_first()[j - 1] == ls[j]);
                    }
                }
            },
            None => {
                assert forall|j: int| 0 <= j < ls.len() implies !(#[trigger] ls[j]).3 by {
                    if j > 0 {
                        assert(ls.drop_first()[j - 1] == ls[j]);
                    }
                }
            },
        }
    }
}

/// Counts about an index.
#[derive(Debug, Clone)]
pub struct IndexStats {
    pub total_symbols: usize,
    pub total_files: usize,
    pub total_locations: usize,
}

/// The number of locations in the entries `es`.
pub open spec fn location_count(es: Seq<(String, Vec<SymbolLocation>)>) -> int
    decreases es.len(),
{
    if es.len() == 0 {
        0
    } else {
        location_count(es.drop_last()) + es.last().1@.len()
    }
}

/// The global index of symbols: the locations of each qualified name, the
/// indexed symbols of each file, and a fuzzy index over the names.
pub struct SymbolIndex {
    symbols: DashMap<String, Vec<SymbolLocation>>,
    file_symbols: DashMap<String, Vec<IndexedSymbol>>,
    fuzzy_index: FuzzyIndex,
}

impl SymbolIndex {
    /// The locations of each qualified name.
    pub closed spec fn locations(self) -> LocationTable {
        location_table(self.symbols)
    }

    /// The indexed symbols of each file.
    pub closed spec fn files(self) -> FileTable {
        file_table(self.file_symbols)
    }

    /// The fuzzy index over the names.
    pub closed spec fn fuzzy(self) -> FuzzyIndex {
        self.fuzzy_index
    }

    /// The fuzzy index lists the names of `locations` with their
    /// locations.
    pub open spec fn fuzzy_ok(self) -> bool {
        fuzzy_lists(self.fuzzy().names(), self.fuzzy().locations(), self.locations())
    }

    /// The fuzzy index lists the names with their locations, and the
    /// locations agree with the files (see `tables_agree`).
    pub open spec fn wf(self) -> bool {
        &&& self.fuzzy_ok()
        &&& tables_agree(self.locations(), self.files())
    }

    /// An empty index.
    pub fn new() -> (x: SymbolIndex)
        ensures
            x.wf(),
            x.locations() == LocationTable::empty(),
            x.files() == FileTable::empty(),
    {
        proof { lemma_agree_empty(); }
        SymbolIndex { symbols: location_table_new(), file_symbols: file_table_new(), fuzzy_index: FuzzyIndex::new() }
    }

    /// Where `name` is defined (see `definition_of`).
    pub fn find_definition(&self, name: &String) -> (r: Option<(String, TextRange)>)
        ensures
            match r {
                Some(p) => definition_of(self.locations(), name@) == Some((p.0@, p.1)),
                None => definition_of(self.locations(), name@) is None,
            },
    {
        match location_table_get(&self.symbols, name) {
            Some(locations) => {
                let ghost ls = location_models(locations@);
                proof { lemma_first_definition(ls); }
                let mut k: usize = 0;
                while k < locations.len()
                    invariant
                        ls == location_models(locations@),
                        self.locations().contains_key(name@),
                        ls == self.locations()[name@],
                        k <= locations@.len(),
                        forall|j: int| 0 <= j < k ==> !(#[trigger] ls[j]).3,
                    decreases locations@.len() - k,
                {
                    if locations[k].definition {
                        proof {
                            lemma_first_definition(ls);
                            assert(ls[k as int].3);
                            match first_definition(ls) {
                                Some(i) => {
                                    assert(ls[k as int].3);
                                    if i < k {
                                        assert(!ls[i].3);
                                    }
                                    if k < i {
                                        assert(!ls[k as int].3);
                                    }
                                },
                                None => {
                                    assert(!ls[k as int].3);
                                },
                            }
                        }
                        return Some((locations[k].file_path.clone(), locations[k].range));
                    }
                    k += 1;
                }
                proof {
                    if first_definition(ls) is Some {
                        let i = first_definition(ls)->0;
                        assert(!ls[i].3);
                    }
                }
                if locations.len() > 0 {
                    Some((locations[0].file_path.clone(), locations[0].range))
                } else {
                    None
                }
            },
            None => None,
        }
    }

    /// Every location of `name`, by file and span.
    pub fn find_references(&self, name: &String) -> (r: Vec<(String, TextRange)>)
        ensures
            r@.len() == locations_at(self.locations(), name@).len(),
            forall|i: int| 0 <= i < r@.len() ==> (#[trigger] r@[i]).0@ == locations_at(self.locations(), name@)[i].0
                && r@[i].1 == locations_at(self.locations(), name@)[i].1,
    {
        let mut out: Vec<(String, TextRange)> = Vec::new();
        match location_table_get(&self.symbols, name) {
            Some(locations) => {
                let ghost ls = location_models(locations@);
                let mut k: usize = 0;
                while k < locations.len()
                    invariant
                        ls == location_models(locations@),
                        ls == locations_at(self.locations(), name@),
                        k <= locations@.len(),
                        out@.len() == k,
                        forall|i: int| 0 <= i < k ==> (#[trigger] out@[i]).0@ == ls[i].0 && out@[i].1 == ls[i].1,
                    decreases locations@.len() - k,
                {
                    out.push((locations[k].file_path.clone(), locations[k].range));
                    k += 1;
                }
            },
            None => {},
        }
        out
    }

    /// The results of a fuzzy search for `query`: at most fifty (see
    /// `FuzzyIndex::search`).
    pub fn search_symbols(&self, query: &str) -> (r: Vec<SymbolSearchResult>)
        ensures
            result_models(r@) == take_at_most(
                sort_by_score(candidates(self.fuzzy().names(), self.fuzzy().locations(), unicode_lowercase(query@), self.fuzzy().names().len() as int)),
                50,
            ),
    {
        self.fuzzy_index.search(query, 50)
    }

    /// The indexed symbols of `file_path`, none for a file not indexed.
    pub fn file_symbols(&self, file_path: &String) -> (r: Vec<IndexedSymbol>)
        ensures
            self.files().contains_key(file_path@) ==> indexed_models(r@) == self.files()[file_path@],
            !self.files().contains_key(file_path@) ==> r@.len() == 0,
    {
        match file_table_get(&self.file_symbols, file_path) {
            Some(v) => v,
            None => Vec::new(),
        }
    }

    /// Empties the index.
    pub fn clear(&mut self)
        ensures
            final(self).wf(),
            final(self).locations() == LocationTable::empty(),
            final(self).files() == FileTable::empty(),
    {
        location_table_clear(&mut self.symbols);
        file_table_clear(&mut self.file_symbols);
        self.fuzzy_index = FuzzyIndex::new();
        proof { lemma_agree_empty(); }
    }

    /// How many names, files and locations the index holds. The count of
    /// locations is summed over the entries in the order the map is walked,
    /// and stops at `usize::MAX`.
    pub fn stats(&self) -> (st: IndexStats)
        ensures
            st.total_symbols == self.locations().dom().len(),
            st.total_files == self.files().dom().len(),
            exists|es: Seq<(String, Vec<SymbolLocation>)>| #[trigger] lists_locations(es, self.locations())
                && st.total_locations == if location_count(es) <= usize::MAX { location_count(es) } else { usize::MAX as int },
    {
        let total_symbols = location_table_len(&self.symbols);
        let total_files = file_table_len(&self.file_symbols);
        let es = location_table_entries(&self.symbols);
        let mut total: usize = 0;
        let mut k: usize = 0;
        while k < es.len()
            invariant
                k <= es@.len(),
                total == if location_count(es@.subrange(0, k as int)) <= usize::MAX {
                    location_count(es@.subrange(0, k as int))
                } else {
                    usize::MAX as int
                },
            decreases es@.len() - k,
        {
            proof {
                assert(es@.subrange(0, k + 1).drop_last() =~= es@.subrange(0, k as int));
                assert(es@.subrange(0, k + 1).last() == es@[k as int]);
                lemma_location_count_nonneg(es@.subrange(0, k as int));
            }
            total = total.saturating_add(es[k].1.len());
            k += 1;
        }
        assert(es@.subrange(0, es@.len() as int) =~= es@);
        assert(lists_locations(es@, self.locations()));
        IndexStats { total_symbols, total_files, total_locations: total }
    }
}

proof fn lemma_location_count_nonneg(es: Seq<(String, Vec<SymbolLocation>)>)
    ensures
        location_count(es) >= 0,
    decreases es.len(),
{
    if es.len() > 0 {
        lemma_location_count_nonneg(es.drop_last());
    }
}

/// `ns` joined with dots.
pub open spec fn join_dots(ns: Seq<Seq<char>>) -> Seq<char>
    decreases ns.len(),
{
    if ns.len() == 0 {
        Seq::empty()
    } else if ns.len() == 1 {
        ns[0]
    } else {
        join_dots(ns.drop_last()) + "."@ + ns.last()
    }
}

/// The qualified name of `name` inside the namespaces `ns`: the
/// namespaces and the name joined with dots.
pub open spec fn qualify(ns: Seq<Seq<char>>, name: Seq<char>) -> Seq<char> {
    if ns.len() == 0 {
        name
    } else {
        join_dots(ns) + "."@ + name
    }
}

/// The names of the namespaces that the first `k` of `syms` open, in
/// order.
pub open spec fn namespaces_before(syms: Seq<SymbolModel>, k: int) -> Seq<Seq<char>>
    decreases k,
{
    if k <= 0 {
        Seq::empty()
    } else {
        namespaces_before(syms, k - 1) + if syms[k - 1].kind == SymbolKind::Namespace {
            seq![syms[k - 1].name]
        } else {
            Seq::empty()
        }
    }
}

/// `syms[k]` indexed inside the namespaces that the symbols before it
/// open.
pub open spec fn indexed_at(syms: Seq<SymbolModel>, k: int) -> IndexedModel {
    let ns = namespaces_before(syms, k);
    IndexedModel { symbol: syms[k], qualified: qualify(ns, syms[k].name), namespace: ns }
}

/// Each of `syms`, indexed.
pub open spec fn index_symbols(syms: Seq<SymbolModel>) -> Seq<IndexedModel> {
    Seq::new(syms.len(), |k: int| indexed_at(syms, k))
}

/// What each of `ss` says.
pub open spec fn symbol_models(ss: Seq<Symbol>) -> Seq<SymbolModel> {
    ss.map_values(|s: Symbol| symbol_model(s))
}

/// Where the indexed symbol `x` of `file` stands: the file, its span, its
/// kind, and whether it has a definition.
pub open spec fn location_of(x: IndexedModel, file: Seq<char>) -> LocationModel {
    (file, x.symbol.range, x.symbol.kind, x.symbol.definition_range is Some)
}

/// `t` with `l` added to the locations of `key`.
pub open spec fn push_location(t: LocationTable, key: Seq<char>, l: LocationModel) -> LocationTable {
    t.insert(key, locations_at(t, key).push(l))
}

/// `t` with the locations of each of `xs`, in `file`, added in order.
pub open spec fn add_locations(t: LocationTable, xs: Seq<IndexedModel>, file: Seq<char>) -> LocationTable
    decreases xs.len(),
{
    if xs.len() == 0 {
        t
    } else {
        push_location(add_locations(t, xs.drop_last(), file), xs.last().qualified, location_of(xs.last(), file))
    }
}

/// The locations of `ls` in other files than `file`.
pub open spec fn without_file(ls: Seq<LocationModel>, file: Seq<char>) -> Seq<LocationModel>
    decreases ls.len(),
{
    if ls.len() == 0 {
        Seq::empty()
    } else {
        without_file(ls.drop_last(), file) + if ls.last().0 != file { seq![ls.last()] } else { Seq::empty() }
    }
}

/// `t` without the locations of `key` in `file`; a name left without
/// locations leaves the table.
pub open spec fn drop_location(t: LocationTable, key: Seq<char>, file: Seq<char>) -> LocationTable {
    if t.contains_key(key) {
        let kept = without_file(t[key], file);
        if kept.len() == 0 {
            t.remove(key)
        } else {
            t.insert(key, kept)
        }
    } else {
        t
    }
}

/// `t` after dropping, in order, the locations in `file` of each of `xs`.
pub open spec fn drop_locations(t: LocationTable, xs: Seq<IndexedModel>, file: Seq<char>) -> LocationTable
    decreases xs.len(),
{
    if xs.len() == 0 {
        t
    } else {
        drop_location(drop_locations(t, xs.drop_last(), file), xs.last().qualified, file)
    }
}

/// `t` without the locations that `files` records for `file`.
pub open spec fn drop_file(t: LocationTable, files: FileTable, file: Seq<char>) -> LocationTable {
    if files.contains_key(file) {
        drop_locations(t, files[file], file)
    } else {
        t
    }
}

/// The namespaces joined with dots (see `join_dots`).
fn join_with_dots(parts: &[String]) -> (r: String)
    ensures
        r@ == join_dots(texts(parts@)),
{
    if parts.len() == 0 {
        return String::new();
    }
    let ghost ps = texts(parts@);
    let mut r = parts[0].clone();
    proof {
        assert(ps.subrange(0, 1).len() == 1);
    }
    let mut k: usize = 1;
    while k < parts.len()
        invariant
            ps == texts(parts@),
            1 <= k <= parts@.len(),
            r@ == join_dots(ps.subrange(0, k as int)),
        decreases parts@.len() - k,
    {
        proof {
            assert(ps.subrange(0, k + 1).drop_last() =~= ps.subrange(0, k as int));
            assert(ps.subrange(0, k + 1).last() == parts@[k as int]@);
        }
        r.append(".");
        r.append(parts[k].as_str());
        k += 1;
    }
    assert(ps.subrange(0, parts@.len() as int) =~= ps);
    r
}

/// A copy of a list of locations.
fn copy_locations(ls: &Vec<SymbolLocation>) -> (r: Vec<SymbolLocation>)
    ensures
        location_models(r@) == location_models(ls@),
{
    let mut out: Vec<SymbolLocation> = Vec::new();
    let mut k: usize = 0;
    while k < ls.len()
        invariant
            k <= ls@.len(),
            out@.len() == k,
            forall|i: int| 0 <= i < k ==> location_model(#[trigger] out@[i]) == location_model(ls@[i]),
        decreases ls@.len() - k,
    {
        out.push(ls[k].duplicate());
        k += 1;
    }
    assert(location_models(out@) =~= location_models(ls@));
    out
}

/// The locations of `ls` in other files than `file`.
fn locations_without_file(ls: &Vec<SymbolLocation>, file: &String) -> (r: Vec<SymbolLocation>)
    ensures
        location_models(r@) == without_file(location_models(ls@), file@),
{
    let ghost m = location_models(ls@);
    let mut out: Vec<SymbolLocation> = Vec::new();
    let mut k: usize = 0;
    while k < ls.len()
        invariant
            m == location_models(ls@),
            k <= ls@.len(),
            location_models(out@) == without_file(m.subrange(0, k as int), file@),
        decreases ls@.len() - k,
    {
        proof {
            assert(m.subrange(0, k + 1).drop_last() =~= m.subrange(0, k as int));
            assert(m.subrange(0, k + 1).last() == m[k as int]);
        }
        let ghost before = location_models(out@);
        if ls[k].file_path != *file {
            out.push(ls[k].duplicate());
            assert(location_models(out@) =~= before.push(m[k as int]));
        } else {
            assert(before + Seq::<LocationModel>::empty() =~= before);
        }
        assert(location_models(out@) =~= without_file(m.subrange(0, k + 1), file@));
        k += 1;
    }
    assert(m.subrange(0, ls@.len() as int) =~= m);
    out
}

/// The locations, in the entries `es` in order, that have kind `kind`.
pub open spec fn kind_locations(es: Seq<(String, Vec<SymbolLocation>)>, kind: SymbolKind) -> Seq<LocationModel>
    decreases es.len(),
{
    if es.len() == 0 {
        Seq::empty()
    } else {
        kind_locations(es.drop_last(), kind) + of_kind(location_models(es.last().1@), kind)
    }
}

/// The locations of `ls` that have kind `kind`, in order.
pub open spec fn of_kind(ls: Seq<LocationModel>, kind: SymbolKind) -> Seq<LocationModel>
    decreases ls.len(),
{
    if ls.len() == 0 {
        Seq::empty()
    } else {
        of_kind(ls.drop_last(), kind) + if ls.last().2 == kind { seq![ls.last()] } else { Seq::empty() }
    }
}

/// The locations of kind `kind` in the entries `es`, in order (see
/// `kind_locations`).
pub fn locations_of_kind(es: &[(String, Vec<SymbolLocation>)], kind: SymbolKind) -> (r: Vec<SymbolLocation>)
    ensures
        location_models(r@) == kind_locations(es@, kind),
{
    let mut out: Vec<SymbolLocation> = Vec::new();
    let mut i: usize = 0;
    while i < es.len()
        invariant
            i <= es@.len(),
            location_models(out@) == kind_locations(es@.subrange(0, i as int), kind),
        decreases es@.len() - i,
    {
        let ls = &es[i].1;
        let ghost m = location_models(ls@);
        let ghost start = location_models(out@);
        let mut k: usize = 0;
        while k < ls.len()
            invariant
                m == location_models(ls@),
                k <= ls@.len(),
                location_models(out@) == start + of_kind(m.subrange(0, k as int), kind),
            decreases ls@.len() - k,
        {
            proof {
                assert(m.subrange(0, k + 1).drop_last() =~= m.subrange(0, k as int));
                assert(m.subrange(0, k + 1).last() == m[k as int]);
            }
            let ghost before = location_models(out@);
            if ls[k].kind == kind {
                out.push(ls[k].duplicate());
                assert(location_models(out@) =~= before.push(m[k as int]));
            }
            assert(location_models(out@) =~= start + of_kind(m.subrange(0, k + 1), kind));
            k += 1;
        }
        proof {
            assert(m.subrange(0, ls@.len() as int) =~= m);
            assert(es@.subrange(0, i + 1).drop_last() =~= es@.subrange(0, i as int));
            assert(es@.subrange(0, i + 1).last() == es@[i as int]);
        }
        i += 1;
    }
    assert(es@.subrange(0, es@.len() as int) =~= es@);
    out
}

/// `p` is a prefix of `s`.
pub open spec fn is_prefix_of(p: Seq<Seq<char>>, s: Seq<Seq<char>>) -> bool {
    p.len() <= s.len() && s.subrange(0, p.len() as int) == p
}

/// The indexed symbols of `xs` inside the namespace `ns`, in order.
pub open spec fn in_namespace(xs: Seq<IndexedModel>, ns: Seq<Seq<char>>) -> Seq<IndexedModel>
    decreases xs.len(),
{
    if xs.len() == 0 {
        Seq::empty()
    } else {
        in_namespace(xs.drop_last(), ns) + if is_prefix_of(ns, xs.last().namespace) {
            seq![xs.last()]
        } else {
            Seq::empty()
        }
    }
}

/// The indexed symbols, in the entries `es` in order, inside `ns`.
pub open spec fn namespace_symbols(es: Seq<(String, Vec<IndexedSymbol>)>, ns: Seq<Seq<char>>) -> Seq<IndexedModel>
    decreases es.len(),
{
    if es.len() == 0 {
        Seq::empty()
    } else {
        namespace_symbols(es.drop_last(), ns) + in_namespace(indexed_models(es.last().1@), ns)
    }
}

/// Does the namespace of `x` start with `ns`?
fn within_namespace(x: &IndexedSymbol, ns: &[String]) -> (b: bool)
    ensures
        b == is_prefix_of(texts(ns@), texts(x.namespace@)),
{
    if x.namespace.len() < ns.len() {
        return false;
    }
    let mut k: usize = 0;
    while k < ns.len()
        invariant
            ns@.len() <= x.namespace@.len(),
            k <= ns@.len(),
            forall|j: int| 0 <= j < k ==> x.namespace@[j]@ == ns@[j]@,
        decreases ns@.len() - k,
    {
        if x.namespace[k] != ns[k] {
            assert(texts(x.namespace@).subrange(0, ns@.len() as int)[k as int] != texts(ns@)[k as int]);
            return false;
        }
        k += 1;
    }
    assert(texts(x.namespace@).subrange(0, ns@.len() as int) =~= texts(ns@));
    true
}

/// The indexed symbols inside the namespace `ns`, in the entries `es` in
/// order (see `namespace_symbols`).
pub fn symbols_within(es: &[(String, Vec<IndexedSymbol>)], ns: &[String]) -> (r: Vec<IndexedSymbol>)
    ensures
        indexed_models(r@) == namespace_symbols(es@, texts(ns@)),
{
    let ghost n = texts(ns@);
    let mut out: Vec<IndexedSymbol> = Vec::new();
    let mut i: usize = 0;
    while i < es.len()
        invariant
            n == texts(ns@),
            i <= es@.len(),
            indexed_models(out@) == namespace_symbols(es@.subrange(0, i as int), n),
        decreases es@.len() - i,
    {
        let xs = &es[i].1;
        let ghost m = indexed_models(xs@);
        let ghost start = indexed_models(out@);
        let mut k: usize = 0;
        while k < xs.len()
            invariant
                n == texts(ns@),
                m == indexed_models(xs@),
                k <= xs@.len(),
                indexed_models(out@) == start + in_namespace(m.subrange(0, k as int), n),
            decreases xs@.len() - k,
        {
            proof {
                assert(m.subrange(0, k + 1).drop_last() =~= m.subrange(0, k as int));
                assert(m.subrange(0, k + 1).last() == m[k as int]);
            }
            let ghost before = indexed_models(out@);
            if within_namespace(&xs[k], ns) {
                out.push(xs[k].duplicate());
                assert(indexed_models(out@) =~= before.push(m[k as int]));
            }
            assert(indexed_models(out@) =~= start + in_namespace(m.subrange(0, k + 1), n));
            k += 1;
        }
        proof {
            assert(m.subrange(0, xs@.len() as int) =~= m);
            assert(es@.subrange(0, i + 1).drop_last() =~= es@.subrange(0, i as int));
            assert(es@.subrange(0, i + 1).last() == es@[i as int]);
        }
        i += 1;
    }
    assert(es@.subrange(0, es@.len() as int) =~= es@);
    out
}

impl SymbolIndex {
    /// `symbol` indexed inside the namespaces `namespace`: its qualified
    /// name joins them and its name with dots.
    fn create_indexed_symbol(&self, symbol: &Symbol, namespace: &[String]) -> (x: IndexedSymbol)
        ensures
            indexed_model(x) == (IndexedModel {
                symbol: symbol_model(*symbol),
                qualified: qualify(texts(namespace@), symbol.name@),
                namespace: texts(namespace@),
            }),
    {
        let qualified_name = if namespace.len() == 0 {
            symbol.name.clone()
        } else {
            let mut q = join_with_dots(namespace);
            q.append(".");
            q.append(symbol.name.as_str());
            q
        };
        let mut ns: Vec<String> = Vec::new();
        let mut k: usize = 0;
        while k < namespace.len()
            invariant
                k <= namespace@.len(),
                ns@.len() == k,
                forall|i: int| 0 <= i < k ==> (#[trigger] ns@[i])@ == namespace@[i]@,
            decreases namespace@.len() - k,
        {
            ns.push(namespace[k].clone());
            k += 1;
        }
        assert(texts(ns@) =~= texts(namespace@));
        IndexedSymbol { symbol: symbol.duplicate(), qualified_name, namespace: ns }
    }

    /// Adds where `x` of `file_path` stands to the locations of its
    /// qualified name.
    fn add_symbol(&mut self, x: &IndexedSymbol, file_path: &String)
        ensures
            final(self).locations() == push_location(
                old(self).locations(),
                x.qualified_name@,
                location_of(indexed_model(*x), file_path@),
            ),
            final(self).files() == old(self).files(),
            final(self).fuzzy() == old(self).fuzzy(),
    {
        let location = SymbolLocation {
            file_path: file_path.clone(),
            range: x.symbol.range,
            kind: x.symbol.kind,
            definition: x.symbol.definition_range.is_some(),
        };
        location_table_push(&mut self.symbols, x.qualified_name.clone(), location);
    }

    /// Drops the locations of `qualified_name` in `file_path` (see
    /// `drop_location`).
    fn remove_symbol(&mut self, qualified_name: &String, file_path: &String)
        ensures
            final(self).locations() == drop_location(old(self).locations(), qualified_name@, file_path@),
            final(self).files() == old(self).files(),
            final(self).fuzzy() == old(self).fuzzy(),
    {
        match location_table_get(&self.symbols, qualified_name) {
            Some(locations) => {
                let kept = locations_without_file(&locations, file_path);
                if kept.len() == 0 {
                    location_table_remove(&mut self.symbols, qualified_name);
                } else {
                    location_table_insert(&mut self.symbols, qualified_name.clone(), kept);
                }
            },
            None => {},
        }
    }

    /// Rebuilds the fuzzy index from the locations, in the order in which
    /// the map of locations is walked.
    fn rebuild_fuzzy_index(&mut self)
        ensures
            final(self).fuzzy_ok(),
            final(self).locations() == old(self).locations(),
            final(self).files() == old(self).files(),
    {
        let es = location_table_entries(&self.symbols);
        let ghost t = self.locations();
        let mut names: Vec<String> = Vec::new();
        let mut map: HashMap<usize, Vec<SymbolLocation>> = HashMap::new();
        let mut i: usize = 0;
        while i < es.len()
            invariant
                t == self.locations(),
                lists_locations(es@, t),
                i <= es@.len(),
                names@.len() == i,
                forall|j: int| 0 <= j < i ==> (#[trigger] names@[j])@ == es@[j].0@,
                forall|j: usize| #[trigger] map@.contains_key(j) <==> j < i,
                forall|j: int| 0 <= j < i ==> location_models(map@[j as usize]@) == location_models(es@[j].1@),
            decreases es@.len() - i,
        {
            names.push(es[i].0.clone());
            map.insert(i, copy_locations(&es[i].1));
            i += 1;
        }
        self.fuzzy_index = FuzzyIndex { names, name_to_locations: map };
        proof {
            let f = self.fuzzy();
            assert forall|j: int| 0 <= j < f.names().len() implies #[trigger] t.contains_key(f.names()[j])
                && f.locations().contains_key(j as usize) && f.locations()[j as usize] == t[f.names()[j]] by {
                assert(f.names()[j] == es@[j].0@);
            }
            assert forall|k: Seq<char>| #[trigger] t.contains_key(k) implies exists|j: int| 0 <= j < f.names().len() && f.names()[j] == k by {
                let j = choose|j: int| 0 <= j < es@.len() && (#[trigger] es@[j]).0@ == k;
                assert(f.names()[j] == es@[j].0@);
            }
        }
    }

    /// Re-indexes `file_path` with `symbols`: drops the locations that its
    /// old symbols had in it, indexes each symbol inside the namespaces
    /// that the symbols before it open (see `index_symbols`), adds their
    /// locations in order, records them for the file and rebuilds the
    /// fuzzy index.
    pub fn update_file(&mut self, file_path: &String, symbols: &[Symbol])
        requires
            old(self).wf(),
        ensures
            final(self).wf(),
            final(self).locations() == add_locations(
                drop_file(old(self).locations(), old(self).files(), file_path@),
                index_symbols(symbol_models(symbols@)),
                file_path@,
            ),
            final(self).files() == old(self).files().insert(file_path@, index_symbols(symbol_models(symbols@))),
    {
        let ghost f = file_path@;
        match file_table_get(&self.file_symbols, file_path) {
            Some(old_symbols) => {
                let ghost xs = indexed_models(old_symbols@);
                let ghost t0 = self.locations();
                let ghost files0 = self.files();
                let mut k: usize = 0;
                while k < old_symbols.len()
                    invariant
                        f == file_path@,
                        xs == indexed_models(old_symbols@),
                        files0 == self.files(),
                        files0 == old(self).files(),
                        files0.contains_key(f),
                        files0[f] == xs,
                        k <= old_symbols@.len(),
                        self.locations() == drop_locations(t0, xs.subrange(0, k as int), f),
                    decreases old_symbols@.len() - k,
                {
                    proof {
                        assert(xs.subrange(0, k + 1).drop_last() =~= xs.subrange(0, k as int));
                        assert(xs.subrange(0, k + 1).last() == xs[k as int]);
                        assert(xs[k as int] == indexed_model(old_symbols@[k as int]));
                    }
                    self.remove_symbol(&old_symbols[k].qualified_name, file_path);
                    k += 1;
                }
                assert(xs.subrange(0, old_symbols@.len() as int) =~= xs);
            },
            None => {},
        }
        let ghost t1 = self.locations();
        let ghost syms = symbol_models(symbols@);
        let ghost all = index_symbols(syms);
        let mut indexed: Vec<IndexedSymbol> = Vec::new();
        let mut namespace: Vec<String> = Vec::new();
        let mut k: usize = 0;
        while k < symbols.len()
            invariant
                f == file_path@,
                syms == symbol_models(symbols@),
                all == index_symbols(syms),
                k <= symbols@.len(),
                texts(namespace@) == namespaces_before(syms, k as int),
                indexed_models(indexed@) == all.subrange(0, k as int),
                self.locations() == add_locations(t1, all.subrange(0, k as int), f),
                self.files() == old(self).files(),
            decreases symbols@.len() - k,
        {
            let x = self.create_indexed_symbol(&symbols[k], namespace.as_slice());
            proof {
                assert(indexed_model(x) == all[k as int]);
                assert(all.subrange(0, k + 1).drop_last() =~= all.subrange(0, k as int));
                assert(all.subrange(0, k + 1).last() == all[k as int]);
            }
            let ghost pre = self.locations();
            assert(pre == add_locations(t1, all.subrange(0, k as int), f));
            self.add_symbol(&x, file_path);
            assert(self.locations() == push_location(pre, x.qualified_name@, location_of(indexed_model(x), file_path@)));
            assert(x.qualified_name@ == all[k as int].qualified);
            assert(location_of(indexed_model(x), f) == location_of(all[k as int], f));

            assert(self.locations() == push_location(pre, all[k as int].qualified, location_of(all[k as int], f)));
            assert(self.locations() == add_locations(t1, all.subrange(0, k + 1), f));
            let ghost before = indexed@;
            indexed.push(x);
            assert(indexed_models(indexed@) =~= all.subrange(0, k + 1));
            if symbols[k].kind == SymbolKind::Namespace {
                namespace.push(symbols[k].name.clone());
                assert(texts(namespace@) =~= namespaces_before(syms, k + 1));
            } else {
                assert(texts(namespace@) =~= namespaces_before(syms, k + 1));
            }
            k += 1;
        }
        assert(all.subrange(0, symbols@.len() as int) =~= all);
        file_table_insert(&mut self.file_symbols, file_path.clone(), indexed);
        self.rebuild_fuzzy_index();
        proof { lemma_agree_update(old(self).locations(), old(self).files(), f, all); }
    }

    /// Removes `file_path` from the index: drops the locations that its
    /// symbols had in it, forgets its symbols and rebuilds the fuzzy index.
    pub fn remove_file(&mut self, file_path: &String)
        requires
            old(self).wf(),
        ensures
            final(self).wf(),
            final(self).locations() == drop_file(old(self).locations(), old(self).files(), file_path@),
            final(self).files() == old(self).files().remove(file_path@),
    {
        let ghost f = file_path@;
        let ghost files0 = self.files();
        match file_table_remove(&mut self.file_symbols, file_path) {
            Some(old_symbols) => {
                let ghost xs = indexed_models(old_symbols@);
                let ghost t0 = self.locations();
                let ghost files1 = self.files();
                let mut k: usize = 0;
                while k < old_symbols.len()
                    invariant
                        f == file_path@,
                        xs == indexed_models(old_symbols@),
                        files1 == self.files(),
                        k <= old_symbols@.len(),
                        self.locations() == drop_locations(t0, xs.subrange(0, k as int), f),
                    decreases old_symbols@.len() - k,
                {
                    proof {
                        assert(xs.subrange(0, k + 1).drop_last() =~= xs.subrange(0, k as int));
                        assert(xs.subrange(0, k + 1).last() == xs[k as int]);
                        assert(xs[k as int] == indexed_model(old_symbols@[k as int]));
                    }
                    self.remove_symbol(&old_symbols[k].qualified_name, file_path);
                    k += 1;
                }
                assert(xs.subrange(0, old_symbols@.len() as int) =~= xs);
            },
            None => {},
        }
        self.rebuild_fuzzy_index();
        proof { lemma_agree_remove(old(self).locations(), old(self).files(), f); }
    }

    /// The locations of kind `kind`, taken in the order in which the map of
    /// locations is walked (see `locations_of_kind`).
    pub fn symbols_by_kind(&self, kind: SymbolKind) -> (r: Vec<SymbolLocation>)
        ensures
            exists|es: Seq<(String, Vec<SymbolLocation>)>| #[trigger] lists_locations(es, self.locations())
                && location_models(r@) == kind_locations(es, kind),
    {
        let es = location_table_entries(&self.symbols);
        let r = locations_of_kind(es.as_slice(), kind);
        assert(lists_locations(es@, self.locations()));
        r
    }

    /// The indexed symbols inside the namespace `namespace`, taken in the
    /// order in which the map of files is walked (see `symbols_within`).
    pub fn symbols_in_namespace(&self, namespace: &[String]) -> (r: Vec<IndexedSymbol>)
        ensures
            exists|es: Seq<(String, Vec<IndexedSymbol>)>| #[trigger] lists_files(es, self.files())
                && indexed_models(r@) == namespace_symbols(es, texts(namespace@)),
    {
        let es = file_table_entries(&self.file_symbols);
        let r = symbols_within(es.as_slice(), namespace);
        assert(lists_files(es@, self.files()));
        r
    }
}

impl Default for SymbolIndex {
    /// An empty index.
    fn default() -> (x: SymbolIndex)
        ensures
            x.wf(),
            x.locations() == LocationTable::empty(),
            x.files() == FileTable::empty(),
    {
        SymbolIndex::new()
    }
}

/// The locations in `file` that indexing `xs` adds under `key`, in order.
pub open spec fn added_at(xs: Seq<IndexedModel>, key: Seq<char>, file: Seq<char>) -> Seq<LocationModel>
    decreases xs.len(),
{
    if xs.len() == 0 {
        Seq::empty()
    } else {
        added_at(xs.drop_last(), key, file) + if xs.last().qualified == key {
            seq![location_of(xs.last(), file)]
        } else {
            Seq::empty()
        }
    }
}

/// Some of `xs` has the qualified name `key`.
pub open spec fn names_key(xs: Seq<IndexedModel>, key: Seq<char>) -> bool {
    exists|i: int| 0 <= i < xs.len() && (#[trigger] xs[i]).qualified == key
}

proof fn lemma_added_at(xs: Seq<IndexedModel>, key: Seq<char>, file: Seq<char>)
    ensures
        forall|i: int| 0 <= i < added_at(xs, key, file).len() ==> (#[trigger] added_at(xs, key, file)[i]).0 == file,
        names_key(xs, key) <==> added_at(xs, key, file).len() > 0,
    decreases xs.len(),
{
    if xs.len() > 0 {
        lemma_added_at(xs.drop_last(), key, file);
        let pre = added_at(xs.drop_last(), key, file);
        if names_key(xs.drop_last(), key) {
            let i = choose|i: int| 0 <= i < xs.drop_last().len() && (#[trigger] xs.drop_last()[i]).qualified == key;
            assert(xs[i].qualified == key);
        }
        if names_key(xs, key) && !names_key(xs.drop_last(), key) {
            let i = choose|i: int| 0 <= i < xs.len() && (#[trigger] xs[i]).qualified == key;
            if i < xs.len() - 1 {
                assert(xs.drop_last()[i].qualified == key);
            }
        }
        if xs.last().qualified == key {
            assert(xs[xs.len() - 1].qualified == key);
        }
    }
}

/// Adding the locations of `xs` appends, under each key, those that `xs`
/// adds there.
proof fn lemma_add_locations_at(t: LocationTable, xs: Seq<IndexedModel>, file: Seq<char>, key: Seq<char>)
    ensures
        add_locations(t, xs, file).contains_key(key) <==> (t.contains_key(key) || names_key(xs, key)),
        locations_at(add_locations(t, xs, file), key) == locations_at(t, key) + added_at(xs, key, file),
    decreases xs.len(),
{
    if xs.len() == 0 {
        assert(locations_at(t, key) + Seq::<LocationModel>::empty() =~= locations_at(t, key));
        assert(!names_key(xs, key));
    } else {
        lemma_add_locations_at(t, xs.drop_last(), file, key);
        lemma_added_at(xs, key, file);
        lemma_added_at(xs.drop_last(), key, file);
        let pre = add_locations(t, xs.drop_last(), file);
        if xs.last().qualified == key {
            assert(locations_at(t, key) + added_at(xs, key, file) =~= (locations_at(t, key) + added_at(xs.drop_last(), key, file)).push(location_of(xs.last(), file)));
        } else {
            assert(added_at(xs, key, file) =~= added_at(xs.drop_last(), key, file));
        }
    }
}

proof fn lemma_without_file_concat(a: Seq<LocationModel>, b: Seq<LocationModel>, file: Seq<char>)
    ensures
        without_file(a + b, file) == without_file(a, file) + without_file(b, file),
    decreases b.len(),
{
    if b.len() == 0 {
        assert(a + b =~= a);
        assert(without_file(a, file) + Seq::<LocationModel>::empty() =~= without_file(a, file));
    } else {
        assert((a + b).drop_last() =~= a + b.drop_last());
        assert((a + b).last() == b.last());
        lemma_without_file_concat(a, b.drop_last(), file);
        assert(without_file(a, file) + without_file(b.drop_last(), file) + (if b.last().0 != file { seq![b.last()] } else { Seq::<LocationModel>::empty() })
            =~= without_file(a, file) + (without_file(b.drop_last(), file) + (if b.last().0 != file { seq![b.last()] } else { Seq::<LocationModel>::empty() })));
    }
}

proof fn lemma_without_file_none(a: Seq<LocationModel>, file: Seq<char>)
    requires
        forall|i: int| 0 <= i < a.len() ==> (#[trigger] a[i]).0 != file,
    ensures
        without_file(a, file) == a,
    decreases a.len(),
{
    if a.len() > 0 {
        lemma_without_file_none(a.drop_last(), file);
        assert(a[a.len() - 1].0 != file);
        assert(a.drop_last().push(a.last()) =~= a);
    }
}

proof fn lemma_without_file_all(a: Seq<LocationModel>, file: Seq<char>)
    requires
        forall|i: int| 0 <= i < a.len() ==> (#[trigger] a[i]).0 == file,
    ensures
        without_file(a, file) == Seq::<LocationModel>::empty(),
    decreases a.len(),
{
    if a.len() > 0 {
        lemma_without_file_all(a.drop_last(), file);
        assert(a[a.len() - 1].0 == file);
        assert(Seq::<LocationModel>::empty() + Seq::<LocationModel>::empty() =~= Seq::<LocationModel>::empty());
    }
}

proof fn lemma_without_file_idem(a: Seq<LocationModel>, file: Seq<char>)
    ensures
        without_file(without_file(a, file), file) == without_file(a, file),
    decreases a.len(),
{
    if a.len() > 0 {
        lemma_without_file_idem(a.drop_last(), file);
        let w = without_file(a.drop_last(), file);
        if a.last().0 != file {
            assert(without_file(a, file) == w.push(a.last())) by {
                assert(w + seq![a.last()] =~= w.push(a.last()));
            }
            assert(w.push(a.last()).drop_last() =~= w);
        } else {
            assert(without_file(a, file) =~= w);
        }
    }
}

/// Dropping the locations of `xs` in `file`: keys that `xs` names are
/// dropped as one `drop_location` would; other keys stay.
proof fn lemma_drop_locations_at(t: LocationTable, xs: Seq<IndexedModel>, file: Seq<char>, key: Seq<char>)
    ensures
        names_key(xs, key) ==> (drop_locations(t, xs, file).contains_key(key) <==> drop_location(t, key, file).contains_key(key)),
        names_key(xs, key) && drop_location(t, key, file).contains_key(key) ==> drop_locations(t, xs, file)[key] == drop_location(t, key, file)[key],
        !names_key(xs, key) ==> (drop_locations(t, xs, file).contains_key(key) <==> t.contains_key(key)),
        !names_key(xs, key) && t.contains_key(key) ==> drop_locations(t, xs, file)[key] == t[key],
    decreases xs.len(),
{
    if xs.len() > 0 {
        lemma_drop_locations_at(t, xs.drop_last(), file, key);
        let pre = drop_locations(t, xs.drop_last(), file);
        if names_key(xs.drop_last(), key) {
            let i = choose|i: int| 0 <= i < xs.drop_last().len() && (#[trigger] xs.drop_last()[i]).qualified == key;
            assert(xs[i].qualified == key);
        }
        if xs.last().qualified == key {
            assert(xs[xs.len() - 1].qualified == key);
            if pre.contains_key(key) {
                lemma_without_file_idem(t[key], file);
            }
        } else {
            if names_key(xs, key) {
                let i = choose|i: int| 0 <= i < xs.len() && (#[trigger] xs[i]).qualified == key;
                if i < xs.len() - 1 {
                    assert(xs.drop_last()[i].qualified == key);
                }
            }
        }
    }
}

/// Removing a file undoes indexing it: from a table whose names all have
/// locations and none in `file`, adding the locations of `xs` in `file`
/// and then dropping them gives the table back.
pub proof fn law_drop_undoes_add(t: LocationTable, xs: Seq<IndexedModel>, file: Seq<char>)
    requires
        forall|k: Seq<char>| #[trigger] t.contains_key(k) ==> t[k].len() > 0,
        forall|k: Seq<char>, i: int| t.contains_key(k) && 0 <= i < t[k].len() ==> (#[trigger] t[k][i]).0 != file,
    ensures
        drop_locations(add_locations(t, xs, file), xs, file) == t,
{
    let a = add_locations(t, xs, file);
    let r = drop_locations(a, xs, file);
    assert forall|k: Seq<char>| #[trigger] r.contains_key(k) <==> t.contains_key(k) by {
        lemma_drop_locations_at(a, xs, file, k);
        lemma_add_locations_at(t, xs, file, k);
        lemma_added_at(xs, k, file);
        if names_key(xs, k) {
            lemma_without_file_concat(locations_at(t, k), added_at(xs, k, file), file);
            lemma_without_file_all(added_at(xs, k, file), file);
            if t.contains_key(k) {
                lemma_without_file_none(t[k], file);
                assert(without_file(a[k], file) =~= t[k]);
            } else {
                assert(without_file(a[k], file) =~= Seq::<LocationModel>::empty());
            }
        }
    }
    assert forall|k: Seq<char>| #[trigger] r.contains_key(k) implies r[k] == t[k] by {
        lemma_drop_locations_at(a, xs, file, k);
        lemma_add_locations_at(t, xs, file, k);
        lemma_added_at(xs, k, file);
        if names_key(xs, k) {
            lemma_without_file_concat(locations_at(t, k), added_at(xs, k, file), file);
            lemma_without_file_all(added_at(xs, k, file), file);
            lemma_without_file_none(t[k], file);
            assert(without_file(a[k], file) =~= t[k]);
        } else {
            assert(locations_at(t, k) + added_at(xs, k, file) =~= t[k]);
        }
    }
    assert(r =~= t);
}

/// Updating a new file and then removing it gives the locations back:
/// from a table whose names all have locations, none of them in `file`,
/// and no symbols recorded for `file`, indexing `xs` there and then
/// removing the file leaves the table as it was.
pub proof fn law_remove_undoes_update(t: LocationTable, files: FileTable, xs: Seq<IndexedModel>, file: Seq<char>)
    requires
        !files.contains_key(file),
        forall|k: Seq<char>| #[trigger] t.contains_key(k) ==> t[k].len() > 0,
        forall|k: Seq<char>, i: int| t.contains_key(k) && 0 <= i < t[k].len() ==> (#[trigger] t[k][i]).0 != file,
    ensures
        drop_file(add_locations(drop_file(t, files, file), xs, file), files.insert(file, xs), file) == t,
{
    law_drop_undoes_add(t, xs, file);
}

/// `a` scores at least as high as `b`.
pub open spec fn score_at_least(a: FuzzyScore, b: FuzzyScore) -> bool {
    !score_less(a, b)
}

/// Scores with positive denominators are ordered: "at least as high" is
/// transitive, and so is it after "higher".
proof fn lemma_score_order(a: FuzzyScore, b: FuzzyScore, c: FuzzyScore)
    requires
        a.denominator > 0,
        b.denominator > 0,
        c.denominator > 0,
    ensures
        score_at_least(a, b) && score_at_least(b, c) ==> score_at_least(a, c),
        score_less(b, a) && score_at_least(b, c) ==> score_at_least(a, c),
{
    let an = a.numerator as int;
    let ad = a.denominator as int;
    let bn = b.numerator as int;
    let bd = b.denominator as int;
    let cn = c.numerator as int;
    let cd = c.denominator as int;
    if bn * cd >= cn * bd && (an * bd >= bn * ad || bn * ad < an * bd) {
        assert(an * bd * cd >= bn * ad * cd) by (nonlinear_arith)
            requires
                an * bd >= bn * ad,
                cd > 0,
        ;
        assert(bn * cd * ad >= cn * bd * ad) by (nonlinear_arith)
            requires
                bn * cd >= cn * bd,
                ad > 0,
        ;
        assert(an * bd * cd == an * cd * bd) by (nonlinear_arith);
        assert(bn * ad * cd == bn * cd * ad) by (nonlinear_arith);
        assert(cn * bd * ad == cn * ad * bd) by (nonlinear_arith);
        assert(an * cd * bd >= cn * ad * bd);
        assert(an * cd >= cn * ad) by (nonlinear_arith)
            requires
                an * cd * bd >= cn * ad * bd,
                bd > 0,
        ;
    }
}

/// The scores of `s` have positive denominators.
pub open spec fn positive_scores(s: Seq<ResultModel>) -> bool {
    forall|i: int| 0 <= i < s.len() ==> (#[trigger] s[i]).2.denominator > 0
}

/// `s` runs from the highest score down.
pub open spec fn sorted_by_score(s: Seq<ResultModel>) -> bool {
    forall|i: int, j: int| 0 <= i < j < s.len() ==> score_at_least(#[trigger] s[i].2, #[trigger] s[j].2)
}

proof fn lemma_insert_sorted(r: Seq<ResultModel>, x: ResultModel)
    requires
        sorted_by_score(r),
        positive_scores(r),
        x.2.denominator > 0,
    ensures
        sorted_by_score(r.insert(insert_pos(r, x) as int, x)),
        positive_scores(r.insert(insert_pos(r, x) as int, x)),
        r.insert(insert_pos(r, x) as int, x).len() == r.len() + 1,
{
    lemma_insert_pos(r, x);
    let p = insert_pos(r, x) as int;
    let n = r.insert(p, x);
    assert forall|i: int, j: int| 0 <= i < j < n.len() implies score_at_least(#[trigger] n[i].2, #[trigger] n[j].2) by {
        if i < p && j < p {
            assert(n[i] == r[i] && n[j] == r[j]);
        } else if i < p && j == p {
            assert(n[i] == r[i] && n[j] == x);
        } else if i < p && j > p {
            assert(n[i] == r[i] && n[j] == r[j - 1]);
            if i < j - 1 {
                assert(score_at_least(r[i].2, r[j - 1].2));
            }
        } else if i == p {
            assert(n[i] == x && n[j] == r[j - 1]);
            assert(score_less(r[p].2, x.2));
            if p < j - 1 {
                assert(score_at_least(r[p].2, r[j - 1].2));
                lemma_score_order(x.2, r[p].2, r[j - 1].2);
            }
        } else {
            assert(n[i] == r[i - 1] && n[j] == r[j - 1]);
        }
    }
    assert forall|i: int| 0 <= i < n.len() implies (#[trigger] n[i]).2.denominator > 0 by {
        if i < p {
            assert(n[i] == r[i]);
        } else if i > p {
            assert(n[i] == r[i - 1]);
        }
    }
}

/// Search results come sorted: sorting results whose scores have positive
/// denominators orders them from the highest score down, keeping each of
/// them.
pub proof fn law_sorted_by_score(s: Seq<ResultModel>)
    requires
        positive_scores(s),
    ensures
        sorted_by_score(sort_by_score(s)),
        sort_by_score(s).len() == s.len(),
        positive_scores(sort_by_score(s)),
    decreases s.len(),
{
    if s.len() > 0 {
        assert forall|i: int| 0 <= i < s.drop_last().len() implies (#[trigger] s.drop_last()[i]).2.denominator > 0 by {
            assert(s[i].2.denominator > 0);
        }
        law_sorted_by_score(s.drop_last());
        assert(s[s.len() - 1].2.denominator > 0);
        lemma_insert_sorted(sort_by_score(s.drop_last()), s.last());
    }
}


/// The locations agree with the files: every name listed has locations,
/// and each location stands in a file whose recorded symbols name it.
pub open spec fn tables_agree(t: LocationTable, files: FileTable) -> bool {
    &&& forall|k: Seq<char>| #[trigger] t.contains_key(k) ==> t[k].len() > 0
    &&& forall|k: Seq<char>, i: int|
        t.contains_key(k) && 0 <= i < t[k].len() ==> files.contains_key((#[trigger] t[k][i]).0) && names_key(
            files[t[k][i].0],
            k,
        )
}

/// What `without_file` keeps comes from `a` and stands in another file.
proof fn lemma_without_file_from(a: Seq<LocationModel>, file: Seq<char>)
    ensures
        forall|i: int|
            0 <= i < without_file(a, file).len() ==> (#[trigger] without_file(a, file)[i]).0 != file && a.contains(
                without_file(a, file)[i],
            ),
    decreases a.len(),
{
    if a.len() > 0 {
        lemma_without_file_from(a.drop_last(), file);
        let w = without_file(a.drop_last(), file);
        let r = without_file(a, file);
        assert forall|i: int| 0 <= i < r.len() implies (#[trigger] r[i]).0 != file && a.contains(r[i]) by {
            if i < w.len() {
                assert(r[i] == w[i]);
                let j = choose|j: int| 0 <= j < a.drop_last().len() && a.drop_last()[j] == w[i];
                assert(a[j] == w[i]);
            } else {
                assert(r[i] == a.last());
                assert(a[a.len() - 1] == a.last());
            }
        }
    }
}

/// Where the tables agree, dropping the locations recorded for `file`
/// leaves none in `file`, and every name listed still has locations, each
/// one of the table before.
proof fn lemma_drop_file_clears(t: LocationTable, files: FileTable, file: Seq<char>)
    requires
        tables_agree(t, files),
    ensures
        forall|k: Seq<char>| #[trigger] drop_file(t, files, file).contains_key(k) ==> drop_file(t, files, file)[k].len() > 0,
        forall|k: Seq<char>, i: int|
            drop_file(t, files, file).contains_key(k) && 0 <= i < drop_file(t, files, file)[k].len() ==> (#[trigger] drop_file(
                t,
                files,
                file,
            )[k][i]).0 != file && t.contains_key(k) && t[k].contains(drop_file(t, files, file)[k][i]),
{
    let d = drop_file(t, files, file);
    assert forall|k: Seq<char>| #[trigger] d.contains_key(k) implies d[k].len() > 0 && forall|i: int|
        0 <= i < d[k].len() ==> (#[trigger] d[k][i]).0 != file && t.contains_key(k) && t[k].contains(d[k][i]) by {
        if files.contains_key(file) {
            lemma_drop_locations_at(t, files[file], file, k);
            if names_key(files[file], k) {
                lemma_without_file_from(t[k], file);
            } else {
                assert forall|i: int| 0 <= i < d[k].len() implies (#[trigger] d[k][i]).0 != file && t.contains_key(k) && t[k].contains(d[k][i]) by {
                    assert(d[k][i] == t[k][i]);
                    if t[k][i].0 == file {
                        assert(names_key(files[t[k][i].0], k));
                    }
                }
            }
        } else {
            assert forall|i: int| 0 <= i < d[k].len() implies (#[trigger] d[k][i]).0 != file && t.contains_key(k) && t[k].contains(d[k][i]) by {
                assert(d[k][i] == t[k][i]);
                assert(files.contains_key(t[k][i].0));
            }
        }
    }
}

/// Indexing a file twice is indexing it once with the second symbols: where
/// the tables agree (see `tables_agree`), re-indexing `file` with `xs1` and
/// then with `xs2` leaves the locations and the files as re-indexing it with
/// `xs2` alone does.
pub proof fn law_update_twice(t: LocationTable, files: FileTable, file: Seq<char>, xs1: Seq<IndexedModel>, xs2: Seq<IndexedModel>)
    requires
        tables_agree(t, files),
    ensures
        add_locations(drop_file(add_locations(drop_file(t, files, file), xs1, file), files.insert(file, xs1), file), xs2, file)
            == add_locations(drop_file(t, files, file), xs2, file),
        files.insert(file, xs1).insert(file, xs2) == files.insert(file, xs2),
{
    let d = drop_file(t, files, file);
    lemma_drop_file_clears(t, files, file);
    assert forall|k: Seq<char>, i: int| d.contains_key(k) && 0 <= i < d[k].len() implies (#[trigger] d[k][i]).0 != file by {}
    law_drop_undoes_add(d, xs1, file);
    assert(files.insert(file, xs1)[file] == xs1);
    assert(files.insert(file, xs1).insert(file, xs2) =~= files.insert(file, xs2));
}

/// The empty tables agree.
pub proof fn lemma_agree_empty()
    ensures
        tables_agree(LocationTable::empty(), FileTable::empty()),
{
}

/// Re-indexing a file keeps the tables in agreement.
pub proof fn lemma_agree_update(t: LocationTable, files: FileTable, file: Seq<char>, xs: Seq<IndexedModel>)
    requires
        tables_agree(t, files),
    ensures
        tables_agree(add_locations(drop_file(t, files, file), xs, file), files.insert(file, xs)),
{
    let d = drop_file(t, files, file);
    let a = add_locations(d, xs, file);
    let f2 = files.insert(file, xs);
    lemma_drop_file_clears(t, files, file);
    assert forall|k: Seq<char>| #[trigger] a.contains_key(k) implies a[k].len() > 0 && forall|i: int|
        0 <= i < a[k].len() ==> f2.contains_key((#[trigger] a[k][i]).0) && names_key(f2[a[k][i].0], k) by {
        lemma_add_locations_at(d, xs, file, k);
        lemma_added_at(xs, k, file);
        let ad = added_at(xs, k, file);
        assert(a[k] == locations_at(d, k) + ad);
        assert forall|i: int| 0 <= i < a[k].len() implies f2.contains_key((#[trigger] a[k][i]).0) && names_key(f2[a[k][i].0], k) by {
            if i < locations_at(d, k).len() {
                assert(a[k][i] == d[k][i]);
                let l = d[k][i];
                let j = choose|j: int| 0 <= j < t[k].len() && t[k][j] == l;
                assert(files.contains_key(t[k][j].0) && names_key(files[t[k][j].0], k));
            } else {
                assert(a[k][i] == ad[i - locations_at(d, k).len()]);
            }
        }
    }
}

/// Removing a file keeps the tables in agreement.
pub proof fn lemma_agree_remove(t: LocationTable, files: FileTable, file: Seq<char>)
    requires
        tables_agree(t, files),
    ensures
        tables_agree(drop_file(t, files, file), files.remove(file)),
{
    let d = drop_file(t, files, file);
    lemma_drop_file_clears(t, files, file);
    assert forall|k: Seq<char>, i: int| d.contains_key(k) && 0 <= i < d[k].len() implies files.remove(file).contains_key(
        (#[trigger] d[k][i]).0,
    ) && names_key(files.remove(file)[d[k][i].0], k) by {
        let l = d[k][i];
        let j = choose|j: int| 0 <= j < t[k].len() && t[k][j] == l;
        assert(files.contains_key(t[k][j].0) && names_key(files[t[k][j].0], k));
    }
}


/// Entries that are none of them empty hold at least one location each.
proof fn lemma_location_count_at_least(es: Seq<(String, Vec<SymbolLocation>)>)
    requires
        forall|i: int| 0 <= i < es.len() ==> (#[trigger] es[i]).1@.len() > 0,
    ensures
        location_count(es) >= es.len(),
    decreases es.len(),
{
    if es.len() > 0 {
        assert forall|i: int| 0 <= i < es.drop_last().len() implies (#[trigger] es.drop_last()[i]).1@.len() > 0 by {
            assert(es.drop_last()[i] == es[i]);
        }
        lemma_location_count_at_least(es.drop_last());
        assert(es[es.len() - 1] == es.last());
    }
}

/// The counts that `stats` reports, where the tables agree (see
/// `tables_agree`): the entries walked (`es`) are the names, finitely many,
/// one entry each, and each holds a location, so the locations are no
/// fewer than the names.
pub proof fn law_stats_counts(t: LocationTable, files: FileTable, es: Seq<(String, Vec<SymbolLocation>)>)
    requires
        tables_agree(t, files),
        lists_locations(es, t),
    ensures
        t.dom().finite(),
        es.len() == t.dom().len(),
        location_count(es) >= t.dom().len(),
{
    let keys = es.map_values(|e: (String, Vec<SymbolLocation>)| e.0@);
    assert forall|i: int, j: int| 0 <= i < keys.len() && 0 <= j < keys.len() && i != j implies keys[i] != keys[j] by {
        if i < j {
            assert(es[i].0@ != es[j].0@);
        } else {
            assert(es[j].0@ != es[i].0@);
        }
    }
    assert(keys.no_duplicates());
    assert forall|k: Seq<char>| #[trigger] t.dom().contains(k) <==> keys.to_set().contains(k) by {
        if t.contains_key(k) {
            let i = choose|i: int| 0 <= i < es.len() && (#[trigger] es[i]).0@ == k;
            assert(keys[i] == k);
        }
        if keys.to_set().contains(k) {
            let i = choose|i: int| 0 <= i < keys.len() && keys[i] == k;
            assert(t.contains_key(es[i].0@));
        }
    }
    assert(keys.to_set() =~= t.dom());
    keys.unique_seq_to_set();
    assert(keys.to_set().finite()) by {
        broadcast use vstd::seq_lib::seq_to_set_is_finite;
    }
    assert forall|i: int| 0 <= i < es.len() implies (#[trigger] es[i]).1@.len() > 0 by {
        assert(t[es[i].0@] == location_models(es[i].1@));
        assert(t[es[i].0@].len() > 0);
    }
    lemma_location_count_at_least(es);
}

/// Re-indexing a file of a well-formed index twice (the first time with
/// `xs1`, then with `xs2`) gives the locations and files that re-indexing it
/// once with `xs2` gives: every index that `new`, `update_file`,
/// `remove_file` and `clear` leave is well formed.
pub proof fn law_index_update_twice(x: SymbolIndex, file: Seq<char>, xs1: Seq<IndexedModel>, xs2: Seq<IndexedModel>)
    requires
        x.wf(),
    ensures
        add_locations(
            drop_file(add_locations(drop_file(x.locations(), x.files(), file), xs1, file), x.files().insert(file, xs1), file),
            xs2,
            file,
        ) == add_locations(drop_file(x.locations(), x.files(), file), xs2, file),
        x.files().insert(file, xs1).insert(file, xs2) == x.files().insert(file, xs2),
{
    law_update_twice(x.locations(), x.files(), file, xs1, xs2);
}

/// In a well-formed index the entries that `stats` walks are the names,
/// finitely many, one entry each, and hold no fewer locations than there
/// are names.
pub proof fn law_index_stats(x: SymbolIndex, es: Seq<(String, Vec<SymbolLocation>)>)
    requires
        x.wf(),
        lists_locations(es, x.locations()),
    ensures
        x.locations().dom().finite(),
        es.len() == x.locations().dom().len(),
        location_count(es) >= x.locations().dom().len(),
{
    law_stats_counts(x.locations(), x.files(), es);
}

/// A symbol lies inside the namespace `ns` exactly when its namespace has at
/// least as many parts as `ns` and agrees with `ns` on each of them, in
/// order: the symbols kept for `ns` from `xs` are those of `xs` for which
/// this holds.
pub proof fn law_in_namespace(xs: Seq<IndexedModel>, ns: Seq<Seq<char>>, y: IndexedModel)
    ensures
        in_namespace(xs, ns).contains(y) <==> (xs.contains(y) && ns.len() <= y.namespace.len() && forall|j: int|
            0 <= j < ns.len() ==> #[trigger] y.namespace[j] == ns[j]),
    decreases xs.len(),
{
    let inside = ns.len() <= y.namespace.len() && forall|j: int| 0 <= j < ns.len() ==> #[trigger] y.namespace[j] == ns[j];
    if xs.len() > 0 {
        law_in_namespace(xs.drop_last(), ns, y);
        let last = xs.last();
        let keep = is_prefix_of(ns, last.namespace);
        assert(keep <==> (ns.len() <= last.namespace.len() && forall|j: int| 0 <= j < ns.len() ==> #[trigger] last.namespace[j] == ns[j])) by {
            if ns.len() <= last.namespace.len() {
                if forall|j: int| 0 <= j < ns.len() ==> #[trigger] last.namespace[j] == ns[j] {
                    assert(last.namespace.subrange(0, ns.len() as int) =~= ns);
                }
                if keep {
                    assert forall|j: int| 0 <= j < ns.len() implies #[trigger] last.namespace[j] == ns[j] by {
                        assert(last.namespace.subrange(0, ns.len() as int)[j] == last.namespace[j]);
                    }
                }
            }
        }
        let front = in_namespace(xs.drop_last(), ns);
        let tail = if keep { seq![last] } else { Seq::<IndexedModel>::empty() };
        assert(in_namespace(xs, ns) == front + tail);
        assert((front + tail).contains(y) <==> (front.contains(y) || tail.contains(y))) by {
            if (front + tail).contains(y) {
                let i = choose|i: int| 0 <= i < (front + tail).len() && (front + tail)[i] == y;
                if i >= front.len() {
                    assert(tail[i - front.len()] == y);
                }
            }
            if front.contains(y) {
                let i = choose|i: int| 0 <= i < front.len() && front[i] == y;
                assert((front + tail)[i] == y);
            }
            if tail.contains(y) {
                assert((front + tail)[front.len() as int] == tail[0]);
            }
        }
        assert(xs.contains(y) <==> (xs.drop_last().contains(y) || y == last)) by {
            if xs.contains(y) {
                let i = choose|i: int| 0 <= i < xs.len() && xs[i] == y;
                if i < xs.len() - 1 {
                    assert(xs.drop_last()[i] == y);
                }
            }
            if xs.drop_last().contains(y) {
                let i = choose|i: int| 0 <= i < xs.drop_last().len() && xs.drop_last()[i] == y;
                assert(xs[i] == y);
            }
            if y == last {
                assert(xs[xs.len() - 1] == y);
            }
        }
        assert(tail.contains(y) <==> (keep && y == last)) by {
            if keep && y == last {
                assert(tail[0] == y);
            }
        }
    }
}

/// What `symbols_in_namespace` returns, over the entries walked: a symbol
/// is among them exactly when some file's symbols hold it and its namespace
/// starts with all the parts of `ns`, each equal in order.
pub proof fn law_namespace_symbols(es: Seq<(String, Vec<IndexedSymbol>)>, ns: Seq<Seq<char>>, y: IndexedModel)
    ensures
        namespace_symbols(es, ns).contains(y) <==> ((exists|i: int| 0 <= i < es.len() && #[trigger] indexed_models(es[i].1@).contains(y))
            && ns.len() <= y.namespace.len() && forall|j: int| 0 <= j < ns.len() ==> #[trigger] y.namespace[j] == ns[j]),
    decreases es.len(),
{
    if es.len() > 0 {
        law_namespace_symbols(es.drop_last(), ns, y);
        let xs = indexed_models(es.last().1@);
        law_in_namespace(xs, ns, y);
        let front = namespace_symbols(es.drop_last(), ns);
        let tail = in_namespace(xs, ns);
        assert(namespace_symbols(es, ns) == front + tail);
        assert((front + tail).contains(y) <==> (front.contains(y) || tail.contains(y))) by {
            if (front + tail).contains(y) {
                let i = choose|i: int| 0 <= i < (front + tail).len() && (front + tail)[i] == y;
                if i >= front.len() {
                    assert(tail[i - front.len()] == y);
                }
            }
            if front.contains(y) {
                let i = choose|i: int| 0 <= i < front.len() && front[i] == y;
                assert((front + tail)[i] == y);
            }
            if tail.contains(y) {
                let i = choose|i: int| 0 <= i < tail.len() && tail[i] == y;
                assert((front + tail)[front.len() + i] == y);
            }
        }
        assert((exists|i: int| 0 <= i < es.len() && #[trigger] indexed_models(es[i].1@).contains(y)) <==> ((exists|i: int|
            0 <= i < es.drop_last().len() && #[trigger] indexed_models(es.drop_last()[i].1@).contains(y)) || xs.contains(y))) by {
            if exists|i: int| 0 <= i < es.len() && #[trigger] indexed_models(es[i].1@).contains(y) {
                let i = choose|i: int| 0 <= i < es.len() && #[trigger] indexed_models(es[i].1@).contains(y);
                if i < es.len() - 1 {
                    assert(es.drop_last()[i] == es[i]);
                }
            }
            if exists|i: int| 0 <= i < es.drop_last().len() && #[trigger] indexed_models(es.drop_last()[i].1@).contains(y) {
                let i = choose|i: int| 0 <= i < es.drop_last().len() && #[trigger] indexed_models(es.drop_last()[i].1@).contains(y);
                assert(es.drop_last()[i] == es[i]);
            }
            if xs.contains(y) {
                assert(es[es.len() - 1] == es.last());
            }
        }
    }
}

/// Where a name is defined: at the first of its locations that defines
/// it; where none of them does, at the first location; nowhere for a name
/// with no locations.
pub proof fn law_definition_of(t: LocationTable, name: Seq<char>)
    ensures
        definition_of(t, name) is None <==> (!t.contains_key(name) || t[name].len() == 0),
        t.contains_key(name) ==> forall|i: int|
            0 <= i < t[name].len() && (#[trigger] t[name][i]).3 && (forall|j: int| 0 <= j < i ==> !(#[trigger] t[name][j]).3)
                ==> definition_of(t, name) == Some((t[name][i].0, t[name][i].1)),
        t.contains_key(name) && t[name].len() > 0 && (forall|j: int| 0 <= j < t[name].len() ==> !(#[trigger] t[name][j]).3)
            ==> definition_of(t, name) == Some((t[name][0].0, t[name][0].1)),
{
    if t.contains_key(name) {
        let ls = t[name];
        lemma_first_definition(ls);
        assert forall|i: int|
            0 <= i < ls.len() && (#[trigger] ls[i]).3 && (forall|j: int| 0 <= j < i ==> !(#[trigger] ls[j]).3)
                implies definition_of(t, name) == Some((ls[i].0, ls[i].1)) by {
            match first_definition(ls) {
                Some(f) => {
                    if f < i {
                        assert(!ls[f].3);
                    }
                    if i < f {
                        assert(!ls[i].3);
                    }
                },
                None => {
                    assert(!ls[i].3);
                },
            }
        }
        if first_definition(ls) is Some {
            let f = first_definition(ls)->0;
            assert(ls[f].3);
        }
    }
}

/// The locations of one kind keep exactly those of that kind, in order of
/// appearance: a location is among them exactly when it is among `ls` and
/// has that kind.
pub proof fn law_of_kind(ls: Seq<LocationModel>, kind: SymbolKind, l: LocationModel)
    ensures
        of_kind(ls, kind).contains(l) <==> (ls.contains(l) && l.2 == kind),
    decreases ls.len(),
{
    if ls.len() > 0 {
        law_of_kind(ls.drop_last(), kind, l);
        let last = ls.last();
        let front = of_kind(ls.drop_last(), kind);
        let tail = if last.2 == kind { seq![last] } else { Seq::<LocationModel>::empty() };
        assert(of_kind(ls, kind) == front + tail);
        assert((front + tail).contains(l) <==> (front.contains(l) || tail.contains(l))) by {
            if (front + tail).contains(l) {
                let i = choose|i: int| 0 <= i < (front + tail).len() && (front + tail)[i] == l;
                if i >= front.len() {
                    assert(tail[i - front.len()] == l);
                }
            }
            if front.contains(l) {
                let i = choose|i: int| 0 <= i < front.len() && front[i] == l;
                assert((front + tail)[i] == l);
            }
            if tail.contains(l) {
                assert((front + tail)[front.len() as int] == tail[0]);
            }
        }
        assert(ls.contains(l) <==> (ls.drop_last().contains(l) || l == last)) by {
            if ls.contains(l) {
                let i = choose|i: int| 0 <= i < ls.len() && ls[i] == l;
                if i < ls.len() - 1 {
                    assert(ls.drop_last()[i] == l);
                }
            }
            if ls.drop_last().contains(l) {
                let i = choose|i: int| 0 <= i < ls.drop_last().len() && ls.drop_last()[i] == l;
                assert(ls[i] == l);
            }
            if l == last {
                assert(ls[ls.len() - 1] == l);
            }
        }
        assert(tail.contains(l) <==> (last.2 == kind && l == last)) by {
            if last.2 == kind && l == last {
                assert(tail[0] == l);
            }
        }
    }
}

/// A name qualified by no namespace is the name itself; one more enclosing
/// namespace `n` puts the name after the qualified `n` and a dot.
pub proof fn law_qualify(ns: Seq<Seq<char>>, n: Seq<char>, name: Seq<char>)
    ensures
        qualify(Seq::empty(), name) == name,
        qualify(ns.push(n), name) == qualify(ns, n) + "."@ + name,
{
    if ns.len() > 0 {
        assert(ns.push(n).drop_last() =~= ns);
    } else {
        assert(ns.push(n) =~= seq![n]);
    }
}

/// `q` can be read in `t` by skipping characters of `t`: its characters
/// appear in `t` in order, not necessarily next to each other.
pub open spec fn is_subsequence(q: Seq<char>, t: Seq<char>) -> bool
    decreases t.len(),
{
    if q.len() == 0 {
        true
    } else if t.len() == 0 {
        false
    } else {
        (t[0] == q[0] && is_subsequence(q.drop_first(), t.drop_first())) || is_subsequence(q, t.drop_first())
    }
}

proof fn lemma_subsequence_longer(q: Seq<char>, t: Seq<char>)
    requires
        t.len() > 0,
        is_subsequence(q, t.drop_first()),
    ensures
        is_subsequence(q, t),
{
}

proof fn lemma_subsequence_rest(q: Seq<char>, t: Seq<char>)
    requires
        q.len() > 0,
        is_subsequence(q, t),
    ensures
        t.len() > 0,
        is_subsequence(q.drop_first(), t.drop_first()),
    decreases t.len(),
{
    if !(t[0] == q[0] && is_subsequence(q.drop_first(), t.drop_first())) {
        lemma_subsequence_rest(q, t.drop_first());
        lemma_subsequence_longer(q.drop_first(), t.drop_first());
    }
}

/// Walking through `t` and taking each character of `q` as soon as it
/// comes meets all of `q` exactly when `q` is a subsequence of `t`.
pub proof fn law_greedy_matches_subsequence(q: Seq<char>, t: Seq<char>)
    ensures
        greedy_matches(q, t) == q.len() <==> is_subsequence(q, t),
    decreases t.len(),
{
    lemma_greedy_matches_bound(q, t);
    if q.len() > 0 && t.len() > 0 {
        law_greedy_matches_subsequence(q.drop_first(), t.drop_first());
        law_greedy_matches_subsequence(q, t.drop_first());
        if t[0] == q[0] {
            if is_subsequence(q, t) {
                lemma_subsequence_rest(q, t);
            }
        }
    }
}

/// The score of a query against a name: none (0/1) for an empty query;
/// nine tenths where the query occurs whole in the name; where it does not
/// but its characters appear in the name in order, their number over the
/// length of the name in UTF-8 bytes; else none.
pub proof fn law_score_of(q: Seq<char>, t: Seq<char>)
    ensures
        q.len() == 0 ==> (score_of(q, t).numerator == 0 && score_of(q, t).denominator == 1),
        q.len() > 0 && (exists|i: int| 0 <= i && i + q.len() <= t.len() && #[trigger] t.subrange(i, i + q.len()) == q) ==> (
            score_of(q, t).numerator == 9 && score_of(q, t).denominator == 10),
        q.len() > 0 && !(exists|i: int| 0 <= i && i + q.len() <= t.len() && #[trigger] t.subrange(i, i + q.len()) == q)
            && is_subsequence(q, t) ==> (score_of(q, t).numerator == q.len() as usize && score_of(q, t).denominator == encode_utf8(
            t,
        ).len() as usize),
        q.len() > 0 && !is_subsequence(q, t) && !(exists|i: int|
            0 <= i && i + q.len() <= t.len() && #[trigger] t.subrange(i, i + q.len()) == q) ==> (score_of(q, t).numerator == 0
            && score_of(q, t).denominator == 1),
{
    law_greedy_matches_subsequence(q, t);
}

/// Indexing a file's symbols in order: the first symbol lies in no
/// namespace; each next one lies in the namespaces of the one before, plus
/// that one when it is itself a namespace; each keeps its symbol, and its
/// qualified name is its namespaces and its name joined with dots.
pub proof fn law_index_symbols(syms: Seq<SymbolModel>, k: int)
    requires
        0 <= k < syms.len(),
    ensures
        index_symbols(syms).len() == syms.len(),
        index_symbols(syms)[k].symbol == syms[k],
        index_symbols(syms)[k].qualified == qualify(index_symbols(syms)[k].namespace, syms[k].name),
        k == 0 ==> index_symbols(syms)[k].namespace.len() == 0,
        k > 0 && syms[k - 1].kind == SymbolKind::Namespace ==> index_symbols(syms)[k].namespace
            == index_symbols(syms)[k - 1].namespace.push(syms[k - 1].name),
        k > 0 && syms[k - 1].kind != SymbolKind::Namespace ==> index_symbols(syms)[k].namespace
            == index_symbols(syms)[k - 1].namespace,
{
    if k > 0 {
        let a = namespaces_before(syms, k - 1);
        if syms[k - 1].kind == SymbolKind::Namespace {
            assert(a + seq![syms[k - 1].name] =~= a.push(syms[k - 1].name));
        } else {
            assert(a + Seq::<Seq<char>>::empty() =~= a);
        }
    }
}

proof fn lemma_concat_contains<A>(a: Seq<A>, b: Seq<A>, x: A)
    ensures
        (a + b).contains(x) <==> (a.contains(x) || b.contains(x)),
{
    if (a + b).contains(x) {
        let i = choose|i: int| 0 <= i < (a + b).len() && (a + b)[i] == x;
        if i >= a.len() {
            assert(b[i - a.len()] == x);
        }
    }
    if a.contains(x) {
        let i = choose|i: int| 0 <= i < a.len() && a[i] == x;
        assert((a + b)[i] == x);
    }
    if b.contains(x) {
        let i = choose|i: int| 0 <= i < b.len() && b[i] == x;
        assert((a + b)[a.len() + i] == x);
    }
}

proof fn lemma_last_contains<A>(s: Seq<A>, x: A)
    requires
        s.len() > 0,
    ensures
        s.contains(x) <==> (s.drop_last().contains(x) || x == s.last()),
{
    if s.contains(x) {
        let i = choose|i: int| 0 <= i < s.len() && s[i] == x;
        if i < s.len() - 1 {
            assert(s.drop_last()[i] == x);
        }
    }
    if s.drop_last().contains(x) {
        let i = choose|i: int| 0 <= i < s.drop_last().len() && s.drop_last()[i] == x;
        assert(s[i] == x);
    }
    if x == s.last() {
        assert(s[s.len() - 1] == x);
    }
}

/// Dropping a file's locations keeps exactly the locations in other files.
pub proof fn law_without_file(ls: Seq<LocationModel>, file: Seq<char>, l: LocationModel)
    ensures
        without_file(ls, file).contains(l) <==> (ls.contains(l) && l.0 != file),
    decreases ls.len(),
{
    if ls.len() > 0 {
        law_without_file(ls.drop_last(), file, l);
        let tail = if ls.last().0 != file { seq![ls.last()] } else { Seq::<LocationModel>::empty() };
        lemma_concat_contains(without_file(ls.drop_last(), file), tail, l);
        lemma_last_contains(ls, l);
        if ls.last().0 != file && l == ls.last() {
            assert(tail[0] == l);
        }
    }
}

proof fn lemma_added_at_contains(xs: Seq<IndexedModel>, key: Seq<char>, file: Seq<char>, l: LocationModel)
    ensures
        added_at(xs, key, file).contains(l) <==> exists|i: int|
            0 <= i < xs.len() && (#[trigger] xs[i]).qualified == key && location_of(xs[i], file) == l,
    decreases xs.len(),
{
    if xs.len() > 0 {
        lemma_added_at_contains(xs.drop_last(), key, file, l);
        let last = xs.last();
        let tail = if last.qualified == key { seq![location_of(last, file)] } else { Seq::<LocationModel>::empty() };
        lemma_concat_contains(added_at(xs.drop_last(), key, file), tail, l);
        if exists|i: int| 0 <= i < xs.len() && (#[trigger] xs[i]).qualified == key && location_of(xs[i], file) == l {
            let i = choose|i: int| 0 <= i < xs.len() && (#[trigger] xs[i]).qualified == key && location_of(xs[i], file) == l;
            if i < xs.len() - 1 {
                assert(xs.drop_last()[i] == xs[i]);
            } else {
                assert(tail[0] == l);
            }
        }
        if exists|i: int| 0 <= i < xs.drop_last().len() && (#[trigger] xs.drop_last()[i]).qualified == key && location_of(xs.drop_last()[i], file) == l {
            let i = choose|i: int| 0 <= i < xs.drop_last().len() && (#[trigger] xs.drop_last()[i]).qualified == key && location_of(xs.drop_last()[i], file) == l;
            assert(xs[i] == xs.drop_last()[i]);
        }
        if tail.contains(l) {
            assert(xs[xs.len() - 1] == last);
        }
    }
}

/// Re-indexing `file` of a well-formed index with `xs`: under every name,
/// the locations in other files stay exactly as they were, and the
/// locations in `file` are exactly those of the symbols of `xs` with that
/// qualified name.
pub proof fn law_update_file_locations(x: SymbolIndex, file: Seq<char>, xs: Seq<IndexedModel>, key: Seq<char>, l: LocationModel)
    requires
        x.wf(),
    ensures
        ({
            let t = add_locations(drop_file(x.locations(), x.files(), file), xs, file);
            &&& l.0 != file ==> (locations_at(t, key).contains(l) <==> locations_at(x.locations(), key).contains(l))
            &&& l.0 == file ==> (locations_at(t, key).contains(l) <==> exists|i: int|
                0 <= i < xs.len() && (#[trigger] xs[i]).qualified == key && location_of(xs[i], file) == l)
        }),
{
    let t0 = x.locations();
    let files = x.files();
    let d = drop_file(t0, files, file);
    lemma_add_locations_at(d, xs, file, key);
    lemma_added_at(xs, key, file);
    lemma_added_at_contains(xs, key, file, l);
    lemma_concat_contains(locations_at(d, key), added_at(xs, key, file), l);
    lemma_drop_file_clears(t0, files, file);
    if locations_at(d, key).contains(l) {
        let i = choose|i: int| 0 <= i < locations_at(d, key).len() && locations_at(d, key)[i] == l;
        assert(d[key][i] == l);
    }
    if added_at(xs, key, file).contains(l) {
        let i = choose|i: int| 0 <= i < added_at(xs, key, file).len() && added_at(xs, key, file)[i] == l;
        assert(added_at(xs, key, file)[i].0 == file);
    }
    // The locations of `key` in other files survive the drop.
    if l.0 != file && locations_at(t0, key).contains(l) {
        if files.contains_key(file) {
            lemma_drop_locations_at(t0, files[file], file, key);
            law_without_file(t0[key], file, l);
            if names_key(files[file], key) {
                let kept = without_file(t0[key], file);
                assert(kept.contains(l));
                assert(kept.len() > 0);
                assert(d[key] == kept);
            }
        }
    }
}

/// Removing `file` from a well-formed index: no name keeps a location in
/// `file`, and under every name the locations in other files stay exactly
/// as they were.
pub proof fn law_remove_file_locations(x: SymbolIndex, file: Seq<char>, key: Seq<char>, l: LocationModel)
    requires
        x.wf(),
    ensures
        ({
            let t = drop_file(x.locations(), x.files(), file);
            &&& l.0 == file ==> !locations_at(t, key).contains(l)
            &&& l.0 != file ==> (locations_at(t, key).contains(l) <==> locations_at(x.locations(), key).contains(l))
        }),
{
    let t0 = x.locations();
    let files = x.files();
    let d = drop_file(t0, files, file);
    lemma_drop_file_clears(t0, files, file);
    if locations_at(d, key).contains(l) {
        let i = choose|i: int| 0 <= i < locations_at(d, key).len() && locations_at(d, key)[i] == l;
        assert(d[key][i] == l);
    }
    if l.0 != file && locations_at(t0, key).contains(l) {
        if files.contains_key(file) {
            lemma_drop_locations_at(t0, files[file], file, key);
            law_without_file(t0[key], file, l);
            if names_key(files[file], key) {
                let kept = without_file(t0[key], file);
                assert(kept.contains(l));
                assert(kept.len() > 0);
                assert(d[key] == kept);
            }
        }
    }
}

} // verus!
