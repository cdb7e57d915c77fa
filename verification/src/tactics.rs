//! Mathlib tactics that are a keyword, perhaps followed by a location, a
//! search depth or a list of options.
use vstd::prelude::*;
use crate::error::{ParseError, ParserResult, is_custom, is_expected};
use crate::lexical::{is_alphabetic, is_digit, spec_is_digit, unicode_alphabetic};
use crate::literals::{missing_digits, number_lex, number_result, Lexed};
use crate::parser::{Parser, ident_at, identifier_result, is_node, keyword_at};
use crate::scan::{extends_with_trivia, lemma_trivia_end, pair_at, trivia_end};
use crate::syntax::{pos_at, range_at, SourcePos, Syntax, SyntaxKind, Trivia};

verus! {

/// The texts of a list of targets or options, and where the list ends; or
/// where an error stopped it.
pub ghost enum ListLex {
    Items(Seq<Seq<char>>, int),
    Fail(int),
}

/// `v` followed by the items of `l`.
pub open spec fn prepend_item(v: Seq<char>, l: ListLex) -> ListLex {
    match l {
        ListLex::Items(s, e) => ListLex::Items(seq![v] + s, e),
        ListLex::Fail(k) => ListLex::Fail(k),
    }
}

/// The targets of a location from `j` on, each followed by whitespace and
/// comments: `⊢` (also written `|-`, and a `-` right after `⊢` is taken
/// with it) or a hypothesis name starting with an alphabetic character;
/// the list stops at anything else. A name that is not an identifier is an
/// error where it starts.
pub open spec fn location_targets(t: Seq<char>, j: int) -> ListLex
    decreases t.len() - j,
{
    if 0 <= j < t.len() && (t[j] == '⊢' || pair_at(t, j, '|', '-')) {
        let n = if j + 1 < t.len() && t[j + 1] == '-' { j + 2 } else { j + 1 };
        let k = trivia_end(t, n);
        if j < k <= t.len() {
            prepend_item(seq!['⊢'], location_targets(t, k))
        } else {
            ListLex::Fail(j)
        }
    } else if 0 <= j < t.len() && unicode_alphabetic(t[j]) {
        match ident_at(t, j) {
            Some((e, name)) => {
                let k = trivia_end(t, e);
                if j < k <= t.len() {
                    prepend_item(name, location_targets(t, k))
                } else {
                    ListLex::Fail(j)
                }
            },
            None => ListLex::Fail(j),
        }
    } else {
        ListLex::Items(Seq::empty(), j)
    }
}

/// `vals` followed by the items of `l`.
pub open spec fn prepend_items(vals: Seq<Seq<char>>, l: ListLex) -> ListLex {
    match l {
        ListLex::Items(s, e) => ListLex::Items(vals + s, e),
        ListLex::Fail(k) => ListLex::Fail(k),
    }
}

proof fn lemma_prepend_items_push(vals: Seq<Seq<char>>, v: Seq<char>, l: ListLex)
    ensures
        prepend_items(vals, prepend_item(v, l)) == prepend_items(vals.push(v), l),
{
    match l {
        ListLex::Items(s, e) => {
            assert(vals + (seq![v] + s) =~= vals.push(v) + s);
        },
        ListLex::Fail(k) => {},
    }
}

/// Where trivia end, no more trivia start.
proof fn lemma_trivia_end_idem(t: Seq<char>, i: int)
    requires
        0 <= i <= t.len(),
    ensures
        trivia_end(t, trivia_end(t, i)) == trivia_end(t, i),
{
    lemma_trivia_end(t, i);
    let j = trivia_end(t, i);
    crate::scan::lemma_scan_unique(t, j, j, crate::scan::ws());
}

/// What an atom reads as; nothing for another syntax.
pub open spec fn atom_text(s: Syntax) -> Seq<char> {
    match s {
        Syntax::Atom(a) => a.value@,
        _ => Seq::empty(),
    }
}

/// The children are atoms reading as `vals`.
pub open spec fn atom_values(children: Seq<Syntax>, vals: Seq<Seq<char>>) -> bool {
    &&& children.len() == vals.len()
    &&& forall|k: int| 0 <= k < children.len() ==> (#[trigger] children[k] matches Syntax::Atom(a) && a.value@ == vals[k])
}

/// What a tactic that is just the keyword `kw` parses: the keyword (no
/// whitespace skipped), as a `CustomTactic` node without children spanning
/// it and carrying the collected trivia.
pub open spec fn keyword_tactic_result(p: Parser, q: Parser, r: ParserResult<Syntax>, kw: Seq<char>) -> bool {
    let t = p.text();
    let i = p.offset() as int;
    if keyword_at(t, i, kw) {
        &&& q.same_context(p)
        &&& q.trivia().len() == 0
        &&& q.offset() == i + kw.len()
        &&& r matches Ok(s) && is_node(
            s,
            SyntaxKind::CustomTactic,
            range_at(t, i as nat, (i + kw.len()) as nat),
            Seq::empty(),
            p.trivia(),
        )
    } else {
        &&& q.moved(p, i as nat)
        &&& r matches Err(e) && is_expected(*e, "keyword '"@ + kw + "'"@, pos_at(t, i as nat))
    }
}

/// A location `at ...` of a tactic, read from the text.
pub ghost enum Location {
    /// No `at` stands there.
    Absent,
    /// `at *`, ending where given.
    Everywhere(int),
    /// `at` and targets, ending where given.
    Targets(Seq<Seq<char>>, int),
    /// `at` without a target; a location was expected where given.
    Missing(int),
    /// A target that is not an identifier starts where given.
    BadName(int),
}

/// The location that `parse_tactic_location` reads at `i`: nothing unless
/// the keyword `at` stands there; then, after whitespace and comments, `*`
/// or the targets of `location_targets`, of which there must be one.
pub open spec fn location_at(t: Seq<char>, i: int) -> Location {
    let j = trivia_end(t, i + 2);
    if !keyword_at(t, i, "at"@) {
        Location::Absent
    } else if j < t.len() && t[j] == '*' {
        Location::Everywhere(j + 1)
    } else {
        match location_targets(t, j) {
            ListLex::Items(vals, e) => if vals.len() == 0 {
                Location::Missing(e)
            } else {
                Location::Targets(vals, e)
            },
            ListLex::Fail(k) => Location::BadName(k),
        }
    }
}

/// `s` is the node of a location that starts at `i` and ends at `e`, its
/// children atoms reading as `vals`.
pub open spec fn is_location_node(s: Syntax, t: Seq<char>, i: int, e: int, vals: Seq<Seq<char>>) -> bool {
    &&& s matches Syntax::Node(n)
    &&& n.kind == SyntaxKind::CustomTactic
    &&& n.range == range_at(t, i as nat, e as nat)
    &&& atom_values(n.children@, vals)
}

/// The error `r` and the cursor of `q` for a location that failed.
pub open spec fn location_error<T>(t: Seq<char>, q: Parser, r: ParserResult<T>, loc: Location) -> bool {
    match loc {
        Location::Missing(e) => {
            &&& q.offset() == e
            &&& r matches Err(err) && is_expected(*err, "location"@, pos_at(t, e as nat))
        },
        Location::BadName(k) => {
            &&& q.offset() == k
            &&& r matches Err(err) && is_expected(*err, "identifier"@, pos_at(t, k as nat))
        },
        _ => false,
    }
}

/// What `parse_tactic_location` returns from `p` (see `location_at`): no
/// syntax and an unmoved cursor for no location; else a `CustomTactic`
/// node spanning the location, its children atoms reading as `*` or as the
/// targets.
pub open spec fn location_result(p: Parser, q: Parser, r: ParserResult<Option<Syntax>>) -> bool {
    let t = p.text();
    let i = p.offset() as int;
    match location_at(t, i) {
        Location::Absent => {
            &&& q.moved(p, i as nat)
            &&& r matches Ok(o) && o is None
        },
        Location::Everywhere(e) => {
            &&& q.same_context(p)
            &&& q.trivia().len() == 0
            &&& q.offset() == e
            &&& r matches Ok(o) && o matches Some(s) && is_location_node(s, t, i, e, seq![seq!['*']])
        },
        Location::Targets(vals, e) => {
            &&& q.same_context(p)
            &&& q.trivia().len() == 0
            &&& q.offset() == e
            &&& r matches Ok(o) && o matches Some(s) && is_location_node(s, t, i, e, vals)
        },
        _ => q.same_context(p) && location_error(t, q, r, location_at(t, i)),
    }
}

/// `q` and `r` are `p` after failing to find the keyword `kw` at its cursor.
pub open spec fn keyword_missing<T>(p: Parser, q: Parser, r: ParserResult<T>, kw: Seq<char>) -> bool {
    &&& q.moved(p, p.offset())
    &&& r matches Err(e) && is_expected(*e, "keyword '"@ + kw + "'"@, pos_at(p.text(), p.offset()))
}

/// The children of a node; none for another syntax.
pub open spec fn children_of(s: Syntax) -> Seq<Syntax> {
    match s {
        Syntax::Node(n) => n.children@,
        _ => Seq::empty(),
    }
}

/// The leading trivia of a node or an atom.
pub open spec fn leading_of(s: Syntax) -> Seq<Trivia> {
    match s {
        Syntax::Node(n) => n.leading_trivia@,
        Syntax::Atom(a) => a.leading_trivia@,
        Syntax::Missing => Seq::empty(),
    }
}

/// `s` is a `CustomTactic` node spanning from `i` to `e` with `n`
/// children.
pub open spec fn is_tactic_node(s: Syntax, t: Seq<char>, i: int, e: int, n: nat) -> bool {
    &&& s matches Syntax::Node(x)
    &&& x.kind == SyntaxKind::CustomTactic
    &&& x.range == range_at(t, i as nat, e as nat)
    &&& x.children@.len() == n
}

/// What a tactic `kw` with an optional location (`ring_nf`, `norm_num`)
/// parses: the keyword, whitespace and comments, and the location at
/// `location_at`, which becomes the only child of a `CustomTactic` node
/// spanning from the keyword. Without a location the node carries the
/// trivia collected before and after the keyword.
pub open spec fn located_tactic_result(p: Parser, q: Parser, r: ParserResult<Syntax>, kw: Seq<char>) -> bool {
    let t = p.text();
    let i = p.offset() as int;
    let k = i + kw.len();
    let j = trivia_end(t, k);
    if !keyword_at(t, i, kw) {
        keyword_missing(p, q, r, kw)
    } else {
        match location_at(t, j) {
            Location::Absent => {
                &&& q.same_context(p)
                &&& q.trivia().len() == 0
                &&& q.offset() == j
                &&& r matches Ok(s) && is_tactic_node(s, t, i, j, 0)
                    && extends_with_trivia(p.trivia(), leading_of(s), t, k)
            },
            Location::Everywhere(e) => {
                &&& q.same_context(p)
                &&& q.trivia().len() == 0
                &&& q.offset() == e
                &&& r matches Ok(s) && is_tactic_node(s, t, i, e, 1) && leading_of(s).len() == 0
                    && is_location_node(children_of(s)[0], t, j, e, seq![seq!['*']])
            },
            Location::Targets(vals, e) => {
                &&& q.same_context(p)
                &&& q.trivia().len() == 0
                &&& q.offset() == e
                &&& r matches Ok(s) && is_tactic_node(s, t, i, e, 1) && leading_of(s).len() == 0
                    && is_location_node(children_of(s)[0], t, j, e, vals)
            },
            _ => q.same_context(p) && location_error(t, q, r, location_at(t, j)),
        }
    }
}

proof fn lemma_location_targets(t: Seq<char>, j: int)
    requires
        0 <= j <= t.len(),
    ensures
        location_targets(t, j) matches ListLex::Items(v, e) ==> j <= e <= t.len() && (v.len()
            == 0 ==> e == j),
        location_targets(t, j) matches ListLex::Fail(k) ==> j <= k <= t.len(),
    decreases t.len() - j,
{
    if 0 <= j < t.len() && (t[j] == '⊢' || pair_at(t, j, '|', '-')) {
        let n = if j + 1 < t.len() && t[j + 1] == '-' { j + 2 } else { j + 1 };
        lemma_trivia_end(t, n);
        lemma_location_targets(t, trivia_end(t, n));
    } else if 0 <= j < t.len() && unicode_alphabetic(t[j]) {
        match ident_at(t, j) {
            Some((e, name)) => {
                crate::parser::lemma_ident_at(t, j);
                lemma_trivia_end(t, e);
                lemma_location_targets(t, trivia_end(t, e));
            },
            None => {},
        }
    }
}

/// What `suggest_tactic` parses: the keyword `suggest`, whitespace and
/// comments, and a number if a digit follows (see `number_lex`), which
/// becomes the only child of a `CustomTactic` node spanning from the
/// keyword and carries the collected trivia. Without a number the node
/// carries them.
pub open spec fn suggest_result(p: Parser, q: Parser, r: ParserResult<Syntax>) -> bool {
    let t = p.text();
    let i = p.offset() as int;
    let k = i + 7;
    let j = trivia_end(t, k);
    if !keyword_at(t, i, "suggest"@) {
        keyword_missing(p, q, r, "suggest"@)
    } else if j < t.len() && spec_is_digit(t[j]) {
        match number_lex(t, j) {
            Lexed::Body(v, e) => {
                &&& q.same_context(p)
                &&& q.trivia().len() == 0
                &&& q.offset() == e
                &&& r matches Ok(s) && is_tactic_node(s, t, i, e, 1) && leading_of(s).len() == 0
                    && is_tactic_atom(children_of(s)[0], t, j, e, v)
                    && extends_with_trivia(p.trivia(), leading_of(children_of(s)[0]), t, k)
            },
            Lexed::Invalid(e) => {
                &&& q.same_context(p)
                &&& q.offset() == e
                &&& r matches Err(err) && is_custom(*err, missing_digits(t, j), pos_at(t, e as nat))
            },
        }
    } else {
        &&& q.same_context(p)
        &&& q.trivia().len() == 0
        &&& q.offset() == j
        &&& r matches Ok(s) && is_tactic_node(s, t, i, j, 0)
            && extends_with_trivia(p.trivia(), leading_of(s), t, k)
    }
}

/// `s` is an atom spanning from `i` to `e` and reading as `v`.
pub open spec fn is_tactic_atom(s: Syntax, t: Seq<char>, i: int, e: int, v: Seq<char>) -> bool {
    &&& s matches Syntax::Atom(a)
    &&& a.range == range_at(t, i as nat, e as nat)
    &&& a.value@ == v
}

/// The options of `aesop (...)` from `j`, which stands after whitespace
/// and comments: identifiers, each followed by whitespace and comments and
/// perhaps a comma and more of them, up to a `)`. Where no identifier
/// starts, the list fails.
pub open spec fn option_list(t: Seq<char>, j: int) -> ListLex
    decreases t.len() - j,
{
    if 0 <= j < t.len() && t[j] == ')' {
        ListLex::Items(Seq::empty(), j)
    } else {
        match ident_at(t, j) {
            Some((e, name)) => {
                let k = trivia_end(t, e);
                let n = if k < t.len() && t[k] == ',' { trivia_end(t, k + 1) } else { k };
                if j < n <= t.len() {
                    prepend_item(name, option_list(t, n))
                } else {
                    ListLex::Fail(j)
                }
            },
            None => ListLex::Fail(j),
        }
    }
}

/// The error that `identifier` gives at `j`, where no identifier starts
/// after whitespace and comments: at the end of the text for an unclosed
/// `«`, else at `j`.
pub open spec fn identifier_error<T>(t: Seq<char>, q: Parser, r: ParserResult<T>, j: int) -> bool {
    if 0 <= j < t.len() && t[j] == '«' {
        &&& q.offset() == t.len()
        &&& r matches Err(e) && is_expected(*e, "closing » for quoted identifier"@, pos_at(t, t.len()))
    } else {
        &&& q.offset() == j
        &&& r matches Err(e) && is_expected(*e, "identifier"@, pos_at(t, j as nat))
    }
}

/// What `aesop_tactic` parses: the keyword `aesop`, whitespace and
/// comments, and, if a `(` follows, the options of `option_list` and the
/// closing `)`. The options become the atoms of a `CustomTactic` node
/// spanning from the keyword.
pub open spec fn aesop_result(p: Parser, q: Parser, r: ParserResult<Syntax>) -> bool {
    let t = p.text();
    let i = p.offset() as int;
    let k = i + 5;
    let j = trivia_end(t, k);
    if !keyword_at(t, i, "aesop"@) {
        keyword_missing(p, q, r, "aesop"@)
    } else if j < t.len() && t[j] == '(' {
        match option_list(t, trivia_end(t, j + 1)) {
            ListLex::Items(vals, e) => {
                &&& q.same_context(p)
                &&& q.trivia().len() == 0
                &&& q.offset() == e + 1
                &&& r matches Ok(s) && is_tactic_node(s, t, i, e + 1, vals.len())
                    && atom_values(children_of(s), vals)
            },
            ListLex::Fail(f) => q.same_context(p) && identifier_error(t, q, r, f),
        }
    } else {
        &&& q.same_context(p)
        &&& q.trivia().len() == 0
        &&& q.offset() == j
        &&& r matches Ok(s) && is_tactic_node(s, t, i, j, 0)
            && extends_with_trivia(p.trivia(), leading_of(s), t, k)
    }
}

proof fn lemma_option_list(t: Seq<char>, j: int)
    requires
        0 <= j <= t.len(),
    ensures
        option_list(t, j) matches ListLex::Items(v, e) ==> j <= e < t.len() && t[e] == ')',
        option_list(t, j) matches ListLex::Fail(k) ==> j <= k <= t.len(),
    decreases t.len() - j,
{
    if 0 <= j < t.len() && t[j] == ')' {
    } else {
        match ident_at(t, j) {
            Some((e, name)) => {
                crate::parser::lemma_ident_at(t, j);
                lemma_trivia_end(t, e);
                let k = trivia_end(t, e);
                if k < t.len() && t[k] == ',' {
                    lemma_trivia_end(t, k + 1);
                }
                let n = if k < t.len() && t[k] == ',' { trivia_end(t, k + 1) } else { k };
                lemma_option_list(t, n);
            },
            None => {},
        }
    }
}

impl Parser {
    /// Parses the keyword `kw` as a tactic without arguments (see
    /// `keyword_tactic_result`).
    fn keyword_tactic(&mut self, kw: &str) -> (r: ParserResult<Syntax>)
        requires
            old(self).wf(),
        ensures
            final(self).wf(),
            keyword_tactic_result(*old(self), *final(self), r, kw@),
    {
        let start = self.position();
        match self.keyword(kw) {
            Ok(()) => {},
            Err(e) => {
                return Err(e);
            },
        }
        let range = self.input().range_from(start);
        let node = self.create_node(SyntaxKind::CustomTactic, range, Vec::new());
        Ok(node)
    }

    /// Parses the keyword `kw` and an optional location (see
    /// `located_tactic_result`).
    fn located_tactic(&mut self, kw: &str) -> (r: ParserResult<Syntax>)
        requires
            old(self).wf(),
        ensures
            final(self).wf(),
            located_tactic_result(*old(self), *final(self), r, kw@),
    {
        let ghost t = self.text();
        let ghost i = self.offset() as int;
        let start = self.position();
        match self.keyword(kw) {
            Ok(()) => {},
            Err(e) => {
                return Err(e);
            },
        }
        proof { self.lemma_wf(); }
        let ghost after = *self;
        self.skip_whitespace();
        proof { lemma_trivia_end(t, i + kw@.len()); }
        let ghost mid = *self;
        let location = match self.parse_tactic_location() {
            Ok(l) => l,
            Err(e) => {
                return Err(e);
            },
        };
        let range = self.input().range_from(start);
        let mut children: Vec<Syntax> = Vec::new();
        match location {
            Some(loc) => {
                children.push(loc);
            },
            None => {},
        }
        let ghost ch = children@;
        let node = self.create_node(SyntaxKind::CustomTactic, range, children);
        Ok(node)
    }

    /// `ring_nf`: normalizes ring expressions, at an optional location.
    pub fn ring_nf_tactic(&mut self) -> (r: ParserResult<Syntax>)
        requires
            old(self).wf(),
        ensures
            final(self).wf(),
            located_tactic_result(*old(self), *final(self), r, "ring_nf"@),
    {
        self.located_tactic("ring_nf")
    }

    /// `norm_num`: normalizes numerals, at an optional location.
    pub fn norm_num_tactic(&mut self) -> (r: ParserResult<Syntax>)
        requires
            old(self).wf(),
        ensures
            final(self).wf(),
            located_tactic_result(*old(self), *final(self), r, "norm_num"@),
    {
        self.located_tactic("norm_num")
    }

    /// `ring`: solves goals about commutative (semi)rings.
    pub fn ring_tactic(&mut self) -> (r: ParserResult<Syntax>)
        requires
            old(self).wf(),
        ensures
            final(self).wf(),
            keyword_tactic_result(*old(self), *final(self), r, "ring"@),
    {
        self.keyword_tactic("ring")
    }

    /// `abel`: solves goals about abelian groups.
    pub fn abel_tactic(&mut self) -> (r: ParserResult<Syntax>)
        requires
            old(self).wf(),
        ensures
            final(self).wf(),
            keyword_tactic_result(*old(self), *final(self), r, "abel"@),
    {
        self.keyword_tactic("abel")
    }

    /// `omega`: linear arithmetic over integers and naturals.
    pub fn omega_tactic(&mut self) -> (r: ParserResult<Syntax>)
        requires
            old(self).wf(),
        ensures
            final(self).wf(),
            keyword_tactic_result(*old(self), *final(self), r, "omega"@),
    {
        self.keyword_tactic("omega")
    }

    /// `tauto`: proves tautologies.
    pub fn tauto_tactic(&mut self) -> (r: ParserResult<Syntax>)
        requires
            old(self).wf(),
        ensures
            final(self).wf(),
            keyword_tactic_result(*old(self), *final(self), r, "tauto"@),
    {
        self.keyword_tactic("tauto")
    }

    /// `hint`: suggests tactics.
    pub fn hint_tactic(&mut self) -> (r: ParserResult<Syntax>)
        requires
            old(self).wf(),
        ensures
            final(self).wf(),
            keyword_tactic_result(*old(self), *final(self), r, "hint"@),
    {
        self.keyword_tactic("hint")
    }

    /// `library_search`: searches the library for a closing lemma.
    pub fn library_search_tactic(&mut self) -> (r: ParserResult<Syntax>)
        requires
            old(self).wf(),
        ensures
            final(self).wf(),
            keyword_tactic_result(*old(self), *final(self), r, "library_search"@),
    {
        self.keyword_tactic("library_search")
    }

    /// `suggest`: suggests tactics, with an optional search depth (see
    /// `suggest_result`).
    pub fn suggest_tactic(&mut self) -> (r: ParserResult<Syntax>)
        requires
            old(self).wf(),
        ensures
            final(self).wf(),
            suggest_result(*old(self), *final(self), r),
    {
        let ghost t = self.text();
        let ghost i = self.offset() as int;
        proof { reveal_strlit("suggest"); }
        let start = self.position();
        match self.keyword("suggest") {
            Ok(()) => {},
            Err(e) => {
                return Err(e);
            },
        }
        self.skip_whitespace();
        proof {
            self.lemma_wf();
            lemma_trivia_end(t, i + 7);
        }
        let mut children: Vec<Syntax> = Vec::new();
        if match self.peek() {
            Some(c) => is_digit(c),
            None => false,
        } {
            let d = match self.number() {
                Ok(d) => d,
                Err(e) => {
                    return Err(e);
                },
            };
            children.push(d);
        }
        let range = self.input().range_from(start);
        let node = self.create_node(SyntaxKind::CustomTactic, range, children);
        Ok(node)
    }

    /// `aesop`: general proof search, with an optional list of options in
    /// parentheses (see `aesop_result`).
    pub fn aesop_tactic(&mut self) -> (r: ParserResult<Syntax>)
        requires
            old(self).wf(),
        ensures
            final(self).wf(),
            aesop_result(*old(self), *final(self), r),
    {
        let ghost t = self.text();
        let ghost i = self.offset() as int;
        proof { reveal_strlit("aesop"); }
        let start = self.position();
        match self.keyword("aesop") {
            Ok(()) => {},
            Err(e) => {
                return Err(e);
            },
        }
        self.skip_whitespace();
        proof {
            self.lemma_wf();
            lemma_trivia_end(t, i + 5);
        }
        let mut options: Vec<Syntax> = Vec::new();
        if self.peek() == Some('(') {
            let ghost j = self.offset() as int;
            self.advance();
            self.skip_whitespace();
            proof {
                lemma_trivia_end(t, j + 1);
                lemma_option_list(t, trivia_end(t, j + 1));
            }
            let ghost j2 = self.offset() as int;
            let ghost mut vals: Seq<Seq<char>> = Seq::empty();
            while self.peek() != Some(')')
                invariant
                    self.wf(),
                    self.same_context(*old(self)),
                    t == self.text(),
                    t == old(self).text(),
                    i == old(self).offset(),
                    keyword_at(t, i, "aesop"@),
                    j == trivia_end(t, i + 5),
                    j < t.len() && t[j] == '(',
                    j2 == trivia_end(t, j + 1),
                    j2 <= self.offset() <= t.len(),
                    self.offset() == trivia_end(t, self.offset() as int),
                    option_list(t, j2) == prepend_items(vals, option_list(t, self.offset() as int)),
                    atom_values(options@, vals),
                decreases t.len() - self.offset(),
            {
                proof { self.lemma_wf(); }
                let ghost k = self.offset() as int;
                let ghost ov = options@;
                proof {
                    lemma_trivia_end_idem(t, k);
                    crate::parser::lemma_ident_at(t, k);
                }
                let id = match self.identifier() {
                    Ok(id) => id,
                    Err(e) => {
                        proof {
                            assert(option_list(t, k) == ListLex::Fail(k));
                            assert(option_list(t, j2) == ListLex::Fail(k));
                        }
                        return Err(e);
                    },
                };
                let ghost name = atom_text(id);
                let ghost gid = id;
                options.push(id);
                let ghost e = self.offset() as int;
                self.skip_whitespace();
                proof {
                    lemma_trivia_end(t, e);
                    lemma_trivia_end_idem(t, e);
                }
                if self.peek() == Some(',') {
                    let ghost c = self.offset() as int;
                    self.advance();
                    self.skip_whitespace();
                    proof {
                        lemma_trivia_end(t, c + 1);
                        lemma_trivia_end_idem(t, c + 1);
                    }
                }
                proof {
                    assert(ident_at(t, k) == Some((e, name)));
                    assert(option_list(t, k) == prepend_item(name, option_list(t, self.offset() as int)));
                    lemma_prepend_items_push(vals, name, option_list(t, self.offset() as int));
                    vals = vals.push(name);
                    assert(atom_values(options@, vals)) by {
                        assert(options@ == ov.push(gid));
                        assert(options@[ov.len() as int] == gid);
                    }
                }
            }
            proof {
                let k = self.offset() as int;
                assert(option_list(t, k) == ListLex::Items(Seq::empty(), k));
                assert(vals + Seq::<Seq<char>>::empty() == vals);
            }
            match self.expect_char(')') {
                Ok(()) => {},
                Err(e) => {
                    return Err(e);
                },
            }
        }
        let range = self.input().range_from(start);
        let node = self.create_node(SyntaxKind::CustomTactic, range, options);
        Ok(node)
    }

    /// An atom reading as `s`, spanning from `start` to the cursor and
    /// carrying the collected trivia.
    pub(crate) fn make_atom(&mut self, s: &str, start: SourcePos) -> (a: Syntax)
        requires
            old(self).wf(),
        ensures
            final(self).wf(),
            final(self).took_trivia(*old(self)),
            a matches Syntax::Atom(x) && x.value@ == s@ && x.range.start == start
                && x.range.end == old(self).pos() && x.leading_trivia@ == old(self).trivia(),
    {
        let range = self.input().range_from(start);
        self.create_atom(range, s.to_owned())
    }

    /// Parses an optional location `at h₁ h₂ ⊢` or `at *` (see
    /// `location_result`).
    fn parse_tactic_location(&mut self) -> (r: ParserResult<Option<Syntax>>)
        requires
            old(self).wf(),
        ensures
            final(self).wf(),
            location_result(*old(self), *final(self), r),
    {
        proof { self.lemma_wf(); }
        let ghost t = self.text();
        let ghost i = self.offset() as int;
        if !self.peek_keyword("at") {
            return Ok(None);
        }
        proof { reveal_strlit("at"); }
        let start = self.position();
        match self.keyword("at") {
            Ok(()) => {},
            Err(e) => {
                return Err(e);
            },
        }
        self.skip_whitespace();
        proof { lemma_trivia_end(t, i + 2); }
        let ghost j = self.offset() as int;
        let mut targets: Vec<Syntax> = Vec::new();
        if self.peek() == Some('*') {
            self.advance();
            let a = self.make_atom("*", start);
            let ghost ga = a;
            targets.push(a);
            proof {
                reveal_strlit("*");
                assert("*"@ =~= seq!['*']);
                assert(targets@[0] == ga);
                assert(atom_values(targets@, seq![seq!['*']]));
            }
        } else {
            let ghost mut vals: Seq<Seq<char>> = Seq::empty();
            proof { lemma_location_targets(t, j); }
            loop
                invariant_except_break
                    location_targets(t, j) == prepend_items(vals, location_targets(t, self.offset() as int)),
                invariant
                    self.wf(),
                    self.same_context(*old(self)),
                    t == self.text(),
                    t == old(self).text(),
                    i == old(self).offset(),
                    keyword_at(t, i, "at"@),
                    j == trivia_end(t, i + 2),
                    !(j < t.len() && t[j] == '*'),
                    j <= self.offset() <= t.len(),
                    self.offset() == trivia_end(t, self.offset() as int),
                    atom_values(targets@, vals),
                ensures
                    location_targets(t, j) == ListLex::Items(vals, self.offset() as int),
                decreases t.len() - self.offset(),
            {
                proof { self.lemma_wf(); }
                let ghost k = self.offset() as int;
                let ghost tv = targets@;
                if self.peek() == Some('⊢') || (self.peek() == Some('|') && self.peek_nth(1) == Some('-')) {
                    self.advance();
                    if self.peek() == Some('-') {
                        self.advance();
                    }
                    let pos = self.position();
                    let a = self.make_atom("⊢", pos);
                    let ghost ga = a;
                    targets.push(a);
                    proof {
                        reveal_strlit("⊢");
                        assert("⊢"@ =~= seq!['⊢']);
                    }
                    let ghost n = self.offset() as int;
                    self.skip_whitespace();
                    proof {
                        lemma_trivia_end(t, n);
                        lemma_trivia_end_idem(t, n);
                        assert(location_targets(t, k) == prepend_item(seq!['⊢'], location_targets(t, self.offset() as int)));
                        lemma_prepend_items_push(vals, seq!['⊢'], location_targets(t, self.offset() as int));
                        vals = vals.push(seq!['⊢']);
                        assert(atom_values(targets@, vals)) by {
                            assert(targets@ == tv.push(ga));
                            assert(targets@[tv.len() as int] == ga);
                        }
                    }
                } else if match self.peek() {
                    Some(c) => is_alphabetic(c),
                    None => false,
                } {
                    proof {
                        lemma_trivia_end_idem(t, k);
                        crate::parser::lemma_ident_at(t, k);
                    }
                    let id = match self.identifier() {
                        Ok(id) => id,
                        Err(e) => {
                            proof {
                                assert(t[k] != '«');
                                assert(location_targets(t, k) == ListLex::Fail(k));
                                assert(location_targets(t, j) == ListLex::Fail(k));
                            }
                            return Err(e);
                        },
                    };
                    let ghost name = atom_text(id);
                    targets.push(id);
                    let ghost e = self.offset() as int;
                    self.skip_whitespace();
                    proof {
                        lemma_trivia_end(t, e);
                        lemma_trivia_end_idem(t, e);
                        assert(ident_at(t, k) == Some((e, name)));
                        assert(location_targets(t, k) == prepend_item(name, location_targets(t, self.offset() as int)));
                        lemma_prepend_items_push(vals, name, location_targets(t, self.offset() as int));
                        vals = vals.push(name);
                        assert(atom_values(targets@, vals)) by {
                            assert(targets@ == tv.push(id));
                        }
                    }
                } else {
                    proof {
                        assert(location_targets(t, k) == ListLex::Items(Seq::empty(), k));
                        assert(vals + Seq::<Seq<char>>::empty() == vals);
                    }
                    break;
                }
            }
        }
        if targets.len() == 0 {
            return Err(ParseError::expected("location", self.position()));
        }
        let range = self.input().range_from(start);
        let node = self.create_node(SyntaxKind::CustomTactic, range, targets);
        Ok(Some(node))
    }
}

} // verus!
