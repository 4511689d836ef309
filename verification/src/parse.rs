use vstd::prelude::*;
use vstd::string::*;
use crate::text::{contains_seq, contains_str};

verus! {

/// A grammar-specific syntax category identifier. Equality is exact; two
/// nodes with equal kinds are structurally comparable.
#[derive(Debug, Copy, Clone, PartialEq, Eq, Structural, Hash)]
pub struct Kind(pub u16);

/// The grammars a parser can be asked for. Only some of them are linked in;
/// for the others parsing reports failure.
#[derive(Debug, Copy, Clone, PartialEq, Eq, Structural, Hash)]
pub enum Language {
    Javascript,
    Python,
    Rust,
    Bash,
    C,
    Cpp,
    Css,
    Go,
    Html,
    Ocaml,
    Php,
    Ruby,
    Typescript,
    Agda,
    CSharp,
    Haskell,
    Java,
    Julia,
    Scala,
}

/// The language a name such as "rust" denotes.
pub open spec fn spec_language_from_name(s: Seq<char>) -> Option<Language> {
    if s == "javascript"@ {
        Option::Some(Language::Javascript)
    } else if s == "python"@ {
        Option::Some(Language::Python)
    } else if s == "rust"@ {
        Option::Some(Language::Rust)
    } else if s == "bash"@ {
        Option::Some(Language::Bash)
    } else if s == "c"@ {
        Option::Some(Language::C)
    } else if s == "cpp"@ {
        Option::Some(Language::Cpp)
    } else if s == "css"@ {
        Option::Some(Language::Css)
    } else if s == "go"@ {
        Option::Some(Language::Go)
    } else if s == "html"@ {
        Option::Some(Language::Html)
    } else if s == "ocaml"@ {
        Option::Some(Language::Ocaml)
    } else if s == "php"@ {
        Option::Some(Language::Php)
    } else if s == "ruby"@ {
        Option::Some(Language::Ruby)
    } else if s == "typescript"@ {
        Option::Some(Language::Typescript)
    } else if s == "agda"@ {
        Option::Some(Language::Agda)
    } else if s == "c-sharp"@ {
        Option::Some(Language::CSharp)
    } else if s == "haskell"@ {
        Option::Some(Language::Haskell)
    } else if s == "java"@ {
        Option::Some(Language::Java)
    } else if s == "julia"@ {
        Option::Some(Language::Julia)
    } else if s == "scala"@ {
        Option::Some(Language::Scala)
    } else {
        Option::None
    }
}

/// The language a file extension such as "rs" denotes.
pub open spec fn spec_language_from_extension(s: Seq<char>) -> Option<Language> {
    if s == "js"@ {
        Option::Some(Language::Javascript)
    } else if s == "py"@ {
        Option::Some(Language::Python)
    } else if s == "rs"@ {
        Option::Some(Language::Rust)
    } else if s == "sh"@ {
        Option::Some(Language::Bash)
    } else if s == "c"@ {
        Option::Some(Language::C)
    } else if s == "cpp"@ {
        Option::Some(Language::Cpp)
    } else if s == "css"@ {
        Option::Some(Language::Css)
    } else if s == "go"@ {
        Option::Some(Language::Go)
    } else if s == "html"@ {
        Option::Some(Language::Html)
    } else if s == "ocaml"@ {
        Option::Some(Language::Ocaml)
    } else if s == "php"@ {
        Option::Some(Language::Php)
    } else if s == "rb"@ {
        Option::Some(Language::Ruby)
    } else if s == "ts"@ {
        Option::Some(Language::Typescript)
    } else if s == "agda"@ {
        Option::Some(Language::Agda)
    } else if s == "cs"@ {
        Option::Some(Language::CSharp)
    } else if s == "hs"@ {
        Option::Some(Language::Haskell)
    } else if s == "java"@ {
        Option::Some(Language::Java)
    } else if s == "jl"@ {
        Option::Some(Language::Julia)
    } else if s == "scala"@ {
        Option::Some(Language::Scala)
    } else {
        Option::None
    }
}

impl Language {
    /// The language named `text` ("rust", "javascript", ...), if any.
    pub fn from_str(text: &str) -> (r: Option<Language>)
        ensures
            r == spec_language_from_name(text@),
    {
        if crate::text::str_eq(text, "javascript") {
            Some(Language::Javascript)
        } else if crate::text::str_eq(text, "python") {
            Some(Language::Python)
        } else if crate::text::str_eq(text, "rust") {
            Some(Language::Rust)
        } else if crate::text::str_eq(text, "bash") {
            Some(Language::Bash)
        } else if crate::text::str_eq(text, "c") {
            Some(Language::C)
        } else if crate::text::str_eq(text, "cpp") {
            Some(Language::Cpp)
        } else if crate::text::str_eq(text, "css") {
            Some(Language::Css)
        } else if crate::text::str_eq(text, "go") {
            Some(Language::Go)
        } else if crate::text::str_eq(text, "html") {
            Some(Language::Html)
        } else if crate::text::str_eq(text, "ocaml") {
            Some(Language::Ocaml)
        } else if crate::text::str_eq(text, "php") {
            Some(Language::Php)
        } else if crate::text::str_eq(text, "ruby") {
            Some(Language::Ruby)
        } else if crate::text::str_eq(text, "typescript") {
            Some(Language::Typescript)
        } else if crate::text::str_eq(text, "agda") {
            Some(Language::Agda)
        } else if crate::text::str_eq(text, "c-sharp") {
            Some(Language::CSharp)
        } else if crate::text::str_eq(text, "haskell") {
            Some(Language::Haskell)
        } else if crate::text::str_eq(text, "java") {
            Some(Language::Java)
        } else if crate::text::str_eq(text, "julia") {
            Some(Language::Julia)
        } else if crate::text::str_eq(text, "scala") {
            Some(Language::Scala)
        } else {
            None
        }
    }

    /// The language a file with extension `ext` ("rs", "js", ...) is
    /// written in, if any.
    pub fn from_extension(ext: &str) -> (r: Option<Language>)
        ensures
            r == spec_language_from_extension(ext@),
    {
        if crate::text::str_eq(ext, "js") {
            Some(Language::Javascript)
        } else if crate::text::str_eq(ext, "py") {
            Some(Language::Python)
        } else if crate::text::str_eq(ext, "rs") {
            Some(Language::Rust)
        } else if crate::text::str_eq(ext, "sh") {
            Some(Language::Bash)
        } else if crate::text::str_eq(ext, "c") {
            Some(Language::C)
        } else if crate::text::str_eq(ext, "cpp") {
            Some(Language::Cpp)
        } else if crate::text::str_eq(ext, "css") {
            Some(Language::Css)
        } else if crate::text::str_eq(ext, "go") {
            Some(Language::Go)
        } else if crate::text::str_eq(ext, "html") {
            Some(Language::Html)
        } else if crate::text::str_eq(ext, "ocaml") {
            Some(Language::Ocaml)
        } else if crate::text::str_eq(ext, "php") {
            Some(Language::Php)
        } else if crate::text::str_eq(ext, "rb") {
            Some(Language::Ruby)
        } else if crate::text::str_eq(ext, "ts") {
            Some(Language::Typescript)
        } else if crate::text::str_eq(ext, "agda") {
            Some(Language::Agda)
        } else if crate::text::str_eq(ext, "cs") {
            Some(Language::CSharp)
        } else if crate::text::str_eq(ext, "hs") {
            Some(Language::Haskell)
        } else if crate::text::str_eq(ext, "java") {
            Some(Language::Java)
        } else if crate::text::str_eq(ext, "jl") {
            Some(Language::Julia)
        } else if crate::text::str_eq(ext, "scala") {
            Some(Language::Scala)
        } else {
            None
        }
    }
}

/// The language a source text declares after a "lang:" marker: whatever
/// follows the first occurrence of the marker, trimmed of whitespace, names
/// the language.
pub open spec fn spec_find_lang(s: Seq<char>) -> Option<Language> {
    if contains_seq(s, "lang:"@) {
        spec_language_from_name(
            crate::text::spec_trim(s.skip(crate::text::first_index(s, "lang:"@) + "lang:"@.len())),
        )
    } else {
        Option::None
    }
}

/// Read the language a text declares after its first "lang:" marker.
pub fn find_lang(text: &str) -> (r: Option<Language>)
    ensures
        r == spec_find_lang(text@),
{
    proof {
        reveal_strlit("lang:");
    }
    match crate::text::find_str(text, "lang:") {
        None => None,
        Some(l) => {
            proof {
                assert(exists|i: int| crate::text::is_first_at(text@, "lang:"@, i)) by {
                    assert(crate::text::is_first_at(text@, "lang:"@, l as int));
                }
                crate::text::lemma_first_at_unique(
                    text@,
                    "lang:"@,
                    l as int,
                    crate::text::first_index(text@, "lang:"@),
                );
            }
            let len = text.unicode_len();
            let tail = text.substring_char(l + 5, len);
            proof {
                assert(tail@ =~= text@.skip(l + 5));
            }
            let t = crate::text::trim_str(tail);
            Language::from_str(t)
        },
    }
}

/// One node of a concrete syntax tree, owned by the library. `children`
/// interleaves nested nodes with the literal source text lying between them,
/// so the node's own text is exactly the concatenation of its children.
pub struct SyntaxNode {
    pub kind: Kind,
    pub children: Vec<Child>,
}

/// A child of a syntax-tree node: either a nested node or a literal span of
/// source text (whitespace and punctuation not covered by a nested node).
pub enum Child {
    Node(SyntaxNode),
    Text(String),
}

/// The source text a node spans: the concatenation of its children.
pub open spec fn text_of(n: SyntaxNode) -> Seq<char>
    decreases n,
{
    texts_of(n.children@)
}

pub open spec fn texts_of(cs: Seq<Child>) -> Seq<char>
    decreases cs,
{
    if cs.len() == 0 {
        Seq::empty()
    } else {
        child_text(cs[0]) + texts_of(cs.drop_first())
    }
}

pub open spec fn child_text(c: Child) -> Seq<char>
    decreases c,
{
    match c {
        Child::Node(n) => text_of(n),
        Child::Text(s) => s@,
    }
}

/// Whether some placeholder name occurs in the node's text.
pub open spec fn spec_has_var(n: SyntaxNode, vars: Seq<Seq<char>>) -> bool {
    exists|i: int| 0 <= i < vars.len() && contains_seq(text_of(n), vars[i])
}

/// Whether some immediate structural child of the node contains a
/// placeholder name.
pub open spec fn spec_child_has_var(cs: Seq<Child>, vars: Seq<Seq<char>>) -> bool {
    exists|i: int|
        0 <= i < cs.len() && (#[trigger] cs[i]) is Node && spec_has_var(cs[i]->Node_0, vars)
}

/// Whether the node is the minimal structural unit containing a placeholder:
/// its text contains a placeholder name, but no immediate structural child's
/// text does.
pub open spec fn spec_has_single_var(n: SyntaxNode, vars: Seq<Seq<char>>) -> bool {
    spec_has_var(n, vars) && !spec_child_has_var(n.children@, vars)
}

/// The placeholder-name list as a sequence of character sequences.
pub open spec fn vars_view(vars: Seq<&str>) -> Seq<Seq<char>> {
    vars.map_values(|v: &str| v@)
}

proof fn lemma_texts_of_push(cs: Seq<Child>, c: Child)
    ensures
        texts_of(cs.push(c)) == texts_of(cs) + child_text(c),
    decreases cs,
{
    if cs.len() == 0 {
        assert(cs.push(c)[0] == c);
        assert(cs.push(c).drop_first() =~= Seq::<Child>::empty());
        assert(texts_of(Seq::<Child>::empty()) == Seq::<char>::empty());
        assert(texts_of(cs.push(c)) =~= child_text(c));
        assert(texts_of(cs) + child_text(c) =~= child_text(c));
    } else {
        lemma_texts_of_push(cs.drop_first(), c);
        assert(cs.push(c).drop_first() =~= cs.drop_first().push(c));
        assert(cs.push(c)[0] == cs[0]);
        assert(texts_of(cs.push(c)) =~= texts_of(cs) + child_text(c));
    }
}

impl SyntaxNode {
    /// The exact source slice this node spans, rebuilt from its children.
    pub fn text(&self) -> (r: String)
        ensures
            r@ == text_of(*self),
        decreases *self,
    {
        let mut r = String::new();
        let mut i: usize = 0;
        while i < self.children.len()
            invariant
                i <= self.children@.len(),
                r@ == texts_of(self.children@.subrange(0, i as int)),
            decreases self.children@.len() - i,
        {
            proof {
                assert(decreases_to!(*self => self.children));
                assert(decreases_to!(self.children => self.children@));
                assert(decreases_to!(self.children@ => self.children@[i as int]));
            }
            match &self.children[i] {
                Child::Node(n) => {
                    let t = n.text();
                    r.append(t.as_str());
                }
                Child::Text(s) => {
                    r.append(s.as_str());
                }
            }
            proof {
                lemma_texts_of_push(self.children@.subrange(0, i as int), self.children@[i as int]);
                assert(self.children@.subrange(0, i + 1) =~= self.children@.subrange(
                    0,
                    i as int,
                ).push(self.children@[i as int]));
            }
            i += 1;
        }
        proof {
            assert(self.children@.subrange(0, self.children@.len() as int) =~= self.children@);
        }
        r
    }
}

/// Whether any of `vars` occurs in the text of `node`.
pub fn has_var(node: &SyntaxNode, vars: &[&str]) -> (r: bool)
    ensures
        r == spec_has_var(*node, vars_view(vars@)),
{
    let text = node.text();
    let mut i: usize = 0;
    while i < vars.len()
        invariant
            i <= vars@.len(),
            text@ == text_of(*node),
            forall|j: int| 0 <= j < i ==> !contains_seq(text_of(*node), vars_view(vars@)[j]),
        decreases vars@.len() - i,
    {
        if contains_str(text.as_str(), vars[i]) {
            assert(contains_seq(text_of(*node), vars_view(vars@)[i as int]));
            return true;
        }
        i += 1;
    }
    false
}

/// What the parser's call chain yields before validation: for a given
/// grammar and source text, the root node of the concrete syntax tree
/// rebuilt as an owned `SyntaxNode`, or nothing where no grammar is linked
/// in or a reported byte range does not fall on character boundaries of
/// the text.
pub uninterp spec fn parse_of_raw(lang: Language, text: Seq<char>) -> Option<SyntaxNode>;

/// What parsing yields: the rebuilt root node, kept only where its
/// children concatenate back to exactly the input text.
pub open spec fn parse_of(lang: Language, text: Seq<char>) -> Option<SyntaxNode> {
    match parse_of_raw(lang, text) {
        Option::Some(n) => if text_of(n) == text {
            Option::Some(n)
        } else {
            Option::None
        },
        Option::None => Option::None,
    }
}

/// tree_sitter's node handle, declared opaquely so that the conversion
/// below can take it.
#[verifier::external_type_specification]
#[verifier::external_body]
pub struct ExTsNode<'a>(tree_sitter::Node<'a>);

/// Relies on the byte ranges tree_sitter::Node reports: every node's range
/// is partitioned, in order, by its children's ranges and the gaps between
/// them. The subtree is rebuilt as an owned `SyntaxNode`, interleaving nested
/// nodes with the literal text of those gaps; a range off the character
/// boundaries of `text` yields `None`. Trusted as a part of
/// `parse_root_raw`, which alone calls it and whose contract covers it.
#[verifier::external_body]
fn convert_node(n: tree_sitter::Node<'_>, text: &str) -> Option<SyntaxNode> {
    let mut children = Vec::new();
    let mut offset = n.start_byte();
    for i in 0..n.child_count() {
        let c = n.child(i)?;
        if c.start_byte() > offset {
            children.push(Child::Text(text.get(offset..c.start_byte())?.to_string()));
        }
        children.push(Child::Node(convert_node(c, text)?));
        offset = c.end_byte();
    }
    if offset < n.end_byte() {
        children.push(Child::Text(text.get(offset..n.end_byte())?.to_string()));
    }
    Some(SyntaxNode { kind: Kind(n.kind_id()), children })
}

/// Relies on tree_sitter::Parser::parse together with the grammars of the
/// tree-sitter-rust and tree-sitter-javascript crates: for a fixed grammar,
/// parsing is a function of the source text alone. The tree is rebuilt as
/// an owned `SyntaxNode` whose children carry the literal text between
/// them.
#[verifier::external_body]
fn parse_root_raw(lang: Language, text: &str) -> (r: Option<SyntaxNode>)
    ensures
        r == parse_of_raw(lang, text@),
{
    let language = match lang {
        Language::Rust => tree_sitter::Language::from(tree_sitter_rust::LANGUAGE),
        Language::Javascript => tree_sitter::Language::from(tree_sitter_javascript::LANGUAGE),
        _ => return None,
    };
    let mut parser = tree_sitter::Parser::new();
    parser.set_language(&language).ok()?;
    let tree = parser.parse(text, None)?;
    convert_node(tree.root_node(), text)
}

/// Parse `text` under the grammar for `lang` and rebuild the root as an
/// owned node, validating that the rebuilt children concatenate back to
/// exactly the input text; a tree that does not is discarded.
pub fn parse_root(lang: Language, text: &str) -> (r: Option<SyntaxNode>)
    ensures
        r == parse_of(lang, text@),
        r matches Some(n) ==> text_of(n) == text@,
{
    match parse_root_raw(lang, text) {
        None => None,
        Some(node) => {
            let rebuilt = node.text();
            if crate::text::str_eq(rebuilt.as_str(), text) {
                Some(node)
            } else {
                None
            }
        },
    }
}

/// What the grammar linked in for `lang` reports as its number of node
/// kinds, or nothing where no grammar is linked in.
pub uninterp spec fn kind_count_of(lang: Language) -> Option<usize>;

/// What the grammar linked in for `lang` names its kind `id`.
pub uninterp spec fn kind_name_of(lang: Language, id: u16) -> Option<Seq<char>>;

/// Whether the grammar linked in for `lang` treats kind `id` as a named
/// kind (as opposed to an anonymous token).
pub uninterp spec fn kind_named_of(lang: Language, id: u16) -> Option<bool>;

/// Relies on tree_sitter::Language::node_kind_count: a fixed property of
/// the grammar linked in for `lang`.
#[verifier::external_body]
fn ts_kind_count(lang: Language) -> (r: Option<usize>)
    ensures
        r == kind_count_of(lang),
{
    match lang {
        Language::Rust => Some(
            tree_sitter::Language::from(tree_sitter_rust::LANGUAGE).node_kind_count(),
        ),
        Language::Javascript => Some(
            tree_sitter::Language::from(tree_sitter_javascript::LANGUAGE).node_kind_count(),
        ),
        _ => None,
    }
}

/// Relies on tree_sitter::Language::node_kind_for_id: a fixed property of
/// the grammar linked in for `lang`, and the grammar names every kind
/// identifier below its kind count (the name table has one entry per
/// kind).
#[verifier::external_body]
fn ts_kind_name(lang: Language, id: u16) -> (r: Option<String>)
    ensures
        r matches Some(s) ==> kind_name_of(lang, id) == Option::Some(s@),
        r is None ==> kind_name_of(lang, id) is None,
        kind_count_of(lang) matches Some(c) ==> ((id as int) < c as int ==> r is Some),
{
    let language = match lang {
        Language::Rust => tree_sitter::Language::from(tree_sitter_rust::LANGUAGE),
        Language::Javascript => tree_sitter::Language::from(tree_sitter_javascript::LANGUAGE),
        _ => return None,
    };
    language.node_kind_for_id(id).map(|s| s.to_string())
}

/// Relies on tree_sitter::Language::node_kind_is_named: a fixed property
/// of the grammar linked in for `lang`, answered for every identifier
/// where a grammar is linked in at all.
#[verifier::external_body]
fn ts_kind_named(lang: Language, id: u16) -> (r: Option<bool>)
    ensures
        r == kind_named_of(lang, id),
        kind_count_of(lang) is Some ==> r is Some,
{
    match lang {
        Language::Rust => Some(
            tree_sitter::Language::from(tree_sitter_rust::LANGUAGE).node_kind_is_named(id),
        ),
        Language::Javascript => Some(
            tree_sitter::Language::from(tree_sitter_javascript::LANGUAGE).node_kind_is_named(id),
        ),
        _ => None,
    }
}

/// The kind table of one grammar: for each kind identifier, its name and
/// whether the grammar treats it as a named kind.
pub struct LanguageInfo {
    pub lang: Language,
    pub names: Vec<String>,
    pub named: Vec<bool>,
}

/// The table's rows are exactly what the grammar reports, row by row.
pub open spec fn info_wf(info: LanguageInfo) -> bool {
    &&& info.names@.len() == info.named@.len()
    &&& info.names@.len() <= 65536
    &&& forall|j: int|
        0 <= j < info.names@.len() ==> kind_name_of(info.lang, j as u16) == Option::Some(
            #[trigger] info.names@[j]@,
        ) && kind_named_of(info.lang, j as u16) == Option::Some(info.named@[j])
}

/// The highest-numbered named kind carrying the name `s`, searching the
/// first `n` rows (later rows shadow earlier ones, as grammars do hold
/// duplicate names).
pub open spec fn spec_kind_from_name(
    names: Seq<String>,
    named: Seq<bool>,
    s: Seq<char>,
    n: int,
) -> Option<u16>
    decreases n,
{
    if n <= 0 {
        Option::None
    } else if named[n - 1] && names[n - 1]@ == s {
        Option::Some((n - 1) as u16)
    } else {
        spec_kind_from_name(names, named, s, n - 1)
    }
}

impl LanguageInfo {
    /// Read the kind table of the grammar linked in for `lang`: one row per
    /// kind identifier. There is a table exactly where a grammar is linked
    /// in (and, a machine limit, its kind count fits the identifier range).
    pub fn new(lang: Language) -> (r: Option<LanguageInfo>)
        ensures
            r is Some <==> (kind_count_of(lang) matches Some(c) && c <= 65536),
            r matches Some(info) ==> info.lang == lang && info_wf(info) && info.names@.len()
                == kind_count_of(lang)->0,
    {
        let count = match ts_kind_count(lang) {
            Some(c) => c,
            None => {
                return None;
            },
        };
        if count > 65536 {
            return None;
        }
        let mut names: Vec<String> = Vec::new();
        let mut named: Vec<bool> = Vec::new();
        let mut i: usize = 0;
        while i < count
            invariant
                i <= count <= 65536,
                kind_count_of(lang) == Option::Some(count),
                names@.len() == i,
                named@.len() == i,
                forall|j: int|
                    0 <= j < i ==> kind_name_of(lang, j as u16) == Option::Some(
                        #[trigger] names@[j]@,
                    ) && kind_named_of(lang, j as u16) == Option::Some(named@[j]),
            decreases count - i,
        {
            let name = match ts_kind_name(lang, i as u16) {
                Some(s) => s,
                None => {
                    return None;
                },
            };
            let is_named = match ts_kind_named(lang, i as u16) {
                Some(b) => b,
                None => {
                    return None;
                },
            };
            let ghost names0 = names@;
            let ghost named0 = named@;
            names.push(name);
            named.push(is_named);
            proof {
                assert forall|j: int| 0 <= j < i + 1 implies kind_name_of(lang, j as u16)
                    == Option::Some(#[trigger] names@[j]@) && kind_named_of(lang, j as u16)
                    == Option::Some(named@[j]) by {
                    if j == i {
                        assert(names@[j] == name);
                        assert(named@[j] == is_named);
                    } else {
                        assert(names@[j] == names0[j]);
                        assert(named@[j] == named0[j]);
                        assert(kind_name_of(lang, j as u16) == Option::Some(names0[j]@));
                    }
                }
            }
            i += 1;
        }
        Some(LanguageInfo { lang, names, named })
    }

    /// The kind a name denotes for this grammar, if any row carries it as a
    /// named kind; among duplicates the highest-numbered row wins.
    pub fn kind_from_name(&self, name: &str) -> (r: Option<Kind>)
        requires
            self.names@.len() == self.named@.len(),
            self.names@.len() <= 65536,
        ensures
            r matches Some(k) ==> spec_kind_from_name(
                self.names@,
                self.named@,
                name@,
                self.names@.len() as int,
            ) == Option::Some(k.0),
            r is None ==> spec_kind_from_name(
                self.names@,
                self.named@,
                name@,
                self.names@.len() as int,
            ) is None,
    {
        let mut i: usize = self.names.len();
        while i > 0
            invariant
                i <= self.names@.len() == self.named@.len() <= 65536,
                spec_kind_from_name(
                    self.names@,
                    self.named@,
                    name@,
                    self.names@.len() as int,
                ) == spec_kind_from_name(self.names@, self.named@, name@, i as int),
            decreases i,
        {
            if self.named[i - 1] && crate::text::str_eq(self.names[i - 1].as_str(), name) {
                return Some(Kind((i - 1) as u16));
            }
            i -= 1;
        }
        None
    }

    /// The name of every kind, by kind identifier.
    pub fn kind_names(&self) -> (r: &Vec<String>)
        ensures
            r@ == self.names@,
    {
        &self.names
    }
}

/// Whether `node` contains a placeholder that no immediate structural child
/// contains.
pub fn has_single_var(node: &SyntaxNode, vars: &[&str]) -> (r: bool)
    ensures
        r == spec_has_single_var(*node, vars_view(vars@)),
{
    if !has_var(node, vars) {
        return false;
    }
    let mut i: usize = 0;
    while i < node.children.len()
        invariant
            i <= node.children@.len(),
            forall|j: int|
                0 <= j < i ==> !((#[trigger] node.children@[j]) is Node && spec_has_var(
                    node.children@[j]->Node_0,
                    vars_view(vars@),
                )),
        decreases node.children@.len() - i,
    {
        match &node.children[i] {
            Child::Node(n) => {
                if has_var(n, vars) {
                    return false;
                }
            }
            Child::Text(_) => {}
        }
        i += 1;
    }
    true
}

} // verus!
