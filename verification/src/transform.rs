use vstd::prelude::*;
use vstd::string::*;
use crate::parse::{
    spec_has_single_var, text_of, vars_view, Child, Kind, Language, SyntaxNode,
};
use crate::parse::{has_single_var, parse_of, parse_root};
use crate::text::str_eq;

verus! {

/// How often a sub-pattern may repeat. Only `Single` is ever produced or
/// consumed; the other tags are reserved for a variadic-matching extension,
/// and matching or rendering a pattern carrying one fails fast.
#[derive(Debug, Eq, PartialEq, Copy, Clone, Structural)]
pub enum Repeat {
    Single,
    Optional,
    AtLeastOne,
    Many,
}

/// A sub-pattern together with its multiplicity tag.
pub struct Variadic {
    pub pattern: Pattern,
    pub repeat: Repeat,
}

/// A compiled structural template: a node shape to match exactly, a literal
/// text span, or a placeholder (in a text gap, or for a whole node).
pub enum Pattern {
    Node { kind: Kind, children: Vec<Variadic> },
    TextLiteral(String),
    TextVar,
    NodeVar,
}

/// Why a rule application is aborted rather than reported as a non-match.
#[derive(Debug, Eq, PartialEq, Copy, Clone, Structural)]
pub enum RuleError {
    /// A fragment did not parse under its declared grammar (or the grammar
    /// is not linked in).
    Parse,
    /// More than one placeholder position tried to bind during one match.
    SecondBinding,
    /// The output pattern uses a placeholder the input pattern never bound.
    UnboundPlaceholder,
    /// A placeholder standing in a literal text gap is declared but not
    /// supported by the matcher or renderer.
    UnsupportedTextVar,
    /// A multiplicity tag other than `Single` is declared but not supported.
    UnsupportedRepeat,
}

/// The mathematical shape of a `Pattern`: children as a sequence, text as a
/// character sequence.
pub enum PatternV {
    Node { kind: Kind, children: Seq<VariadicV> },
    TextLiteral(Seq<char>),
    TextVar,
    NodeVar,
}

/// The mathematical shape of a `Variadic`.
pub struct VariadicV {
    pub pattern: PatternV,
    pub repeat: Repeat,
}

pub open spec fn pattern_view(p: Pattern) -> PatternV
    decreases p,
{
    match p {
        Pattern::Node { kind, children } => PatternV::Node {
            kind,
            children: variadics_view(children@),
        },
        Pattern::TextLiteral(s) => PatternV::TextLiteral(s@),
        Pattern::TextVar => PatternV::TextVar,
        Pattern::NodeVar => PatternV::NodeVar,
    }
}

pub open spec fn variadics_view(vs: Seq<Variadic>) -> Seq<VariadicV>
    decreases vs,
{
    if vs.len() == 0 {
        Seq::empty()
    } else {
        seq![variadic_view(vs[0])] + variadics_view(vs.drop_first())
    }
}

pub open spec fn variadic_view(v: Variadic) -> VariadicV
    decreases v,
{
    VariadicV { pattern: pattern_view(v.pattern), repeat: v.repeat }
}

proof fn lemma_variadics_view(vs: Seq<Variadic>)
    ensures
        variadics_view(vs).len() == vs.len(),
        forall|i: int| 0 <= i < vs.len() ==> variadics_view(vs)[i] == variadic_view(vs[i]),
    decreases vs,
{
    if vs.len() > 0 {
        lemma_variadics_view(vs.drop_first());
        assert forall|i: int| 0 <= i < vs.len() implies variadics_view(vs)[i] == variadic_view(
            vs[i],
        ) by {
            if i > 0 {
                assert(variadics_view(vs)[i] == variadics_view(vs.drop_first())[i - 1]);
                assert(vs.drop_first()[i - 1] == vs[i]);
            }
        }
    }
}

/// Whether a text gap is exactly one of the placeholder names.
pub open spec fn is_var_text(s: Seq<char>, vars: Seq<Seq<char>>) -> bool {
    exists|i: int| 0 <= i < vars.len() && vars[i] == s
}

/// The pattern the compiler derives from one example node: a placeholder
/// where the node is the minimal structural unit containing a placeholder
/// name, otherwise a structural node compiled child by child.
pub open spec fn spec_compile(n: SyntaxNode, vars: Seq<Seq<char>>) -> PatternV
    decreases n, 1int,
{
    if spec_has_single_var(n, vars) {
        PatternV::NodeVar
    } else {
        PatternV::Node { kind: n.kind, children: spec_compile_children(n.children@, vars) }
    }
}

pub open spec fn spec_compile_children(cs: Seq<Child>, vars: Seq<Seq<char>>) -> Seq<VariadicV>
    decreases cs, 0int,
{
    if cs.len() == 0 {
        Seq::empty()
    } else {
        seq![spec_compile_child(cs[0], vars)] + spec_compile_children(cs.drop_first(), vars)
    }
}

pub open spec fn spec_compile_child(c: Child, vars: Seq<Seq<char>>) -> VariadicV
    decreases c, 2int,
{
    match c {
        Child::Node(n) => VariadicV { pattern: spec_compile(n, vars), repeat: Repeat::Single },
        Child::Text(s) => VariadicV {
            pattern: if is_var_text(s@, vars) {
                PatternV::TextVar
            } else {
                PatternV::TextLiteral(s@)
            },
            repeat: Repeat::Single,
        },
    }
}

pub proof fn lemma_spec_compile_children(cs: Seq<Child>, vars: Seq<Seq<char>>)
    ensures
        spec_compile_children(cs, vars).len() == cs.len(),
        forall|i: int|
            0 <= i < cs.len() ==> spec_compile_children(cs, vars)[i] == spec_compile_child(
                cs[i],
                vars,
            ),
    decreases cs,
{
    if cs.len() > 0 {
        lemma_spec_compile_children(cs.drop_first(), vars);
        assert forall|i: int| 0 <= i < cs.len() implies spec_compile_children(cs, vars)[i]
            == spec_compile_child(cs[i], vars) by {
            if i > 0 {
                assert(spec_compile_children(cs, vars)[i] == spec_compile_children(
                    cs.drop_first(),
                    vars,
                )[i - 1]);
                assert(cs.drop_first()[i - 1] == cs[i]);
            }
        }
    }
}

fn is_var_exec(s: &String, vars: &[&str]) -> (r: bool)
    ensures
        r == is_var_text(s@, vars_view(vars@)),
{
    let mut i: usize = 0;
    while i < vars.len()
        invariant
            i <= vars@.len(),
            forall|j: int| 0 <= j < i ==> vars_view(vars@)[j] != s@,
        decreases vars@.len() - i,
    {
        if str_eq(vars[i], s.as_str()) {
            assert(vars_view(vars@)[i as int] == s@);
            return true;
        }
        i += 1;
    }
    false
}

impl Variadic {
    /// Compile each child of `node`, in order: a text gap equal to a
    /// placeholder name becomes a text placeholder, any other text gap a
    /// literal, and a nested node is compiled recursively.
    pub fn parse_children(node: &SyntaxNode, vars: &[&str]) -> (r: Vec<Variadic>)
        ensures
            variadics_view(r@) == spec_compile_children(node.children@, vars_view(vars@)),
        decreases *node, 0int,
    {
        let mut r: Vec<Variadic> = Vec::new();
        let mut i: usize = 0;
        while i < node.children.len()
            invariant
                i <= node.children@.len(),
                variadics_view(r@) == spec_compile_children(
                    node.children@.subrange(0, i as int),
                    vars_view(vars@),
                ),
            decreases node.children@.len() - i,
        {
            proof {
                assert(decreases_to!(*node => node.children));
                assert(decreases_to!(node.children => node.children@));
                assert(decreases_to!(node.children@ => node.children@[i as int]));
            }
            let pattern = match &node.children[i] {
                Child::Node(n) => Pattern::parse(n, vars),
                Child::Text(text) => {
                    if is_var_exec(text, vars) {
                        Pattern::TextVar
                    } else {
                        Pattern::TextLiteral(text.clone())
                    }
                },
            };
            let ghost old_r = r@;
            r.push(Variadic { repeat: Repeat::Single, pattern });
            proof {
                lemma_variadics_view_push(old_r, r@[r@.len() - 1]);
                lemma_spec_compile_children_push(
                    node.children@.subrange(0, i as int),
                    node.children@[i as int],
                    vars_view(vars@),
                );
                assert(node.children@.subrange(0, i + 1) =~= node.children@.subrange(
                    0,
                    i as int,
                ).push(node.children@[i as int]));
                assert(variadics_view(r@) =~= spec_compile_children(
                    node.children@.subrange(0, i + 1),
                    vars_view(vars@),
                ));
            }
            i += 1;
        }
        proof {
            assert(node.children@.subrange(0, node.children@.len() as int) =~= node.children@);
        }
        r
    }
}

proof fn lemma_variadics_view_push(vs: Seq<Variadic>, v: Variadic)
    ensures
        variadics_view(vs.push(v)) == variadics_view(vs).push(variadic_view(v)),
    decreases vs,
{
    if vs.len() == 0 {
        assert(vs.push(v)[0] == v);
        assert(vs.push(v).drop_first() =~= Seq::<Variadic>::empty());
        assert(variadics_view(Seq::<Variadic>::empty()) == Seq::<VariadicV>::empty());
        assert(variadics_view(vs.push(v)) =~= variadics_view(vs).push(variadic_view(v)));
    } else {
        lemma_variadics_view_push(vs.drop_first(), v);
        assert(vs.push(v).drop_first() =~= vs.drop_first().push(v));
        assert(vs.push(v)[0] == vs[0]);
        assert(variadics_view(vs.push(v)) =~= variadics_view(vs).push(variadic_view(v)));
    }
}

proof fn lemma_spec_compile_children_push(cs: Seq<Child>, c: Child, vars: Seq<Seq<char>>)
    ensures
        spec_compile_children(cs.push(c), vars) == spec_compile_children(cs, vars).push(
            spec_compile_child(c, vars),
        ),
    decreases cs,
{
    if cs.len() == 0 {
        assert(cs.push(c)[0] == c);
        assert(cs.push(c).drop_first() =~= Seq::<Child>::empty());
        assert(spec_compile_children(Seq::<Child>::empty(), vars) == Seq::<VariadicV>::empty());
        assert(spec_compile_children(cs.push(c), vars) =~= spec_compile_children(cs, vars).push(
            spec_compile_child(c, vars),
        ));
    } else {
        lemma_spec_compile_children_push(cs.drop_first(), c, vars);
        assert(cs.push(c).drop_first() =~= cs.drop_first().push(c));
        assert(cs.push(c)[0] == cs[0]);
        assert(spec_compile_children(cs.push(c), vars) =~= spec_compile_children(cs, vars).push(
            spec_compile_child(c, vars),
        ));
    }
}

impl Pattern {
    /// Compile one example node (with the caller's placeholder names) into a
    /// pattern.
    pub fn parse(node: &SyntaxNode, vars: &[&str]) -> (r: Pattern)
        ensures
            pattern_view(r) == spec_compile(*node, vars_view(vars@)),
        decreases *node, 1int,
    {
        if has_single_var(node, vars) {
            Pattern::NodeVar
        } else {
            Pattern::Node { kind: node.kind, children: Variadic::parse_children(node, vars) }
        }
    }
}

/// The captured placeholder text as a character sequence.
pub open spec fn opt_view(b: Option<String>) -> Option<Seq<char>> {
    match b {
        Option::None => Option::None,
        Option::Some(s) => Option::Some(s@),
    }
}

/// The outcome of matching a pattern against a node: an ordinary non-match,
/// a fatal contract violation, or a match carrying the binding so far.
pub enum CheckRes {
    NoMatch,
    Fault(RuleError),
    Bound(Option<Seq<char>>),
}

/// What matching a pattern against a node yields, threading the binding.
pub open spec fn spec_check(p: PatternV, n: SyntaxNode, b: Option<Seq<char>>) -> CheckRes
    decreases p, 0int,
{
    match p {
        PatternV::Node { kind, children } => {
            if n.kind != kind {
                CheckRes::NoMatch
            } else {
                spec_check_children(children, n.children@, b)
            }
        },
        PatternV::TextLiteral(s) => {
            if text_of(n) == s {
                CheckRes::Bound(b)
            } else {
                CheckRes::NoMatch
            }
        },
        PatternV::TextVar => CheckRes::Fault(RuleError::UnsupportedTextVar),
        PatternV::NodeVar => {
            if b is Some {
                CheckRes::Fault(RuleError::SecondBinding)
            } else {
                CheckRes::Bound(Option::Some(text_of(n)))
            }
        },
    }
}

/// Pairwise matching of pattern children against node children; both
/// sequences must be exhausted together.
pub open spec fn spec_check_children(
    ps: Seq<VariadicV>,
    cs: Seq<Child>,
    b: Option<Seq<char>>,
) -> CheckRes
    decreases ps, 0int,
{
    if ps.len() == 0 {
        if cs.len() == 0 {
            CheckRes::Bound(b)
        } else {
            CheckRes::NoMatch
        }
    } else if ps[0].repeat != Repeat::Single {
        CheckRes::Fault(RuleError::UnsupportedRepeat)
    } else if cs.len() == 0 {
        CheckRes::NoMatch
    } else {
        match spec_check_pair(ps[0].pattern, cs[0], b) {
            CheckRes::Bound(b2) => spec_check_children(ps.drop_first(), cs.drop_first(), b2),
            r => r,
        }
    }
}

/// One pattern child against one node child. Against a text gap only a
/// literal is enforced; a structural pattern is a shape mismatch; the
/// placeholder forms are not enforced there.
pub open spec fn spec_check_pair(p: PatternV, c: Child, b: Option<Seq<char>>) -> CheckRes
    decreases p, 1int,
{
    match c {
        Child::Node(m) => spec_check(p, m, b),
        Child::Text(s) => match p {
            PatternV::TextLiteral(lit) => {
                if s@ == lit {
                    CheckRes::Bound(b)
                } else {
                    CheckRes::NoMatch
                }
            },
            PatternV::Node { .. } => CheckRes::NoMatch,
            PatternV::TextVar => CheckRes::Bound(b),
            PatternV::NodeVar => CheckRes::Bound(b),
        },
    }
}

impl Pattern {
    /// Match this pattern against `node`, threading the binding by value.
    fn check_go(&self, node: &SyntaxNode, binding: Option<String>) -> (r: CheckExec)
        ensures
            check_exec_view(r) == spec_check(pattern_view(*self), *node, opt_view(binding)),
        decreases *self, 1int,
    {
        match self {
            Pattern::Node { kind, children } => {
                if node.kind != *kind {
                    return CheckExec::NoMatch;
                }
                Self::check_children_go(children, node, binding)
            },
            Pattern::TextLiteral(text) => {
                let t = node.text();
                if str_eq(t.as_str(), text.as_str()) {
                    CheckExec::Bound(binding)
                } else {
                    CheckExec::NoMatch
                }
            },
            Pattern::TextVar => CheckExec::Fault(RuleError::UnsupportedTextVar),
            Pattern::NodeVar => {
                if binding.is_some() {
                    CheckExec::Fault(RuleError::SecondBinding)
                } else {
                    CheckExec::Bound(Some(node.text()))
                }
            },
        }
    }

    /// Match each pattern child against the node's children pairwise.
    fn check_children_go(children: &Vec<Variadic>, node: &SyntaxNode, binding: Option<String>) -> (r:
        CheckExec)
        ensures
            check_exec_view(r) == spec_check_children(
                variadics_view(children@),
                node.children@,
                opt_view(binding),
            ),
        decreases children@, 0int,
    {
        let ghost ps = variadics_view(children@);
        let ghost cs = node.children@;
        let ghost b0 = opt_view(binding);
        proof {
            lemma_variadics_view(children@);
            assert(ps.skip(0) =~= ps);
            assert(cs.skip(0) =~= cs);
        }
        let mut b = binding;
        let mut i: usize = 0;
        while i < children.len()
            invariant
                i <= children@.len(),
                i <= cs.len(),
                ps == variadics_view(children@),
                cs == node.children@,
                b0 == opt_view(binding),
                ps.len() == children@.len(),
                forall|j: int| 0 <= j < children@.len() ==> ps[j] == variadic_view(children@[j]),
                spec_check_children(ps, cs, b0) == spec_check_children(
                    ps.skip(i as int),
                    cs.skip(i as int),
                    opt_view(b),
                ),
            decreases children@.len() - i,
        {
            proof {
                assert(ps.skip(i as int)[0] == ps[i as int]);
                assert(ps.skip(i as int).len() != 0);
            }
            if !matches!(children[i].repeat, Repeat::Single) {
                proof {
                    assert(ps.skip(i as int)[0].repeat == children@[i as int].repeat);
                    assert(spec_check_children(ps.skip(i as int), cs.skip(i as int), opt_view(b))
                        == CheckRes::Fault(RuleError::UnsupportedRepeat));
                }
                return CheckExec::Fault(RuleError::UnsupportedRepeat);
            }
            if i >= node.children.len() {
                proof {
                    assert(ps.skip(i as int)[0].repeat == children@[i as int].repeat);
                    assert(cs.skip(i as int).len() == 0);
                    assert(spec_check_children(ps.skip(i as int), cs.skip(i as int), opt_view(b))
                        == CheckRes::NoMatch);
                }
                return CheckExec::NoMatch;
            }
            proof {
                assert(cs.skip(i as int)[0] == cs[i as int]);
            }
            let ghost b_prev = opt_view(b);
            let step = match &node.children[i] {
                Child::Node(m) => {
                    proof {
                        assert(decreases_to!(children@ => children@[i as int]));
                        assert(decreases_to!(children@[i as int] => children@[i as int].pattern));
                    }
                    children[i].pattern.check_go(m, b)
                },
                Child::Text(s) => {
                    match &children[i].pattern {
                        Pattern::TextLiteral(lit) => {
                            if str_eq(s.as_str(), lit.as_str()) {
                                CheckExec::Bound(b)
                            } else {
                                CheckExec::NoMatch
                            }
                        },
                        Pattern::Node { .. } => CheckExec::NoMatch,
                        Pattern::TextVar => CheckExec::Bound(b),
                        Pattern::NodeVar => CheckExec::Bound(b),
                    }
                },
            };
            proof {
                assert(check_exec_view(step) == spec_check_pair(
                    ps.skip(i as int)[0].pattern,
                    cs.skip(i as int)[0],
                    b_prev,
                ));
            }
            proof {
                assert(ps.skip(i as int)[0].repeat == children@[i as int].repeat);
                assert(spec_check_children(ps.skip(i as int), cs.skip(i as int), b_prev) == (
                match spec_check_pair(ps.skip(i as int)[0].pattern, cs.skip(i as int)[0], b_prev) {
                    CheckRes::Bound(b2) => spec_check_children(
                        ps.skip(i as int).drop_first(),
                        cs.skip(i as int).drop_first(),
                        b2,
                    ),
                    r => r,
                }));
            }
            match step {
                CheckExec::Bound(b2) => {
                    proof {
                        assert(ps.skip(i as int).drop_first() =~= ps.skip(i + 1));
                        assert(cs.skip(i as int).drop_first() =~= cs.skip(i + 1));
                    }
                    b = b2;
                },
                other => {
                    return other;
                },
            }
            i += 1;
        }
        proof {
            assert(ps.skip(i as int).len() == 0);
        }
        if node.children.len() > i {
            proof {
                assert(cs.skip(i as int).len() != 0);
            }
            return CheckExec::NoMatch;
        }
        proof {
            assert(cs.skip(i as int).len() == 0);
        }
        CheckExec::Bound(b)
    }

    /// Match this pattern against `node`. On a match the captured
    /// placeholder text is stored in `binding` and `Ok(true)` is returned;
    /// on an ordinary non-match `binding` is left as it was and `Ok(false)`
    /// is returned; a contract violation is reported as an error.
    pub fn check(&self, node: &SyntaxNode, binding: &mut Option<String>) -> (r: Result<bool, RuleError>)
        ensures
            match spec_check(pattern_view(*self), *node, opt_view(*old(binding))) {
                CheckRes::Bound(b2) => r == Ok::<bool, RuleError>(true) && opt_view(
                    *final(binding),
                ) == b2,
                CheckRes::NoMatch => r == Ok::<bool, RuleError>(false) && *final(binding)
                    == *old(binding),
                CheckRes::Fault(e) => r == Err::<bool, RuleError>(e) && *final(binding)
                    == *old(binding),
            },
    {
        let b0 = match &*binding {
            None => None,
            Some(s) => Some(s.clone()),
        };
        match self.check_go(node, b0) {
            CheckExec::Bound(b2) => {
                *binding = b2;
                Ok(true)
            },
            CheckExec::NoMatch => Ok(false),
            CheckExec::Fault(e) => Err(e),
        }
    }
}

/// The executable counterpart of `CheckRes`, carrying an owned binding.
enum CheckExec {
    NoMatch,
    Fault(RuleError),
    Bound(Option<String>),
}

spec fn check_exec_view(r: CheckExec) -> CheckRes {
    match r {
        CheckExec::NoMatch => CheckRes::NoMatch,
        CheckExec::Fault(e) => CheckRes::Fault(e),
        CheckExec::Bound(b) => CheckRes::Bound(opt_view(b)),
    }
}

/// The text rendering a pattern with a captured binding: literal gaps are
/// reproduced verbatim, a node concatenates its children, and a placeholder
/// emits the binding; rendering an unbound placeholder, a text-gap
/// placeholder, or a multiplicity other than `Single` fails fast.
pub open spec fn spec_replace(p: PatternV, b: Option<Seq<char>>) -> Result<Seq<char>, RuleError>
    decreases p, 0int,
{
    match p {
        PatternV::Node { children, .. } => spec_replace_children(children, b),
        PatternV::TextLiteral(s) => Ok(s),
        PatternV::TextVar => Err(RuleError::UnsupportedTextVar),
        PatternV::NodeVar => match b {
            Option::Some(t) => Ok(t),
            Option::None => Err(RuleError::UnboundPlaceholder),
        },
    }
}

pub open spec fn spec_replace_variadic(v: VariadicV, b: Option<Seq<char>>) -> Result<
    Seq<char>,
    RuleError,
>
    decreases v, 1int,
{
    if v.repeat != Repeat::Single {
        Err(RuleError::UnsupportedRepeat)
    } else {
        spec_replace(v.pattern, b)
    }
}

pub open spec fn spec_replace_children(ps: Seq<VariadicV>, b: Option<Seq<char>>) -> Result<
    Seq<char>,
    RuleError,
>
    decreases ps, 0int,
{
    if ps.len() == 0 {
        Ok(Seq::empty())
    } else {
        match spec_replace_variadic(ps[0], b) {
            Ok(t) => match spec_replace_children(ps.drop_first(), b) {
                Ok(rest) => Ok(t + rest),
                Err(e) => Err(e),
            },
            Err(e) => Err(e),
        }
    }
}

impl Variadic {
    /// Render this sub-pattern with the captured binding; a multiplicity
    /// other than `Single` fails fast.
    pub fn replace(&self, vars: &Option<String>) -> (r: Result<String, RuleError>)
        ensures
            spec_replace_variadic(variadic_view(*self), opt_view(*vars)) is Ok <==> r is Ok,
            r is Ok ==> r->Ok_0@ == spec_replace_variadic(variadic_view(*self), opt_view(*vars))->Ok_0,
            r is Err ==> r->Err_0 == spec_replace_variadic(variadic_view(*self), opt_view(*vars))->Err_0,
        decreases *self, 1int,
    {
        if !matches!(self.repeat, Repeat::Single) {
            Err(RuleError::UnsupportedRepeat)
        } else {
            proof {
                assert(decreases_to!(*self => self.pattern));
            }
            self.pattern.replace(vars)
        }
    }
}

impl Pattern {
    /// Render this pattern with the captured binding.
    pub fn replace(&self, vars: &Option<String>) -> (r: Result<String, RuleError>)
        ensures
            spec_replace(pattern_view(*self), opt_view(*vars)) is Ok <==> r is Ok,
            r is Ok ==> r->Ok_0@ == spec_replace(pattern_view(*self), opt_view(*vars))->Ok_0,
            r is Err ==> r->Err_0 == spec_replace(pattern_view(*self), opt_view(*vars))->Err_0,
        decreases *self, 0int,
    {
        match self {
            Pattern::Node { kind: _, children } => Self::replace_children_go(children, vars),
            Pattern::TextLiteral(text) => Ok(text.clone()),
            Pattern::TextVar => Err(RuleError::UnsupportedTextVar),
            Pattern::NodeVar => match vars {
                Some(t) => Ok(t.clone()),
                None => Err(RuleError::UnboundPlaceholder),
            },
        }
    }

    /// Render each sub-pattern in order and concatenate the pieces.
    fn replace_children_go(children: &Vec<Variadic>, vars: &Option<String>) -> (r: Result<
        String,
        RuleError,
    >)
        ensures
            spec_replace_children(variadics_view(children@), opt_view(*vars)) is Ok <==> r is Ok,
            r is Ok ==> r->Ok_0@ == spec_replace_children(
                variadics_view(children@),
                opt_view(*vars),
            )->Ok_0,
            r is Err ==> r->Err_0 == spec_replace_children(
                variadics_view(children@),
                opt_view(*vars),
            )->Err_0,
        decreases children@, 1int,
    {
        let ghost ps = variadics_view(children@);
        proof {
            lemma_variadics_view(children@);
            assert(ps.skip(0) =~= ps);
        }
        let mut text = String::new();
        let mut i: usize = 0;
        while i < children.len()
            invariant
                i <= children@.len(),
                ps == variadics_view(children@),
                ps.len() == children@.len(),
                forall|j: int| 0 <= j < children@.len() ==> ps[j] == variadic_view(children@[j]),
                spec_replace_children(ps, opt_view(*vars)) == (match spec_replace_children(
                    ps.skip(i as int),
                    opt_view(*vars),
                ) {
                    Ok(rest) => Ok::<Seq<char>, RuleError>(text@ + rest),
                    Err(e) => Err::<Seq<char>, RuleError>(e),
                }),
            decreases children@.len() - i,
        {
            proof {
                assert(ps.skip(i as int)[0] == ps[i as int]);
                assert(decreases_to!(children@ => children@[i as int]));
                assert(spec_replace_children(ps.skip(i as int), opt_view(*vars)) == (
                match spec_replace_variadic(ps.skip(i as int)[0], opt_view(*vars)) {
                    Ok(t) => match spec_replace_children(
                        ps.skip(i as int).drop_first(),
                        opt_view(*vars),
                    ) {
                        Ok(rest) => Ok::<Seq<char>, RuleError>(t + rest),
                        Err(e) => Err::<Seq<char>, RuleError>(e),
                    },
                    Err(e) => Err::<Seq<char>, RuleError>(e),
                }));
            }
            let step = children[i].replace(vars);
            match step {
                Ok(t) => {
                    proof {
                        assert(ps.skip(i as int).drop_first() =~= ps.skip(i + 1));
                    }
                    let ghost prefix = text@;
                    text.append(t.as_str());
                    proof {
                        assert forall|rest: Seq<char>| (prefix + t@) + rest =~= prefix + (t@
                            + rest) by {}
                    }
                },
                Err(e) => {
                    return Err(e);
                },
            }
            i += 1;
        }
        proof {
            assert(ps.skip(i as int).len() == 0);
            assert(text@ + Seq::<char>::empty() =~= text@);
        }
        Ok(text)
    }
}

/// One rewrite: an input pattern to match and an output pattern to render.
pub struct Rule {
    pub pattern: Pattern,
    pub output: Pattern,
}

/// What applying a rule to a node yields: nothing on an ordinary non-match,
/// the rendered output on a match, or a fatal fault.
pub open spec fn spec_rule_check(r: Rule, n: SyntaxNode) -> Result<Option<Seq<char>>, RuleError> {
    match spec_check(pattern_view(r.pattern), n, Option::None) {
        CheckRes::NoMatch => Ok(Option::None),
        CheckRes::Fault(e) => Err(e),
        CheckRes::Bound(b) => match spec_replace(pattern_view(r.output), b) {
            Ok(t) => Ok(Option::Some(t)),
            Err(e) => Err(e),
        },
    }
}

impl Rule {
    /// Compile one rule from the two sides of an example pair.
    pub fn parse(from: &SyntaxNode, to: &SyntaxNode, vars: &[&str]) -> (r: Rule)
        ensures
            pattern_view(r.pattern) == spec_compile(*from, vars_view(vars@)),
            pattern_view(r.output) == spec_compile(*to, vars_view(vars@)),
    {
        Rule { pattern: Pattern::parse(from, vars), output: Pattern::parse(to, vars) }
    }

    /// Match the rule's input pattern against `node` with a fresh binding;
    /// on success render the output pattern with the captured binding.
    pub fn check(&self, node: &SyntaxNode) -> (r: Result<Option<String>, RuleError>)
        ensures
            spec_rule_check(*self, *node) is Ok <==> r is Ok,
            r is Ok ==> opt_view(r->Ok_0) == spec_rule_check(*self, *node)->Ok_0,
            r is Err ==> r->Err_0 == spec_rule_check(*self, *node)->Err_0,
    {
        let mut vars: Option<String> = None;
        match self.pattern.check(node, &mut vars) {
            Ok(true) => match self.output.replace(&vars) {
                Ok(t) => Ok(Some(t)),
                Err(e) => Err(e),
            },
            Ok(false) => Ok(None),
            Err(e) => Err(e),
        }
    }
}

/// A compiled program: a source grammar, a target grammar, and rules tried
/// in order against the parsed root of the input.
pub struct Program {
    pub from_lang: Language,
    pub to_lang: Language,
    pub rules: Vec<Rule>,
}

/// The first rule whose pattern matches decides the result; a fault in any
/// tried rule aborts the application.
pub open spec fn spec_apply_rules(rules: Seq<Rule>, root: SyntaxNode) -> Result<
    Option<Seq<char>>,
    RuleError,
>
    decreases rules,
{
    if rules.len() == 0 {
        Ok(Option::None)
    } else {
        match spec_rule_check(rules[0], root) {
            Ok(Option::None) => spec_apply_rules(rules.drop_first(), root),
            r => r,
        }
    }
}

/// What applying a program to a source text yields: the text is parsed
/// under the source grammar and the rules are tried in order at the root.
pub open spec fn spec_apply(p: Program, text: Seq<char>) -> Result<Option<Seq<char>>, RuleError> {
    match parse_of(p.from_lang, text) {
        Option::None => Err(RuleError::Parse),
        Option::Some(root) => spec_apply_rules(p.rules@, root),
    }
}

impl Program {
    /// Compile a one-rule program from an example pair: parse each side
    /// under its grammar and compile the rule from the two roots.
    pub fn parse(from_lang: Language, to_lang: Language, from: &str, to: &str, vars: &[&str]) -> (r:
        Result<Program, RuleError>)
        ensures
            r is Ok <==> parse_of(from_lang, from@) is Some && parse_of(to_lang, to@) is Some,
            r is Err ==> r->Err_0 == RuleError::Parse,
            r is Ok ==> ({
                let p = r->Ok_0;
                &&& p.from_lang == from_lang
                &&& p.to_lang == to_lang
                &&& p.rules@.len() == 1
                &&& pattern_view(p.rules@[0].pattern) == spec_compile(
                    parse_of(from_lang, from@)->0,
                    vars_view(vars@),
                )
                &&& pattern_view(p.rules@[0].output) == spec_compile(
                    parse_of(to_lang, to@)->0,
                    vars_view(vars@),
                )
            }),
    {
        let from_root = match parse_root(from_lang, from) {
            Some(n) => n,
            None => {
                return Err(RuleError::Parse);
            },
        };
        let to_root = match parse_root(to_lang, to) {
            Some(n) => n,
            None => {
                return Err(RuleError::Parse);
            },
        };
        let rule = Rule::parse(&from_root, &to_root, vars);
        let mut rules: Vec<Rule> = Vec::new();
        rules.push(rule);
        Ok(Program { from_lang, to_lang, rules })
    }

    /// Apply the program to a source text: parse it under the source
    /// grammar and return the first rule's rendering, nothing where no rule
    /// matches, or the fault that aborted a rule.
    pub fn apply(&self, text: &str) -> (r: Result<Option<String>, RuleError>)
        ensures
            spec_apply(*self, text@) is Ok <==> r is Ok,
            r is Ok ==> opt_view(r->Ok_0) == spec_apply(*self, text@)->Ok_0,
            r is Err ==> r->Err_0 == spec_apply(*self, text@)->Err_0,
    {
        let root = match parse_root(self.from_lang, text) {
            Some(n) => n,
            None => {
                return Err(RuleError::Parse);
            },
        };
        let ghost rs = self.rules@;
        proof {
            assert(rs.skip(0) =~= rs);
        }
        let mut i: usize = 0;
        while i < self.rules.len()
            invariant
                i <= rs.len(),
                rs == self.rules@,
                root == parse_of(self.from_lang, text@)->0,
                parse_of(self.from_lang, text@) is Some,
                spec_apply_rules(rs, root) == spec_apply_rules(rs.skip(i as int), root),
            decreases rs.len() - i,
        {
            proof {
                assert(rs.skip(i as int)[0] == rs[i as int]);
            }
            match self.rules[i].check(&root) {
                Ok(Some(t)) => {
                    return Ok(Some(t));
                },
                Ok(None) => {
                    proof {
                        assert(rs.skip(i as int).drop_first() =~= rs.skip(i + 1));
                    }
                },
                Err(e) => {
                    return Err(e);
                },
            }
            i += 1;
        }
        proof {
            assert(rs.skip(i as int).len() == 0);
        }
        Ok(None)
    }
}

/// Whether `c` occurs in `s` at position `i` and nowhere later.
pub open spec fn is_last_at(s: Seq<char>, c: char, i: int) -> bool {
    &&& 0 <= i < s.len()
    &&& s[i] == c
    &&& forall|j: int| i < j < s.len() ==> s[j] != c
}

/// The greatest position at which `c` occurs in `s` (meaningful only where
/// it occurs at all).
pub open spec fn last_index(s: Seq<char>, c: char) -> int {
    choose|i: int| is_last_at(s, c, i)
}

/// Search for the last occurrence of `c` in `s`.
fn rfind_char(s: &str, c: char) -> (r: Option<usize>)
    ensures
        match r {
            Option::Some(i) => is_last_at(s@, c, i as int),
            Option::None => forall|j: int| 0 <= j < s@.len() ==> s@[j] != c,
        },
{
    let len = s.unicode_len();
    let mut i: usize = len;
    while i > 0
        invariant
            len == s@.len(),
            i <= len,
            forall|j: int| i <= j < len ==> s@[j] != c,
        decreases i,
    {
        if s.get_char(i - 1) == c {
            return Some(i - 1);
        }
        i -= 1;
    }
    None
}

/// What an example file's name encodes, where it has the expected
/// `<label>-<group>.<extension>` shape with a known extension: the label
/// (up to the last dash), the group (between the last dash and the last
/// dot), and the language the extension denotes.
pub open spec fn spec_example_name(file: Seq<char>) -> Option<(Seq<char>, Seq<char>, Language)> {
    if (exists|i: int| is_last_at(file, '-', i)) && (exists|i: int| is_last_at(file, '.', i)) {
        if last_index(file, '-') < last_index(file, '.') {
            match crate::parse::spec_language_from_extension(
                file.skip(last_index(file, '.') + 1),
            ) {
                Option::Some(lang) => Option::Some(
                    (
                        file.take(last_index(file, '-')),
                        file.subrange(last_index(file, '-') + 1, last_index(file, '.')),
                        lang,
                    ),
                ),
                Option::None => Option::None,
            }
        } else {
            Option::None
        }
    } else {
        Option::None
    }
}

/// One stored example: a label and a group read from its file name, the
/// language its extension denotes, and its text.
pub struct Example {
    pub label: String,
    pub group: String,
    pub lang: Language,
    pub filename: String,
    pub text: String,
}

impl Example {
    /// Split an example file's name of the shape
    /// `<label>-<group>.<extension>` and keep its text.
    pub fn new(filename: String, text: String) -> (r: Option<Example>)
        ensures
            r is Some <==> spec_example_name(filename@) is Some,
            r matches Some(ex) ==> {
                let parts = spec_example_name(filename@)->0;
                &&& ex.label@ == parts.0
                &&& ex.group@ == parts.1
                &&& ex.lang == parts.2
                &&& ex.filename@ == filename@
                &&& ex.text@ == text@
            },
    {
        let dash = match rfind_char(filename.as_str(), '-') {
            Some(i) => i,
            None => {
                return None;
            },
        };
        let dot = match rfind_char(filename.as_str(), '.') {
            Some(i) => i,
            None => {
                return None;
            },
        };
        proof {
            assert(exists|i: int| is_last_at(filename@, '-', i)) by {
                assert(is_last_at(filename@, '-', dash as int));
            }
            assert(exists|i: int| is_last_at(filename@, '.', i)) by {
                assert(is_last_at(filename@, '.', dot as int));
            }
            lemma_last_at_unique(filename@, '-', dash as int, last_index(filename@, '-'));
            lemma_last_at_unique(filename@, '.', dot as int, last_index(filename@, '.'));
        }
        if dash >= dot {
            return None;
        }
        let len = filename.as_str().unicode_len();
        let ext = filename.as_str().substring_char(dot + 1, len);
        proof {
            assert(ext@ =~= filename@.skip(dot + 1));
        }
        let lang = match Language::from_extension(ext) {
            Some(l) => l,
            None => {
                return None;
            },
        };
        let label = filename.as_str().substring_char(0, dash);
        let group = filename.as_str().substring_char(dash + 1, dot);
        proof {
            assert(label@ =~= filename@.take(dash as int));
        }
        Some(
            Example {
                label: String::from_str(label),
                group: String::from_str(group),
                lang,
                filename,
                text,
            },
        )
    }
}

proof fn lemma_last_at_unique(s: Seq<char>, c: char, i: int, j: int)
    requires
        is_last_at(s, c, i),
        is_last_at(s, c, j),
    ensures
        i == j,
{
    if i < j {
        assert(s[j] != c);
    }
    if j < i {
        assert(s[i] != c);
    }
}

/// The position of an example in the corpus it was added to.
#[derive(Debug, Copy, Clone, PartialEq, Eq, Structural, Hash)]
pub struct ExampleId(pub usize);

/// A corpus of examples, indexed by label and by group. Each index keeps
/// keys in first-insertion order, with one entry per key.
pub struct Examples {
    pub list: Vec<Example>,
    pub by_label: Vec<(String, Vec<ExampleId>)>,
    pub by_group: Vec<(String, Vec<ExampleId>)>,
}

/// The first entry of the index carrying `key`.
pub open spec fn assoc_first(m: Seq<(String, Vec<ExampleId>)>, key: Seq<char>) -> Option<int>
    decreases m,
{
    if m.len() == 0 {
        Option::None
    } else if m[0].0@ == key {
        Option::Some(0)
    } else {
        match assoc_first(m.drop_first(), key) {
            Option::Some(i) => Option::Some(i + 1),
            Option::None => Option::None,
        }
    }
}

/// Append `id` under `key`: to the first entry carrying the key, or to a
/// fresh entry at the end.
fn assoc_push(m: &mut Vec<(String, Vec<ExampleId>)>, key: &String, id: ExampleId)
    ensures
        match assoc_first(old(m)@, key@) {
            Option::Some(k) => {
                &&& final(m)@.len() == old(m)@.len()
                &&& forall|j: int| 0 <= j < old(m)@.len() && j != k ==> final(m)@[j] == old(m)@[j]
                &&& final(m)@[k].0 == old(m)@[k].0
                &&& final(m)@[k].1@ == old(m)@[k].1@.push(id)
            },
            Option::None => {
                &&& final(m)@.len() == old(m)@.len() + 1
                &&& forall|j: int| 0 <= j < old(m)@.len() ==> final(m)@[j] == old(m)@[j]
                &&& final(m)@.last().0@ == key@
                &&& final(m)@.last().1@ == seq![id]
            },
        },
{
    let ghost m0 = m@;
    proof {
        assert(m0.skip(0) =~= m0);
    }
    let mut i: usize = 0;
    while i < m.len()
        invariant
            m@ == m0,
            m0 == old(m)@,
            i <= m0.len(),
            forall|j: int| 0 <= j < i ==> m0[j].0@ != key@,
            assoc_first(m0, key@) == match assoc_first(m0.skip(i as int), key@) {
                Option::Some(k) => Option::Some(k + i),
                Option::None => Option::None::<int>,
            },
        decreases m0.len() - i,
    {
        proof {
            assert(m0.skip(i as int)[0] == m0[i as int]);
        }
        if crate::text::str_eq(m[i].0.as_str(), key.as_str()) {
            proof {
                assert(assoc_first(m0.skip(i as int), key@) == Option::Some(0int));
                assert(assoc_first(m0, key@) == Option::Some(i as int));
            }
            let mut entry = m.remove(i);
            proof {
                assert(entry == m0[i as int]);
            }
            entry.1.push(id);
            let ghost m1 = m@;
            let ghost entry1 = entry;
            m.insert(i, entry);
            proof {
                assert(m1 == m0.remove(i as int));
                assert(m@ == m1.insert(i as int, entry1));
                assert(entry1.0 == m0[i as int].0);
                assert(entry1.1@ == m0[i as int].1@.push(id));
                assert(m@[i as int] == entry1);
                assert forall|j: int| 0 <= j < m0.len() && j != i implies m@[j] == m0[j] by {
                    if j < i {
                        assert(m1[j] == m0[j]);
                        assert(m@[j] == m1[j]);
                    } else {
                        assert(m1[j - 1] == m0[j]);
                        assert(m@[j] == m1[j - 1]);
                    }
                }
            }
            return ;
        }
        proof {
            assert(m0.skip(i as int).drop_first() =~= m0.skip(i + 1));
        }
        i += 1;
    }
    proof {
        assert(m0.skip(i as int).len() == 0);
        assert(assoc_first(m0, key@) is None);
    }
    let mut ids: Vec<ExampleId> = Vec::new();
    ids.push(id);
    m.push((key.clone(), ids));
}

impl Examples {
    /// An empty corpus.
    pub fn new() -> (r: Examples)
        ensures
            r.list@.len() == 0,
            r.by_label@.len() == 0,
            r.by_group@.len() == 0,
    {
        Examples { list: Vec::new(), by_label: Vec::new(), by_group: Vec::new() }
    }

    /// Add one example: it is appended to the corpus and its fresh position
    /// is recorded under its label and under its group.
    pub fn insert(&mut self, ex: Example) -> (id: ExampleId)
        ensures
            id.0 == old(self).list@.len(),
            final(self).list@ == old(self).list@.push(ex),
            match assoc_first(old(self).by_label@, ex.label@) {
                Option::Some(k) => {
                    &&& final(self).by_label@.len() == old(self).by_label@.len()
                    &&& forall|j: int|
                        0 <= j < old(self).by_label@.len() && j != k ==> final(self).by_label@[j]
                            == old(self).by_label@[j]
                    &&& final(self).by_label@[k].1@ == old(self).by_label@[k].1@.push(id)
                },
                Option::None => {
                    &&& final(self).by_label@.len() == old(self).by_label@.len() + 1
                    &&& final(self).by_label@.last().0@ == ex.label@
                    &&& final(self).by_label@.last().1@ == seq![id]
                },
            },
            match assoc_first(old(self).by_group@, ex.group@) {
                Option::Some(k) => {
                    &&& final(self).by_group@.len() == old(self).by_group@.len()
                    &&& forall|j: int|
                        0 <= j < old(self).by_group@.len() && j != k ==> final(self).by_group@[j]
                            == old(self).by_group@[j]
                    &&& final(self).by_group@[k].1@ == old(self).by_group@[k].1@.push(id)
                },
                Option::None => {
                    &&& final(self).by_group@.len() == old(self).by_group@.len() + 1
                    &&& final(self).by_group@.last().0@ == ex.group@
                    &&& final(self).by_group@.last().1@ == seq![id]
                },
            },
    {
        let id = ExampleId(self.list.len());
        assoc_push(&mut self.by_label, &ex.label, id);
        assoc_push(&mut self.by_group, &ex.group, id);
        self.list.push(ex);
        id
    }
}

/// A loaded transformation: the program its example corpus induced.
pub struct Transform {
    pub program: Program,
}

} // verus!
