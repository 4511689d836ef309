use vstd::prelude::*;
use crate::parse::{
    child_text, parse_of, spec_has_single_var, text_of, texts_of, Child, SyntaxNode,
};
use crate::transform::{
    is_var_text, pattern_view, spec_apply, spec_apply_rules, spec_check, spec_check_children,
    spec_check_pair, spec_compile, spec_compile_child, spec_compile_children, spec_replace,
    spec_replace_children, spec_replace_variadic, spec_rule_check, CheckRes, PatternV, Program,
    Repeat, RuleError, VariadicV,
};

verus! {

/// How many whole-node placeholders a compiled pattern contains.
pub open spec fn var_count(p: PatternV) -> nat
    decreases p, 0int,
{
    match p {
        PatternV::NodeVar => 1,
        PatternV::Node { children, .. } => var_count_children(children),
        _ => 0,
    }
}

pub open spec fn var_count_children(ps: Seq<VariadicV>) -> nat
    decreases ps, 1int,
{
    if ps.len() == 0 {
        0
    } else {
        var_count(ps[0].pattern) + var_count_children(ps.drop_first())
    }
}

/// The text of the first single-placeholder node of `n`, in compile order.
pub open spec fn var_text(n: SyntaxNode, vars: Seq<Seq<char>>) -> Option<Seq<char>>
    decreases n, 0int,
{
    if spec_has_single_var(n, vars) {
        Option::Some(text_of(n))
    } else {
        var_text_children(n.children@, vars)
    }
}

pub open spec fn var_text_children(cs: Seq<Child>, vars: Seq<Seq<char>>) -> Option<Seq<char>>
    decreases cs, 1int,
{
    if cs.len() == 0 {
        Option::None
    } else {
        match cs[0] {
            Child::Node(m) => if var_text(m, vars) is Some {
                var_text(m, vars)
            } else {
                var_text_children(cs.drop_first(), vars)
            },
            Child::Text(_) => var_text_children(cs.drop_first(), vars),
        }
    }
}

/// A placeholder text is captured exactly where the compiled pattern holds
/// a whole-node placeholder.
proof fn lemma_var_text_some(n: SyntaxNode, vars: Seq<Seq<char>>)
    ensures
        var_text(n, vars) is Some <==> var_count(spec_compile(n, vars)) >= 1,
    decreases n, 0int,
{
    if !spec_has_single_var(n, vars) {
        lemma_var_text_some_children(n.children@, vars);
    }
}

proof fn lemma_var_text_some_children(cs: Seq<Child>, vars: Seq<Seq<char>>)
    ensures
        var_text_children(cs, vars) is Some <==> var_count_children(
            spec_compile_children(cs, vars),
        ) >= 1,
    decreases cs, 1int,
{
    if cs.len() > 0 {
        lemma_var_text_some_children(cs.drop_first(), vars);
        crate::transform::lemma_spec_compile_children(cs, vars);
        assert(spec_compile_children(cs, vars).drop_first() =~= spec_compile_children(
            cs.drop_first(),
            vars,
        ));
        assert(spec_compile_children(cs, vars)[0] == spec_compile_child(cs[0], vars));
        match cs[0] {
            Child::Node(m) => {
                lemma_var_text_some(m, vars);
                assert(spec_compile_child(cs[0], vars).pattern == spec_compile(m, vars));
                assert(var_count_children(spec_compile_children(cs, vars)) == var_count(
                    spec_compile(m, vars),
                ) + var_count_children(spec_compile_children(cs.drop_first(), vars)));
            },
            Child::Text(_) => {
                assert(var_count(spec_compile_child(cs[0], vars).pattern) == 0);
                assert(var_count_children(spec_compile_children(cs, vars))
                    == var_count_children(spec_compile_children(cs.drop_first(), vars)));
                assert(var_text_children(cs, vars) == var_text_children(cs.drop_first(), vars));
            },
        }
    }
}

/// The outcome the matcher owes when a pattern meets the very shape it was
/// compiled from: a fault as soon as a second placeholder position would
/// bind, otherwise a match carrying the captured text.
spec fn self_res(count: nat, vt: Option<Seq<char>>, b: Option<Seq<char>>) -> CheckRes {
    if (b is Some && count >= 1) || count >= 2 {
        CheckRes::Fault(RuleError::SecondBinding)
    } else if count == 1 {
        CheckRes::Bound(vt)
    } else {
        CheckRes::Bound(b)
    }
}

proof fn lemma_check_self(n: SyntaxNode, vars: Seq<Seq<char>>, b: Option<Seq<char>>)
    ensures
        spec_check(spec_compile(n, vars), n, b) == self_res(
            var_count(spec_compile(n, vars)),
            var_text(n, vars),
            b,
        ),
    decreases n, 0int,
{
    if !spec_has_single_var(n, vars) {
        lemma_check_children_self(n.children@, vars, b);
    }
}

proof fn lemma_check_children_self(cs: Seq<Child>, vars: Seq<Seq<char>>, b: Option<Seq<char>>)
    ensures
        spec_check_children(spec_compile_children(cs, vars), cs, b) == self_res(
            var_count_children(spec_compile_children(cs, vars)),
            var_text_children(cs, vars),
            b,
        ),
    decreases cs, 1int,
{
    crate::transform::lemma_spec_compile_children(cs, vars);
    if cs.len() > 0 {
        let ps = spec_compile_children(cs, vars);
        assert(ps[0] == spec_compile_child(cs[0], vars));
        assert(ps.drop_first() =~= spec_compile_children(cs.drop_first(), vars));
        assert(ps[0].repeat == Repeat::Single);
        let total = var_count_children(ps);
        let rest_count = var_count_children(spec_compile_children(cs.drop_first(), vars));
        assert(total == var_count(ps[0].pattern) + rest_count);
        match cs[0] {
            Child::Node(m) => {
                lemma_check_self(m, vars, b);
                lemma_var_text_some(m, vars);
                lemma_var_text_some_children(cs.drop_first(), vars);
                assert(ps[0].pattern == spec_compile(m, vars));
                assert(spec_check_pair(ps[0].pattern, cs[0], b) == spec_check(
                    spec_compile(m, vars),
                    m,
                    b,
                ));
                let cm = var_count(spec_compile(m, vars));
                if (b is Some && cm >= 1) || cm >= 2 {
                    assert(spec_check_children(ps, cs, b) == CheckRes::Fault(
                        RuleError::SecondBinding,
                    ));
                } else if cm == 1 {
                    let vtm = var_text(m, vars);
                    assert(vtm is Some);
                    assert(var_text_children(cs, vars) == vtm);
                    lemma_check_children_self(cs.drop_first(), vars, vtm);
                } else {
                    assert(var_text(m, vars) is None);
                    assert(var_text_children(cs, vars) == var_text_children(
                        cs.drop_first(),
                        vars,
                    ));
                    lemma_check_children_self(cs.drop_first(), vars, b);
                }
            },
            Child::Text(s) => {
                assert(var_count(ps[0].pattern) == 0);
                assert(spec_check_pair(ps[0].pattern, cs[0], b) == CheckRes::Bound(b));
                assert(var_text_children(cs, vars) == var_text_children(cs.drop_first(), vars));
                lemma_check_children_self(cs.drop_first(), vars, b);
            },
        }
    }
}

/// `m` is `n` with every minimal placeholder-containing node replaced by
/// the node `x`, all other structure equal and every literal gap kept
/// character for character.
pub open spec fn is_subst(n: SyntaxNode, vars: Seq<Seq<char>>, x: SyntaxNode, m: SyntaxNode) -> bool
    decreases n, 0int,
{
    if spec_has_single_var(n, vars) {
        m == x
    } else {
        m.kind == n.kind && m.children@.len() == n.children@.len() && (forall|i: int|
            0 <= i < n.children@.len() ==> is_subst_child(n.children@[i], vars, x, m.children@[i]))
    }
}

pub open spec fn is_subst_child(c: Child, vars: Seq<Seq<char>>, x: SyntaxNode, d: Child) -> bool
    decreases c, 1int,
{
    match (c, d) {
        (Child::Node(cn), Child::Node(dn)) => is_subst(cn, vars, x, dn),
        (Child::Text(ct), Child::Text(dt)) => dt@ == ct@,
        _ => false,
    }
}

proof fn lemma_check_subst(n: SyntaxNode, vars: Seq<Seq<char>>, x: SyntaxNode, m: SyntaxNode, b: Option<Seq<char>>)
    requires
        is_subst(n, vars, x, m),
    ensures
        spec_check(spec_compile(n, vars), m, b) == self_res(
            var_count(spec_compile(n, vars)),
            Option::Some(text_of(x)),
            b,
        ),
    decreases n, 0int,
{
    if !spec_has_single_var(n, vars) {
        lemma_check_children_subst(n.children@, vars, x, m.children@, b);
    }
}

proof fn lemma_check_children_subst(
    cs: Seq<Child>,
    vars: Seq<Seq<char>>,
    x: SyntaxNode,
    ds: Seq<Child>,
    b: Option<Seq<char>>,
)
    requires
        cs.len() == ds.len(),
        forall|i: int| 0 <= i < cs.len() ==> is_subst_child(cs[i], vars, x, ds[i]),
    ensures
        spec_check_children(spec_compile_children(cs, vars), ds, b) == self_res(
            var_count_children(spec_compile_children(cs, vars)),
            Option::Some(text_of(x)),
            b,
        ),
    decreases cs, 1int,
{
    crate::transform::lemma_spec_compile_children(cs, vars);
    if cs.len() > 0 {
        let ps = spec_compile_children(cs, vars);
        assert(ps[0] == spec_compile_child(cs[0], vars));
        assert(ps.drop_first() =~= spec_compile_children(cs.drop_first(), vars));
        assert(ps[0].repeat == Repeat::Single);
        let rest_count = var_count_children(spec_compile_children(cs.drop_first(), vars));
        assert(var_count_children(ps) == var_count(ps[0].pattern) + rest_count);
        assert(is_subst_child(cs[0], vars, x, ds[0]));
        assert forall|i: int| 0 <= i < cs.drop_first().len() implies is_subst_child(
            cs.drop_first()[i],
            vars,
            x,
            ds.drop_first()[i],
        ) by {
            assert(cs.drop_first()[i] == cs[i + 1]);
            assert(ds.drop_first()[i] == ds[i + 1]);
            assert(is_subst_child(cs[i + 1], vars, x, ds[i + 1]));
        }
        match cs[0] {
            Child::Node(cn) => {
                let dn = ds[0]->Node_0;
                assert(ds[0] is Node && is_subst(cn, vars, x, dn));
                lemma_check_subst(cn, vars, x, dn, b);
                assert(ps[0].pattern == spec_compile(cn, vars));
                assert(spec_check_pair(ps[0].pattern, ds[0], b) == spec_check(
                    spec_compile(cn, vars),
                    dn,
                    b,
                ));
                let cm = var_count(spec_compile(cn, vars));
                if (b is Some && cm >= 1) || cm >= 2 {
                    assert(spec_check_children(ps, ds, b) == CheckRes::Fault(
                        RuleError::SecondBinding,
                    ));
                } else if cm == 1 {
                    lemma_check_children_subst(
                        cs.drop_first(),
                        vars,
                        x,
                        ds.drop_first(),
                        Option::Some(text_of(x)),
                    );
                } else {
                    lemma_check_children_subst(cs.drop_first(), vars, x, ds.drop_first(), b);
                }
            },
            Child::Text(ct) => {
                let dt = ds[0]->Text_0;
                assert(ds[0] is Text && dt@ == ct@);
                assert(var_count(ps[0].pattern) == 0);
                assert(spec_check_pair(ps[0].pattern, ds[0], b) == CheckRes::Bound(b));
                lemma_check_children_subst(cs.drop_first(), vars, x, ds.drop_first(), b);
            },
        }
    }
}

/// No literal text gap of `n` outside a minimal placeholder node is itself
/// a placeholder name (such a gap would compile to the unsupported text-gap
/// placeholder).
pub open spec fn no_text_var(n: SyntaxNode, vars: Seq<Seq<char>>) -> bool
    decreases n, 0int,
{
    spec_has_single_var(n, vars) || (forall|i: int|
        0 <= i < n.children@.len() ==> no_text_var_child(n.children@[i], vars))
}

pub open spec fn no_text_var_child(c: Child, vars: Seq<Seq<char>>) -> bool
    decreases c, 1int,
{
    match c {
        Child::Node(m) => no_text_var(m, vars),
        Child::Text(s) => !is_var_text(s@, vars),
    }
}

/// The text of `n` with the text of every minimal placeholder node
/// replaced by the bound text, every other literal gap and sub-node kept
/// character for character.
pub open spec fn subst_text(n: SyntaxNode, vars: Seq<Seq<char>>, b: Option<Seq<char>>) -> Seq<char>
    decreases n, 0int,
{
    if spec_has_single_var(n, vars) {
        b->0
    } else {
        subst_text_children(n.children@, vars, b)
    }
}

pub open spec fn subst_text_children(
    cs: Seq<Child>,
    vars: Seq<Seq<char>>,
    b: Option<Seq<char>>,
) -> Seq<char>
    decreases cs, 1int,
{
    if cs.len() == 0 {
        Seq::empty()
    } else {
        subst_text_child(cs[0], vars, b) + subst_text_children(cs.drop_first(), vars, b)
    }
}

pub open spec fn subst_text_child(c: Child, vars: Seq<Seq<char>>, b: Option<Seq<char>>) -> Seq<
    char,
>
    decreases c, 2int,
{
    match c {
        Child::Node(m) => subst_text(m, vars, b),
        Child::Text(s) => s@,
    }
}

proof fn lemma_replace_compiled(n: SyntaxNode, vars: Seq<Seq<char>>, b: Option<Seq<char>>)
    requires
        no_text_var(n, vars),
        b is None ==> var_count(spec_compile(n, vars)) == 0,
    ensures
        spec_replace(spec_compile(n, vars), b) == Ok::<Seq<char>, RuleError>(
            subst_text(n, vars, b),
        ),
    decreases n, 0int,
{
    if spec_has_single_var(n, vars) {
        assert(var_count(spec_compile(n, vars)) == 1);
    } else {
        lemma_replace_compiled_children(n.children@, vars, b);
    }
}

proof fn lemma_replace_compiled_children(
    cs: Seq<Child>,
    vars: Seq<Seq<char>>,
    b: Option<Seq<char>>,
)
    requires
        forall|i: int| 0 <= i < cs.len() ==> no_text_var_child(cs[i], vars),
        b is None ==> var_count_children(spec_compile_children(cs, vars)) == 0,
    ensures
        spec_replace_children(spec_compile_children(cs, vars), b) == Ok::<Seq<char>, RuleError>(
            subst_text_children(cs, vars, b),
        ),
    decreases cs, 1int,
{
    crate::transform::lemma_spec_compile_children(cs, vars);
    if cs.len() > 0 {
        let ps = spec_compile_children(cs, vars);
        assert(ps[0] == spec_compile_child(cs[0], vars));
        assert(ps.drop_first() =~= spec_compile_children(cs.drop_first(), vars));
        assert(ps[0].repeat == Repeat::Single);
        assert(var_count_children(ps) == var_count(ps[0].pattern) + var_count_children(
            ps.drop_first(),
        ));
        assert(no_text_var_child(cs[0], vars));
        assert forall|i: int| 0 <= i < cs.drop_first().len() implies no_text_var_child(
            cs.drop_first()[i],
            vars,
        ) by {
            assert(cs.drop_first()[i] == cs[i + 1]);
            assert(no_text_var_child(cs[i + 1], vars));
        }
        match cs[0] {
            Child::Node(m) => {
                assert(ps[0].pattern == spec_compile(m, vars));
                lemma_replace_compiled(m, vars, b);
                assert(spec_replace_variadic(ps[0], b) == Ok::<Seq<char>, RuleError>(
                    subst_text(m, vars, b),
                ));
                assert(subst_text_child(cs[0], vars, b) == subst_text(m, vars, b));
            },
            Child::Text(s) => {
                assert(!is_var_text(s@, vars));
                assert(ps[0].pattern == PatternV::TextLiteral(s@));
                assert(spec_replace_variadic(ps[0], b) == Ok::<Seq<char>, RuleError>(s@));
                assert(subst_text_child(cs[0], vars, b) == s@);
            },
        }
        lemma_replace_compiled_children(cs.drop_first(), vars, b);
        assert(subst_text_children(cs, vars, b) == subst_text_child(cs[0], vars, b)
            + subst_text_children(cs.drop_first(), vars, b));
    }
}

/// Where every minimal placeholder node of `n` carries exactly the text
/// `s`.
pub open spec fn var_nodes_text(n: SyntaxNode, vars: Seq<Seq<char>>, s: Seq<char>) -> bool
    decreases n, 0int,
{
    if spec_has_single_var(n, vars) {
        text_of(n) == s
    } else {
        forall|i: int| 0 <= i < n.children@.len() ==> var_nodes_text_child(n.children@[i], vars, s)
    }
}

pub open spec fn var_nodes_text_child(c: Child, vars: Seq<Seq<char>>, s: Seq<char>) -> bool
    decreases c, 1int,
{
    match c {
        Child::Node(m) => var_nodes_text(m, vars, s),
        Child::Text(_) => true,
    }
}

proof fn lemma_subst_text_id(n: SyntaxNode, vars: Seq<Seq<char>>, s: Seq<char>)
    requires
        var_nodes_text(n, vars, s),
    ensures
        subst_text(n, vars, Option::Some(s)) == text_of(n),
    decreases n, 0int,
{
    if !spec_has_single_var(n, vars) {
        lemma_subst_text_id_children(n.children@, vars, s);
    }
}

proof fn lemma_subst_text_id_children(cs: Seq<Child>, vars: Seq<Seq<char>>, s: Seq<char>)
    requires
        forall|i: int| 0 <= i < cs.len() ==> var_nodes_text_child(cs[i], vars, s),
    ensures
        subst_text_children(cs, vars, Option::Some(s)) == crate::parse::texts_of(cs),
    decreases cs, 1int,
{
    if cs.len() > 0 {
        assert(var_nodes_text_child(cs[0], vars, s));
        assert forall|i: int| 0 <= i < cs.drop_first().len() implies var_nodes_text_child(
            cs.drop_first()[i],
            vars,
            s,
        ) by {
            assert(cs.drop_first()[i] == cs[i + 1]);
            assert(var_nodes_text_child(cs[i + 1], vars, s));
        }
        match cs[0] {
            Child::Node(m) => {
                lemma_subst_text_id(m, vars, s);
                assert(subst_text_child(cs[0], vars, Option::Some(s)) == subst_text(
                    m,
                    vars,
                    Option::Some(s),
                ));
                assert(child_text(cs[0]) == text_of(m));
            },
            Child::Text(t) => {
                assert(subst_text_child(cs[0], vars, Option::Some(s)) == t@);
                assert(child_text(cs[0]) == t@);
            },
        }
        lemma_subst_text_id_children(cs.drop_first(), vars, s);
        assert(subst_text_children(cs, vars, Option::Some(s)) == subst_text_child(
            cs[0],
            vars,
            Option::Some(s),
        ) + subst_text_children(cs.drop_first(), vars, Option::Some(s)));
        assert(texts_of(cs) == child_text(cs[0]) + texts_of(cs.drop_first()));
    }
}

proof fn lemma_subst_text_novar(n: SyntaxNode, vars: Seq<Seq<char>>, b: Option<Seq<char>>)
    requires
        var_count(spec_compile(n, vars)) == 0,
    ensures
        subst_text(n, vars, b) == text_of(n),
    decreases n, 0int,
{
    if spec_has_single_var(n, vars) {
        assert(var_count(spec_compile(n, vars)) == 1);
    } else {
        lemma_subst_text_novar_children(n.children@, vars, b);
    }
}

proof fn lemma_subst_text_novar_children(
    cs: Seq<Child>,
    vars: Seq<Seq<char>>,
    b: Option<Seq<char>>,
)
    requires
        var_count_children(spec_compile_children(cs, vars)) == 0,
    ensures
        subst_text_children(cs, vars, b) == crate::parse::texts_of(cs),
    decreases cs, 1int,
{
    crate::transform::lemma_spec_compile_children(cs, vars);
    if cs.len() > 0 {
        let ps = spec_compile_children(cs, vars);
        assert(ps[0] == spec_compile_child(cs[0], vars));
        assert(ps.drop_first() =~= spec_compile_children(cs.drop_first(), vars));
        assert(var_count_children(ps) == var_count(ps[0].pattern) + var_count_children(
            ps.drop_first(),
        ));
        match cs[0] {
            Child::Node(m) => {
                assert(ps[0].pattern == spec_compile(m, vars));
                lemma_subst_text_novar(m, vars, b);
                assert(subst_text_child(cs[0], vars, b) == subst_text(m, vars, b));
                assert(child_text(cs[0]) == text_of(m));
            },
            Child::Text(t) => {
                assert(subst_text_child(cs[0], vars, b) == t@);
                assert(child_text(cs[0]) == t@);
            },
        }
        lemma_subst_text_novar_children(cs.drop_first(), vars, b);
        assert(subst_text_children(cs, vars, b) == subst_text_child(cs[0], vars, b)
            + subst_text_children(cs.drop_first(), vars, b));
        assert(texts_of(cs) == child_text(cs[0]) + texts_of(cs.drop_first()));
    }
}

/// Round-trip identity: a one-rule program compiled from an example pair,
/// applied to the "before" example itself, rewrites it to exactly the
/// "after" example's text. This holds whenever the compiled input pattern
/// binds at most one placeholder position, the "after" side compiles
/// without the unsupported text-gap placeholder, and either neither side
/// captures a placeholder or every placeholder node of the "after" side
/// carries the very text the "before" side captures. Nothing here relates
/// the two grammars: the rule may rewrite across languages.
pub proof fn lemma_round_trip(p: Program, from: Seq<char>, to: Seq<char>, vars: Seq<Seq<char>>)
    requires
        parse_of(p.from_lang, from) is Some,
        parse_of(p.to_lang, to) is Some,
        p.rules@.len() == 1,
        pattern_view(p.rules@[0].pattern) == spec_compile(parse_of(p.from_lang, from)->0, vars),
        pattern_view(p.rules@[0].output) == spec_compile(parse_of(p.to_lang, to)->0, vars),
        var_count(spec_compile(parse_of(p.from_lang, from)->0, vars)) <= 1,
        no_text_var(parse_of(p.to_lang, to)->0, vars),
        var_count(spec_compile(parse_of(p.from_lang, from)->0, vars)) == 1 ==> var_nodes_text(
            parse_of(p.to_lang, to)->0,
            vars,
            var_text(parse_of(p.from_lang, from)->0, vars)->0,
        ),
        var_count(spec_compile(parse_of(p.from_lang, from)->0, vars)) == 0 ==> var_count(
            spec_compile(parse_of(p.to_lang, to)->0, vars),
        ) == 0,
    ensures
        spec_apply(p, from) == Ok::<Option<Seq<char>>, RuleError>(
            Option::Some(text_of(parse_of(p.to_lang, to)->0)),
        ),
{
    let f = parse_of(p.from_lang, from)->0;
    let t = parse_of(p.to_lang, to)->0;
    let rule = p.rules@[0];
    lemma_check_self(f, vars, Option::None);
    lemma_var_text_some(f, vars);
    let count = var_count(spec_compile(f, vars));
    if count == 1 {
        let vt = var_text(f, vars);
        assert(vt is Some);
        assert(spec_check(spec_compile(f, vars), f, Option::None) == CheckRes::Bound(vt));
        lemma_replace_compiled(t, vars, vt);
        lemma_subst_text_id(t, vars, vt->0);
        assert(spec_replace(spec_compile(t, vars), vt) == Ok::<Seq<char>, RuleError>(text_of(t)));
    } else {
        assert(spec_check(spec_compile(f, vars), f, Option::None) == CheckRes::Bound(
            Option::None,
        ));
        lemma_replace_compiled(t, vars, Option::None);
        lemma_subst_text_novar(t, vars, Option::None);
        assert(spec_replace(spec_compile(t, vars), Option::None) == Ok::<Seq<char>, RuleError>(
            text_of(t),
        ));
    }
    assert(spec_rule_check(rule, f) == Ok::<Option<Seq<char>>, RuleError>(
        Option::Some(text_of(t)),
    ));
    assert(spec_apply_rules(p.rules@, f) == Ok::<Option<Seq<char>>, RuleError>(
        Option::Some(text_of(t)),
    ));
}

/// Placeholder substitution: a rule induced from an example pair with one
/// placeholder position, applied to any input whose tree is the "before"
/// tree with an arbitrary node in the placeholder position, rewrites it to
/// the "after" side with the substituted node's text in the placeholder's
/// place.
pub proof fn lemma_substitution(
    p: Program,
    from: Seq<char>,
    to: Seq<char>,
    vars: Seq<Seq<char>>,
    x: SyntaxNode,
    input: Seq<char>,
)
    requires
        parse_of(p.from_lang, from) is Some,
        parse_of(p.to_lang, to) is Some,
        parse_of(p.from_lang, input) is Some,
        p.rules@.len() == 1,
        pattern_view(p.rules@[0].pattern) == spec_compile(parse_of(p.from_lang, from)->0, vars),
        pattern_view(p.rules@[0].output) == spec_compile(parse_of(p.to_lang, to)->0, vars),
        var_count(spec_compile(parse_of(p.from_lang, from)->0, vars)) == 1,
        no_text_var(parse_of(p.to_lang, to)->0, vars),
        is_subst(parse_of(p.from_lang, from)->0, vars, x, parse_of(p.from_lang, input)->0),
    ensures
        spec_apply(p, input) == Ok::<Option<Seq<char>>, RuleError>(
            Option::Some(subst_text(parse_of(p.to_lang, to)->0, vars, Option::Some(text_of(x)))),
        ),
{
    let f = parse_of(p.from_lang, from)->0;
    let t = parse_of(p.to_lang, to)->0;
    let u = parse_of(p.from_lang, input)->0;
    let rule = p.rules@[0];
    lemma_check_subst(f, vars, x, u, Option::None);
    assert(spec_check(spec_compile(f, vars), u, Option::None) == CheckRes::Bound(
        Option::Some(text_of(x)),
    ));
    lemma_replace_compiled(t, vars, Option::Some(text_of(x)));
    assert(spec_rule_check(rule, u) == Ok::<Option<Seq<char>>, RuleError>(
        Option::Some(subst_text(t, vars, Option::Some(text_of(x)))),
    ));
    assert(spec_apply_rules(p.rules@, u) == Ok::<Option<Seq<char>>, RuleError>(
        Option::Some(subst_text(t, vars, Option::Some(text_of(x)))),
    ));
}

/// Literal-gap fidelity: whatever text is bound to the placeholder, the
/// rendering of a compiled "after" side is exactly `subst_text`, which maps
/// every literal text gap of the example to itself, character for
/// character, independent of the bound text's length.
pub proof fn lemma_literal_gap_fidelity(t: SyntaxNode, vars: Seq<Seq<char>>, b: Seq<char>)
    requires
        no_text_var(t, vars),
    ensures
        spec_replace(spec_compile(t, vars), Option::Some(b)) == Ok::<Seq<char>, RuleError>(
            subst_text(t, vars, Option::Some(b)),
        ),
{
    lemma_replace_compiled(t, vars, Option::Some(b));
}

/// Structural mismatch rejects: where the "before" example compiles to a
/// structural pattern, applying the program to an input whose root has a
/// different kind is an ordinary non-match, not an error.
pub proof fn lemma_structural_mismatch(
    p: Program,
    from: Seq<char>,
    vars: Seq<Seq<char>>,
    input: Seq<char>,
)
    requires
        parse_of(p.from_lang, from) is Some,
        parse_of(p.from_lang, input) is Some,
        p.rules@.len() == 1,
        pattern_view(p.rules@[0].pattern) == spec_compile(parse_of(p.from_lang, from)->0, vars),
        !spec_has_single_var(parse_of(p.from_lang, from)->0, vars),
        parse_of(p.from_lang, input)->0.kind != parse_of(p.from_lang, from)->0.kind,
    ensures
        spec_apply(p, input) == Ok::<Option<Seq<char>>, RuleError>(Option::None),
{
    let f = parse_of(p.from_lang, from)->0;
    let u = parse_of(p.from_lang, input)->0;
    let rule = p.rules@[0];
    assert(spec_compile(f, vars) == PatternV::Node {
        kind: f.kind,
        children: spec_compile_children(f.children@, vars),
    });
    assert(spec_check(spec_compile(f, vars), u, Option::None) == CheckRes::NoMatch);
    assert(spec_rule_check(rule, u) == Ok::<Option<Seq<char>>, RuleError>(Option::None));
    assert(p.rules@.drop_first() =~= Seq::<crate::transform::Rule>::empty());
    assert(spec_apply_rules(p.rules@.drop_first(), u) == Ok::<Option<Seq<char>>, RuleError>(
        Option::None,
    ));
    assert(spec_apply_rules(p.rules@, u) == Ok::<Option<Seq<char>>, RuleError>(Option::None));
}

/// No second placeholder: where the "before" example's pattern holds two or
/// more placeholder positions, applying the program to the "before" example
/// itself fails fast with the second-binding fault rather than silently
/// binding one occurrence.
pub proof fn lemma_second_placeholder(p: Program, from: Seq<char>, vars: Seq<Seq<char>>)
    requires
        parse_of(p.from_lang, from) is Some,
        p.rules@.len() >= 1,
        pattern_view(p.rules@[0].pattern) == spec_compile(parse_of(p.from_lang, from)->0, vars),
        var_count(spec_compile(parse_of(p.from_lang, from)->0, vars)) >= 2,
    ensures
        spec_apply(p, from) == Err::<Option<Seq<char>>, RuleError>(RuleError::SecondBinding),
{
    let f = parse_of(p.from_lang, from)->0;
    let rule = p.rules@[0];
    lemma_check_self(f, vars, Option::None);
    assert(spec_check(spec_compile(f, vars), f, Option::None) == CheckRes::Fault(
        RuleError::SecondBinding,
    ));
    assert(spec_rule_check(rule, f) == Err::<Option<Seq<char>>, RuleError>(
        RuleError::SecondBinding,
    ));
    assert(spec_apply_rules(p.rules@, f) == Err::<Option<Seq<char>>, RuleError>(
        RuleError::SecondBinding,
    ));
}

} // verus!
