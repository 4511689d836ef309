mod laws;
mod parse;
mod schema;
mod text;
mod transform;

pub use laws::{
    is_subst, lemma_literal_gap_fidelity, lemma_round_trip, lemma_second_placeholder,
    lemma_structural_mismatch, lemma_substitution, no_text_var, subst_text, var_count,
    var_nodes_text, var_text,
};
pub use parse::{
    find_lang, parse_of, parse_of_raw, parse_root, spec_has_single_var, spec_has_var, text_of, Child, Kind,
    Language, LanguageInfo, SyntaxNode,
};
pub use schema::{find_example, Finder, Schema};
pub use text::{contains_seq, contains_str, str_eq, trim_str};
pub use transform::{
    pattern_view, spec_apply, spec_check, spec_compile, spec_replace, spec_rule_check, CheckRes,
    Example, ExampleId, Examples, Pattern, PatternV, Program, Repeat, Rule, RuleError, Transform,
    Variadic, VariadicV,
};
