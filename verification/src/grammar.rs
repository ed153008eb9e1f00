//! Grammars: a language of the parser with its queries, and the table in which the
//! formatter looks a grammar up by the name of its language.
use crate::predicate::same_text;
use vstd::prelude::*;

verus! {

/// A grammar: the name of its language, the language itself, its injection query and,
/// where it has one, its ignore query.
pub struct Grammar {
    pub name: String,
    pub lang: tree_sitter::Language,
    pub injections: tree_sitter::Query,
    pub pruner_ignore: Option<tree_sitter::Query>,
}

/// A name that stands for the name of a language.
#[derive(Clone, Debug, PartialEq, Eq)]
pub struct LanguageAlias {
    pub alias: String,
    pub canonical: String,
}

/// The place of the first of `names`, at or after `from`, that is `name`.
pub open spec fn position_from(names: Seq<Seq<char>>, name: Seq<char>, from: int) -> Option<int>
    decreases names.len() - from,
{
    if from < 0 || from >= names.len() {
        None
    } else if names[from] == name {
        Some(from)
    } else {
        position_from(names, name, from + 1)
    }
}

/// The place of the first of `names` that is `name`.
pub open spec fn position_of(names: Seq<Seq<char>>, name: Seq<char>) -> Option<int> {
    position_from(names, name, 0)
}

/// The names of the languages of `grammars`.
pub open spec fn grammar_names(grammars: Seq<Grammar>) -> Seq<Seq<char>> {
    Seq::new(grammars.len(), |i: int| grammars[i].name@)
}

/// The aliases of `aliases`.
pub open spec fn alias_names(aliases: Seq<LanguageAlias>) -> Seq<Seq<char>> {
    Seq::new(aliases.len(), |i: int| aliases[i].alias@)
}

/// The texts of `names`.
pub open spec fn name_views(names: Seq<String>) -> Seq<Seq<char>> {
    Seq::new(names.len(), |i: int| names[i]@)
}

/// The place of `language` among `names`: that of the first such name; else, where the
/// first alias called `language` stands for one of `names`, the place of that name.
pub open spec fn resolved_name(
    names: Seq<Seq<char>>,
    aliases: Seq<LanguageAlias>,
    language: Seq<char>,
) -> Option<int> {
    match position_of(names, language) {
        Some(at) => Some(at),
        None => match position_of(alias_names(aliases), language) {
            Some(alias) => if 0 <= alias < aliases.len() {
                position_of(names, aliases[alias].canonical@)
            } else {
                None
            },
            None => None,
        },
    }
}

/// The place of the grammar for `language`: that of the first grammar of that name; else,
/// where the first alias of that name stands for the name of a grammar, the place of
/// that grammar.
pub open spec fn resolved_grammar(
    grammars: Seq<Grammar>,
    aliases: Seq<LanguageAlias>,
    language: Seq<char>,
) -> Option<int> {
    resolved_name(grammar_names(grammars), aliases, language)
}

/// What is found lies in the list and is the name asked for.
pub proof fn lemma_position_from(names: Seq<Seq<char>>, name: Seq<char>, from: int)
    requires
        0 <= from,
    ensures
        position_from(names, name, from) matches Some(at) ==> from <= at < names.len() && names[at]
            == name,
    decreases names.len() - from,
{
    if from < names.len() && names[from] != name {
        lemma_position_from(names, name, from + 1);
    }
}

/// The place of the first grammar whose language is called `name`.
pub fn find_grammar(grammars: &[Grammar], name: &str) -> (found: Option<usize>)
    ensures
        match found {
            Some(at) => position_of(grammar_names(grammars@), name@) == Some(at as int) && at
                < grammars.len(),
            None => position_of(grammar_names(grammars@), name@) is None,
        },
{
    let mut i: usize = 0;
    while i < grammars.len()
        invariant
            i <= grammars.len(),
            position_of(grammar_names(grammars@), name@) == position_from(
                grammar_names(grammars@),
                name@,
                i as int,
            ),
        decreases grammars.len() - i,
    {
        if same_text(grammars[i].name.as_str(), name) {
            return Some(i);
        }
        i += 1;
    }
    None
}

/// The place of the first alias called `name`.
pub fn find_alias(aliases: &[LanguageAlias], name: &str) -> (found: Option<usize>)
    ensures
        match found {
            Some(at) => position_of(alias_names(aliases@), name@) == Some(at as int) && at
                < aliases.len(),
            None => position_of(alias_names(aliases@), name@) is None,
        },
{
    let mut i: usize = 0;
    while i < aliases.len()
        invariant
            i <= aliases.len(),
            position_of(alias_names(aliases@), name@) == position_from(
                alias_names(aliases@),
                name@,
                i as int,
            ),
        decreases aliases.len() - i,
    {
        if same_text(aliases[i].alias.as_str(), name) {
            return Some(i);
        }
        i += 1;
    }
    None
}

/// Looks up the grammar for a language: by the name itself, and where no grammar has
/// that name, by the language that the name is an alias of.
pub fn resolve_grammar(grammars: &[Grammar], aliases: &[LanguageAlias], language: &str) -> (found:
    Option<usize>)
    ensures
        match found {
            Some(at) => resolved_grammar(grammars@, aliases@, language@) == Some(at as int) && at
                < grammars.len(),
            None => resolved_grammar(grammars@, aliases@, language@) is None,
        },
{
    match find_grammar(grammars, language) {
        Some(at) => Some(at),
        None => match find_alias(aliases, language) {
            Some(alias) => find_grammar(grammars, aliases[alias].canonical.as_str()),
            None => None,
        },
    }
}

/// The place of the first of `names` that is `name`.
pub fn find_name(names: &[String], name: &str) -> (found: Option<usize>)
    ensures
        match found {
            Some(at) => position_of(name_views(names@), name@) == Some(at as int) && at
                < names.len(),
            None => position_of(name_views(names@), name@) is None,
        },
{
    let mut i: usize = 0;
    while i < names.len()
        invariant
            i <= names.len(),
            position_of(name_views(names@), name@) == position_from(
                name_views(names@),
                name@,
                i as int,
            ),
        decreases names.len() - i,
    {
        if same_text(names[i].as_str(), name) {
            return Some(i);
        }
        i += 1;
    }
    None
}

/// Looks a language up among the names of the languages that have a grammar: by the
/// name itself, and where none has that name, by the language that the name is an alias
/// of.
pub fn resolve_language(names: &[String], aliases: &[LanguageAlias], language: &str) -> (found:
    Option<usize>)
    ensures
        match found {
            Some(at) => resolved_name(name_views(names@), aliases@, language@) == Some(at as int)
                && at < names.len(),
            None => resolved_name(name_views(names@), aliases@, language@) is None,
        },
{
    match find_name(names, language) {
        Some(at) => Some(at),
        None => match find_alias(aliases, language) {
            Some(alias) => find_name(names, aliases[alias].canonical.as_str()),
            None => None,
        },
    }
}

/// The name under which a language is known: the name itself where it is one of
/// `names`; else the language that its first alias stands for; else the name itself.
pub open spec fn canonical_name(
    names: Seq<Seq<char>>,
    aliases: Seq<LanguageAlias>,
    language: Seq<char>,
) -> Seq<char> {
    match position_of(names, language) {
        Some(_) => language,
        None => match position_of(alias_names(aliases), language) {
            Some(alias) => if 0 <= alias < aliases.len() {
                aliases[alias].canonical@
            } else {
                language
            },
            None => language,
        },
    }
}

/// The name under which `language` is known, given the names of the languages that have
/// a grammar and the aliases.
pub fn canonical_language(names: &[String], aliases: &[LanguageAlias], language: &str) -> (name:
    String)
    ensures
        name@ == canonical_name(name_views(names@), aliases@, language@),
{
    match find_name(names, language) {
        Some(_) => language.to_owned(),
        None => match find_alias(aliases, language) {
            Some(alias) => aliases[alias].canonical.clone(),
            None => language.to_owned(),
        },
    }
}

} // verus!
