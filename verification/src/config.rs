//! The configuration that the formatter reads, as plain values: the formatters that a
//! language is run through, and the commands behind their names.
use crate::grammar::LanguageAlias;
use crate::predicate::same_text;
use vstd::string::StringExecFns;
use vstd::prelude::*;

verus! {

/// An external formatter: the command to run, its arguments, whether it reads the text
/// on its standard input (it does unless told otherwise), and whether anything on its
/// standard error makes the run a failure (it does not unless told so).
#[derive(Clone, Debug, PartialEq, Eq)]
pub struct FormatterSpec {
    pub cmd: String,
    pub args: Vec<String>,
    pub stdin: Option<bool>,
    pub fail_on_stderr: Option<bool>,
}

/// A formatter for a language: its bare name, or its name with the levels at which it
/// runs.
#[derive(Clone, Debug, PartialEq, Eq)]
pub enum LanguageFormatSpec {
    String(String),
    Table { formatter: String, run_in_root: bool, run_in_injections: bool },
}

impl LanguageFormatSpec {
    /// The name of the formatter.
    pub open spec fn formatter_of(self) -> Seq<char> {
        match self {
            LanguageFormatSpec::String(formatter) => formatter@,
            LanguageFormatSpec::Table { formatter, .. } => formatter@,
        }
    }

    /// Whether the formatter runs on the document itself. A bare name does.
    pub open spec fn runs_in_root(self) -> bool {
        match self {
            LanguageFormatSpec::String(_) => true,
            LanguageFormatSpec::Table { run_in_root, .. } => run_in_root,
        }
    }

    /// Whether the formatter runs on injected regions. A bare name does.
    pub open spec fn runs_in_injections(self) -> bool {
        match self {
            LanguageFormatSpec::String(_) => true,
            LanguageFormatSpec::Table { run_in_injections, .. } => run_in_injections,
        }
    }

    /// Whether the formatter runs at a level: on the document itself where `is_root`
    /// holds, else on an injected region.
    pub open spec fn runs_at(self, is_root: bool) -> bool {
        (is_root && self.runs_in_root()) || (!is_root && self.runs_in_injections())
    }

    /// The name of the formatter.
    pub fn formatter(&self) -> (name: &str)
        ensures
            name@ == self.formatter_of(),
    {
        match self {
            LanguageFormatSpec::String(formatter) => formatter.as_str(),
            LanguageFormatSpec::Table { formatter, .. } => formatter.as_str(),
        }
    }

    /// Whether the formatter runs on the document itself.
    pub fn run_in_root(&self) -> (runs: bool)
        ensures
            runs == self.runs_in_root(),
    {
        match self {
            LanguageFormatSpec::String(_) => true,
            LanguageFormatSpec::Table { run_in_root, .. } => *run_in_root,
        }
    }

    /// Whether the formatter runs on injected regions.
    pub fn run_in_injections(&self) -> (runs: bool)
        ensures
            runs == self.runs_in_injections(),
    {
        match self {
            LanguageFormatSpec::String(_) => true,
            LanguageFormatSpec::Table { run_in_injections, .. } => *run_in_injections,
        }
    }

    /// Whether the formatter runs at a level.
    pub fn should_run(&self, is_root: bool) -> (runs: bool)
        ensures
            runs == self.runs_at(is_root),
    {
        (is_root && self.run_in_root()) || (!is_root && self.run_in_injections())
    }
}

impl From<String> for LanguageFormatSpec {
    /// The formatter of the bare name `value`, which runs at every level.
    fn from(value: String) -> (spec: Self) {
        LanguageFormatSpec::String(value)
    }
}

impl vstd::std_specs::convert::FromSpecImpl<String> for LanguageFormatSpec {
    open spec fn obeys_from_spec() -> bool {
        true
    }

    open spec fn from_spec(value: String) -> Self {
        LanguageFormatSpec::String(value)
    }
}

/// The formatters of one language, in the order in which they run.
#[derive(Clone, Debug, PartialEq, Eq)]
pub struct LanguageFormatters {
    pub language: String,
    pub formatters: Vec<LanguageFormatSpec>,
}

/// An external formatter under its name.
#[derive(Clone, Debug, PartialEq, Eq)]
pub struct NamedFormatter {
    pub name: String,
    pub spec: FormatterSpec,
}

/// The languages of `languages`.
pub open spec fn language_names(languages: Seq<LanguageFormatters>) -> Seq<Seq<char>> {
    Seq::new(languages.len(), |i: int| languages[i].language@)
}

/// The names of `formatters`.
pub open spec fn formatter_names(formatters: Seq<NamedFormatter>) -> Seq<Seq<char>> {
    Seq::new(formatters.len(), |i: int| formatters[i].name@)
}

/// The place of the first entry for `language`.
pub fn find_language(languages: &[LanguageFormatters], language: &str) -> (found: Option<usize>)
    ensures
        match found {
            Some(at) => crate::grammar::position_of(language_names(languages@), language@) == Some(
                at as int,
            ) && at < languages.len(),
            None => crate::grammar::position_of(language_names(languages@), language@) is None,
        },
{
    let mut i: usize = 0;
    while i < languages.len()
        invariant
            i <= languages.len(),
            crate::grammar::position_of(language_names(languages@), language@)
                == crate::grammar::position_from(
                language_names(languages@),
                language@,
                i as int,
            ),
        decreases languages.len() - i,
    {
        if same_text(languages[i].language.as_str(), language) {
            return Some(i);
        }
        i += 1;
    }
    None
}

/// The place of the first formatter called `name`.
pub fn find_formatter(formatters: &[NamedFormatter], name: &str) -> (found: Option<usize>)
    ensures
        match found {
            Some(at) => crate::grammar::position_of(formatter_names(formatters@), name@) == Some(
                at as int,
            ) && at < formatters.len(),
            None => crate::grammar::position_of(formatter_names(formatters@), name@) is None,
        },
{
    let mut i: usize = 0;
    while i < formatters.len()
        invariant
            i <= formatters.len(),
            crate::grammar::position_of(formatter_names(formatters@), name@)
                == crate::grammar::position_from(formatter_names(formatters@), name@, i as int),
        decreases formatters.len() - i,
    {
        if same_text(formatters[i].name.as_str(), name) {
            return Some(i);
        }
        i += 1;
    }
    None
}

/// `copy` holds a clone of each element of `source`, in the same order.
pub open spec fn copy_of<T: Clone>(copy: Seq<T>, source: Seq<T>) -> bool {
    copy.len() == source.len() && forall|i: int|
        0 <= i < source.len() ==> cloned::<T>(source[i], #[trigger] copy[i])
}

/// Lays one optional list over another: where both are there, the values of `base`
/// followed by those of `overlay`; where one is there, that one; else nothing.
pub fn merge_vecs<T: Clone>(base: &Option<Vec<T>>, overlay: &Option<Vec<T>>) -> (merged: Option<
    Vec<T>,
>)
    ensures
        match (*base, *overlay) {
            (None, None) => merged is None,
            (Some(values), None) => merged matches Some(m) && copy_of(m@, values@),
            (None, Some(values)) => merged matches Some(m) && copy_of(m@, values@),
            (Some(first), Some(second)) => merged matches Some(m) && copy_of(
                m@,
                first@ + second@,
            ),
        },
{
    match (base, overlay) {
        (None, None) => None,
        (Some(values), None) => Some(values.clone()),
        (None, Some(values)) => Some(values.clone()),
        (Some(first), Some(second)) => {
            let mut merged = first.clone();
            merged.extend_from_slice(second.as_slice());
            proof {
                let all = first@ + second@;
                assert forall|i: int| 0 <= i < all.len() implies cloned::<T>(
                    all[i],
                    #[trigger] merged@[i],
                ) by {
                    if i < first@.len() {
                        assert(cloned::<T>(first[i], merged@[i]));
                    } else {
                        assert(all[i] == second@[i - first@.len()]);
                    }
                }
            }
            Some(merged)
        },
    }
}

/// The names that stand for one language, as the configuration lists them.
#[derive(Clone, Debug, PartialEq, Eq)]
pub struct LanguageAliasSpec {
    pub canonical: String,
    pub aliases: Vec<String>,
}

/// An alias that is claimed for two languages.
#[derive(Clone, Debug, PartialEq, Eq)]
pub struct AliasConflict {
    pub alias: String,
    pub existing: String,
    pub canonical: String,
}

/// A conflict as plain values.
pub struct ConflictView {
    pub alias: Seq<char>,
    pub existing: Seq<char>,
    pub canonical: Seq<char>,
}

impl View for AliasConflict {
    type V = ConflictView;

    open spec fn view(&self) -> ConflictView {
        ConflictView { alias: self.alias@, existing: self.existing@, canonical: self.canonical@ }
    }
}

impl AliasConflict {
    /// The conflict in words: the alias and the two languages it is claimed for.
    pub fn message(&self) -> (text: String)
        ensures
            text@ == "Language alias '"@ + self.alias@ + "' conflicts: maps to '"@ + self.existing@
                + "' and '"@ + self.canonical@ + "'"@,
    {
        let mut text = "Language alias '".to_owned();
        text.append(self.alias.as_str());
        text.append("' conflicts: maps to '");
        text.append(self.existing.as_str());
        text.append("' and '");
        text.append(self.canonical.as_str());
        text.append("'");
        text
    }
}

/// An alias with the language it stands for, as plain values.
pub type AliasView = (Seq<char>, Seq<char>);

/// The aliases of `aliases`, each with the language it stands for.
pub open spec fn alias_views(aliases: Seq<LanguageAlias>) -> Seq<AliasView> {
    Seq::new(aliases.len(), |i: int| (aliases[i].alias@, aliases[i].canonical@))
}

/// The place of the first alias called `alias` at or after `from`.
pub open spec fn alias_place(held: Seq<AliasView>, alias: Seq<char>, from: int) -> Option<int>
    decreases held.len() - from,
{
    if from < 0 || from >= held.len() {
        None
    } else if held[from].0 == alias {
        Some(from)
    } else {
        alias_place(held, alias, from + 1)
    }
}

/// The flat list of aliases after `alias` has been claimed for `canonical`: the list
/// with the alias at its end, the list as it was where the alias stands for that
/// language already, or the conflict where it stands for another.
pub open spec fn with_alias(held: Seq<AliasView>, alias: Seq<char>, canonical: Seq<char>) -> Result<
    Seq<AliasView>,
    ConflictView,
> {
    match alias_place(held, alias, 0) {
        Some(at) => if held[at].1 == canonical {
            Ok(held)
        } else {
            Err(ConflictView { alias, existing: held[at].1, canonical })
        },
        None => Ok(held.push((alias, canonical))),
    }
}

/// The flat list after the first `upto` aliases of one language have been claimed.
pub open spec fn with_aliases(
    held: Seq<AliasView>,
    canonical: Seq<char>,
    aliases: Seq<String>,
    upto: int,
) -> Result<Seq<AliasView>, ConflictView>
    decreases upto,
{
    if upto <= 0 {
        Ok(held)
    } else {
        match with_aliases(held, canonical, aliases, upto - 1) {
            Ok(before) => with_alias(before, aliases[upto - 1]@, canonical),
            Err(conflict) => Err(conflict),
        }
    }
}

/// The flat list of aliases that the first `upto` entries of the configuration give,
/// or the first conflict among them.
pub open spec fn flat_aliases_upto(specs: Seq<LanguageAliasSpec>, upto: int) -> Result<
    Seq<AliasView>,
    ConflictView,
>
    decreases upto,
{
    if upto <= 0 {
        Ok(Seq::empty())
    } else {
        match flat_aliases_upto(specs, upto - 1) {
            Ok(before) => with_aliases(
                before,
                specs[upto - 1].canonical@,
                specs[upto - 1].aliases@,
                specs[upto - 1].aliases@.len() as int,
            ),
            Err(conflict) => Err(conflict),
        }
    }
}

/// Makes the flat list of aliases of the entries of a configuration, each alias with
/// the language it stands for. An alias that is claimed for two languages is an error
/// that names the alias and both languages.
pub fn flatten_aliases(specs: &[LanguageAliasSpec]) -> (flat: Result<
    Vec<LanguageAlias>,
    AliasConflict,
>)
    ensures
        match flat {
            Ok(aliases) => flat_aliases_upto(specs@, specs@.len() as int) == Ok::<
                Seq<AliasView>,
                ConflictView,
            >(alias_views(aliases@)),
            Err(conflict) => flat_aliases_upto(specs@, specs@.len() as int) == Err::<
                Seq<AliasView>,
                ConflictView,
            >(conflict@),
        },
{
    let mut flat: Vec<LanguageAlias> = Vec::new();
    let mut i: usize = 0;
    proof {
        assert(alias_views(flat@) =~= Seq::<AliasView>::empty());
    }
    while i < specs.len()
        invariant
            i <= specs.len(),
            flat_aliases_upto(specs@, i as int) == Ok::<Seq<AliasView>, ConflictView>(
                alias_views(flat@),
            ),
        decreases specs.len() - i,
    {
        let spec = &specs[i];
        let ghost start = alias_views(flat@);
        let mut j: usize = 0;
        while j < spec.aliases.len()
            invariant
                j <= spec.aliases.len(),
                i < specs.len(),
                *spec == specs@[i as int],
                flat_aliases_upto(specs@, i as int) == Ok::<Seq<AliasView>, ConflictView>(start),
                with_aliases(start, spec.canonical@, spec.aliases@, j as int) == Ok::<
                    Seq<AliasView>,
                    ConflictView,
                >(alias_views(flat@)),
            decreases spec.aliases.len() - j,
        {
            let alias = &spec.aliases[j];
            let ghost held = alias_views(flat@);
            let mut found: Option<usize> = None;
            let mut k: usize = 0;
            while k < flat.len()
                invariant_except_break
                    found is None,
                    alias_place(held, alias@, 0) == alias_place(held, alias@, k as int),
                invariant
                    k <= flat.len(),
                    held == alias_views(flat@),
                ensures
                    match found {
                        Some(at) => alias_place(held, alias@, 0) == Some(at as int) && at
                            < flat.len(),
                        None => alias_place(held, alias@, 0) is None,
                    },
                decreases flat.len() - k,
            {
                proof {
                    assert(held[k as int] == (flat@[k as int].alias@, flat@[k as int].canonical@));
                }
                if same_text(flat[k].alias.as_str(), alias.as_str()) {
                    found = Some(k);
                    break;
                }
                k += 1;
            }
            match found {
                Some(at) => {
                    proof {
                        assert(held[at as int] == (flat@[at as int].alias@, flat@[at as int].canonical@));
                    }
                    if !same_text(flat[at].canonical.as_str(), spec.canonical.as_str()) {
                        proof {
                            lemma_aliases_stay_failed(
                                start,
                                spec.canonical@,
                                spec.aliases@,
                                j as int + 1,
                                spec.aliases@.len() as int,
                            );
                            lemma_flat_stays_failed(specs@, i as int + 1, specs@.len() as int);
                        }
                        return Err(
                            AliasConflict {
                                alias: alias.clone(),
                                existing: flat[at].canonical.clone(),
                                canonical: spec.canonical.clone(),
                            },
                        );
                    }
                },
                None => {
                    flat.push(
                        LanguageAlias { alias: alias.clone(), canonical: spec.canonical.clone() },
                    );
                    proof {
                        assert(alias_views(flat@) =~= held.push((alias@, spec.canonical@)));
                    }
                },
            }
            j += 1;
        }
        i += 1;
    }
    Ok(flat)
}

proof fn lemma_aliases_stay_failed(
    held: Seq<AliasView>,
    canonical: Seq<char>,
    aliases: Seq<String>,
    from: int,
    upto: int,
)
    requires
        0 < from <= upto,
        with_aliases(held, canonical, aliases, from) is Err,
    ensures
        with_aliases(held, canonical, aliases, upto) == with_aliases(held, canonical, aliases, from),
    decreases upto - from,
{
    if from < upto {
        lemma_aliases_stay_failed(held, canonical, aliases, from, upto - 1);
    }
}

proof fn lemma_flat_stays_failed(specs: Seq<LanguageAliasSpec>, from: int, upto: int)
    requires
        0 < from <= upto,
        flat_aliases_upto(specs, from) is Err,
    ensures
        flat_aliases_upto(specs, upto) == flat_aliases_upto(specs, from),
    decreases upto - from,
{
    if from < upto {
        lemma_flat_stays_failed(specs, from, upto - 1);
    }
}

} // verus!
