//! Extraction of injected regions: from the matches of an injection query to the list
//! of regions of a document, each with its language, its span and its escape strings.
use crate::directives::escape::{escape_chars_of, escape_table, table_views};
use crate::directives::gsub::{
    apply_rules, gsub_table, gsub_table_views, rules_of, GsubRule,
};
use crate::directives::indented::{has_key, has_property, is_indented, trim_bytes, trim_bytes_of};
use crate::directives::offset::{
    apply_offset_to_range, offset_range_of, offset_table, RangeOffset,
};
use crate::directives::trim::{apply_trim, apply_trim_of, trim_table, TrimSpec};
use crate::escape::{clone_strings, string_views, union_into, union_of};
use crate::ignore::{is_ignored, is_ignored_by};
pub use crate::opts::InjectionOpts;
use crate::predicate::{same_text, PatternInfo, Predicate, Property};
use crate::range::{Point, Range};
use crate::strings::{slice_text, text_of};
use crate::text::{clamp, point_at, point_for_byte, LINE_FEED};
use std::collections::HashMap;
use vstd::prelude::*;

verus! {

/// A region of a document that is written in another language.
#[derive(Clone, Debug, PartialEq, Eq)]
pub struct InjectedRegion {
    pub range: Range,
    pub lang: String,
    pub opts: InjectionOpts,
}

/// A region as plain values.
pub struct RegionView {
    pub range: Range,
    pub lang: Seq<char>,
    pub escape_chars: Seq<Seq<char>>,
}

impl View for InjectedRegion {
    type V = RegionView;

    open spec fn view(&self) -> RegionView {
        RegionView {
            range: self.range,
            lang: self.lang@,
            escape_chars: string_views(self.opts.escape_chars@),
        }
    }
}

/// The regions of `regions`, each as plain values.
pub open spec fn region_views(regions: Seq<InjectedRegion>) -> Seq<RegionView> {
    Seq::new(regions.len(), |i: int| regions[i]@)
}

/// What one content capture gives, before the captures of a group are joined.
#[derive(Clone, Debug, PartialEq, Eq)]
pub struct InjectedRegionFragment {
    pub pattern_index: usize,
    pub lang: String,
    pub start_byte: usize,
    pub end_byte: usize,
    pub escape_chars: Vec<String>,
}

/// A fragment as plain values.
pub struct FragmentView {
    pub pattern_index: usize,
    pub lang: Seq<char>,
    pub start_byte: usize,
    pub end_byte: usize,
    pub escape_chars: Seq<Seq<char>>,
}

impl View for InjectedRegionFragment {
    type V = FragmentView;

    open spec fn view(&self) -> FragmentView {
        FragmentView {
            pattern_index: self.pattern_index,
            lang: self.lang@,
            start_byte: self.start_byte,
            end_byte: self.end_byte,
            escape_chars: string_views(self.escape_chars@),
        }
    }
}

/// The key under which fragments are joined. A single key is fresh for every fragment.
/// A combined key is shared by the fragments of one pattern, one language and one
/// container.
#[derive(Clone, Debug, PartialEq, Eq)]
pub enum GroupKey {
    Single(usize),
    Combined { pattern_index: usize, lang: String, container_start: usize, container_end: usize },
}

/// A key as plain values.
pub enum KeyView {
    Single(usize),
    Combined { pattern_index: usize, lang: Seq<char>, container_start: usize, container_end: usize },
}

impl View for GroupKey {
    type V = KeyView;

    open spec fn view(&self) -> KeyView {
        match self {
            GroupKey::Single(counter) => KeyView::Single(*counter),
            GroupKey::Combined { pattern_index, lang, container_start, container_end } => {
                KeyView::Combined {
                    pattern_index: *pattern_index,
                    lang: lang@,
                    container_start: *container_start,
                    container_end: *container_end,
                }
            },
        }
    }
}

/// The fragments joined under one key.
#[derive(Clone, Debug, PartialEq, Eq)]
pub struct Group {
    pub key: GroupKey,
    pub fragment: InjectedRegionFragment,
}

/// A group as plain values.
pub struct GroupView {
    pub key: KeyView,
    pub fragment: FragmentView,
}

impl View for Group {
    type V = GroupView;

    open spec fn view(&self) -> GroupView {
        GroupView { key: self.key@, fragment: self.fragment@ }
    }
}

/// The groups of `groups`, each as plain values.
pub open spec fn group_views(groups: Seq<Group>) -> Seq<GroupView> {
    Seq::new(groups.len(), |i: int| groups[i]@)
}

/// A node that a query has captured: the index of the capture's name in the query, the
/// span of the node, and the span of its container (its parent, or the node itself
/// where it has none).
#[derive(Clone, Copy, Debug, PartialEq, Eq, Structural)]
pub struct Capture {
    pub index: u32,
    pub range: Range,
    pub container_start: usize,
    pub container_end: usize,
}

/// One match of a query: the pattern that matched and the nodes it captured, in the
/// order of the captures.
#[derive(Clone, Debug, PartialEq, Eq)]
pub struct QueryMatch {
    pub pattern_index: usize,
    pub captures: Vec<Capture>,
}

/// The end of a document to which a line feed was appended: the length of the document
/// and the point of its end.
#[derive(Clone, Copy, Debug, PartialEq, Eq, Structural)]
pub struct EndPoint {
    pub byte: usize,
    pub point: Point,
}

/// The four tables of directives of one pattern, by capture.
pub struct DirectiveTables {
    pub offsets: HashMap<u32, RangeOffset>,
    pub escapes: HashMap<u32, Vec<String>>,
    pub gsubs: HashMap<u32, Vec<GsubRule>>,
    pub trims: HashMap<u32, TrimSpec>,
}

impl DirectiveTables {
    /// The tables hold what `predicates` install.
    pub open spec fn of_predicates(&self, predicates: Seq<Predicate>) -> bool {
        &&& self.offsets@ == offset_table(predicates)
        &&& table_views(self.escapes@) == escape_table(predicates)
        &&& gsub_table_views(self.gsubs@) == gsub_table(predicates)
        &&& self.trims@ == trim_table(predicates)
    }

    /// Reads the four tables of directives from the predicates of a pattern.
    pub fn collect(predicates: &[Predicate]) -> (tables: DirectiveTables)
        ensures
            tables.of_predicates(predicates@),
    {
        DirectiveTables {
            offsets: crate::directives::offset::collect(predicates),
            escapes: crate::directives::escape::collect(predicates),
            gsubs: crate::directives::gsub::collect(predicates),
            trims: crate::directives::trim::collect(predicates),
        }
    }
}

/// The key of the property that names the language of a pattern's regions.
pub open spec fn language_key() -> Seq<char> {
    "injection.language"@
}

/// The key of the property that joins the fragments of a container.
pub open spec fn combined_key() -> Seq<char> {
    "injection.combined"@
}

/// The value of the first property at or after `from` that has the key
/// `injection.language`; nothing where there is no such property or it has no value.
pub open spec fn language_property_from(properties: Seq<Property>, from: int) -> Option<Seq<char>>
    decreases properties.len() - from,
{
    if from < 0 || from >= properties.len() {
        None
    } else if properties[from].key@ == language_key() {
        match properties[from].value {
            Some(value) => Some(value@),
            None => None,
        }
    } else {
        language_property_from(properties, from + 1)
    }
}

/// The language that a pattern names for its regions.
pub open spec fn language_property(properties: Seq<Property>) -> Option<Seq<char>> {
    language_property_from(properties, 0)
}

/// The language that a pattern names for its regions by the property
/// `injection.language`.
pub fn get_lang_name(properties: &[Property]) -> (name: Option<String>)
    ensures
        match name {
            Some(n) => language_property(properties@) == Some(n@),
            None => language_property(properties@) is None,
        },
{
    let mut i: usize = 0;
    while i < properties.len()
        invariant
            i <= properties.len(),
            language_property(properties@) == language_property_from(properties@, i as int),
        decreases properties.len() - i,
    {
        if same_text(properties[i].key.as_str(), "injection.language") {
            return match &properties[i].value {
                Some(value) => Some(value.clone()),
                None => None,
            };
        }
        i += 1;
    }
    None
}

/// `source` with a line feed at its end, and the end of `source` where the line feed
/// had to be appended.
pub open spec fn with_newline_of(source: Seq<u8>) -> (Seq<u8>, Option<EndPoint>) {
    if source.len() > 0 && source.last() == LINE_FEED {
        (source, None)
    } else {
        (
            source.push(LINE_FEED),
            Some(
                EndPoint {
                    byte: source.len() as usize,
                    point: point_at(source, source.len() as int),
                },
            ),
        )
    }
}

/// A copy of `source` that ends in a line feed. Where one had to be appended, the end
/// of `source` comes back with it.
pub fn with_newline(source: &[u8]) -> (out: (Vec<u8>, Option<EndPoint>))
    ensures
        (out.0@, out.1) == with_newline_of(source@),
{
    let mut copy: Vec<u8> = Vec::new();
    copy.extend_from_slice(source);
    if source.len() > 0 && source[source.len() - 1] == LINE_FEED {
        proof {
            assert(copy@ =~= source@);
        }
        (copy, None)
    } else {
        copy.push(LINE_FEED);
        let point = point_for_byte(source, source.len());
        proof {
            assert(copy@ =~= source@.push(LINE_FEED));
        }
        (copy, Some(EndPoint { byte: source.len(), point }))
    }
}

/// `range` as it reads in the document without the appended line feed: a range that
/// reaches the end of the document, or beyond it, ends at that end.
pub open spec fn remap_of(range: Range, endpoint: Option<EndPoint>) -> Range {
    match endpoint {
        Some(end) => if range.end_byte < end.byte {
            range
        } else {
            Range {
                start_byte: range.start_byte,
                start_point: range.start_point,
                end_byte: end.byte,
                end_point: end.point,
            }
        },
        None => range,
    }
}

/// Brings a range of the document with appended line feed back to the document as it
/// was: its end is clamped to the end of the document.
pub fn remap_range_for_appended_newline(range: Range, endpoint: &Option<EndPoint>) -> (out:
    Range)
    ensures
        out == remap_of(range, *endpoint),
{
    match endpoint {
        Some(end) => {
            if range.end_byte < end.byte {
                range
            } else {
                Range {
                    start_byte: range.start_byte,
                    start_point: range.start_point,
                    end_byte: end.byte,
                    end_point: end.point,
                }
            }
        },
        None => range,
    }
}

/// The span that a content capture gives: the span of its node, moved by the pattern's
/// `offset!` for the capture and then narrowed by its `trim!`. An offset that cannot be
/// applied, or that would put the start behind the end, leaves the span of the node. A
/// node whose span does not lie in the document gives nothing.
pub open spec fn candidate_span_of(
    source: Seq<u8>,
    offsets: Map<u32, RangeOffset>,
    trims: Map<u32, TrimSpec>,
    capture: Capture,
) -> Option<(usize, usize)> {
    if !capture.range.fits(source.len() as int) {
        None
    } else {
        let moved = if offsets.dom().contains(capture.index) {
            match offset_range_of(source, capture.range, offsets[capture.index]) {
                Some(range) => if range.fits(source.len() as int) {
                    range
                } else {
                    capture.range
                },
                None => capture.range,
            }
        } else {
            capture.range
        };
        if trims.dom().contains(capture.index) {
            let trimmed = apply_trim_of(
                source,
                moved.start_byte as int,
                moved.end_byte as int,
                trims[capture.index],
            );
            Some((trimmed.0 as usize, trimmed.1 as usize))
        } else {
            Some((moved.start_byte, moved.end_byte))
        }
    }
}

/// Computes the span that a content capture gives.
pub fn candidate_span(source: &[u8], tables: &DirectiveTables, capture: &Capture) -> (span: Option<
    (usize, usize),
>)
    ensures
        span == candidate_span_of(source@, tables.offsets@, tables.trims@, *capture),
        span matches Some((start, end)) ==> start <= end <= source.len(),
{
    if !(capture.range.start_byte <= capture.range.end_byte && capture.range.end_byte
        <= source.len()) {
        return None;
    }
    let moved = match tables.offsets.get(&capture.index) {
        Some(offset) => match apply_offset_to_range(source, &capture.range, offset) {
            Some(range) => if range.start_byte <= range.end_byte {
                range
            } else {
                capture.range
            },
            None => capture.range,
        },
        None => capture.range,
    };
    match tables.trims.get(&capture.index) {
        Some(spec) => Some(apply_trim(source, moved.start_byte, moved.end_byte, *spec)),
        None => Some((moved.start_byte, moved.end_byte)),
    }
}

/// The place of the last capture among the first `upto` that bears the name
/// `language_index`.
pub open spec fn language_capture_upto(
    captures: Seq<Capture>,
    language_index: Option<u32>,
    upto: int,
) -> Option<int>
    decreases upto,
{
    if upto <= 0 {
        None
    } else if language_index == Some(captures[upto - 1].index) {
        Some(upto - 1)
    } else {
        language_capture_upto(captures, language_index, upto - 1)
    }
}

/// The language of a match. The language that the pattern names by property comes
/// first. Else it is the text of the capture that names the language, rewritten by the
/// `gsub!` rules for that capture. A match with neither, or whose language capture does
/// not hold valid UTF-8, has no language.
pub open spec fn match_language_of(
    source: Seq<u8>,
    pattern: PatternInfo,
    captures: Seq<Capture>,
    language_index: Option<u32>,
) -> Option<Seq<char>> {
    match language_property(pattern.properties@) {
        Some(name) => Some(name),
        None => match language_capture_upto(captures, language_index, captures.len() as int) {
            Some(at) => match text_of(source, captures[at].range) {
                Some(text) => Some(
                    apply_rules(text, rules_of(gsub_table(pattern.predicates@), captures[at].index)),
                ),
                None => None,
            },
            None => None,
        },
    }
}

/// Finds the language of a match.
fn match_language(
    source: &[u8],
    pattern: &PatternInfo,
    tables: &DirectiveTables,
    captures: &[Capture],
    language_index: Option<u32>,
) -> (lang: Option<String>)
    requires
        tables.of_predicates(pattern.predicates@),
    ensures
        match lang {
            Some(name) => match_language_of(source@, *pattern, captures@, language_index) == Some(
                name@,
            ),
            None => match_language_of(source@, *pattern, captures@, language_index) is None,
        },
{
    match get_lang_name(pattern.properties.as_slice()) {
        Some(name) => {
            return Some(name);
        },
        None => {},
    }
    let mut found: Option<usize> = None;
    let mut i: usize = 0;
    while i < captures.len()
        invariant
            i <= captures.len(),
            match found {
                Some(at) => language_capture_upto(captures@, language_index, i as int) == Some(
                    at as int,
                ) && at < captures.len(),
                None => language_capture_upto(captures@, language_index, i as int) is None,
            },
        decreases captures.len() - i,
    {
        if crate::ignore::is_index(language_index, captures[i].index) {
            found = Some(i);
        }
        i += 1;
    }
    match found {
        Some(at) => match slice_text(source, &captures[at].range) {
            Some(text) => Some(
                crate::directives::gsub::apply_gsub(&tables.gsubs, captures[at].index, text.as_str()),
            ),
            None => None,
        },
        None => None,
    }
}

/// Two fragments joined: the first with its span widened to hold the second and its
/// escape strings joined by those of the second.
pub open spec fn merged(held: FragmentView, added: FragmentView) -> FragmentView {
    FragmentView {
        pattern_index: held.pattern_index,
        lang: held.lang,
        start_byte: if added.start_byte < held.start_byte {
            added.start_byte
        } else {
            held.start_byte
        },
        end_byte: if added.end_byte > held.end_byte {
            added.end_byte
        } else {
            held.end_byte
        },
        escape_chars: union_of(held.escape_chars, added.escape_chars),
    }
}

/// The place of the first group at or after `from` that has the key `key`.
pub open spec fn find_group_from(groups: Seq<GroupView>, key: KeyView, from: int) -> Option<int>
    decreases groups.len() - from,
{
    if from < 0 || from >= groups.len() {
        None
    } else if groups[from].key == key {
        Some(from)
    } else {
        find_group_from(groups, key, from + 1)
    }
}

/// `groups` after a fragment has come in under `key`. Under a combined key that a group
/// has already, the fragment joins that group. Else it opens a group of its own at the
/// end of the list.
pub open spec fn upsert_of(groups: Seq<GroupView>, key: KeyView, fragment: FragmentView) -> Seq<
    GroupView,
> {
    match key {
        KeyView::Single(_) => groups.push(GroupView { key, fragment }),
        KeyView::Combined { .. } => match find_group_from(groups, key, 0) {
            Some(at) => if 0 <= at < groups.len() {
                groups.update(at, GroupView { key, fragment: merged(groups[at].fragment, fragment) })
            } else {
                groups
            },
            None => groups.push(GroupView { key, fragment }),
        },
    }
}

/// Tells whether two keys are the same combined key.
fn same_combined_key(held: &GroupKey, key: &GroupKey) -> (same: bool)
    requires
        key is Combined,
    ensures
        same == (held@ == key@),
{
    match (held, key) {
        (
            GroupKey::Combined {
                pattern_index: held_pattern,
                lang: held_lang,
                container_start: held_start,
                container_end: held_end,
            },
            GroupKey::Combined { pattern_index, lang, container_start, container_end },
        ) => *held_pattern == *pattern_index && *held_start == *container_start && *held_end
            == *container_end && same_text(held_lang.as_str(), lang.as_str()),
        _ => false,
    }
}

/// Every fragment of `groups` has its bytes in order and inside a document of `len`
/// bytes.
pub open spec fn groups_fit(groups: Seq<GroupView>, len: int) -> bool {
    forall|i: int|
        0 <= i < groups.len() ==> (#[trigger] groups[i]).fragment.start_byte
            <= groups[i].fragment.end_byte <= len
}

/// Takes a fragment into the list of groups: joins it to the group of its combined key,
/// or opens a new group at the end.
pub fn upsert(groups: &mut Vec<Group>, key: GroupKey, fragment: InjectedRegionFragment)
    ensures
        group_views(final(groups)@) == upsert_of(group_views(old(groups)@), key@, fragment@),
        forall|len: int|
            groups_fit(group_views(old(groups)@), len) && fragment.start_byte <= fragment.end_byte
                <= len ==> groups_fit(#[trigger] group_views(final(groups)@), len),
{
    let ghost before = group_views(groups@);
    let mut found: Option<usize> = None;
    match &key {
        GroupKey::Combined { .. } => {
            let mut i: usize = 0;
            while i < groups.len()
                invariant_except_break
                    found is None,
                    find_group_from(before, key@, 0) == find_group_from(before, key@, i as int),
                invariant
                    i <= groups.len(),
                    key is Combined,
                    groups@ == old(groups)@,
                    before == group_views(groups@),
                ensures
                    match found {
                        Some(at) => find_group_from(before, key@, 0) == Some(at as int) && at
                            < groups.len(),
                        None => find_group_from(before, key@, 0) is None,
                    },
                    groups@ == old(groups)@,
                decreases groups.len() - i,
            {
                proof {
                    assert(before[i as int] == groups@[i as int]@);
                }
                if same_combined_key(&groups[i].key, &key) {
                    found = Some(i);
                    break;
                }
                i += 1;
            }
        },
        GroupKey::Single(_) => {},
    }
    match found {
        Some(at) => {
            let mut group = groups.remove(at);
            let ghost held = group@;
            proof {
                assert(before[at as int] == held);
            }
            if fragment.start_byte < group.fragment.start_byte {
                group.fragment.start_byte = fragment.start_byte;
            }
            if fragment.end_byte > group.fragment.end_byte {
                group.fragment.end_byte = fragment.end_byte;
            }
            union_into(&mut group.fragment.escape_chars, fragment.escape_chars.as_slice());
            group.key = key;
            proof {
                assert(group@ == GroupView {
                    key: key@,
                    fragment: merged(held.fragment, fragment@),
                });
            }
            groups.insert(at, group);
            proof {
                assert(group_views(groups@) =~= before.update(at as int, group@));
                assert forall|len: int|
                    groups_fit(before, len) && fragment.start_byte <= fragment.end_byte
                        <= len implies groups_fit(#[trigger] group_views(groups@), len) by {
                    let after = group_views(groups@);
                    assert forall|i: int| 0 <= i < after.len() implies (#[trigger] after[i]).fragment.start_byte
                        <= after[i].fragment.end_byte <= len by {
                        if i != at {
                            assert(after[i] == before[i]);
                        } else {
                            assert(before[at as int].fragment.start_byte
                                <= before[at as int].fragment.end_byte <= len);
                        }
                    }
                }
            }
        },
        None => {
            let group = Group { key, fragment };
            groups.push(group);
            proof {
                assert(group_views(groups@) =~= before.push(group@));
                assert forall|len: int|
                    groups_fit(before, len) && fragment.start_byte <= fragment.end_byte
                        <= len implies groups_fit(#[trigger] group_views(groups@), len) by {
                    let after = group_views(groups@);
                    assert forall|i: int| 0 <= i < after.len() implies (#[trigger] after[i]).fragment.start_byte
                        <= after[i].fragment.end_byte <= len by {
                        if i < before.len() {
                            assert(after[i] == before[i]);
                        }
                    }
                }
            }
        },
    }
}

/// The key of a fragment: combined where the pattern sets `injection.combined`, by the
/// pattern, the language and the container of the capture; else single, by the number
/// of groups held so far.
pub open spec fn key_of(
    pattern: PatternInfo,
    pattern_index: usize,
    lang: Seq<char>,
    capture: Capture,
    counter: nat,
) -> KeyView {
    if has_key(pattern.properties@, combined_key()) {
        KeyView::Combined {
            pattern_index,
            lang,
            container_start: capture.container_start,
            container_end: capture.container_end,
        }
    } else {
        KeyView::Single(counter as usize)
    }
}

/// `groups` after the first `upto` captures of a match have been taken in: each capture
/// that bears the name `content_index` and gives a span comes in as a fragment, with
/// the escape strings that the pattern's `escape!` names for the capture.
pub open spec fn groups_with_captures(
    source: Seq<u8>,
    pattern: PatternInfo,
    pattern_index: usize,
    lang: Seq<char>,
    content_index: u32,
    captures: Seq<Capture>,
    groups: Seq<GroupView>,
    upto: int,
) -> Seq<GroupView>
    decreases upto,
{
    if upto <= 0 {
        groups
    } else {
        let before = groups_with_captures(
            source,
            pattern,
            pattern_index,
            lang,
            content_index,
            captures,
            groups,
            upto - 1,
        );
        let capture = captures[upto - 1];
        if capture.index == content_index {
            match candidate_span_of(
                source,
                offset_table(pattern.predicates@),
                trim_table(pattern.predicates@),
                capture,
            ) {
                Some((start_byte, end_byte)) => upsert_of(
                    before,
                    key_of(pattern, pattern_index, lang, capture, before.len()),
                    FragmentView {
                        pattern_index,
                        lang,
                        start_byte,
                        end_byte,
                        escape_chars: escape_chars_of(
                            escape_table(pattern.predicates@),
                            capture.index,
                        ),
                    },
                ),
                None => before,
            }
        } else {
            before
        }
    }
}

/// `groups` after one match has been taken in. A match of a pattern that the list of
/// patterns lacks, or without a language, leaves the groups as they are.
pub open spec fn groups_with_match(
    source: Seq<u8>,
    patterns: Seq<PatternInfo>,
    content_index: u32,
    language_index: Option<u32>,
    found: QueryMatch,
    groups: Seq<GroupView>,
) -> Seq<GroupView> {
    if found.pattern_index >= patterns.len() {
        groups
    } else {
        let pattern = patterns[found.pattern_index as int];
        match match_language_of(source, pattern, found.captures@, language_index) {
            Some(lang) => groups_with_captures(
                source,
                pattern,
                found.pattern_index,
                lang,
                content_index,
                found.captures@,
                groups,
                found.captures@.len() as int,
            ),
            None => groups,
        }
    }
}

/// The groups that the first `upto` matches give, in the order in which they were
/// opened.
pub open spec fn groups_upto(
    source: Seq<u8>,
    patterns: Seq<PatternInfo>,
    content_index: u32,
    language_index: Option<u32>,
    matches: Seq<QueryMatch>,
    upto: int,
) -> Seq<GroupView>
    decreases upto,
{
    if upto <= 0 {
        Seq::empty()
    } else {
        groups_with_match(
            source,
            patterns,
            content_index,
            language_index,
            matches[upto - 1],
            groups_upto(source, patterns, content_index, language_index, matches, upto - 1),
        )
    }
}

/// Whether the regions of the pattern `pattern_index` are indented regions.
pub open spec fn pattern_indented(patterns: Seq<PatternInfo>, pattern_index: usize) -> bool {
    pattern_index < patterns.len() && has_key(
        patterns[pattern_index as int].properties@,
        crate::directives::indented::indented_key(),
    )
}

/// The span of a fragment as a region has it: narrowed as an indented region where its
/// pattern says so.
pub open spec fn region_span_of(source: Seq<u8>, indented: bool, fragment: FragmentView) -> (
    int,
    int,
) {
    if indented {
        trim_bytes_of(source, fragment.start_byte as int, fragment.end_byte as int)
    } else {
        (fragment.start_byte as int, fragment.end_byte as int)
    }
}

/// The range over `[start, end)` with the points of its two ends.
pub open spec fn range_over(source: Seq<u8>, start: int, end: int) -> Range {
    Range {
        start_byte: start as usize,
        end_byte: end as usize,
        start_point: point_at(source, clamp(start, source.len() as int)),
        end_point: point_at(source, clamp(end, source.len() as int)),
    }
}

/// The region of a fragment before any line feed that was appended is taken out.
pub open spec fn candidate_region_of(
    source: Seq<u8>,
    patterns: Seq<PatternInfo>,
    fragment: FragmentView,
) -> RegionView {
    let span = region_span_of(source, pattern_indented(patterns, fragment.pattern_index), fragment);
    RegionView {
        range: range_over(source, span.0, span.1),
        lang: fragment.lang,
        escape_chars: fragment.escape_chars,
    }
}

/// The region of a fragment: its span with the points of its ends, brought back to the
/// document as it was before a line feed was appended.
pub open spec fn region_of(
    source: Seq<u8>,
    endpoint: Option<EndPoint>,
    patterns: Seq<PatternInfo>,
    fragment: FragmentView,
) -> RegionView {
    let candidate = candidate_region_of(source, patterns, fragment);
    RegionView {
        range: remap_of(candidate.range, endpoint),
        lang: candidate.lang,
        escape_chars: candidate.escape_chars,
    }
}

/// Whether a region is reported: it begins no later than it ends, and it lies inside no
/// ignored range.
pub open spec fn is_reported(region: RegionView, ignored: Seq<Range>) -> bool {
    region.range.start_byte <= region.range.end_byte && !is_ignored_by(region.range, ignored)
}

/// The regions of the first `upto` groups, in their order, without those that are not
/// reported.
pub open spec fn regions_upto(
    source: Seq<u8>,
    endpoint: Option<EndPoint>,
    patterns: Seq<PatternInfo>,
    ignored: Seq<Range>,
    groups: Seq<GroupView>,
    upto: int,
) -> Seq<RegionView>
    decreases upto,
{
    if upto <= 0 {
        Seq::empty()
    } else {
        let before = regions_upto(source, endpoint, patterns, ignored, groups, upto - 1);
        let region = region_of(source, endpoint, patterns, groups[upto - 1].fragment);
        if is_reported(region, ignored) {
            before.push(region)
        } else {
            before
        }
    }
}

/// The regions of a document, from the matches of its injection query.
///
/// `source` is the document with a line feed at its end, `endpoint` the end of the
/// document where that line feed was appended, `patterns` the patterns of the query,
/// `content_index` and `language_index` the indexes of the capture names
/// `injection.content` and `injection.language`, `matches` the matches in the order
/// found, and `ignored` the ignored ranges.
pub open spec fn extract_of(
    source: Seq<u8>,
    endpoint: Option<EndPoint>,
    patterns: Seq<PatternInfo>,
    content_index: u32,
    language_index: Option<u32>,
    matches: Seq<QueryMatch>,
    ignored: Seq<Range>,
) -> Seq<RegionView> {
    let groups = groups_upto(
        source,
        patterns,
        content_index,
        language_index,
        matches,
        matches.len() as int,
    );
    regions_upto(source, endpoint, patterns, ignored, groups, groups.len() as int)
}

/// Takes the content captures of one match into the groups.
fn take_captures(
    source: &[u8],
    pattern: &PatternInfo,
    tables: &DirectiveTables,
    pattern_index: usize,
    lang: &String,
    content_index: u32,
    captures: &[Capture],
    groups: &mut Vec<Group>,
)
    requires
        tables.of_predicates(pattern.predicates@),
        groups_fit(group_views(old(groups)@), source.len() as int),
    ensures
        group_views(final(groups)@) == groups_with_captures(
            source@,
            *pattern,
            pattern_index,
            lang@,
            content_index,
            captures@,
            group_views(old(groups)@),
            captures@.len() as int,
        ),
        groups_fit(group_views(final(groups)@), source.len() as int),
{
    let combined = has_property(pattern.properties.as_slice(), "injection.combined");
    let mut i: usize = 0;
    while i < captures.len()
        invariant
            i <= captures.len(),
            tables.of_predicates(pattern.predicates@),
            combined == has_key(pattern.properties@, combined_key()),
            groups_fit(group_views(groups@), source.len() as int),
            group_views(groups@) == groups_with_captures(
                source@,
                *pattern,
                pattern_index,
                lang@,
                content_index,
                captures@,
                group_views(old(groups)@),
                i as int,
            ),
        decreases captures.len() - i,
    {
        let capture = &captures[i];
        if capture.index == content_index {
            match candidate_span(source, tables, capture) {
                Some((start_byte, end_byte)) => {
                    let key = if combined {
                        GroupKey::Combined {
                            pattern_index,
                            lang: lang.clone(),
                            container_start: capture.container_start,
                            container_end: capture.container_end,
                        }
                    } else {
                        GroupKey::Single(groups.len())
                    };
                    let fragment = InjectedRegionFragment {
                        pattern_index,
                        lang: lang.clone(),
                        start_byte,
                        end_byte,
                        escape_chars: crate::directives::escape::escape_chars(
                            &tables.escapes,
                            capture.index,
                        ),
                    };
                    upsert(groups, key, fragment);
                },
                None => {},
            }
        }
        i += 1;
    }
}

/// The groups that the matches of an injection query give.
pub fn collect_groups(
    source: &[u8],
    patterns: &[PatternInfo],
    content_index: u32,
    language_index: Option<u32>,
    matches: &[QueryMatch],
) -> (groups: Vec<Group>)
    ensures
        group_views(groups@) == groups_upto(
            source@,
            patterns@,
            content_index,
            language_index,
            matches@,
            matches@.len() as int,
        ),
        groups_fit(group_views(groups@), source.len() as int),
{
    let mut tables: Vec<DirectiveTables> = Vec::new();
    let mut p: usize = 0;
    while p < patterns.len()
        invariant
            p <= patterns.len(),
            tables.len() == p,
            forall|k: int|
                0 <= k < p ==> (#[trigger] tables@[k]).of_predicates(patterns@[k].predicates@),
        decreases patterns.len() - p,
    {
        tables.push(DirectiveTables::collect(patterns[p].predicates.as_slice()));
        p += 1;
    }
    let mut groups: Vec<Group> = Vec::new();
    let mut i: usize = 0;
    proof {
        assert(group_views(groups@) =~= Seq::<GroupView>::empty());
    }
    while i < matches.len()
        invariant
            i <= matches.len(),
            tables.len() == patterns.len(),
            forall|k: int|
                0 <= k < patterns.len() ==> (#[trigger] tables@[k]).of_predicates(
                    patterns@[k].predicates@,
                ),
            groups_fit(group_views(groups@), source.len() as int),
            group_views(groups@) == groups_upto(
                source@,
                patterns@,
                content_index,
                language_index,
                matches@,
                i as int,
            ),
        decreases matches.len() - i,
    {
        let found = &matches[i];
        if found.pattern_index < patterns.len() {
            let pattern = &patterns[found.pattern_index];
            let pattern_tables = &tables[found.pattern_index];
            match match_language(
                source,
                pattern,
                pattern_tables,
                found.captures.as_slice(),
                language_index,
            ) {
                Some(lang) => {
                    take_captures(
                        source,
                        pattern,
                        pattern_tables,
                        found.pattern_index,
                        &lang,
                        content_index,
                        found.captures.as_slice(),
                        &mut groups,
                    );
                },
                None => {},
            }
        }
        i += 1;
    }
    groups
}

/// The end that came with the document is the end of a document of which `source` is
/// the continuation: it lies in `source` and its point is the point of its byte.
pub open spec fn endpoint_fits(source: Seq<u8>, endpoint: Option<EndPoint>) -> bool {
    match endpoint {
        Some(end) => end.byte <= source.len() && end.point == point_at(source, end.byte as int),
        None => true,
    }
}

/// Makes the region of a fragment.
pub fn finalize_region(
    source: &[u8],
    endpoint: &Option<EndPoint>,
    patterns: &[PatternInfo],
    fragment: &InjectedRegionFragment,
) -> (region: InjectedRegion)
    ensures
        region@ == region_of(source@, *endpoint, patterns@, fragment@),
        fragment.start_byte <= fragment.end_byte <= source.len() ==> region.range.end_byte
            <= source.len(),
        endpoint matches Some(end) ==> region.range.end_byte <= end.byte,
        fragment.start_byte <= fragment.end_byte <= source.len() && endpoint_fits(
            source@,
            *endpoint,
        ) && region.range.start_byte <= region.range.end_byte
            ==> region.range.start_point.le(region.range.end_point),
{
    let indented = fragment.pattern_index < patterns.len() && is_indented(
        patterns[fragment.pattern_index].properties.as_slice(),
    );
    let span = if indented {
        trim_bytes(source, fragment.start_byte, fragment.end_byte)
    } else {
        (fragment.start_byte, fragment.end_byte)
    };
    let range = Range {
        start_byte: span.0,
        end_byte: span.1,
        start_point: point_for_byte(source, span.0),
        end_point: point_for_byte(source, span.1),
    };
    proof {
        if fragment.start_byte <= fragment.end_byte <= source.len() {
            crate::text::lemma_point_at_monotone(source@, span.0 as int, span.1 as int);
            match *endpoint {
                Some(end) => {
                    if end.byte <= source.len() && span.0 <= end.byte {
                        crate::text::lemma_point_at_monotone(
                            source@,
                            span.0 as int,
                            end.byte as int,
                        );
                    }
                },
                None => {},
            }
        }
    }
    InjectedRegion {
        range: remap_range_for_appended_newline(range, endpoint),
        lang: fragment.lang.clone(),
        opts: InjectionOpts { escape_chars: clone_strings(fragment.escape_chars.as_slice()) },
    }
}

/// The regions of a document, from the matches of its injection query.
///
/// Each match of a known pattern that has a language gives one fragment for each of
/// its content captures. Fragments under one combined key are joined. Each group then
/// becomes a region, in the order in which the groups were opened; a region that lies
/// inside an ignored range is dropped, and so is one that begins behind the end of the
/// document as it was before a line feed was appended.
pub fn extract_regions(
    source: &[u8],
    endpoint: &Option<EndPoint>,
    patterns: &[PatternInfo],
    content_index: u32,
    language_index: Option<u32>,
    matches: &[QueryMatch],
    ignored: &[Range],
) -> (regions: Vec<InjectedRegion>)
    ensures
        region_views(regions@) == extract_of(
            source@,
            *endpoint,
            patterns@,
            content_index,
            language_index,
            matches@,
            ignored@,
        ),
        forall|i: int|
            0 <= i < regions.len() ==> !is_ignored_by((#[trigger] regions@[i]).range, ignored@),
        forall|i: int|
            0 <= i < regions.len() ==> (#[trigger] regions@[i]).range.start_byte
                <= regions@[i].range.end_byte <= source.len(),
        endpoint matches Some(end) ==> forall|i: int|
            0 <= i < regions.len() ==> (#[trigger] regions@[i]).range.end_byte <= end.byte,
        endpoint_fits(source@, *endpoint) ==> forall|i: int|
            0 <= i < regions.len() ==> (#[trigger] regions@[i]).range.well_formed(
                source.len() as int,
            ),
{
    let groups = collect_groups(source, patterns, content_index, language_index, matches);
    let ghost views = group_views(groups@);
    let mut regions: Vec<InjectedRegion> = Vec::new();
    let mut i: usize = 0;
    proof {
        assert(region_views(regions@) =~= Seq::<RegionView>::empty());
    }
    while i < groups.len()
        invariant
            i <= groups.len(),
            views == group_views(groups@),
            groups_fit(views, source.len() as int),
            region_views(regions@) == regions_upto(
                source@,
                *endpoint,
                patterns@,
                ignored@,
                views,
                i as int,
            ),
            forall|k: int|
                0 <= k < regions.len() ==> !is_ignored_by((#[trigger] regions@[k]).range, ignored@),
            forall|k: int|
                0 <= k < regions.len() ==> (#[trigger] regions@[k]).range.start_byte
                    <= regions@[k].range.end_byte <= source.len(),
            endpoint matches Some(end) ==> forall|k: int|
                0 <= k < regions.len() ==> (#[trigger] regions@[k]).range.end_byte <= end.byte,
            endpoint_fits(source@, *endpoint) ==> forall|k: int|
                0 <= k < regions.len() ==> (#[trigger] regions@[k]).range.well_formed(
                    source.len() as int,
                ),
        decreases groups.len() - i,
    {
        let region = finalize_region(source, endpoint, patterns, &groups[i].fragment);
        let ghost before = region_views(regions@);
        proof {
            assert(views[i as int] == groups@[i as int]@);
            assert(views[i as int].fragment.start_byte <= views[i as int].fragment.end_byte
                <= source.len());
        }
        if region.range.start_byte <= region.range.end_byte && !is_ignored(
            &region.range,
            ignored,
        ) {
            regions.push(region);
            proof {
                assert(region_views(regions@) =~= before.push(region@));
            }
        }
        i += 1;
    }
    regions
}

} // verus!

verus! {

/// A key that no group has is not found after a group with another key has come.
proof fn lemma_find_in_pushed(groups: Seq<GroupView>, key: KeyView, last: GroupView, from: int)
    requires
        0 <= from <= groups.len(),
        find_group_from(groups, key, from) is None,
    ensures
        find_group_from(groups.push(last), key, from) == if last.key == key {
            Some(groups.len() as int)
        } else {
            None
        },
    decreases groups.len() - from,
{
    let pushed = groups.push(last);
    if from < groups.len() {
        assert(pushed[from] == groups[from]);
        lemma_find_in_pushed(groups, key, last, from + 1);
    } else {
        assert(pushed[from] == last);
        assert(find_group_from(pushed, key, from + 1) is None);
    }
}

/// Combined fragments are joined. Two fragments that come in under one combined key,
/// which no group had before, give exactly one new group: the groups before it stay as
/// they were, its span runs from the smaller start to the larger end, and its escape
/// strings are those of the one fragment or the other.
pub proof fn combined_fragments_join(
    groups: Seq<GroupView>,
    key: KeyView,
    first: FragmentView,
    second: FragmentView,
)
    requires
        key is Combined,
        find_group_from(groups, key, 0) is None,
    ensures
        ({
            let joined = upsert_of(upsert_of(groups, key, first), key, second);
            &&& joined.len() == groups.len() + 1
            &&& joined.take(groups.len() as int) == groups
            &&& joined.last().key == key
            &&& joined.last().fragment.start_byte == if second.start_byte < first.start_byte {
                second.start_byte
            } else {
                first.start_byte
            }
            &&& joined.last().fragment.end_byte == if second.end_byte > first.end_byte {
                second.end_byte
            } else {
                first.end_byte
            }
            &&& forall|s: Seq<char>|
                joined.last().fragment.escape_chars.contains(s) <==> first.escape_chars.contains(s)
                    || second.escape_chars.contains(s)
        }),
{
    let opened = GroupView { key, fragment: first };
    let once = upsert_of(groups, key, first);
    assert(once == groups.push(opened));
    lemma_find_in_pushed(groups, key, opened, 0);
    let joined = upsert_of(once, key, second);
    assert(joined == once.update(groups.len() as int, GroupView { key, fragment: merged(first, second) }));
    assert(joined.take(groups.len() as int) =~= groups);
    assert forall|s: Seq<char>|
        joined.last().fragment.escape_chars.contains(s) <==> first.escape_chars.contains(s)
            || second.escape_chars.contains(s) by {
        crate::escape::lemma_union_holds(
            first.escape_chars,
            second.escape_chars,
            second.escape_chars.len() as int,
            s,
        );
        assert(second.escape_chars.take(second.escape_chars.len() as int) == second.escape_chars);
    }
}

/// No two groups bear the same combined key.
pub open spec fn combined_keys_differ(groups: Seq<GroupView>) -> bool {
    forall|i: int, j: int|
        0 <= i < j < groups.len() && (#[trigger] groups[i]).key is Combined ==> groups[i].key != (
        #[trigger] groups[j]).key
}

/// The group `held` holds the fragment `fragment`: its span reaches from no later than
/// the start of the fragment to no earlier than its end, and its escape strings hold
/// those of the fragment.
pub open spec fn holds_fragment(held: FragmentView, fragment: FragmentView) -> bool {
    &&& held.start_byte <= fragment.start_byte
    &&& fragment.end_byte <= held.end_byte
    &&& forall|s: Seq<char>| fragment.escape_chars.contains(s) ==> held.escape_chars.contains(s)
}

/// The groups `after` are the groups `before` grown: each group of `before` stands at
/// its place with its key, its pattern and its language, and holds what it held.
pub open spec fn grown(before: Seq<GroupView>, after: Seq<GroupView>) -> bool {
    &&& before.len() <= after.len()
    &&& forall|i: int|
        0 <= i < before.len() ==> {
            &&& (#[trigger] after[i]).key == before[i].key
            &&& after[i].fragment.pattern_index == before[i].fragment.pattern_index
            &&& after[i].fragment.lang == before[i].fragment.lang
            &&& holds_fragment(after[i].fragment, before[i].fragment)
        }
}

/// What `find_group_from` finds: the first place at or after `from` with the key, and
/// nothing exactly where no group from there on has it.
proof fn lemma_find_group(groups: Seq<GroupView>, key: KeyView, from: int)
    requires
        0 <= from,
    ensures
        match find_group_from(groups, key, from) {
            Some(at) => from <= at < groups.len() && groups[at].key == key,
            None => forall|i: int| from <= i < groups.len() ==> (#[trigger] groups[i]).key != key,
        },
    decreases groups.len() - from,
{
    if from < groups.len() && groups[from].key != key {
        lemma_find_group(groups, key, from + 1);
    }
}

/// Joining holds both: the joined fragment holds the one that was held and the one that
/// was added.
proof fn lemma_merged_holds(held: FragmentView, added: FragmentView)
    ensures
        holds_fragment(merged(held, added), held),
        holds_fragment(merged(held, added), added),
{
    assert forall|s: Seq<char>|
        held.escape_chars.contains(s) || added.escape_chars.contains(s) implies merged(
        held,
        added,
    ).escape_chars.contains(s) by {
        crate::escape::lemma_union_holds(
            held.escape_chars,
            added.escape_chars,
            added.escape_chars.len() as int,
            s,
        );
        assert(added.escape_chars.take(added.escape_chars.len() as int) == added.escape_chars);
    }
}

/// A fragment that comes in leaves the groups grown and their combined keys apart, and
/// under a combined key exactly one group, which holds the fragment, bears the key
/// afterwards.
pub proof fn upsert_keeps_groups_apart(groups: Seq<GroupView>, key: KeyView, fragment: FragmentView)
    requires
        combined_keys_differ(groups),
    ensures
        combined_keys_differ(upsert_of(groups, key, fragment)),
        grown(groups, upsert_of(groups, key, fragment)),
        exists|at: int|
            0 <= at < upsert_of(groups, key, fragment).len() && (#[trigger] upsert_of(
                groups,
                key,
                fragment,
            )[at]).key == key && holds_fragment(upsert_of(groups, key, fragment)[at].fragment, fragment),
{
    let after = upsert_of(groups, key, fragment);
    lemma_find_group(groups, key, 0);
    match key {
        KeyView::Single(_) => {
            assert(after[groups.len() as int].key == key);
        },
        KeyView::Combined { .. } => {
            match find_group_from(groups, key, 0) {
                Some(at) => {
                    lemma_merged_holds(groups[at].fragment, fragment);
                    assert(after[at].key == key);
                    assert forall|i: int, j: int|
                        0 <= i < j < after.len() && (#[trigger] after[i]).key is Combined implies after[i].key
                        != (#[trigger] after[j]).key by {
                        assert(after[i].key == groups[i].key);
                        assert(after[j].key == groups[j].key);
                    }
                },
                None => {
                    assert(after[groups.len() as int].key == key);
                },
            }
        },
    }
}

/// Growing goes on: groups that have grown twice have grown.
proof fn lemma_grown_twice(first: Seq<GroupView>, second: Seq<GroupView>, third: Seq<GroupView>)
    requires
        grown(first, second),
        grown(second, third),
    ensures
        grown(first, third),
{
    assert forall|i: int| 0 <= i < first.len() implies {
        &&& (#[trigger] third[i]).key == first[i].key
        &&& third[i].fragment.pattern_index == first[i].fragment.pattern_index
        &&& third[i].fragment.lang == first[i].fragment.lang
        &&& holds_fragment(third[i].fragment, first[i].fragment)
    } by {
        assert(second[i].key == first[i].key);
    }
}

/// The captures of one match leave the groups grown and their combined keys apart.
proof fn lemma_captures_keep_groups_apart(
    source: Seq<u8>,
    pattern: PatternInfo,
    pattern_index: usize,
    lang: Seq<char>,
    content_index: u32,
    captures: Seq<Capture>,
    groups: Seq<GroupView>,
    upto: int,
)
    requires
        combined_keys_differ(groups),
    ensures
        combined_keys_differ(
            groups_with_captures(
                source,
                pattern,
                pattern_index,
                lang,
                content_index,
                captures,
                groups,
                upto,
            ),
        ),
        grown(
            groups,
            groups_with_captures(
                source,
                pattern,
                pattern_index,
                lang,
                content_index,
                captures,
                groups,
                upto,
            ),
        ),
    decreases upto,
{
    if upto > 0 {
        lemma_captures_keep_groups_apart(
            source,
            pattern,
            pattern_index,
            lang,
            content_index,
            captures,
            groups,
            upto - 1,
        );
        let before = groups_with_captures(
            source,
            pattern,
            pattern_index,
            lang,
            content_index,
            captures,
            groups,
            upto - 1,
        );
        let after = groups_with_captures(
            source,
            pattern,
            pattern_index,
            lang,
            content_index,
            captures,
            groups,
            upto,
        );
        let capture = captures[upto - 1];
        if capture.index == content_index {
            match candidate_span_of(
                source,
                offset_table(pattern.predicates@),
                trim_table(pattern.predicates@),
                capture,
            ) {
                Some((start_byte, end_byte)) => {
                    let fragment = FragmentView {
                        pattern_index,
                        lang,
                        start_byte,
                        end_byte,
                        escape_chars: escape_chars_of(
                            escape_table(pattern.predicates@),
                            capture.index,
                        ),
                    };
                    upsert_keeps_groups_apart(
                        before,
                        key_of(pattern, pattern_index, lang, capture, before.len()),
                        fragment,
                    );
                    lemma_grown_twice(groups, before, after);
                },
                None => {},
            }
        }
    }
}

/// Combined fragments are merged, whatever the matches are. The groups only grow as
/// the matches come in: each group keeps its place, its key, its pattern and its
/// language, and holds all that it held. And no two groups ever bear the same combined
/// key: so all the fragments of one pattern, one language and one container stand in
/// one group, and give one region.
pub proof fn combined_groups_stay_apart(
    source: Seq<u8>,
    patterns: Seq<PatternInfo>,
    content_index: u32,
    language_index: Option<u32>,
    matches: Seq<QueryMatch>,
    earlier: int,
    later: int,
)
    requires
        0 <= earlier <= later,
    ensures
        combined_keys_differ(
            groups_upto(source, patterns, content_index, language_index, matches, later),
        ),
        grown(
            groups_upto(source, patterns, content_index, language_index, matches, earlier),
            groups_upto(source, patterns, content_index, language_index, matches, later),
        ),
    decreases later,
{
    let first = groups_upto(source, patterns, content_index, language_index, matches, earlier);
    let last = groups_upto(source, patterns, content_index, language_index, matches, later);
    if later > 0 {
        let before = groups_upto(source, patterns, content_index, language_index, matches, later - 1);
        if earlier < later {
            combined_groups_stay_apart(
                source,
                patterns,
                content_index,
                language_index,
                matches,
                earlier,
                later - 1,
            );
        } else {
            combined_groups_stay_apart(
                source,
                patterns,
                content_index,
                language_index,
                matches,
                later - 1,
                later - 1,
            );
        }
        let found = matches[later - 1];
        if found.pattern_index < patterns.len() {
            let pattern = patterns[found.pattern_index as int];
            match match_language_of(source, pattern, found.captures@, language_index) {
                Some(lang) => {
                    lemma_captures_keep_groups_apart(
                        source,
                        pattern,
                        found.pattern_index,
                        lang,
                        content_index,
                        found.captures@,
                        before,
                        found.captures@.len() as int,
                    );
                },
                None => {},
            }
        }
        assert(grown(before, last));
        assert(grown(last, last));
        if earlier < later {
            lemma_grown_twice(first, before, last);
        }
    } else {
        assert(grown(first, last));
    }
}

/// The spans of the groups lie apart: no two of them share a byte.
pub open spec fn fragments_apart(groups: Seq<GroupView>) -> bool {
    forall|i: int, j: int|
        0 <= i < j < groups.len() ==> (#[trigger] groups[i]).fragment.end_byte <= (
        #[trigger] groups[j]).fragment.start_byte || groups[j].fragment.end_byte
            <= groups[i].fragment.start_byte
}

/// The group that the region at the place `at` among the regions of the first `upto`
/// groups was made of.
pub open spec fn group_of_region(
    source: Seq<u8>,
    endpoint: Option<EndPoint>,
    patterns: Seq<PatternInfo>,
    ignored: Seq<Range>,
    groups: Seq<GroupView>,
    upto: int,
    at: int,
) -> int
    decreases upto,
{
    if upto <= 0 {
        0
    } else {
        let before = regions_upto(source, endpoint, patterns, ignored, groups, upto - 1);
        let region = region_of(source, endpoint, patterns, groups[upto - 1].fragment);
        if is_reported(region, ignored) && at == before.len() {
            upto - 1
        } else {
            group_of_region(source, endpoint, patterns, ignored, groups, upto - 1, at)
        }
    }
}

/// Each region is the reported region of its group, and the regions stand in the order
/// of their groups.
proof fn lemma_group_of_region(
    source: Seq<u8>,
    endpoint: Option<EndPoint>,
    patterns: Seq<PatternInfo>,
    ignored: Seq<Range>,
    groups: Seq<GroupView>,
    upto: int,
    at: int,
)
    requires
        0 <= upto <= groups.len(),
        0 <= at < regions_upto(source, endpoint, patterns, ignored, groups, upto).len(),
    ensures
        ({
            let from = group_of_region(source, endpoint, patterns, ignored, groups, upto, at);
            let region = regions_upto(source, endpoint, patterns, ignored, groups, upto)[at];
            &&& 0 <= from < upto
            &&& region == region_of(source, endpoint, patterns, groups[from].fragment)
            &&& is_reported(region, ignored)
            &&& forall|earlier: int|
                0 <= earlier < at ==> group_of_region(
                    source,
                    endpoint,
                    patterns,
                    ignored,
                    groups,
                    upto,
                    earlier,
                ) < from
        }),
    decreases upto,
{
    if upto > 0 {
        let before = regions_upto(source, endpoint, patterns, ignored, groups, upto - 1);
        let region = region_of(source, endpoint, patterns, groups[upto - 1].fragment);
        let from = group_of_region(source, endpoint, patterns, ignored, groups, upto, at);
        if is_reported(region, ignored) && at == before.len() {
            assert forall|earlier: int| 0 <= earlier < at implies group_of_region(
                source,
                endpoint,
                patterns,
                ignored,
                groups,
                upto,
                earlier,
            ) < from by {
                lemma_group_of_region(
                    source,
                    endpoint,
                    patterns,
                    ignored,
                    groups,
                    upto - 1,
                    earlier,
                );
            }
        } else {
            lemma_group_of_region(source, endpoint, patterns, ignored, groups, upto - 1, at);
            assert forall|earlier: int| 0 <= earlier < at implies group_of_region(
                source,
                endpoint,
                patterns,
                ignored,
                groups,
                upto,
                earlier,
            ) < from by {
                assert(group_of_region(source, endpoint, patterns, ignored, groups, upto, earlier)
                    == group_of_region(
                    source,
                    endpoint,
                    patterns,
                    ignored,
                    groups,
                    upto - 1,
                    earlier,
                ));
            }
        }
    }
}

/// A region that is reported lies within the span of its fragment: trimming and
/// clamping only narrow.
pub proof fn region_lies_in_its_fragment(
    source: Seq<u8>,
    endpoint: Option<EndPoint>,
    patterns: Seq<PatternInfo>,
    fragment: FragmentView,
)
    requires
        region_of(source, endpoint, patterns, fragment).range.start_byte <= region_of(
            source,
            endpoint,
            patterns,
            fragment,
        ).range.end_byte,
    ensures
        fragment.start_byte <= region_of(source, endpoint, patterns, fragment).range.start_byte,
        region_of(source, endpoint, patterns, fragment).range.end_byte <= fragment.end_byte,
{
    let start = fragment.start_byte as int;
    let end = fragment.end_byte as int;
    if pattern_indented(patterns, fragment.pattern_index) && start < end && end <= source.len() {
        crate::directives::trim::lemma_next_line_feed(source, start, end);
        let from = crate::directives::indented::indented_start(source, start, end);
        crate::directives::indented::lemma_skip_indent_backward(source, from, end);
    }
}

/// Regions overlap only where fragments do. Where the spans of the groups lie apart,
/// so do the regions that are made of them: no two regions share a byte.
pub proof fn regions_of_fragments_apart_lie_apart(
    source: Seq<u8>,
    endpoint: Option<EndPoint>,
    patterns: Seq<PatternInfo>,
    content_index: u32,
    language_index: Option<u32>,
    matches: Seq<QueryMatch>,
    ignored: Seq<Range>,
    first: int,
    second: int,
)
    requires
        fragments_apart(
            groups_upto(
                source,
                patterns,
                content_index,
                language_index,
                matches,
                matches.len() as int,
            ),
        ),
        0 <= first < second < extract_of(
            source,
            endpoint,
            patterns,
            content_index,
            language_index,
            matches,
            ignored,
        ).len(),
    ensures
        ({
            let regions = extract_of(
                source,
                endpoint,
                patterns,
                content_index,
                language_index,
                matches,
                ignored,
            );
            regions[first].range.disjoint(regions[second].range)
        }),
{
    let groups = groups_upto(
        source,
        patterns,
        content_index,
        language_index,
        matches,
        matches.len() as int,
    );
    let count = groups.len() as int;
    lemma_group_of_region(source, endpoint, patterns, ignored, groups, count, first);
    lemma_group_of_region(source, endpoint, patterns, ignored, groups, count, second);
    let one = group_of_region(source, endpoint, patterns, ignored, groups, count, first);
    let other = group_of_region(source, endpoint, patterns, ignored, groups, count, second);
    assert(one < other);
    region_lies_in_its_fragment(source, endpoint, patterns, groups[one].fragment);
    region_lies_in_its_fragment(source, endpoint, patterns, groups[other].fragment);
}

/// The appended line feed is transparent. A document that does not end in a line feed
/// is read as the document with one line feed more, and a document that ends in one is
/// read as it is: so both are read as the same bytes, and the same matches give the same
/// groups. The region of each group of the shorter document is the region that the
/// longer document gives, with its end clamped to the end of the shorter one.
pub proof fn appended_newline_is_transparent(
    document: Seq<u8>,
    patterns: Seq<PatternInfo>,
    fragment: FragmentView,
)
    requires
        document.len() == 0 || document.last() != LINE_FEED,
    ensures
        ({
            let longer = document.push(LINE_FEED);
            let short_read = with_newline_of(document);
            let long_read = with_newline_of(longer);
            let short_region = region_of(short_read.0, short_read.1, patterns, fragment);
            let long_region = region_of(long_read.0, long_read.1, patterns, fragment);
            &&& short_read.0 == longer
            &&& long_read == (longer, None::<EndPoint>)
            &&& short_read.1 == Some(
                EndPoint {
                    byte: document.len() as usize,
                    point: point_at(document, document.len() as int),
                },
            )
            &&& short_region.lang == long_region.lang
            &&& short_region.escape_chars == long_region.escape_chars
            &&& short_region.range == remap_of(long_region.range, short_read.1)
        }),
{
    let longer = document.push(LINE_FEED);
    assert(longer.last() == LINE_FEED);
}

/// Clamping to `end` drops no region: each group whose region is reported as it stands
/// is reported with its end clamped too.
pub open spec fn clamping_drops_none(
    source: Seq<u8>,
    end: EndPoint,
    patterns: Seq<PatternInfo>,
    ignored: Seq<Range>,
    groups: Seq<GroupView>,
) -> bool {
    forall|k: int|
        0 <= k < groups.len() ==> (is_reported(
            region_of(source, None, patterns, groups[k].fragment),
            ignored,
        ) ==> is_reported(
            #[trigger] region_of(source, Some(end), patterns, groups[k].fragment),
            ignored,
        ))
}

/// A region with its end clamped is reported only where the region as it stands is.
proof fn lemma_clamped_is_reported(
    source: Seq<u8>,
    end: EndPoint,
    patterns: Seq<PatternInfo>,
    ignored: Seq<Range>,
    fragment: FragmentView,
)
    requires
        is_reported(region_of(source, Some(end), patterns, fragment), ignored),
    ensures
        is_reported(region_of(source, None, patterns, fragment), ignored),
{
    let clamped = region_of(source, Some(end), patterns, fragment);
    let whole = region_of(source, None, patterns, fragment);
    if is_ignored_by(whole.range, ignored) {
        let i = choose|i: int| 0 <= i < ignored.len() && whole.range.inside(#[trigger] ignored[i]);
        assert(clamped.range.inside(ignored[i]));
    }
}

/// What the regions of the first `upto` groups are with their ends clamped to `end`,
/// where clamping drops none: as many as without clamping, and each the region without
/// clamping with its end clamped.
proof fn lemma_clamped_regions(
    source: Seq<u8>,
    end: EndPoint,
    patterns: Seq<PatternInfo>,
    ignored: Seq<Range>,
    groups: Seq<GroupView>,
    upto: int,
)
    requires
        0 <= upto <= groups.len(),
        clamping_drops_none(source, end, patterns, ignored, groups),
    ensures
        ({
            let clamped = regions_upto(source, Some(end), patterns, ignored, groups, upto);
            let whole = regions_upto(source, None, patterns, ignored, groups, upto);
            &&& clamped.len() == whole.len()
            &&& forall|k: int|
                0 <= k < whole.len() ==> (#[trigger] clamped[k]) == (RegionView {
                    range: remap_of(whole[k].range, Some(end)),
                    lang: whole[k].lang,
                    escape_chars: whole[k].escape_chars,
                })
        }),
    decreases upto,
{
    if upto > 0 {
        lemma_clamped_regions(source, end, patterns, ignored, groups, upto - 1);
        let fragment = groups[upto - 1].fragment;
        let short = region_of(source, Some(end), patterns, fragment);
        if is_reported(short, ignored) {
            lemma_clamped_is_reported(source, end, patterns, ignored, fragment);
        }
    }
}

/// The appended line feed is transparent for the whole list of regions. A document
/// that does not end in a line feed and the same document with a line feed at its end
/// are read as the same bytes. Where the same matches and ignored ranges are found in
/// both, and clamping to the end of the shorter document drops no region, both give as
/// many regions, and region by region the same language, the same escape strings and
/// the same start; a region that ends before the end of the shorter document ends at
/// the same place in both, and any other ends, in the shorter document, at its end.
pub proof fn appended_newline_keeps_every_region(
    document: Seq<u8>,
    patterns: Seq<PatternInfo>,
    content_index: u32,
    language_index: Option<u32>,
    matches: Seq<QueryMatch>,
    ignored: Seq<Range>,
)
    requires
        document.len() == 0 || document.last() != LINE_FEED,
        document.len() < usize::MAX,
        clamping_drops_none(
            document.push(LINE_FEED),
            EndPoint {
                byte: document.len() as usize,
                point: point_at(document, document.len() as int),
            },
            patterns,
            ignored,
            groups_upto(
                document.push(LINE_FEED),
                patterns,
                content_index,
                language_index,
                matches,
                matches.len() as int,
            ),
        ),
    ensures
        ({
            let longer = document.push(LINE_FEED);
            let short_read = with_newline_of(document);
            let long_read = with_newline_of(longer);
            let short = extract_of(
                short_read.0,
                short_read.1,
                patterns,
                content_index,
                language_index,
                matches,
                ignored,
            );
            let long = extract_of(
                long_read.0,
                long_read.1,
                patterns,
                content_index,
                language_index,
                matches,
                ignored,
            );
            &&& short.len() == long.len()
            &&& forall|k: int|
                0 <= k < short.len() ==> {
                    &&& (#[trigger] short[k]).lang == long[k].lang
                    &&& short[k].escape_chars == long[k].escape_chars
                    &&& short[k].range.start_byte == long[k].range.start_byte
                    &&& short[k].range.start_point == long[k].range.start_point
                    &&& long[k].range.end_byte < document.len() ==> short[k].range == long[k].range
                    &&& long[k].range.end_byte >= document.len() ==> short[k].range.end_byte
                        == document.len() && short[k].range.end_point == point_at(
                        document,
                        document.len() as int,
                    )
                }
        }),
{
    let longer = document.push(LINE_FEED);
    assert(longer.last() == LINE_FEED);
    let end = EndPoint {
        byte: document.len() as usize,
        point: point_at(document, document.len() as int),
    };
    let groups = groups_upto(
        longer,
        patterns,
        content_index,
        language_index,
        matches,
        matches.len() as int,
    );
    lemma_clamped_regions(longer, end, patterns, ignored, groups, groups.len() as int);
}

} // verus!
