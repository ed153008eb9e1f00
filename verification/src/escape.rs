//! Escaping of embedded text: the order in which escape strings are tried, and the two
//! passes that remove and restore the backslashes in front of them.
use crate::strings::{from_chars, to_chars};
use vstd::prelude::*;
use vstd::utf8::{decode_utf8, encode_utf8};

verus! {

/// The character that introduces an escape.
pub const BACKSLASH: char = '\\';

/// The characters of each string of `v`.
pub open spec fn string_views(v: Seq<String>) -> Seq<Seq<char>> {
    Seq::new(v.len(), |i: int| v[i]@)
}

/// `v` holds a string with the characters `s`.
pub open spec fn holds(v: Seq<String>, s: Seq<char>) -> bool {
    exists|i: int| 0 <= i < v.len() && (#[trigger] v[i])@ == s
}

/// `a` comes before `b` in byte-wise lexicographic order.
pub open spec fn bytes_less(a: Seq<u8>, b: Seq<u8>) -> bool
    decreases a.len(),
{
    if b.len() == 0 {
        false
    } else if a.len() == 0 {
        true
    } else if a[0] != b[0] {
        a[0] < b[0]
    } else {
        bytes_less(a.skip(1), b.skip(1))
    }
}

/// The order in which escape strings are tried: the longer encoding first, and among
/// encodings of one length the lexicographically smaller first.
pub open spec fn escape_before(a: Seq<char>, b: Seq<char>) -> bool {
    let x = encode_utf8(a);
    let y = encode_utf8(b);
    x.len() > y.len() || (x.len() == y.len() && bytes_less(x, y))
}

/// Each string of `v` comes before every later one.
pub open spec fn escape_sorted(v: Seq<String>) -> bool {
    forall|i: int, j: int| 0 <= i < j < v.len() ==> escape_before(#[trigger] v[i]@, #[trigger] v[j]@)
}

proof fn lemma_bytes_less_transitive(a: Seq<u8>, b: Seq<u8>, c: Seq<u8>)
    requires
        bytes_less(a, b),
        bytes_less(b, c),
    ensures
        bytes_less(a, c),
    decreases a.len(),
{
    if a.len() > 0 && a[0] == b[0] && b[0] == c[0] {
        lemma_bytes_less_transitive(a.skip(1), b.skip(1), c.skip(1));
    }
}

proof fn lemma_bytes_less_total(a: Seq<u8>, b: Seq<u8>)
    ensures
        bytes_less(a, b) || bytes_less(b, a) || a == b,
        !(bytes_less(a, b) && bytes_less(b, a)),
        !bytes_less(a, a),
    decreases a.len(),
{
    if a.len() > 0 && b.len() > 0 && a[0] == b[0] {
        lemma_bytes_less_total(a.skip(1), b.skip(1));
        if a.skip(1) == b.skip(1) {
            assert(a =~= seq![a[0]] + a.skip(1));
            assert(b =~= seq![b[0]] + b.skip(1));
        }
    } else if a.len() == 0 && b.len() == 0 {
        assert(a =~= b);
    }
    if a.len() > 0 {
        lemma_bytes_less_irreflexive(a);
    }
}

proof fn lemma_bytes_less_irreflexive(a: Seq<u8>)
    ensures
        !bytes_less(a, a),
    decreases a.len(),
{
    if a.len() > 0 {
        lemma_bytes_less_irreflexive(a.skip(1));
    }
}

/// The escape order is a strict total order on strings.
pub proof fn lemma_escape_order(a: Seq<char>, b: Seq<char>, c: Seq<char>)
    ensures
        escape_before(a, b) && escape_before(b, c) ==> escape_before(a, c),
        escape_before(a, b) || escape_before(b, a) || a == b,
        !(escape_before(a, b) && escape_before(b, a)),
        !escape_before(a, a),
{
    let x = encode_utf8(a);
    let y = encode_utf8(b);
    let z = encode_utf8(c);
    if escape_before(a, b) && escape_before(b, c) && x.len() == y.len() && y.len() == z.len() {
        lemma_bytes_less_transitive(x, y, z);
    }
    lemma_bytes_less_total(x, y);
    lemma_bytes_less_irreflexive(x);
    if x == y {
        vstd::utf8::encode_utf8_decode_utf8(a);
        vstd::utf8::encode_utf8_decode_utf8(b);
        assert(a == decode_utf8(x));
        assert(b == decode_utf8(y));
    }
}

/// Tells whether `a` comes before `b` in byte-wise lexicographic order.
fn bytes_come_before(a: &[u8], b: &[u8]) -> (r: bool)
    ensures
        r == bytes_less(a@, b@),
{
    let mut i: usize = 0;
    proof {
        assert(a@.skip(0) == a@);
        assert(b@.skip(0) == b@);
    }
    while i < a.len() && i < b.len()
        invariant
            i <= a.len(),
            i <= b.len(),
            bytes_less(a@, b@) == bytes_less(a@.skip(i as int), b@.skip(i as int)),
        decreases a.len() - i,
    {
        proof {
            assert(a@.skip(i as int).skip(1) == a@.skip(i as int + 1));
            assert(b@.skip(i as int).skip(1) == b@.skip(i as int + 1));
        }
        if a[i] != b[i] {
            return a[i] < b[i];
        }
        i += 1;
    }
    i < b.len()
}

/// Tells whether `a` is tried before `b`.
pub fn comes_before(a: &str, b: &str) -> (r: bool)
    ensures
        r == escape_before(a@, b@),
{
    let x = a.as_bytes();
    let y = b.as_bytes();
    if x.len() != y.len() {
        x.len() > y.len()
    } else {
        bytes_come_before(x, y)
    }
}

/// Where `item` belongs in the sorted `list`: the first place at or after `from` whose
/// string does not come before `item`.
pub open spec fn escape_slot(list: Seq<Seq<char>>, item: Seq<char>, from: int) -> int
    decreases list.len() - from,
{
    if from < 0 || from >= list.len() {
        list.len() as int
    } else if escape_before(list[from], item) {
        escape_slot(list, item, from + 1)
    } else {
        from
    }
}

/// The sorted `list` with `item` put where it belongs, unless it is there already.
pub open spec fn insert_escape(list: Seq<Seq<char>>, item: Seq<char>) -> Seq<Seq<char>> {
    let slot = escape_slot(list, item, 0);
    if 0 <= slot < list.len() && list[slot] == item {
        list
    } else if 0 <= slot <= list.len() {
        list.insert(slot, item)
    } else {
        list
    }
}

/// The first `upto` strings of `items` in the order in which they are tried, each once.
pub open spec fn sorted_escapes_upto(items: Seq<Seq<char>>, upto: int) -> Seq<Seq<char>>
    decreases upto,
{
    if upto <= 0 {
        Seq::empty()
    } else {
        insert_escape(sorted_escapes_upto(items, upto - 1), items[upto - 1])
    }
}

/// The strings of `items` in the order in which they are tried, each once.
pub open spec fn sorted_escapes_of(items: Seq<Seq<char>>) -> Seq<Seq<char>> {
    sorted_escapes_upto(items, items.len() as int)
}

/// The strings of `escape_chars` in the order in which they are tried, each once: by
/// descending byte length, and among strings of one length in ascending lexicographic
/// order.
pub fn sort_escape_chars(escape_chars: &[String]) -> (sorted: Vec<String>)
    ensures
        string_views(sorted@) == sorted_escapes_of(string_views(escape_chars@)),
        escape_sorted(sorted@),
        forall|s: Seq<char>| holds(sorted@, s) <==> holds(escape_chars@, s),
{
    let mut sorted: Vec<String> = Vec::new();
    let mut i: usize = 0;
    let ghost items = string_views(escape_chars@);
    proof {
        assert(string_views(sorted@) =~= Seq::<Seq<char>>::empty());
    }
    while i < escape_chars.len()
        invariant
            i <= escape_chars.len(),
            items == string_views(escape_chars@),
            string_views(sorted@) == sorted_escapes_upto(items, i as int),
            escape_sorted(sorted@),
            forall|s: Seq<char>| holds(sorted@, s) <==> holds(escape_chars@.take(i as int), s),
        decreases escape_chars.len() - i,
    {
        let item = &escape_chars[i];
        let ghost list = string_views(sorted@);
        let mut j: usize = 0;
        while j < sorted.len() && comes_before(sorted[j].as_str(), item.as_str())
            invariant
                j <= sorted.len(),
                list == string_views(sorted@),
                escape_slot(list, item@, 0) == escape_slot(list, item@, j as int),
                forall|k: int| 0 <= k < j ==> escape_before(#[trigger] sorted@[k]@, item@),
            decreases sorted.len() - j,
        {
            proof {
                assert(list[j as int] == sorted@[j as int]@);
            }
            j += 1;
        }
        let ghost before = sorted@;
        let ghost seen = escape_chars@.take(i as int);
        let ghost next = escape_chars@.take(i as int + 1);
        proof {
            if j < sorted.len() {
                assert(list[j as int] == sorted@[j as int]@);
            }
            assert(escape_slot(list, item@, 0) == j);
            assert(items[i as int] == item@);
            assert(next == seen.push(*item));
            assert forall|s: Seq<char>| holds(next, s) <==> (holds(seen, s) || s == item@) by {
                if holds(seen, s) {
                    let w = choose|w: int| 0 <= w < seen.len() && (#[trigger] seen[w])@ == s;
                    assert(next[w]@ == s);
                }
                if s == item@ {
                    assert(next[i as int]@ == s);
                }
                if holds(next, s) {
                    let w = choose|w: int| 0 <= w < next.len() && (#[trigger] next[w])@ == s;
                    if w < i {
                        assert(seen[w]@ == s);
                    }
                }
            }
        }
        let present = j < sorted.len() && sorted[j] == *item;
        if present {
            proof {
                assert(holds(before, item@));
            }
        } else {
            sorted.insert(j, item.clone());
            proof {
                let after = sorted@;
                assert(string_views(after) =~= list.insert(j as int, item@));
                assert forall|a: int, b: int| 0 <= a < b < after.len() implies escape_before(
                    #[trigger] after[a]@,
                    #[trigger] after[b]@,
                ) by {
                    if b == j {
                        assert(after[a] == before[a]);
                    } else if a == j {
                        assert(after[b] == before[b - 1]);
                        lemma_escape_order(item@, before[j as int]@, before[b - 1]@);
                        lemma_escape_order(before[j as int]@, item@, item@);
                    } else if a < j && b < j {
                        assert(after[a] == before[a] && after[b] == before[b]);
                    } else if a < j {
                        assert(after[a] == before[a] && after[b] == before[b - 1]);
                    } else {
                        assert(after[a] == before[a - 1] && after[b] == before[b - 1]);
                    }
                }
                assert forall|s: Seq<char>| holds(after, s) <==> (holds(before, s) || s
                    == item@) by {
                    if holds(before, s) {
                        let w = choose|w: int| 0 <= w < before.len() && (#[trigger] before[w])@ == s;
                        if w < j {
                            assert(after[w]@ == s);
                        } else {
                            assert(after[w + 1]@ == s);
                        }
                    }
                    if s == item@ {
                        assert(after[j as int]@ == s);
                    }
                    if holds(after, s) {
                        let w = choose|w: int| 0 <= w < after.len() && (#[trigger] after[w])@ == s;
                        if w < j {
                            assert(before[w]@ == s);
                        } else if w > j {
                            assert(before[w - 1]@ == s);
                        }
                    }
                }
            }
        }
        i += 1;
    }
    proof {
        assert(escape_chars@.take(escape_chars.len() as int) == escape_chars@);
    }
    sorted
}

/// The strings of `list` that are not empty, in their order.
pub open spec fn without_empty(list: Seq<Seq<char>>) -> Seq<Seq<char>>
    decreases list.len(),
{
    if list.len() == 0 {
        Seq::empty()
    } else if list.last().len() == 0 {
        without_empty(list.drop_last())
    } else {
        without_empty(list.drop_last()).push(list.last())
    }
}

/// No string of a list that has lost its empty strings is empty.
pub proof fn lemma_without_empty(list: Seq<Seq<char>>)
    ensures
        none_empty(without_empty(list)),
    decreases list.len(),
{
    if list.len() > 0 {
        lemma_without_empty(list.drop_last());
    }
}

/// The strings of `list` that are not empty, in their order.
pub fn drop_empty(list: &[String]) -> (kept: Vec<String>)
    ensures
        string_views(kept@) == without_empty(string_views(list@)),
        none_empty(string_views(kept@)),
{
    let mut kept: Vec<String> = Vec::new();
    let mut i: usize = 0;
    let ghost views = string_views(list@);
    proof {
        assert(string_views(kept@) =~= without_empty(views.take(0)));
    }
    while i < list.len()
        invariant
            i <= list.len(),
            views == string_views(list@),
            string_views(kept@) == without_empty(views.take(i as int)),
        decreases list.len() - i,
    {
        let ghost before = string_views(kept@);
        proof {
            assert(views.take(i as int + 1).drop_last() == views.take(i as int));
            assert(views.take(i as int + 1).last() == list@[i as int]@);
        }
        if to_chars(list[i].as_str()).len() > 0 {
            kept.push(list[i].clone());
            proof {
                assert(string_views(kept@) =~= before.push(list@[i as int]@));
            }
        }
        i += 1;
    }
    proof {
        assert(views.take(list.len() as int) == views);
        lemma_without_empty(views);
    }
    kept
}

/// The index of the first string of `escapes`, at or after `from`, that `text` begins
/// with.
pub open spec fn first_match_from(text: Seq<char>, escapes: Seq<Seq<char>>, from: int) -> Option<
    int,
>
    decreases escapes.len() - from,
{
    if from < 0 || from >= escapes.len() {
        None
    } else if escapes[from].is_prefix_of(text) {
        Some(from)
    } else {
        first_match_from(text, escapes, from + 1)
    }
}

/// The index of the first string of `escapes` that `text` begins with.
pub open spec fn first_match(text: Seq<char>, escapes: Seq<Seq<char>>) -> Option<int> {
    first_match_from(text, escapes, 0)
}

/// `first_match_from` finds the first matching index and no other.
pub proof fn lemma_first_match_from(text: Seq<char>, escapes: Seq<Seq<char>>, from: int)
    requires
        0 <= from,
    ensures
        match first_match_from(text, escapes, from) {
            Some(k) => from <= k < escapes.len() && escapes[k].is_prefix_of(text) && forall|j: int|
                from <= j < k ==> !(#[trigger] escapes[j]).is_prefix_of(text),
            None => forall|j: int|
                from <= j < escapes.len() ==> !(#[trigger] escapes[j]).is_prefix_of(text),
        },
    decreases escapes.len() - from,
{
    if from < escapes.len() && !escapes[from].is_prefix_of(text) {
        lemma_first_match_from(text, escapes, from + 1);
    }
}

/// `text` escaped: every backslash doubled, and a backslash put in front of each
/// occurrence of an escape string. At each position the escape strings are tried in the
/// order of `escapes`, and what has been consumed is not looked at again.
pub open spec fn escape_of(text: Seq<char>, escapes: Seq<Seq<char>>) -> Seq<char>
    decreases text.len(),
{
    if text.len() == 0 {
        Seq::empty()
    } else if text[0] == BACKSLASH {
        seq![BACKSLASH, BACKSLASH] + escape_of(text.skip(1), escapes)
    } else {
        match first_match(text, escapes) {
            Some(k) => if 0 < escapes[k].len() <= text.len() {
                seq![BACKSLASH] + escapes[k] + escape_of(text.skip(escapes[k].len() as int), escapes)
            } else {
                Seq::empty()
            },
            None => seq![text[0]] + escape_of(text.skip(1), escapes),
        }
    }
}

/// `text` unescaped: a doubled backslash becomes one, a backslash in front of an escape
/// string is dropped, and every other character stays. After a backslash the escape
/// strings are tried in the order of `escapes`.
pub open spec fn unescape_of(text: Seq<char>, escapes: Seq<Seq<char>>) -> Seq<char>
    decreases text.len(),
{
    if text.len() == 0 {
        Seq::empty()
    } else if text[0] == BACKSLASH {
        if text.len() > 1 && text[1] == BACKSLASH {
            seq![BACKSLASH] + unescape_of(text.skip(2), escapes)
        } else {
            match first_match(text.skip(1), escapes) {
                Some(k) => if escapes[k].len() + 1 <= text.len() {
                    escapes[k] + unescape_of(text.skip(escapes[k].len() as int + 1), escapes)
                } else {
                    Seq::empty()
                },
                None => seq![BACKSLASH] + unescape_of(text.skip(1), escapes),
            }
        }
    } else {
        seq![text[0]] + unescape_of(text.skip(1), escapes)
    }
}

/// No string of `escapes` is empty.
pub open spec fn none_empty(escapes: Seq<Seq<char>>) -> bool {
    forall|i: int| 0 <= i < escapes.len() ==> (#[trigger] escapes[i]).len() > 0
}

/// A backslash stands in a string of `escapes` at its start or nowhere.
pub open spec fn backslash_leads(escapes: Seq<Seq<char>>) -> bool {
    forall|i: int, j: int|
        0 <= i < escapes.len() && 1 <= j < escapes[i].len() ==> (#[trigger] escapes[i][j])
            != BACKSLASH
}

/// The characters of each row of `v`.
pub open spec fn rows(v: Seq<Vec<char>>) -> Seq<Seq<char>> {
    Seq::new(v.len(), |i: int| v[i]@)
}

/// The characters of each string of `strings`.
fn chars_of_each(strings: &[String]) -> (all: Vec<Vec<char>>)
    ensures
        all.len() == strings.len(),
        forall|i: int| 0 <= i < all.len() ==> (#[trigger] all@[i])@ == strings@[i]@,
{
    let mut all: Vec<Vec<char>> = Vec::new();
    let mut i: usize = 0;
    while i < strings.len()
        invariant
            i <= strings.len(),
            all.len() == i,
            forall|k: int| 0 <= k < i ==> (#[trigger] all@[k])@ == strings@[k]@,
        decreases strings.len() - i,
    {
        all.push(to_chars(strings[i].as_str()));
        i += 1;
    }
    all
}

/// Tells whether `text` holds `pattern` at `at`.
fn holds_at(text: &[char], at: usize, pattern: &[char]) -> (r: bool)
    requires
        at <= text.len(),
    ensures
        r == pattern@.is_prefix_of(text@.skip(at as int)),
{
    if pattern.len() > text.len() - at {
        return false;
    }
    let mut i: usize = 0;
    while i < pattern.len()
        invariant
            i <= pattern.len() <= text.len() - at,
            forall|k: int| 0 <= k < i ==> pattern@[k] == text@[at + k],
        decreases pattern.len() - i,
    {
        if pattern[i] != text[at + i] {
            proof {
                assert(text@.skip(at as int)[i as int] == text@[at + i]);
            }
            return false;
        }
        i += 1;
    }
    proof {
        assert(text@.skip(at as int).subrange(0, pattern.len() as int) =~= pattern@);
    }
    true
}

/// The index of the first of `escapes` that `text` holds at `at`.
fn find_match(text: &[char], at: usize, escapes: &Vec<Vec<char>>) -> (found: Option<usize>)
    requires
        at <= text.len(),
    ensures
        match found {
            Some(k) => first_match(text@.skip(at as int), rows(escapes@)) == Some(k as int)
                && k < escapes.len(),
            None => first_match(text@.skip(at as int), rows(escapes@)) is None,
        },
{
    let mut k: usize = 0;
    while k < escapes.len()
        invariant
            k <= escapes.len(),
            at <= text.len(),
            first_match(text@.skip(at as int), rows(escapes@)) == first_match_from(
                text@.skip(at as int),
                rows(escapes@),
                k as int,
            ),
        decreases escapes.len() - k,
    {
        proof {
        }
        if holds_at(text, at, escapes[k].as_slice()) {
            return Some(k);
        }
        k += 1;
    }
    None
}

/// Appends the characters of `more` to `out`.
fn push_all(out: &mut Vec<char>, more: &[char])
    ensures
        final(out)@ == old(out)@ + more@,
{
    let mut i: usize = 0;
    proof {
        assert(out@ == old(out)@ + more@.take(0));
    }
    while i < more.len()
        invariant
            i <= more.len(),
            out@ == old(out)@ + more@.take(i as int),
        decreases more.len() - i,
    {
        out.push(more[i]);
        proof {
            assert(more@.take(i as int + 1) == more@.take(i as int).push(more@[i as int]));
            assert(out@ == old(out)@ + more@.take(i as int + 1));
        }
        i += 1;
    }
    proof {
        assert(more@.take(more.len() as int) == more@);
    }
}

/// Removes one level of escaping from `text`.
///
/// Scans from left to right. Two backslashes give one. A backslash in front of one of
/// `escape_chars`, tried in the order given, is dropped and the escape string kept.
/// Every other character is kept as it is.
pub fn unescape_text(text: &str, escape_chars: &[String]) -> (unescaped: String)
    ensures
        unescaped@ == unescape_of(text@, string_views(escape_chars@)),
{
    let chars = to_chars(text);
    let escapes = chars_of_each(escape_chars);
    let ghost views = string_views(escape_chars@);
    proof {
        assert(rows(escapes@) =~= views);
        assert(chars@.skip(0) == chars@);
    }
    let mut out: Vec<char> = Vec::new();
    let mut at: usize = 0;
    while at < chars.len()
        invariant
            at <= chars.len(),
            rows(escapes@) == views,
            out@ + unescape_of(chars@.skip(at as int), views) == unescape_of(chars@, views),
        decreases chars.len() - at,
    {
        let ghost rest = chars@.skip(at as int);
        let ghost before = out@;
        proof {
            assert(rest[0] == chars@[at as int]);
            assert(rest.skip(1) == chars@.skip(at as int + 1));
        }
        if chars[at] == BACKSLASH {
            if at + 1 < chars.len() && chars[at + 1] == BACKSLASH {
                proof {
                    assert(rest[1] == chars@[at as int + 1]);
                    assert(rest.skip(2) == chars@.skip(at as int + 2));
                    let tail = unescape_of(rest.skip(2), views);
                    assert(before.push(BACKSLASH) + tail == before + (seq![BACKSLASH] + tail));
                }
                out.push(BACKSLASH);
                at += 2;
            } else {
                proof {
                    if at + 1 < chars.len() {
                        assert(rest[1] == chars@[at as int + 1]);
                    }
                }
                match find_match(chars.as_slice(), at + 1, &escapes) {
                    Some(k) => {
                        proof {
                            lemma_first_match_from(rest.skip(1), views, 0);
                            assert(escapes@[k as int]@ == views[k as int]);
                            let e = views[k as int];
                            assert(rest.skip(e.len() as int + 1) == chars@.skip(
                                at as int + 1 + e.len(),
                            ));
                            let tail = unescape_of(rest.skip(e.len() as int + 1), views);
                            assert((before + e) + tail == before + (e + tail));
                        }
                        push_all(&mut out, escapes[k].as_slice());
                        at += 1 + escapes[k].len();
                    },
                    None => {
                        proof {
                            let tail = unescape_of(rest.skip(1), views);
                            assert(before.push(BACKSLASH) + tail == before + (seq![BACKSLASH]
                                + tail));
                        }
                        out.push(BACKSLASH);
                        at += 1;
                    },
                }
            }
        } else {
            proof {
                let tail = unescape_of(rest.skip(1), views);
                assert(before.push(rest[0]) + tail == before + (seq![rest[0]] + tail));
            }
            out.push(chars[at]);
            at += 1;
        }
    }
    proof {
        assert(out@ + Seq::<char>::empty() == out@);
    }
    from_chars(out.as_slice())
}

/// Adds one level of escaping to `text`.
///
/// Scans from left to right. Every backslash is doubled. Where one of `escape_chars`
/// begins, tried in the order given, a backslash is put in front of it and the
/// scan goes on behind it. Every other character is kept as it is.
pub fn escape_text(text: &str, escape_chars: &[String]) -> (escaped: String)
    requires
        none_empty(string_views(escape_chars@)),
    ensures
        escaped@ == escape_of(text@, string_views(escape_chars@)),
{
    let chars = to_chars(text);
    let escapes = chars_of_each(escape_chars);
    let ghost views = string_views(escape_chars@);
    proof {
        assert(rows(escapes@) =~= views);
        assert(chars@.skip(0) == chars@);
    }
    let mut out: Vec<char> = Vec::new();
    let mut at: usize = 0;
    while at < chars.len()
        invariant
            at <= chars.len(),
            rows(escapes@) == views,
            none_empty(views),
            out@ + escape_of(chars@.skip(at as int), views) == escape_of(chars@, views),
        decreases chars.len() - at,
    {
        let ghost rest = chars@.skip(at as int);
        let ghost before = out@;
        proof {
            assert(rest[0] == chars@[at as int]);
            assert(rest.skip(1) == chars@.skip(at as int + 1));
        }
        if chars[at] == BACKSLASH {
            proof {
                let tail = escape_of(rest.skip(1), views);
                assert(before.push(BACKSLASH).push(BACKSLASH) + tail == before + (seq![
                    BACKSLASH,
                    BACKSLASH,
                ] + tail));
            }
            out.push(BACKSLASH);
            out.push(BACKSLASH);
            at += 1;
        } else {
            match find_match(chars.as_slice(), at, &escapes) {
                Some(k) => {
                    proof {
                        lemma_first_match_from(rest, views, 0);
                        assert(escapes@[k as int]@ == views[k as int]);
                        let e = views[k as int];
                        assert(rest.skip(e.len() as int) == chars@.skip(at as int + e.len()));
                        let tail = escape_of(rest.skip(e.len() as int), views);
                        assert((before.push(BACKSLASH) + e) + tail == before + (seq![BACKSLASH] + e
                            + tail));
                    }
                    out.push(BACKSLASH);
                    push_all(&mut out, escapes[k].as_slice());
                    at += escapes[k].len();
                },
                None => {
                    proof {
                        let tail = escape_of(rest.skip(1), views);
                        assert(before.push(rest[0]) + tail == before + (seq![rest[0]] + tail));
                    }
                    out.push(chars[at]);
                    at += 1;
                },
            }
        }
    }
    proof {
        assert(out@ + Seq::<char>::empty() == out@);
    }
    from_chars(out.as_slice())
}

/// A string without backslash that begins the escaped form of a text begins the text
/// itself.
pub proof fn lemma_plain_prefix_survives(y: Seq<char>, text: Seq<char>, escapes: Seq<Seq<char>>)
    requires
        none_empty(escapes),
        forall|j: int| 0 <= j < y.len() ==> y[j] != BACKSLASH,
        y.is_prefix_of(escape_of(text, escapes)),
    ensures
        y.is_prefix_of(text),
    decreases y.len(),
{
    if y.len() > 0 {
        let escaped = escape_of(text, escapes);
        assert(escaped[0] == y[0]);
        assert(text.len() > 0);
        lemma_first_match_from(text, escapes, 0);
        assert(text[0] != BACKSLASH);
        assert(first_match(text, escapes) is None);
        let tail = escape_of(text.skip(1), escapes);
        assert(escaped == seq![text[0]] + tail);
        assert forall|j: int| 0 <= j < y.skip(1).len() implies y.skip(1)[j] != BACKSLASH by {
            assert(y.skip(1)[j] == y[j + 1]);
        }
        assert(y.skip(1).is_prefix_of(tail)) by {
            assert(tail == escaped.skip(1));
            assert(y.skip(1) =~= escaped.skip(1).subrange(0, y.len() - 1));
        }
        lemma_plain_prefix_survives(y.skip(1), text.skip(1), escapes);
        assert(y =~= text.subrange(0, y.len() as int)) by {
            assert forall|j: int| 0 <= j < y.len() implies y[j] == text[j] by {
                if j > 0 {
                    assert(y.skip(1)[j - 1] == text.skip(1)[j - 1]);
                }
            }
        }
    }
}

/// Unescaping undoes escaping: for every text, and every list of escape strings of which
/// none is empty and none holds a backslash behind its first character, unescaping the
/// escaped text with the same list gives the text back. A string that begins with a
/// backslash is never found, by escaping or by unescaping.
pub proof fn escape_round_trip(text: Seq<char>, escapes: Seq<Seq<char>>)
    requires
        none_empty(escapes),
        backslash_leads(escapes),
    ensures
        unescape_of(escape_of(text, escapes), escapes) == text,
    decreases text.len(),
{
    if text.len() == 0 {
    } else if text[0] == BACKSLASH {
        let tail = escape_of(text.skip(1), escapes);
        let escaped = seq![BACKSLASH, BACKSLASH] + tail;
        assert(escaped.skip(2) == tail);
        escape_round_trip(text.skip(1), escapes);
        assert(seq![BACKSLASH] + text.skip(1) == text);
    } else {
        lemma_first_match_from(text, escapes, 0);
        match first_match(text, escapes) {
            Some(k) => {
                let e = escapes[k];
                let rest = text.skip(e.len() as int);
                let tail = escape_of(rest, escapes);
                let escaped = seq![BACKSLASH] + e + tail;
                assert(escaped == escape_of(text, escapes));
                assert(escaped[0] == BACKSLASH);
                assert(escaped[1] == e[0]);
                assert(e[0] == text[0]);
                let after = escaped.skip(1);
                assert(after == e + tail);
                lemma_first_match_from(after, escapes, 0);
                assert(e.is_prefix_of(after)) by {
                    assert(after.subrange(0, e.len() as int) =~= e);
                }
                let found = first_match(after, escapes);
                assert(found is Some);
                let j = found->0;
                assert(j <= k);
                if j < k {
                    let other = escapes[j];
                    assert(other[0] == after[0]);
                    if other.len() <= e.len() {
                        assert(other =~= text.subrange(0, other.len() as int)) by {
                            assert forall|i: int| 0 <= i < other.len() implies other[i]
                                == text[i] by {
                                assert(other[i] == after[i]);
                                assert(after[i] == e[i]);
                            }
                        }
                    } else {
                        let y = other.skip(e.len() as int);
                        assert forall|i: int| 0 <= i < y.len() implies y[i] != BACKSLASH by {
                            assert(y[i] == other[i + e.len()]);
                        }
                        assert(y.is_prefix_of(tail)) by {
                            assert(y =~= tail.subrange(0, y.len() as int)) by {
                                assert forall|i: int| 0 <= i < y.len() implies y[i] == tail[i] by {
                                    assert(other[i + e.len()] == after[i + e.len()]);
                                }
                            }
                        }
                        lemma_plain_prefix_survives(y, rest, escapes);
                        assert(other =~= text.subrange(0, other.len() as int)) by {
                            assert forall|i: int| 0 <= i < other.len() implies other[i]
                                == text[i] by {
                                if i < e.len() {
                                    assert(other[i] == after[i]);
                                    assert(after[i] == e[i]);
                                } else {
                                    assert(y[i - e.len()] == rest[i - e.len()]);
                                }
                            }
                        }
                    }
                    assert(other.is_prefix_of(text));
                    assert(false);
                }
                assert(escaped.skip(e.len() as int + 1) == tail);
                escape_round_trip(rest, escapes);
                assert(e + rest == text) by {
                    assert(e + rest =~= text);
                }
            },
            None => {
                let tail = escape_of(text.skip(1), escapes);
                let escaped = seq![text[0]] + tail;
                assert(escaped.skip(1) == tail);
                escape_round_trip(text.skip(1), escapes);
                assert(seq![text[0]] + text.skip(1) == text);
            },
        }
    }
}

} // verus!

verus! {

/// `list` with `item` at its end, unless `list` holds `item` already.
pub open spec fn with_new(list: Seq<Seq<char>>, item: Seq<char>) -> Seq<Seq<char>> {
    if list.contains(item) {
        list
    } else {
        list.push(item)
    }
}

/// `list` followed by the first `upto` strings of `items`, each left out where it is
/// held already.
pub open spec fn with_all_new(list: Seq<Seq<char>>, items: Seq<Seq<char>>, upto: int) -> Seq<
    Seq<char>,
>
    decreases upto,
{
    if upto <= 0 {
        list
    } else {
        with_new(with_all_new(list, items, upto - 1), items[upto - 1])
    }
}

/// The union of two lists of strings read as sets: `list`, then the strings of `items`
/// that it lacks, each once, in their order.
pub open spec fn union_of(list: Seq<Seq<char>>, items: Seq<Seq<char>>) -> Seq<Seq<char>> {
    with_all_new(list, items, items.len() as int)
}

/// A string is in a union exactly when it is in one of the two lists.
pub proof fn lemma_union_holds(list: Seq<Seq<char>>, items: Seq<Seq<char>>, upto: int, s: Seq<char>)
    requires
        0 <= upto <= items.len(),
    ensures
        with_all_new(list, items, upto).contains(s) <==> list.contains(s) || items.take(
            upto,
        ).contains(s),
    decreases upto,
{
    if upto > 0 {
        lemma_union_holds(list, items, upto - 1, s);
        let before = with_all_new(list, items, upto - 1);
        let item = items[upto - 1];
        let shorter = items.take(upto - 1);
        let longer = items.take(upto);
        assert(longer == shorter.push(item));
        if shorter.contains(s) {
            let w = choose|w: int| 0 <= w < shorter.len() && shorter[w] == s;
            assert(longer[w] == s);
        }
        if longer.contains(s) {
            let w = choose|w: int| 0 <= w < longer.len() && longer[w] == s;
            if w < upto - 1 {
                assert(shorter[w] == s);
            }
        }
        assert(longer[upto - 1] == item);
        if !before.contains(item) {
            let after = before.push(item);
            assert(after[before.len() as int] == item);
            if before.contains(s) {
                let w = choose|w: int| 0 <= w < before.len() && before[w] == s;
                assert(after[w] == s);
            }
            if after.contains(s) {
                let w = choose|w: int| 0 <= w < after.len() && after[w] == s;
                if w < before.len() {
                    assert(before[w] == s);
                }
            }
        }
    } else {
        assert(items.take(0).len() == 0);
    }
}

/// Tells whether `list` holds a string with the characters of `item`.
pub fn contains_string(list: &[String], item: &str) -> (found: bool)
    ensures
        found == string_views(list@).contains(item@),
{
    let mut i: usize = 0;
    while i < list.len()
        invariant
            i <= list.len(),
            forall|k: int| 0 <= k < i ==> string_views(list@)[k] != item@,
        decreases list.len() - i,
    {
        if crate::predicate::same_text(list[i].as_str(), item) {
            proof {
                assert(string_views(list@)[i as int] == item@);
            }
            return true;
        }
        i += 1;
    }
    false
}

/// Adds to `list` the strings of `items` that it lacks.
pub fn union_into(list: &mut Vec<String>, items: &[String])
    ensures
        string_views(final(list)@) == union_of(string_views(old(list)@), string_views(items@)),
{
    let mut i: usize = 0;
    while i < items.len()
        invariant
            i <= items.len(),
            string_views(list@) == with_all_new(
                string_views(old(list)@),
                string_views(items@),
                i as int,
            ),
        decreases items.len() - i,
    {
        let ghost before = string_views(list@);
        if !contains_string(list.as_slice(), items[i].as_str()) {
            list.push(items[i].clone());
            proof {
                assert(string_views(list@) =~= before.push(items@[i as int]@));
            }
        }
        proof {
            assert(string_views(items@)[i as int] == items@[i as int]@);
        }
        i += 1;
    }
}

/// A copy of `list`.
pub fn clone_strings(list: &[String]) -> (copy: Vec<String>)
    ensures
        copy@ == list@,
{
    let mut copy: Vec<String> = Vec::new();
    let mut i: usize = 0;
    while i < list.len()
        invariant
            i <= list.len(),
            copy@ == list@.take(i as int),
        decreases list.len() - i,
    {
        copy.push(list[i].clone());
        proof {
            assert(list@.take(i as int + 1) == list@.take(i as int).push(list@[i as int]));
        }
        i += 1;
    }
    proof {
        assert(list@.take(list.len() as int) == list@);
    }
    copy
}

/// Every string of `items` is among `list`.
pub open spec fn all_held(list: Seq<Seq<char>>, items: Seq<Seq<char>>) -> bool {
    forall|i: int| 0 <= i < items.len() ==> list.contains(#[trigger] items[i])
}

/// The two lists hold the same strings, in whatever order and however often.
pub open spec fn same_strings(first: Seq<Seq<char>>, second: Seq<Seq<char>>) -> bool {
    all_held(second, first) && all_held(first, second)
}

/// Lists that hold the same strings are the same set of strings.
pub proof fn lemma_same_strings(first: Seq<Seq<char>>, second: Seq<Seq<char>>)
    ensures
        same_strings(first, second) <==> (forall|s: Seq<char>|
            first.contains(s) <==> second.contains(s)),
{
    if same_strings(first, second) {
        assert forall|s: Seq<char>| first.contains(s) <==> second.contains(s) by {
            if first.contains(s) {
                let w = choose|w: int| 0 <= w < first.len() && first[w] == s;
                assert(second.contains(first[w]));
            }
            if second.contains(s) {
                let w = choose|w: int| 0 <= w < second.len() && second[w] == s;
                assert(first.contains(second[w]));
            }
        }
    }
    if forall|s: Seq<char>| first.contains(s) <==> second.contains(s) {
        assert forall|i: int| 0 <= i < first.len() implies second.contains(
            #[trigger] first[i],
        ) by {
            assert(first.contains(first[i]));
        }
        assert forall|i: int| 0 <= i < second.len() implies first.contains(
            #[trigger] second[i],
        ) by {
            assert(second.contains(second[i]));
        }
    }
}

/// Tells whether every string of `items` is among `list`.
pub fn holds_all(list: &[String], items: &[String]) -> (all: bool)
    ensures
        all == all_held(string_views(list@), string_views(items@)),
{
    let ghost views = string_views(items@);
    let mut i: usize = 0;
    while i < items.len()
        invariant
            i <= items.len(),
            views == string_views(items@),
            forall|k: int| 0 <= k < i ==> string_views(list@).contains(#[trigger] views[k]),
        decreases items.len() - i,
    {
        proof {
            assert(views[i as int] == items@[i as int]@);
        }
        if !contains_string(list, items[i].as_str()) {
            return false;
        }
        i += 1;
    }
    true
}

} // verus!
