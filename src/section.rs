//! A section of notes: a header, categorized information and categorized
//! references to other sections, with the parser that builds it and the pass
//! that resolves abbreviated references to full headers.
use vstd::prelude::*;

use crate::text::{
    char_rows, chars_of, classify, classify_chars, split_lines, split_lines_of, string_of_chars,
};

verus! {

/// One category and its text fragments, in the order they were seen.
pub type Entries = Vec<(String, Vec<String>)>;

/// The views of a sequence of strings.
pub open spec fn texts_view(v: Seq<String>) -> Seq<Seq<char>> {
    v.map_values(|s: String| s@)
}

pub open spec fn has_key(e: Seq<(String, Vec<String>)>, k: Seq<char>) -> bool {
    exists|i: int| 0 <= i < e.len() && #[trigger] e[i].0@ == k
}

/// No category occurs twice.
pub open spec fn keys_unique(e: Seq<(String, Vec<String>)>) -> bool {
    forall|i: int, j: int|
        0 <= i < e.len() && 0 <= j < e.len() && i != j ==> #[trigger] e[i].0@ != #[trigger] e[j].0@
}

/// The categories of an entry list with their fragments, in order.
pub open spec fn entries_view(e: Seq<(String, Vec<String>)>) -> Seq<(Seq<char>, Seq<Seq<char>>)> {
    e.map_values(|p: (String, Vec<String>)| (p.0@, texts_view(p.1@)))
}

/// The mapping from category to text fragments that an entry list stands for.
pub open spec fn entries_map(e: Seq<(String, Vec<String>)>) -> Map<Seq<char>, Seq<Seq<char>>> {
    Map::new(
        |k: Seq<char>| has_key(e, k),
        |k: Seq<char>| texts_view(e[choose|i: int| 0 <= i < e.len() && e[i].0@ == k].1@),
    )
}

proof fn lemma_entries_map_at(e: Seq<(String, Vec<String>)>, i: int)
    requires
        keys_unique(e),
        0 <= i < e.len(),
    ensures
        entries_map(e).contains_key(e[i].0@),
        entries_map(e)[e[i].0@] == texts_view(e[i].1@),
{
    let k = e[i].0@;
    assert(has_key(e, k));
    let j = choose|j: int| 0 <= j < e.len() && e[j].0@ == k;
    if j != i {
        assert(e[i].0@ != e[j].0@);
    }
}

/// Appends `t` to the fragments of category `c`, creating the category if needed.
fn add_text(e: &mut Entries, c: String, t: String)
    requires
        keys_unique(old(e)@),
    ensures
        keys_unique(final(e)@),
        entries_map(final(e)@) == entries_map(old(e)@).insert(
            c@,
            if entries_map(old(e)@).contains_key(c@) {
                entries_map(old(e)@)[c@].push(t@)
            } else {
                seq![t@]
            },
        ),
{
    let ghost e0 = e@;
    let ghost tv = t@;
    let n = e.len();
    let mut j: usize = 0;
    while j < n
        invariant
            n == e@.len(),
            e@ == e0,
            keys_unique(e0),
            tv == t@,
            e0 == old(e)@,
            j <= n,
            forall|i: int| 0 <= i < j ==> e0[i].0@ != c@,
        decreases n - j,
    {
        if e[j].0 == c {
            let mut entry = e.remove(j);
            entry.1.push(t);
            e.insert(j, entry);
            proof {
                assert(e@ =~= e0.update(j as int, entry));
                lemma_entries_map_at(e0, j as int);
                assert(texts_view(entry.1@) =~= texts_view(e0[j as int].1@).push(tv));
                lemma_entries_map_set(e0, e@, j as int);
            }
            return;
        }
        j = j + 1;
    }
    e.push((c, vec![t]));
    proof {
        assert(e@ =~= e0.push(e@[n as int]));
        assert(texts_view(e@[n as int].1@) =~= seq![tv]);
        lemma_entries_map_set(e0, e@, n as int);
    }
}

/// `e1` is `e0` with the entry at `p` replaced, or with an entry appended when
/// `p` is the length of `e0`, and that entry's category is new or stays put:
/// the map gains or changes exactly that category.
proof fn lemma_entries_map_set(e0: Seq<(String, Vec<String>)>, e1: Seq<(String, Vec<String>)>, p: int)
    requires
        keys_unique(e0),
        0 <= p <= e0.len(),
        p < e0.len() ==> e1.len() == e0.len(),
        p == e0.len() ==> e1.len() == e0.len() + 1,
        forall|i: int| 0 <= i < e1.len() && i != p ==> e1[i] == e0[i],
        p < e0.len() ==> e0[p].0@ == e1[p].0@,
        p == e0.len() ==> !has_key(e0, e1[p].0@),
    ensures
        keys_unique(e1),
        entries_map(e1) == entries_map(e0).insert(e1[p].0@, texts_view(e1[p].1@)),
{
    let c = e1[p].0@;
    assert forall|a: int, b: int|
        0 <= a < e1.len() && 0 <= b < e1.len() && a != b implies #[trigger] e1[a].0@
        != #[trigger] e1[b].0@ by {
        if a < e0.len() && b < e0.len() {
            assert(e0[a].0@ != e0[b].0@);
        } else if a < e0.len() {
            assert(e1[a] == e0[a]);
        } else {
            assert(e1[b] == e0[b]);
        }
    }
    lemma_entries_map_at(e1, p);
    let want = entries_map(e0).insert(c, texts_view(e1[p].1@));
    assert forall|k: Seq<char>| #[trigger] entries_map(e1).contains_key(k) <==> want.contains_key(k) by {
        if has_key(e0, k) {
            let i = choose|i: int| 0 <= i < e0.len() && e0[i].0@ == k;
            if i != p {
                assert(e1[i] == e0[i]);
            }
            assert(e1[i].0@ == k);
        }
        if has_key(e1, k) && k != c {
            let i = choose|i: int| 0 <= i < e1.len() && e1[i].0@ == k;
            assert(e0[i].0@ == k);
        }
    }
    assert forall|k: Seq<char>| #[trigger] entries_map(e1).contains_key(k) implies entries_map(e1)[k] == want[k] by {
        if k != c {
            let i = choose|i: int| 0 <= i < e1.len() && e1[i].0@ == k;
            assert(e1[i] == e0[i]);
            lemma_entries_map_at(e1, i);
            lemma_entries_map_at(e0, i);
        }
    }
    assert(entries_map(e1) =~= want);
}

/// The three categories whose fragments name other sections.
pub open spec fn is_reserved(c: Seq<char>) -> bool {
    c == "Ancestors"@ || c == "Children"@ || c == "Related"@
}

/// Whether every line after the header can be classified.
pub open spec fn all_classified(lines: Seq<Seq<char>>) -> bool {
    forall|i: int| 1 <= i < lines.len() ==> (#[trigger] classify(lines[i])) is Some
}

/// The `(category, text)` pairs of the lines after the header, in order.
pub open spec fn classified(lines: Seq<Seq<char>>) -> Seq<(Seq<char>, Seq<char>)> {
    lines.drop_first().map_values(|l: Seq<char>| classify(l)->0)
}

/// The texts of the pairs in `p` whose category is `c`, in order.
pub open spec fn texts_in(p: Seq<(Seq<char>, Seq<char>)>, c: Seq<char>) -> Seq<Seq<char>>
    decreases p.len(),
{
    if p.len() == 0 {
        Seq::empty()
    } else {
        let prev = texts_in(p.drop_last(), c);
        if p.last().0 == c {
            prev.push(p.last().1)
        } else {
            prev
        }
    }
}

/// The categories of `p` that are reserved (or, with `reserved` false, that are
/// not), each mapped to its texts in order.
pub open spec fn grouped(p: Seq<(Seq<char>, Seq<char>)>, reserved: bool) -> Map<
    Seq<char>,
    Seq<Seq<char>>,
> {
    Map::new(
        |c: Seq<char>| is_reserved(c) == reserved && texts_in(p, c).len() > 0,
        |c: Seq<char>| texts_in(p, c),
    )
}

proof fn lemma_grouped_push(
    p: Seq<(Seq<char>, Seq<char>)>,
    c: Seq<char>,
    t: Seq<char>,
    reserved: bool,
)
    ensures
        grouped(p.push((c, t)), reserved) == (if is_reserved(c) == reserved {
            grouped(p, reserved).insert(
                c,
                if grouped(p, reserved).contains_key(c) {
                    grouped(p, reserved)[c].push(t)
                } else {
                    seq![t]
                },
            )
        } else {
            grouped(p, reserved)
        }),
{
    let q = p.push((c, t));
    assert(q.drop_last() =~= p);
    assert forall|k: Seq<char>| #[trigger] texts_in(q, k) == (if k == c {
        texts_in(p, k).push(t)
    } else {
        texts_in(p, k)
    }) by {}
    if texts_in(p, c).len() == 0 {
        assert(texts_in(p, c).push(t) =~= seq![t]);
    }
    if is_reserved(c) == reserved {
        assert(grouped(q, reserved) =~= grouped(p, reserved).insert(
            c,
            if grouped(p, reserved).contains_key(c) {
                grouped(p, reserved)[c].push(t)
            } else {
                seq![t]
            },
        ));
    } else {
        assert(grouped(q, reserved) =~= grouped(p, reserved));
    }
}

/// Why a block of text could not be parsed into a section.
#[derive(Debug, PartialEq, Eq)]
pub enum ParseError {
    /// The block holds no header line. Every block, the empty one included,
    /// holds at least one line, so [`Section::parse`] never returns this.
    EmptyInput,
    /// The line at `position` (the header being line 0) has no category.
    LineClassification { line: String, position: usize },
}

/// A topic of the notes: its header, its information by category, and its
/// references to other sections by category (`Ancestors`, `Children`, `Related`).
pub struct Section {
    header: String,
    information: Entries,
    related: Entries,
}

impl Section {
    pub closed spec fn header_view(&self) -> Seq<char> {
        self.header@
    }

    /// Information fragments by category.
    pub closed spec fn information_map(&self) -> Map<Seq<char>, Seq<Seq<char>>> {
        entries_map(self.information@)
    }

    /// References to other sections, category by category in the order the
    /// categories were first seen.
    pub closed spec fn related_entries(&self) -> Seq<(Seq<char>, Seq<Seq<char>>)> {
        entries_view(self.related@)
    }

    /// References to other sections by category.
    pub closed spec fn related_map(&self) -> Map<Seq<char>, Seq<Seq<char>>> {
        entries_map(self.related@)
    }

    /// Each category is held once; references sit under reserved categories
    /// only and information under the others.
    pub closed spec fn wf(&self) -> bool {
        &&& keys_unique(self.information@)
        &&& keys_unique(self.related@)
        &&& forall|k: Seq<char>| #[trigger]
            self.related_map().contains_key(k) ==> is_reserved(k)
        &&& forall|k: Seq<char>| #[trigger]
            self.information_map().contains_key(k) ==> !is_reserved(k)
    }

    /// Builds a section from its parts, provided no category is held twice,
    /// `related` holds reserved categories only and `information` none.
    pub fn from_parts(header: String, information: Entries, related: Entries) -> (r: Option<Section>)
        ensures
            r is Some <==> {
                &&& keys_unique(information@)
                &&& keys_unique(related@)
                &&& forall|i: int| 0 <= i < related@.len() ==> is_reserved(#[trigger] related@[i].0@)
                &&& forall|i: int|
                    0 <= i < information@.len() ==> !is_reserved(#[trigger] information@[i].0@)
            },
            r matches Some(sec) ==> {
                &&& sec.wf()
                &&& sec.header_view() == header@
                &&& sec.information_map() == entries_map(information@)
                &&& sec.related_map() == entries_map(related@)
            },
    {
        if !distinct_categories(&information) || !distinct_categories(&related) {
            return None;
        }
        let mut i: usize = 0;
        while i < related.len()
            invariant
                i <= related.len(),
                forall|j: int| 0 <= j < i ==> is_reserved(#[trigger] related@[j].0@),
            decreases related.len() - i,
        {
            if !is_reserved_category(&related[i].0) {
                return None;
            }
            i = i + 1;
        }
        let mut i: usize = 0;
        while i < information.len()
            invariant
                i <= information.len(),
                forall|j: int| 0 <= j < i ==> !is_reserved(#[trigger] information@[j].0@),
            decreases information.len() - i,
        {
            if is_reserved_category(&information[i].0) {
                return None;
            }
            i = i + 1;
        }
        let sec = Section { header, information, related };
        proof {
            assert forall|k: Seq<char>| #[trigger] sec.related_map().contains_key(k) implies is_reserved(k) by {
                let j = choose|j: int| 0 <= j < sec.related@.len() && sec.related@[j].0@ == k;
            }
            assert forall|k: Seq<char>| #[trigger] sec.information_map().contains_key(k) implies !is_reserved(k) by {
                let j = choose|j: int| 0 <= j < sec.information@.len() && sec.information@[j].0@ == k;
            }
        }
        Some(sec)
    }

    /// The header of the section.
    pub fn get_header(&self) -> (r: String)
        ensures
            r@ == self.header_view(),
    {
        self.header.clone()
    }

    /// The information fragments, one entry per category.
    pub fn information(&self) -> (r: &Entries)
        ensures
            entries_map(r@) == self.information_map(),
    {
        &self.information
    }

    /// The references to other sections, one entry per category.
    pub fn related(&self) -> (r: &Entries)
        ensures
            entries_map(r@) == self.related_map(),
            entries_view(r@) == self.related_entries(),
    {
        &self.related
    }

    /// Parses a block of text: its first line is the header, and every further
    /// line is a `category: text` pair, filed under `related` for the reserved
    /// categories and under `information` for the others. Every block holds a
    /// header line (the empty block is one empty line), so the only failure is
    /// a line that cannot be classified.
    pub fn parse(s: &str) -> (r: Result<Section, ParseError>)
        ensures
            match r {
                Ok(sec) => {
                    let lines = split_lines(s@);
                    &&& lines.len() >= 1
                    &&& all_classified(lines)
                    &&& sec.wf()
                    &&& sec.header_view() == lines[0]
                    &&& sec.information_map() == grouped(classified(lines), false)
                    &&& sec.related_map() == grouped(classified(lines), true)
                },
                Err(ParseError::EmptyInput) => false,
                Err(ParseError::LineClassification { line, position }) => {
                    let lines = split_lines(s@);
                    &&& 1 <= position < lines.len()
                    &&& line@ == lines[position as int]
                    &&& classify(lines[position as int]) is None
                    &&& forall|j: int| 1 <= j < position ==> (#[trigger] classify(lines[j])) is Some
                },
            },
    {
        let cs = chars_of(s);
        let lines = split_lines_of(cs.as_slice());
        let ghost all = split_lines(s@);
        proof {
            assert(char_rows(lines@).len() == lines@.len());
            assert(all.len() >= 1) by {
                crate::text::lemma_split_lines_nonempty(s@);
            }
        }
        let n = lines.len();
        let header = string_of_chars(lines[0].as_slice());
        let mut information: Entries = Vec::new();
        let mut related: Entries = Vec::new();
        let mut i: usize = 1;
        proof {
            assert(classified(all.take(1)) =~= Seq::empty());
            assert(grouped(Seq::empty(), false) =~= entries_map(information@));
            assert(grouped(Seq::empty(), true) =~= entries_map(related@));
        }
        while i < n
            invariant
                n == lines@.len(),
                n == all.len(),
                1 <= i <= n,
                all == split_lines(s@),
                char_rows(lines@) == all,
                header@ == all[0],
                forall|j: int| 1 <= j < i ==> (#[trigger] classify(all[j])) is Some,
                keys_unique(information@),
                keys_unique(related@),
                entries_map(information@) == grouped(classified(all.take(i as int)), false),
                entries_map(related@) == grouped(classified(all.take(i as int)), true),
            decreases n - i,
        {
            let ghost prefix = classified(all.take(i as int));
            assert(lines@[i as int]@ == all[i as int]);
            match classify_chars(lines[i].as_slice()) {
                None => {
                    let line = string_of_chars(lines[i].as_slice());
                    return Err(ParseError::LineClassification { line, position: i });
                },
                Some((c, t)) => {
                    let ghost pair = (c@, t@);
                    proof {
                        assert(all.take(i + 1).drop_first() =~= all.take(i as int).drop_first().push(all[i as int]));
                        assert(classified(all.take(i + 1)) =~= prefix.push(pair));
                        lemma_grouped_push(prefix, c@, t@, true);
                        lemma_grouped_push(prefix, c@, t@, false);
                    }
                    if is_reserved_category(&c) {
                        add_text(&mut related, c, t);
                    } else {
                        add_text(&mut information, c, t);
                    }
                    assert(entries_map(information@) == grouped(classified(all.take(i + 1)), false));
                    assert(entries_map(related@) == grouped(classified(all.take(i + 1)), true));
                },
            }
            i = i + 1;
        }
        proof {
            assert(all.take(n as int) =~= all);
        }
        Ok(Section { header, information, related })
    }
}

/// Whether no category of `e` is held twice.
fn distinct_categories(e: &Entries) -> (r: bool)
    ensures
        r == keys_unique(e@),
{
    let n = e.len();
    let mut i: usize = 0;
    while i < n
        invariant
            n == e@.len(),
            i <= n,
            forall|a: int, b: int|
                0 <= a < i && 0 <= b < n && a != b ==> #[trigger] e@[a].0@ != #[trigger] e@[b].0@,
        decreases n - i,
    {
        let mut j: usize = 0;
        while j < n
            invariant
                n == e@.len(),
                i < n,
                j <= n,
                forall|a: int, b: int|
                    0 <= a < i && 0 <= b < n && a != b ==> #[trigger] e@[a].0@ != #[trigger] e@[b].0@,
                forall|b: int| 0 <= b < j && b != i ==> e@[i as int].0@ != #[trigger] e@[b].0@,
            decreases n - j,
        {
            if j != i && e[i].0 == e[j].0 {
                return false;
            }
            j = j + 1;
        }
        i = i + 1;
    }
    true
}

/// Whether `c` is one of the reserved categories.
fn is_reserved_category(c: &String) -> (r: bool)
    ensures
        r == is_reserved(c@),
{
    let ancestors = "Ancestors".to_owned();
    let children = "Children".to_owned();
    let related = "Related".to_owned();
    *c == ancestors || *c == children || *c == related
}

/// `p` is a prefix of `h`.
pub open spec fn is_prefix_of(p: Seq<char>, h: Seq<char>) -> bool {
    p.len() <= h.len() && h.take(p.len() as int) == p
}

/// The first header of `hs`, in order, that starts with `s`.
pub open spec fn first_with_prefix(s: Seq<char>, hs: Seq<Seq<char>>) -> Option<Seq<char>>
    decreases hs.len(),
{
    if hs.len() == 0 {
        None
    } else if is_prefix_of(s, hs[0]) {
        Some(hs[0])
    } else {
        first_with_prefix(s, hs.drop_first())
    }
}

/// The header that the reference `s` denotes: `s` itself where it is a known
/// header, else the first header of `hs` that starts with `s`, if any.
pub open spec fn resolve(s: Seq<char>, known: Set<Seq<char>>, hs: Seq<Seq<char>>) -> Option<
    Seq<char>,
> {
    if known.contains(s) {
        Some(s)
    } else {
        first_with_prefix(s, hs)
    }
}

/// Every reference of `v` resolves.
pub open spec fn all_resolve(v: Seq<Seq<char>>, known: Set<Seq<char>>, hs: Seq<Seq<char>>) -> bool {
    forall|i: int| 0 <= i < v.len() ==> (#[trigger] resolve(v[i], known, hs)) is Some
}

/// The references of `v`, each replaced by the header it denotes.
pub open spec fn resolve_all(v: Seq<Seq<char>>, known: Set<Seq<char>>, hs: Seq<Seq<char>>) -> Seq<
    Seq<char>,
> {
    v.map_values(|s: Seq<char>| resolve(s, known, hs)->0)
}

/// The first reference of `v`, in order, that resolves to nothing.
pub open spec fn first_unresolved_in(v: Seq<Seq<char>>, known: Set<Seq<char>>, hs: Seq<Seq<char>>) -> Option<
    Seq<char>,
>
    decreases v.len(),
{
    if v.len() == 0 {
        None
    } else if resolve(v[0], known, hs) is None {
        Some(v[0])
    } else {
        first_unresolved_in(v.drop_first(), known, hs)
    }
}

/// The first `(category, reference)` of `e`, category by category and each
/// category's references in order, whose reference resolves to nothing.
pub open spec fn first_unresolved(
    e: Seq<(Seq<char>, Seq<Seq<char>>)>,
    known: Set<Seq<char>>,
    hs: Seq<Seq<char>>,
) -> Option<(Seq<char>, Seq<char>)>
    decreases e.len(),
{
    if e.len() == 0 {
        None
    } else {
        match first_unresolved_in(e[0].1, known, hs) {
            Some(r) => Some((e[0].0, r)),
            None => first_unresolved(e.drop_first(), known, hs),
        }
    }
}

/// A reference map with every reference resolved, or `None` where some
/// reference resolves to no header.
pub open spec fn reconciled(
    m: Map<Seq<char>, Seq<Seq<char>>>,
    known: Set<Seq<char>>,
    hs: Seq<Seq<char>>,
) -> Option<Map<Seq<char>, Seq<Seq<char>>>> {
    if forall|c: Seq<char>| #[trigger] m.contains_key(c) ==> all_resolve(m[c], known, hs) {
        Some(m.map_values(|v: Seq<Seq<char>>| resolve_all(v, known, hs)))
    } else {
        None
    }
}

/// A reference that names no known header.
#[derive(Debug, PartialEq, Eq)]
pub enum ReconcileError {
    /// `reference`, under `category` of the section `header`, is neither a
    /// known header nor a prefix of one.
    UnresolvedReference { header: String, category: String, reference: String },
}

/// Whether `h` starts with `p`.
fn starts_with(h: &[char], p: &[char]) -> (r: bool)
    ensures
        r == is_prefix_of(p@, h@),
{
    if p.len() > h.len() {
        return false;
    }
    let mut i: usize = 0;
    while i < p.len()
        invariant
            p.len() <= h.len(),
            i <= p.len(),
            forall|j: int| 0 <= j < i ==> h@[j] == p@[j],
        decreases p.len() - i,
    {
        if h[i] != p[i] {
            assert(h@.take(p@.len() as int)[i as int] != p@[i as int]);
            return false;
        }
        i = i + 1;
    }
    assert(h@.take(p@.len() as int) =~= p@);
    true
}

/// Whether `s` is one of `set`.
fn contains_string(set: &Vec<String>, s: &String) -> (r: bool)
    ensures
        r == texts_view(set@).contains(s@),
{
    let mut i: usize = 0;
    while i < set.len()
        invariant
            i <= set.len(),
            forall|j: int| 0 <= j < i ==> set@[j]@ != s@,
        decreases set.len() - i,
    {
        if set[i] == *s {
            assert(texts_view(set@)[i as int] == s@);
            return true;
        }
        i = i + 1;
    }
    assert forall|j: int| 0 <= j < set@.len() implies texts_view(set@)[j] != s@ by {}
    false
}

impl Section {
    /// The first header of `headers_vec` that starts with `s`.
    fn find_matching_header(s: &String, headers_vec: &Vec<String>) -> (r: Option<String>)
        ensures
            match r {
                Some(h) => first_with_prefix(s@, texts_view(headers_vec@)) == Some(h@),
                None => first_with_prefix(s@, texts_view(headers_vec@)) is None,
            },
    {
        let ghost hs = texts_view(headers_vec@);
        let p = chars_of(s.as_str());
        let mut i: usize = 0;
        assert(hs.skip(0) =~= hs);
        while i < headers_vec.len()
            invariant
                i <= headers_vec.len(),
                hs == texts_view(headers_vec@),
                p@ == s@,
                first_with_prefix(s@, hs) == first_with_prefix(s@, hs.skip(i as int)),
            decreases headers_vec.len() - i,
        {
            let h = chars_of(headers_vec[i].as_str());
            assert(hs.skip(i as int).drop_first() =~= hs.skip(i + 1));
            if starts_with(h.as_slice(), p.as_slice()) {
                return Some(headers_vec[i].clone());
            }
            i = i + 1;
        }
        assert(hs.skip(i as int).len() == 0);
        None
    }

    /// The header that the reference `s` denotes, following [`resolve`].
    fn process_related_string(s: String, headers_set: &Vec<String>, headers_vec: &Vec<String>) -> (r:
        Option<String>)
        ensures
            match r {
                Some(h) => resolve(s@, texts_view(headers_set@).to_set(), texts_view(headers_vec@))
                    == Some(h@),
                None => resolve(
                    s@,
                    texts_view(headers_set@).to_set(),
                    texts_view(headers_vec@),
                ) is None,
            },
    {
        if contains_string(headers_set, &s) {
            Some(s)
        } else {
            Section::find_matching_header(&s, headers_vec)
        }
    }

    /// Resolves every reference of one category of the section `header`.
    fn process_related_entry(
        k: &String,
        v: &Vec<String>,
        header: &String,
        headers_set: &Vec<String>,
        headers_vec: &Vec<String>,
    ) -> (r: Result<(String, Vec<String>), ReconcileError>)
        ensures
            match r {
                Ok(e) => {
                    &&& e.0@ == k@
                    &&& all_resolve(
                        texts_view(v@),
                        texts_view(headers_set@).to_set(),
                        texts_view(headers_vec@),
                    )
                    &&& texts_view(e.1@) == resolve_all(
                        texts_view(v@),
                        texts_view(headers_set@).to_set(),
                        texts_view(headers_vec@),
                    )
                    &&& first_unresolved_in(
                        texts_view(v@),
                        texts_view(headers_set@).to_set(),
                        texts_view(headers_vec@),
                    ) is None
                },
                Err(ReconcileError::UnresolvedReference { header: h, category, reference }) => {
                    &&& h@ == header@
                    &&& category@ == k@
                    &&& first_unresolved_in(
                        texts_view(v@),
                        texts_view(headers_set@).to_set(),
                        texts_view(headers_vec@),
                    ) == Some(reference@)
                },
            },
    {
        let ghost known = texts_view(headers_set@).to_set();
        let ghost hs = texts_view(headers_vec@);
        let ghost tv = texts_view(v@);
        let mut out: Vec<String> = Vec::new();
        let mut i: usize = 0;
        assert(tv.skip(0) =~= tv);
        while i < v.len()
            invariant
                i <= v.len(),
                known == texts_view(headers_set@).to_set(),
                hs == texts_view(headers_vec@),
                tv == texts_view(v@),
                out.len() == i,
                forall|j: int| 0 <= j < i ==> (#[trigger] resolve(tv[j], known, hs)) is Some,
                forall|j: int| 0 <= j < i ==> out@[j]@ == resolve(tv[j], known, hs)->0,
                first_unresolved_in(tv, known, hs) == first_unresolved_in(tv.skip(i as int), known, hs),
            decreases v.len() - i,
        {
            assert(tv.skip(i as int).drop_first() =~= tv.skip(i + 1));
            assert(tv.skip(i as int)[0] == tv[i as int]);
            match Section::process_related_string(v[i].clone(), headers_set, headers_vec) {
                Some(h) => {
                    out.push(h);
                },
                None => {
                    assert(tv[i as int] == v@[i as int]@);
                    return Err(
                        ReconcileError::UnresolvedReference {
                            header: header.clone(),
                            category: k.clone(),
                            reference: v[i].clone(),
                        },
                    );
                },
            }
            i = i + 1;
        }
        assert(texts_view(out@) =~= resolve_all(tv, known, hs));
        assert(tv.skip(i as int).len() == 0);
        Ok((k.clone(), out))
    }

    /// Rewrites the references of `section` so that each names a known header
    /// exactly: a reference that is a header of `headers_set` stays as it is;
    /// any other becomes the first header of `headers_vec`, in that order, that
    /// starts with it. Fails on the first reference for which neither holds,
    /// taking categories in the order of [`Section::related`] and each
    /// category's references in order.
    pub fn update_related(
        section: Section,
        headers_set: &Vec<String>,
        headers_vec: &Vec<String>,
    ) -> (r: Result<Section, ReconcileError>)
        requires
            section.wf(),
        ensures
            match r {
                Ok(out) => {
                    &&& out.wf()
                    &&& out.header_view() == section.header_view()
                    &&& out.information_map() == section.information_map()
                    &&& reconciled(
                        section.related_map(),
                        texts_view(headers_set@).to_set(),
                        texts_view(headers_vec@),
                    ) == Some(out.related_map())
                },
                Err(ReconcileError::UnresolvedReference { header, category, reference }) => {
                    &&& header@ == section.header_view()
                    &&& section.related_map().contains_key(category@)
                    &&& section.related_map()[category@].contains(reference@)
                    &&& first_unresolved(
                        section.related_entries(),
                        texts_view(headers_set@).to_set(),
                        texts_view(headers_vec@),
                    ) == Some((category@, reference@))
                    &&& resolve(
                        reference@,
                        texts_view(headers_set@).to_set(),
                        texts_view(headers_vec@),
                    ) is None
                    &&& reconciled(
                        section.related_map(),
                        texts_view(headers_set@).to_set(),
                        texts_view(headers_vec@),
                    ) is None
                },
            },
    {
        let ghost known = texts_view(headers_set@).to_set();
        let ghost hs = texts_view(headers_vec@);
        let ghost rel = section.related@;
        let ghost ev = entries_view(rel);
        let mut out: Entries = Vec::new();
        let mut j: usize = 0;
        assert(ev.skip(0) =~= ev);
        while j < section.related.len()
            invariant
                j <= section.related.len(),
                rel == section.related@,
                ev == entries_view(rel),
                first_unresolved(ev, known, hs) == first_unresolved(ev.skip(j as int), known, hs),
                section.wf(),
                known == texts_view(headers_set@).to_set(),
                hs == texts_view(headers_vec@),
                out.len() == j,
                forall|i: int| 0 <= i < j ==> (#[trigger] out@[i]).0@ == rel[i].0@,
                forall|i: int|
                    0 <= i < j ==> all_resolve(texts_view((#[trigger] rel[i]).1@), known, hs),
                forall|i: int|
                    0 <= i < j ==> texts_view((#[trigger] out@[i]).1@) == resolve_all(
                        texts_view(rel[i].1@),
                        known,
                        hs,
                    ),
            decreases section.related.len() - j,
        {
            assert(ev.skip(j as int).drop_first() =~= ev.skip(j + 1));
            assert(ev.skip(j as int)[0] == ev[j as int]);
            match Section::process_related_entry(
                &section.related[j].0,
                &section.related[j].1,
                &section.header,
                headers_set,
                headers_vec,
            ) {
                Ok(e) => {
                    out.push(e);
                },
                Err(err) => {
                    proof {
                        lemma_entries_map_at(rel, j as int);
                        let tv = texts_view(rel[j as int].1@);
                        lemma_first_unresolved_in_member(tv, known, hs);
                        let r = first_unresolved_in(tv, known, hs)->0;
                        let i = choose|i: int| 0 <= i < tv.len() && tv[i] == r;
                        assert(!all_resolve(tv, known, hs)) by {
                            assert(resolve(tv[i], known, hs) is None);
                        }
                        assert(ev[j as int].1 == tv);
                    }
                    return Err(err);
                },
            }
            j = j + 1;
        }
        let ghost m = entries_map(rel);
        proof {
            assert forall|a: int, b: int|
                0 <= a < out@.len() && 0 <= b < out@.len() && a != b implies #[trigger] out@[a].0@
                != #[trigger] out@[b].0@ by {
                assert(rel[a].0@ != rel[b].0@);
            }
            assert forall|c: Seq<char>| #[trigger] m.contains_key(c) implies all_resolve(m[c], known, hs) by {
                let i = choose|i: int| 0 <= i < rel.len() && rel[i].0@ == c;
                lemma_entries_map_at(rel, i);
            }
            let want = m.map_values(|v: Seq<Seq<char>>| resolve_all(v, known, hs));
            assert forall|c: Seq<char>| #[trigger] entries_map(out@).contains_key(c) <==> want.contains_key(c) by {
                if has_key(rel, c) {
                    let i = choose|i: int| 0 <= i < rel.len() && rel[i].0@ == c;
                    assert(out@[i].0@ == c);
                }
                if has_key(out@, c) {
                    let i = choose|i: int| 0 <= i < out@.len() && out@[i].0@ == c;
                    assert(rel[i].0@ == c);
                }
            }
            assert forall|c: Seq<char>| #[trigger] entries_map(out@).contains_key(c) implies entries_map(out@)[c] == want[c] by {
                let i = choose|i: int| 0 <= i < out@.len() && out@[i].0@ == c;
                lemma_entries_map_at(out@, i);
                lemma_entries_map_at(rel, i);
            }
            assert(entries_map(out@) =~= want);
            assert(reconciled(m, known, hs) == Some(want));
        }
        let result = Section { header: section.header, information: section.information, related: out };
        proof {
            assert(result.related_map() == entries_map(out@));
            assert forall|k: Seq<char>| #[trigger] result.related_map().contains_key(k) implies is_reserved(k) by {
                assert(section.related_map().contains_key(k));
            }
            assert forall|k: Seq<char>| #[trigger] result.information_map().contains_key(k) implies !is_reserved(k) by {
                assert(section.information_map().contains_key(k));
            }
            assert(keys_unique(result.related@));
            assert(keys_unique(result.information@));
        }
        Ok(result)
    }
}

proof fn lemma_first_unresolved_in_member(v: Seq<Seq<char>>, known: Set<Seq<char>>, hs: Seq<Seq<char>>)
    ensures
        first_unresolved_in(v, known, hs) matches Some(r) ==> v.contains(r) && resolve(r, known, hs) is None,
    decreases v.len(),
{
    if v.len() > 0 {
        assert(v[0] == v[0]);
        if resolve(v[0], known, hs) is Some {
            lemma_first_unresolved_in_member(v.drop_first(), known, hs);
            if let Some(r) = first_unresolved_in(v, known, hs) {
                let i = choose|i: int| 0 <= i < v.drop_first().len() && v.drop_first()[i] == r;
                assert(v[i + 1] == r);
            }
        }
    }
}

proof fn lemma_first_with_prefix_found(s: Seq<char>, hs: Seq<Seq<char>>)
    ensures
        first_with_prefix(s, hs) matches Some(h) ==> hs.contains(h) && is_prefix_of(s, h),
    decreases hs.len(),
{
    if hs.len() > 0 && !is_prefix_of(s, hs[0]) {
        lemma_first_with_prefix_found(s, hs.drop_first());
        if let Some(h) = first_with_prefix(s, hs) {
            let i = choose|i: int| 0 <= i < hs.drop_first().len() && hs.drop_first()[i] == h;
            assert(hs[i + 1] == h);
        }
    } else if hs.len() > 0 {
        assert(hs[0] == hs[0]);
    }
}

proof fn lemma_first_with_prefix_only(s: Seq<char>, hs: Seq<Seq<char>>, h: Seq<char>)
    requires
        forall|i: int| 0 <= i < hs.len() && is_prefix_of(s, #[trigger] hs[i]) ==> hs[i] == h,
    ensures
        first_with_prefix(s, hs) matches Some(g) ==> g == h,
        (forall|i: int| 0 <= i < hs.len() ==> !is_prefix_of(s, #[trigger] hs[i])) <==> first_with_prefix(
            s,
            hs,
        ) is None,
    decreases hs.len(),
{
    if hs.len() > 0 {
        let t = hs.drop_first();
        assert forall|i: int| 0 <= i < t.len() && is_prefix_of(s, #[trigger] t[i]) implies t[i] == h by {
            assert(t[i] == hs[i + 1]);
        }
        lemma_first_with_prefix_only(s, t, h);
        if !is_prefix_of(s, hs[0]) {
            if forall|i: int| 0 <= i < t.len() ==> !is_prefix_of(s, #[trigger] t[i]) {
                assert forall|i: int| 0 <= i < hs.len() implies !is_prefix_of(s, #[trigger] hs[i]) by {
                    if i > 0 {
                        assert(hs[i] == t[i - 1]);
                    }
                }
            } else {
                let i = choose|i: int| 0 <= i < t.len() && is_prefix_of(s, #[trigger] t[i]);
                assert(hs[i + 1] == t[i]);
            }
        }
    }
}

/// A reference that is itself a known header resolves to itself, whatever
/// headers it is also a prefix of.
pub proof fn lemma_exact_reference_kept(s: Seq<char>, known: Set<Seq<char>>, hs: Seq<Seq<char>>)
    requires
        known.contains(s),
    ensures
        resolve(s, known, hs) == Some(s),
{
}

/// A reference that is not a known header, and is a prefix of exactly one
/// header (a proper prefix, as that header is known), resolves to that header.
pub proof fn lemma_unique_prefix_resolves(
    s: Seq<char>,
    known: Set<Seq<char>>,
    hs: Seq<Seq<char>>,
    k: int,
)
    requires
        !known.contains(s),
        0 <= k < hs.len(),
        is_prefix_of(s, hs[k]),
        forall|i: int| 0 <= i < hs.len() && is_prefix_of(s, #[trigger] hs[i]) ==> hs[i] == hs[k],
    ensures
        resolve(s, known, hs) == Some(hs[k]),
{
    lemma_first_with_prefix_only(s, hs, hs[k]);
}

/// A reference that is neither a known header nor a prefix of any header
/// resolves to nothing, and reconciling a reference map that holds it fails.
pub proof fn lemma_unmatched_reference_fails(
    m: Map<Seq<char>, Seq<Seq<char>>>,
    c: Seq<char>,
    s: Seq<char>,
    known: Set<Seq<char>>,
    hs: Seq<Seq<char>>,
)
    requires
        !known.contains(s),
        m.contains_key(c),
        m[c].contains(s),
        forall|i: int| 0 <= i < hs.len() ==> !is_prefix_of(s, #[trigger] hs[i]),
    ensures
        resolve(s, known, hs) is None,
        reconciled(m, known, hs) is None,
{
    lemma_first_with_prefix_only(s, hs, s);
    let j = choose|j: int| 0 <= j < m[c].len() && m[c][j] == s;
    assert(!all_resolve(m[c], known, hs));
}

/// Reconciling a reference map whose references are all known headers changes
/// nothing.
pub proof fn lemma_reconcile_known_unchanged(
    m: Map<Seq<char>, Seq<Seq<char>>>,
    known: Set<Seq<char>>,
    hs: Seq<Seq<char>>,
)
    requires
        forall|c: Seq<char>, i: int|
            #[trigger] m.contains_key(c) && 0 <= i < m[c].len() ==> known.contains(#[trigger] m[c][i]),
    ensures
        reconciled(m, known, hs) == Some(m),
{
    assert forall|c: Seq<char>| #[trigger] m.contains_key(c) implies all_resolve(m[c], known, hs) by {
        assert forall|i: int| 0 <= i < m[c].len() implies (#[trigger] resolve(m[c][i], known, hs)) is Some by {
            assert(known.contains(m[c][i]));
        }
    }
    let r = m.map_values(|v: Seq<Seq<char>>| resolve_all(v, known, hs));
    assert forall|c: Seq<char>| #[trigger] m.contains_key(c) implies r[c] == m[c] by {
        assert(resolve_all(m[c], known, hs) =~= m[c]);
    }
    assert(r =~= m);
}

/// Resolving a resolved reference changes nothing, where every ordered header
/// is also a known header.
pub proof fn lemma_resolve_resolved(s: Seq<char>, known: Set<Seq<char>>, hs: Seq<Seq<char>>)
    requires
        hs.to_set().subset_of(known),
        resolve(s, known, hs) is Some,
    ensures
        known.contains(resolve(s, known, hs)->0),
        resolve(resolve(s, known, hs)->0, known, hs) == resolve(s, known, hs),
{
    if !known.contains(s) {
        lemma_first_with_prefix_found(s, hs);
        let h = resolve(s, known, hs)->0;
        let i = choose|i: int| 0 <= i < hs.len() && hs[i] == h;
        assert(hs.to_set().contains(hs[i]));
    }
}

/// Reconciliation is idempotent: where every ordered header is also a known
/// header, reconciling an already reconciled map changes nothing.
pub proof fn lemma_reconcile_idempotent(
    m: Map<Seq<char>, Seq<Seq<char>>>,
    known: Set<Seq<char>>,
    hs: Seq<Seq<char>>,
)
    requires
        hs.to_set().subset_of(known),
        reconciled(m, known, hs) is Some,
    ensures
        reconciled(reconciled(m, known, hs)->0, known, hs) == reconciled(m, known, hs),
{
    let r = reconciled(m, known, hs)->0;
    assert forall|c: Seq<char>, i: int|
        #[trigger] r.contains_key(c) && 0 <= i < r[c].len() implies known.contains(#[trigger] r[c][i]) by {
        assert(all_resolve(m[c], known, hs));
        let s = m[c][i];
        assert(resolve(s, known, hs) is Some);
        lemma_resolve_resolved(s, known, hs);
    }
    lemma_reconcile_known_unchanged(r, known, hs);
}

} // verus!
