//! Character-level text helpers: converting between strings and characters,
//! splitting a block into lines, and classifying a labelled line.
use vstd::prelude::*;

verus! {

broadcast use vstd::string::axiom_spec_iter;

/// The characters of `s`, in order.
pub fn chars_of(s: &str) -> (r: Vec<char>)
    ensures
        r@ == s@,
{
    let mut r: Vec<char> = Vec::new();
    for c in it: s.chars()
        invariant
            it.seq() == s@,
            r@ == it.seq().take(it.index() as int),
    {
        r.push(c);
    }
    r
}

/// Relies on `String`'s `FromIterator<&char>`: the characters are collected in order.
#[verifier::external_body]
pub(crate) fn string_of_chars(cs: &[char]) -> (r: String)
    ensures
        r@ == cs@,
{
    cs.iter().collect()
}

/// The lines of `s`: the runs of characters between line breaks, in order.
/// A block with `n` line breaks holds `n + 1` lines, some of which may be
/// empty; in particular the empty block is one empty line.
pub open spec fn split_lines(s: Seq<char>) -> Seq<Seq<char>>
    decreases s.len(),
{
    if s.len() == 0 {
        seq![Seq::empty()]
    } else {
        let prev = split_lines(s.drop_last());
        if s.last() == '\n' {
            prev.push(Seq::empty())
        } else {
            prev.update(prev.len() - 1, prev.last().push(s.last()))
        }
    }
}

/// The views of a sequence of character vectors.
pub open spec fn char_rows(v: Seq<Vec<char>>) -> Seq<Seq<char>> {
    v.map_values(|l: Vec<char>| l@)
}

pub(crate) proof fn lemma_split_lines_nonempty(s: Seq<char>)
    ensures
        split_lines(s).len() >= 1,
    decreases s.len(),
{
    if s.len() > 0 {
        lemma_split_lines_nonempty(s.drop_last());
    }
}

/// Splits `cs` on line breaks.
pub fn split_lines_of(cs: &[char]) -> (r: Vec<Vec<char>>)
    ensures
        char_rows(r@) == split_lines(cs@),
{
    let mut done: Vec<Vec<char>> = Vec::new();
    let mut cur: Vec<char> = Vec::new();
    let mut i: usize = 0;
    proof {
        assert(cs@.take(0) =~= Seq::<char>::empty());
        assert(char_rows(done@).push(cur@) =~= seq![Seq::<char>::empty()]);
    }
    while i < cs.len()
        invariant
            i <= cs.len(),
            split_lines(cs@.take(i as int)) == char_rows(done@).push(cur@),
        decreases cs.len() - i,
    {
        let c = cs[i];
        proof {
            assert(cs@.take(i + 1).drop_last() =~= cs@.take(i as int));
            lemma_split_lines_nonempty(cs@.take(i as int));
        }
        if c == '\n' {
            let ghost old_done = done@;
            let ghost finished = cur@;
            done.push(cur);
            cur = Vec::new();
            proof {
                assert(char_rows(done@) =~= char_rows(old_done).push(finished));
                assert(char_rows(done@).push(cur@) =~= char_rows(old_done).push(finished).push(
                    Seq::empty(),
                ));
            }
        } else {
            cur.push(c);
            proof {
                let prev = split_lines(cs@.take(i as int));
                assert(char_rows(done@).push(cur@) =~= prev.update(
                    prev.len() - 1,
                    prev.last().push(c),
                ));
            }
        }
        i = i + 1;
    }
    let ghost old_done = done@;
    done.push(cur);
    proof {
        assert(cs@.take(cs@.len() as int) =~= cs@);
        assert(char_rows(done@) =~= char_rows(old_done).push(cur@));
    }
    done
}

/// A category label and its text are separated by a colon followed by a space.
pub open spec fn is_delim_at(l: Seq<char>, i: int) -> bool {
    0 <= i && i + 1 < l.len() && l[i] == ':' && l[i + 1] == ' '
}

pub open spec fn has_delim(l: Seq<char>) -> bool {
    exists|i: int| is_delim_at(l, i)
}

/// The position of the first separator in `l`.
pub open spec fn first_delim(l: Seq<char>) -> int
    recommends
        has_delim(l),
{
    choose|i: int| is_delim_at(l, i) && forall|j: int| 0 <= j < i ==> !is_delim_at(l, j)
}

/// How a line decomposes into `(category, text)`: the category is what stands
/// before the first separator and must not be empty, the text is everything
/// after that separator. A line without a separator, or with an empty category,
/// cannot be classified.
pub open spec fn classify(l: Seq<char>) -> Option<(Seq<char>, Seq<char>)> {
    if has_delim(l) && first_delim(l) > 0 {
        let d = first_delim(l);
        Some((l.take(d), l.skip(d + 2)))
    } else {
        None
    }
}

/// The view of an optional pair of strings.
pub open spec fn pair_view(r: Option<(String, String)>) -> Option<(Seq<char>, Seq<char>)> {
    match r {
        Some(p) => Some((p.0@, p.1@)),
        None => None,
    }
}

/// Classifies one line as `(category, text)`, following [`classify`].
pub fn classify_chars(l: &[char]) -> (r: Option<(String, String)>)
    ensures
        pair_view(r) == classify(l@),
{
    let n = l.len();
    let mut i: usize = 0;
    while i < n && n - i > 1
        invariant
            n == l@.len(),
            i <= n,
            forall|j: int| 0 <= j < i ==> !is_delim_at(l@, j),
        decreases n - i,
    {
        if l[i] == ':' && l[i + 1] == ' ' {
            proof {
                assert(is_delim_at(l@, i as int));
                let k = first_delim(l@);
                assert(is_delim_at(l@, k) && forall|j: int| 0 <= j < k ==> !is_delim_at(l@, j));
                assert(k == i);
            }
            if i == 0 {
                return None;
            }
            let category = string_of_chars(&l[0..i]);
            let text = string_of_chars(&l[i + 2..n]);
            proof {
                assert(l@.subrange(0, i as int) =~= l@.take(i as int));
                assert(l@.subrange(i + 2, n as int) =~= l@.skip(i + 2));
            }
            return Some((category, text));
        }
        i = i + 1;
    }
    proof {
        assert forall|j: int| !is_delim_at(l@, j) by {
            if 0 <= j && j < i {
            }
        }
    }
    None
}

/// Classifies one line of text as `(category, text)`: the category is what
/// stands before the first `": "`, the text what follows it.
pub fn classify_line(line: &str) -> (r: Option<(String, String)>)
    ensures
        pair_view(r) == classify(line@),
{
    let cs = chars_of(line);
    classify_chars(cs.as_slice())
}

} // verus!
