//! A dialect: the table of its grammar, its sets of keywords and of
//! bracket pairs, and the matchers of its lexer.

use vstd::prelude::*;
use vstd::string::StringExecFns;

use crate::helpers::{ascii_upper, capitalize, lower_ascii, upper_ascii};
use crate::lexer::LexMatcher;
use crate::syntax::SyntaxKind;
use crate::text::{copy_str, str_eq};

verus! {

/// A pair of brackets: its name, the names of the grammar of its two
/// brackets, and whether it stays on as a hint while matching.
pub type BracketPair = (String, String, String, bool);

/// An element of a grammar.
#[derive(Debug)]
pub enum Grammar {
    /// The element of the dialect that goes by the name.
    Ref { name: String, optional: bool },
    /// The token that is this text, whatever its case, which becomes a
    /// token of the kind.
    StringParser { template: String, kind: SyntaxKind },
    /// The elements one after the other.
    Sequence(Vec<Grammar>),
    /// One of the elements: the first that matches.
    OneOf(Vec<Grammar>),
    /// Nothing at all.
    Nothing,
    /// The token of the kind `token`, which becomes a token of the kind.
    TypedParser { token: SyntaxKind, kind: SyntaxKind },
    /// The element, which a sequence may go without.
    Optional(Box<Grammar>),
    /// What the element matches, as a node of the kind.
    Node { kind: SyntaxKind, grammar: Box<Grammar> },
    /// The element, but not where `exclude` matches too.
    Excluding { grammar: Box<Grammar>, exclude: Box<Grammar> },
    /// The element, which is to stop where one of the terminators matches:
    /// the elements of the dialect that go by these names.
    Terminated { grammar: Box<Grammar>, terminators: Vec<String> },
    /// One of the elements: the one that matches most tokens.
    Longest(Vec<Grammar>),
    /// One of the elements, over and over.
    AnyNumberOf { elements: Vec<Grammar>, min_times: usize, max_times: Option<usize> },
    /// The element, over and over, with the delimiter between.
    Delimited { element: Box<Grammar>, delimiter: Box<Grammar>, allow_trailing: bool },
    /// The element between a pair of brackets, which are the tokens that
    /// read as `start_bracket` and `end_bracket` do.
    Bracketed {
        grammar: Box<Grammar>,
        start_bracket: String,
        end_bracket: String,
        parse_mode: ParseMode,
    },
    /// A marker without text, which a sequence puts in where it stands.
    Meta(SyntaxKind),
}

/// How much of what lies between two brackets the element between them
/// has to account for.
#[derive(Debug, Clone, Copy, PartialEq, Eq, Structural)]
pub enum ParseMode {
    /// All of it.
    Strict,
    /// None of it: what the element does not match is kept as it is.
    Greedy,
    /// None of it, once the element has matched something.
    GreedyOnceStarted,
}

/// A grammar that is made from the dialect when the dialect is expanded:
/// one of the words of a set, each as a token of the kind.
#[derive(Debug)]
pub struct SegmentGenerator {
    pub set_label: String,
    pub kind: SyntaxKind,
}

/// What a dialect holds under a name.
#[derive(Debug)]
pub enum DialectElementType {
    Matchable(Grammar),
    SegmentGenerator(SegmentGenerator),
}

#[derive(Debug)]
pub struct Dialect {
    pub root_segment_name: String,
    pub lexer_matchers: Option<Vec<LexMatcher>>,
    pub library: Vec<(String, DialectElementType)>,
    pub sets: Vec<(String, Vec<String>)>,
    pub bracket_collections: Vec<(String, Vec<BracketPair>)>,
}

/// The index of the first entry from `from` on that goes by the name, or
/// the number of entries.
pub open spec fn index_of<T>(entries: Seq<(String, T)>, name: Seq<char>, from: int) -> int
    decreases entries.len() - from,
{
    if from < 0 || from >= entries.len() {
        entries.len() as int
    } else if entries[from].0@ == name {
        from
    } else {
        index_of(entries, name, from + 1)
    }
}

pub proof fn lemma_index_of<T>(entries: Seq<(String, T)>, name: Seq<char>, from: int)
    requires
        0 <= from <= entries.len(),
    ensures
        from <= index_of(entries, name, from) <= entries.len(),
        index_of(entries, name, from) < entries.len() ==> entries[index_of(
            entries,
            name,
            from,
        )].0@ == name,
        forall|j: int| from <= j < index_of(entries, name, from) ==> (#[trigger] entries[j]).0@ != name,
    decreases entries.len() - from,
{
    if from < entries.len() && entries[from].0@ != name {
        lemma_index_of(entries, name, from + 1);
    }
}

/// Whether an entry goes by the name.
pub open spec fn has_name<T>(entries: Seq<(String, T)>, name: Seq<char>) -> bool {
    index_of(entries, name, 0) < entries.len()
}

/// Whether the text is among the texts.
pub open spec fn has_text(texts: Seq<String>, t: Seq<char>) -> bool {
    exists|i: int| 0 <= i < texts.len() && (#[trigger] texts[i])@ == t
}

/// Whether the names of the first `n` of `xs` are new: none stands twice
/// among them, and none is a name of `library`.
pub open spec fn names_fresh(
    library: Seq<(String, DialectElementType)>,
    xs: Seq<(String, DialectElementType)>,
    n: int,
) -> bool {
    forall|i: int|
        0 <= i < n && i < xs.len() ==> !has_name(library, (#[trigger] xs[i]).0@) && index_of(
            xs,
            xs[i].0@,
            0,
        ) == i
}

/// The texts of the strings.
pub open spec fn texts(s: Seq<String>) -> Seq<Seq<char>> {
    Seq::new(s.len(), |i: int| s[i]@)
}

/// The texts, and after them each of the first `k` words that is not
/// among what comes before it.
pub open spec fn union_texts(before: Seq<Seq<char>>, words: Seq<Seq<char>>, k: int) -> Seq<
    Seq<char>,
>
    decreases k,
{
    if k <= 0 || k > words.len() {
        before
    } else {
        let prev = union_texts(before, words, k - 1);
        if prev.contains(words[k - 1]) {
            prev
        } else {
            prev.push(words[k - 1])
        }
    }
}

/// What a pair of brackets holds: its name, the names of the grammar of
/// its two brackets, and whether it persists.
pub type PairV = (Seq<char>, Seq<char>, Seq<char>, bool);

/// What the pairs hold.
pub open spec fn pair_views(s: Seq<BracketPair>) -> Seq<PairV> {
    Seq::new(s.len(), |i: int| (s[i].0@, s[i].1@, s[i].2@, s[i].3))
}

/// The pairs, and after them each of the first `k` of `more` that is not
/// among what comes before it.
pub open spec fn union_pairs(before: Seq<PairV>, more: Seq<PairV>, k: int) -> Seq<PairV>
    decreases k,
{
    if k <= 0 || k > more.len() {
        before
    } else {
        let prev = union_pairs(before, more, k - 1);
        if prev.contains(more[k - 1]) {
            prev
        } else {
            prev.push(more[k - 1])
        }
    }
}

/// The lines of the text, each without the white space around it.
pub open spec fn trimmed_lines(values: Seq<char>) -> Seq<Seq<char>> {
    Seq::new(lines_of(values).len(), |i: int| trimmed(lines_of(values)[i]))
}

/// What is put into a set a second time changes nothing: the set holds
/// all of it already.
pub proof fn lemma_union_texts_again(before: Seq<Seq<char>>, words: Seq<Seq<char>>, k: int)
    requires
        0 <= k <= words.len(),
    ensures
        forall|t: Seq<char>| before.contains(t) ==> union_texts(before, words, k).contains(t),
        forall|j: int| 0 <= j < k ==> union_texts(before, words, k).contains(#[trigger] words[j]),
        (forall|j: int| 0 <= j < k ==> before.contains(#[trigger] words[j])) ==> union_texts(
            before,
            words,
            k,
        ) == before,
        union_texts(union_texts(before, words, words.len() as int), words, k) == union_texts(
            before,
            words,
            words.len() as int,
        ),
    decreases k,
{
    if k > 0 {
        lemma_union_texts_again(before, words, k - 1);
        let prev = union_texts(before, words, k - 1);
        let cur = union_texts(before, words, k);
        assert forall|t: Seq<char>| prev.contains(t) implies cur.contains(t) by {
            let j = choose|j: int| 0 <= j < prev.len() && prev[j] == t;
            assert(cur[j] == t);
        }
        if !prev.contains(words[k - 1]) {
            assert(cur[prev.len() as int] == words[k - 1]);
        }
        lemma_union_texts_all(before, words, words.len() as int, k - 1);
    }
}

/// A set that words were put into holds each of them.
pub proof fn lemma_union_texts_all(before: Seq<Seq<char>>, words: Seq<Seq<char>>, k: int, j: int)
    requires
        0 <= j < k <= words.len(),
    ensures
        union_texts(before, words, k).contains(words[j]),
    decreases k,
{
    let prev = union_texts(before, words, k - 1);
    let cur = union_texts(before, words, k);
    if j < k - 1 {
        lemma_union_texts_all(before, words, k - 1, j);
        let w = choose|w: int| 0 <= w < prev.len() && prev[w] == words[j];
        assert(cur[w] == words[j]);
    } else if !prev.contains(words[k - 1]) {
        assert(cur[prev.len() as int] == words[k - 1]);
    }
}

/// The entry of a name is found at the same place in two lists whose
/// entries go by the same names.
pub proof fn lemma_index_of_names<T>(
    a: Seq<(String, T)>,
    b: Seq<(String, T)>,
    name: Seq<char>,
    from: int,
)
    requires
        a.len() == b.len(),
        forall|j: int| 0 <= j < a.len() ==> (#[trigger] a[j]).0@ == b[j].0@,
    ensures
        index_of(a, name, from) == index_of(b, name, from),
    decreases a.len() - from,
{
    if 0 <= from < a.len() && a[from].0@ != name {
        lemma_index_of_names(a, b, name, from + 1);
    }
}

/// Where the entry of a name is found once another entry is put at the
/// end of the list.
pub proof fn lemma_index_of_push<T>(a: Seq<(String, T)>, x: (String, T), name: Seq<char>, from: int)
    requires
        0 <= from <= a.len(),
    ensures
        index_of(a.push(x), name, from) == if index_of(a, name, from) < a.len() {
            index_of(a, name, from)
        } else if x.0@ == name {
            a.len() as int
        } else {
            (a.len() + 1) as int
        },
        index_of(a, name, from) < a.len() ==> a.push(x)[index_of(a, name, from)] == a[index_of(
            a,
            name,
            from,
        )],
    decreases a.len() - from,
{
    lemma_index_of(a, name, from);
    if from < a.len() {
        assert(a.push(x)[from] == a[from]);
        if a[from].0@ != name {
            lemma_index_of_push(a, x, name, from + 1);
        }
    } else {
        assert(a.push(x)[from] == x);
        assert(index_of(a, name, from) == a.len());
        assert(index_of(a.push(x), name, from + 1) == a.len() + 1);
    }
}

/// The label of a set of bracket pairs.
pub open spec fn is_bracket_label(label: Seq<char>) -> bool {
    label == "bracket_pairs"@ || label == "angle_bracket_pairs"@
}

/// The index of the first entry that goes by the name, or the number of
/// entries.
pub fn find_entry<T>(entries: &Vec<(String, T)>, name: &str) -> (r: usize)
    ensures
        r == index_of(entries@, name@, 0),
        r <= entries@.len(),
{
    let mut i: usize = 0;
    while i < entries.len() && !str_eq(entries[i].0.as_str(), name)
        invariant
            i <= entries@.len(),
            index_of(entries@, name@, 0) == index_of(entries@, name@, i as int),
        decreases entries.len() - i,
    {
        i += 1;
    }
    i
}

/// Whether the text is among the texts.
pub fn contains_text(texts: &Vec<String>, t: &str) -> (r: bool)
    ensures
        r == has_text(texts@, t@),
{
    let mut i: usize = 0;
    while i < texts.len()
        invariant
            i <= texts@.len(),
            forall|j: int| 0 <= j < i ==> (#[trigger] texts@[j])@ != t@,
        decreases texts.len() - i,
    {
        if str_eq(texts[i].as_str(), t) {
            return true;
        }
        i += 1;
    }
    false
}

/// Whether the names are new to the dialect: none stands twice among them,
/// and the dialect holds none of them.
pub fn check_unique_names(dialect: &Dialect, xs: &Vec<(String, DialectElementType)>) -> (r: bool)
    ensures
        r == names_fresh(dialect.library@, xs@, xs@.len() as int),
{
    let mut i: usize = 0;
    while i < xs.len()
        invariant
            i <= xs@.len(),
            names_fresh(dialect.library@, xs@, i as int),
        decreases xs.len() - i,
    {
        let name = xs[i].0.as_str();
        if find_entry(&dialect.library, name) < dialect.library.len() || find_entry(xs, name)
            != i {
            assert(!names_fresh(dialect.library@, xs@, xs@.len() as int)) by {
                if names_fresh(dialect.library@, xs@, xs@.len() as int) {
                    assert(!has_name(dialect.library@, xs@[i as int].0@));
                }
            }
            return false;
        }
        i += 1;
    }
    true
}

impl Dialect {
    /// A dialect that holds nothing yet, whose grammar starts at the
    /// element of the name.
    pub fn new(root_segment_name: &str) -> (r: Dialect)
        ensures
            r.root_segment_name@ == root_segment_name@,
            r.lexer_matchers is None,
            r.library@.len() == 0,
            r.sets@.len() == 0,
            r.bracket_collections@.len() == 0,
    {
        Dialect {
            root_segment_name: copy_str(root_segment_name),
            lexer_matchers: None,
            library: Vec::new(),
            sets: Vec::new(),
            bracket_collections: Vec::new(),
        }
    }

    /// Takes in elements under names that are new to the dialect.
    pub fn extend(&mut self, items: Vec<(String, DialectElementType)>)
        requires
            names_fresh(old(self).library@, items@, items@.len() as int),
        ensures
            final(self).library@ == old(self).library@ + items@,
            final(self).root_segment_name == old(self).root_segment_name,
            final(self).lexer_matchers == old(self).lexer_matchers,
            final(self).sets == old(self).sets,
            final(self).bracket_collections == old(self).bracket_collections,
    {
        let mut items = items;
        self.library.append(&mut items);
    }

    /// The matchers of the lexer, which must have been set.
    pub fn lexer_matchers(&self) -> (r: &Vec<LexMatcher>)
        requires
            self.lexer_matchers is Some,
        ensures
            *r == self.lexer_matchers->0,
    {
        match &self.lexer_matchers {
            Some(lexer_matchers) => lexer_matchers,
            None => {
                proof {
                    assert(false);
                }
                vstd::pervasive::unreached()
            },
        }
    }

    pub fn set_lexer_matchers(&mut self, lexer_matchers: Vec<LexMatcher>)
        ensures
            final(self).lexer_matchers == Some(lexer_matchers),
            final(self).root_segment_name == old(self).root_segment_name,
            final(self).library == old(self).library,
            final(self).sets == old(self).sets,
            final(self).bracket_collections == old(self).bracket_collections,
    {
        self.lexer_matchers = Some(lexer_matchers);
    }

    /// The words of the set of the label, or none where there is no such set.
    pub open spec fn spec_set(&self, label: Seq<char>) -> Seq<String> {
        if has_name(self.sets@, label) {
            self.sets@[index_of(self.sets@, label, 0)].1@
        } else {
            Seq::empty()
        }
    }

    /// The words of the set of the label. The sets of bracket pairs are
    /// not reached this way.
    pub fn sets(&self, label: &str) -> (r: Vec<String>)
        requires
            !is_bracket_label(label@),
        ensures
            r@ == self.spec_set(label@),
    {
        let i = find_entry(&self.sets, label);
        let mut out: Vec<String> = Vec::new();
        if i < self.sets.len() {
            let words = &self.sets[i].1;
            let mut k: usize = 0;
            while k < words.len()
                invariant
                    k <= words@.len(),
                    out@ == words@.subrange(0, k as int),
                decreases words.len() - k,
            {
                out.push(words[k].clone());
                k += 1;
                assert(out@ =~= words@.subrange(0, k as int));
            }
            assert(words@.subrange(0, k as int) =~= words@);
        }
        out
    }

    /// Puts the words into the set of the label, which is made if there is
    /// none: each word that the set does not hold yet, in the order given,
    /// after what the set holds. The sets of other labels stay as they are.
    pub fn sets_mut(&mut self, label: &str, words: Vec<String>)
        requires
            !is_bracket_label(label@),
        ensures
            has_name(final(self).sets@, label@),
            texts(final(self).spec_set(label@)) == union_texts(
                texts(old(self).spec_set(label@)),
                texts(words@),
                words@.len() as int,
            ),
            forall|other: Seq<char>|
                other != label@ ==> #[trigger] final(self).spec_set(other) == old(self).spec_set(
                    other,
                ),
            forall|i: int|
                0 <= i < words@.len() ==> has_text(final(self).spec_set(label@), (
                #[trigger] words@[i])@),
            forall|t: Seq<char>|
                has_text(old(self).spec_set(label@), t) ==> has_text(
                    final(self).spec_set(label@),
                    t,
                ),
            forall|t: Seq<char>|
                has_text(final(self).spec_set(label@), t) ==> has_text(
                    old(self).spec_set(label@),
                    t,
                ) || has_text(words@, t),
            final(self).root_segment_name == old(self).root_segment_name,
            final(self).lexer_matchers == old(self).lexer_matchers,
            final(self).library == old(self).library,
            final(self).bracket_collections == old(self).bracket_collections,
    {
        let i = find_entry(&self.sets, label);
        proof {
            lemma_index_of(self.sets@, label@, 0);
        }
        let ghost sets0 = self.sets@;
        let ghost before = self.spec_set(label@);
        let found = i < self.sets.len();
        let (name, mut set): (String, Vec<String>) = if found {
            self.sets.remove(i)
        } else {
            (copy_str(label), Vec::new())
        };
        assert(set@ == before);
        assert(name@ == label@);
        assert(texts(set@) =~= union_texts(texts(before), texts(words@), 0));
        let mut k: usize = 0;
        while k < words.len()
            invariant
                k <= words@.len(),
                forall|j: int| 0 <= j < k ==> has_text(set@, (#[trigger] words@[j])@),
                forall|t: Seq<char>| has_text(before, t) ==> has_text(set@, t),
                forall|t: Seq<char>| has_text(set@, t) ==> has_text(before, t) || has_text(words@, t),
                texts(set@) == union_texts(texts(before), texts(words@), k as int),
            decreases words.len() - k,
        {
            let ghost prev = set@;
            let known = contains_text(&set, words[k].as_str());
            proof {
                let w = texts(words@)[k as int];
                assert(w == words@[k as int]@);
                if known {
                    let j = choose|j: int| 0 <= j < prev.len() && (#[trigger] prev[j])@ == w;
                    assert(texts(prev)[j] == w);
                } else if texts(prev).contains(w) {
                    let j = choose|j: int| 0 <= j < texts(prev).len() && texts(prev)[j] == w;
                    assert(prev[j]@ == w);
                }
                assert(known == texts(prev).contains(w));
            }
            if !known {
                set.push(words[k].clone());
                proof {
                    assert(set@[prev.len() as int]@ == words@[k as int]@);
                    assert(texts(set@) =~= texts(prev).push(words@[k as int]@));
                    assert forall|t: Seq<char>| has_text(prev, t) implies has_text(set@, t) by {
                        let j = choose|j: int| 0 <= j < prev.len() && (#[trigger] prev[j])@ == t;
                        assert(set@[j]@ == t);
                    }
                    assert forall|t: Seq<char>| has_text(set@, t) implies has_text(before, t)
                        || has_text(words@, t) by {
                        let j = choose|j: int| 0 <= j < set@.len() && (#[trigger] set@[j])@ == t;
                        if j < prev.len() {
                            assert(prev[j]@ == t);
                        } else {
                            assert(words@[k as int]@ == t);
                        }
                    }
                }
            }
            k += 1;
        }
        let ghost entry = (name, set);
        if found {
            self.sets.insert(i, (name, set));
            proof {
                assert(self.sets@ =~= sets0.update(i as int, entry));
                assert forall|other: Seq<char>| true implies index_of(self.sets@, other, 0)
                    == index_of(sets0, other, 0) by {
                    lemma_index_of_names(self.sets@, sets0, other, 0);
                }
                assert forall|other: Seq<char>| other != label@ implies #[trigger] self.spec_set(
                    other,
                ) == old(self).spec_set(other) by {
                    lemma_index_of(sets0, other, 0);
                }
            }
        } else {
            self.sets.push((name, set));
            proof {
                assert(self.sets@ == sets0.push(entry));
                lemma_index_of_push(sets0, entry, label@, 0);
                assert forall|other: Seq<char>| other != label@ implies #[trigger] self.spec_set(
                    other,
                ) == old(self).spec_set(other) by {
                    lemma_index_of_push(sets0, entry, other, 0);
                }
            }
        }
    }

    /// Puts each line of `values`, without the white space around it, into
    /// the set of the label: each that the set does not hold yet, in the
    /// order of the lines, after what the set holds. The sets of other
    /// labels stay as they are.
    pub fn update_keywords_set_from_multiline_string(&mut self, set_label: &str, values: &str)
        requires
            !is_bracket_label(set_label@),
        ensures
            has_name(final(self).sets@, set_label@),
            texts(final(self).spec_set(set_label@)) == union_texts(
                texts(old(self).spec_set(set_label@)),
                trimmed_lines(values@),
                trimmed_lines(values@).len() as int,
            ),
            forall|other: Seq<char>|
                other != set_label@ ==> #[trigger] final(self).spec_set(other) == old(
                    self,
                ).spec_set(other),
            forall|i: int|
                0 <= i < lines_of(values@).len() ==> has_text(
                    final(self).spec_set(set_label@),
                    trimmed(#[trigger] lines_of(values@)[i]),
                ),
            forall|t: Seq<char>|
                has_text(old(self).spec_set(set_label@), t) ==> has_text(
                    final(self).spec_set(set_label@),
                    t,
                ),
            final(self).library == old(self).library,
            final(self).lexer_matchers == old(self).lexer_matchers,
            final(self).root_segment_name == old(self).root_segment_name,
            final(self).bracket_collections == old(self).bracket_collections,
    {
        let lines = str_lines(values);
        let mut keywords: Vec<String> = Vec::new();
        let mut i: usize = 0;
        while i < lines.len()
            invariant
                i <= lines@.len(),
                keywords@.len() == i,
                lines@.len() == lines_of(values@).len(),
                forall|j: int| 0 <= j < lines@.len() ==> (#[trigger] lines@[j])@ == lines_of(values@)[j],
                forall|j: int| 0 <= j < i ==> (#[trigger] keywords@[j])@ == trimmed(lines_of(values@)[j]),
            decreases lines.len() - i,
        {
            keywords.push(str_trim(lines[i].as_str()));
            i += 1;
        }
        let ghost words = keywords@;
        assert(texts(words) =~= trimmed_lines(values@));
        self.sets_mut(set_label, keywords);
        proof {
            assert forall|i: int| 0 <= i < lines_of(values@).len() implies has_text(
                self.spec_set(set_label@),
                trimmed(#[trigger] lines_of(values@)[i]),
            ) by {
                assert(words[i]@ == trimmed(lines_of(values@)[i]));
                assert(has_text(self.spec_set(set_label@), words[i]@));
            }
        }
    }

    /// The pairs of the set of the label, or none where there is no such set.
    pub open spec fn spec_bracket_set(&self, label: Seq<char>) -> Seq<BracketPair> {
        if has_name(self.bracket_collections@, label) {
            self.bracket_collections@[index_of(self.bracket_collections@, label, 0)].1@
        } else {
            Seq::empty()
        }
    }

    /// The bracket pairs of the set of the label, which is one of the two
    /// labels of such sets.
    pub fn bracket_sets(&self, label: &str) -> (r: Vec<BracketPair>)
        requires
            is_bracket_label(label@),
        ensures
            r@.len() == self.spec_bracket_set(label@).len(),
            forall|i: int|
                0 <= i < r@.len() ==> same_pair(#[trigger] r@[i], self.spec_bracket_set(label@)[i]),
    {
        let i = find_entry(&self.bracket_collections, label);
        let mut out: Vec<BracketPair> = Vec::new();
        if i < self.bracket_collections.len() {
            let pairs = &self.bracket_collections[i].1;
            let mut k: usize = 0;
            while k < pairs.len()
                invariant
                    k <= pairs@.len(),
                    out@.len() == k,
                    forall|j: int| 0 <= j < k ==> same_pair(#[trigger] out@[j], pairs@[j]),
                decreases pairs.len() - k,
            {
                let p = &pairs[k];
                out.push((p.0.clone(), p.1.clone(), p.2.clone(), p.3));
                k += 1;
            }
        }
        out
    }

    /// Puts the pairs into the set of the label, which is made if there is
    /// none: each pair that the set does not hold yet, in the order given,
    /// after what the set holds. The set of the other label stays as it is.
    pub fn bracket_sets_mut(&mut self, label: &str, pairs: Vec<BracketPair>)
        requires
            is_bracket_label(label@),
        ensures
            has_name(final(self).bracket_collections@, label@),
            pair_views(final(self).spec_bracket_set(label@)) == union_pairs(
                pair_views(old(self).spec_bracket_set(label@)),
                pair_views(pairs@),
                pairs@.len() as int,
            ),
            forall|other: Seq<char>|
                other != label@ ==> #[trigger] final(self).spec_bracket_set(other) == old(
                    self,
                ).spec_bracket_set(other),
            forall|i: int|
                0 <= i < pairs@.len() ==> has_pair(
                    final(self).spec_bracket_set(label@),
                    #[trigger] pairs@[i],
                ),
            forall|p: BracketPair|
                has_pair(old(self).spec_bracket_set(label@), p) ==> has_pair(
                    final(self).spec_bracket_set(label@),
                    p,
                ),
            final(self).library == old(self).library,
            final(self).sets == old(self).sets,
            final(self).lexer_matchers == old(self).lexer_matchers,
            final(self).root_segment_name == old(self).root_segment_name,
    {
        let i = find_entry(&self.bracket_collections, label);
        proof {
            lemma_index_of(self.bracket_collections@, label@, 0);
        }
        let ghost sets0 = self.bracket_collections@;
        let ghost before = self.spec_bracket_set(label@);
        let found = i < self.bracket_collections.len();
        let (name, mut set): (String, Vec<BracketPair>) = if found {
            self.bracket_collections.remove(i)
        } else {
            (copy_str(label), Vec::new())
        };
        assert(set@ == before);
        let mut pairs = pairs;
        let ghost all = pairs@;
        assert(pair_views(set@) =~= union_pairs(pair_views(before), pair_views(all), 0));
        let mut k: usize = 0;
        while k < pairs.len()
            invariant
                k <= pairs@.len(),
                pairs@ == all,
                forall|j: int| 0 <= j < k ==> has_pair(set@, #[trigger] all[j]),
                forall|p: BracketPair| has_pair(before, p) ==> has_pair(set@, p),
                pair_views(set@) == union_pairs(pair_views(before), pair_views(all), k as int),
            decreases pairs.len() - k,
        {
            let ghost prev = set@;
            let p = &pairs[k];
            let known = contains_pair(&set, p);
            proof {
                let w = pair_views(all)[k as int];
                if known {
                    let j = choose|j: int| 0 <= j < prev.len() && same_pair(#[trigger] prev[j], *p);
                    assert(pair_views(prev)[j] == w);
                } else if pair_views(prev).contains(w) {
                    let j = choose|j: int| 0 <= j < pair_views(prev).len() && pair_views(prev)[j] == w;
                    assert(same_pair(prev[j], *p));
                }
                assert(known == pair_views(prev).contains(w));
            }
            if !known {
                set.push((p.0.clone(), p.1.clone(), p.2.clone(), p.3));
                proof {
                    assert(same_pair(set@[prev.len() as int], all[k as int]));
                    assert(pair_views(set@) =~= pair_views(prev).push(pair_views(all)[k as int]));
                    assert forall|q: BracketPair| has_pair(prev, q) implies has_pair(set@, q) by {
                        let j = choose|j: int| 0 <= j < prev.len() && same_pair(#[trigger] prev[j], q);
                        assert(same_pair(set@[j], q));
                    }
                    assert forall|j: int| 0 <= j < k implies has_pair(set@, #[trigger] all[j]) by {
                        assert(has_pair(prev, all[j]));
                    }
                }
            }
            k += 1;
        }
        let ghost entry = (name, set);
        if found {
            self.bracket_collections.insert(i, (name, set));
            proof {
                assert(self.bracket_collections@ =~= sets0.update(i as int, entry));
                assert forall|other: Seq<char>| true implies index_of(
                    self.bracket_collections@,
                    other,
                    0,
                ) == index_of(sets0, other, 0) by {
                    lemma_index_of_names(self.bracket_collections@, sets0, other, 0);
                }
                assert forall|other: Seq<char>| other != label@ implies #[trigger] self.spec_bracket_set(
                    other,
                ) == old(self).spec_bracket_set(other) by {
                    lemma_index_of(sets0, other, 0);
                }
            }
        } else {
            self.bracket_collections.push((name, set));
            proof {
                assert(self.bracket_collections@ == sets0.push(entry));
                lemma_index_of_push(sets0, entry, label@, 0);
                assert forall|other: Seq<char>| other != label@ implies #[trigger] self.spec_bracket_set(
                    other,
                ) == old(self).spec_bracket_set(other) by {
                    lemma_index_of_push(sets0, entry, other, 0);
                }
            }
        }
    }

    /// Puts the pairs into the set of the label: each pair that the set
    /// does not hold yet, in the order given, after what the set holds. The
    /// set of the other label stays as it is.
    pub fn update_bracket_sets(&mut self, label: &str, pairs: Vec<BracketPair>)
        requires
            is_bracket_label(label@),
        ensures
            has_name(final(self).bracket_collections@, label@),
            pair_views(final(self).spec_bracket_set(label@)) == union_pairs(
                pair_views(old(self).spec_bracket_set(label@)),
                pair_views(pairs@),
                pairs@.len() as int,
            ),
            forall|other: Seq<char>|
                other != label@ ==> #[trigger] final(self).spec_bracket_set(other) == old(
                    self,
                ).spec_bracket_set(other),
            forall|i: int|
                0 <= i < pairs@.len() ==> has_pair(
                    final(self).spec_bracket_set(label@),
                    #[trigger] pairs@[i],
                ),
            forall|p: BracketPair|
                has_pair(old(self).spec_bracket_set(label@), p) ==> has_pair(
                    final(self).spec_bracket_set(label@),
                    p,
                ),
            final(self).library == old(self).library,
            final(self).sets == old(self).sets,
            final(self).lexer_matchers == old(self).lexer_matchers,
            final(self).root_segment_name == old(self).root_segment_name,
    {
        self.bracket_sets_mut(label, pairs);
    }

    pub fn root_segment_name(&self) -> (r: &str)
        ensures
            r@ == self.root_segment_name@,
    {
        self.root_segment_name.as_str()
    }

    /// Whether the dialect holds a grammar, ready for use, under the name.
    pub open spec fn resolves(&self, name: Seq<char>) -> bool {
        has_name(self.library@, name) && self.library@[index_of(self.library@, name, 0)].1 is Matchable
    }

    /// The grammar that the dialect holds under the name, if it holds one
    /// that is ready for use.
    pub fn try_ref(&self, name: &str) -> (r: Option<&Grammar>)
        ensures
            r is Some <==> self.resolves(name@),
            r matches Some(g) ==> *g == self.library@[index_of(
                self.library@,
                name@,
                0,
            )].1->Matchable_0,
    {
        let i = find_entry(&self.library, name);
        if i < self.library.len() {
            match &self.library[i].1 {
                DialectElementType::Matchable(g) => Some(g),
                DialectElementType::SegmentGenerator(_) => None,
            }
        } else {
            None
        }
    }

    /// The grammar that the dialect holds under the name.
    pub fn ref_(&self, name: &str) -> (r: &Grammar)
        requires
            self.resolves(name@),
        ensures
            *r == self.library@[index_of(self.library@, name@, 0)].1->Matchable_0,
    {
        match self.try_ref(name) {
            Some(g) => g,
            None => {
                proof {
                    assert(false);
                }
                vstd::pervasive::unreached()
            },
        }
    }

    /// The grammar at which the grammar of the dialect starts.
    pub fn get_root_segment(&self) -> (r: &Grammar)
        requires
            self.resolves(self.root_segment_name@),
        ensures
            *r == self.library@[index_of(
                self.library@,
                self.root_segment_name@,
                0,
            )].1->Matchable_0,
    {
        self.ref_(self.root_segment_name.as_str())
    }
}

/// The ASCII text with its first letter in upper case and the others in
/// lower case.
pub open spec fn capitalized(s: Seq<char>) -> Seq<char> {
    Seq::new(
        s.len(),
        |i: int|
            if i == 0 {
                upper_ascii(s[i])
            } else {
                lower_ascii(s[i])
            },
    )
}

/// The name under which the grammar of a keyword goes.
pub open spec fn keyword_name(kw: Seq<char>) -> Seq<char> {
    capitalized(kw) + "KeywordSegment"@
}

/// The grammar that a generator expands to, over the first `n` words of
/// its set: each word as a token of the kind of the generator.
pub open spec fn generated(words: Seq<String>, kind: SyntaxKind, out: Seq<Grammar>) -> bool {
    &&& out.len() == words.len()
    &&& forall|i: int| 0 <= i < out.len() ==> is_parser_of(#[trigger] out[i], words[i]@, kind)
}

/// Whether the grammar is the token of the text, of the kind.
pub open spec fn is_parser_of(g: Grammar, text: Seq<char>, kind: SyntaxKind) -> bool {
    match g {
        Grammar::StringParser { template, kind: k } => template@ == text && k == kind,
        _ => false,
    }
}

/// The text in upper case, as far as it is ASCII.
pub open spec fn upper(s: Seq<char>) -> Seq<char> {
    s.map_values(|c: char| upper_ascii(c))
}

/// Whether the library holds an entry under the name of the keyword, and
/// that entry, unless it is one of the first `start`, is the token that
/// reads as the keyword does in upper case, as a keyword.
pub open spec fn keyword_entry(
    library: Seq<(String, DialectElementType)>,
    start: int,
    kw: Seq<char>,
) -> bool {
    let at = index_of(library, keyword_name(kw), 0);
    at < library.len() && (at >= start ==> library[at].1 is Matchable && is_parser_of(
        library[at].1->Matchable_0,
        upper(kw),
        SyntaxKind::Keyword,
    ))
}

/// Whether each entry of the library from `start` on is the grammar of one
/// of the keywords, under its name.
pub open spec fn keyword_made(
    library: Seq<(String, DialectElementType)>,
    start: int,
    keywords: Seq<String>,
) -> bool {
    forall|at: int|
        start <= at < library.len() ==> exists|j: int|
            0 <= j < keywords.len() && (#[trigger] library[at]).0@ == keyword_name(
                #[trigger] keywords[j]@,
            ) && library[at].1 is Matchable && is_parser_of(
                library[at].1->Matchable_0,
                upper(keywords[j]@),
                SyntaxKind::Keyword,
            )
}

/// Two keywords that go by the same name read the same in upper case.
pub proof fn lemma_same_keyword(a: Seq<char>, b: Seq<char>)
    requires
        keyword_name(a) == keyword_name(b),
    ensures
        upper(a) == upper(b),
{
    let suffix = "KeywordSegment"@;
    assert(keyword_name(a).len() == a.len() + suffix.len());
    assert(keyword_name(b).len() == b.len() + suffix.len());
    assert(a.len() == b.len());
    assert forall|i: int| 0 <= i < a.len() implies upper(a)[i] == upper(b)[i] by {
        assert(keyword_name(a)[i] == capitalized(a)[i]);
        assert(keyword_name(b)[i] == capitalized(b)[i]);
        assert(capitalized(a)[i] == capitalized(b)[i]);
        lemma_same_letter(a[i], b[i]);
    }
    assert(upper(a) =~= upper(b));
}

/// Two characters that are the same in one case are the same in the other.
pub proof fn lemma_same_letter(x: char, y: char)
    ensures
        lower_ascii(x) == lower_ascii(y) ==> upper_ascii(x) == upper_ascii(y),
{
    let a = x as u32;
    let b = y as u32;
    if lower_ascii(x) == lower_ascii(y) {
        assert(lower_ascii(x) as u32 == lower_ascii(y) as u32);
        assert(upper_ascii(x) as u32 == upper_ascii(y) as u32);
    }
}

/// The entry of a name that a list holds is found at the same place in a
/// list that begins with it.
pub proof fn lemma_index_prefix<T>(a: Seq<(String, T)>, b: Seq<(String, T)>, name: Seq<char>)
    requires
        a.len() <= b.len(),
        b.subrange(0, a.len() as int) == a,
        has_name(a, name),
    ensures
        index_of(b, name, 0) == index_of(a, name, 0),
{
    lemma_index_of(a, name, 0);
    lemma_index_of(b, name, 0);
    let i = index_of(a, name, 0);
    let k = index_of(b, name, 0);
    assert(b.subrange(0, a.len() as int)[i] == b[i]);
    if k < i {
        assert(b.subrange(0, a.len() as int)[k] == b[k]);
    }
}

impl Dialect {
    /// Whether every word of the two sets of keywords is ASCII.
    pub open spec fn keywords_ascii(&self) -> bool {
        &&& forall|i: int|
            0 <= i < self.spec_set("unreserved_keywords"@).len() ==> vstd::utf8::is_ascii_chars(
                (#[trigger] self.spec_set("unreserved_keywords"@)[i])@,
            )
        &&& forall|i: int|
            0 <= i < self.spec_set("reserved_keywords"@).len() ==> vstd::utf8::is_ascii_chars(
                (#[trigger] self.spec_set("reserved_keywords"@)[i])@,
            )
    }

    /// Gives every keyword of the set of the label a grammar of its own,
    /// under the name of the keyword, unless that name is taken.
    fn add_keywords(&mut self, label: &str)
        requires
            !is_bracket_label(label@),
            forall|i: int|
                0 <= i < old(self).spec_set(label@).len() ==> vstd::utf8::is_ascii_chars(
                    (#[trigger] old(self).spec_set(label@)[i])@,
                ),
            forall|i: int| 0 <= i < old(self).library@.len() ==> (#[trigger] old(self).library@[i]).1 is Matchable,
        ensures
            forall|i: int|
                0 <= i < old(self).spec_set(label@).len() ==> has_name(
                    final(self).library@,
                    keyword_name((#[trigger] old(self).spec_set(label@)[i])@),
                ),
            forall|i: int|
                0 <= i < old(self).spec_set(label@).len() ==> keyword_entry(
                    final(self).library@,
                    old(self).library@.len() as int,
                    (#[trigger] old(self).spec_set(label@)[i])@,
                ),
            keyword_made(
                final(self).library@,
                old(self).library@.len() as int,
                old(self).spec_set(label@),
            ),
            final(self).library@.len() >= old(self).library@.len(),
            final(self).library@.subrange(0, old(self).library@.len() as int) == old(self).library@,
            forall|i: int| 0 <= i < final(self).library@.len() ==> (#[trigger] final(self).library@[i]).1 is Matchable,
            final(self).sets == old(self).sets,
            final(self).bracket_collections == old(self).bracket_collections,
            final(self).lexer_matchers == old(self).lexer_matchers,
            final(self).root_segment_name == old(self).root_segment_name,
    {
        let keywords = self.sets(label);
        let ghost start = self.library@;
        let mut i: usize = 0;
        assert(self.library@.subrange(0, start.len() as int) =~= start);
        while i < keywords.len()
            invariant
                i <= keywords@.len(),
                forall|j: int|
                    0 <= j < keywords@.len() ==> vstd::utf8::is_ascii_chars(
                        (#[trigger] keywords@[j])@,
                    ),
                forall|j: int|
                    0 <= j < i ==> has_name(self.library@, keyword_name((#[trigger] keywords@[j])@)),
                forall|j: int|
                    0 <= j < i ==> keyword_entry(
                        self.library@,
                        start.len() as int,
                        (#[trigger] keywords@[j])@,
                    ),
                keyword_made(self.library@, start.len() as int, keywords@.subrange(0, i as int)),
                self.library@.len() >= start.len(),
                self.library@.subrange(0, start.len() as int) == start,
                forall|j: int| 0 <= j < self.library@.len() ==> (#[trigger] self.library@[j]).1 is Matchable,
                self.sets == old(self).sets,
                self.bracket_collections == old(self).bracket_collections,
                self.lexer_matchers == old(self).lexer_matchers,
                self.root_segment_name == old(self).root_segment_name,
            decreases keywords.len() - i,
        {
            let kw = keywords[i].as_str();
            let mut name = capitalize(kw);
            name.append("KeywordSegment");
            assert(name@ =~= keyword_name(kw@));
            let ghost before = self.library@;
            let ghost seen = keywords@.subrange(0, i as int);
            let ghost now = keywords@.subrange(0, i + 1);
            let at = find_entry(&self.library, name.as_str());
            proof {
                lemma_index_of(before, name@, 0);
                assert forall|x: int| start.len() <= x < before.len() implies exists|j: int|
                    0 <= j < now.len() && (#[trigger] before[x]).0@ == keyword_name(
                        #[trigger] now[j]@,
                    ) && before[x].1 is Matchable && is_parser_of(
                        before[x].1->Matchable_0,
                        upper(now[j]@),
                        SyntaxKind::Keyword,
                    ) by {
                    let j = choose|j: int|
                        0 <= j < seen.len() && (#[trigger] before[x]).0@ == keyword_name(
                            #[trigger] seen[j]@,
                        ) && before[x].1 is Matchable && is_parser_of(
                            before[x].1->Matchable_0,
                            upper(seen[j]@),
                            SyntaxKind::Keyword,
                        );
                    assert(now[j] == seen[j]);
                }
                if start.len() <= at < before.len() {
                    let j = choose|j: int|
                        0 <= j < seen.len() && (#[trigger] before[at as int]).0@ == keyword_name(
                            #[trigger] seen[j]@,
                        ) && before[at as int].1 is Matchable && is_parser_of(
                            before[at as int].1->Matchable_0,
                            upper(seen[j]@),
                            SyntaxKind::Keyword,
                        );
                    lemma_same_keyword(seen[j]@, kw@);
                }
            }
            if at == self.library.len() {
                let parser = Grammar::StringParser {
                    template: ascii_upper(kw),
                    kind: SyntaxKind::Keyword,
                };
                self.library.push((name, DialectElementType::Matchable(parser)));
                proof {
                    let entry = self.library@[before.len() as int];
                    assert(self.library@ == before.push(entry));
                    lemma_index_of_push(before, entry, name@, 0);
                    assert(now[i as int] == keywords@[i as int]);
                    assert forall|j: int| 0 <= j < i implies keyword_entry(
                        self.library@,
                        start.len() as int,
                        (#[trigger] keywords@[j])@,
                    ) by {
                        lemma_index_of_push(before, entry, keyword_name(keywords@[j]@), 0);
                    }
                    lemma_has_name_push(before, self.library@[before.len() as int], name@);
                    assert(self.library@.subrange(0, start.len() as int) =~= before.subrange(
                        0,
                        start.len() as int,
                    ));
                    assert forall|j: int| 0 <= j < i implies has_name(
                        self.library@,
                        keyword_name((#[trigger] keywords@[j])@),
                    ) by {
                        lemma_has_name_push(
                            before,
                            self.library@[before.len() as int],
                            keyword_name(keywords@[j]@),
                        );
                    }
                }
            }
            i += 1;
        }
        assert(keywords@.subrange(0, i as int) =~= keywords@);
    }

    /// Makes the dialect ready for use: every generator gives way to the
    /// grammar that it makes of the dialect, and every keyword of the two
    /// sets of keywords gets a grammar of its own under its name, unless that
    /// name is taken.
    pub fn expand(&mut self)
        requires
            old(self).keywords_ascii(),
        ensures
            forall|i: int| 0 <= i < final(self).library@.len() ==> (#[trigger] final(self).library@[i]).1 is Matchable,
            final(self).library@.len() >= old(self).library@.len(),
            forall|i: int|
                0 <= i < old(self).library@.len() ==> {
                    &&& (#[trigger] final(self).library@[i]).0@ == old(self).library@[i].0@
                    &&& match old(self).library@[i].1 {
                        DialectElementType::Matchable(g) => final(self).library@[i].1
                            == DialectElementType::Matchable(g),
                        DialectElementType::SegmentGenerator(gen) => final(self).library@[i].1 matches DialectElementType::Matchable(Grammar::OneOf(out))
                            && generated(old(self).spec_set(gen.set_label@), gen.kind, out@),
                    }
                },
            forall|i: int|
                0 <= i < old(self).spec_set("unreserved_keywords"@).len() ==> has_name(
                    final(self).library@,
                    keyword_name((#[trigger] old(self).spec_set("unreserved_keywords"@)[i])@),
                ),
            forall|i: int|
                0 <= i < old(self).spec_set("reserved_keywords"@).len() ==> has_name(
                    final(self).library@,
                    keyword_name((#[trigger] old(self).spec_set("reserved_keywords"@)[i])@),
                ),
            forall|i: int|
                0 <= i < old(self).spec_set("unreserved_keywords"@).len() ==> keyword_entry(
                    final(self).library@,
                    old(self).library@.len() as int,
                    (#[trigger] old(self).spec_set("unreserved_keywords"@)[i])@,
                ),
            forall|i: int|
                0 <= i < old(self).spec_set("reserved_keywords"@).len() ==> keyword_entry(
                    final(self).library@,
                    old(self).library@.len() as int,
                    (#[trigger] old(self).spec_set("reserved_keywords"@)[i])@,
                ),
            final(self).sets == old(self).sets,
            final(self).bracket_collections == old(self).bracket_collections,
            final(self).lexer_matchers == old(self).lexer_matchers,
            final(self).root_segment_name == old(self).root_segment_name,
    {
        let ghost start = self.library@;
        let n = self.library.len();
        let mut i: usize = 0;
        while i < n
            invariant
                i <= n,
                n == start.len(),
                self.library@.len() == n,
                start == old(self).library@,
                self.sets == old(self).sets,
                self.bracket_collections == old(self).bracket_collections,
                self.lexer_matchers == old(self).lexer_matchers,
                self.root_segment_name == old(self).root_segment_name,
                forall|j: int| i <= j < n ==> (#[trigger] self.library@[j]) == start[j],
                forall|j: int|
                    0 <= j < i ==> {
                        &&& (#[trigger] self.library@[j]).0@ == start[j].0@
                        &&& self.library@[j].1 is Matchable
                        &&& match start[j].1 {
                            DialectElementType::Matchable(g) => self.library@[j].1
                                == DialectElementType::Matchable(g),
                            DialectElementType::SegmentGenerator(gen) => self.library@[j].1 matches DialectElementType::Matchable(
                                Grammar::OneOf(out),
                            ) && generated(old(self).spec_set(gen.set_label@), gen.kind, out@),
                        }
                    },
            decreases n - i,
        {
            let made = match &self.library[i].1 {
                DialectElementType::Matchable(_) => None,
                DialectElementType::SegmentGenerator(generator) => {
                    let j = find_entry(&self.sets, generator.set_label.as_str());
                    let mut out: Vec<Grammar> = Vec::new();
                    if j < self.sets.len() {
                        let words = &self.sets[j].1;
                        let mut k: usize = 0;
                        while k < words.len()
                            invariant
                                k <= words@.len(),
                                out@.len() == k,
                                forall|m: int|
                                    0 <= m < k ==> is_parser_of(
                                        #[trigger] out@[m],
                                        words@[m]@,
                                        generator.kind,
                                    ),
                            decreases words.len() - k,
                        {
                            out.push(
                                Grammar::StringParser {
                                    template: words[k].clone(),
                                    kind: generator.kind,
                                },
                            );
                            k += 1;
                        }
                    }
                    Some((self.library[i].0.clone(), DialectElementType::Matchable(Grammar::OneOf(out))))
                },
            };
            match made {
                Some(entry) => {
                    self.library.set(i, entry);
                },
                None => {},
            }
            i += 1;
        }
        proof {
            reveal_strlit("unreserved_keywords");
            reveal_strlit("reserved_keywords");
            reveal_strlit("bracket_pairs");
            reveal_strlit("angle_bracket_pairs");
            assert("unreserved_keywords"@[0] == 'u');
            assert("angle_bracket_pairs"@[0] == 'a');
            assert("reserved_keywords"@.len() == 17);
            assert("bracket_pairs"@.len() == 13);
            assert("angle_bracket_pairs"@.len() == 19);
        }
        let ghost at_mid = *self;
        let ghost mid = self.library@;
        self.add_keywords("unreserved_keywords");
        let ghost mid2 = self.library@;
        let ghost at_mid2 = *self;
        self.add_keywords("reserved_keywords");
        proof {
            let unreserved = old(self).spec_set("unreserved_keywords"@);
            let reserved = old(self).spec_set("reserved_keywords"@);
            assert(at_mid.spec_set("unreserved_keywords"@) == unreserved);
            assert(at_mid2.spec_set("reserved_keywords"@) == reserved);
            assert forall|i: int| 0 <= i < unreserved.len() implies keyword_entry(
                self.library@,
                start.len() as int,
                (#[trigger] unreserved[i])@,
            ) by {
                let kw = unreserved[i]@;
                assert(keyword_entry(mid2, mid.len() as int, kw));
                lemma_index_of(mid2, keyword_name(kw), 0);
                lemma_index_prefix(mid2, self.library@, keyword_name(kw));
                let at = index_of(mid2, keyword_name(kw), 0);
                assert(self.library@.subrange(0, mid2.len() as int)[at] == self.library@[at]);
            }
            assert forall|i: int| 0 <= i < reserved.len() implies keyword_entry(
                self.library@,
                start.len() as int,
                (#[trigger] reserved[i])@,
            ) by {
                let kw = reserved[i]@;
                assert(keyword_entry(self.library@, mid2.len() as int, kw));
                let at = index_of(self.library@, keyword_name(kw), 0);
                lemma_index_of(self.library@, keyword_name(kw), 0);
                if start.len() <= at < mid2.len() {
                    assert(self.library@.subrange(0, mid2.len() as int)[at] == self.library@[at]);
                    let j = choose|j: int|
                        0 <= j < unreserved.len() && (#[trigger] mid2[at]).0@ == keyword_name(
                            #[trigger] unreserved[j]@,
                        ) && mid2[at].1 is Matchable && is_parser_of(
                            mid2[at].1->Matchable_0,
                            upper(unreserved[j]@),
                            SyntaxKind::Keyword,
                        );
                    lemma_same_keyword(unreserved[j]@, kw);
                }
            }
            assert forall|i: int|
                0 <= i < old(self).spec_set("reserved_keywords"@).len() implies has_name(
                self.library@,
                keyword_name((#[trigger] old(self).spec_set("reserved_keywords"@)[i])@),
            ) by {
                assert(at_mid2.spec_set("reserved_keywords"@) == old(self).spec_set(
                    "reserved_keywords"@,
                ));
                assert(has_name(
                    self.library@,
                    keyword_name(at_mid2.spec_set("reserved_keywords"@)[i]@),
                ));
            }
            reveal_strlit("unreserved_keywords");
            reveal_strlit("reserved_keywords");
            reveal_strlit("bracket_pairs");
            reveal_strlit("angle_bracket_pairs");
            assert forall|i: int| 0 <= i < start.len() implies (#[trigger] self.library@[i])
                == mid[i] by {
                assert(mid2.subrange(0, mid.len() as int)[i] == mid[i]);
                assert(self.library@.subrange(0, mid2.len() as int)[i] == mid2[i]);
            }
            assert forall|i: int|
                0 <= i < old(self).spec_set("unreserved_keywords"@).len() implies has_name(
                self.library@,
                keyword_name((#[trigger] old(self).spec_set("unreserved_keywords"@)[i])@),
            ) by {
                assert(at_mid.spec_set("unreserved_keywords"@) == old(self).spec_set(
                    "unreserved_keywords"@,
                ));
                assert(has_name(
                    mid2,
                    keyword_name(at_mid.spec_set("unreserved_keywords"@)[i]@),
                ));
                lemma_has_name_extends(
                    mid2,
                    self.library@,
                    keyword_name(old(self).spec_set("unreserved_keywords"@)[i]@),
                );
            }
        }
    }
}

/// A name that an entry goes by is still one when an entry is added.
pub proof fn lemma_has_name_push<T>(entries: Seq<(String, T)>, x: (String, T), name: Seq<char>)
    ensures
        has_name(entries, name) ==> has_name(entries.push(x), name),
        x.0@ == name ==> has_name(entries.push(x), name),
{
    assert(entries.push(x).subrange(0, entries.len() as int) =~= entries);
    lemma_has_name_extends(entries, entries.push(x), name);
    if x.0@ == name {
        lemma_index_of(entries.push(x), name, 0);
        if index_of(entries.push(x), name, 0) == entries.push(x).len() {
            assert(entries.push(x)[entries.len() as int].0@ != name);
        }
    }
}

/// A name that an entry goes by is still one when entries are added.
pub proof fn lemma_has_name_extends<T>(a: Seq<(String, T)>, b: Seq<(String, T)>, name: Seq<char>)
    requires
        a.len() <= b.len(),
        b.subrange(0, a.len() as int) == a,
    ensures
        has_name(a, name) ==> has_name(b, name),
{
    lemma_index_of(a, name, 0);
    lemma_index_of(b, name, 0);
    if has_name(a, name) {
        let i = index_of(a, name, 0);
        assert(b.subrange(0, a.len() as int)[i] == b[i]);
        if index_of(b, name, 0) == b.len() {
            assert(b[i].0@ != name);
        }
    }
}

/// Whether the two pairs are the same: same names, same persistence.
pub open spec fn same_pair(a: BracketPair, b: BracketPair) -> bool {
    a.0@ == b.0@ && a.1@ == b.1@ && a.2@ == b.2@ && a.3 == b.3
}

/// Whether the pair is among the pairs.
pub open spec fn has_pair(pairs: Seq<BracketPair>, p: BracketPair) -> bool {
    exists|i: int| 0 <= i < pairs.len() && same_pair(#[trigger] pairs[i], p)
}

/// Whether the pair is among the pairs.
pub fn contains_pair(pairs: &Vec<BracketPair>, p: &BracketPair) -> (r: bool)
    ensures
        r == has_pair(pairs@, *p),
{
    let mut i: usize = 0;
    while i < pairs.len()
        invariant
            i <= pairs@.len(),
            forall|j: int| 0 <= j < i ==> !same_pair(#[trigger] pairs@[j], *p),
        decreases pairs.len() - i,
    {
        let q = &pairs[i];
        if str_eq(q.0.as_str(), p.0.as_str()) && str_eq(q.1.as_str(), p.1.as_str()) && str_eq(
            q.2.as_str(),
            p.2.as_str(),
        ) && q.3 == p.3 {
            return true;
        }
        i += 1;
    }
    false
}

/// The lines of a text, as `str::lines` cuts it.
pub uninterp spec fn lines_of(s: Seq<char>) -> Seq<Seq<char>>;

/// A text without the white space at its two ends, as `str::trim` leaves it.
pub uninterp spec fn trimmed(s: Seq<char>) -> Seq<char>;

/// `str::lines`: the lines of the text, in order, each without the line
/// ending that closed it.
#[verifier::external_body]
pub(crate) fn str_lines(s: &str) -> (r: Vec<String>)
    ensures
        r@.len() == lines_of(s@).len(),
        forall|i: int| 0 <= i < r@.len() ==> (#[trigger] r@[i])@ == lines_of(s@)[i],
{
    s.lines().map(|l| l.to_string()).collect()
}

/// A character of ASCII that is printed in ink: none of these is white
/// space.
pub open spec fn is_inked(c: char) -> bool {
    '!' <= c <= '~'
}

/// Whether the text holds a character that is printed in ink.
pub open spec fn has_ink(s: Seq<char>) -> bool {
    exists|i: int| 0 <= i < s.len() && is_inked(#[trigger] s[i])
}

/// Whether `t` is a stretch of `s`.
pub open spec fn is_stretch_of(t: Seq<char>, s: Seq<char>) -> bool {
    exists|a: int, b: int| 0 <= a <= b <= s.len() && t == #[trigger] s.subrange(a, b)
}

/// `str::trim`: the text without the white space at its two ends. It is a
/// stretch of the text, and it is not empty where the text holds a
/// character that is printed in ink.
#[verifier::external_body]
pub(crate) fn str_trim(s: &str) -> (r: String)
    ensures
        r@ == trimmed(s@),
        is_stretch_of(r@, s@),
        has_ink(s@) ==> r@.len() > 0,
{
    s.trim().to_string()
}

} // verus!
