//! The bookmark store: named paths, kept in order, one entry per path, and the
//! multi-word filter over them.
use vstd::prelude::*;

use crate::text::{
    all_blank, chars_le, chars_of, chars_view, contains_chars, flush, has_substring, is_blank,
    is_word, lower_of, lowercase_chars, seq_le, split_words, words_from, words_of,
};

verus! {

broadcast use {vstd::multiset::group_multiset_axioms, vstd::seq_lib::group_to_multiset_ensures};

/// One bookmark. Two entries are the same bookmark when their paths are equal.
#[derive(Debug, Clone)]
pub struct PathItem {
    pub name: String,
    pub full_path: String,
    pub description: String,
}

impl PathItem {
    pub fn new(name: String, full_path: String, description: String) -> (r: Self)
        ensures
            r.name@ == name@,
            r.full_path@ == full_path@,
            r.description@ == description@,
    {
        PathItem { name, full_path, description }
    }

    /// A copy of this entry, field by field.
    pub fn duplicate(&self) -> (r: Self)
        ensures
            r == *self,
    {
        PathItem {
            name: self.name.clone(),
            full_path: self.full_path.clone(),
            description: self.description.clone(),
        }
    }
}

impl PartialEq for PathItem {
    fn eq(&self, other: &Self) -> (r: bool)
        ensures
            r == (self.full_path@ == other.full_path@),
    {
        self.full_path == other.full_path
    }
}

impl vstd::std_specs::cmp::PartialEqSpecImpl for PathItem {
    open spec fn obeys_eq_spec() -> bool {
        true
    }

    open spec fn eq_spec(&self, other: &PathItem) -> bool {
        self.full_path@ == other.full_path@
    }
}

impl Eq for PathItem {

}

/// The ordered list of bookmarks.
#[derive(Debug, Default)]
pub struct PathItems {
    pub paths: Vec<PathItem>,
}

impl View for PathItems {
    type V = Seq<PathItem>;

    open spec fn view(&self) -> Seq<PathItem> {
        self.paths@
    }
}

/// No two entries share a path.
pub open spec fn paths_unique(s: Seq<PathItem>) -> bool {
    forall|i: int, j: int|
        0 <= i < s.len() && 0 <= j < s.len() && i != j ==> #[trigger] s[i].full_path@
            != #[trigger] s[j].full_path@
}

/// Some entry has the given path.
pub open spec fn has_path(s: Seq<PathItem>, path: Seq<char>) -> bool {
    exists|i: int| 0 <= i < s.len() && #[trigger] s[i].full_path@ == path
}

/// The entries whose path differs from `path`, in their order.
pub open spec fn without_path(s: Seq<PathItem>, path: Seq<char>) -> Seq<PathItem>
    decreases s.len(),
{
    if s.len() == 0 {
        seq![]
    } else {
        let rest = without_path(s.drop_last(), path);
        if s.last().full_path@ == path {
            rest
        } else {
            rest.push(s.last())
        }
    }
}

/// The store after adding `e`: any entry with its path leaves, `e` goes last.
pub open spec fn added(s: Seq<PathItem>, e: PathItem) -> Seq<PathItem> {
    without_path(s, e.full_path@).push(e)
}

/// A search term matches an entry when it stands in the path, or when its
/// lowercase form stands in the lowercase name.
pub open spec fn term_matches(e: PathItem, term: Seq<char>) -> bool {
    has_substring(e.full_path@, term) || has_substring(lower_of(e.name@), lower_of(term))
}

/// Every term matches the entry.
pub open spec fn matches_all(e: PathItem, terms: Seq<Seq<char>>) -> bool {
    forall|k: int| 0 <= k < terms.len() ==> term_matches(e, #[trigger] terms[k])
}

/// The indices among the first `n` entries that every term matches, ascending.
pub open spec fn hits(s: Seq<PathItem>, terms: Seq<Seq<char>>, n: nat) -> Seq<usize>
    decreases n,
{
    if n == 0 {
        seq![]
    } else {
        let prev = hits(s, terms, (n - 1) as nat);
        if matches_all(s[n - 1], terms) {
            prev.push((n - 1) as usize)
        } else {
            prev
        }
    }
}

/// The indices of the entries that match every word of `search`, in store order.
pub open spec fn filter_hits(s: Seq<PathItem>, search: Seq<char>) -> Seq<usize> {
    hits(s, words_of(search), s.len())
}

/// Entries are in ascending order of path.
pub open spec fn path_sorted(s: Seq<PathItem>) -> bool {
    forall|i: int, j: int|
        0 <= i < j < s.len() ==> seq_le(#[trigger] s[i].full_path@, #[trigger] s[j].full_path@)
}

proof fn lemma_without_step(s: Seq<PathItem>, path: Seq<char>, j: int)
    requires
        0 <= j < s.len(),
    ensures
        without_path(s.take(j + 1), path) == if s[j].full_path@ == path {
            without_path(s.take(j), path)
        } else {
            without_path(s.take(j), path).push(s[j])
        },
{
    assert(s.take(j + 1).drop_last() =~= s.take(j));
}

proof fn lemma_without_absent(s: Seq<PathItem>, path: Seq<char>)
    requires
        !has_path(s, path),
    ensures
        without_path(s, path) == s,
    decreases s.len(),
{
    if s.len() > 0 {
        assert(!has_path(s.drop_last(), path)) by {
            if has_path(s.drop_last(), path) {
                let i = choose|i: int|
                    0 <= i < s.drop_last().len() && #[trigger] s.drop_last()[i].full_path@ == path;
                assert(s[i].full_path@ == path);
            }
        }
        lemma_without_absent(s.drop_last(), path);
        assert(s.last().full_path@ != path) by {
            assert(s[s.len() - 1].full_path@ == s.last().full_path@);
        }
        assert(s.drop_last().push(s.last()) =~= s);
    }
}

proof fn lemma_without_unique(s: Seq<PathItem>, i: int)
    requires
        paths_unique(s),
        0 <= i < s.len(),
    ensures
        without_path(s, s[i].full_path@) == s.remove(i),
    decreases s.len(),
{
    let path = s[i].full_path@;
    let front = s.drop_last();
    assert(paths_unique(front));
    if i == s.len() - 1 {
        assert(!has_path(front, path)) by {
            if has_path(front, path) {
                let k = choose|k: int| 0 <= k < front.len() && #[trigger] front[k].full_path@ == path;
                assert(s[k].full_path@ == s[i].full_path@);
            }
        }
        lemma_without_absent(front, path);
        assert(s.remove(i) =~= front);
    } else {
        assert(s[s.len() - 1].full_path@ != path);
        assert(front[i] == s[i]);
        lemma_without_unique(front, i);
        assert(front.remove(i).push(s.last()) =~= s.remove(i));
    }
}

proof fn lemma_without_keeps_unique(s: Seq<PathItem>, path: Seq<char>)
    ensures
        !has_path(without_path(s, path), path),
        forall|x: PathItem| without_path(s, path).contains(x) ==> s.contains(x),
        paths_unique(s) ==> paths_unique(without_path(s, path)),
    decreases s.len(),
{
    if s.len() > 0 {
        let front = s.drop_last();
        lemma_without_keeps_unique(front, path);
        let rest = without_path(front, path);
        let w = without_path(s, path);
        assert forall|x: PathItem| w.contains(x) implies s.contains(x) by {
            if rest.contains(x) {
                assert(front.contains(x));
                let k = choose|k: int| 0 <= k < front.len() && front[k] == x;
                assert(s[k] == x);
            } else {
                let k = choose|k: int| 0 <= k < w.len() && w[k] == x;
                if s.last().full_path@ == path {
                    assert(rest[k] == x);
                } else {
                    if k < rest.len() {
                        assert(rest[k] == x);
                    }
                    assert(s[s.len() - 1] == x);
                }
            }
        }
        if paths_unique(s) {
            assert(paths_unique(front));
            if s.last().full_path@ != path {
                assert forall|a: int, b: int|
                    0 <= a < rest.push(s.last()).len() && 0 <= b < rest.push(s.last()).len() && a
                        != b implies #[trigger] rest.push(s.last())[a].full_path@
                    != #[trigger] rest.push(s.last())[b].full_path@ by {
                    if a == rest.len() || b == rest.len() {
                        let other = if a == rest.len() {
                            b
                        } else {
                            a
                        };
                        assert(rest.contains(rest[other]));
                        assert(front.contains(rest[other]));
                        let k = choose|k: int| 0 <= k < front.len() && front[k] == rest[other];
                        assert(s[k] == front[k]);
                        assert(s[s.len() - 1] == s.last());
                        assert(s[k].full_path@ != s[s.len() - 1].full_path@);
                    }
                }
            }
        }
        if s.last().full_path@ != path {
            let r = rest.push(s.last());
            assert(!has_path(r, path)) by {
                if has_path(r, path) {
                    let k = choose|k: int| 0 <= k < r.len() && #[trigger] r[k].full_path@ == path;
                    if k < rest.len() {
                        assert(rest[k].full_path@ == path);
                    }
                }
            }
        }
    }
}

proof fn lemma_le_total(a: Seq<char>, b: Seq<char>)
    ensures
        seq_le(a, b) || seq_le(b, a),
    decreases a.len(),
{
    if a.len() > 0 && b.len() > 0 && (a[0] as u32) == (b[0] as u32) {
        lemma_le_total(a.drop_first(), b.drop_first());
    }
}

proof fn lemma_le_trans(a: Seq<char>, b: Seq<char>, c: Seq<char>)
    requires
        seq_le(a, b),
        seq_le(b, c),
    ensures
        seq_le(a, c),
    decreases a.len(),
{
    if a.len() > 0 && b.len() > 0 && c.len() > 0 && (a[0] as u32) == (b[0] as u32) && (b[0] as u32)
        == (c[0] as u32) {
        lemma_le_trans(a.drop_first(), b.drop_first(), c.drop_first());
    }
}

proof fn lemma_hits_facts(s: Seq<PathItem>, terms: Seq<Seq<char>>, n: nat)
    requires
        n <= s.len(),
        s.len() <= usize::MAX,
    ensures
        forall|k: int| 0 <= k < hits(s, terms, n).len() ==> #[trigger] hits(s, terms, n)[k] < n,
        forall|a: int, b: int|
            0 <= a < b < hits(s, terms, n).len() ==> #[trigger] hits(s, terms, n)[a]
                < #[trigger] hits(s, terms, n)[b],
        forall|x: int|
            0 <= x < n ==> (hits(s, terms, n).contains(x as usize) <==> matches_all(
                #[trigger] s[x],
                terms,
            )),
        hits(s, terms, n).len() <= n,
    decreases n,
{
    if n > 0 {
        lemma_hits_facts(s, terms, (n - 1) as nat);
        let prev = hits(s, terms, (n - 1) as nat);
        assert forall|x: int|
            0 <= x < n implies (hits(s, terms, n).contains(x as usize) <==> matches_all(
            #[trigger] s[x],
            terms,
        )) by {
            if x < n - 1 {
                if matches_all(s[n - 1], terms) {
                    let grown = prev.push((n - 1) as usize);
                    if grown.contains(x as usize) {
                        let k = choose|k: int| 0 <= k < grown.len() && grown[k] == x as usize;
                        assert(k < prev.len());
                        assert(prev[k] == x as usize);
                    }
                    if prev.contains(x as usize) {
                        let k = choose|k: int| 0 <= k < prev.len() && prev[k] == x as usize;
                        assert(grown[k] == x as usize);
                    }
                }
            } else {
                if matches_all(s[n - 1], terms) {
                    assert(prev.push((n - 1) as usize)[prev.len() as int] == x as usize);
                } else {
                    if prev.contains(x as usize) {
                        let k = choose|k: int| 0 <= k < prev.len() && prev[k] == x as usize;
                        assert(prev[k] < n - 1);
                    }
                }
            }
        }
    }
}

proof fn lemma_hits_no_terms(s: Seq<PathItem>, n: nat)
    requires
        n <= s.len(),
        s.len() <= usize::MAX,
    ensures
        hits(s, seq![], n) == Seq::new(n, |i: int| i as usize),
    decreases n,
{
    if n > 0 {
        lemma_hits_no_terms(s, (n - 1) as nat);
        assert(matches_all(s[n - 1], seq![]));
        assert(Seq::new((n - 1) as nat, |i: int| i as usize).push((n - 1) as usize) =~= Seq::new(
            n,
            |i: int| i as usize,
        ));
    } else {
        assert(Seq::new(0, |i: int| i as usize) =~= seq![]);
    }
}

proof fn lemma_words_all_blank(s: Seq<char>)
    requires
        all_blank(s),
    ensures
        words_from(s, seq![]) == Seq::<Seq<char>>::empty(),
    decreases s.len(),
{
    if s.len() > 0 {
        assert(all_blank(s.drop_first()));
        lemma_words_all_blank(s.drop_first());
        assert(is_blank(s[0]));
        assert(words_from(s, seq![]) =~= seq![] + words_from(s.drop_first(), seq![]));
    }
}

proof fn lemma_words_are_words(s: Seq<char>, cur: Seq<char>)
    requires
        forall|i: int| 0 <= i < cur.len() ==> !is_blank(#[trigger] cur[i]),
    ensures
        forall|k: int|
            0 <= k < words_from(s, cur).len() ==> is_word(#[trigger] words_from(s, cur)[k]),
    decreases s.len(),
{
    if cur.len() > 0 {
        assert(is_word(cur));
        assert(flush(cur)[0] == cur);
    }
    if s.len() == 0 {
        assert forall|k: int|
            0 <= k < words_from(s, cur).len() implies is_word(#[trigger] words_from(s, cur)[k]) by {
            assert(words_from(s, cur) == flush(cur));
            assert(words_from(s, cur)[k] == cur);
        }
    } else if is_blank(s[0]) {
        lemma_words_are_words(s.drop_first(), seq![]);
        let tail = words_from(s.drop_first(), seq![]);
        assert forall|k: int|
            0 <= k < words_from(s, cur).len() implies is_word(#[trigger] words_from(s, cur)[k]) by {
            if k >= flush(cur).len() {
                assert(words_from(s, cur)[k] == tail[k - flush(cur).len()]);
            } else {
                assert(words_from(s, cur)[k] == cur);
            }
        }
    } else {
        let next = cur.push(s[0]);
        assert forall|i: int| 0 <= i < next.len() implies !is_blank(#[trigger] next[i]) by {
            if i < cur.len() {
                assert(next[i] == cur[i]);
            }
        }
        lemma_words_are_words(s.drop_first(), next);
        assert(words_from(s, cur) == words_from(s.drop_first(), next));
    }
}

proof fn lemma_word_alone(w: Seq<char>, cur: Seq<char>)
    requires
        forall|i: int| 0 <= i < w.len() ==> !is_blank(#[trigger] w[i]),
    ensures
        words_from(w, cur) == flush(cur + w),
    decreases w.len(),
{
    if w.len() > 0 {
        assert(forall|i: int|
            0 <= i < w.drop_first().len() ==> #[trigger] w.drop_first()[i] == w[i + 1]);
        lemma_word_alone(w.drop_first(), cur.push(w[0]));
        assert(cur.push(w[0]) + w.drop_first() =~= cur + w);
    } else {
        assert(cur + w =~= cur);
    }
}

impl PathItems {
    /// Reorders the entries by path, in ascending lexicographic order.
    pub fn sort(&mut self)
        ensures
            path_sorted(final(self)@),
            final(self)@.to_multiset() == old(self)@.to_multiset(),
    {
        let mut rest: Vec<PathItem> = Vec::new();
        std::mem::swap(&mut rest, &mut self.paths);
        let ghost orig = rest@;
        let mut sorted: Vec<PathItem> = Vec::new();
        while rest.len() > 0
            invariant
                path_sorted(sorted@),
                sorted@.to_multiset().add(rest@.to_multiset()) == orig.to_multiset(),
            decreases rest@.len(),
        {
            let ghost before = rest@;
            let item = rest.pop().unwrap();
            proof {
                assert(before =~= rest@.push(item));
                vstd::seq_lib::to_multiset_build(rest@, item);
            }
            let key = chars_of(&item.full_path);
            let mut pos: usize = 0;
            while pos < sorted.len() && chars_le(&chars_of(&sorted[pos].full_path), &key)
                invariant
                    pos <= sorted@.len(),
                    key@ == item.full_path@,
                    forall|k: int| 0 <= k < pos ==> seq_le(#[trigger] sorted@[k].full_path@, key@),
                decreases sorted@.len() - pos,
            {
                pos += 1;
            }
            proof {
                assert forall|k: int| pos <= k < sorted@.len() implies seq_le(
                    key@,
                    #[trigger] sorted@[k].full_path@,
                ) by {
                    lemma_le_total(sorted@[pos as int].full_path@, key@);
                    if k > pos {
                        lemma_le_trans(
                            key@,
                            sorted@[pos as int].full_path@,
                            sorted@[k].full_path@,
                        );
                    }
                }
                vstd::seq_lib::to_multiset_insert(sorted@, pos as int, item);
            }
            let ghost old_sorted = sorted@;
            sorted.insert(pos, item);
            proof {
                assert forall|i: int, j: int| 0 <= i < j < sorted@.len() implies seq_le(
                    #[trigger] sorted@[i].full_path@,
                    #[trigger] sorted@[j].full_path@,
                ) by {
                    if i < pos && j > pos {
                        lemma_le_trans(
                            sorted@[i].full_path@,
                            key@,
                            sorted@[j].full_path@,
                        );
                    }
                    if j < pos {
                        assert(sorted@[i] == old_sorted[i] && sorted@[j] == old_sorted[j]);
                    } else if i > pos {
                        assert(sorted@[i] == old_sorted[i - 1] && sorted@[j] == old_sorted[j - 1]);
                    } else if i < pos {
                        assert(sorted@[i] == old_sorted[i]);
                    } else {
                        assert(sorted@[j] == old_sorted[j - 1]);
                    }
                }
                assert(sorted@.to_multiset().add(rest@.to_multiset()) =~= orig.to_multiset());
            }
        }
        proof {
            assert(rest@.to_multiset() =~= vstd::multiset::Multiset::empty());
            assert(sorted@.to_multiset() =~= orig.to_multiset());
        }
        self.paths = sorted;
    }

    /// Adds an entry; an entry with the same path leaves first, so that the
    /// new one stands last.
    pub fn add_path(&mut self, path: PathItem)
        ensures
            final(self)@ == added(old(self)@, path),
    {
        let ghost orig = self.paths@;
        let ghost mut j: int = 0;
        let mut i: usize = 0;
        assert(orig.take(0) =~= seq![]);
        assert(orig.skip(0) =~= orig);
        while i < self.paths.len()
            invariant
                0 <= j <= orig.len(),
                i == without_path(orig.take(j), path.full_path@).len(),
                self.paths@ == without_path(orig.take(j), path.full_path@) + orig.skip(j),
            decreases self.paths@.len() - i,
        {
            proof {
                lemma_without_step(orig, path.full_path@, j);
                assert(self.paths@[i as int] == orig[j]);
            }
            if self.paths[i].full_path == path.full_path {
                self.paths.remove(i);
                proof {
                    assert(self.paths@ =~= without_path(orig.take(j + 1), path.full_path@)
                        + orig.skip(j + 1));
                }
            } else {
                proof {
                    assert(self.paths@ =~= without_path(orig.take(j + 1), path.full_path@)
                        + orig.skip(j + 1));
                }
                i += 1;
            }
            proof {
                j = j + 1;
            }
        }
        proof {
            assert(orig.take(orig.len() as int) =~= orig);
            assert(self.paths@ =~= without_path(orig, path.full_path@));
        }
        self.paths.push(path);
    }

    /// Whether some entry has exactly this path.
    pub fn path_exists(&self, path: &str) -> (r: bool)
        ensures
            r == has_path(self@, path@),
    {
        let wanted = path.to_owned();
        let mut i: usize = 0;
        while i < self.paths.len()
            invariant
                i <= self@.len(),
                wanted@ == path@,
                forall|k: int| 0 <= k < i ==> #[trigger] self@[k].full_path@ != path@,
            decreases self@.len() - i,
        {
            if self.paths[i].full_path == wanted {
                return true;
            }
            i += 1;
        }
        false
    }

    /// The indices of the entries that match every word of `search`, in
    /// store order.
    pub fn filter_indices(&self, search: &str) -> (r: Vec<usize>)
        ensures
            r@ == filter_hits(self@, search@),
    {
        let terms = split_words(&chars_of(search));
        let ghost words = words_of(search@);
        let mut lowered: Vec<Vec<char>> = Vec::new();
        let mut k: usize = 0;
        while k < terms.len()
            invariant
                k <= terms@.len(),
                chars_view(terms@) == words,
                lowered@.len() == k,
                forall|m: int| 0 <= m < k ==> #[trigger] lowered@[m]@ == lower_of(terms@[m]@),
            decreases terms@.len() - k,
        {
            lowered.push(lowercase_chars(&terms[k]));
            k += 1;
        }
        let mut r: Vec<usize> = Vec::new();
        let mut i: usize = 0;
        while i < self.paths.len()
            invariant
                i <= self@.len(),
                chars_view(terms@) == words,
                lowered@.len() == terms@.len(),
                forall|m: int| 0 <= m < terms@.len() ==> #[trigger] lowered@[m]@ == lower_of(terms@[m]@),
                r@ == hits(self@, words, i as nat),
            decreases self@.len() - i,
        {
            if entry_matches(&self.paths[i], &terms, &lowered) {
                r.push(i);
            }
            i += 1;
        }
        r
    }

    /// The entries that match every word of `search`, in store order.
    pub fn filter<'a>(&'a self, search: &str) -> (r: Vec<&'a PathItem>)
        ensures
            r@.len() == filter_hits(self@, search@).len(),
            forall|k: int|
                0 <= k < r@.len() ==> *r@[k] == self@[#[trigger] filter_hits(self@, search@)[k] as int],
    {
        let idx = self.filter_indices(search);
        let len = self.paths.len();
        proof {
            assert(self@.len() == len);
            lemma_hits_facts(self@, words_of(search@), self@.len());
        }
        let mut r: Vec<&'a PathItem> = Vec::new();
        let mut k: usize = 0;
        while k < idx.len()
            invariant
                k <= idx@.len(),
                idx@ == filter_hits(self@, search@),
                forall|m: int| 0 <= m < idx@.len() ==> #[trigger] idx@[m] < self@.len(),
                r@.len() == k,
                forall|m: int| 0 <= m < k ==> *r@[m] == self@[#[trigger] idx@[m] as int],
            decreases idx@.len() - k,
        {
            r.push(&self.paths[idx[k]]);
            k += 1;
        }
        r
    }
}

fn entry_matches(item: &PathItem, terms: &Vec<Vec<char>>, lowered: &Vec<Vec<char>>) -> (r: bool)
    requires
        lowered@.len() == terms@.len(),
        forall|m: int| 0 <= m < terms@.len() ==> #[trigger] lowered@[m]@ == lower_of(terms@[m]@),
    ensures
        r == matches_all(*item, chars_view(terms@)),
{
    let path = chars_of(&item.full_path);
    let name = lowercase_chars(&chars_of(&item.name));
    let mut k: usize = 0;
    while k < terms.len()
        invariant
            k <= terms@.len(),
            lowered@.len() == terms@.len(),
            forall|m: int| 0 <= m < terms@.len() ==> #[trigger] lowered@[m]@ == lower_of(terms@[m]@),
            path@ == item.full_path@,
            name@ == lower_of(item.name@),
            forall|m: int| 0 <= m < k ==> term_matches(*item, #[trigger] chars_view(terms@)[m]),
        decreases terms@.len() - k,
    {
        if !contains_chars(&path, &terms[k]) && !contains_chars(&name, &lowered[k]) {
            assert(chars_view(terms@)[k as int] == terms@[k as int]@);
            assert(!term_matches(*item, chars_view(terms@)[k as int]));
            return false;
        }
        k += 1;
    }
    true
}

/// The filter returns entries in the order in which the store holds them:
/// the indices it picks are strictly ascending, and each is an index of the store.
pub proof fn lemma_filter_keeps_order(s: Seq<PathItem>, search: Seq<char>)
    requires
        s.len() <= usize::MAX,
    ensures
        forall|k: int|
            0 <= k < filter_hits(s, search).len() ==> #[trigger] filter_hits(s, search)[k] < s.len(),
        forall|a: int, b: int|
            0 <= a < b < filter_hits(s, search).len() ==> #[trigger] filter_hits(s, search)[a]
                < #[trigger] filter_hits(s, search)[b],
{
    lemma_hits_facts(s, words_of(search), s.len());
}

/// A search made of blanks alone (the empty one among them) returns every
/// entry, in order.
pub proof fn lemma_blank_search_keeps_all(s: Seq<PathItem>, search: Seq<char>)
    requires
        s.len() <= usize::MAX,
        all_blank(search),
    ensures
        filter_hits(s, search) == Seq::new(s.len(), |i: int| i as usize),
{
    lemma_words_all_blank(search);
    lemma_hits_no_terms(s, s.len());
}

/// Each word of a search narrows it: whatever the whole search returns, the
/// search for any one of its words returns too.
pub proof fn lemma_filter_needs_every_word(s: Seq<PathItem>, search: Seq<char>, k: int)
    requires
        s.len() <= usize::MAX,
        0 <= k < words_of(search).len(),
    ensures
        forall|m: int|
            0 <= m < filter_hits(s, search).len() ==> filter_hits(s, words_of(search)[k]).contains(
                #[trigger] filter_hits(s, search)[m],
            ),
{
    let words = words_of(search);
    let w = words[k];
    lemma_hits_facts(s, words, s.len());
    lemma_words_are_words(search, seq![]);
    assert(is_word(w));
    lemma_word_alone(w, seq![]);
    assert(seq![] + w =~= w);
    assert(words_of(w) =~= seq![w]);
    lemma_hits_facts(s, seq![w], s.len());
    assert forall|m: int| 0 <= m < filter_hits(s, search).len() implies filter_hits(
        s,
        w,
    ).contains(#[trigger] filter_hits(s, search)[m]) by {
        let x = filter_hits(s, search)[m] as int;
        assert(hits(s, words, s.len()).contains(x as usize));
        assert(matches_all(s[x], words));
        assert(term_matches(s[x], words[k]));
        assert(matches_all(s[x], seq![w]));
    }
}

/// Adding an entry whose path the store already holds keeps the store's
/// length; the new entry, with its own content, stands last, and paths stay
/// unique.
pub proof fn lemma_add_existing_path(s: Seq<PathItem>, e: PathItem)
    requires
        paths_unique(s),
        has_path(s, e.full_path@),
    ensures
        added(s, e).len() == s.len(),
        added(s, e).last() == e,
        paths_unique(added(s, e)),
{
    let i = choose|i: int| 0 <= i < s.len() && #[trigger] s[i].full_path@ == e.full_path@;
    lemma_without_unique(s, i);
    lemma_add_keeps_unique(s, e);
}

/// Adding an entry never makes two entries share a path.
pub proof fn lemma_add_keeps_unique(s: Seq<PathItem>, e: PathItem)
    requires
        paths_unique(s),
    ensures
        paths_unique(added(s, e)),
        has_path(added(s, e), e.full_path@),
{
    lemma_without_keeps_unique(s, e.full_path@);
    let w = without_path(s, e.full_path@);
    let r = w.push(e);
    assert forall|a: int, b: int|
        0 <= a < r.len() && 0 <= b < r.len() && a != b implies #[trigger] r[a].full_path@
        != #[trigger] r[b].full_path@ by {
        if a == w.len() {
            assert(r[b] == w[b]);
        } else if b == w.len() {
            assert(r[a] == w[a]);
        } else {
            assert(r[a] == w[a] && r[b] == w[b]);
        }
    }
    assert(r[w.len() as int].full_path@ == e.full_path@);
}

} // verus!
