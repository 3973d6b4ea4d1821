//! The dictionary index: words grouped by their letter-key.
use crate::letters::{is_letter_key, lemma_letter_key_unique, letter_key, letters_of};
use itertools::Itertools;
use vstd::prelude::*;

verus! {

/// `a` comes no later than `b` in lexicographic order of their characters.
pub open spec fn lex_le(a: Seq<char>, b: Seq<char>) -> bool
    decreases a.len(),
{
    if a.len() == 0 {
        true
    } else if b.len() == 0 {
        false
    } else if a[0] != b[0] {
        a[0] < b[0]
    } else {
        lex_le(a.drop_first(), b.drop_first())
    }
}

/// Lexicographic order never puts two different words each before the other.
pub proof fn lemma_lex_antisymmetric(a: Seq<char>, b: Seq<char>)
    requires
        lex_le(a, b),
        lex_le(b, a),
    ensures
        a == b,
    decreases a.len(),
{
    if a.len() > 0 && b.len() > 0 {
        lemma_lex_antisymmetric(a.drop_first(), b.drop_first());
        assert(a =~= seq![a[0]] + a.drop_first());
        assert(b =~= seq![b[0]] + b.drop_first());
    }
    if a.len() == 0 && b.len() == 0 {
        assert(a =~= b);
    }
}

/// Words in strictly ascending lexicographic order: sorted, with no repeats.
pub open spec fn words_sorted(ws: Seq<Seq<char>>) -> bool {
    forall|i: int, j: int| 0 <= i < j < ws.len() ==> lex_le(ws[i], ws[j]) && ws[i] != ws[j]
}

/// Relies on itertools' `Itertools::sorted` over strings: the same strings,
/// rearranged into ascending order. `Ord` on `String` compares the UTF-8
/// bytes lexicographically, and UTF-8 keeps the order of code points, so this
/// is the lexicographic order of the characters.
#[verifier::external_body]
fn sorted_words(v: Vec<String>) -> (r: Vec<String>)
    ensures
        r.deep_view().to_multiset() == v.deep_view().to_multiset(),
        forall|i: int, j: int| 0 <= i < j < r@.len() ==> lex_le(r@[i]@, r@[j]@),
{
    v.into_iter().sorted().collect()
}

/// Drops repeated neighbours from a lexicographically sorted list of words.
#[verifier::rlimit(40)]
fn dedup_words(v: &Vec<String>) -> (r: Vec<String>)
    requires
        forall|i: int, j: int| 0 <= i < j < v@.len() ==> lex_le(v@[i]@, v@[j]@),
    ensures
        words_sorted(r.deep_view()),
        forall|w: Seq<char>| r.deep_view().contains(w) <==> v.deep_view().contains(w),
{
    let mut r: Vec<String> = Vec::new();
    let n = v.len();
    let ghost vd = v.deep_view();
    for i in 0..n
        invariant
            n == v@.len(),
            vd == v.deep_view(),
            forall|a: int, b: int| 0 <= a < b < v@.len() ==> lex_le(v@[a]@, v@[b]@),
            words_sorted(r.deep_view()),
            i > 0 ==> r@.len() > 0 && r@.last()@ == v@[i - 1]@,
            i == 0 ==> r@.len() == 0,
            forall|w: Seq<char>| r.deep_view().contains(w) <==> vd.subrange(0, i as int).contains(w),
    {
        let ghost before = r.deep_view();
        let ghost pre = vd.subrange(0, i as int);
        let ghost post = vd.subrange(0, i + 1);
        let ghost c = v@[i as int]@;
        let repeated = r.len() > 0 && r[r.len() - 1] == v[i];
        assert(repeated == (before.len() > 0 && before[before.len() - 1] == c));
        if !repeated {
            r.push(v[i].clone());
            proof {
                let nv = before.push(c);
                assert(r.deep_view() =~= nv);
                assert forall|a: int, b: int| 0 <= a < b < nv.len() implies lex_le(nv[a], nv[b])
                    && nv[a] != nv[b] by {
                    assert(nv[a] == before[a]);
                    if b == before.len() {
                        assert(nv[b] == c);
                        assert(before.contains(before[a]));
                        let t = choose|t: int| 0 <= t < pre.len() && pre[t] == before[a];
                        assert(pre[t] == v@[t]@);
                        assert(lex_le(v@[t]@, v@[i as int]@));
                        if before[a] == c {
                            let last = before.len() - 1;
                            assert(before[last] == v@[i - 1]@);
                            if a < last {
                                assert(lex_le(before[a], before[last]));
                            }
                            assert(lex_le(v@[i - 1]@, v@[i as int]@));
                            lemma_lex_antisymmetric(before[last], c);
                        }
                    } else {
                        assert(nv[b] == before[b]);
                    }
                }
            }
        }
        assert forall|w: Seq<char>| r.deep_view().contains(w) <==> post.contains(w) by {
            if post.contains(w) {
                let t = choose|t: int| 0 <= t < post.len() && post[t] == w;
                if t < i {
                    assert(pre[t] == w);
                    assert(before.contains(w));
                    let u = choose|u: int| 0 <= u < before.len() && before[u] == w;
                    assert(r.deep_view()[u] == w);
                } else {
                    assert(r.deep_view()[r@.len() - 1] == w);
                }
            }
            if r.deep_view().contains(w) {
                let u = choose|u: int| 0 <= u < r.deep_view().len() && r.deep_view()[u] == w;
                if u < before.len() {
                    assert(before[u] == w);
                    assert(before.contains(w));
                    let t = choose|t: int| 0 <= t < pre.len() && pre[t] == w;
                    assert(post[t] == w);
                } else {
                    assert(post[i as int] == w);
                }
            }
        }
    }
    assert(vd.subrange(0, n as int) =~= vd);
    r
}

/// The distinct words of `v`, in ascending lexicographic order.
pub fn normalize_words(v: Vec<String>) -> (r: Vec<String>)
    ensures
        words_sorted(r.deep_view()),
        forall|w: Seq<char>| r.deep_view().contains(w) <==> v.deep_view().contains(w),
{
    let ghost orig = v.deep_view();
    let sorted = sorted_words(v);
    let distinct = dedup_words(&sorted);
    proof {
        broadcast use vstd::seq_lib::group_to_multiset_ensures;

        assert forall|w: Seq<char>| distinct.deep_view().contains(w) <==> orig.contains(w) by {
            assert(sorted.deep_view().contains(w) <==> sorted.deep_view().to_multiset().count(w) > 0);
            assert(orig.contains(w) <==> orig.to_multiset().count(w) > 0);
        }
    }
    distinct
}

/// The words that share one letter-key.
pub struct IndexEntry {
    pub key: String,
    pub words: Vec<String>,
}

/// Words grouped by letter-key, one entry per key.
pub struct DictionaryIndex {
    pub entries: Vec<IndexEntry>,
}

/// An entry as a key and its words.
pub open spec fn entry_view(e: IndexEntry) -> (Seq<char>, Seq<Seq<char>>) {
    (e.key@, e.words.deep_view())
}

/// A list of entries as keys and their words.
pub open spec fn entries_view(s: Seq<IndexEntry>) -> Seq<(Seq<char>, Seq<Seq<char>>)> {
    s.map_values(|e: IndexEntry| entry_view(e))
}

/// Sorting and deduplicating each entry's words keeps an index well formed
/// and keeps what each entry holds.
proof fn lemma_normalized_groups(
    gv: Seq<(Seq<char>, Seq<Seq<char>>)>,
    rv: Seq<(Seq<char>, Seq<Seq<char>>)>,
)
    requires
        groups_wf(gv),
        rv.len() == gv.len(),
        forall|b: int| #![trigger rv[b]]
            0 <= b < rv.len() ==> rv[b].0 == gv[b].0 && words_sorted(rv[b].1) && (forall|
                w: Seq<char>,
            | rv[b].1.contains(w) <==> gv[b].1.contains(w)),
    ensures
        index_wf(rv),
        forall|w: Seq<char>| index_has_word(rv, w) <==> index_has_word(gv, w),
{
    assert forall|a: int, w: Seq<char>|
        0 <= a < rv.len() && #[trigger] rv[a].1.contains(w) implies gv[a].1.contains(w) by {
        assert(rv[a] == rv[a]);
    }
    assert forall|a: int, k: int| #![trigger rv[a].1[k]]
        0 <= a < rv.len() && 0 <= k < rv[a].1.len() implies is_letter_key(
            rv[a].0,
            letters_of(rv[a].1[k]),
        ) by {
        let x = rv[a].1[k];
        assert(rv[a].1.contains(x));
        assert(gv[a].1.contains(x));
        let j = choose|j: int| 0 <= j < gv[a].1.len() && gv[a].1[j] == x;
        assert(gv[a].1[j] == gv[a].1[j]);
    }
    assert forall|b: int| 0 <= b < rv.len() implies rv[b].1.len() > 0 by {
        assert(rv[b] == rv[b]);
        assert(gv[b].1.contains(gv[b].1[0]));
    }
    assert forall|a: int, b: int| 0 <= a < b < rv.len() implies rv[a].0 != rv[b].0 by {
        assert(rv[a] == rv[a]);
        assert(rv[b] == rv[b]);
    }
    assert forall|a: int| 0 <= a < rv.len() implies words_sorted(#[trigger] rv[a].1) by {
        assert(rv[a] == rv[a]);
    }
    assert forall|w: Seq<char>| index_has_word(rv, w) <==> index_has_word(gv, w) by {
        if index_has_word(rv, w) {
            let a = choose|a: int| 0 <= a < rv.len() && rv[a].1.contains(w);
            assert(rv[a] == rv[a]);
        }
        if index_has_word(gv, w) {
            let a = choose|a: int| 0 <= a < gv.len() && gv[a].1.contains(w);
            assert(rv[a] == rv[a]);
        }
    }
}

/// A copy of a list of words.
fn copy_words(v: &Vec<String>) -> (r: Vec<String>)
    ensures
        r.deep_view() == v.deep_view(),
{
    let mut r: Vec<String> = Vec::new();
    let n = v.len();
    for i in 0..n
        invariant
            n == v@.len(),
            r@.len() == i,
            forall|t: int| 0 <= t < i ==> r@[t]@ == v@[t]@,
    {
        r.push(v[i].clone());
    }
    assert(r.deep_view() =~= v.deep_view());
    r
}

/// Groups `words` by letter-key, in entries with keys in first-seen order.
fn group_words(words: &Vec<String>) -> (r: Vec<IndexEntry>)
    ensures
        groups_wf(entries_view(r@)),
        forall|w: Seq<char>|
            index_has_word(entries_view(r@), w) <==> words.deep_view().contains(w),
{
    let mut groups: Vec<IndexEntry> = Vec::new();
    let n = words.len();
    let ghost wd = words.deep_view();
    for i in 0..n
        invariant
            n == words@.len(),
            wd == words.deep_view(),
            groups_wf(entries_view(groups@)),
            forall|w: Seq<char>|
                index_has_word(entries_view(groups@), w) <==> wd.subrange(0, i as int).contains(w),
    {
        let key = letter_key(words[i].as_str());
        let word = words[i].clone();
        assert(word@ == wd[i as int]);
        let ghost gv0 = entries_view(groups@);
        match find_key(&groups, &key) {
            Some(j) => {
                let ghost g0 = groups@;
                let mut e = groups.remove(j);
                let ghost ew = e.words.deep_view();
                assert(ew == gv0[j as int].1);
                e.words.push(word);
                assert(e.words.deep_view() =~= ew.push(word@));
                groups.push(e);
                proof {
                    let nv = gv0.remove(j as int).push((gv0[j as int].0, gv0[j as int].1.push(word@)));
                    assert forall|t: int| 0 <= t < nv.len() implies entries_view(groups@)[t] == nv[t] by {
                        if t < j {
                            assert(groups@[t] == g0[t]);
                        } else if t < nv.len() - 1 {
                            assert(groups@[t] == g0[t + 1]);
                        }
                    }
                    assert(entries_view(groups@) =~= nv);
                    lemma_file_word(gv0, j as int, word@);
                    assert forall|x: Seq<char>|
                        index_has_word(entries_view(groups@), x) <==> (index_has_word(gv0, x) || x
                            == word@) by {
                        assert(index_has_word(nv, x) <==> (index_has_word(gv0, x) || x == word@));
                    }
                }
            },
            None => {
                let ghost g0 = groups@;
                let mut list: Vec<String> = Vec::new();
                list.push(word);
                assert(list.deep_view() =~= seq![word@]);
                groups.push(IndexEntry { key, words: list });
                proof {
                    let nv = gv0.push((key@, seq![word@]));
                    assert forall|t: int| 0 <= t < nv.len() implies entries_view(groups@)[t] == nv[t] by {
                        if t < gv0.len() {
                            assert(groups@[t] == g0[t]);
                        }
                    }
                    assert(entries_view(groups@) =~= nv);
                    lemma_new_group(gv0, key@, word@);
                    assert forall|x: Seq<char>|
                        index_has_word(entries_view(groups@), x) <==> (index_has_word(gv0, x) || x
                            == word@) by {
                        assert(index_has_word(nv, x) <==> (index_has_word(gv0, x) || x == word@));
                    }
                }
            },
        }
        proof {
            assert forall|w: Seq<char>|
                index_has_word(entries_view(groups@), w) <==> wd.subrange(0, i + 1).contains(w) by {
                let pre = wd.subrange(0, i as int);
                let post = wd.subrange(0, i + 1);
                assert(index_has_word(gv0, w) <==> pre.contains(w));
                assert(post =~= pre.push(wd[i as int]));
                if pre.contains(w) {
                    let t = choose|t: int| 0 <= t < pre.len() && pre[t] == w;
                    assert(post[t] == w);
                }
                if post.contains(w) && w != wd[i as int] {
                    let t = choose|t: int| 0 <= t < post.len() && post[t] == w;
                    assert(pre[t] == w);
                }
                assert(post[i as int] == wd[i as int]);
            }
        }
    }
    assert(wd.subrange(0, n as int) =~= wd);
    groups
}

/// The position of the entry whose key is `key`, if there is one.
fn find_key(groups: &Vec<IndexEntry>, key: &String) -> (r: Option<usize>)
    ensures
        match r {
            Some(j) => j < groups@.len() && groups@[j as int].key@ == key@,
            None => forall|t: int| 0 <= t < groups@.len() ==> groups@[t].key@ != key@,
        },
{
    let n = groups.len();
    for j in 0..n
        invariant
            n == groups@.len(),
            forall|t: int| 0 <= t < j ==> groups@[t].key@ != key@,
    {
        if groups[j].key == *key {
            return Some(j);
        }
    }
    None
}

/// Filing `w` in the entry `j`, which has `w`'s letter-key, keeps the
/// grouping well formed and adds `w` to what it holds.
proof fn lemma_file_word(gv: Seq<(Seq<char>, Seq<Seq<char>>)>, j: int, w: Seq<char>)
    requires
        groups_wf(gv),
        0 <= j < gv.len(),
        is_letter_key(gv[j].0, letters_of(w)),
    ensures
        groups_wf(gv.remove(j).push((gv[j].0, gv[j].1.push(w)))),
        forall|x: Seq<char>|
            index_has_word(gv.remove(j).push((gv[j].0, gv[j].1.push(w))), x) <==> (index_has_word(
                gv,
                x,
            ) || x == w),
{
    let nv = gv.remove(j).push((gv[j].0, gv[j].1.push(w)));
    let last = nv.len() - 1;
    assert forall|a: int| 0 <= a < nv.len() implies #[trigger] nv[a] == (if a == last {
        (gv[j].0, gv[j].1.push(w))
    } else if a < j {
        gv[a]
    } else {
        gv[a + 1]
    }) by {}
    assert forall|a: int, b: int| 0 <= a < b < nv.len() implies nv[a].0 != nv[b].0 by {
        assert(nv[a] == nv[a]);
        assert(nv[b] == nv[b]);
    }
    assert forall|a: int| 0 <= a < nv.len() implies nv[a].1.len() > 0 by {
        assert(nv[a] == nv[a]);
    }
    assert forall|a: int, k: int| #![trigger nv[a].1[k]]
        0 <= a < nv.len() && 0 <= k < nv[a].1.len() implies is_letter_key(
            nv[a].0,
            letters_of(nv[a].1[k]),
        ) by {
        assert(nv[a] == nv[a]);
        if a == last && k < gv[j].1.len() {
            assert(gv[j].1.push(w)[k] == gv[j].1[k]);
        }
    }
    assert forall|x: Seq<char>| index_has_word(nv, x) <==> (index_has_word(gv, x) || x == w) by {
        if index_has_word(nv, x) {
            let a = choose|a: int| 0 <= a < nv.len() && nv[a].1.contains(x);
            assert(nv[a] == nv[a]);
            if a == last && x != w {
                let k = choose|k: int| 0 <= k < gv[j].1.len() + 1 && gv[j].1.push(w)[k] == x;
                assert(gv[j].1[k] == x);
            }
        }
        if x == w {
            assert(nv[last].1[gv[j].1.len() as int] == w);
        } else if index_has_word(gv, x) {
            let a = choose|a: int| 0 <= a < gv.len() && gv[a].1.contains(x);
            if a == j {
                let k = choose|k: int| 0 <= k < gv[j].1.len() && gv[j].1[k] == x;
                assert(nv[last].1[k] == x);
            } else if a < j {
                assert(nv[a] == gv[a]);
            } else {
                assert(nv[a - 1] == gv[a]);
            }
        }
    }
}

/// Opening a new entry for `w` under its letter-key `k`, which no entry has
/// yet, keeps the grouping well formed and adds `w` to what it holds.
proof fn lemma_new_group(gv: Seq<(Seq<char>, Seq<Seq<char>>)>, k: Seq<char>, w: Seq<char>)
    requires
        groups_wf(gv),
        forall|t: int| 0 <= t < gv.len() ==> gv[t].0 != k,
        is_letter_key(k, letters_of(w)),
    ensures
        groups_wf(gv.push((k, seq![w]))),
        forall|x: Seq<char>|
            index_has_word(gv.push((k, seq![w])), x) <==> (index_has_word(gv, x) || x == w),
{
    let nv = gv.push((k, seq![w]));
    assert forall|a: int| 0 <= a < gv.len() implies #[trigger] nv[a] == gv[a] by {}
    assert forall|a: int, b: int| 0 <= a < b < nv.len() implies nv[a].0 != nv[b].0 by {
        assert(nv[a] == nv[a]);
        assert(nv[b] == nv[b]);
    }
    assert forall|a: int| 0 <= a < nv.len() implies nv[a].1.len() > 0 by {
        assert(nv[a] == nv[a]);
    }
    assert forall|a: int, t: int| #![trigger nv[a].1[t]]
        0 <= a < nv.len() && 0 <= t < nv[a].1.len() implies is_letter_key(
            nv[a].0,
            letters_of(nv[a].1[t]),
        ) by {
        assert(nv[a] == nv[a]);
    }
    assert forall|x: Seq<char>| index_has_word(nv, x) <==> (index_has_word(gv, x) || x == w) by {
        if index_has_word(nv, x) {
            let a = choose|a: int| 0 <= a < nv.len() && nv[a].1.contains(x);
            assert(nv[a] == nv[a]);
            if a == gv.len() {
                assert(seq![w][0] == w);
            }
        }
        if x == w {
            assert(nv[gv.len() as int].1[0] == w);
        } else if index_has_word(gv, x) {
            let a = choose|a: int| 0 <= a < gv.len() && gv[a].1.contains(x);
            assert(nv[a] == gv[a]);
        }
    }
}

impl View for DictionaryIndex {
    type V = Seq<(Seq<char>, Seq<Seq<char>>)>;

    open spec fn view(&self) -> Seq<(Seq<char>, Seq<Seq<char>>)> {
        entries_view(self.entries@)
    }
}

/// Entries with distinct keys, none empty, each word filed under its own
/// letter-key.
pub open spec fn groups_wf(ix: Seq<(Seq<char>, Seq<Seq<char>>)>) -> bool {
    &&& forall|a: int, b: int| 0 <= a < b < ix.len() ==> ix[a].0 != ix[b].0
    &&& forall|a: int| 0 <= a < ix.len() ==> ix[a].1.len() > 0
    &&& forall|a: int, k: int| #![trigger ix[a].1[k]]
        0 <= a < ix.len() && 0 <= k < ix[a].1.len() ==> is_letter_key(
            ix[a].0,
            letters_of(ix[a].1[k]),
        )
}

/// Some entry of `ix` holds the word `w`.
pub open spec fn index_has_word(ix: Seq<(Seq<char>, Seq<Seq<char>>)>, w: Seq<char>) -> bool {
    exists|a: int| 0 <= a < ix.len() && ix[a].1.contains(w)
}

/// A finished index: grouped as above, each entry's words sorted and distinct.
pub open spec fn index_wf(ix: Seq<(Seq<char>, Seq<Seq<char>>)>) -> bool {
    &&& groups_wf(ix)
    &&& forall|a: int| 0 <= a < ix.len() ==> words_sorted(#[trigger] ix[a].1)
}

/// The words of the first entry whose key is `key`, if there is one.
pub open spec fn index_lookup(ix: Seq<(Seq<char>, Seq<Seq<char>>)>, key: Seq<char>) -> Option<
    Seq<Seq<char>>,
>
    decreases ix.len(),
{
    if ix.len() == 0 {
        None
    } else if ix[0].0 == key {
        Some(ix[0].1)
    } else {
        index_lookup(ix.drop_first(), key)
    }
}

/// Looking a key up finds the first entry that has it.
pub proof fn lemma_lookup_first(ix: Seq<(Seq<char>, Seq<Seq<char>>)>, key: Seq<char>, i: int)
    requires
        0 <= i <= ix.len(),
        forall|t: int| 0 <= t < i ==> ix[t].0 != key,
    ensures
        index_lookup(ix, key) == index_lookup(ix.subrange(i, ix.len() as int), key),
    decreases i,
{
    if i > 0 {
        lemma_lookup_first(ix.drop_first(), key, i - 1);
        assert(ix.drop_first().subrange(i - 1, ix.len() - 1) =~= ix.subrange(i, ix.len() as int));
    } else {
        assert(ix.subrange(0, ix.len() as int) =~= ix);
    }
}

/// A key that is found belongs to an entry, whose words are returned.
pub proof fn lemma_lookup_found(ix: Seq<(Seq<char>, Seq<Seq<char>>)>, key: Seq<char>)
    requires
        index_lookup(ix, key) is Some,
    ensures
        exists|a: int|
            0 <= a < ix.len() && ix[a].0 == key && index_lookup(ix, key) == Some(ix[a].1),
    decreases ix.len(),
{
    if ix[0].0 != key {
        lemma_lookup_found(ix.drop_first(), key);
        let a = choose|a: int|
            0 <= a < ix.drop_first().len() && ix.drop_first()[a].0 == key && index_lookup(
                ix.drop_first(),
                key,
            ) == Some(ix.drop_first()[a].1);
        assert(ix[a + 1] == ix.drop_first()[a]);
    }
}

/// In an index with distinct keys, an entry's key finds that entry.
pub proof fn lemma_lookup_entry(ix: Seq<(Seq<char>, Seq<Seq<char>>)>, a: int)
    requires
        groups_wf(ix),
        0 <= a < ix.len(),
    ensures
        index_lookup(ix, ix[a].0) == Some(ix[a].1),
{
    lemma_lookup_first(ix, ix[a].0, a);
    let rest = ix.subrange(a, ix.len() as int);
    assert(rest[0] == ix[a]);
}

/// A word that the index holds is found again by looking up its letter-key,
/// together with every other word filed under that key.
pub proof fn lemma_lookup_by_letter_key(
    ix: Seq<(Seq<char>, Seq<Seq<char>>)>,
    w: Seq<char>,
    k: Seq<char>,
)
    requires
        index_wf(ix),
        index_has_word(ix, w),
        is_letter_key(k, letters_of(w)),
    ensures
        index_lookup(ix, k) is Some,
        index_lookup(ix, k)->0.contains(w),
        forall|x: Seq<char>|
            index_has_word(ix, x) && is_letter_key(k, letters_of(x)) ==> index_lookup(
                ix,
                k,
            )->0.contains(x),
{
    assert forall|x: Seq<char>|
        index_has_word(ix, x) && is_letter_key(k, letters_of(x)) implies index_lookup(
            ix,
            k,
        ) is Some && index_lookup(ix, k)->0.contains(x) by {
        let a = choose|a: int| 0 <= a < ix.len() && ix[a].1.contains(x);
        let j = choose|j: int| 0 <= j < ix[a].1.len() && ix[a].1[j] == x;
        assert(is_letter_key(ix[a].0, letters_of(ix[a].1[j])));
        lemma_letter_key_unique(ix[a].0, k, letters_of(x));
        lemma_lookup_entry(ix, a);
    }
}

impl DictionaryIndex {
    /// Groups `words` by letter-key. Every word is filed under its key, and
    /// every entry's words are sorted and distinct.
    pub fn build(words: &Vec<String>) -> (r: DictionaryIndex)
        ensures
            index_wf(r@),
            forall|w: Seq<char>| index_has_word(r@, w) <==> words.deep_view().contains(w),
    {
        let groups = group_words(words);
        let ghost gv = entries_view(groups@);
        let mut entries: Vec<IndexEntry> = Vec::new();
        let m = groups.len();
        for a in 0..m
            invariant
                m == groups@.len(),
                gv == entries_view(groups@),
                groups_wf(gv),
                entries@.len() == a,
                forall|b: int| #![trigger entries@[b]]
                    0 <= b < a ==> {
                        &&& entries@[b].key@ == gv[b].0
                        &&& words_sorted(entries@[b].words.deep_view())
                        &&& forall|w: Seq<char>|
                            entries@[b].words.deep_view().contains(w) <==> gv[b].1.contains(w)
                    },
        {
            let list = normalize_words(copy_words(&groups[a].words));
            entries.push(IndexEntry { key: groups[a].key.clone(), words: list });
        }
        let r = DictionaryIndex { entries };
        proof {
            assert forall|b: int| #![trigger r@[b]]
                0 <= b < r@.len() implies r@[b].0 == gv[b].0 && words_sorted(r@[b].1) && (
                forall|w: Seq<char>| r@[b].1.contains(w) <==> gv[b].1.contains(w)) by {
                assert(entries@[b] == entries@[b]);
            }
            lemma_normalized_groups(gv, r@);
        }
        r
    }
    /// The words filed under `key`, or `None` where no entry has that key.
    pub fn lookup(&self, key: &String) -> (r: Option<&Vec<String>>)
        ensures
            r is Some <==> index_lookup(self@, key@) is Some,
            r is Some ==> index_lookup(self@, key@) == Some(r.unwrap().deep_view()),
    {
        let n = self.entries.len();
        for i in 0..n
            invariant
                n == self.entries@.len(),
                forall|t: int| 0 <= t < i ==> self@[t].0 != key@,
        {
            if self.entries[i].key == *key {
                proof {
                    lemma_lookup_first(self@, key@, i as int);
                    let rest = self@.subrange(i as int, n as int);
                    assert(rest[0] == self@[i as int]);
                }
                return Some(&self.entries[i].words);
            }
        }
        proof {
            lemma_lookup_first(self@, key@, n as int);
        }
        None
    }
}

} // verus!
