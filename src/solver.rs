//! Candidate letter-keys for a puzzle, and the words they find.
use crate::args::{Arguments, Command};
use crate::index::{
    index_lookup, index_wf, lemma_lookup_found, normalize_words, words_sorted, DictionaryIndex,
};
use crate::letters::{is_letter_key, key_of_chars, lemma_letter_key_unique, letters_of};
use vstd::prelude::*;

verus! {

/// How many optional letters a puzzle has.
pub const WORKER_COUNT: usize = 6;

/// `positions` holds only positions below `n`.
pub open spec fn positions_below(positions: Set<int>, n: int) -> bool {
    forall|p: int| positions.contains(p) ==> 0 <= p < n
}

/// The letters that the positions `positions` of `workers` select, together
/// with `queen`.
pub open spec fn position_letters(queen: char, workers: Seq<char>, positions: Set<int>) -> Set<char> {
    Set::new(
        |c: char|
            c == queen || exists|p: int|
                #![trigger workers[p]]
                positions.contains(p) && 0 <= p < workers.len() && workers[p] == c,
    )
}

/// The positions that a list of indices names.
pub open spec fn index_set(indices: Seq<usize>) -> Set<int> {
    Set::new(|p: int| exists|j: int| 0 <= j < indices.len() && indices[j] as int == p)
}

/// `k` is the letter-key of `queen` with some choice of positions of `workers`.
pub open spec fn is_candidate_key(queen: char, workers: Seq<char>, k: Seq<char>) -> bool {
    exists|positions: Set<int>|
        positions_below(positions, workers.len() as int) && is_letter_key(
            k,
            #[trigger] position_letters(queen, workers, positions),
        )
}

/// Looking `k` up in `ix` finds the word `w`.
pub open spec fn probe_finds(ix: Seq<(Seq<char>, Seq<Seq<char>>)>, k: Seq<char>, w: Seq<char>) -> bool {
    index_lookup(ix, k) is Some && index_lookup(ix, k)->0.contains(w)
}

/// One of the first `n` keys of `keys` finds `w` in `ix`.
pub open spec fn found_by(
    ix: Seq<(Seq<char>, Seq<Seq<char>>)>,
    keys: Seq<Seq<char>>,
    n: int,
    w: Seq<char>,
) -> bool {
    exists|s: int| 0 <= s < n && #[trigger] probe_finds(ix, keys[s], w)
}

/// `w` answers the puzzle: it has at least four letters and the index files
/// it under the letter-key of the queen with some choice of the workers.
pub open spec fn is_answer(
    queen: char,
    workers: Seq<char>,
    ix: Seq<(Seq<char>, Seq<Seq<char>>)>,
    w: Seq<char>,
) -> bool {
    &&& w.len() > 3
    &&& exists|k: Seq<char>| is_candidate_key(queen, workers, k) && #[trigger] probe_finds(ix, k, w)
}

/// The number of subsets of a set of `n` positions.
pub open spec fn subset_count(n: nat) -> nat
    decreases n,
{
    if n == 0 {
        1
    } else {
        2 * subset_count((n - 1) as nat)
    }
}

/// A copy of `s` with `p` added at the end.
fn extended(s: &Vec<usize>, p: usize) -> (r: Vec<usize>)
    ensures
        r@ == s@.push(p),
{
    let mut r: Vec<usize> = Vec::new();
    let n = s.len();
    for i in 0..n
        invariant
            n == s@.len(),
            r@ == s@.subrange(0, i as int),
    {
        r.push(s[i]);
        assert(r@ =~= s@.subrange(0, i + 1));
    }
    assert(r@ =~= s@);
    r.push(p);
    r
}

/// Whether `keys` already holds `k`.
fn contains_key(keys: &Vec<String>, k: &String) -> (r: bool)
    ensures
        r <==> exists|i: int| 0 <= i < keys@.len() && keys@[i]@ == k@,
{
    let n = keys.len();
    for i in 0..n
        invariant
            n == keys@.len(),
            forall|t: int| 0 <= t < i ==> keys@[t]@ != k@,
    {
        if keys[i] == *k {
            return true;
        }
    }
    false
}

/// Every subset of the positions below `n`, each as an ascending list.
fn all_subsets(n: usize) -> (r: Vec<Vec<usize>>)
    requires
        n <= WORKER_COUNT,
    ensures
        r@.len() == subset_count(n as nat),
        forall|j: int| #![trigger r@[j]]
            0 <= j < r@.len() ==> forall|t: int|
                0 <= t < r@[j]@.len() ==> r@[j]@[t] < n,
        forall|positions: Set<int>| #[trigger]
            positions_below(positions, n as int) ==> exists|j: int|
                0 <= j < r@.len() && index_set(r@[j]@) == positions,
{
    let mut r: Vec<Vec<usize>> = Vec::new();
    r.push(Vec::new());
    proof {
        assert forall|positions: Set<int>| #[trigger]
            positions_below(positions, 0) implies exists|j: int|
                0 <= j < r@.len() && index_set(r@[j]@) == positions by {
            assert(index_set(r@[0]@) =~= positions);
        }
    }
    let mut p: usize = 0;
    while p < n
        invariant
            p <= n,
            n <= WORKER_COUNT,
            r@.len() == subset_count(p as nat),
            forall|j: int| #![trigger r@[j]]
                0 <= j < r@.len() ==> forall|t: int|
                    0 <= t < r@[j]@.len() ==> r@[j]@[t] < p,
            forall|positions: Set<int>| #[trigger]
                positions_below(positions, p as int) ==> exists|j: int|
                    0 <= j < r@.len() && index_set(r@[j]@) == positions,
        decreases n - p,
    {
        proof {
            assert(subset_count(p as nat) <= 32) by {
                reveal_with_fuel(subset_count, 7);
            }
        }
        let m = r.len();
        let ghost old_r = r@;
        assert forall|positions: Set<int>| #[trigger]
            positions_below(positions, p as int) implies exists|i: int|
                0 <= i < old_r.len() && index_set(old_r[i]@) == positions by {
            let i = choose|i: int| 0 <= i < r@.len() && index_set(r@[i]@) == positions;
            assert(old_r[i] == r@[i]);
        }
        for j in 0..m
            invariant
                m == old_r.len(),
                r@.len() == m + j,
                forall|t: int| 0 <= t < m ==> r@[t] == old_r[t],
                forall|t: int| 0 <= t < j ==> r@[m + t]@ == old_r[t]@.push(p),
                m <= 32,
                forall|i: int| #![trigger old_r[i]]
                    0 <= i < old_r.len() ==> forall|t: int|
                        0 <= t < old_r[i]@.len() ==> old_r[i]@[t] < p,
                forall|positions: Set<int>| #[trigger]
                    positions_below(positions, p as int) ==> exists|i: int|
                        0 <= i < old_r.len() && index_set(old_r[i]@) == positions,
        {
            let e = extended(&r[j], p);
            r.push(e);
        }
        proof {
            assert forall|j: int| #![trigger r@[j]]
                0 <= j < r@.len() implies forall|t: int|
                    0 <= t < r@[j]@.len() ==> r@[j]@[t] < p + 1 by {
                if j >= m {
                    assert(r@[m + (j - m)]@ == old_r[j - m]@.push(p));
                    let s = old_r[j - m]@;
                    assert forall|t: int| 0 <= t < s.push(p).len() implies s.push(p)[t] < p + 1 by {
                        if t < s.len() {
                            assert(s.push(p)[t] == s[t]);
                        }
                    }
                } else {
                    assert(r@[j] == old_r[j]);
                }
            }
            assert forall|positions: Set<int>| #[trigger]
                positions_below(positions, p + 1) implies exists|j: int|
                    0 <= j < r@.len() && index_set(r@[j]@) == positions by {
                if positions.contains(p as int) {
                    let rest = positions.remove(p as int);
                    assert(positions_below(rest, p as int));
                    let j = choose|j: int| 0 <= j < old_r.len() && index_set(old_r[j]@) == rest;
                    assert(r@[m + j]@ == old_r[j]@.push(p));
                    assert(index_set(old_r[j]@.push(p)) =~= positions) by {
                        let s = old_r[j]@;
                        assert forall|q: int| index_set(s.push(p)).contains(q) implies positions.contains(q) by {
                            let t = choose|t: int| 0 <= t < s.push(p).len() && s.push(p)[t] as int == q;
                            if t < s.len() {
                                assert(s[t] == s.push(p)[t]);
                                assert(index_set(s).contains(q));
                            }
                        }
                        assert forall|q: int| positions.contains(q) implies index_set(s.push(p)).contains(q) by {
                            if q == p {
                                assert(s.push(p)[s.len() as int] as int == q);
                            } else {
                                assert(index_set(s).contains(q));
                                let t = choose|t: int| 0 <= t < s.len() && s[t] as int == q;
                                assert(s.push(p)[t] == s[t]);
                            }
                        }
                    }
                } else {
                    assert(positions_below(positions, p as int));
                    let j = choose|j: int| 0 <= j < old_r.len() && index_set(old_r[j]@) == positions;
                    assert(r@[j] == old_r[j]);
                }
            }
        }
        p = p + 1;
    }
    r
}

/// Appends to `found` the words of `list` that have more than three letters.
fn collect_long(found: &mut Vec<String>, list: &Vec<String>)
    ensures
        forall|w: Seq<char>|
            final(found).deep_view().contains(w) <==> (old(found).deep_view().contains(w) || (
            w.len() > 3 && list.deep_view().contains(w))),
{
    let ghost f0 = found.deep_view();
    let ghost ld = list.deep_view();
    let m = list.len();
    let mut u: usize = 0;
    while u < m
        invariant
            u <= m,
            m == list@.len(),
            f0 == old(found).deep_view(),
            ld == list.deep_view(),
            forall|w: Seq<char>|
                found.deep_view().contains(w) <==> (f0.contains(w) || (w.len() > 3
                    && ld.subrange(0, u as int).contains(w))),
        decreases m - u,
    {
        let ghost before = found.deep_view();
        let ghost pre = ld.subrange(0, u as int);
        let ghost post = ld.subrange(0, u + 1);
        let ghost x = ld[u as int];
        assert(post =~= pre.push(x));
        assert(x == list@[u as int]@);
        let long = list[u].as_str().unicode_len() > 3;
        assert(long == (x.len() > 3));
        if long {
            found.push(list[u].clone());
            assert(found.deep_view() =~= before.push(x));
        }
        assert forall|w: Seq<char>|
            found.deep_view().contains(w) <==> (f0.contains(w) || (w.len() > 3 && post.contains(w))) by {
            assert(before.contains(w) <==> (f0.contains(w) || (w.len() > 3 && pre.contains(w))));
            if pre.contains(w) {
                let y = choose|y: int| 0 <= y < pre.len() && pre[y] == w;
                assert(post[y] == w);
            }
            if post.contains(w) && w != x {
                let y = choose|y: int| 0 <= y < post.len() && post[y] == w;
                assert(pre[y] == w);
            }
            assert(post[u as int] == x);
            if long {
                if before.contains(w) {
                    let y = choose|y: int| 0 <= y < before.len() && before[y] == w;
                    assert(found.deep_view()[y] == w);
                }
                if found.deep_view().contains(w) && w != x {
                    let y = choose|y: int|
                        0 <= y < found.deep_view().len() && found.deep_view()[y] == w;
                    assert(before[y] == w);
                }
                assert(found.deep_view()[before.len() as int] == x);
            }
        }
        u = u + 1;
    }
    assert(ld.subrange(0, m as int) =~= ld);
}

/// Extending the keys probed by one adds what that key finds.
proof fn lemma_found_by_step(
    ix: Seq<(Seq<char>, Seq<Seq<char>>)>,
    keys: Seq<Seq<char>>,
    t: int,
    w: Seq<char>,
)
    requires
        0 <= t,
    ensures
        found_by(ix, keys, t + 1, w) <==> (found_by(ix, keys, t, w) || probe_finds(ix, keys[t], w)),
{
    if found_by(ix, keys, t + 1, w) && !probe_finds(ix, keys[t], w) {
        let s = choose|s: int| 0 <= s < t + 1 && #[trigger] probe_finds(ix, keys[s], w);
        assert(s < t);
    }
    if found_by(ix, keys, t, w) {
        let s = choose|s: int| 0 <= s < t && #[trigger] probe_finds(ix, keys[s], w);
        assert(0 <= s < t + 1);
    }
}

/// The words of more than three letters that the keys find in `index`.
fn collect_answers(keys: &Vec<String>, index: &DictionaryIndex) -> (r: Vec<String>)
    ensures
        forall|w: Seq<char>|
            r.deep_view().contains(w) <==> (w.len() > 3 && found_by(
                index@,
                keys.deep_view(),
                keys@.len() as int,
                w,
            )),
{
    let ghost kv = keys.deep_view();
    let ghost ix = index@;
    let mut found: Vec<String> = Vec::new();
    let n = keys.len();
    for t in 0..n
        invariant
            n == keys@.len(),
            kv == keys.deep_view(),
            ix == index@,
            forall|w: Seq<char>|
                found.deep_view().contains(w) <==> (w.len() > 3 && found_by(ix, kv, t as int, w)),
    {
        assert(kv[t as int] == keys@[t as int]@);
        let ghost f0 = found.deep_view();
        match index.lookup(&keys[t]) {
            Some(list) => {
                assert(index_lookup(ix, kv[t as int]) == Some(list.deep_view()));
                collect_long(&mut found, list);
                assert forall|w: Seq<char>|
                    found.deep_view().contains(w) <==> (f0.contains(w) || (w.len() > 3
                        && probe_finds(ix, kv[t as int], w))) by {
                    assert(probe_finds(ix, kv[t as int], w) <==> list.deep_view().contains(w));
                }
            },
            None => {
                assert forall|w: Seq<char>|
                    found.deep_view().contains(w) <==> (f0.contains(w) || (w.len() > 3
                        && probe_finds(ix, kv[t as int], w))) by {}
            },
        }
        assert forall|w: Seq<char>|
            found.deep_view().contains(w) <==> (w.len() > 3 && found_by(ix, kv, t + 1, w)) by {
            lemma_found_by_step(ix, kv, t as int, w);
            assert(f0.contains(w) <==> (w.len() > 3 && found_by(ix, kv, t as int, w)));
        }
    }
    found
}

/// Every answer has at least four letters, uses the queen, and uses no letter
/// outside the queen and the workers.
pub proof fn lemma_answer_letters(
    queen: char,
    workers: Seq<char>,
    ix: Seq<(Seq<char>, Seq<Seq<char>>)>,
    w: Seq<char>,
)
    requires
        index_wf(ix),
        is_answer(queen, workers, ix, w),
    ensures
        w.len() >= 4,
        w.contains(queen),
        forall|c: char| w.contains(c) ==> c == queen || workers.contains(c),
{
    let k = choose|k: Seq<char>| is_candidate_key(queen, workers, k) && #[trigger] probe_finds(ix, k, w);
    let positions = choose|positions: Set<int>|
        positions_below(positions, workers.len() as int) && is_letter_key(
            k,
            #[trigger] position_letters(queen, workers, positions),
        );
    lemma_lookup_found(ix, k);
    let a = choose|a: int| 0 <= a < ix.len() && ix[a].0 == k && index_lookup(ix, k) == Some(ix[a].1);
    let j = choose|j: int| 0 <= j < ix[a].1.len() && ix[a].1[j] == w;
    assert(is_letter_key(ix[a].0, letters_of(ix[a].1[j])));
    assert(position_letters(queen, workers, positions).contains(queen));
    assert(letters_of(w).contains(queen));
    assert forall|c: char| w.contains(c) implies c == queen || workers.contains(c) by {
        assert(letters_of(w).contains(c));
        assert(position_letters(queen, workers, positions).contains(c));
        if c != queen {
            let p = choose|p: int|
                #![trigger workers[p]]
                positions.contains(p) && 0 <= p < workers.len() && workers[p] == c;
            assert(workers.contains(c));
        }
    }
}

/// The puzzle that the command asks for.
pub fn make_app(args: Arguments) -> (r: BeehiveApp)
    requires
        match args.command {
            Command::Beehive { workers, .. } => workers@.len() == WORKER_COUNT,
        },
    ensures
        r.wf(),
        match args.command {
            Command::Beehive { queen, workers } => r.queen == queen && r.workers@ == workers@,
        },
{
    match args.command {
        Command::Beehive { queen, workers } => BeehiveApp::new(queen, workers),
    }
}

/// One puzzle: the mandatory letter and the optional ones.
pub struct BeehiveApp {
    pub queen: char,
    pub workers: String,
}

impl BeehiveApp {
    /// A puzzle has exactly six optional letters.
    pub open spec fn wf(&self) -> bool {
        self.workers@.len() == WORKER_COUNT
    }

    pub fn new(queen: char, workers: String) -> (r: BeehiveApp)
        requires
            workers@.len() == WORKER_COUNT,
        ensures
            r.wf(),
            r.queen == queen,
            r.workers@ == workers@,
    {
        BeehiveApp { queen, workers }
    }

    /// The distinct letter-keys of the queen together with every subset of
    /// the workers' positions, the empty one included.
    pub fn k_combinations(&self) -> (r: Vec<String>)
        requires
            self.wf(),
        ensures
            r@.len() <= 64,
            forall|i: int, j: int| 0 <= i < j < r@.len() ==> r@[i]@ != r@[j]@,
            forall|i: int| #![trigger r@[i]]
                0 <= i < r@.len() ==> is_candidate_key(self.queen, self.workers@, r@[i]@),
            forall|positions: Set<int>| #[trigger]
                positions_below(positions, self.workers@.len() as int) ==> exists|i: int|
                    0 <= i < r@.len() && is_letter_key(
                        r@[i]@,
                        position_letters(self.queen, self.workers@, positions),
                    ),
    {
        let ghost q = self.queen;
        let ghost w = self.workers@;
        let subsets = all_subsets(WORKER_COUNT);
        assert(subset_count(WORKER_COUNT as nat) == 64) by {
            reveal_with_fuel(subset_count, 7);
        }
        let mut combinations: Vec<String> = Vec::new();
        let n = subsets.len();
        let mut j: usize = 0;
        while j < n
            invariant
                j <= n,
                n == subsets@.len(),
                n == 64,
                w == self.workers@,
                q == self.queen,
                w.len() == WORKER_COUNT,
                combinations@.len() <= j,
                forall|s: int| #![trigger subsets@[s]]
                    0 <= s < subsets@.len() ==> forall|t: int|
                        0 <= t < subsets@[s]@.len() ==> subsets@[s]@[t] < WORKER_COUNT,
                forall|a: int, b: int|
                    0 <= a < b < combinations@.len() ==> combinations@[a]@ != combinations@[b]@,
                forall|i: int| #![trigger combinations@[i]]
                    0 <= i < combinations@.len() ==> is_candidate_key(q, w, combinations@[i]@),
                forall|s: int| #![trigger subsets@[s]]
                    0 <= s < j ==> exists|i: int|
                        0 <= i < combinations@.len() && is_letter_key(
                            combinations@[i]@,
                            position_letters(q, w, index_set(subsets@[s]@)),
                        ),
            decreases n - j,
        {
            let word = self.build_word(&subsets[j]);
            let ghost positions = index_set(subsets@[j as int]@);
            proof {
                assert(subsets@[j as int] == subsets@[j as int]);
                assert(positions_below(positions, w.len() as int));
                assert(is_candidate_key(q, w, word@));
            }
            let ghost before = combinations@;
            if !contains_key(&combinations, &word) {
                combinations.push(word);
                assert(combinations@[combinations@.len() - 1]@ == word@);
            } else {
                let ghost i = choose|i: int| 0 <= i < combinations@.len() && combinations@[i]@ == word@;
                assert(is_letter_key(combinations@[i]@, position_letters(q, w, positions)));
            }
            assert forall|s: int| #![trigger subsets@[s]]
                0 <= s < j + 1 implies exists|i: int|
                    0 <= i < combinations@.len() && is_letter_key(
                        combinations@[i]@,
                        position_letters(q, w, index_set(subsets@[s]@)),
                    ) by {
                if s < j {
                    assert(subsets@[s] == subsets@[s]);
                    let i = choose|i: int|
                        0 <= i < before.len() && is_letter_key(
                            before[i]@,
                            position_letters(q, w, index_set(subsets@[s]@)),
                        );
                    assert(combinations@[i] == before[i]);
                } else {
                    assert(exists|i: int|
                        0 <= i < combinations@.len() && combinations@[i]@ == word@);
                }
            }
            j = j + 1;
        }
        proof {
            assert forall|positions: Set<int>| #[trigger]
                positions_below(positions, w.len() as int) implies exists|i: int|
                    0 <= i < combinations@.len() && is_letter_key(
                        combinations@[i]@,
                        position_letters(q, w, positions),
                    ) by {
                let s = choose|s: int| 0 <= s < subsets@.len() && index_set(subsets@[s]@) == positions;
                assert(subsets@[s] == subsets@[s]);
            }
        }
        combinations
    }

    /// The answers that `index` holds for this puzzle, sorted and distinct.
    pub fn answers(&self, index: &DictionaryIndex) -> (r: Vec<String>)
        requires
            self.wf(),
        ensures
            words_sorted(r.deep_view()),
            forall|w: Seq<char>|
                r.deep_view().contains(w) <==> is_answer(self.queen, self.workers@, index@, w),
    {
        let keys = self.k_combinations();
        let ghost kv = keys.deep_view();
        let ghost ix = index@;
        let n = keys.len();
        let found = collect_answers(&keys, index);
        proof {
            let q = self.queen;
            let ws = self.workers@;
            assert forall|w: Seq<char>|
                found.deep_view().contains(w) <==> is_answer(q, ws, ix, w) by {
                if found.deep_view().contains(w) {
                    let s = choose|s: int| 0 <= s < n && #[trigger] probe_finds(ix, kv[s], w);
                    assert(keys@[s] == keys@[s]);
                    assert(is_candidate_key(q, ws, kv[s]));
                }
                if is_answer(q, ws, ix, w) {
                    let k = choose|k: Seq<char>|
                        is_candidate_key(q, ws, k) && #[trigger] probe_finds(ix, k, w);
                    let positions = choose|positions: Set<int>|
                        positions_below(positions, ws.len() as int) && is_letter_key(
                            k,
                            #[trigger] position_letters(q, ws, positions),
                        );
                    let i = choose|i: int|
                        0 <= i < keys@.len() && is_letter_key(
                            keys@[i]@,
                            position_letters(q, ws, positions),
                        );
                    lemma_letter_key_unique(keys@[i]@, k, position_letters(q, ws, positions));
                    assert(probe_finds(ix, kv[i], w));
                }
            }
        }
        normalize_words(found)
    }

    /// Builds the letter-key of the queen together with the workers at the
    /// positions in `subset`.
    pub fn build_word(&self, subset: &Vec<usize>) -> (r: String)
        requires
            forall|j: int| 0 <= j < subset@.len() ==> subset@[j] < self.workers@.len(),
        ensures
            is_letter_key(r@, position_letters(self.queen, self.workers@, index_set(subset@))),
    {
        let ghost w = self.workers@;
        let mut chars: Vec<char> = Vec::new();
        chars.push(self.queen);
        let n = subset.len();
        for j in 0..n
            invariant
                n == subset@.len(),
                w == self.workers@,
                forall|t: int| 0 <= t < subset@.len() ==> subset@[t] < w.len(),
                chars@.len() == j + 1,
                chars@[0] == self.queen,
                forall|t: int| 0 <= t < j ==> chars@[t + 1] == w[subset@[t] as int],
        {
            let c = self.workers.as_str().get_char(subset[j]);
            chars.push(c);
        }
        let ghost cs = chars@;
        let ghost target = position_letters(self.queen, w, index_set(subset@));
        assert forall|c: char| letters_of(cs).contains(c) <==> target.contains(c) by {
            if cs.contains(c) {
                let t = choose|t: int| 0 <= t < cs.len() && cs[t] == c;
                if t > 0 {
                    assert(index_set(subset@).contains(subset@[t - 1] as int));
                    assert(w[subset@[t - 1] as int] == c);
                }
            }
            if target.contains(c) {
                if c == self.queen {
                    assert(cs[0] == c);
                } else {
                    let p = choose|p: int|
                        index_set(subset@).contains(p) && 0 <= p < w.len() && w[p] == c;
                    let t = choose|t: int| 0 <= t < subset@.len() && subset@[t] as int == p;
                    assert(cs[t + 1] == c);
                }
            }
        }
        assert(letters_of(cs) =~= target);
        key_of_chars(chars)
    }
}

} // verus!
