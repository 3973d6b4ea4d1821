//! Letter-keys: the sorted sequence of the distinct letters of a word.
use itertools::Itertools;
use vstd::prelude::*;

verus! {

/// Every character is strictly smaller than the ones after it.
pub open spec fn strictly_increasing(k: Seq<char>) -> bool {
    forall|i: int, j: int| 0 <= i < j < k.len() ==> k[i] < k[j]
}

/// Every character is at most the ones after it.
pub open spec fn nondecreasing(k: Seq<char>) -> bool {
    forall|i: int, j: int| 0 <= i <= j < k.len() ==> k[i] <= k[j]
}

/// The set of distinct letters that occur in `s`.
pub open spec fn letters_of(s: Seq<char>) -> Set<char> {
    Set::new(|c: char| s.contains(c))
}

/// `k` is the letter-key of the letter set `letters`: its members, each once,
/// in ascending order.
pub open spec fn is_letter_key(k: Seq<char>, letters: Set<char>) -> bool {
    &&& strictly_increasing(k)
    &&& forall|c: char| k.contains(c) <==> letters.contains(c)
}

/// A letter set has at most one letter-key.
pub proof fn lemma_letter_key_unique(a: Seq<char>, b: Seq<char>, letters: Set<char>)
    requires
        is_letter_key(a, letters),
        is_letter_key(b, letters),
    ensures
        a == b,
    decreases a.len(),
{
    if a.len() == 0 {
        if b.len() > 0 {
            assert(b.contains(b[0]));
        }
        assert(a =~= b);
    } else {
        assert(a.contains(a[0]));
        assert(b.len() > 0);
        assert(b.contains(b[0]));
        let i = choose|i: int| 0 <= i < b.len() && b[i] == a[0];
        let j = choose|j: int| 0 <= j < a.len() && a[j] == b[0];
        assert(a[0] == b[0]) by {
            if i > 0 {
                assert(b[0] < b[i]);
            }
            if j > 0 {
                assert(a[0] < a[j]);
            }
        }
        let rest = letters.remove(a[0]);
        let a2 = a.drop_first();
        let b2 = b.drop_first();
        assert forall|c: char| a2.contains(c) <==> rest.contains(c) by {
            if a2.contains(c) {
                let t = choose|t: int| 0 <= t < a2.len() && a2[t] == c;
                assert(a[t + 1] == c);
                assert(a.contains(c));
            }
            if rest.contains(c) {
                assert(a.contains(c));
                let t = choose|t: int| 0 <= t < a.len() && a[t] == c;
                assert(t != 0);
                assert(a2[t - 1] == c);
            }
        }
        assert forall|c: char| b2.contains(c) <==> rest.contains(c) by {
            if b2.contains(c) {
                let t = choose|t: int| 0 <= t < b2.len() && b2[t] == c;
                assert(b[t + 1] == c);
                assert(b.contains(c));
            }
            if rest.contains(c) {
                assert(b.contains(c));
                let t = choose|t: int| 0 <= t < b.len() && b[t] == c;
                assert(t != 0);
                assert(b2[t - 1] == c);
            }
        }
        lemma_letter_key_unique(a2, b2, rest);
        assert forall|k: int| 0 <= k < a.len() implies a[k] == b[k] by {
            if k > 0 {
                assert(a[k] == a2[k - 1]);
                assert(b[k] == b2[k - 1]);
            }
        }
        assert(a =~= b);
    }
}

/// Relies on itertools' `Itertools::sorted` over characters: the same
/// characters, rearranged into ascending order.
#[verifier::external_body]
fn sorted_chars(v: Vec<char>) -> (r: Vec<char>)
    ensures
        r@.to_multiset() == v@.to_multiset(),
        nondecreasing(r@),
{
    v.into_iter().sorted().collect()
}

/// Relies on std's `FromIterator<&char>` for `String`: the characters in order.
#[verifier::external_body]
fn string_from_chars(v: &Vec<char>) -> (r: String)
    ensures
        r@ == v@,
{
    v.iter().collect()
}

/// Drops repeated neighbours from an ascending sequence of characters.
fn dedup_sorted(v: &Vec<char>) -> (r: Vec<char>)
    requires
        nondecreasing(v@),
    ensures
        strictly_increasing(r@),
        forall|c: char| r@.contains(c) <==> v@.contains(c),
{
    let mut r: Vec<char> = Vec::new();
    let n = v.len();
    for i in 0..n
        invariant
            n == v@.len(),
            nondecreasing(v@),
            strictly_increasing(r@),
            i > 0 ==> r@.len() > 0 && r@.last() == v@[i - 1],
            i == 0 ==> r@.len() == 0,
            forall|c: char| r@.contains(c) <==> v@.subrange(0, i as int).contains(c),
    {
        let c = v[i];
        let ghost before = r@;
        if r.len() == 0 || r[r.len() - 1] != c {
            r.push(c);
            proof {
                if i > 0 {
                    assert(v@[i - 1] <= c);
                    assert(before.last() < c);
                    assert forall|k: int| 0 <= k < before.len() implies before[k] < c by {
                        if k < before.len() - 1 {
                            assert(before[k] < before.last());
                        }
                    }
                }
                assert forall|k: int, l: int| 0 <= k < l < r@.len() implies r@[k] < r@[l] by {
                    assert(r@[k] == before[k]);
                    if l < before.len() {
                        assert(before[k] < before[l]);
                    } else {
                        assert(r@[l] == c);
                    }
                }
            }
        }
        let ghost pre = v@.subrange(0, i as int);
        let ghost post = v@.subrange(0, i + 1);
        assert forall|d: char| r@.contains(d) <==> post.contains(d) by {
            if post.contains(d) {
                let t = choose|t: int| 0 <= t < post.len() && post[t] == d;
                if t < i {
                    assert(pre[t] == d);
                    assert(before.contains(d));
                    let u = choose|u: int| 0 <= u < before.len() && before[u] == d;
                    assert(r@[u] == d);
                } else {
                    assert(r@[r@.len() - 1] == d);
                }
            }
            if r@.contains(d) {
                let u = choose|u: int| 0 <= u < r@.len() && r@[u] == d;
                if u < before.len() {
                    assert(before[u] == d);
                    assert(before.contains(d));
                    let t = choose|t: int| 0 <= t < pre.len() && pre[t] == d;
                    assert(post[t] == d);
                } else {
                    assert(post[i as int] == d);
                }
            }
        }
    }
    assert(v@.subrange(0, n as int) =~= v@);
    r
}

/// The letter-key of the letters in `v`.
pub fn key_of_chars(v: Vec<char>) -> (r: String)
    ensures
        is_letter_key(r@, letters_of(v@)),
{
    let ghost orig = v@;
    let sorted = sorted_chars(v);
    let distinct = dedup_sorted(&sorted);
    proof {
        broadcast use vstd::seq_lib::group_to_multiset_ensures;

        assert forall|c: char| distinct@.contains(c) <==> letters_of(orig).contains(c) by {
            assert(sorted@.contains(c) <==> sorted@.to_multiset().count(c) > 0);
            assert(orig.contains(c) <==> orig.to_multiset().count(c) > 0);
        }
    }
    string_from_chars(&distinct)
}

/// The letter-key of a word: its distinct letters in ascending order.
pub fn letter_key(word: &str) -> (r: String)
    ensures
        is_letter_key(r@, letters_of(word@)),
{
    let n = word.unicode_len();
    let mut chars: Vec<char> = Vec::new();
    for i in 0..n
        invariant
            n == word@.len(),
            chars@ == word@.subrange(0, i as int),
    {
        chars.push(word.get_char(i));
        assert(chars@ =~= word@.subrange(0, i + 1));
    }
    assert(chars@ =~= word@);
    key_of_chars(chars)
}

} // verus!
