//! Lists of paths in order and without repetitions.
use crate::text::views;
use itertools::Itertools;
use vstd::prelude::*;

verus! {

/// Whether the text `a` stands before the text `b`, or is `b`, in the order of
/// strings: character by character by code point, a prefix before what it is
/// a prefix of.
pub open spec fn text_le(a: Seq<char>, b: Seq<char>) -> bool
    decreases a.len(),
{
    if a.len() == 0 {
        true
    } else if b.len() == 0 {
        false
    } else if a[0] != b[0] {
        (a[0] as u32) < (b[0] as u32)
    } else {
        text_le(a.drop_first(), b.drop_first())
    }
}

/// Two texts that stand before each other are the same text.
pub proof fn lemma_text_le_antisymmetric(a: Seq<char>, b: Seq<char>)
    requires
        text_le(a, b),
        text_le(b, a),
    ensures
        a == b,
    decreases a.len(),
{
    if a.len() == 0 {
        assert(a =~= b);
    } else {
        lemma_text_le_antisymmetric(a.drop_first(), b.drop_first());
        assert(a =~= seq![a[0]] + a.drop_first());
        assert(b =~= seq![b[0]] + b.drop_first());
    }
}

/// Whether the texts stand in ascending order, equal ones side by side.
pub open spec fn sorted_texts(s: Seq<Seq<char>>) -> bool {
    forall|i: int, j: int| 0 <= i < j < s.len() ==> text_le(#[trigger] s[i], #[trigger] s[j])
}

/// Whether the texts stand in ascending order and none stands twice.
pub open spec fn strictly_sorted_texts(s: Seq<Seq<char>>) -> bool {
    forall|i: int, j: int|
        0 <= i < j < s.len() ==> text_le(#[trigger] s[i], #[trigger] s[j]) && s[i] != s[j]
}

/// `s` with every run of equal texts that stand side by side reduced to one.
pub open spec fn without_repeats(s: Seq<Seq<char>>) -> Seq<Seq<char>>
    decreases s.len(),
{
    if s.len() == 0 {
        s
    } else if s.len() >= 2 && s[s.len() - 2] == s.last() {
        without_repeats(s.drop_last())
    } else {
        without_repeats(s.drop_last()).push(s.last())
    }
}

/// Taking the repeats out of a sorted list leaves the same texts, each once
/// and in order.
pub proof fn lemma_without_repeats(s: Seq<Seq<char>>)
    requires
        sorted_texts(s),
    ensures
        strictly_sorted_texts(without_repeats(s)),
        without_repeats(s).no_duplicates(),
        forall|x: Seq<char>| without_repeats(s).contains(x) <==> s.contains(x),
    decreases s.len(),
{
    let d = without_repeats(s);
    if s.len() > 0 {
        let init = s.drop_last();
        let last = s.last();
        assert forall|i: int, j: int| 0 <= i < j < init.len() implies text_le(
            #[trigger] init[i],
            #[trigger] init[j],
        ) by {
            assert(init[i] == s[i] && init[j] == s[j]);
        }
        lemma_without_repeats(init);
        let kept = without_repeats(init);
        if s.len() >= 2 && s[s.len() - 2] == last {
            assert forall|x: Seq<char>| d.contains(x) <==> s.contains(x) by {
                if s.contains(x) {
                    let i = choose|i: int| 0 <= i < s.len() && s[i] == x;
                    let at = if i == s.len() - 1 { i - 1 } else { i };
                    assert(init[at] == x);
                    assert(init.contains(x));
                }
                if d.contains(x) {
                    assert(init.contains(x));
                    let i = choose|i: int| 0 <= i < init.len() && init[i] == x;
                    assert(s[i] == x);
                }
            }
        } else {
            assert forall|i: int, j: int| 0 <= i < j < d.len() implies text_le(
                #[trigger] d[i],
                #[trigger] d[j],
            ) && d[i] != d[j] by {
                if j == kept.len() {
                    assert(d[i] == kept[i]);
                    assert(kept.contains(kept[i]));
                    assert(init.contains(kept[i]));
                    let m = choose|m: int| 0 <= m < init.len() && init[m] == kept[i];
                    assert(s[m] == kept[i]);
                    assert(text_le(s[m], s[s.len() - 1]));
                    if kept[i] == last {
                        assert(text_le(s[m], s[s.len() - 2]));
                        assert(text_le(s[s.len() - 2], s[s.len() - 1]));
                        lemma_text_le_antisymmetric(s[s.len() - 2], last);
                    }
                } else {
                    assert(d[i] == kept[i] && d[j] == kept[j]);
                }
            }
            assert forall|x: Seq<char>| d.contains(x) <==> s.contains(x) by {
                if s.contains(x) {
                    let i = choose|i: int| 0 <= i < s.len() && s[i] == x;
                    if i < s.len() - 1 {
                        assert(init[i] == x);
                        assert(init.contains(x));
                        assert(kept.contains(x));
                        let m = choose|m: int| 0 <= m < kept.len() && kept[m] == x;
                        assert(d[m] == x);
                    } else {
                        assert(d[kept.len() as int] == x);
                    }
                }
                if d.contains(x) {
                    let i = choose|i: int| 0 <= i < d.len() && d[i] == x;
                    if i < kept.len() {
                        assert(kept[i] == x);
                        assert(kept.contains(x));
                        assert(init.contains(x));
                        let m = choose|m: int| 0 <= m < init.len() && init[m] == x;
                        assert(s[m] == x);
                    } else {
                        assert(s[s.len() - 1] == x);
                    }
                }
            }
        }
    }
}

/// Sorts the strings.
///
/// Calls `Itertools::sorted` and collects. Taken on trust from its source,
/// which sorts a vector of the items with `slice::sort`: the result holds the
/// same strings as often, in ascending order. The order is that of `String`,
/// which the standard library documents as the order of the code points,
/// character by character.
#[verifier::external_body]
fn sorted(texts: Vec<String>) -> (r: Vec<String>)
    ensures
        views(r@).to_multiset() == views(texts@).to_multiset(),
        sorted_texts(views(r@)),
{
    texts.into_iter().sorted().collect()
}

/// Takes out the strings that repeat the one before them.
///
/// Calls `Itertools::dedup` and collects. Taken on trust from its source:
/// of every run of equal strings that stand side by side, one is kept.
#[verifier::external_body]
fn dedup(texts: Vec<String>) -> (r: Vec<String>)
    ensures
        views(r@) == without_repeats(views(texts@)),
{
    texts.into_iter().dedup().collect()
}

/// The strings of `texts`, each once, in the ascending order of strings.
pub fn sorted_unique(texts: Vec<String>) -> (r: Vec<String>)
    ensures
        strictly_sorted_texts(views(r@)),
        views(r@).no_duplicates(),
        forall|x: Seq<char>| views(r@).contains(x) <==> views(texts@).contains(x),
{
    let ghost given = views(texts@);
    let in_order = sorted(texts);
    proof {
        let s = views(in_order@);
        s.to_multiset_ensures();
        given.to_multiset_ensures();
        lemma_without_repeats(s);
        assert forall|x: Seq<char>| s.contains(x) <==> given.contains(x) by {
            assert(s.contains(x) <==> s.to_multiset().count(x) > 0);
            assert(given.contains(x) <==> given.to_multiset().count(x) > 0);
        }
        assert forall|x: Seq<char>| without_repeats(s).contains(x) <==> given.contains(x) by {
            assert(without_repeats(s).contains(x) <==> s.contains(x));
        }
    }
    dedup(in_order)
}

} // verus!
