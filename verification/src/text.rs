//! Texts: their order, sorting them, and joining them line by line.

use vstd::prelude::*;
use vstd::relations::{sorted_by, total_ordering};

verus! {

/// The texts that a sequence of strings holds.
pub open spec fn texts(strings: Seq<String>) -> Seq<Seq<char>> {
    strings.map_values(|s: String| s@)
}

/// The order of texts: character by character, and a text before its own continuations.
pub open spec fn text_le(a: Seq<char>, b: Seq<char>) -> bool
    decreases a.len(),
{
    if a.len() == 0 {
        true
    } else if b.len() == 0 {
        false
    } else if a[0] == b[0] {
        text_le(a.drop_first(), b.drop_first())
    } else {
        a[0] < b[0]
    }
}

/// [`text_le`] as a relation.
pub open spec fn text_order() -> spec_fn(Seq<char>, Seq<char>) -> bool {
    |a: Seq<char>, b: Seq<char>| text_le(a, b)
}

/// The given texts in ascending order, each as often as it was given.
pub open spec fn ascending(lines: Seq<Seq<char>>) -> Seq<Seq<char>> {
    lines.sort_by(text_order())
}

/// The given lines with a line break between each and the next.
pub open spec fn join_lines(lines: Seq<Seq<char>>) -> Seq<char>
    decreases lines.len(),
{
    if lines.len() == 0 {
        Seq::empty()
    } else if lines.len() == 1 {
        lines[0]
    } else {
        join_lines(lines.drop_last()) + "\n"@ + lines.last()
    }
}

proof fn lemma_text_le_reflexive(a: Seq<char>)
    ensures
        text_le(a, a),
    decreases a.len(),
{
    if a.len() > 0 {
        lemma_text_le_reflexive(a.drop_first());
    }
}

proof fn lemma_text_le_antisymmetric(a: Seq<char>, b: Seq<char>)
    requires
        text_le(a, b),
        text_le(b, a),
    ensures
        a == b,
    decreases a.len(),
{
    if a.len() > 0 && b.len() > 0 {
        lemma_text_le_antisymmetric(a.drop_first(), b.drop_first());
        assert(a == seq![a[0]] + a.drop_first());
        assert(b == seq![b[0]] + b.drop_first());
    } else {
        assert(a =~= b);
    }
}

proof fn lemma_text_le_transitive(a: Seq<char>, b: Seq<char>, c: Seq<char>)
    requires
        text_le(a, b),
        text_le(b, c),
    ensures
        text_le(a, c),
    decreases a.len(),
{
    if a.len() > 0 && a[0] == b[0] && b[0] == c[0] {
        lemma_text_le_transitive(a.drop_first(), b.drop_first(), c.drop_first());
    }
}

proof fn lemma_text_le_total(a: Seq<char>, b: Seq<char>)
    ensures
        text_le(a, b) || text_le(b, a),
    decreases a.len(),
{
    if a.len() > 0 && b.len() > 0 {
        lemma_text_le_total(a.drop_first(), b.drop_first());
    }
}

/// The order of texts is a total order.
pub proof fn law_text_order_is_total()
    ensures
        total_ordering(text_order()),
{
    let le = text_order();
    assert forall|a: Seq<char>| #[trigger] le(a, a) by {
        lemma_text_le_reflexive(a);
    }
    assert forall|a: Seq<char>, b: Seq<char>| #[trigger] le(a, b) && #[trigger] le(b, a) implies a
        == b by {
        lemma_text_le_antisymmetric(a, b);
    }
    assert forall|a: Seq<char>, b: Seq<char>, c: Seq<char>| #[trigger]
        le(a, b) && #[trigger] le(b, c) implies le(a, c) by {
        lemma_text_le_transitive(a, b, c);
    }
    assert forall|a: Seq<char>, b: Seq<char>| #[trigger] le(a, b) || #[trigger] le(b, a) by {
        lemma_text_le_total(a, b);
    }
}

/// A text comes before its continuations, and of two texts that first differ in one character the
/// one with the smaller character comes first.
pub proof fn law_text_order_is_lexicographic(
    common: Seq<char>,
    x: char,
    y: char,
    a: Seq<char>,
    b: Seq<char>,
)
    ensures
        text_le(common, common + a),
        a.len() > 0 ==> !text_le(common + a, common),
        x < y ==> text_le(common + seq![x] + a, common + seq![y] + b),
        x < y ==> !text_le(common + seq![y] + b, common + seq![x] + a),
    decreases common.len(),
{
    let left = common + seq![x] + a;
    let right = common + seq![y] + b;
    if common.len() > 0 {
        let rest = common.drop_first();
        law_text_order_is_lexicographic(rest, x, y, a, b);
        assert((common + a).drop_first() =~= rest + a);
        assert(left.drop_first() =~= rest + seq![x] + a);
        assert(right.drop_first() =~= rest + seq![y] + b);
    } else {
        assert(left[0] == x && right[0] == y);
    }
}

/// Sorting yields the same texts, each as often, and none before one that it comes after.
pub proof fn law_ascending_is_sorted(lines: Seq<Seq<char>>)
    ensures
        ascending(lines).to_multiset() == lines.to_multiset(),
        forall|i: int, j: int|
            0 <= i < j < ascending(lines).len() ==> text_le(
                #[trigger] ascending(lines)[i],
                #[trigger] ascending(lines)[j],
            ),
{
    law_text_order_is_total();
    lines.lemma_sort_by_ensures(text_order());
    let le = text_order();
    assert forall|i: int, j: int| 0 <= i < j < ascending(lines).len() implies text_le(
        #[trigger] ascending(lines)[i],
        #[trigger] ascending(lines)[j],
    ) by {
        assert(le(ascending(lines)[i], ascending(lines)[j]));
    }
}

/// No lines join to nothing, one line to itself, and two runs of lines to what each joins to, with
/// a line break between them.
pub proof fn law_joining_puts_breaks_between(a: Seq<Seq<char>>, b: Seq<Seq<char>>, line: Seq<char>)
    ensures
        join_lines(Seq::empty()) == Seq::<char>::empty(),
        join_lines(seq![line]) == line,
        a.len() > 0 && b.len() > 0 ==> join_lines(a + b) == join_lines(a) + seq!['\n'] + join_lines(
            b,
        ),
    decreases b.len(),
{
    reveal_strlit("\n");
    assert("\n"@ =~= seq!['\n']);
    if a.len() > 0 && b.len() > 0 {
        assert((a + b).drop_last() =~= a + b.drop_last());
        assert((a + b).last() == b.last());
        if b.len() == 1 {
            assert(a + b.drop_last() =~= a);
            assert(join_lines(b) == b.last());
        } else {
            law_joining_puts_breaks_between(a, b.drop_last(), line);
        }
        assert(join_lines(a + b) =~= join_lines(a) + seq!['\n'] + join_lines(b));
    }
}

/// The texts of strings are what each string holds, one by one.
pub proof fn law_texts_are_what_strings_hold(strings: Seq<String>, i: int)
    requires
        0 <= i < strings.len(),
    ensures
        texts(strings).len() == strings.len(),
        texts(strings)[i] == strings[i]@,
{
}

/// Whether `a` comes no later than `b` in the order of texts.
pub fn at_most(a: &str, b: &str) -> (r: bool)
    ensures
        r == text_le(a@, b@),
{
    let mut xs = a.chars();
    let mut ys = b.chars();
    loop
        invariant
            text_le(a@, b@) == text_le(
                vstd::std_specs::iter::IteratorSpec::remaining(&xs),
                vstd::std_specs::iter::IteratorSpec::remaining(&ys),
            ),
            vstd::std_specs::iter::IteratorSpec::decrease(&xs) is Some,
        decreases vstd::std_specs::iter::IteratorSpec::decrease(&xs)->0,
    {
        match (xs.next(), ys.next()) {
            (None, _) => {
                return true;
            },
            (Some(_), None) => {
                return false;
            },
            (Some(x), Some(y)) => {
                if x != y {
                    return x < y;
                }
            },
        }
    }
}

/// Sorts strings by their texts, in ascending order.
pub fn sort(strings: Vec<String>) -> (sorted: Vec<String>)
    ensures
        texts(sorted@) == ascending(texts(strings@)),
        texts(sorted@).to_multiset() == texts(strings@).to_multiset(),
        sorted_by(texts(sorted@), text_order()),
{
    let mut sorted: Vec<String> = Vec::new();
    let mut i: usize = 0;
    proof {
        law_text_order_is_total();
        assert(texts(sorted@) =~= texts(strings@.take(0)));
    }
    while i < strings.len()
        invariant
            i <= strings.len(),
            total_ordering(text_order()),
            sorted_by(texts(sorted@), text_order()),
            texts(sorted@).to_multiset() == texts(strings@.take(i as int)).to_multiset(),
        decreases strings.len() - i,
    {
        let ghost before = texts(sorted@);
        let ghost text = strings@[i as int]@;
        let ghost le = text_order();
        let mut at: usize = sorted.len();
        while at > 0 && !at_most(sorted[at - 1].as_str(), strings[i].as_str())
            invariant
                i < strings.len(),
                at <= sorted.len(),
                before == texts(sorted@),
                text == strings@[i as int]@,
                forall|k: int| at <= k < before.len() ==> !text_le(#[trigger] before[k], text),
            decreases at,
        {
            at = at - 1;
        }
        sorted.insert(at, strings[i].clone());
        proof {
            let after = texts(sorted@);
            assert(after =~= before.insert(at as int, text));
            assert forall|j: int, k: int| 0 <= j < k < after.len() implies le(
                #[trigger] after[j],
                #[trigger] after[k],
            ) by {
                let j0 = if j < at { j } else { j - 1 };
                let k0 = if k < at { k } else { k - 1 };
                if j != at && k != at {
                    assert(le(before[j0], before[k0]));
                } else if j == at {
                    assert(le(before[k0], text) || le(text, before[k0]));
                } else if j < at - 1 {
                    assert(le(before[j], before[at - 1]));
                    assert(le(before[at - 1], text));
                }
            }
            vstd::seq_lib::to_multiset_insert(before, at as int, text);
            assert(strings@.take(i + 1) =~= strings@.take(i as int).push(strings@[i as int]));
            assert(texts(strings@.take(i + 1)) =~= texts(strings@.take(i as int)).push(text));
            broadcast use vstd::seq_lib::group_to_multiset_ensures;

        }
        i = i + 1;
    }
    proof {
        assert(strings@.take(strings@.len() as int) =~= strings@);
        let lines = texts(strings@);
        lines.lemma_sort_by_ensures(text_order());
        vstd::seq_lib::lemma_sorted_unique(texts(sorted@), ascending(lines), text_order());
    }
    sorted
}

/// Joins strings by line breaks.
pub fn join(strings: &Vec<String>) -> (joined: String)
    ensures
        joined@ == join_lines(texts(strings@)),
{
    let mut joined: String = String::new();
    let mut i: usize = 0;
    while i < strings.len()
        invariant
            i <= strings.len(),
            joined@ == join_lines(texts(strings@).take(i as int)),
        decreases strings.len() - i,
    {
        if i > 0 {
            joined.append("\n");
        }
        joined.append(strings[i].as_str());
        proof {
            let lines = texts(strings@);
            assert(lines.take(i + 1).drop_last() =~= lines.take(i as int));
            assert(lines.take(i + 1).last() == strings@[i as int]@);
        }
        i = i + 1;
    }
    assert(texts(strings@).take(strings@.len() as int) =~= texts(strings@));
    joined
}

} // verus!
