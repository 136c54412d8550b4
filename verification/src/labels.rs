//! Texts in which every value stands behind its label.
use vstd::prelude::*;

verus! {

/// The text has the value right behind the label.
pub open spec fn says(t: Seq<char>, label: Seq<char>, value: Seq<char>) -> bool {
    exists|a: Seq<char>, b: Seq<char>| t == #[trigger] (a + label + value + b)
}

/// Labels and values, one behind the other.
pub open spec fn line(parts: Seq<(Seq<char>, Seq<char>)>, n: int) -> Seq<char>
    decreases n,
{
    if n <= 0 {
        seq![]
    } else {
        line(parts, n - 1) + parts[n - 1].0 + parts[n - 1].1
    }
}

/// Every value of a line stands behind its label.
pub proof fn lemma_line(parts: Seq<(Seq<char>, Seq<char>)>, end: Seq<char>, k: int)
    requires
        0 <= k < parts.len(),
    ensures
        says(line(parts, parts.len() as int) + end, parts[k].0, parts[k].1),
{
    let rest = lemma_rest(parts, parts.len() as int, k);
    let (a, l, v) = (line(parts, k), parts[k].0, parts[k].1);
    assert(line(parts, parts.len() as int) + end =~= a + l + v + (rest + end));
}

/// What follows a value.
proof fn lemma_rest(parts: Seq<(Seq<char>, Seq<char>)>, n: int, k: int) -> (rest: Seq<char>)
    requires
        0 <= k < n <= parts.len(),
    ensures
        line(parts, n) == line(parts, k) + parts[k].0 + parts[k].1 + rest,
    decreases n,
{
    if k == n - 1 {
        let rest: Seq<char> = seq![];
        assert(line(parts, n) =~= line(parts, k) + parts[k].0 + parts[k].1 + rest);
        rest
    } else {
        let before = lemma_rest(parts, n - 1, k);
        let rest = before + parts[n - 1].0 + parts[n - 1].1;
        assert(line(parts, n) =~= line(parts, k) + parts[k].0 + parts[k].1 + rest);
        rest
    }
}

/// What a part of a text says the whole says.
pub proof fn lemma_part_says(
    front: Seq<char>,
    t: Seq<char>,
    back: Seq<char>,
    label: Seq<char>,
    value: Seq<char>,
)
    requires
        says(t, label, value),
    ensures
        says(front + t + back, label, value),
{
    let (a, b) = choose|a: Seq<char>, b: Seq<char>| t == #[trigger] (a + label + value + b);
    assert(front + t + back =~= (front + a) + label + value + (b + back));
}

} // verus!
