use std::collections::VecDeque;
use vstd::prelude::*;

verus! {

/// The list `s` with every entry equal to `t` taken out, order kept.
pub open spec fn without(s: Seq<String>, t: Seq<char>) -> Seq<String>
    decreases s.len(),
{
    if s.len() == 0 {
        s
    } else if s.last()@ == t {
        without(s.drop_last(), t)
    } else {
        without(s.drop_last(), t).push(s.last())
    }
}

/// How many entries of `s` equal `t`.
pub open spec fn occurrences(s: Seq<String>, t: Seq<char>) -> nat
    decreases s.len(),
{
    if s.len() == 0 {
        0
    } else {
        occurrences(s.drop_last(), t) + if s.last()@ == t { 1nat } else { 0nat }
    }
}

/// `k` is the first index of `s` whose entry equals `t`.
pub open spec fn first_match(s: Seq<String>, t: Seq<char>, k: int) -> bool {
    &&& 0 <= k < s.len()
    &&& s[k]@ == t
    &&& forall|j: int| 0 <= j < k ==> (#[trigger] s[j])@ != t
}

fn position_of(v: &Vec<String>, t: &String) -> (r: Option<usize>)
    ensures
        r matches Some(k) ==> first_match(v@, t@, k as int),
        r is None ==> forall|j: int| 0 <= j < v@.len() ==> (#[trigger] v@[j])@ != t@,
{
    let mut i: usize = 0;
    while i < v.len()
        invariant
            i <= v@.len(),
            forall|j: int| 0 <= j < i ==> (#[trigger] v@[j])@ != t@,
        decreases v@.len() - i,
    {
        if v[i] == *t {
            return Some(i);
        }
        i = i + 1;
    }
    None
}

proof fn lemma_remove_match(s: Seq<String>, t: Seq<char>, k: int)
    requires
        0 <= k < s.len(),
        s[k]@ == t,
    ensures
        without(s.remove(k), t) == without(s, t),
        occurrences(s.remove(k), t) + 1 == occurrences(s, t),
    decreases s.len(),
{
    if k == s.len() - 1 {
        assert(s.remove(k) =~= s.drop_last());
    } else {
        lemma_remove_match(s.drop_last(), t, k);
        assert(s.remove(k).drop_last() =~= s.drop_last().remove(k));
        assert(s.remove(k).last() == s.last());
    }
}

proof fn lemma_no_match(s: Seq<String>, t: Seq<char>)
    requires
        forall|j: int| 0 <= j < s.len() ==> (#[trigger] s[j])@ != t,
    ensures
        without(s, t) == s,
        occurrences(s, t) == 0,
    decreases s.len(),
{
    if s.len() > 0 {
        assert forall|j: int| 0 <= j < s.drop_last().len() implies (#[trigger] s.drop_last()[j])@ != t by {
            assert(s.drop_last()[j] == s[j]);
        }
        lemma_no_match(s.drop_last(), t);
        assert(s.drop_last().push(s.last()) =~= s);
    }
}

/// Removes the first entry equal to `fruit_to_remove`; true when there was one.
pub fn remove_fruit(fruit_salad: &mut Vec<String>, fruit_to_remove: &str) -> (r: bool)
    ensures
        r == exists|k: int| 0 <= k < old(fruit_salad)@.len() && (#[trigger] old(fruit_salad)@[k])@ == fruit_to_remove@,
        r ==> exists|k: int|
            #[trigger] first_match(old(fruit_salad)@, fruit_to_remove@, k) && final(fruit_salad)@ == old(
                fruit_salad,
            )@.remove(k),
        !r ==> final(fruit_salad)@ == old(fruit_salad)@,
{
    let target = fruit_to_remove.to_owned();
    match position_of(fruit_salad, &target) {
        Some(index) => {
            fruit_salad.remove(index);
            assert(first_match(old(fruit_salad)@, fruit_to_remove@, index as int));
            true
        },
        None => false,
    }
}

/// Removes every entry equal to `fruit_to_remove` in one pass, keeping the
/// order of the rest; returns how many were removed.
pub fn remove_all_fruits_retain(fruit_salad: &mut Vec<String>, fruit_to_remove: &str) -> (r: usize)
    ensures
        final(fruit_salad)@ == without(old(fruit_salad)@, fruit_to_remove@),
        r == occurrences(old(fruit_salad)@, fruit_to_remove@),
        r == old(fruit_salad)@.len() - final(fruit_salad)@.len(),
{
    let target = fruit_to_remove.to_owned();
    let original_length = fruit_salad.len();
    let mut kept: Vec<String> = Vec::new();
    let mut i: usize = 0;
    while i < fruit_salad.len()
        invariant
            i <= fruit_salad@.len(),
            fruit_salad@ == old(fruit_salad)@,
            target@ == fruit_to_remove@,
            kept@ == without(fruit_salad@.take(i as int), target@),
            kept@.len() + occurrences(fruit_salad@.take(i as int), target@) == i,
        decreases fruit_salad@.len() - i,
    {
        assert(fruit_salad@.take(i + 1).drop_last() =~= fruit_salad@.take(i as int));
        if fruit_salad[i] != target {
            kept.push(fruit_salad[i].clone());
        }
        i = i + 1;
    }
    assert(fruit_salad@.take(i as int) =~= fruit_salad@);
    *fruit_salad = kept;
    original_length - fruit_salad.len()
}

/// Removes every entry equal to `fruit_to_remove` by repeatedly finding and
/// removing the first one; same result as the one-pass removal.
pub fn remove_all_fruits_manual(fruit_salad: &mut Vec<String>, fruit_to_remove: &str) -> (r: usize)
    ensures
        final(fruit_salad)@ == without(old(fruit_salad)@, fruit_to_remove@),
        r == occurrences(old(fruit_salad)@, fruit_to_remove@),
        r == old(fruit_salad)@.len() - final(fruit_salad)@.len(),
{
    let target = fruit_to_remove.to_owned();
    let n = fruit_salad.len();
    let mut count: usize = 0;
    loop
        invariant
            target@ == fruit_to_remove@,
            without(fruit_salad@, target@) == without(old(fruit_salad)@, target@),
            count + occurrences(fruit_salad@, target@) == occurrences(old(fruit_salad)@, target@),
            count + fruit_salad@.len() == n,
            n == old(fruit_salad)@.len(),
        ensures
            final(fruit_salad)@ == without(old(fruit_salad)@, fruit_to_remove@),
            count == occurrences(old(fruit_salad)@, fruit_to_remove@),
            count + fruit_salad@.len() == old(fruit_salad)@.len(),
        decreases fruit_salad@.len(),
    {
        match position_of(fruit_salad, &target) {
            Some(index) => {
                proof {
                    lemma_remove_match(fruit_salad@, target@, index as int);
                }
                fruit_salad.remove(index);
                count = count + 1;
            },
            None => {
                proof {
                    lemma_no_match(fruit_salad@, target@);
                }
                break;
            },
        }
    }
    count
}

/// Takes the element at `index` out of `list` by rotation: the elements
/// before it are moved, in order, behind those after it. `None`, with the
/// list unchanged, when `index` is past the end.
pub fn remove_at<T>(list: &mut VecDeque<T>, index: usize) -> (r: Option<T>)
    ensures
        index >= old(list)@.len() ==> r is None && final(list)@ == old(list)@,
        index < old(list)@.len() ==> r == Some(old(list)@[index as int]) && final(list)@ == old(list)@.subrange(
            index + 1,
            old(list)@.len() as int,
        ) + old(list)@.subrange(0, index as int),
{
    if index >= list.len() {
        return None;
    }
    let ghost start = list@;
    let n = list.len();
    let mut current_index: usize = 0;
    let mut result: Option<T> = None;
    while current_index <= index
        invariant
            index < start.len(),
            n == start.len(),
            current_index <= index + 1,
            current_index <= index ==> result is None && list@ == start.subrange(
                current_index as int,
                start.len() as int,
            ) + start.subrange(0, current_index as int),
            current_index == index + 1 ==> result == Some(start[index as int]) && list@ == start.subrange(
                index + 1,
                start.len() as int,
            ) + start.subrange(0, index as int),
        decreases index + 1 - current_index,
    {
        let ghost before = list@;
        match list.pop_front() {
            Some(item) => {
                assert(item == start[current_index as int]);
                if current_index == index {
                    result = Some(item);
                    assert(list@ =~= start.subrange(index + 1, start.len() as int) + start.subrange(0, index as int));
                } else {
                    list.push_back(item);
                    assert(list@ =~= start.subrange(current_index + 1, start.len() as int) + start.subrange(
                        0,
                        current_index + 1,
                    ));
                }
                current_index = current_index + 1;
            },
            None => {
                assert(before.len() > 0);
            },
        }
    }
    result
}

} // verus!
