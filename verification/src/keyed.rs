//! Lists of keyed items in which each key occurs once.
use vstd::prelude::*;

verus! {

/// No two items of `s` have the same key.
pub open spec fn keys_distinct<T>(s: Seq<(String, T)>) -> bool {
    forall|i: int, j: int| 0 <= i < s.len() && 0 <= j < s.len() && i != j ==> s[i].0@ != s[j].0@
}

/// The position of `key` in `s`, if it occurs.
pub open spec fn key_index<T>(s: Seq<(String, T)>, key: Seq<char>) -> Option<int> {
    if exists|i: int| 0 <= i < s.len() && #[trigger] s[i].0@ == key {
        Some(choose|i: int| 0 <= i < s.len() && #[trigger] s[i].0@ == key)
    } else {
        None
    }
}

/// `list` with `value` under `key` in place of what was under it: the old item
/// (if any) is removed and the new one appended.
pub fn replace_keyed<T>(list: Vec<(String, T)>, key: String, value: T) -> (res: Vec<(String, T)>)
    requires
        keys_distinct(list@),
    ensures
        match key_index(list@, key@) {
            Some(i) => res@ == list@.remove(i).push((key, value)),
            None => res@ == list@.push((key, value)),
        },
        keys_distinct(res@),
{
    let ghost old_list = list@;
    let mut list = list;
    let mut i: usize = 0;
    while i < list.len()
        invariant
            list@ == old_list,
            keys_distinct(old_list),
            i <= old_list.len(),
            forall|j: int| 0 <= j < i ==> #[trigger] old_list[j].0@ != key@,
        ensures
            list@ == old_list,
            i <= old_list.len(),
            forall|j: int| 0 <= j < i ==> #[trigger] old_list[j].0@ != key@,
            i < old_list.len() ==> old_list[i as int].0@ == key@,
        decreases list.len() - i,
    {
        if list[i].0 == key {
            break;
        }
        i = i + 1;
    }
    if i < list.len() {
        proof {
            let k = choose|k: int| 0 <= k < old_list.len() && #[trigger] old_list[k].0@ == key@;
            if k != i {
                assert(old_list[k].0@ != old_list[i as int].0@);
            }
        }
        let _ = list.remove(i);
        proof {
            let r = old_list.remove(i as int);
            assert forall|a: int, b: int|
                0 <= a < r.len() && 0 <= b < r.len() && a != b implies r[a].0@ != r[b].0@ by {
                let a0 = if a < i { a } else { a + 1 };
                let b0 = if b < i { b } else { b + 1 };
                assert(r[a] == old_list[a0] && r[b] == old_list[b0]);
            }
            assert forall|a: int| 0 <= a < r.len() implies #[trigger] r[a].0@ != key@ by {
                let a0 = if a < i { a } else { a + 1 };
                assert(r[a] == old_list[a0]);
            }
        }
    }
    let ghost before = list@;
    assert(forall|a: int| 0 <= a < before.len() ==> #[trigger] before[a].0@ != key@);
    list.push((key, value));
    proof {
        let now = list@;
        assert(now.drop_last() =~= before);
        assert forall|a: int, b: int|
            0 <= a < now.len() && 0 <= b < now.len() && a != b implies now[a].0@ != now[b].0@ by {
            if a < before.len() && b < before.len() {
                assert(now[a] == before[a] && now[b] == before[b]);
            } else if a < before.len() {
                assert(now[a] == before[a]);
            } else if b < before.len() {
                assert(now[b] == before[b]);
            }
        }
    }
    list
}

} // verus!
