//! Grouping by key: the distinct keys of a series in the order they first
//! appear, and the group each element falls in.

use vstd::prelude::*;

verus! {

/// The keys as character sequences.
pub open spec fn key_views(keys: Seq<String>) -> Seq<Seq<char>> {
    keys.map_values(|key: String| key@)
}

/// The distinct keys of `keys`, in the order they first appear.
pub open spec fn distinct_keys(keys: Seq<Seq<char>>) -> Seq<Seq<char>>
    decreases keys.len(),
{
    if keys.len() == 0 {
        Seq::empty()
    } else {
        let before = distinct_keys(keys.drop_last());
        if before.contains(keys.last()) {
            before
        } else {
            before.push(keys.last())
        }
    }
}

/// The distinct keys hold no key twice, and hold exactly the keys there are.
pub proof fn lemma_distinct_keys(keys: Seq<Seq<char>>)
    ensures
        distinct_keys(keys).no_duplicates(),
        forall|k: Seq<char>| #[trigger] distinct_keys(keys).contains(k) <==> keys.contains(k),
    decreases keys.len(),
{
    broadcast use vstd::seq_lib::lemma_seq_contains_after_push;

    if keys.len() > 0 {
        let shorter = keys.drop_last();
        let last = keys.last();
        lemma_distinct_keys(shorter);
        assert(keys =~= shorter.push(last));
        let before = distinct_keys(shorter);
        if !before.contains(last) {
            let d = before.push(last);
            assert forall|a: int, b: int| 0 <= a < d.len() && 0 <= b < d.len() && a != b implies d[a]
                != d[b] by {
                if a == d.len() - 1 {
                    assert(before[b] == d[b]);
                } else if b == d.len() - 1 {
                    assert(before[a] == d[a]);
                } else {
                    assert(before[a] == d[a] && before[b] == d[b]);
                }
            }
        }
    }
}

/// Groups `keys`: the distinct keys in the order they first appear, and for
/// each key the index of its group among them.
pub fn group_keys(keys: &Vec<String>) -> (r: (Vec<String>, Vec<usize>))
    ensures
        key_views(r.0@) == distinct_keys(key_views(keys@)),
        r.1@.len() == keys@.len(),
        forall|i: int|
            0 <= i < keys@.len() ==> (#[trigger] r.1@[i]) < r.0@.len() && r.0@[r.1@[i] as int]@
                == keys@[i]@,
{
    let mut groups: Vec<String> = Vec::new();
    let mut indices: Vec<usize> = Vec::new();
    let mut i: usize = 0;
    while i < keys.len()
        invariant
            i <= keys@.len(),
            key_views(groups@) == distinct_keys(key_views(keys@).take(i as int)),
            indices@.len() == i,
            forall|j: int|
                0 <= j < i ==> (#[trigger] indices@[j]) < groups@.len() && groups@[indices@[j] as int]@
                    == keys@[j]@,
        decreases keys@.len() - i,
    {
        let ghost views = key_views(keys@);
        let ghost before = distinct_keys(views.take(i as int));
        assert(views.take(i + 1).drop_last() =~= views.take(i as int));
        assert(views.take(i + 1).last() == keys@[i as int]@);
        let mut g: usize = 0;
        let mut found = false;
        while g < groups.len() && !found
            invariant
                g <= groups@.len(),
                i < keys@.len(),
                key_views(groups@) == before,
                found ==> g < groups@.len() && groups@[g as int]@ == keys@[i as int]@,
                !found ==> forall|h: int| 0 <= h < g ==> (#[trigger] groups@[h])@ != keys@[i as int]@,
            decreases 2 * (groups@.len() - g) + if found { 0int } else { 1int },
        {
            if groups[g] == keys[i] {
                found = true;
            } else {
                g = g + 1;
            }
        }
        proof {
            assert(forall|h: int| 0 <= h < groups@.len() ==> #[trigger] key_views(groups@)[h] == groups@[h]@);
        }
        if found {
            assert(before.contains(keys@[i as int]@)) by {
                assert(key_views(groups@)[g as int] == keys@[i as int]@);
            }
            assert(key_views(groups@) == distinct_keys(views.take(i + 1)));
            indices.push(g);
        } else {
            assert(!before.contains(keys@[i as int]@)) by {
                if before.contains(keys@[i as int]@) {
                    let h = choose|h: int| 0 <= h < before.len() && before[h] == keys@[i as int]@;
                    assert(key_views(groups@)[h] == groups@[h]@);
                }
            }
            let key = keys[i].clone();
            let ghost old_groups = groups@;
            groups.push(key);
            assert(groups@[g as int]@ == keys@[i as int]@);
            assert forall|j: int| 0 <= j < i implies #[trigger] indices@[j] < groups@.len()
                && groups@[indices@[j] as int]@ == keys@[j]@ by {
                assert(groups@[indices@[j] as int] == old_groups[indices@[j] as int]);
            }
            assert(key_views(groups@) =~= key_views(old_groups).push(keys@[i as int]@));
            assert(key_views(groups@) == distinct_keys(views.take(i + 1)));
            indices.push(g);
        }
        i = i + 1;
    }
    assert(key_views(keys@).take(keys@.len() as int) =~= key_views(keys@));
    (groups, indices)
}

} // verus!
