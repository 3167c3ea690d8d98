//! What the commands promise together: a read gives back the last write,
//! writes and deletions touch only their own keys, and a deletion answers
//! with how many of the keys it named were present.
use vstd::prelude::*;
use crate::db::{delete_keys, step};
use crate::protocol::{CommandView, ResponseView};

verus! {

/// Getting a key right after setting it gives the value just set.
pub proof fn law_get_after_set(m: Map<Seq<u8>, Seq<u8>>, key: Seq<u8>, value: Seq<u8>)
    ensures
        step(step(m, CommandView::SetKey { key, value }).0, CommandView::Get { key }).1
            == ResponseView::Bulk(value),
{
}

/// Getting a key that was never set, or that is not in the store, answers nil.
pub proof fn law_get_missing(m: Map<Seq<u8>, Seq<u8>>, key: Seq<u8>)
    requires
        !m.contains_key(key),
    ensures
        step(m, CommandView::Get { key }) == (m, ResponseView::Nil),
{
}

/// Setting a key leaves every other key as it was.
pub proof fn law_set_keeps_other_keys(
    m: Map<Seq<u8>, Seq<u8>>,
    key: Seq<u8>,
    value: Seq<u8>,
    other: Seq<u8>,
)
    requires
        other != key,
    ensures
        step(m, CommandView::SetKey { key, value }).0.contains_key(other) == m.contains_key(other),
        step(m, CommandView::SetKey { key, value }).0[other] == m[other],
{
}

/// Reading commands and saving leave the store as it was.
pub proof fn law_get_and_save_change_nothing(m: Map<Seq<u8>, Seq<u8>>, key: Seq<u8>)
    ensures
        step(m, CommandView::Get { key }).0 == m,
        step(m, CommandView::Save).0 == m,
{
}

/// Deleting keys removes exactly those keys, and answers with how many of
/// them (each counted once) were in the store.
pub proof fn law_delete_counts_present_keys(m: Map<Seq<u8>, Seq<u8>>, keys: Seq<Seq<u8>>)
    requires
        m.dom().finite(),
    ensures
        delete_keys(m, keys).0 == m.remove_keys(keys.to_set()),
        delete_keys(m, keys).1 == m.dom().intersect(keys.to_set()).len(),
    decreases keys.len(),
{
    if keys.len() == 0 {
        assert(keys.to_set() =~= Set::<Seq<u8>>::empty());
        assert(m.remove_keys(keys.to_set()) =~= m);
        assert(m.dom().intersect(keys.to_set()) =~= Set::<Seq<u8>>::empty());
    } else {
        let init = keys.drop_last();
        let k = keys.last();
        law_delete_counts_present_keys(m, init);
        let s0 = init.to_set();
        let s1 = keys.to_set();
        assert(s1 =~= s0.insert(k)) by {
            assert forall|x: Seq<u8>| s1.contains(x) <==> s0.insert(k).contains(x) by {
                if s1.contains(x) {
                    let j = choose|j: int| 0 <= j < keys.len() && keys[j] == x;
                    if j < init.len() {
                        assert(init[j] == x);
                    }
                }
                if s0.contains(x) {
                    let j = choose|j: int| 0 <= j < init.len() && init[j] == x;
                    assert(keys[j] == x);
                }
                if x == k {
                    assert(keys[keys.len() - 1] == x);
                }
            }
        }
        let before = m.remove_keys(s0);
        let i0 = m.dom().intersect(s0);
        let i1 = m.dom().intersect(s1);
        assert(i0.finite()) by {
            vstd::set_lib::lemma_len_intersect(m.dom(), s0);
            assert(m.dom().intersect(s0) =~= i0);
        }
        if before.contains_key(k) {
            assert(before.remove(k) =~= m.remove_keys(s1));
            assert(i1 =~= i0.insert(k));
            assert(!i0.contains(k));
        } else {
            assert(before =~= m.remove_keys(s1));
            assert(i1 =~= i0);
        }
    }
}

/// Deleting a key that was just set answers 1 and leaves the key unset.
pub proof fn law_delete_after_set(m: Map<Seq<u8>, Seq<u8>>, key: Seq<u8>, value: Seq<u8>)
    ensures
        ({
            let after_set = step(m, CommandView::SetKey { key, value }).0;
            let (after_del, answer) = step(after_set, CommandView::Del { keys: seq![key] });
            &&& answer == ResponseView::Integer(1)
            &&& !after_del.contains_key(key)
            &&& step(after_del, CommandView::Get { key }).1 == ResponseView::Nil
        }),
{
    let after_set = m.insert(key, value);
    assert(seq![key].drop_last() =~= Seq::<Seq<u8>>::empty());
    assert(seq![key].last() == key);
    assert(delete_keys(after_set, Seq::<Seq<u8>>::empty()) == (after_set, 0nat));
}

} // verus!
