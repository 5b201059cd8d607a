use vstd::prelude::*;

verus! {

/// After pushing `v`, a sequence's members are its old members plus `v`.
pub(crate) proof fn lemma_push_contains<T>(s: Seq<T>, v: T)
    ensures
        forall|e: T| #[trigger] s.push(v).contains(e) <==> s.contains(e) || e == v,
{
    let t = s.push(v);
    assert forall|e: T| #[trigger] t.contains(e) implies s.contains(e) || e == v by {
        let j = choose|j: int| 0 <= j < t.len() && t[j] == e;
        if j < s.len() {
            assert(s[j] == e);
        }
    };
    assert forall|e: T| s.contains(e) || e == v implies #[trigger] t.contains(e) by {
        if e == v {
            assert(t[s.len() as int] == e);
        } else {
            let j = choose|j: int| 0 <= j < s.len() && s[j] == e;
            assert(t[j] == e);
        }
    };
}

/// Pushing a value that a duplicate-free sequence lacks keeps it
/// duplicate-free and adds exactly that value to its members.
pub(crate) proof fn lemma_push_fresh<T>(s: Seq<T>, v: T)
    requires
        !s.contains(v),
        s.no_duplicates(),
    ensures
        s.push(v).no_duplicates(),
        forall|e: T| #[trigger] s.push(v).contains(e) <==> s.contains(e) || e == v,
{
    lemma_push_contains(s, v);
}

/// Removing the element at the index of a value that occurs once removes
/// exactly that value from the sequence's members.
pub(crate) proof fn lemma_remove_at_unique<T>(s: Seq<T>, i: int, v: T)
    requires
        0 <= i < s.len(),
        s[i] == v,
        s.no_duplicates(),
    ensures
        s.remove(i).no_duplicates(),
        forall|e: T| #[trigger] s.remove(i).contains(e) <==> s.contains(e) && e != v,
{
    s.remove_ensures(i);
    let t = s.remove(i);
    assert forall|e: T| #[trigger] t.contains(e) implies s.contains(e) && e != v by {
        let j = choose|j: int| 0 <= j < t.len() && t[j] == e;
        if j < i {
            assert(s[j] == e);
        } else {
            assert(s[j + 1] == e);
        }
    };
    assert forall|e: T| s.contains(e) && e != v implies #[trigger] t.contains(e) by {
        let j = choose|j: int| 0 <= j < s.len() && s[j] == e;
        if j < i {
            assert(t[j] == e);
        } else {
            assert(t[j - 1] == e);
        }
    };
}

} // verus!
