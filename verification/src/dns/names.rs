//! Lists of names in which a name stands once at most.

use vstd::prelude::*;
use crate::name::{fold, Fqdn};

verus! {

/// The labels of names.
pub open spec fn name_views(names: Seq<Fqdn>) -> Seq<Seq<Seq<u8>>> {
    Seq::new(names.len(), |i: int| names[i]@)
}

/// Whether a name is among names.
pub open spec fn listed(names: Seq<Seq<Seq<u8>>>, name: Seq<Seq<u8>>) -> bool {
    exists|i: int| 0 <= i < names.len() && fold(#[trigger] names[i]) == fold(name)
}

/// Names with one more, unless it is among them.
pub open spec fn with_name(names: Seq<Seq<Seq<u8>>>, name: Seq<Seq<u8>>) -> Seq<Seq<Seq<u8>>> {
    if listed(names, name) {
        names
    } else {
        names.push(name)
    }
}

/// Names without one of them.
pub open spec fn without_name(names: Seq<Seq<Seq<u8>>>, name: Seq<Seq<u8>>) -> Seq<Seq<Seq<u8>>>
    decreases names.len(),
{
    if names.len() == 0 {
        Seq::empty()
    } else {
        let rest = without_name(names.drop_last(), name);
        if fold(names.last()) == fold(name) {
            rest
        } else {
            rest.push(names.last())
        }
    }
}

/// A name that was added is listed, and so are those that were listed before; no others are.
pub proof fn lemma_with_name(
    names: Seq<Seq<Seq<u8>>>,
    name: Seq<Seq<u8>>,
    other: Seq<Seq<u8>>,
)
    ensures
        listed(with_name(names, name), other) <==> listed(names, other) || fold(other) == fold(name),
{
    let after = with_name(names, name);
    if listed(names, name) {
        if fold(other) == fold(name) {
            let i = choose|i: int| 0 <= i < names.len() && fold(#[trigger] names[i]) == fold(name);
            assert(fold(names[i]) == fold(other));
        }
    } else {
        assert(after[names.len() as int] == name);
        if listed(names, other) {
            let i = choose|i: int| 0 <= i < names.len() && fold(#[trigger] names[i]) == fold(other);
            assert(after[i] == names[i]);
        }
        if listed(after, other) {
            let i = choose|i: int| 0 <= i < after.len() && fold(#[trigger] after[i]) == fold(other);
            if i < names.len() {
                assert(names[i] == after[i]);
            }
        }
    }
}

/// Taking a name out leaves the others.
pub proof fn lemma_without_name(
    names: Seq<Seq<Seq<u8>>>,
    name: Seq<Seq<u8>>,
    other: Seq<Seq<u8>>,
)
    ensures
        without_name(names, name).len() <= names.len(),
        listed(without_name(names, name), other) <==> listed(names, other) && fold(other) != fold(
            name,
        ),
    decreases names.len(),
{
    if names.len() > 0 {
        let front = names.drop_last();
        let rest = without_name(front, name);
        let all = without_name(names, name);
        lemma_without_name(front, name, other);
        if listed(names, other) {
            let i = choose|i: int| 0 <= i < names.len() && fold(#[trigger] names[i]) == fold(other);
            if i < front.len() {
                assert(front[i] == names[i]);
            }
        }
        if listed(front, other) {
            let i = choose|i: int| 0 <= i < front.len() && fold(#[trigger] front[i]) == fold(other);
            assert(names[i] == front[i]);
        }
        assert(names[names.len() - 1] == names.last());
        if listed(all, other) {
            let i = choose|i: int| 0 <= i < all.len() && fold(#[trigger] all[i]) == fold(other);
            if i < rest.len() {
                assert(rest[i] == all[i]);
            }
        }
        if listed(rest, other) {
            let i = choose|i: int| 0 <= i < rest.len() && fold(#[trigger] rest[i]) == fold(other);
            assert(all[i] == rest[i]);
        }
        if fold(names.last()) != fold(name) {
            assert(all[rest.len() as int] == names.last());
        }
    }
}

/// Whether no name is there twice.
pub open spec fn names_apart(names: Seq<Seq<Seq<u8>>>) -> bool {
    forall|i: int, j: int|
        0 <= i < j < names.len() ==> fold(#[trigger] names[i]) != fold(#[trigger] names[j])
}

/// Adding a name leaves no name there twice.
pub proof fn lemma_with_name_apart(names: Seq<Seq<Seq<u8>>>, name: Seq<Seq<u8>>)
    requires
        names_apart(names),
    ensures
        names_apart(with_name(names, name)),
{
    let after = with_name(names, name);
    assert forall|i: int, j: int| 0 <= i < j < after.len() implies fold(#[trigger] after[i])
        != fold(#[trigger] after[j]) by {
        assert(after[i] == names[i]);
        if j < names.len() {
            assert(after[j] == names[j]);
        }
    }
}

/// Taking a name out leaves no name there twice.
pub proof fn lemma_without_name_apart(names: Seq<Seq<Seq<u8>>>, name: Seq<Seq<u8>>)
    requires
        names_apart(names),
    ensures
        names_apart(without_name(names, name)),
    decreases names.len(),
{
    if names.len() > 0 {
        let front = names.drop_last();
        let rest = without_name(front, name);
        let all = without_name(names, name);
        lemma_without_name_apart(front, name);
        lemma_without_name(front, name, names.last());
        assert(!listed(front, names.last())) by {
            if listed(front, names.last()) {
                let k = choose|k: int|
                    0 <= k < front.len() && fold(#[trigger] front[k]) == fold(names.last());
                assert(names[k] == front[k]);
                assert(names[names.len() - 1] == names.last());
            }
        }
        assert forall|i: int, j: int| 0 <= i < j < all.len() implies fold(#[trigger] all[i])
            != fold(#[trigger] all[j]) by {
            assert(all[i] == rest[i]);
            if j < rest.len() {
                assert(all[j] == rest[j]);
            }
        }
    }
}

/// Whether a name is among names.
pub fn contains_name(names: &Vec<Fqdn>, name: &Fqdn) -> (r: bool)
    ensures
        r == listed(name_views(names@), name@),
{
    let ghost all = name_views(names@);
    let mut i: usize = 0;
    while i < names.len()
        invariant
            i <= names.len(),
            all == name_views(names@),
            forall|j: int| 0 <= j < i ==> fold(#[trigger] all[j]) != fold(name@),
        decreases names.len() - i,
    {
        if names[i].same(name) {
            assert(fold(all[i as int]) == fold(name@));
            return true;
        }
        i += 1;
    }
    false
}

/// Adds a name, unless it is among the names.
pub fn insert_name(names: &mut Vec<Fqdn>, name: &Fqdn)
    ensures
        name_views(final(names)@) == with_name(name_views(old(names)@), name@),
{
    if !contains_name(names, name) {
        let ghost before = name_views(names@);
        let copy = name.clone();
        names.push(copy);
        assert(name_views(names@) =~= before.push(name@));
    }
}

/// Takes a name out.
pub fn remove_name(names: &mut Vec<Fqdn>, name: &Fqdn)
    ensures
        name_views(final(names)@) == without_name(name_views(old(names)@), name@),
{
    let mut out: Vec<Fqdn> = Vec::new();
    let ghost all = name_views(names@);
    let mut i: usize = 0;
    assert(all.take(0) =~= Seq::empty());
    assert(name_views(out@) =~= Seq::empty());
    while i < names.len()
        invariant
            i <= names.len(),
            all == name_views(names@),
            name_views(out@) == without_name(all.take(i as int), name@),
        decreases names.len() - i,
    {
        assert(all.take(i + 1).drop_last() =~= all.take(i as int));
        assert(all.take(i + 1).last() == names@[i as int]@);
        if !names[i].same(name) {
            let ghost before = name_views(out@);
            let copy = names[i].clone();
            out.push(copy);
            assert(name_views(out@) =~= before.push(names@[i as int]@));
        }
        i += 1;
    }
    assert(all.take(i as int) =~= all);
    *names = out;
}

/// A copy of names.
pub fn copy_names(names: &Vec<Fqdn>) -> (r: Vec<Fqdn>)
    ensures
        name_views(r@) == name_views(names@),
{
    let mut out: Vec<Fqdn> = Vec::new();
    let mut i: usize = 0;
    while i < names.len()
        invariant
            i <= names.len(),
            name_views(out@) == name_views(names@).take(i as int),
        decreases names.len() - i,
    {
        let ghost before = name_views(out@);
        let copy = names[i].clone();
        out.push(copy);
        i += 1;
        assert(name_views(out@) =~= before.push(names@[i - 1]@));
        assert(name_views(out@) =~= name_views(names@).take(i as int));
    }
    assert(name_views(names@).take(i as int) =~= name_views(names@));
    out
}

} // verus!
