//! The canonical order of names: by their labels from the last to the first.

use vstd::prelude::*;
use crate::name::{bytes_of, fold, fold_label, in_zone, lower, Fqdn};

verus! {

/// Whether bytes come before others or are equal to them. A byte that is missing comes first.
pub open spec fn label_le(a: Seq<u8>, b: Seq<u8>) -> bool
    decreases a.len(),
{
    if a.len() == 0 {
        true
    } else if b.len() == 0 {
        false
    } else if a[0] == b[0] {
        label_le(a.drop_first(), b.drop_first())
    } else {
        a[0] < b[0]
    }
}

/// Whether a name comes before another or is the same name.
pub open spec fn name_le(a: Seq<Seq<u8>>, b: Seq<Seq<u8>>) -> bool
    decreases a.len(),
{
    if a.len() == 0 {
        true
    } else if b.len() == 0 {
        false
    } else if fold_label(a.last()) == fold_label(b.last()) {
        name_le(a.drop_last(), b.drop_last())
    } else {
        label_le(fold_label(a.last()), fold_label(b.last()))
    }
}

/// Of two byte strings one comes before the other, and both do only when they are equal.
proof fn lemma_label_total(a: Seq<u8>, b: Seq<u8>)
    ensures
        label_le(a, b) || label_le(b, a),
        label_le(a, b) && label_le(b, a) ==> a == b,
    decreases a.len(),
{
    if a.len() > 0 && b.len() > 0 && a[0] == b[0] {
        lemma_label_total(a.drop_first(), b.drop_first());
        assert(a =~= seq![a[0]] + a.drop_first());
        assert(b =~= seq![b[0]] + b.drop_first());
    } else if a.len() == 0 && b.len() == 0 {
        assert(a =~= b);
    }
}

/// The order of byte strings is transitive.
proof fn lemma_label_transitive(a: Seq<u8>, b: Seq<u8>, c: Seq<u8>)
    requires
        label_le(a, b),
        label_le(b, c),
    ensures
        label_le(a, c),
    decreases a.len(),
{
    if a.len() > 0 && b.len() > 0 && c.len() > 0 && a[0] == b[0] && b[0] == c[0] {
        lemma_label_transitive(a.drop_first(), b.drop_first(), c.drop_first());
    }
}

/// Of two names one comes before the other.
pub proof fn law_name_order_total(a: Seq<Seq<u8>>, b: Seq<Seq<u8>>)
    ensures
        name_le(a, b) || name_le(b, a),
        name_le(a, b) && name_le(b, a) <==> fold(a) == fold(b),
    decreases a.len(),
{
    if a.len() > 0 && b.len() > 0 {
        let x = fold_label(a.last());
        let y = fold_label(b.last());
        lemma_label_total(x, y);
        assert(fold(a) =~= fold(a.drop_last()).push(x));
        assert(fold(b) =~= fold(b.drop_last()).push(y));
        assert(fold(a).drop_last() =~= fold(a.drop_last()));
        assert(fold(b).drop_last() =~= fold(b.drop_last()));
        assert(fold(a).last() == x && fold(b).last() == y);
        if x == y {
            law_name_order_total(a.drop_last(), b.drop_last());
        }
    } else {
        assert(fold(a).len() == a.len() && fold(b).len() == b.len());
        if a.len() == 0 && b.len() == 0 {
            assert(fold(a) =~= fold(b));
        }
    }
}

/// The order of names is transitive.
pub proof fn law_name_order_transitive(a: Seq<Seq<u8>>, b: Seq<Seq<u8>>, c: Seq<Seq<u8>>)
    requires
        name_le(a, b),
        name_le(b, c),
    ensures
        name_le(a, c),
    decreases a.len(),
{
    if a.len() > 0 && b.len() > 0 && c.len() > 0 {
        let x = fold_label(a.last());
        let y = fold_label(b.last());
        let z = fold_label(c.last());
        if x == y && y == z {
            law_name_order_transitive(a.drop_last(), b.drop_last(), c.drop_last());
        } else if x != y && y != z {
            lemma_label_transitive(x, y, z);
            lemma_label_total(x, y);
            lemma_label_total(y, z);
        }
    }
}

/// Of two zones that a name lies in, the one with fewer labels comes first.
pub proof fn law_wider_zone_first(a: Seq<Seq<u8>>, b: Seq<Seq<u8>>, name: Seq<Seq<u8>>)
    requires
        in_zone(a, name),
        in_zone(b, name),
        a.len() < b.len(),
    ensures
        name_le(a, b),
        !name_le(b, a),
    decreases a.len(),
{
    if a.len() > 0 {
        let n = name.len() as int;
        assert(fold(a).last() == fold(name).subrange(n - a.len(), n).last());
        assert(fold(b).last() == fold(name).subrange(n - b.len(), n).last());
        assert(fold_label(a.last()) == fold_label(name.last()));
        assert(fold_label(b.last()) == fold_label(name.last()));
        let short = name.drop_last();
        assert(fold(short) =~= fold(name).drop_last());
        assert(fold(a.drop_last()) =~= fold(a).drop_last());
        assert(fold(b.drop_last()) =~= fold(b).drop_last());
        assert(fold(short).subrange(n - a.len(), n - 1) =~= fold(name).subrange(
            n - a.len(),
            n,
        ).drop_last());
        assert(fold(short).subrange(n - b.len(), n - 1) =~= fold(name).subrange(
            n - b.len(),
            n,
        ).drop_last());
        law_wider_zone_first(a.drop_last(), b.drop_last(), short);
    }
}

/// How a label stands to another: whether it comes before it or is the same, and whether it is
/// the same.
fn compare_labels(a: &Vec<u8>, b: &Vec<u8>) -> (r: (bool, bool))
    ensures
        r.0 == label_le(fold_label(a@), fold_label(b@)),
        r.1 == (fold_label(a@) == fold_label(b@)),
{
    let ghost x = fold_label(a@);
    let ghost y = fold_label(b@);
    let mut i: usize = 0;
    assert(x.skip(0) =~= x && y.skip(0) =~= y);
    while i < a.len() && i < b.len()
        invariant
            i <= a.len(),
            i <= b.len(),
            x == fold_label(a@),
            y == fold_label(b@),
            x.take(i as int) =~= y.take(i as int),
            label_le(x, y) == label_le(x.skip(i as int), y.skip(i as int)),
        decreases a.len() - i,
    {
        let p: u8 = lower(a[i]);
        let q: u8 = lower(b[i]);
        assert(x.skip(i as int)[0] == p && y.skip(i as int)[0] == q);
        assert(x[i as int] == p && y[i as int] == q);
        if p != q {
            return (p < q, false);
        }
        assert(x.skip(i as int).drop_first() =~= x.skip(i + 1));
        assert(y.skip(i as int).drop_first() =~= y.skip(i + 1));
        assert(x.take(i + 1) =~= x.take(i as int).push(p));
        assert(y.take(i + 1) =~= y.take(i as int).push(q));
        i += 1;
    }
    if a.len() == b.len() {
        assert(x =~= y) by {
            assert(x.take(i as int) =~= x && y.take(i as int) =~= y);
        }
    }
    (a.len() <= b.len(), a.len() == b.len())
}

impl Fqdn {
    /// Whether the name comes before another or is the same name.
    pub fn le(&self, other: &Fqdn) -> (r: bool)
        ensures
            r == name_le(self@, other@),
    {
        let a = self.labels();
        let b = other.labels();
        let ghost x = self@;
        let ghost y = other@;
        let n: usize = a.len();
        let m: usize = b.len();
        let mut i: usize = 0;
        assert(x.take(n as int) =~= x && y.take(m as int) =~= y);
        while i < n && i < m
            invariant
                i <= n,
                i <= m,
                n == a.len(),
                m == b.len(),
                x == bytes_of(a@),
                y == bytes_of(b@),
                x == self@,
                y == other@,
                name_le(x, y) == name_le(x.take(n - i), y.take(m - i)),
            decreases n - i,
        {
            let (before, same) = compare_labels(&a[n - i - 1], &b[m - i - 1]);
            assert(x.take(n - i).last() == a@[n - i - 1]@);
            assert(y.take(m - i).last() == b@[m - i - 1]@);
            if !same {
                return before;
            }
            assert(x.take(n - i).drop_last() =~= x.take(n - i - 1));
            assert(y.take(m - i).drop_last() =~= y.take(m - i - 1));
            i += 1;
        }
        n <= m
    }
}

} // verus!
