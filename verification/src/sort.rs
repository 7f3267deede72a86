//! Ordering key/value pairs by key: the pairs holding values go after the
//! others, in the order of their keys, as strings are ordered.

use vstd::prelude::*;

use crate::text::chars_of;
use crate::value::{Item, TableKeyValue};

verus! {

/// `a` comes before `b`, or is `b`, as strings are ordered: character by
/// character, by code point, a prefix before what it begins.
pub open spec fn key_le(a: Seq<char>, b: Seq<char>) -> bool
    decreases a.len(),
{
    if a.len() == 0 {
        true
    } else if b.len() == 0 {
        false
    } else if a[0] != b[0] {
        a[0] < b[0]
    } else {
        key_le(a.drop_first(), b.drop_first())
    }
}

proof fn lemma_key_le_reflexive(a: Seq<char>)
    ensures
        key_le(a, a),
    decreases a.len(),
{
    if a.len() > 0 {
        lemma_key_le_reflexive(a.drop_first());
    }
}

proof fn lemma_key_le_total(a: Seq<char>, b: Seq<char>)
    ensures
        key_le(a, b) || key_le(b, a),
        key_le(a, b) && key_le(b, a) ==> a == b,
    decreases a.len(),
{
    if a.len() > 0 && b.len() > 0 {
        if a[0] == b[0] {
            lemma_key_le_total(a.drop_first(), b.drop_first());
            if key_le(a, b) && key_le(b, a) {
                assert(a =~= seq![a[0]] + a.drop_first());
                assert(b =~= seq![b[0]] + b.drop_first());
            }
        }
    } else if a.len() == 0 && b.len() == 0 {
        assert(a =~= b);
    }
}

proof fn lemma_key_le_transitive(a: Seq<char>, b: Seq<char>, c: Seq<char>)
    requires
        key_le(a, b),
        key_le(b, c),
    ensures
        key_le(a, c),
    decreases a.len(),
{
    if a.len() > 0 && b.len() > 0 && c.len() > 0 {
        if a[0] == b[0] && b[0] == c[0] {
            lemma_key_le_transitive(a.drop_first(), b.drop_first(), c.drop_first());
        }
    }
}

/// Whether `a` comes before `b`, or is `b`, as strings are ordered.
fn key_le_exec(a: &str, b: &str) -> (r: bool)
    ensures
        r == key_le(a@, b@),
{
    let x = chars_of(a);
    let y = chars_of(b);
    let mut i: usize = 0;
    assert(x@.skip(0) =~= x@ && y@.skip(0) =~= y@);
    while i < x.len() && i < y.len() && x[i] == y[i]
        invariant
            i <= x@.len(),
            i <= y@.len(),
            key_le(x@, y@) == key_le(x@.skip(i as int), y@.skip(i as int)),
        decreases x@.len() - i,
    {
        assert(x@.skip(i as int).drop_first() =~= x@.skip(i + 1));
        assert(y@.skip(i as int).drop_first() =~= y@.skip(i + 1));
        i = i + 1;
    }
    let ghost xs = x@.skip(i as int);
    let ghost ys = y@.skip(i as int);
    if i == x.len() {
        assert(xs.len() == 0);
        true
    } else if i == y.len() {
        false
    } else {
        assert(xs[0] == x@[i as int] && ys[0] == y@[i as int]);
        x[i] < y[i]
    }
}

/// The pairs that hold something other than a value, in order.
pub open spec fn non_value_pairs(items: Seq<TableKeyValue>) -> Seq<TableKeyValue>
    decreases items.len(),
{
    if items.len() == 0 {
        Seq::empty()
    } else if items.last().value_view() is Value {
        non_value_pairs(items.drop_last())
    } else {
        non_value_pairs(items.drop_last()).push(items.last())
    }
}

/// The pairs that hold a value, in order.
pub open spec fn value_pairs(items: Seq<TableKeyValue>) -> Seq<TableKeyValue>
    decreases items.len(),
{
    if items.len() == 0 {
        Seq::empty()
    } else if items.last().value_view() is Value {
        value_pairs(items.drop_last()).push(items.last())
    } else {
        value_pairs(items.drop_last())
    }
}

/// Each pair holds a value or does not.
proof fn lemma_pairs_len(items: Seq<TableKeyValue>)
    ensures
        non_value_pairs(items).len() + value_pairs(items).len() == items.len(),
    decreases items.len(),
{
    if items.len() > 0 {
        lemma_pairs_len(items.drop_last());
    }
}

/// `o` is `vs` ordered by key, pairs with the same key in the order they
/// had: the pair at `k` of `o` is the pair at `p[k]` of `vs`.
pub open spec fn sorted_by_key_as(vs: Seq<TableKeyValue>, o: Seq<TableKeyValue>, p: Seq<int>) -> bool {
    &&& o.len() == vs.len()
    &&& p.len() == vs.len()
    &&& forall|k: int| 0 <= k < o.len() ==> 0 <= #[trigger] p[k] < vs.len() && o[k] == vs[p[k]]
    &&& forall|k: int, l: int| 0 <= k < l < o.len() ==> #[trigger] p[k] != #[trigger] p[l]
    &&& forall|k: int, l: int|
        #![trigger o[k], o[l]]
        0 <= k < l < o.len() ==> key_le(o[k].key_view().value(), o[l].key_view().value()) && (
        o[k].key_view().value() == o[l].key_view().value() ==> p[k] < p[l])
}

/// `o` is `vs` ordered by key, pairs with the same key in the order they had.
pub open spec fn sorted_by_key(vs: Seq<TableKeyValue>, o: Seq<TableKeyValue>) -> bool {
    exists|p: Seq<int>| sorted_by_key_as(vs, o, p)
}

/// Orders the pairs: those that do not hold a value first, in the order they
/// had, then those that hold one, by key.
pub(crate) fn sort_key_value_pairs(items: Vec<TableKeyValue>) -> (r: Vec<TableKeyValue>)
    ensures
        r@.take(non_value_pairs(items@).len() as int) == non_value_pairs(items@),
        sorted_by_key(value_pairs(items@), r@.skip(non_value_pairs(items@).len() as int)),
        r@.len() == items@.len(),
{
    proof {
        lemma_pairs_len(items@);
    }
    let ghost orig = items@;
    assert(orig.len() == items.len());
    let mut rest = items;
    let mut others: Vec<TableKeyValue> = Vec::new();
    let mut sorted: Vec<TableKeyValue> = Vec::new();
    let ghost mut p: Seq<int> = Seq::empty();
    let mut i: usize = 0;
    while rest.len() > 0
        invariant
            i <= orig.len() <= usize::MAX,
            rest@ == orig.skip(i as int),
            others@ == non_value_pairs(orig.take(i as int)),
            sorted_by_key_as(value_pairs(orig.take(i as int)), sorted@, p),
        decreases rest@.len(),
    {
        assert(rest@.len() == orig.len() - i);
        let kv = rest.remove(0);
        let ghost pre = orig.take(i as int);
        let ghost now = orig.take(i + 1);
        proof {
            assert(now.drop_last() =~= pre);
            assert(now.last() == kv);
            assert(rest@ =~= orig.skip(i + 1));
        }
        if kv.value().is_value() {
            let ghost vs = value_pairs(pre);
            let ghost n = vs.len() as int;
            let mut pos: usize = 0;
            while pos < sorted.len() && key_le_exec(sorted[pos].key().get(), kv.key().get())
                invariant
                    pos <= sorted@.len(),
                    sorted@.len() == n,
                    forall|k: int|
                        0 <= k < pos ==> key_le(
                            #[trigger] sorted@[k].key_view().value(),
                            kv.key_view().value(),
                        ),
                decreases sorted@.len() - pos,
            {
                pos = pos + 1;
            }
            let ghost before = sorted@;
            let ghost x = kv.key_view().value();
            proof {
                if pos < n {
                    lemma_key_le_total(before[pos as int].key_view().value(), x);
                    assert forall|l: int| pos <= l < n implies !key_le(
                        #[trigger] before[l].key_view().value(),
                        x,
                    ) by {
                        if l > pos && key_le(before[l].key_view().value(), x) {
                            lemma_key_le_transitive(
                                before[pos as int].key_view().value(),
                                before[l].key_view().value(),
                                x,
                            );
                        }
                    }
                }
            }
            sorted.insert(pos, kv);
            proof {
                let vs2 = value_pairs(now);
                assert(vs2 == vs.push(now.last()));
                let p2 = p.insert(pos as int, n);
                let o = sorted@;
                assert(o =~= before.insert(pos as int, now.last()));
                assert forall|k: int| 0 <= k < o.len() implies 0 <= #[trigger] p2[k] < vs2.len()
                    && o[k] == vs2[p2[k]] by {
                    if k < pos {
                        assert(p2[k] == p[k]);
                    } else if k > pos {
                        assert(p2[k] == p[k - 1]);
                    }
                }
                assert forall|k: int, l: int| 0 <= k < l < o.len() implies #[trigger] p2[k]
                    != #[trigger] p2[l] by {
                    if k != pos && l != pos {
                        let k0 = if k < pos { k } else { k - 1 };
                        let l0 = if l < pos { l } else { l - 1 };
                        assert(p2[k] == p[k0] && p2[l] == p[l0]);
                        assert(p[k0] != p[l0]);
                    } else if k == pos {
                        assert(p2[l] == p[l - 1]);
                        assert(0 <= p[l - 1] < n);
                    } else {
                        assert(p2[k] == p[k]);
                        assert(0 <= p[k] < n);
                    }
                }
                assert forall|k: int, l: int|
                    #![trigger o[k], o[l]]
                    0 <= k < l < o.len() implies key_le(
                        o[k].key_view().value(),
                        o[l].key_view().value(),
                    ) && (o[k].key_view().value() == o[l].key_view().value() ==> p2[k] < p2[l]) by {
                    if k != pos && l != pos {
                        let k0 = if k < pos { k } else { k - 1 };
                        let l0 = if l < pos { l } else { l - 1 };
                        assert(o[k] == before[k0] && o[l] == before[l0]);
                        assert(p2[k] == p[k0] && p2[l] == p[l0]);
                        assert(key_le(before[k0].key_view().value(), before[l0].key_view().value()));
                    } else if k == pos {
                        assert(o[l] == before[l - 1]);
                        assert(!key_le(before[l - 1].key_view().value(), x));
                        lemma_key_le_total(before[l - 1].key_view().value(), x);
                        if o[k].key_view().value() == o[l].key_view().value() {
                            lemma_key_le_reflexive(x);
                        }
                    } else {
                        assert(o[k] == before[k]);
                        assert(key_le(before[k].key_view().value(), x));
                        assert(p2[k] == p[k]);
                        assert(0 <= p[k] < n);
                        assert(p2[l] == n);
                    }
                }
                assert(sorted_by_key_as(vs2, o, p2));
                p = p2;
            }
        } else {
            others.push(kv);
            proof {
                assert(value_pairs(now) == value_pairs(pre));
            }
        }
        i = i + 1;
    }
    proof {
        assert(orig.take(i as int) =~= orig);
    }
    let ghost nv = others@;
    let ghost sv = sorted@;
    let mut r = others;
    r.append(&mut sorted);
    proof {
        assert(r@.take(nv.len() as int) =~= nv);
        assert(r@.skip(nv.len() as int) =~= sv);
    }
    r
}

} // verus!
