use vstd::prelude::*;
use vstd::seq_lib::lemma_multiset_commutative;

verus! {

pub(crate) proof fn lemma_flatten_update_multiset(s: Seq<Seq<u32>>, i: int, x: Seq<u32>)
    requires
        0 <= i < s.len(),
    ensures
        s.update(i, x).flatten().to_multiset().add(s[i].to_multiset()) =~= s.flatten().to_multiset().add(
            x.to_multiset(),
        ),
    decreases s.len(),
{
    let t = s.update(i, x);
    assert(t.flatten() == t.first() + t.drop_first().flatten());
    assert(s.flatten() == s.first() + s.drop_first().flatten());
    lemma_multiset_commutative(t.first(), t.drop_first().flatten());
    lemma_multiset_commutative(s.first(), s.drop_first().flatten());
    if i > 0 {
        assert(t.drop_first() =~= s.drop_first().update(i - 1, x));
        lemma_flatten_update_multiset(s.drop_first(), i - 1, x);
        assert(s.drop_first()[i - 1] == s[i]);
    } else {
        assert(t.drop_first() =~= s.drop_first());
    }
    let lhs = t.flatten().to_multiset().add(s[i].to_multiset());
    let rhs = s.flatten().to_multiset().add(x.to_multiset());
    assert forall|e: u32| #[trigger] lhs.count(e) == rhs.count(e) by {
        if i > 0 {
            assert(t.first() == s.first());
            let ls = t.drop_first().flatten().to_multiset().add(s[i].to_multiset());
            let rs = s.drop_first().flatten().to_multiset().add(x.to_multiset());
            assert(ls.count(e) == rs.count(e));
        } else {
            assert(t.first() == x);
        }
    }
}

pub(crate) proof fn lemma_flatten_contains<A>(parts: Seq<Seq<A>>, e: A)
    ensures
        parts.flatten().contains(e) <==> exists|i: int| 0 <= i < parts.len() && #[trigger] parts[i].contains(e),
    decreases parts.len(),
{
    if parts.len() > 0 {
        let rest = parts.drop_first();
        lemma_flatten_contains(rest, e);
        let f = parts.flatten();
        assert(f == parts[0] + rest.flatten());
        if f.contains(e) {
            let k = choose|k: int| 0 <= k < f.len() && f[k] == e;
            if k < parts[0].len() {
                assert(parts[0][k] == e);
                assert(parts[0].contains(e));
            } else {
                assert(rest.flatten()[k - parts[0].len()] == e);
                assert(rest.flatten().contains(e));
                let i = choose|i: int| 0 <= i < rest.len() && #[trigger] rest[i].contains(e);
                assert(parts[i + 1] == rest[i]);
            }
        }
        if exists|i: int| 0 <= i < parts.len() && #[trigger] parts[i].contains(e) {
            let i = choose|i: int| 0 <= i < parts.len() && #[trigger] parts[i].contains(e);
            if i == 0 {
                let k = choose|k: int| 0 <= k < parts[0].len() && parts[0][k] == e;
                assert(f[k] == e);
            } else {
                assert(rest[i - 1] == parts[i]);
                assert(rest.flatten().contains(e));
                let k = choose|k: int| 0 <= k < rest.flatten().len() && rest.flatten()[k] == e;
                assert(f[k + parts[0].len()] == e);
            }
        }
    }
}

pub(crate) proof fn lemma_prefix_contains<A>(a: Seq<A>, b: Seq<A>, e: A)
    requires
        a.is_prefix_of(b),
        a.contains(e),
    ensures
        b.contains(e),
{
    let k = choose|k: int| 0 <= k < a.len() && a[k] == e;
    assert(b.subrange(0, a.len() as int)[k] == e);
    assert(b[k] == e);
}

pub(crate) proof fn lemma_prefix_trans<A>(a: Seq<A>, b: Seq<A>, c: Seq<A>)
    requires
        a.is_prefix_of(b),
        b.is_prefix_of(c),
    ensures
        a.is_prefix_of(c),
{
    assert forall|k: int| 0 <= k < a.len() implies a[k] == c[k] by {
        assert(a[k] == b.subrange(0, a.len() as int)[k]);
        assert(b[k] == c.subrange(0, b.len() as int)[k]);
    }
    assert(a =~= c.subrange(0, a.len() as int));
}

pub(crate) proof fn lemma_prefix_push<A>(a: Seq<A>, x: A)
    ensures
        a.is_prefix_of(a.push(x)),
{
    assert(a =~= a.push(x).subrange(0, a.len() as int));
}

pub(crate) proof fn lemma_flatten_unit_len<A>(parts: Seq<Seq<A>>)
    requires
        forall|i: int| 0 <= i < parts.len() ==> (#[trigger] parts[i]).len() == 1,
    ensures
        parts.flatten().len() == parts.len(),
    decreases parts.len(),
{
    if parts.len() > 0 {
        let rest = parts.drop_first();
        assert forall|i: int| 0 <= i < rest.len() implies (#[trigger] rest[i]).len() == 1 by {
            assert(rest[i] == parts[i + 1]);
        }
        lemma_flatten_unit_len(rest);
        assert(parts[0].len() == 1);
    }
}

} // verus!
