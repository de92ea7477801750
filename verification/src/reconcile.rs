//! Reconciliation of a parsed item list against a collection's current
//! membership: members also in the list move to `included`, members missing
//! from it go to `excluded`, and the survivors keep their parse order.

use vstd::prelude::*;

verus! {

/// `s` without every occurrence of `x`, order kept.
pub open spec fn remove_all(s: Seq<u64>, x: u64) -> Seq<u64>
    decreases s.len(),
{
    if s.len() == 0 {
        s
    } else if s[0] == x {
        remove_all(s.drop_first(), x)
    } else {
        seq![s[0]] + remove_all(s.drop_first(), x)
    }
}

/// The reconciler's result: the surviving items, the included members and the
/// excluded members, in this order.
pub open spec fn reconcile_spec(items: Seq<u64>, members: Seq<u64>) -> (Seq<u64>, Seq<u64>, Seq<
    u64,
>)
    decreases members.len(),
{
    if members.len() == 0 {
        (items, Seq::empty(), Seq::empty())
    } else {
        let m = members[0];
        if items.contains(m) {
            let p = reconcile_spec(remove_all(items, m), members.drop_first());
            (p.0, seq![m] + p.1, p.2)
        } else {
            let p = reconcile_spec(items, members.drop_first());
            (p.0, p.1, seq![m] + p.2)
        }
    }
}

fn vec_contains(v: &Vec<u64>, x: u64) -> (r: bool)
    ensures
        r == v@.contains(x),
{
    let mut i: usize = 0;
    while i < v.len()
        invariant
            i <= v@.len(),
            forall|k: int| 0 <= k < i ==> v@[k] != x,
        decreases v@.len() - i,
    {
        if v[i] == x {
            return true;
        }
        i = i + 1;
    }
    false
}

fn remove_all_exec(v: &Vec<u64>, x: u64) -> (r: Vec<u64>)
    ensures
        r@ == remove_all(v@, x),
{
    let mut r: Vec<u64> = Vec::new();
    let mut i: usize = 0;
    proof {
        assert(v@.skip(0) =~= v@);
        assert(r@ + remove_all(v@.skip(0), x) =~= remove_all(v@, x));
    }
    while i < v.len()
        invariant
            i <= v@.len(),
            remove_all(v@, x) == r@ + remove_all(v@.skip(i as int), x),
        decreases v@.len() - i,
    {
        let c = v[i];
        proof {
            let rest = v@.skip(i as int);
            assert(rest[0] == v@[i as int]);
            assert(rest.drop_first() =~= v@.skip(i as int + 1));
            if c != x {
                assert(r@.push(c) + remove_all(v@.skip(i as int + 1), x) =~= r@ + (seq![c]
                    + remove_all(v@.skip(i as int + 1), x)));
            }
        }
        if c != x {
            r.push(c);
        }
        i = i + 1;
    }
    proof {
        assert(v@.skip(v@.len() as int) =~= Seq::<u64>::empty());
        assert(r@ + Seq::<u64>::empty() =~= r@);
    }
    r
}

/// Partitions the collection's membership against the parsed items.
pub fn reconcile(items: Vec<u64>, members: &Vec<u64>) -> (r: (Vec<u64>, Vec<u64>, Vec<u64>))
    ensures
        (r.0@, r.1@, r.2@) == reconcile_spec(items@, members@),
{
    let ghost items0 = items@;
    let mut cur = items;
    let mut incd: Vec<u64> = Vec::new();
    let mut excd: Vec<u64> = Vec::new();
    let mut i: usize = 0;
    proof {
        assert(members@.skip(0) =~= members@);
        let p = reconcile_spec(items0, members@);
        assert(incd@ + p.1 =~= p.1);
        assert(excd@ + p.2 =~= p.2);
    }
    while i < members.len()
        invariant
            i <= members@.len(),
            ({
                let p = reconcile_spec(cur@, members@.skip(i as int));
                reconcile_spec(items0, members@) == (p.0, incd@ + p.1, excd@ + p.2)
            }),
        decreases members@.len() - i,
    {
        let m = members[i];
        let ghost rest = members@.skip(i as int);
        proof {
            assert(rest[0] == m);
            assert(rest.drop_first() =~= members@.skip(i as int + 1));
        }
        if vec_contains(&cur, m) {
            cur = remove_all_exec(&cur, m);
            incd.push(m);
            proof {
                let p = reconcile_spec(cur@, members@.skip(i as int + 1));
                assert(incd@.drop_last() + (seq![m] + p.1) =~= incd@ + p.1);
            }
        } else {
            excd.push(m);
            proof {
                let p = reconcile_spec(cur@, members@.skip(i as int + 1));
                assert(excd@.drop_last() + (seq![m] + p.2) =~= excd@ + p.2);
            }
        }
        i = i + 1;
    }
    proof {
        assert(members@.skip(members@.len() as int) =~= Seq::<u64>::empty());
        let p = reconcile_spec(cur@, members@.skip(members@.len() as int));
        assert(incd@ + p.1 =~= incd@);
        assert(excd@ + p.2 =~= excd@);
    }
    (cur, incd, excd)
}

} // verus!
