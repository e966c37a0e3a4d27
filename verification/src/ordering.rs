//! Display order for collected records: a stable insertion sort by the
//! `order` field, highest first. Records with equal `order` keep the
//! relative position they were collected in.

use vstd::prelude::*;

use crate::record::Frontmatter;

verus! {

/// Records stand in display order: highest `order` first.
pub open spec fn sorted_desc(s: Seq<Frontmatter>) -> bool {
    forall|i: int, j: int| 0 <= i < j < s.len() ==> s[i].order >= s[j].order
}

/// Insert one record behind every already-placed record whose `order` is
/// at least its own, so that a later arrival with equal `order` stays
/// behind an earlier one.
pub open spec fn insert_desc(s: Seq<Frontmatter>, x: Frontmatter) -> Seq<Frontmatter>
    decreases s.len(),
{
    if s.len() == 0 {
        seq![x]
    } else if s.last().order >= x.order {
        s.push(x)
    } else {
        insert_desc(s.drop_last(), x).push(s.last())
    }
}

/// Stable insertion sort by `order`, descending: the records in the order
/// the renderer lists them.
pub open spec fn sort_desc(s: Seq<Frontmatter>) -> Seq<Frontmatter>
    decreases s.len(),
{
    if s.len() == 0 {
        Seq::empty()
    } else {
        insert_desc(sort_desc(s.drop_last()), s.last())
    }
}

/// The subsequence of records with one given `order` value, in their
/// current relative positions.
pub open spec fn with_order(s: Seq<Frontmatter>, v: int) -> Seq<Frontmatter> {
    s.filter(|r: Frontmatter| r.order == v)
}

proof fn lemma_filter_push(s: Seq<Frontmatter>, x: Frontmatter, v: int)
    ensures
        with_order(s.push(x), v) == if x.order == v {
            with_order(s, v).push(x)
        } else {
            with_order(s, v)
        },
{
    reveal(Seq::filter);
    assert(s.push(x).drop_last() =~= s);
    assert(s.push(x).last() == x);
}

proof fn lemma_insert_desc_lower(s: Seq<Frontmatter>, x: Frontmatter, b: int)
    requires
        x.order >= b,
        forall|t: int| 0 <= t < s.len() ==> s[t].order >= b,
    ensures
        forall|i: int|
            0 <= i < insert_desc(s, x).len() ==> #[trigger] insert_desc(s, x)[i].order >= b,
    decreases s.len(),
{
    if s.len() != 0 && s.last().order < x.order {
        lemma_insert_desc_lower(s.drop_last(), x, b);
    }
    assert forall|i: int|
        0 <= i < insert_desc(s, x).len() implies #[trigger] insert_desc(s, x)[i].order >= b by {
        if s.len() == 0 {
            assert(insert_desc(s, x)[i] == x);
        } else if s.last().order >= x.order {
            if i < s.len() {
                assert(insert_desc(s, x)[i] == s[i]);
            } else {
                assert(insert_desc(s, x)[i] == x);
            }
        } else {
            let inner = insert_desc(s.drop_last(), x);
            if i < inner.len() {
                assert(insert_desc(s, x)[i] == inner[i]);
            } else {
                assert(insert_desc(s, x)[i] == s.last());
            }
        }
    }
}

proof fn lemma_insert_desc_props(s: Seq<Frontmatter>, x: Frontmatter)
    requires
        sorted_desc(s),
    ensures
        insert_desc(s, x).len() == s.len() + 1,
        sorted_desc(insert_desc(s, x)),
        insert_desc(s, x).to_multiset() == s.to_multiset().insert(x),
        forall|v: int|
            #[trigger] with_order(insert_desc(s, x), v) == if x.order == v {
                with_order(s, v).push(x)
            } else {
                with_order(s, v)
            },
    decreases s.len(),
{
    broadcast use vstd::seq_lib::group_to_multiset_ensures;

    reveal(Seq::filter);
    if s.len() == 0 {
        assert(insert_desc(s, x) =~= Seq::<Frontmatter>::empty().push(x));
        assert forall|v: int|
            #[trigger] with_order(insert_desc(s, x), v) == if x.order == v {
                with_order(s, v).push(x)
            } else {
                with_order(s, v)
            } by {
            lemma_filter_push(Seq::<Frontmatter>::empty(), x, v);
            assert(with_order(Seq::<Frontmatter>::empty(), v) =~= Seq::<Frontmatter>::empty());
        }
        assert(insert_desc(s, x).to_multiset() =~= s.to_multiset().insert(x));
    } else if s.last().order >= x.order {
        assert forall|v: int|
            #[trigger] with_order(insert_desc(s, x), v) == if x.order == v {
                with_order(s, v).push(x)
            } else {
                with_order(s, v)
            } by {
            lemma_filter_push(s, x, v);
        }
    } else {
        let d = s.drop_last();
        let last = s.last();
        assert(sorted_desc(d));
        lemma_insert_desc_props(d, x);
        let inner = insert_desc(d, x);
        assert(insert_desc(s, x) == inner.push(last));
        // every record already placed outranks the one that now closes the list
        assert(forall|t: int| 0 <= t < d.len() ==> d[t].order >= last.order);
        lemma_insert_desc_lower(d, x, last.order as int);
        assert(sorted_desc(inner.push(last)));
        // the collected set only grows by the inserted record
        assert(s =~= d.push(last));
        assert(inner.push(last).to_multiset() =~= s.to_multiset().insert(x));
        assert forall|v: int|
            #[trigger] with_order(insert_desc(s, x), v) == if x.order == v {
                with_order(s, v).push(x)
            } else {
                with_order(s, v)
            } by {
            lemma_filter_push(inner, last, v);
            lemma_filter_push(d, last, v);
            if x.order == v {
                assert(last.order != v);
                assert(with_order(s, v) =~= with_order(d, v));
            }
        }
    }
}

/// The display-order law: sorting is descending by `order`, returns
/// exactly the collected records, and records with equal `order` keep
/// their relative collection order.
pub proof fn lemma_sort_desc_props(s: Seq<Frontmatter>)
    ensures
        sorted_desc(sort_desc(s)),
        sort_desc(s).len() == s.len(),
        sort_desc(s).to_multiset() == s.to_multiset(),
        forall|v: int| #[trigger] with_order(sort_desc(s), v) == with_order(s, v),
    decreases s.len(),
{
    broadcast use vstd::seq_lib::group_to_multiset_ensures;

    if s.len() == 0 {
        assert(sort_desc(s) =~= s);
    } else {
        let d = s.drop_last();
        let last = s.last();
        lemma_sort_desc_props(d);
        lemma_insert_desc_props(sort_desc(d), last);
        assert(s =~= d.push(last));
        assert(sort_desc(s).to_multiset() =~= s.to_multiset());
        assert forall|v: int| #[trigger] with_order(sort_desc(s), v) == with_order(s, v) by {
            lemma_filter_push(d, last, v);
        }
    }
}

/// Sort the collected records for display: descending by `order`, stable
/// for equal `order` values.
pub fn sort_records(records: Vec<Frontmatter>) -> (r: Vec<Frontmatter>)
    ensures
        r@ == sort_desc(records@),
{
    let ghost input = records@;
    let mut rest = records;
    let mut out: Vec<Frontmatter> = Vec::new();
    let ghost done = Seq::<Frontmatter>::empty();
    proof {
        assert(input =~= done + rest@);
    }
    while rest.len() > 0
        invariant
            input == done + rest@,
            out@ == sort_desc(done),
        decreases rest@.len(),
    {
        let ghost done0 = done;
        let x = rest.remove(0);
        proof {
            lemma_sort_desc_props(done0);
        }
        let mut p: usize = 0;
        while p < out.len() && out[p].order >= x.order
            invariant
                p <= out@.len(),
                sorted_desc(out@),
                forall|t: int| 0 <= t < p ==> out@[t].order >= x.order,
            decreases out@.len() - p,
        {
            p += 1;
        }
        proof {
            assert(forall|t: int| p <= t < out@.len() ==> out@[t].order < x.order);
            lemma_insert_desc_at(out@, x, p as int);
        }
        let ghost out0 = out@;
        out.insert(p, x);
        proof {
            done = done0.push(x);
            assert(out@ == insert_desc(out0, x));
            assert(done.drop_last() =~= done0);
            assert(input =~= done + rest@);
        }
    }
    proof {
        assert(done =~= input);
    }
    out
}

proof fn lemma_insert_desc_at(s: Seq<Frontmatter>, x: Frontmatter, p: int)
    requires
        0 <= p <= s.len(),
        forall|t: int| 0 <= t < p ==> s[t].order >= x.order,
        forall|t: int| p <= t < s.len() ==> s[t].order < x.order,
    ensures
        insert_desc(s, x) == s.insert(p, x),
    decreases s.len(),
{
    if s.len() == 0 {
        assert(s.insert(0, x) =~= seq![x]);
    } else if s.last().order >= x.order {
        assert(p == s.len());
        assert(s.insert(p, x) =~= s.push(x));
    } else {
        lemma_insert_desc_at(s.drop_last(), x, p);
        assert(insert_desc(s.drop_last(), x).push(s.last()) =~= s.insert(p, x));
    }
}

} // verus!
