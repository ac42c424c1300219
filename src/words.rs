use vstd::prelude::*;

verus! {

/// `s` picks one item from each list of `lists`, in order.
pub open spec fn is_choice<T>(lists: Seq<Seq<T>>, s: Seq<T>) -> bool {
    s.len() == lists.len() && forall|k: int| 0 <= k < s.len() ==> lists[k].contains(#[trigger] s[k])
}

/// The number of choices: the product of the lists' lengths.
pub open spec fn choice_count<T>(lists: Seq<Seq<T>>) -> nat
    decreases lists.len(),
{
    if lists.len() == 0 {
        1
    } else {
        choice_count(lists.drop_last()) * lists.last().len()
    }
}

/// The lists of `v` as sequences.
pub open spec fn lists_view<T>(v: Seq<Vec<T>>) -> Seq<Seq<T>> {
    v.map_values(|l: Vec<T>| l@)
}

/// No two elements of `r` hold the same sequence.
pub open spec fn distinct_views<T>(r: Seq<Vec<T>>) -> bool {
    forall|i: int, j: int| 0 <= i < j < r.len() ==> r[i]@ != r[j]@
}

/// Whether `r` holds `s`.
pub open spec fn holds<T>(r: Seq<Vec<T>>, s: Seq<T>) -> bool {
    exists|i: int| 0 <= i < r.len() && (#[trigger] r[i])@ == s
}

fn appended<T: Copy>(t: &Vec<T>, x: T) -> (r: Vec<T>)
    ensures
        r@ == t@.push(x),
{
    let mut r: Vec<T> = Vec::new();
    let mut i: usize = 0;
    while i < t.len()
        invariant
            i <= t@.len(),
            r@ == t@.take(i as int),
        decreases t@.len() - i,
    {
        r.push(t[i]);
        assert(t@.take(i as int + 1) =~= t@.take(i as int).push(t@[i as int]));
        i = i + 1;
    }
    assert(t@.take(i as int) =~= t@);
    r.push(x);
    r
}

/// Every choice of one item from each list of `input`: the cross product.
///
/// An empty `input` gives no choice at all. The result holds exactly the
/// sequences that take, at each position, an item of the list at that
/// position, and as many of them as the product of the lists' lengths.
pub fn combinations<T: Copy>(input: &Vec<Vec<T>>) -> (r: Vec<Vec<T>>)
    ensures
        input@.len() == 0 ==> r@.len() == 0,
        input@.len() > 0 ==> r@.len() == choice_count(lists_view(input@)),
        forall|s: Seq<T>| #[trigger]
            holds(r@, s) <==> input@.len() > 0 && is_choice(lists_view(input@), s),
        (forall|k: int| 0 <= k < input@.len() ==> (#[trigger] input@[k])@.no_duplicates())
            ==> distinct_views(r@),
{
    let ghost lists = lists_view(input@);
    let ghost nd = forall|k: int| 0 <= k < input@.len() ==> (#[trigger] input@[k])@.no_duplicates();
    let mut results: Vec<Vec<T>> = Vec::new();
    let mut k: usize = 0;
    while k < input.len()
        invariant
            k <= input@.len(),
            lists == lists_view(input@),
            k == 0 ==> results@.len() == 0,
            k > 0 ==> results@.len() == choice_count(lists.take(k as int)),
            forall|s: Seq<T>| #[trigger]
                holds(results@, s) <==> k > 0 && is_choice(lists.take(k as int), s),
            nd == forall|k: int| 0 <= k < input@.len() ==> (#[trigger] input@[k])@.no_duplicates(),
            nd ==> distinct_views(results@),
        decreases input@.len() - k,
    {
        let row = &input[k];
        let ghost before = lists.take(k as int);
        let ghost after = lists.take(k as int + 1);
        assert(after.drop_last() =~= before);
        assert(after.last() == row@);
        assert(nd ==> row@.no_duplicates());
        let mut partial: Vec<Vec<T>> = Vec::new();
        let mut j: usize = 0;
        while j < row.len()
            invariant
                j <= row@.len(),
                row@ == lists[k as int],
                k < input@.len(),
                lists == lists_view(input@),
                before == lists.take(k as int),
                after == lists.take(k as int + 1),
                after.drop_last() == before,
                after.last() == row@,
                k == 0 ==> results@.len() == 0,
                k > 0 ==> results@.len() == choice_count(before),
                nd ==> distinct_views(results@),
                nd ==> distinct_views(partial@),
                nd ==> row@.no_duplicates(),
                forall|s: Seq<T>| #[trigger] holds(results@, s) <==> k > 0 && is_choice(before, s),
                k == 0 ==> partial@.len() == j,
                k > 0 ==> partial@.len() == j * results@.len(),
                forall|s: Seq<T>| #[trigger]
                    holds(partial@, s) <==> is_choice(after, s) && row@.take(j as int).contains(
                        s.last(),
                    ),
            decreases row@.len() - j,
        {
            let x = row[j];
            let ghost old_partial = partial@;
            if k == 0 {
                let mut one: Vec<T> = Vec::new();
                one.push(x);
                partial.push(one);
                assert(partial@.take(old_partial.len() as int) =~= old_partial);
                assert(partial@[old_partial.len() as int]@ =~= seq![x]);
            } else {
                let mut t: usize = 0;
                while t < results.len()
                    invariant
                        t <= results@.len(),
                        partial@.len() == old_partial.len() + t,
                        partial@.take(old_partial.len() as int) == old_partial,
                        forall|i: int|
                            old_partial.len() <= i < partial@.len() ==> (#[trigger] partial@[i])@
                                == results@[i - old_partial.len()]@.push(x),
                    decreases results@.len() - t,
                {
                    let next = appended(&results[t], x);
                    proof {
                        assert(partial@.push(next).take(old_partial.len() as int)
                            =~= partial@.take(old_partial.len() as int));
                    }
                    partial.push(next);
                    t = t + 1;
                }
            }
            proof {
                let rj = row@.take(j as int);
                let rj1 = row@.take(j as int + 1);
                let o = old_partial.len() as int;
                assert forall|i: int| 0 <= i < o implies partial@[i] == old_partial[i] by {
                    assert(partial@.take(o)[i] == partial@[i]);
                }
                if nd {
                    assert forall|a: int, b: int| 0 <= a < b < partial@.len() implies partial@[a]@
                        != partial@[b]@ by {
                        if b < o {
                            assert(partial@[a] == old_partial[a] && partial@[b] == old_partial[b]);
                        } else {
                            let nb = partial@[b]@;
                            assert(nb.last() == x);
                            if a < o {
                                let pa = old_partial[a]@;
                                assert(holds(old_partial, pa));
                                if pa == nb {
                                    let m = choose|m: int| 0 <= m < rj.len() && rj[m] == pa.last();
                                    assert(row@[m] == row@[j as int]);
                                }
                            } else {
                                let na = partial@[a]@;
                                if na == nb {
                                    assert(na.drop_last() =~= results@[a - o]@);
                                    assert(nb.drop_last() =~= results@[b - o]@);
                                }
                            }
                        }
                    }
                }
                assert(rj1 =~= rj.push(x));
                assert forall|s: Seq<T>| #[trigger]
                    holds(partial@, s) <==> is_choice(after, s) && rj1.contains(s.last()) by {
                    if holds(partial@, s) {
                        let i = choose|i: int| 0 <= i < partial@.len() && (#[trigger] partial@[i])@ == s;
                        if i < old_partial.len() {
                            assert(old_partial[i] == partial@[i]);
                            assert(holds(old_partial, s));
                            let m = choose|m: int| 0 <= m < rj.len() && rj[m] == s.last();
                            assert(rj1[m] == s.last());
                        } else {
                            assert(s.last() == rj1[j as int]);
                            if k == 0 {
                                assert(s =~= seq![x]);
                            } else {
                                let p = results@[i - old_partial.len()]@;
                                assert(holds(results@, p));
                                assert(s.drop_last() =~= p);
                                assert forall|q: int| 0 <= q < s.len() implies after[q].contains(
                                    #[trigger] s[q],
                                ) by {
                                    if q < s.len() - 1 {
                                        assert(s[q] == p[q]);
                                        assert(before[q].contains(p[q]));
                                    }
                                }
                            }
                        }
                    }
                    if is_choice(after, s) && rj1.contains(s.last()) {
                        if rj.contains(s.last()) {
                            assert(holds(old_partial, s));
                            let i = choose|i: int| 0 <= i < old_partial.len() && (#[trigger] old_partial[i])@ == s;
                            assert(partial@[i] == old_partial[i]);
                        } else {
                            assert(s.last() == x);
                            if k == 0 {
                                assert(s =~= seq![x]);
                                assert(partial@[old_partial.len() as int]@ =~= s);
                            } else {
                                let p = s.drop_last();
                                assert forall|q: int| 0 <= q < p.len() implies before[q].contains(
                                    #[trigger] p[q],
                                ) by {
                                    assert(after[q].contains(s[q]));
                                }
                                assert(is_choice(before, p));
                                assert(holds(results@, p));
                                let i = choose|i: int| 0 <= i < results@.len() && (#[trigger] results@[i])@ == p;
                                let w = old_partial.len() + i;
                                assert(partial@[w]@ == results@[i]@.push(x));
                                assert(s =~= p.push(x));
                            }
                        }
                    }
                }
                if k > 0 {
                    assert((j + 1) * results@.len() == j * results@.len() + results@.len())
                        by (nonlinear_arith);
                }
            }
            j = j + 1;
        }
        proof {
            assert(row@.take(j as int) =~= row@);
            assert forall|s: Seq<T>| #[trigger] is_choice(after, s) implies row@.contains(s.last()) by {
                assert(after[after.len() - 1].contains(s[s.len() - 1]));
            }
            assert(choice_count(after) == choice_count(before) * row@.len());
            if k == 0 {
                assert(choice_count(before) == 1) by {
                    assert(before.len() == 0);
                }
            } else {
                assert(j * results@.len() == results@.len() * row@.len()) by (nonlinear_arith)
                    requires
                        j == row@.len(),
                ;
            }
        }
        results = partial;
        k = k + 1;
    }
    assert(lists.take(k as int) =~= lists);
    results
}

} // verus!
