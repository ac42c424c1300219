use vstd::prelude::*;

verus! {

/// The decimal digits of `n`, most significant first, without leading zeros.
pub open spec fn digit_text(n: nat) -> Seq<u8>
    decreases n,
{
    if n < 10 {
        seq![(n + 48) as u8]
    } else {
        digit_text(n / 10).push((n % 10 + 48) as u8)
    }
}

/// The masks of `v` in decimal, separated by commas.
pub open spec fn list_text(v: Seq<u32>) -> Seq<u8>
    decreases v.len(),
{
    if v.len() == 0 {
        Seq::empty()
    } else if v.len() == 1 {
        digit_text(v[0] as nat)
    } else {
        list_text(v.drop_last()).push(44u8) + digit_text(v.last() as nat)
    }
}

/// The line of one graph node: the mask, a colon, its neighbours.
pub open spec fn graph_line_text(m: u32, v: Seq<u32>) -> Seq<u8> {
    digit_text(m as nat).push(58u8) + list_text(v)
}

/// The value of a sequence of decimal digits.
pub open spec fn digits_value(t: Seq<u8>) -> nat
    decreases t.len(),
{
    if t.len() == 0 {
        0
    } else {
        digits_value(t.drop_last()) * 10 + (t.last() - 48) as nat
    }
}

/// An ASCII decimal digit.
pub open spec fn is_digit(b: u8) -> bool {
    48 <= b <= 57
}

proof fn lemma_digit_text_shape(n: nat)
    ensures
        digit_text(n).len() >= 1,
        forall|i: int| 0 <= i < digit_text(n).len() ==> is_digit(#[trigger] digit_text(n)[i]),
        digits_value(digit_text(n)) == n,
    decreases n,
{
    if n >= 10 {
        lemma_digit_text_shape(n / 10);
        let t = digit_text(n);
        let q = n / 10;
        let d = n % 10;
        assert(n == q * 10 + d);
        assert(t.drop_last() =~= digit_text(q));
        assert(t.last() == (d + 48) as u8);
        assert(digits_value(t) == digits_value(digit_text(q)) * 10 + d);
    } else {
        let t = digit_text(n);
        assert(t.drop_last() =~= Seq::<u8>::empty());
        assert(t.last() == (n + 48) as u8);
        assert(digits_value(t) == digits_value(t.drop_last()) * 10 + n);
    }
}





fn push_number(out: &mut Vec<u8>, n: u32)
    ensures
        final(out)@ == old(out)@ + digit_text(n as nat),
    decreases n,
{
    if n >= 10 {
        push_number(out, n / 10);
    }
    out.push((n % 10) as u8 + 48);
    proof {
        if n >= 10 {
            assert(digit_text(n as nat) == digit_text((n / 10) as nat).push((n % 10 + 48) as u8));
        }
    }
    assert(final(out)@ =~= old(out)@ + digit_text(n as nat));
}

fn push_list(out: &mut Vec<u8>, v: &Vec<u32>)
    ensures
        final(out)@ == old(out)@ + list_text(v@),
{
    let mut i: usize = 0;
    while i < v.len()
        invariant
            i <= v@.len(),
            out@ == old(out)@ + list_text(v@.take(i as int)),
        decreases v@.len() - i,
    {
        let ghost before = out@;
        let ghost p = v@.take(i as int + 1);
        assert(p.drop_last() =~= v@.take(i as int));
        if i > 0 {
            out.push(44u8);
        }
        push_number(out, v[i]);
        assert(out@ =~= old(out)@ + list_text(p));
        i = i + 1;
    }
    assert(v@.take(i as int) =~= v@);
}

/// The persisted form of a solution: its masks in decimal, separated by
/// commas.
pub fn format_solution(solution: &Vec<u32>) -> (r: Vec<u8>)
    ensures
        r@ == list_text(solution@),
{
    let mut out: Vec<u8> = Vec::new();
    push_list(&mut out, solution);
    assert(out@ =~= list_text(solution@));
    out
}

/// The persisted form of a graph node: the mask, a colon, and its neighbours
/// separated by commas (nothing after the colon for a node without any).
pub fn format_graph_line(mask: u32, neighbors: &Vec<u32>) -> (r: Vec<u8>)
    ensures
        r@ == graph_line_text(mask, neighbors@),
{
    let mut out: Vec<u8> = Vec::new();
    push_number(&mut out, mask);
    out.push(58u8);
    push_list(&mut out, neighbors);
    assert(out@ =~= graph_line_text(mask, neighbors@));
    out
}

/// `t` is a decimal numeral, leading zeros allowed, whose value is `n`.
pub open spec fn number_text(t: Seq<u8>, n: u32) -> bool {
    &&& t.len() > 0
    &&& forall|k: int| 0 <= k < t.len() ==> is_digit(#[trigger] t[k])
    &&& digits_value(t) == n as nat
}

/// `t` reads as the list of masks `w`: numerals separated by commas.
pub open spec fn list_reads(t: Seq<u8>, w: Seq<u32>) -> bool
    decreases w.len(),
{
    if w.len() == 0 {
        t.len() == 0
    } else if w.len() == 1 {
        number_text(t, w[0])
    } else {
        exists|p: int|
            0 <= p < t.len() && t[p] == 44u8 && list_reads(t.take(p), w.drop_last()) && number_text(
                #[trigger] t.skip(p + 1),
                w.last(),
            )
    }
}

/// `t` reads as the node `m` with neighbours `w`: a numeral, a colon, a list.
pub open spec fn graph_line_reads(t: Seq<u8>, m: u32, w: Seq<u32>) -> bool {
    exists|p: int|
        0 <= p < t.len() && t[p] == 58u8 && number_text(#[trigger] t.take(p), m) && list_reads(
            t.skip(p + 1),
            w,
        )
}

/// `r` is what reading `text` as a list of masks gives: the list it reads
/// as, or nothing when it reads as no list.
pub open spec fn list_parsed(text: Seq<u8>, r: Option<Vec<u32>>) -> bool {
    &&& r matches Some(w) ==> list_reads(text, w@)
    &&& r is None ==> forall|w: Seq<u32>| !list_reads(text, w)
}

/// `r` is what reading `text` as a graph line gives.
pub open spec fn graph_line_parsed(text: Seq<u8>, r: Option<(u32, Vec<u32>)>) -> bool {
    &&& r matches Some((m, w)) ==> graph_line_reads(text, m, w@)
    &&& r is None ==> forall|m: u32, w: Seq<u32>| !graph_line_reads(text, m, w)
}

proof fn lemma_list_reads_shape(t: Seq<u8>, w: Seq<u32>)
    requires
        list_reads(t, w),
    ensures
        w.len() > 0 <==> t.len() > 0,
        forall|k: int| 0 <= k < t.len() ==> #[trigger] t[k] != 58u8,
        w.len() <= 1 ==> forall|k: int| 0 <= k < t.len() ==> #[trigger] t[k] != 44u8,
    decreases w.len(),
{
    if w.len() >= 2 {
        let p = choose|p: int|
            0 <= p < t.len() && t[p] == 44u8 && list_reads(t.take(p), w.drop_last()) && number_text(
                #[trigger] t.skip(p + 1),
                w.last(),
            );
        lemma_list_reads_shape(t.take(p), w.drop_last());
        assert forall|k: int| 0 <= k < t.len() implies #[trigger] t[k] != 58u8 by {
            if k < p {
                assert(t.take(p)[k] == t[k]);
            } else if k > p {
                assert(t.skip(p + 1)[k - p - 1] == t[k]);
            }
        }
    }
}

/// A text reads as at most one list of masks.
pub proof fn lemma_list_reads_unique(t: Seq<u8>, v: Seq<u32>, w: Seq<u32>)
    requires
        list_reads(t, v),
        list_reads(t, w),
    ensures
        v == w,
    decreases v.len(),
{
    lemma_list_reads_shape(t, v);
    lemma_list_reads_shape(t, w);
    if v.len() == 0 || w.len() == 0 {
        assert(v =~= w);
    } else if v.len() == 1 && w.len() == 1 {
        assert(v =~= w);
    } else if v.len() == 1 || w.len() == 1 {
        let x = if v.len() >= 2 { v } else { w };
        let p = choose|p: int|
            0 <= p < t.len() && t[p] == 44u8 && list_reads(t.take(p), x.drop_last()) && number_text(
                #[trigger] t.skip(p + 1),
                x.last(),
            );
        assert(number_text(t, if v.len() == 1 { v[0] } else { w[0] }));
        assert(is_digit(t[p]));
    } else {
        let p = choose|p: int|
            0 <= p < t.len() && t[p] == 44u8 && list_reads(t.take(p), v.drop_last()) && number_text(
                #[trigger] t.skip(p + 1),
                v.last(),
            );
        let q = choose|q: int|
            0 <= q < t.len() && t[q] == 44u8 && list_reads(t.take(q), w.drop_last()) && number_text(
                #[trigger] t.skip(q + 1),
                w.last(),
            );
        if p < q {
            assert(is_digit(t.skip(p + 1)[q - p - 1]));
        } else if q < p {
            assert(is_digit(t.skip(q + 1)[p - q - 1]));
        } else {
            lemma_list_reads_unique(t.take(p), v.drop_last(), w.drop_last());
            assert(v =~= v.drop_last().push(v.last()));
            assert(w =~= w.drop_last().push(w.last()));
        }
    }
}

/// The written form of a list reads as that list.
pub proof fn lemma_list_text_reads(v: Seq<u32>)
    ensures
        list_reads(list_text(v), v),
    decreases v.len(),
{
    if v.len() == 1 {
        lemma_digit_text_shape(v[0] as nat);
    } else if v.len() >= 2 {
        let x = list_text(v.drop_last());
        let d = digit_text(v.last() as nat);
        let t = list_text(v);
        lemma_list_text_reads(v.drop_last());
        lemma_digit_text_shape(v.last() as nat);
        let p = x.len() as int;
        assert(t.take(p) =~= x);
        assert(t.skip(p + 1) =~= d);
        assert(t[p] == 44u8);
    }
}

/// Reading back a written non-empty solution gives the same masks.
pub proof fn lemma_solution_round_trip(v: Seq<u32>, r: Option<Vec<u32>>)
    requires
        v.len() > 0,
        solution_parsed(list_text(v), r),
    ensures
        r matches Some(w) && w@ == v,
{
    lemma_list_text_reads(v);
    lemma_list_reads_shape(list_text(v), v);
    if let Some(w) = r {
        lemma_list_reads_unique(list_text(v), w@, v);
    }
}

/// Reading back a written graph line gives the same node and neighbours.
pub proof fn lemma_graph_line_round_trip(m: u32, v: Seq<u32>, r: Option<(u32, Vec<u32>)>)
    requires
        graph_line_parsed(graph_line_text(m, v), r),
    ensures
        r matches Some((m2, w)) && m2 == m && w@ == v,
{
    let t = graph_line_text(m, v);
    let d = digit_text(m as nat);
    lemma_digit_text_shape(m as nat);
    lemma_list_text_reads(v);
    let p = d.len() as int;
    assert(t.take(p) =~= d);
    assert(t.skip(p + 1) =~= list_text(v));
    assert(t[p] == 58u8);
    assert(graph_line_reads(t, m, v));
    if let Some((m2, w)) = r {
        let q = choose|q: int|
            0 <= q < t.len() && t[q] == 58u8 && number_text(#[trigger] t.take(q), m2) && list_reads(
                t.skip(q + 1),
                w@,
            );
        if q < p {
            assert(is_digit(d[q]));
        } else if p < q {
            assert(is_digit(t.take(q)[p]));
        }
        lemma_list_reads_unique(t.skip(p + 1), w@, v);
    }
}

proof fn lemma_digits_prefix(t: Seq<u8>, i: int)
    requires
        0 <= i <= t.len(),
    ensures
        digits_value(t.take(i)) <= digits_value(t) || exists|k: int| 0 <= k < t.len() && !is_digit(
            #[trigger] t[k],
        ),
    decreases t.len(),
{
    if i < t.len() {
        let p = t.drop_last();
        lemma_digits_prefix(p, i);
        assert(p.take(i) =~= t.take(i));
        if exists|k: int| 0 <= k < p.len() && !is_digit(#[trigger] p[k]) {
            let k = choose|k: int| 0 <= k < p.len() && !is_digit(#[trigger] p[k]);
            assert(t[k] == p[k]);
        }
        if is_digit(t.last()) {
        } else {
            assert(!is_digit(t[t.len() - 1]));
        }
    } else {
        assert(t.take(i) =~= t);
    }
}

fn parse_number(b: &[u8], lo: usize, hi: usize) -> (r: Option<u32>)
    requires
        lo <= hi <= b@.len(),
    ensures
        r matches Some(n) ==> number_text(b@.subrange(lo as int, hi as int), n),
        r is None ==> forall|n: u32| !number_text(b@.subrange(lo as int, hi as int), n),
{
    let ghost t = b@.subrange(lo as int, hi as int);
    if lo == hi {
        return None;
    }
    let mut acc: u64 = 0;
    let mut i: usize = lo;
    while i < hi
        invariant
            lo <= i <= hi <= b@.len(),
            t == b@.subrange(lo as int, hi as int),
            acc <= 0xffff_ffff,
            acc == digits_value(t.take(i - lo)),
            forall|k: int| 0 <= k < i - lo ==> is_digit(#[trigger] t[k]),
        decreases hi - i,
    {
        let c = b[i];
        let ghost tk = t.take(i - lo + 1);
        assert(tk.drop_last() =~= t.take(i - lo));
        assert(t[i - lo] == c);
        if c < 48 || c > 57 {
            proof {
                assert(!is_digit(t[i - lo]));
            }
            return None;
        }
        acc = acc * 10 + (c - 48) as u64;
        if acc > 0xffff_ffff {
            proof {
                assert forall|n: u32| !number_text(t, n) by {
                    if number_text(t, n) {
                        lemma_digits_prefix(t, i - lo + 1);
                    }
                }
            }
            return None;
        }
        i = i + 1;
    }
    assert(t.take(i - lo) =~= t);
    Some(acc as u32)
}

fn parse_list(b: &[u8], lo: usize, hi: usize) -> (r: Option<Vec<u32>>)
    requires
        lo <= hi <= b@.len(),
    ensures
        list_parsed(b@.subrange(lo as int, hi as int), r),
    decreases hi - lo,
{
    let ghost t = b@.subrange(lo as int, hi as int);
    if lo == hi {
        let v: Vec<u32> = Vec::new();
        return Some(v);
    }
    let mut p: usize = hi;
    while p > lo && b[p - 1] != 44u8
        invariant
            lo <= p <= hi <= b@.len(),
            forall|k: int| p <= k < hi ==> b@[k] != 44u8,
        decreases p - lo,
    {
        p = p - 1;
    }
    if p == lo {
        proof {
            assert forall|k: int| 0 <= k < t.len() implies t[k] != 44u8 by {
                assert(t[k] == b@[lo + k]);
            }
        }
        match parse_number(b, lo, hi) {
            Some(n) => {
                let mut v: Vec<u32> = Vec::new();
                v.push(n);
                return Some(v);
            },
            None => {
                proof {
                    assert forall|w: Seq<u32>| !list_reads(t, w) by {
                        if list_reads(t, w) {
                            lemma_list_reads_shape(t, w);
                            if w.len() >= 2 {
                                let q = choose|q: int|
                                    0 <= q < t.len() && t[q] == 44u8 && list_reads(t.take(q), w.drop_last())
                                        && number_text(#[trigger] t.skip(q + 1), w.last());
                            }
                        }
                    }
                }
                return None;
            },
        }
    }
    let c = p - 1;
    let ghost rel = c - lo;
    assert(t[rel as int] == 44u8);
    let left = parse_list(b, lo, c);
    let right = parse_number(b, p, hi);
    assert(b@.subrange(lo as int, c as int) =~= t.take(rel as int));
    assert(b@.subrange(p as int, hi as int) =~= t.skip(rel + 1));
    proof {
        assert forall|w: Seq<u32>| #[trigger] list_reads(t, w) implies w.len() >= 2 && list_reads(
            t.take(rel as int),
            w.drop_last(),
        ) && number_text(t.skip(rel + 1), w.last()) by {
            lemma_list_reads_shape(t, w);
            let q = choose|q: int|
                0 <= q < t.len() && t[q] == 44u8 && list_reads(t.take(q), w.drop_last()) && number_text(
                    #[trigger] t.skip(q + 1),
                    w.last(),
                );
            if q < rel {
                assert(is_digit(t.skip(q + 1)[rel - q - 1]));
            } else if q > rel {
                assert(t[q] == b@[lo + q]);
            }
        }
    }
    match (left, right) {
        (Some(v), Some(n)) => {
            if v.len() > 0 {
                let mut v = v;
                let ghost v0 = v@;
                v.push(n);
                proof {
                    assert(v@.drop_last() =~= v0);
                    assert(v@.last() == n);
                    if v0.len() == 1 {
                        assert(v@.len() == 2);
                    }
                }
                return Some(v);
            }
            proof {
                assert forall|w: Seq<u32>| !list_reads(t, w) by {
                    if list_reads(t, w) {
                        lemma_list_reads_shape(t.take(rel as int), w.drop_last());
                    }
                }
            }
            None
        },
        _ => None,
    }
}

/// `r` is what reading `text` as a solution gives: like a list of masks,
/// except that an empty line holds no solution.
pub open spec fn solution_parsed(text: Seq<u8>, r: Option<Vec<u32>>) -> bool {
    if text.len() == 0 {
        r is None
    } else {
        list_parsed(text, r)
    }
}

/// Reads a persisted solution: decimal masks separated by commas.
///
/// Gives the masks exactly when `line` reads as some non-empty list of
/// masks, and nothing otherwise. Leading zeros are allowed.
pub fn parse_solution(line: &[u8]) -> (r: Option<Vec<u32>>)
    ensures
        solution_parsed(line@, r),
{
    if line.len() == 0 {
        return None;
    }
    let r = parse_list(line, 0, line.len());
    assert(line@.subrange(0, line@.len() as int) =~= line@);
    r
}

/// Reads a persisted graph line: a mask, a colon, its neighbours.
///
/// Gives the node and its neighbours exactly when `line` reads as some
/// node, and nothing otherwise. Leading zeros are allowed.
pub fn parse_graph_line(line: &[u8]) -> (r: Option<(u32, Vec<u32>)>)
    ensures
        graph_line_parsed(line@, r),
{
    let n = line.len();
    let mut p: usize = 0;
    while p < n && line[p] != 58u8
        invariant
            p <= n == line@.len(),
            forall|k: int| 0 <= k < p ==> line@[k] != 58u8,
        decreases n - p,
    {
        p = p + 1;
    }
    proof {
        assert forall|m: u32, w: Seq<u32>| graph_line_reads(line@, m, w) implies p < n && number_text(
            line@.take(p as int),
            m,
        ) && list_reads(line@.skip(p + 1), w) by {
            let q = choose|q: int|
                0 <= q < line@.len() && line@[q] == 58u8 && number_text(#[trigger] line@.take(q), m)
                    && list_reads(line@.skip(q + 1), w);
            if p < q {
                assert(is_digit(line@.take(q)[p as int]));
            }
        }
    }
    if p == n {
        return None;
    }
    let key = parse_number(line, 0, p);
    let rest = parse_list(line, p + 1, n);
    assert(line@.subrange(0, p as int) =~= line@.take(p as int));
    assert(line@.subrange(p + 1, n as int) =~= line@.skip(p + 1));
    match (key, rest) {
        (Some(m), Some(w)) => {
            assert(line@[p as int] == 58u8);
            Some((m, w))
        },
        _ => None,
    }
}

} // verus!
