use vstd::prelude::*;
use crate::codec::{is_lower_word, mask_of, has_repeat, word_to_bitmap, BitmapError};
use crate::graph::strictly_increasing;
use crate::words::{combinations, is_choice, holds, choice_count};

verus! {

/// The words of the dictionary grouped by letter mask: `groups[i]` holds, in
/// the order they were added, the words whose mask is `masks[i]`.
pub struct Dictionary {
    pub masks: Vec<u32>,
    pub groups: Vec<Vec<String>>,
}

/// The texts of a group of words.
pub open spec fn group_view(g: Seq<String>) -> Seq<Seq<char>> {
    g.map_values(|w: String| w@)
}

impl Dictionary {
    /// Masks ascending and without repeats, one group per mask.
    pub open spec fn wf(&self) -> bool {
        &&& strictly_increasing(self.masks@)
        &&& self.groups@.len() == self.masks@.len()
    }

    /// The dictionary as a map from mask to its group of words.
    pub open spec fn view_map(&self) -> Map<u32, Seq<Seq<char>>> {
        Map::new(
            |m: u32| self.masks@.contains(m),
            |m: u32| group_view(self.groups@[self.masks@.index_of(m)]@),
        )
    }

    /// An empty dictionary.
    pub fn new() -> (d: Dictionary)
        ensures
            d.wf(),
            d.view_map() == Map::<u32, Seq<Seq<char>>>::empty(),
    {
        let d = Dictionary { masks: Vec::new(), groups: Vec::new() };
        assert(d.view_map() =~= Map::<u32, Seq<Seq<char>>>::empty());
        d
    }

    /// The position where `m` stands, or where it would be inserted.
    fn position(&self, m: u32) -> (r: usize)
        requires
            self.wf(),
        ensures
            r <= self.masks@.len(),
            forall|k: int| 0 <= k < r ==> self.masks@[k] < m,
            forall|k: int| r < k < self.masks@.len() ==> self.masks@[k] > m,
            r < self.masks@.len() ==> self.masks@[r as int] >= m,
    {
        let mut lo: usize = 0;
        let mut hi: usize = self.masks.len();
        while lo < hi
            invariant
                self.wf(),
                lo <= hi <= self.masks@.len(),
                forall|k: int| 0 <= k < lo ==> self.masks@[k] < m,
                forall|k: int| hi <= k < self.masks@.len() ==> self.masks@[k] >= m,
            decreases hi - lo,
        {
            let mid = lo + (hi - lo) / 2;
            if self.masks[mid] < m {
                lo = mid + 1;
            } else {
                hi = mid;
            }
        }
        proof {
            assert forall|k: int| lo < k < self.masks@.len() implies self.masks@[k] > m by {
                assert(self.masks@[lo as int] < self.masks@[k]);
            }
        }
        lo
    }

    /// The group of words whose mask is `m`, if any word has it.
    pub fn lookup(&self, m: u32) -> (r: Option<&Vec<String>>)
        requires
            self.wf(),
        ensures
            r is Some <==> self.view_map().contains_key(m),
            r matches Some(g) ==> group_view(g@) == self.view_map()[m],
    {
        let i = self.position(m);
        if i < self.masks.len() && self.masks[i] == m {
            proof {
                crate::graph::lemma_index_of_unique(self.masks@, i as int);
            }
            Some(&self.groups[i])
        } else {
            proof {
                if self.masks@.contains(m) {
                    let k = self.masks@.index_of(m);
                }
            }
            None
        }
    }

    /// Adds a word under its letter mask, after the words already there.
    ///
    /// A word with a repeated letter is refused and leaves the dictionary as
    /// it was.
    pub fn add_word(&mut self, word: &str) -> (r: Result<u32, BitmapError>)
        requires
            old(self).wf(),
            is_lower_word(word@),
        ensures
            final(self).wf(),
            r is Ok <==> !has_repeat(word@),
            r matches Ok(m) ==> m == mask_of(word@) && final(self).view_map() == old(self).view_map().insert(
                m,
                if old(self).view_map().contains_key(m) {
                    old(self).view_map()[m].push(word@)
                } else {
                    seq![word@]
                },
            ),
            r is Err ==> *final(self) == *old(self),
    {
        let r = word_to_bitmap(word);
        let m = match r {
            Ok(m) => m,
            Err(e) => {
                return Err(e);
            },
        };
        let ghost before = self.view_map();
        let i = self.position(m);
        let owned = word.to_owned();
        if i < self.masks.len() && self.masks[i] == m {
            proof {
                crate::graph::lemma_index_of_unique(self.masks@, i as int);
            }
            let ghost old_groups = self.groups@;
            let mut group = self.groups.remove(i);
            group.push(owned);
            self.groups.insert(i, group);
            proof {
                assert(self.groups@ =~= old_groups.update(i as int, group));
                assert(group_view(self.groups@[i as int]@) =~= before[m].push(word@));
                assert forall|k: int| 0 <= k < self.groups@.len() && k != i implies self.groups@[k]
                    == old_groups[k] by {}
                assert(self.view_map() =~= before.insert(m, before[m].push(word@))) by {
                    assert forall|x: u32| #[trigger] self.masks@.contains(x) implies self.view_map()[x]
                        == before.insert(m, before[m].push(word@))[x] by {
                        let k = self.masks@.index_of(x);
                        if x != m {
                            assert(k != i);
                        }
                    }
                }
            }
        } else {
            let ghost old_masks = self.masks@;
            let ghost old_groups = self.groups@;
            let mut group: Vec<String> = Vec::new();
            group.push(owned);
            self.masks.insert(i, m);
            self.groups.insert(i, group);
            proof {
                assert(!old_masks.contains(m)) by {
                    if old_masks.contains(m) {
                        let k = old_masks.index_of(m);
                        if (k as int) < (i as int) {
                        } else if k > i {
                        }
                    }
                }
                assert(strictly_increasing(self.masks@)) by {
                    assert forall|a: int, b: int| 0 <= a < b < self.masks@.len() implies self.masks@[a]
                        < self.masks@[b] by {
                        if b < i {
                            assert(self.masks@[a] == old_masks[a] && self.masks@[b] == old_masks[b]);
                        } else if b == i {
                            assert(self.masks@[a] == old_masks[a]);
                        } else if a == i {
                            assert(self.masks@[b] == old_masks[b - 1]);
                        } else if a < i {
                            assert(self.masks@[a] == old_masks[a] && self.masks@[b] == old_masks[b - 1]);
                        } else {
                            assert(self.masks@[a] == old_masks[a - 1] && self.masks@[b] == old_masks[b - 1]);
                        }
                    }
                }
                assert(self.view_map() =~= before.insert(m, seq![word@])) by {
                    assert forall|x: u32| #[trigger] self.masks@.contains(x) <==> old_masks.contains(x) || x == m by {
                        if self.masks@.contains(x) {
                            let k = self.masks@.index_of(x);
                            if k < i {
                                assert(old_masks[k] == x);
                            } else if k > i {
                                assert(old_masks[k - 1] == x);
                            }
                        }
                        if old_masks.contains(x) {
                            let k = old_masks.index_of(x);
                            if k < i {
                                assert(self.masks@[k] == x);
                            } else {
                                assert(self.masks@[k + 1] == x);
                            }
                        }
                        if x == m {
                            assert(self.masks@[i as int] == m);
                        }
                    }
                    assert forall|x: u32| #[trigger] self.masks@.contains(x) implies self.view_map()[x]
                        == before.insert(m, seq![word@])[x] by {
                        let k = self.masks@.index_of(x);
                        crate::graph::lemma_index_of_unique(self.masks@, k);
                        if x == m {
                            crate::graph::lemma_index_of_unique(self.masks@, i as int);
                            assert(group_view(self.groups@[i as int]@) =~= seq![word@]);
                        } else if k < i {
                            crate::graph::lemma_index_of_unique(old_masks, k);
                            assert(self.groups@[k] == old_groups[k]);
                        } else {
                            assert(k > i);
                            crate::graph::lemma_index_of_unique(old_masks, k - 1);
                            assert(self.groups@[k] == old_groups[k - 1]);
                        }
                    }
                }
            }
        }
        Ok(m)
    }
}

/// The texts of the words of a tuple.
pub open spec fn tuple_text(t: Seq<&String>) -> Seq<Seq<char>> {
    t.map_values(|w: &String| w@)
}

/// The anagram groups of the masks of `solution`, in order.
pub open spec fn solution_groups(d: Map<u32, Seq<Seq<char>>>, solution: Seq<u32>) -> Seq<Seq<Seq<char>>> {
    solution.map_values(|m: u32| d[m])
}

/// Every mask of `solution` has a group in `d`.
pub open spec fn all_known(d: Map<u32, Seq<Seq<char>>>, solution: Seq<u32>) -> bool {
    forall|k: int| 0 <= k < solution.len() ==> d.contains_key(#[trigger] solution[k])
}

proof fn lemma_choice_count_lengths<A, B>(a: Seq<Seq<A>>, b: Seq<Seq<B>>)
    requires
        a.len() == b.len(),
        forall|k: int| 0 <= k < a.len() ==> (#[trigger] a[k]).len() == b[k].len(),
    ensures
        choice_count(a) == choice_count(b),
    decreases a.len(),
{
    if a.len() > 0 {
        lemma_choice_count_lengths(a.drop_last(), b.drop_last());
        assert(a[a.len() - 1].len() == b[b.len() - 1].len());
    }
}

/// Expands a solution into every tuple of words that it stands for: one word
/// from the group of each of its masks, in the order of the masks.
///
/// Gives nothing when some mask has no words in the dictionary. Otherwise
/// the tuples are exactly the choices of one word per mask, and there are as
/// many as the product of the groups' sizes.
pub fn materialize<'a>(solution: &Vec<u32>, dict: &'a Dictionary) -> (r: Option<Vec<Vec<&'a String>>>)
    requires
        dict.wf(),
    ensures
        r is Some <==> all_known(dict.view_map(), solution@),
        r matches Some(t) ==> (solution@.len() == 0 ==> t@.len() == 0) && (solution@.len() > 0
            ==> t@.len() == choice_count(solution_groups(dict.view_map(), solution@))),
        r matches Some(t) ==> forall|i: int|
            0 <= i < t@.len() ==> is_choice(
                solution_groups(dict.view_map(), solution@),
                #[trigger] tuple_text(t@[i]@),
            ),
        r matches Some(t) ==> forall|s: Seq<Seq<char>>|
            solution@.len() > 0 && is_choice(solution_groups(dict.view_map(), solution@), s)
                ==> exists|i: int| 0 <= i < t@.len() && #[trigger] tuple_text(t@[i]@) == s,
        r matches Some(t) ==> (forall|k: int|
            0 <= k < solution@.len() ==> (#[trigger] solution_groups(dict.view_map(), solution@)[k]).no_duplicates())
            ==> forall|i: int, j: int|
            0 <= i < j < t@.len() ==> tuple_text(t@[i]@) != tuple_text(t@[j]@),
{
    let ghost groups = solution_groups(dict.view_map(), solution@);
    let mut lists: Vec<Vec<&'a String>> = Vec::new();
    let mut k: usize = 0;
    while k < solution.len()
        invariant
            dict.wf(),
            k <= solution@.len(),
            groups == solution_groups(dict.view_map(), solution@),
            lists@.len() == k,
            forall|q: int| 0 <= q < k ==> dict.view_map().contains_key(#[trigger] solution@[q]),
            forall|q: int| 0 <= q < k ==> tuple_text((#[trigger] lists@[q])@) == groups[q],
        decreases solution@.len() - k,
    {
        match dict.lookup(solution[k]) {
            Some(g) => {
                let mut refs: Vec<&'a String> = Vec::new();
                let mut j: usize = 0;
                while j < g.len()
                    invariant
                        j <= g@.len(),
                        refs@.len() == j,
                        tuple_text(refs@) == group_view(g@.take(j as int)),
                    decreases g@.len() - j,
                {
                    let ghost old_refs = refs@;
                    let w = &g[j];
                    refs.push(w);
                    proof {
                        let gt = g@.take(j as int + 1);
                        assert(gt =~= g@.take(j as int).push(g@[j as int]));
                        assert forall|q: int| 0 <= q < j + 1 implies tuple_text(refs@)[q] == group_view(gt)[q] by {
                            if q < j {
                                assert(refs@[q] == old_refs[q]);
                                assert(tuple_text(old_refs)[q] == group_view(g@.take(j as int))[q]);
                            } else {
                                assert(refs@[q] == w);
                            }
                        }
                        assert(tuple_text(refs@) =~= group_view(gt));
                    }
                    j = j + 1;
                }
                assert(g@.take(j as int) =~= g@);
                let ghost before = lists@;
                lists.push(refs);
                proof {
                    assert forall|q: int| 0 <= q < k + 1 implies tuple_text((#[trigger] lists@[q])@)
                        == groups[q] by {
                        if q < k {
                            assert(lists@[q] == before[q]);
                        }
                    }
                }
            },
            None => {
                return None;
            },
        }
        k = k + 1;
    }
    let t = combinations(&lists);
    proof {
        let lv = crate::words::lists_view(lists@);
        assert((forall|k: int| 0 <= k < solution@.len() ==> (#[trigger] groups[k]).no_duplicates())
            ==> forall|i: int, j: int|
            0 <= i < j < t@.len() ==> tuple_text(t@[i]@) != tuple_text(t@[j]@)) by {
            if forall|k: int| 0 <= k < solution@.len() ==> (#[trigger] groups[k]).no_duplicates() {
                assert forall|q: int| 0 <= q < lists@.len() implies (#[trigger] lists@[q])@.no_duplicates() by {
                    assert(groups[q].no_duplicates());
                    assert forall|a: int, b: int| 0 <= a < b < lists@[q]@.len() implies lists@[q]@[a]
                        != lists@[q]@[b] by {
                        assert(tuple_text(lists@[q]@)[a] == groups[q][a]);
                        assert(tuple_text(lists@[q]@)[b] == groups[q][b]);
                    }
                }
                assert forall|i: int, j: int| 0 <= i < j < t@.len() implies tuple_text(t@[i]@) != tuple_text(
                    t@[j]@,
                ) by {
                    let si = t@[i]@;
                    let sj = t@[j]@;
                    assert(holds(t@, si));
                    assert(holds(t@, sj));
                    assert(si != sj);
                    if tuple_text(si) == tuple_text(sj) {
                        assert(si.len() == sj.len());
                        assert(exists|q: int| 0 <= q < si.len() && si[q] != sj[q]) by {
                            if forall|q: int| 0 <= q < si.len() ==> si[q] == sj[q] {
                                assert(si =~= sj);
                            }
                        }
                        let q = choose|q: int| 0 <= q < si.len() && si[q] != sj[q];
                        assert(lv[q].contains(si[q]));
                        assert(lv[q].contains(sj[q]));
                        let a = choose|a: int| 0 <= a < lv[q].len() && lv[q][a] == si[q];
                        let b = choose|b: int| 0 <= b < lv[q].len() && lv[q][b] == sj[q];
                        assert(tuple_text(lists@[q]@)[a] == groups[q][a]);
                        assert(tuple_text(lists@[q]@)[b] == groups[q][b]);
                        assert(tuple_text(si)[q] == tuple_text(sj)[q]);
                    }
                }
            }
        }
        assert forall|q: int| 0 <= q < lv.len() implies (#[trigger] lv[q]).len() == groups[q].len() by {
            assert(tuple_text(lists@[q]@).len() == lists@[q]@.len());
        }
        lemma_choice_count_lengths(lv, groups);
        assert forall|i: int| 0 <= i < t@.len() implies is_choice(groups, #[trigger] tuple_text(t@[i]@)) by {
            let s = t@[i]@;
            assert(holds(t@, s));
            assert forall|q: int| 0 <= q < s.len() implies groups[q].contains(
                #[trigger] tuple_text(s)[q],
            ) by {
                assert(lv[q].contains(s[q]));
                let j = choose|j: int| 0 <= j < lv[q].len() && lv[q][j] == s[q];
                assert(tuple_text(lists@[q]@)[j] == groups[q][j]);
            }
        }
        assert forall|s: Seq<Seq<char>>| solution@.len() > 0 && is_choice(groups, s) implies exists|i: int|
            0 <= i < t@.len() && #[trigger] tuple_text(t@[i]@) == s by {
            let pick = Seq::new(
                s.len(),
                |q: int| lv[q][choose|j: int| 0 <= j < groups[q].len() && groups[q][j] == s[q]],
            );
            assert forall|q: int| 0 <= q < pick.len() implies lv[q].contains(#[trigger] pick[q]) by {
                assert(groups[q].contains(s[q]));
                let j = choose|j: int| 0 <= j < groups[q].len() && groups[q][j] == s[q];
                assert(tuple_text(lists@[q]@)[j] == groups[q][j]);
            }
            assert(is_choice(lv, pick));
            assert(holds(t@, pick));
            let i = choose|i: int| 0 <= i < t@.len() && (#[trigger] t@[i])@ == pick;
            assert forall|q: int| 0 <= q < s.len() implies tuple_text(pick)[q] == s[q] by {
                let j = choose|j: int| 0 <= j < groups[q].len() && groups[q][j] == s[q];
                assert(tuple_text(lists@[q]@)[j] == groups[q][j]);
            }
            assert(tuple_text(t@[i]@) =~= s);
        }
    }
    Some(t)
}

} // verus!
