use vstd::prelude::*;

verus! {

/// True when every character of `s` is a lowercase ASCII letter.
pub open spec fn is_lower_word(s: Seq<char>) -> bool {
    forall|i: int| 0 <= i < s.len() ==> 'a' <= #[trigger] s[i] <= 'z'
}

/// Index of a letter in the alphabet (`'a'` is 0).
pub open spec fn letter_index(c: char) -> u32 {
    (c as u32 - 'a' as u32) as u32
}

/// The single-bit mask of a letter.
pub open spec fn letter_bit(c: char) -> u32 {
    (1u32 << letter_index(c)) as u32
}

/// Whether bit `k` of `m` is set.
pub open spec fn bit_set(m: u32, k: nat) -> bool {
    k < 32 && (m >> (k as u32)) & 1u32 == 1u32
}

/// Number of set bits of `m` among bits `0 .. n`.
pub open spec fn popcount_below(m: u32, n: nat) -> nat
    decreases n,
{
    if n == 0 {
        0
    } else {
        popcount_below(m, (n - 1) as nat) + if bit_set(m, (n - 1) as nat) {
            1nat
        } else {
            0nat
        }
    }
}

/// Population count of a mask.
pub open spec fn popcount(m: u32) -> nat {
    popcount_below(m, 32)
}

/// The mask of the letters of `s`: the union of their bits.
pub open spec fn mask_of(s: Seq<char>) -> u32
    decreases s.len(),
{
    if s.len() == 0 {
        0
    } else {
        mask_of(s.drop_last()) | letter_bit(s.last())
    }
}

/// Whether some letter of `s` occurs twice.
pub open spec fn has_repeat(s: Seq<char>) -> bool {
    exists|i: int, j: int| 0 <= i < j < s.len() && s[i] == s[j]
}

/// `j` is the position of the first letter of `s` that already occurred
/// before it.
pub open spec fn first_repeat(s: Seq<char>, j: int) -> bool {
    0 <= j < s.len() && has_repeat(s.take(j + 1)) && !has_repeat(s.take(j))
}

/// Why a word has no letter mask.
#[derive(PartialEq, Eq, Structural, Debug, Clone, Copy)]
pub enum BitmapError {
    /// The letter occurs more than once in the word.
    NotUnique(char),
}

proof fn lemma_bit_of_or(m: u32, b: u32, j: u32)
    by (bit_vector)
    requires
        j < 32,
        m & b == 0,
    ensures
        (((m | b) >> j) & 1 == 1) == ((((m >> j) & 1) == 1) || (((b >> j) & 1) == 1)),
        !((((m >> j) & 1) == 1) && (((b >> j) & 1) == 1)),
{
}

proof fn lemma_single_bit(k: u32, j: u32)
    by (bit_vector)
    requires
        k < 32,
        j < 32,
    ensures
        (((1u32 << k) >> j) & 1 == 1) == (j == k),
{
}

proof fn lemma_or_idem_bit(m: u32, k: u32)
    by (bit_vector)
    requires
        k < 32,
        m & (1u32 << k) == 0,
    ensures
        (m | (1u32 << k)) & (1u32 << k) != 0,
{
}

/// The population count of the union of two disjoint masks is the sum of
/// their population counts.
pub proof fn lemma_popcount_disjoint_union(a: u32, b: u32)
    requires
        a & b == 0,
    ensures
        popcount(a | b) == popcount(a) + popcount(b),
{
    lemma_popcount_below_disjoint(a, b, 32);
}

proof fn lemma_popcount_below_disjoint(a: u32, b: u32, n: nat)
    requires
        a & b == 0,
        n <= 32,
    ensures
        popcount_below(a | b, n) == popcount_below(a, n) + popcount_below(b, n),
    decreases n,
{
    if n > 0 {
        lemma_popcount_below_disjoint(a, b, (n - 1) as nat);
        lemma_bit_of_or(a, b, (n - 1) as u32);
    }
}

proof fn lemma_popcount_below_single(k: u32, n: nat)
    requires
        k < 32,
        n <= 32,
    ensures
        popcount_below(1u32 << k, n) == if (k as nat) < n {
            1nat
        } else {
            0nat
        },
    decreases n,
{
    if n > 0 {
        lemma_popcount_below_single(k, (n - 1) as nat);
        lemma_single_bit(k, (n - 1) as u32);
    }
}

/// A single letter's mask has exactly one bit set.
pub proof fn lemma_popcount_single(k: u32)
    requires
        k < 32,
    ensures
        popcount(1u32 << k) == 1,
{
    lemma_popcount_below_single(k, 32);
}

/// Encodes a lowercase word as the set of its letters, one bit per letter.
///
/// Fails with the first letter that repeats an earlier one. On success the
/// mask has as many bits set as the word has letters.
pub fn word_to_bitmap(word: &str) -> (r: Result<u32, BitmapError>)
    requires
        is_lower_word(word@),
    ensures
        r is Ok <==> !has_repeat(word@),
        r matches Ok(m) ==> m == mask_of(word@) && popcount(m) == word@.len(),
        r matches Err(BitmapError::NotUnique(c)) ==> exists|j: int|
            first_repeat(word@, j) && word@[j] == c,
{
    proof {
        vstd::string::is_ascii_spec_bytes(word);
    }
    let bytes = word.as_bytes();
    let n = bytes.len();
    assert(word@.len() == n);
    let mut bitmap: u32 = 0;
    let mut i: usize = 0;
    proof {
        lemma_popcount_below_zero(32);
        assert forall|c: char| 'a' <= c <= 'z' implies 0u32 & letter_bit(c) == 0 by {
            lemma_zero_and(letter_bit(c));
        }
    }
    while i < n
        invariant
            bytes@.len() == n,
            word@.len() == n,
            i <= n,
            forall|k: int| 0 <= k < n ==> bytes@[k] == word@[k] as u8,
            is_lower_word(word@),
            bitmap == mask_of(word@.take(i as int)),
            !has_repeat(word@.take(i as int)),
            popcount(bitmap) == i,
            forall|k: int| 0 <= k < i ==> bitmap & letter_bit(#[trigger] word@[k]) != 0,
            forall|c: char|
                'a' <= c <= 'z' && bitmap & letter_bit(c) != 0 ==> exists|k: int|
                    0 <= k < i && #[trigger] word@[k] == c,
        decreases n - i,
    {
        let c = bytes[i] as char;
        assert(c == word@[i as int]);
        let pow: u32 = c as u32 - 'a' as u32;
        let index: u32 = 1u32 << pow;
        assert('a' <= c <= 'z');
        assert(index == letter_bit(c));
        let ghost prefix = word@.take(i as int);
        let ghost next = word@.take(i as int + 1);
        assert(next.drop_last() =~= prefix);
        if bitmap & index != 0 {
            let ghost k = choose|k: int| 0 <= k < i && #[trigger] word@[k] == c;
            assert(next[k] == next[i as int]);
            assert(has_repeat(next));
            assert(first_repeat(word@, i as int));
            proof {
                if !has_repeat(word@) {
                    assert(word@[k] == word@[i as int]);
                }
            }
            return Err(BitmapError::NotUnique(c));
        }
        proof {
            lemma_popcount_disjoint_union(bitmap, index);
            lemma_popcount_single(pow);
            assert forall|a: int, b: int| 0 <= a < b < next.len() implies next[a] != next[b] by {
                if b < i {
                    assert(prefix[a] == next[a] && prefix[b] == next[b]);
                } else {
                    if next[a] == next[b] {
                        assert(bitmap & letter_bit(word@[a]) != 0);
                    }
                }
            }
            assert forall|k: int| 0 <= k < i + 1 implies (bitmap | index) & letter_bit(
                #[trigger] word@[k],
            ) != 0 by {
                if k == i {
                    lemma_or_idem_bit(bitmap, pow);
                } else {
                    lemma_or_keeps(bitmap, index, letter_bit(word@[k]));
                }
            }
            assert forall|c2: char|
                'a' <= c2 <= 'z' && (bitmap | index) & letter_bit(c2) != 0 implies exists|k: int|
                0 <= k < i + 1 && #[trigger] word@[k] == c2 by {
                let p2 = letter_index(c2);
                if bitmap & letter_bit(c2) == 0 {
                    lemma_or_split_single(bitmap, pow, p2);
                    assert(word@[i as int] == c2);
                }
            }
        }
        bitmap = bitmap | index;
        i = i + 1;
    }
    assert(word@.take(n as int) =~= word@);
    Ok(bitmap)
}

proof fn lemma_zero_and(x: u32)
    by (bit_vector)
    ensures
        0u32 & x == 0,
{
}

proof fn lemma_zero_bits(j: u32)
    by (bit_vector)
    requires
        j < 32,
    ensures
        (0u32 >> j) & 1 != 1,
{
}

proof fn lemma_popcount_below_zero(n: nat)
    requires
        n <= 32,
    ensures
        popcount_below(0, n) == 0,
    decreases n,
{
    if n > 0 {
        lemma_popcount_below_zero((n - 1) as nat);
        lemma_zero_bits((n - 1) as u32);
    }
}

/// The empty mask has no bit set.
pub proof fn lemma_popcount_zero()
    ensures
        popcount(0) == 0,
{
    lemma_popcount_below_zero(32);
}

proof fn lemma_or_keeps(a: u32, b: u32, x: u32)
    by (bit_vector)
    requires
        a & x != 0,
    ensures
        (a | b) & x != 0,
{
}

proof fn lemma_or_split_single(a: u32, k: u32, j: u32)
    by (bit_vector)
    requires
        k < 32,
        j < 32,
        a & (1u32 << j) == 0,
        (a | (1u32 << k)) & (1u32 << j) != 0,
    ensures
        j == k,
{
}

proof fn lemma_or_assoc_zero(x: u32, y: u32, z: u32)
    by (bit_vector)
    ensures
        (x | y) | z == x | (y | z),
        x | 0 == x,
{
}

proof fn lemma_shared_bit(x: u32, y: u32, k: u32)
    by (bit_vector)
    requires
        k < 32,
        x & (1u32 << k) != 0,
        y & (1u32 << k) != 0,
    ensures
        x & y != 0,
{
}

proof fn lemma_bit_nonzero(m: u32, k: u32)
    by (bit_vector)
    requires
        k < 32,
    ensures
        (m | (1u32 << k)) & (1u32 << k) != 0,
{
}

/// The mask of two words written one after the other is the union of
/// their masks.
pub proof fn lemma_mask_of_concat(a: Seq<char>, b: Seq<char>)
    ensures
        mask_of(a + b) == mask_of(a) | mask_of(b),
    decreases b.len(),
{
    lemma_or_assoc_zero(mask_of(a), 0, 0);
    if b.len() == 0 {
        assert(a + b =~= a);
    } else {
        let b1 = b.drop_last();
        assert((a + b).drop_last() =~= a + b1);
        assert((a + b).last() == b.last());
        lemma_mask_of_concat(a, b1);
        lemma_or_assoc_zero(mask_of(a), mask_of(b1), letter_bit(b.last()));
    }
}

proof fn lemma_letter_in_mask(s: Seq<char>, i: int)
    requires
        is_lower_word(s),
        0 <= i < s.len(),
    ensures
        mask_of(s) & letter_bit(s[i]) != 0,
    decreases s.len(),
{
    let p = s.drop_last();
    assert('a' <= s[i] <= 'z');
    assert('a' <= s.last() <= 'z');
    if i == s.len() - 1 {
        lemma_bit_nonzero(mask_of(p), letter_index(s.last()));
    } else {
        assert(is_lower_word(p)) by {
            assert forall|k: int| 0 <= k < p.len() implies 'a' <= #[trigger] p[k] <= 'z' by {
                assert(s[k] == p[k]);
            }
        }
        assert(p[i] == s[i]);
        lemma_letter_in_mask(p, i);
        lemma_or_keeps(mask_of(p), letter_bit(s.last()), letter_bit(s[i]));
    }
}

/// Two words without repeated letters whose masks share no bit can be
/// written one after the other: the result still has no repeated letter,
/// and its mask is the union of theirs.
pub proof fn lemma_disjoint_words_concat(a: Seq<char>, b: Seq<char>)
    requires
        is_lower_word(a),
        is_lower_word(b),
        !has_repeat(a),
        !has_repeat(b),
        mask_of(a) & mask_of(b) == 0,
    ensures
        is_lower_word(a + b),
        !has_repeat(a + b),
        mask_of(a + b) == mask_of(a) | mask_of(b),
{
    lemma_mask_of_concat(a, b);
    let s = a + b;
    assert forall|k: int| 0 <= k < s.len() implies 'a' <= #[trigger] s[k] <= 'z' by {
        if k < a.len() {
            assert(s[k] == a[k]);
        } else {
            assert(s[k] == b[k - a.len()]);
        }
    }
    assert forall|i: int, j: int| 0 <= i < j < s.len() implies s[i] != s[j] by {
        if j < a.len() {
            assert(s[i] == a[i] && s[j] == a[j]);
        } else if i >= a.len() {
            assert(s[i] == b[i - a.len()] && s[j] == b[j - a.len()]);
        } else {
            assert(s[i] == a[i] && s[j] == b[j - a.len()]);
            if a[i] == b[j - a.len()] {
                lemma_letter_in_mask(a, i);
                lemma_letter_in_mask(b, j - a.len());
                lemma_shared_bit(mask_of(a), mask_of(b), letter_index(a[i]));
            }
        }
    }
}

} // verus!
