//! Byte-buffer scanning primitives shared by the header parser: substring
//! search, runs of spaces and digits, and decimal values, each with a
//! mathematical definition and an executable counterpart.

use vstd::prelude::*;
use vstd::slice::slice_index_get;

verus! {

/// The pattern `pat` occurs in `b` starting at position `i`.
pub open spec fn match_at(b: Seq<u8>, i: int, pat: Seq<u8>) -> bool {
    0 <= i && i + pat.len() <= b.len() && b.subrange(i, i + pat.len()) == pat
}

/// Position of the first occurrence of `pat` in `b` at or after `i`.
pub open spec fn find_from(b: Seq<u8>, i: int, pat: Seq<u8>) -> Option<int>
    decreases b.len() + 1 - i,
{
    if i < 0 || i + pat.len() > b.len() {
        None
    } else if match_at(b, i, pat) {
        Some(i)
    } else {
        find_from(b, i + 1, pat)
    }
}

/// A space or horizontal tab.
pub open spec fn is_sp(c: u8) -> bool {
    c == 32u8 || c == 9u8
}

/// An ASCII decimal digit.
pub open spec fn is_digit(c: u8) -> bool {
    48u8 <= c && c <= 57u8
}

/// First position at or after `i` that does not hold a space or tab
/// (or the end of the buffer).
pub open spec fn skip_sp(b: Seq<u8>, i: int) -> int
    decreases b.len() - i,
{
    if i < 0 || i >= b.len() {
        i
    } else if is_sp(b[i]) {
        skip_sp(b, i + 1)
    } else {
        i
    }
}

/// First position at or after `i` that does not hold a digit
/// (or the end of the buffer).
pub open spec fn skip_digits(b: Seq<u8>, i: int) -> int
    decreases b.len() - i,
{
    if i < 0 || i >= b.len() {
        i
    } else if is_digit(b[i]) {
        skip_digits(b, i + 1)
    } else {
        i
    }
}

/// Value of the decimal digit run `b[i..j)`.
pub open spec fn digits_value(b: Seq<u8>, i: int, j: int) -> int
    decreases j - i,
{
    if j <= i {
        0
    } else {
        digits_value(b, i, j - 1) * 10 + (b[j - 1] - 48)
    }
}

/// `find_from` returns the first match, and only a real one.
pub proof fn lemma_find_from_char(b: Seq<u8>, i: int, pat: Seq<u8>)
    requires
        0 <= i,
    ensures
        match find_from(b, i, pat) {
            Some(j) => i <= j && j + pat.len() <= b.len() && match_at(b, j, pat) && (forall|k: int|
                i <= k < j ==> !match_at(b, k, pat)),
            None => forall|k: int| i <= k ==> !match_at(b, k, pat),
        },
    decreases b.len() + 1 - i,
{
    if i + pat.len() > b.len() {
        assert forall|k: int| i <= k implies !match_at(b, k, pat) by {
            assert(k + pat.len() > b.len());
        }
    } else if match_at(b, i, pat) {
    } else {
        lemma_find_from_char(b, i + 1, pat);
        match find_from(b, i + 1, pat) {
            Some(j) => {
                assert forall|k: int| i <= k < j implies !match_at(b, k, pat) by {
                    if k == i {
                        assert(!match_at(b, i, pat));
                    }
                }
            },
            None => {
                assert forall|k: int| i <= k implies !match_at(b, k, pat) by {
                    if k == i {
                        assert(!match_at(b, i, pat));
                    }
                }
            },
        }
    }
}

/// Positions below the length of a prefix hold the same bytes in the
/// prefix and in the full buffer.
pub proof fn lemma_prefix_index(b: Seq<u8>, b2: Seq<u8>)
    requires
        b.len() <= b2.len(),
        b2.subrange(0, b.len() as int) == b,
    ensures
        forall|m: int| 0 <= m < b.len() ==> b[m] == b2[m],
{
    assert forall|m: int| 0 <= m < b.len() implies b[m] == b2[m] by {
        assert(b2.subrange(0, b.len() as int)[m] == b2[m]);
    }
}

/// A match wholly inside a prefix is a match in the full buffer, and back.
pub proof fn lemma_match_at_prefix(b: Seq<u8>, b2: Seq<u8>, k: int, pat: Seq<u8>)
    requires
        b.len() <= b2.len(),
        b2.subrange(0, b.len() as int) == b,
        0 <= k,
        k + pat.len() <= b.len(),
    ensures
        match_at(b, k, pat) == match_at(b2, k, pat),
{
    lemma_prefix_index(b, b2);
    assert(b.subrange(k, k + pat.len() as int) =~= b2.subrange(k, k + pat.len() as int));
}

/// A successful search is unchanged when the buffer is extended.
pub proof fn lemma_find_from_extend(b: Seq<u8>, b2: Seq<u8>, i: int, pat: Seq<u8>)
    requires
        b.len() <= b2.len(),
        b2.subrange(0, b.len() as int) == b,
        0 <= i,
        find_from(b, i, pat) is Some,
    ensures
        find_from(b2, i, pat) == find_from(b, i, pat),
    decreases b.len() + 1 - i,
{
    if i + pat.len() > b.len() {
        assert(false);
    } else {
        lemma_match_at_prefix(b, b2, i, pat);
        if match_at(b, i, pat) {
        } else {
            lemma_find_from_extend(b, b2, i + 1, pat);
        }
    }
}

/// A space run that stops before the end of the buffer stops at the same
/// place in any extension.
pub proof fn lemma_skip_sp_extend(b: Seq<u8>, b2: Seq<u8>, i: int)
    requires
        b.len() <= b2.len(),
        b2.subrange(0, b.len() as int) == b,
        0 <= i,
        skip_sp(b, i) < b.len(),
    ensures
        skip_sp(b2, i) == skip_sp(b, i),
    decreases b.len() - i,
{
    lemma_prefix_index(b, b2);
    if i >= b.len() {
        assert(false);
    } else if is_sp(b[i]) {
        lemma_skip_sp_extend(b, b2, i + 1);
    }
}

/// A digit run that stops before the end of the buffer stops at the same
/// place in any extension.
pub proof fn lemma_skip_digits_extend(b: Seq<u8>, b2: Seq<u8>, i: int)
    requires
        b.len() <= b2.len(),
        b2.subrange(0, b.len() as int) == b,
        0 <= i,
        skip_digits(b, i) < b.len(),
    ensures
        skip_digits(b2, i) == skip_digits(b, i),
    decreases b.len() - i,
{
    lemma_prefix_index(b, b2);
    if i >= b.len() {
        assert(false);
    } else if is_digit(b[i]) {
        lemma_skip_digits_extend(b, b2, i + 1);
    }
}

/// The value of a digit run depends only on the bytes of the run.
pub proof fn lemma_digits_value_same(b: Seq<u8>, b2: Seq<u8>, i: int, j: int)
    requires
        0 <= i,
        j <= b.len(),
        j <= b2.len(),
        forall|m: int| i <= m < j ==> b[m] == b2[m],
    ensures
        digits_value(b2, i, j) == digits_value(b, i, j),
    decreases j - i,
{
    if j > i {
        lemma_digits_value_same(b, b2, i, j - 1);
    }
}

/// The value of a run of digits is not negative.
pub proof fn lemma_digits_value_nonneg(b: Seq<u8>, i: int, j: int)
    requires
        0 <= i,
        j <= b.len(),
        forall|m: int| i <= m < j ==> #[trigger] is_digit(b[m]),
    ensures
        digits_value(b, i, j) >= 0,
    decreases j - i,
{
    if j > i {
        assert(is_digit(b[j - 1]));
        lemma_digits_value_nonneg(b, i, j - 1);
    }
}

/// A skipped space run starts at its origin and ends within the buffer.
pub proof fn lemma_skip_sp_bounds(b: Seq<u8>, i: int)
    requires
        0 <= i <= b.len(),
    ensures
        i <= skip_sp(b, i) <= b.len(),
    decreases b.len() - i,
{
    if i < b.len() && is_sp(b[i]) {
        lemma_skip_sp_bounds(b, i + 1);
    }
}

/// A skipped digit run starts at its origin and ends within the buffer.
pub proof fn lemma_skip_digits_bounds(b: Seq<u8>, i: int)
    requires
        0 <= i <= b.len(),
    ensures
        i <= skip_digits(b, i) <= b.len(),
    decreases b.len() - i,
{
    if i < b.len() && is_digit(b[i]) {
        lemma_skip_digits_bounds(b, i + 1);
    }
}

/// How a space run behaves on the prefix `b[0..n)`: it stops at the same
/// place if that is inside the prefix, and at the prefix end otherwise.
pub proof fn lemma_skip_sp_restrict(b: Seq<u8>, n: int, i: int)
    requires
        0 <= i <= n <= b.len(),
    ensures
        skip_sp(b, i) < n ==> skip_sp(b.subrange(0, n), i) == skip_sp(b, i),
        skip_sp(b, i) >= n ==> skip_sp(b.subrange(0, n), i) == n,
    decreases n - i,
{
    lemma_skip_sp_bounds(b, i);
    if i < n {
        assert(b.subrange(0, n)[i] == b[i]);
        if is_sp(b[i]) {
            lemma_skip_sp_restrict(b, n, i + 1);
        }
    }
}

/// How a digit run behaves on the prefix `b[0..n)`.
pub proof fn lemma_skip_digits_restrict(b: Seq<u8>, n: int, i: int)
    requires
        0 <= i <= n <= b.len(),
    ensures
        skip_digits(b, i) < n ==> skip_digits(b.subrange(0, n), i) == skip_digits(b, i),
        skip_digits(b, i) >= n ==> skip_digits(b.subrange(0, n), i) == n,
    decreases n - i,
{
    lemma_skip_digits_bounds(b, i);
    if i < n {
        assert(b.subrange(0, n)[i] == b[i]);
        if is_digit(b[i]) {
            lemma_skip_digits_restrict(b, n, i + 1);
        }
    }
}

/// How a search behaves on the prefix `b[0..n)`: a match wholly inside the
/// prefix is found at the same place; one beyond it is not found at all.
pub proof fn lemma_find_from_restrict(b: Seq<u8>, n: int, i: int, pat: Seq<u8>)
    requires
        0 <= i,
        0 <= n <= b.len(),
        pat.len() >= 1,
    ensures
        match find_from(b, i, pat) {
            Some(j) => if j + pat.len() <= n {
                find_from(b.subrange(0, n), i, pat) == Some(j)
            } else {
                find_from(b.subrange(0, n), i, pat) is None
            },
            None => find_from(b.subrange(0, n), i, pat) is None,
        },
{
    let p = b.subrange(0, n);
    assert(b.subrange(0, p.len() as int) == p);
    lemma_find_from_char(b, i, pat);
    lemma_find_from_char(p, i, pat);
    assert forall|k: int| 0 <= k && k + pat.len() <= n implies match_at(p, k, pat) == match_at(
        b,
        k,
        pat,
    ) by {
        lemma_match_at_prefix(p, b, k, pat);
    }
    match find_from(b, i, pat) {
        Some(j) => {
            if j + pat.len() <= n {
                match find_from(p, i, pat) {
                    Some(jp) => {
                        if jp < j {
                            assert(match_at(b, jp, pat));
                        }
                        if jp > j {
                            assert(match_at(p, j, pat));
                            assert(!match_at(p, j, pat));
                        }
                    },
                    None => {
                        assert(match_at(p, j, pat));
                        assert(!match_at(p, j, pat));
                    },
                }
            } else {
                match find_from(p, i, pat) {
                    Some(jp) => {
                        assert(match_at(b, jp, pat));
                        assert(jp < j);
                        assert(!match_at(b, jp, pat));
                    },
                    None => {},
                }
            }
        },
        None => {
            match find_from(p, i, pat) {
                Some(jp) => {
                    assert(match_at(b, jp, pat));
                    assert(!match_at(b, jp, pat));
                },
                None => {},
            }
        },
    }
}

/// Every position inside a skipped digit run holds a digit.
pub proof fn lemma_skip_digits_run(b: Seq<u8>, i: int)
    requires
        0 <= i <= b.len(),
    ensures
        forall|m: int| i <= m < skip_digits(b, i) ==> #[trigger] is_digit(b[m]),
    decreases b.len() - i,
{
    if i < b.len() && is_digit(b[i]) {
        lemma_skip_digits_run(b, i + 1);
    }
}

/// Whether the byte at `j` is a space or tab.
pub fn sp_at(b: &[u8], j: usize) -> (r: bool)
    requires
        j < b@.len(),
    ensures
        r == is_sp(b@[j as int]),
{
    let c: u8 = *slice_index_get(b, j);
    c == 32u8 || c == 9u8
}

/// Whether the byte at `j` is an ASCII decimal digit.
pub fn digit_at(b: &[u8], j: usize) -> (r: bool)
    requires
        j < b@.len(),
    ensures
        r == is_digit(b@[j as int]),
{
    let c: u8 = *slice_index_get(b, j);
    48u8 <= c && c <= 57u8
}

/// Find the first occurrence of the byte `c0` at or after `from`.
pub fn find1(b: &[u8], from: usize, c0: u8) -> (r: Option<usize>)
    requires
        from <= b@.len(),
    ensures
        match r {
            Some(j) => from <= j && j < b@.len() && find_from(b@, from as int, seq![c0]) == Some(
                j as int,
            ),
            None => find_from(b@, from as int, seq![c0]) is None,
        },
{
    let n: usize = b.len();
    let mut j: usize = from;
    while j < n
        invariant
            from <= j <= n,
            n == b@.len(),
            forall|k: int| from <= k < j ==> !match_at(b@, k, seq![c0]),
        decreases n - j,
    {
        let c: u8 = *slice_index_get(b, j);
        if c == c0 {
            proof {
                assert(b@.subrange(j as int, j + 1) =~= seq![c0]);
                assert(match_at(b@, j as int, seq![c0]));
                lemma_find_from_char(b@, from as int, seq![c0]);
                assert(find_from(b@, from as int, seq![c0]) == Some(j as int));
            }
            return Some(j);
        }
        proof {
            if match_at(b@, j as int, seq![c0]) {
                assert(b@.subrange(j as int, j + 1)[0] == seq![c0][0]);
            }
            assert(!match_at(b@, j as int, seq![c0]));
        }
        j += 1;
    }
    proof {
        lemma_find_from_char(b@, from as int, seq![c0]);
        assert(find_from(b@, from as int, seq![c0]) is None);
    }
    None
}

/// Find the first occurrence of the two-byte pattern `c0 c1` at or after
/// `from`.
pub fn find2(b: &[u8], from: usize, c0: u8, c1: u8) -> (r: Option<usize>)
    requires
        from <= b@.len(),
    ensures
        match r {
            Some(j) => from <= j && j + 2 <= b@.len() && find_from(b@, from as int, seq![c0, c1])
                == Some(j as int),
            None => find_from(b@, from as int, seq![c0, c1]) is None,
        },
{
    let n: usize = b.len();
    let mut j: usize = from;
    while j < n && j + 1 < n
        invariant
            from <= j <= n,
            n == b@.len(),
            forall|k: int| from <= k < j ==> !match_at(b@, k, seq![c0, c1]),
        decreases n - j,
    {
        let c: u8 = *slice_index_get(b, j);
        let d: u8 = *slice_index_get(b, j + 1);
        if c == c0 && d == c1 {
            proof {
                assert(b@.subrange(j as int, j + 2) =~= seq![c0, c1]);
                assert(match_at(b@, j as int, seq![c0, c1]));
                lemma_find_from_char(b@, from as int, seq![c0, c1]);
                assert(find_from(b@, from as int, seq![c0, c1]) == Some(j as int));
            }
            return Some(j);
        }
        proof {
            if match_at(b@, j as int, seq![c0, c1]) {
                assert(b@.subrange(j as int, j + 2)[0] == seq![c0, c1][0]);
                assert(b@.subrange(j as int, j + 2)[1] == seq![c0, c1][1]);
            }
            assert(!match_at(b@, j as int, seq![c0, c1]));
        }
        j += 1;
    }
    proof {
        lemma_find_from_char(b@, from as int, seq![c0, c1]);
        assert forall|k: int| from <= k && k + 2 <= b@.len() implies !match_at(b@, k, seq![c0, c1])
            by {}
        assert(find_from(b@, from as int, seq![c0, c1]) is None);
    }
    None
}

/// Skip a run of spaces and tabs starting at `from`.
pub fn skip_sp_run(b: &[u8], from: usize) -> (j: usize)
    requires
        from <= b@.len(),
    ensures
        from <= j <= b@.len(),
        j == skip_sp(b@, from as int),
{
    let n: usize = b.len();
    let mut j: usize = from;
    while j < n && sp_at(b, j)
        invariant
            from <= j <= n,
            n == b@.len(),
            skip_sp(b@, from as int) == skip_sp(b@, j as int),
        decreases n - j,
    {
        proof {
            assert(skip_sp(b@, j as int) == skip_sp(b@, j + 1));
        }
        j += 1;
    }
    proof {
        assert(skip_sp(b@, j as int) == j as int);
    }
    j
}

}
