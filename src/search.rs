use vstd::prelude::*;

verus! {

/// The index of the first occurrence of `b` in `s`.
pub open spec fn find(s: Seq<u8>, b: u8) -> Option<nat>
    decreases s.len(),
{
    if s.len() == 0 {
        None
    } else if s[0] == b {
        Some(0)
    } else {
        match find(s.drop_first(), b) {
            Some(i) => Some(i + 1),
            None => None,
        }
    }
}

/// `find` returns the first occurrence, and `None` only when there is none.
pub proof fn lemma_find(s: Seq<u8>, b: u8)
    ensures
        match find(s, b) {
            Some(i) => i < s.len() && s[i as int] == b && forall|j: int|
                0 <= j < i ==> #[trigger] s[j] != b,
            None => forall|j: int| 0 <= j < s.len() ==> #[trigger] s[j] != b,
        },
    decreases s.len(),
{
    if s.len() > 0 {
        lemma_find(s.drop_first(), b);
        if s[0] != b {
            match find(s.drop_first(), b) {
                Some(i) => {
                    assert forall|j: int| 0 <= j < i + 1 implies #[trigger] s[j] != b by {
                        if j > 0 {
                            assert(s[j] == s.drop_first()[j - 1]);
                        }
                    }
                },
                None => {
                    assert forall|j: int| 0 <= j < s.len() implies #[trigger] s[j] != b by {
                        if j > 0 {
                            assert(s[j] == s.drop_first()[j - 1]);
                        }
                    }
                },
            }
        }
    }
}

/// Searching a concatenation finds the first part's occurrence, or else the
/// second part's shifted by the first part's length.
pub proof fn lemma_find_concat(a: Seq<u8>, c: Seq<u8>, b: u8)
    ensures
        find(a + c, b) == match find(a, b) {
            Some(i) => Some(i),
            None => match find(c, b) {
                Some(j) => Some(j + a.len()),
                None => None,
            },
        },
    decreases a.len(),
{
    if a.len() == 0 {
        assert(a + c =~= c);
    } else {
        assert((a + c).drop_first() =~= a.drop_first() + c);
        lemma_find_concat(a.drop_first(), c, b);
    }
}

/// Relies on memchr::memchr: the index of the first occurrence of `needle` in
/// `haystack`, or `None` when the byte does not occur.
#[verifier::external_body]
fn memchr_first(needle: u8, haystack: &[u8]) -> (r: Option<usize>)
    ensures
        match r {
            Some(i) => i < haystack@.len() && haystack@[i as int] == needle && forall|j: int|
                0 <= j < i ==> haystack@[j] != needle,
            None => forall|j: int| 0 <= j < haystack@.len() ==> haystack@[j] != needle,
        },
{
    memchr::memchr(needle, haystack)
}

/// Finds the first occurrence of `needle` in `haystack`.
pub fn find_byte(needle: u8, haystack: &[u8]) -> (r: Option<usize>)
    ensures
        match r {
            Some(i) => find(haystack@, needle) == Some(i as nat),
            None => find(haystack@, needle) is None,
        },
{
    let r = memchr_first(needle, haystack);
    proof {
        lemma_find(haystack@, needle);
        match (r, find(haystack@, needle)) {
            (Some(i), Some(k)) => {
                if (i as nat) < k {
                    assert(haystack@[i as int] != needle);
                } else if k < (i as nat) {
                    assert(haystack@[k as int] != needle);
                }
            },
            (Some(i), None) => {
                assert(haystack@[i as int] != needle);
            },
            (None, Some(k)) => {
                assert(haystack@[k as int] != needle);
            },
            (None, None) => {},
        }
    }
    r
}

} // verus!
