//! Character-level text helpers: the whitespace predicate used for
//! tokenization and a verified substring test.

use vstd::prelude::*;

verus! {

/// The Unicode `White_Space` characters, the ones `str::split_whitespace`
/// separates tokens on.
pub open spec fn is_space(c: char) -> bool {
    ||| c == ' '
    ||| (0x9 <= c as u32 && c as u32 <= 0xd)
    ||| c as u32 == 0x85
    ||| c as u32 == 0xa0
    ||| c as u32 == 0x1680
    ||| (0x2000 <= c as u32 && c as u32 <= 0x200a)
    ||| c as u32 == 0x2028
    ||| c as u32 == 0x2029
    ||| c as u32 == 0x202f
    ||| c as u32 == 0x205f
    ||| c as u32 == 0x3000
}

/// Decides `is_space` for one character.
pub fn char_is_space(c: char) -> (r: bool)
    ensures
        r == is_space(c),
{
    let n = c as u32;
    n == 0x20 || (0x9 <= n && n <= 0xd) || n == 0x85 || n == 0xa0 || n == 0x1680
        || (0x2000 <= n && n <= 0x200a) || n == 0x2028 || n == 0x2029 || n == 0x202f || n == 0x205f
        || n == 0x3000
}

/// Character sequences equal as values.
pub fn str_eq(a: &str, b: &str) -> (r: bool)
    ensures
        r == (a@ == b@),
{
    let alen = a.unicode_len();
    let blen = b.unicode_len();
    if alen != blen {
        proof {
            assert(a@ != b@);
        }
        return false;
    }
    let mut i: usize = 0;
    while i < alen
        invariant
            i <= alen,
            alen == a@.len(),
            alen == b@.len(),
            forall|k: int| 0 <= k < i ==> a@[k] == b@[k],
        decreases alen - i,
    {
        if a.get_char(i) != b.get_char(i) {
            return false;
        }
        i = i + 1;
    }
    proof {
        assert(a@ =~= b@);
    }
    true
}

/// `needle` occurs contiguously in `hay` starting at position `i`.
pub open spec fn occurs_at(hay: Seq<char>, needle: Seq<char>, i: int) -> bool {
    &&& 0 <= i
    &&& i + needle.len() <= hay.len()
    &&& hay.subrange(i, i + needle.len()) == needle
}

/// `needle` occurs contiguously somewhere in `hay`.
pub open spec fn contains_seq(hay: Seq<char>, needle: Seq<char>) -> bool {
    exists|i: int| occurs_at(hay, needle, i)
}

/// Case-sensitive substring containment, as `str::contains` decides it.
pub fn contains_str(hay: &str, needle: &str) -> (r: bool)
    ensures
        r == contains_seq(hay@, needle@),
{
    let hlen = hay.unicode_len();
    let nlen = needle.unicode_len();
    if nlen > hlen {
        proof {
            assert(forall|i: int| !occurs_at(hay@, needle@, i));
        }
        return false;
    }
    if nlen == 0 {
        proof {
            assert(hay@.subrange(0, 0) =~= needle@);
            assert(occurs_at(hay@, needle@, 0));
        }
        return true;
    }
    let mut start: usize = 0;
    while start <= hlen - nlen
        invariant
            1 <= nlen <= hlen,
            hlen == hay@.len(),
            nlen == needle@.len(),
            start <= hlen - nlen + 1,
            forall|i: int| 0 <= i < start ==> !occurs_at(hay@, needle@, i),
        decreases hlen - nlen + 1 - start,
    {
        let mut j: usize = 0;
        let mut all_match = true;
        while j < nlen
            invariant
                j <= nlen,
                nlen <= hlen,
                hlen == hay@.len(),
                nlen == needle@.len(),
                start + nlen <= hlen,
                all_match ==> forall|k: int| 0 <= k < j ==> hay@[start + k] == needle@[k],
                !all_match ==> !occurs_at(hay@, needle@, start as int),
            decreases nlen - j,
        {
            if hay.get_char(start + j) != needle.get_char(j) {
                proof {
                    assert(hay@.subrange(start as int, start + needle@.len())[j as int] == hay@[
                        start + j
                    ]);
                }
                all_match = false;
                j = nlen;
            } else {
                j = j + 1;
            }
        }
        if all_match {
            proof {
                assert(hay@.subrange(start as int, start + needle@.len()) =~= needle@);
                assert(occurs_at(hay@, needle@, start as int));
            }
            return true;
        }
        start = start + 1;
    }
    proof {
        assert forall|i: int| !occurs_at(hay@, needle@, i) by {
            if occurs_at(hay@, needle@, i) {
                assert(i <= hlen - nlen < start);
            }
        }
    }
    false
}

} // verus!
