//! Byte-level helpers shared by the record format and the engines.
//!
//! A record key or value is a sequence of bytes that contains neither the
//! field separator (tab) nor the record terminator (newline).

use vstd::prelude::*;

verus! {

/// The byte separating the key field from the value field of a record.
pub const TAB: u8 = 9;

/// The byte terminating every record.
pub const LF: u8 = 10;

/// A key may be stored iff it embeds no separator and no terminator.
pub open spec fn valid_key(k: Seq<u8>) -> bool {
    !k.contains(TAB) && !k.contains(LF)
}

/// Index of the first occurrence of `b` in `s`, or -1 if `b` does not occur.
pub open spec fn find_byte(s: Seq<u8>, b: u8) -> int
    decreases s.len(),
{
    if s.len() == 0 {
        -1
    } else if s[0] == b {
        0
    } else if find_byte(s.skip(1), b) == -1 {
        -1
    } else {
        1 + find_byte(s.skip(1), b)
    }
}

/// `find_byte` returns -1 exactly when the byte is absent, and otherwise
/// the least index holding the byte.
pub proof fn lemma_find_byte(s: Seq<u8>, b: u8)
    ensures
        find_byte(s, b) == -1 <==> !s.contains(b),
        s.contains(b) ==> {
            let i = find_byte(s, b);
            &&& 0 <= i < s.len()
            &&& s[i] == b
            &&& forall|j: int| 0 <= j < i ==> s[j] != b
        },
    decreases s.len(),
{
    if s.len() == 0 {
        assert(!s.contains(b));
    } else if s[0] == b {
        assert(s.contains(b));
    } else {
        lemma_find_byte(s.skip(1), b);
        let t = s.skip(1);
        assert forall|j: int| 0 <= j < t.len() implies t[j] == s[j + 1] by {}
        if s.contains(b) {
            let w = choose|w: int| 0 <= w < s.len() && s[w] == b;
            assert(t[w - 1] == b);
            assert(t.contains(b));
            let i = 1 + find_byte(t, b);
            assert(s[i] == t[i - 1]);
            assert forall|j: int| 0 <= j < i implies s[j] != b by {
                if j > 0 {
                    assert(s[j] == t[j - 1]);
                }
            }
        } else {
            if t.contains(b) {
                let w = choose|w: int| 0 <= w < t.len() && t[w] == b;
                assert(s[w + 1] == b);
                assert(s.contains(b));
            }
        }
    }
}

/// Prepending bytes free of `b` shifts the first occurrence of `b`.
pub proof fn lemma_find_byte_append(a: Seq<u8>, c: Seq<u8>, b: u8)
    requires
        !a.contains(b),
    ensures
        c.contains(b) ==> find_byte(a + c, b) == a.len() + find_byte(c, b),
        !c.contains(b) ==> find_byte(a + c, b) == -1,
    decreases a.len(),
{
    if a.len() == 0 {
        assert(a + c =~= c);
        lemma_find_byte(c, b);
    } else {
        assert(a[0] != b) by {
            assert(a.contains(b) <== a[0] == b);
        }
        assert(!a.skip(1).contains(b)) by {
            if a.skip(1).contains(b) {
                let w = choose|w: int| 0 <= w < a.skip(1).len() && a.skip(1)[w] == b;
                assert(a[w + 1] == b);
            }
        }
        lemma_find_byte_append(a.skip(1), c, b);
        assert((a + c).skip(1) =~= a.skip(1) + c);
        lemma_find_byte(c, b);
        lemma_find_byte(a.skip(1) + c, b);
        assert((a + c)[0] == a[0]);
    }
}

/// Whether `v` contains the byte `b`.
pub fn contains_byte(v: &Vec<u8>, b: u8) -> (r: bool)
    ensures
        r <==> v@.contains(b),
{
    let mut i: usize = 0;
    while i < v.len()
        invariant
            i <= v.len(),
            forall|j: int| 0 <= j < i ==> v@[j] != b,
        decreases v.len() - i,
    {
        if v[i] == b {
            return true;
        }
        i = i + 1;
    }
    false
}

/// Whether two byte vectors hold the same bytes.
pub fn bytes_eq(a: &Vec<u8>, b: &Vec<u8>) -> (r: bool)
    ensures
        r <==> a@ == b@,
{
    if a.len() != b.len() {
        return false;
    }
    let mut i: usize = 0;
    while i < a.len()
        invariant
            a.len() == b.len(),
            i <= a.len(),
            forall|j: int| 0 <= j < i ==> a@[j] == b@[j],
        decreases a.len() - i,
    {
        if a[i] != b[i] {
            return false;
        }
        i = i + 1;
    }
    proof {
        assert(a@ =~= b@);
    }
    true
}

} // verus!
