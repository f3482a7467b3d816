//! Small verified helpers over `&str` and `String`: character-wise equality,
//! prefix/suffix tests, concatenation, and conversions used by the affix
//! engine and the distance algorithm.

use vstd::prelude::*;
use vstd::string::*;

verus! {

/// `p` is a prefix of `w`.
pub open spec fn is_prefix_of(p: Seq<char>, w: Seq<char>) -> bool {
    p.len() <= w.len() && w.subrange(0, p.len() as int) == p
}

/// `p` is a suffix of `w`.
pub open spec fn is_suffix_of(p: Seq<char>, w: Seq<char>) -> bool {
    p.len() <= w.len() && w.subrange(w.len() - p.len(), w.len() as int) == p
}

/// Character-wise equality of two string slices.
pub fn str_eq(a: &str, b: &str) -> (r: bool)
    ensures
        r == (a@ == b@),
{
    let a_len = a.unicode_len();
    let b_len = b.unicode_len();
    if a_len != b_len {
        return false;
    }
    let mut i: usize = 0;
    while i < a_len
        invariant
            a_len == a@.len(),
            b_len == b@.len(),
            a_len == b_len,
            i <= a_len,
            forall|k: int| 0 <= k < i ==> a@[k] == b@[k],
        decreases a_len - i,
    {
        if a.get_char(i) != b.get_char(i) {
            return false;
        }
        i = i + 1;
    }
    proof {
        assert(a@ =~= b@);
    }
    true
}

/// Whether `w` begins with `p`, comparing characters.
pub fn str_starts_with(w: &str, p: &str) -> (r: bool)
    ensures
        r == is_prefix_of(p@, w@),
{
    let w_len = w.unicode_len();
    let p_len = p.unicode_len();
    if p_len > w_len {
        return false;
    }
    let mut i: usize = 0;
    while i < p_len
        invariant
            w_len == w@.len(),
            p_len == p@.len(),
            p_len <= w_len,
            i <= p_len,
            forall|k: int| 0 <= k < i ==> w@[k] == p@[k],
        decreases p_len - i,
    {
        if w.get_char(i) != p.get_char(i) {
            proof {
                assert(w@.subrange(0, p@.len() as int)[i as int] == w@[i as int]);
            }
            return false;
        }
        i = i + 1;
    }
    proof {
        assert(w@.subrange(0, p@.len() as int) =~= p@);
    }
    true
}

/// Whether `w` ends with `p`, comparing characters.
pub fn str_ends_with(w: &str, p: &str) -> (r: bool)
    ensures
        r == is_suffix_of(p@, w@),
{
    let w_len = w.unicode_len();
    let p_len = p.unicode_len();
    if p_len > w_len {
        return false;
    }
    let off = w_len - p_len;
    let mut i: usize = 0;
    while i < p_len
        invariant
            w_len == w@.len(),
            p_len == p@.len(),
            p_len <= w_len,
            off == w_len - p_len,
            i <= p_len,
            forall|k: int| 0 <= k < i ==> w@[off + k] == p@[k],
        decreases p_len - i,
    {
        if w.get_char(off + i) != p.get_char(i) {
            proof {
                assert(w@.subrange(w@.len() - p@.len(), w@.len() as int)[i as int] == w@[off + i]);
            }
            return false;
        }
        i = i + 1;
    }
    proof {
        assert(w@.subrange(w@.len() - p@.len(), w@.len() as int) =~= p@);
    }
    true
}

/// Concatenation of two string slices into a fresh `String`.
pub fn concat_str(a: &str, b: &str) -> (r: String)
    ensures
        r@ == a@ + b@,
{
    let mut s = a.to_owned();
    s.append(b);
    s
}

/// The characters of `s` as a vector.
pub fn chars_of(s: &str) -> (r: Vec<char>)
    ensures
        r@ == s@,
{
    let n = s.unicode_len();
    let mut v: Vec<char> = Vec::new();
    let mut i: usize = 0;
    while i < n
        invariant
            n == s@.len(),
            i <= n,
            v@.len() == i,
            forall|k: int| 0 <= k < i ==> v@[k] == s@[k],
        decreases n - i,
    {
        v.push(s.get_char(i));
        i = i + 1;
    }
    proof {
        assert(v@ =~= s@);
    }
    v
}

/// An element-wise copy of a vector of strings.
pub fn clone_strings(v: &Vec<String>) -> (r: Vec<String>)
    ensures
        r@ == v@,
{
    let mut out: Vec<String> = Vec::new();
    let mut i: usize = 0;
    while i < v.len()
        invariant
            i <= v@.len(),
            out@.len() == i,
            forall|k: int| 0 <= k < i ==> out@[k] == v@[k],
        decreases v@.len() - i,
    {
        out.push(v[i].clone());
        i = i + 1;
    }
    proof {
        assert(out@ =~= v@);
    }
    out
}

} // verus!
