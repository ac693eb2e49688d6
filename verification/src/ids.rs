//! Asset identifiers.
//!
//! An asset id is an opaque byte string.  The variant form
//! `base#window` does not denote a stored asset of its own: it asks
//! for the smoothed price of `base` over a horizon of `window`
//! seconds, where `window` is the decimal number after the first `#`.
//! An id whose window part is empty, non-numeric or too large for a
//! `u32` requests no window at all.

use vstd::prelude::*;

verus! {

pub const HASH_BYTE: u8 = 35;

pub open spec fn is_first_hash(s: Seq<u8>, i: int) -> bool {
    &&& 0 <= i < s.len()
    &&& s[i] == HASH_BYTE
    &&& forall|j: int| 0 <= j < i ==> s[j] != HASH_BYTE
}

pub open spec fn has_hash(s: Seq<u8>) -> bool {
    exists|i: int| is_first_hash(s, i)
}

pub open spec fn hash_pos(s: Seq<u8>) -> int {
    choose|i: int| is_first_hash(s, i)
}

/// The stored asset an id speaks of: the part before the first `#`,
/// or the whole id when there is none.
pub open spec fn base_id(s: Seq<u8>) -> Seq<u8> {
    if has_hash(s) {
        s.take(hash_pos(s))
    } else {
        s
    }
}

pub open spec fn is_digit(b: u8) -> bool {
    48 <= b <= 57
}

pub open spec fn all_digits(s: Seq<u8>) -> bool {
    forall|i: int| 0 <= i < s.len() ==> is_digit(#[trigger] s[i])
}

/// The value of a decimal digit string, most significant first.
pub open spec fn dec_val(s: Seq<u8>) -> int
    decreases s.len(),
{
    if s.len() == 0 {
        0
    } else {
        dec_val(s.drop_last()) * 10 + (s.last() - 48)
    }
}

pub open spec fn parse_window(s: Seq<u8>) -> Option<u32> {
    if s.len() > 0 && all_digits(s) && dec_val(s) <= u32::MAX {
        Some(dec_val(s) as u32)
    } else {
        None
    }
}

/// The window an id requests, if any.
pub open spec fn window_req(s: Seq<u8>) -> Option<u32> {
    if has_hash(s) {
        parse_window(s.skip(hash_pos(s) + 1))
    } else {
        None
    }
}

pub proof fn lemma_first_hash_unique(s: Seq<u8>, i: int)
    requires
        is_first_hash(s, i),
    ensures
        has_hash(s),
        hash_pos(s) == i,
{
    let j = hash_pos(s);
    assert(is_first_hash(s, j));
    if j < i {
        assert(s[j] != HASH_BYTE);
    }
    if i < j {
        assert(s[i] != HASH_BYTE);
    }
}

pub proof fn lemma_dec_val_nonneg(s: Seq<u8>)
    requires
        all_digits(s),
    ensures
        dec_val(s) >= 0,
    decreases s.len(),
{
    if s.len() > 0 {
        assert(all_digits(s.drop_last())) by {
            assert(forall|i: int| 0 <= i < s.len() - 1 ==> s.drop_last()[i] == s[i]);
        }
        lemma_dec_val_nonneg(s.drop_last());
    }
}

/// A digit string is worth at least any of its prefixes.
pub proof fn lemma_dec_val_prefix(s: Seq<u8>, k: int)
    requires
        all_digits(s),
        0 <= k <= s.len(),
    ensures
        dec_val(s) >= dec_val(s.take(k)),
    decreases s.len() - k,
{
    if k == s.len() {
        assert(s.take(k) =~= s);
    } else {
        assert(s.take(k + 1).drop_last() =~= s.take(k));
        assert(s.take(k + 1).last() == s[k]);
        assert(all_digits(s.take(k))) by {
            assert(forall|i: int| 0 <= i < k ==> s.take(k)[i] == s[i]);
        }
        lemma_dec_val_nonneg(s.take(k));
        assert(dec_val(s.take(k + 1)) == dec_val(s.take(k)) * 10 + (s[k] - 48));
        lemma_dec_val_prefix(s, k + 1);
    }
}

pub fn bytes_eq(a: &Vec<u8>, b: &Vec<u8>) -> (r: bool)
    ensures
        r == (a@ == b@),
{
    if a.len() != b.len() {
        return false;
    }
    let mut i: usize = 0;
    while i < a.len()
        invariant
            i <= a.len() == b.len(),
            forall|j: int| 0 <= j < i ==> a@[j] == b@[j],
        decreases a.len() - i,
    {
        if a[i] != b[i] {
            return false;
        }
        i = i + 1;
    }
    proof {
        assert(a@ =~= b@);
    }
    true
}

pub fn clone_bytes(v: &Vec<u8>) -> (r: Vec<u8>)
    ensures
        r@ == v@,
{
    let mut r: Vec<u8> = Vec::new();
    let mut i: usize = 0;
    while i < v.len()
        invariant
            i <= v.len(),
            r@ == v@.take(i as int),
        decreases v.len() - i,
    {
        r.push(v[i]);
        proof {
            assert(v@.take(i + 1 as int) =~= v@.take(i as int).push(v@[i as int]));
        }
        i = i + 1;
    }
    proof {
        assert(v@.take(v@.len() as int) =~= v@);
    }
    r
}

fn find_hash(id: &Vec<u8>) -> (r: Option<usize>)
    ensures
        match r {
            Some(i) => is_first_hash(id@, i as int),
            None => !has_hash(id@),
        },
{
    let mut i: usize = 0;
    while i < id.len()
        invariant
            i <= id.len(),
            forall|j: int| 0 <= j < i ==> id@[j] != HASH_BYTE,
        decreases id.len() - i,
    {
        if id[i] == HASH_BYTE {
            return Some(i);
        }
        i = i + 1;
    }
    proof {
        assert forall|k: int| !is_first_hash(id@, k) by {}
    }
    None
}

fn copy_prefix(v: &Vec<u8>, n: usize) -> (r: Vec<u8>)
    requires
        n <= v.len(),
    ensures
        r@ == v@.take(n as int),
{
    let mut r: Vec<u8> = Vec::new();
    let mut i: usize = 0;
    while i < n
        invariant
            i <= n <= v.len(),
            r@ == v@.take(i as int),
        decreases n - i,
    {
        r.push(v[i]);
        proof {
            assert(v@.take(i + 1 as int) =~= v@.take(i as int).push(v@[i as int]));
        }
        i = i + 1;
    }
    r
}

fn parse_window_from(v: &Vec<u8>, start: usize) -> (r: Option<u32>)
    requires
        start <= v.len(),
    ensures
        r == parse_window(v@.skip(start as int)),
{
    let ghost part = v@.skip(start as int);
    if start == v.len() {
        proof {
            assert(part.len() == 0);
        }
        return None;
    }
    let mut acc: u64 = 0;
    let mut k: usize = start;
    while k < v.len()
        invariant
            start <= k <= v.len(),
            part == v@.skip(start as int),
            acc == dec_val(part.take(k - start)),
            acc <= u32::MAX,
            all_digits(part.take(k - start)),
        decreases v.len() - k,
    {
        let b = v[k];
        proof {
            assert(part[k - start] == v@[k as int]);
            assert(part.take(k - start + 1).drop_last() =~= part.take(k - start));
            assert(part.take(k - start + 1).last() == part[k - start]);
        }
        if b < 48 || b > 57 {
            proof {
                assert(!is_digit(part[k - start]));
            }
            return None;
        }
        let next: u64 = acc * 10 + ((b - 48) as u64);
        proof {
            assert(all_digits(part.take(k - start + 1))) by {
                assert(forall|i: int|
                    0 <= i < k - start ==> #[trigger] part.take(k - start + 1)[i] == part.take(
                        k - start,
                    )[i]);
            }
        }
        if next > u32::MAX as u64 {
            proof {
                if all_digits(part) {
                    lemma_dec_val_prefix(part, k - start + 1);
                }
            }
            return None;
        }
        acc = next;
        k = k + 1;
    }
    proof {
        assert(part.take(v@.len() - start) =~= part);
    }
    Some(acc as u32)
}

/// Splits an id into the stored asset it speaks of, the window it
/// requests (if any), and whether it is of the `base#window` form.
pub fn parse_asset_id(id: &Vec<u8>) -> (r: (Vec<u8>, Option<u32>, bool))
    ensures
        r.0@ == base_id(id@),
        r.1 == window_req(id@),
        r.2 == has_hash(id@),
{
    match find_hash(id) {
        Some(i) => {
            let n = id.len();
            proof {
                lemma_first_hash_unique(id@, i as int);
                assert(i < n);
            }
            let base = copy_prefix(id, i);
            let w = parse_window_from(id, i + 1);
            (base, w, true)
        },
        None => (clone_bytes(id), None, false),
    }
}

} // verus!
