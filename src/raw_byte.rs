//! Substring and end-of-line search over byte slices.
use vstd::prelude::*;
use vstd::slice::slice_subrange;

pub mod error;

use error::Error;

verus! {

/// `target` occurs in `buffer` starting at index `i`.
pub open spec fn matches_at(buffer: Seq<u8>, target: Seq<u8>, i: int) -> bool {
    &&& 0 <= i
    &&& i + target.len() <= buffer.len()
    &&& forall|k: int| 0 <= k < target.len() ==> buffer[i + k] == target[k]
}

/// Some occurrence of `target` in `buffer` exists.
pub open spec fn occurs(buffer: Seq<u8>, target: Seq<u8>) -> bool {
    exists|i: int| matches_at(buffer, target, i)
}

/// `i` is the leftmost occurrence of `target` in `buffer`.
pub open spec fn is_first_match(buffer: Seq<u8>, target: Seq<u8>, i: int) -> bool {
    matches_at(buffer, target, i) && forall|j: int| 0 <= j < i ==> !matches_at(buffer, target, j)
}

/// `i` is the rightmost occurrence of `target` in `buffer`.
pub open spec fn is_last_match(buffer: Seq<u8>, target: Seq<u8>, i: int) -> bool {
    matches_at(buffer, target, i) && forall|j: int|
        i < j <= buffer.len() ==> !matches_at(buffer, target, j)
}

/// The leftmost occurrence is unique.
pub proof fn lemma_first_match_unique(buffer: Seq<u8>, target: Seq<u8>, i: int, j: int)
    requires
        is_first_match(buffer, target, i),
        is_first_match(buffer, target, j),
    ensures
        i == j,
{
}

/// The rightmost occurrence is unique.
pub proof fn lemma_last_match_unique(buffer: Seq<u8>, target: Seq<u8>, i: int, j: int)
    requires
        is_last_match(buffer, target, i),
        is_last_match(buffer, target, j),
    ensures
        i == j,
{
}

/// Carriage return or line feed.
pub open spec fn is_eol_byte(b: u8) -> bool {
    b == 10 || b == 13
}

/// `i` is the first end-of-line byte of `buffer`.
pub open spec fn is_first_eol(buffer: Seq<u8>, i: int) -> bool {
    &&& 0 <= i < buffer.len()
    &&& is_eol_byte(buffer[i])
    &&& forall|j: int| 0 <= j < i ==> !is_eol_byte(buffer[j])
}

/// The first end-of-line byte is unique.
pub proof fn lemma_first_eol_unique(buffer: Seq<u8>, i: int, j: int)
    requires
        is_first_eol(buffer, i),
        is_first_eol(buffer, j),
    ensures
        i == j,
{
}

/// Some end-of-line byte occurs in `buffer`.
pub open spec fn has_eol(buffer: Seq<u8>) -> bool {
    exists|i: int| 0 <= i < buffer.len() && is_eol_byte(buffer[i])
}

/// Width of the line boundary starting at `i`: a CR directly followed by LF
/// counts as one boundary of two bytes.
pub open spec fn eol_width(buffer: Seq<u8>, i: int) -> int {
    if buffer[i] == 13 && i + 1 < buffer.len() && buffer[i + 1] == 10 {
        2
    } else {
        1
    }
}

fn bytes_match_at(buffer: &[u8], target: &[u8], i: usize) -> (r: bool)
    requires
        i + target@.len() <= buffer@.len(),
    ensures
        r == matches_at(buffer@, target@, i as int),
{
    let n = buffer.len();
    let mut k: usize = 0;
    while k < target.len()
        invariant
            k <= target@.len(),
            n == buffer@.len(),
            i + target@.len() <= buffer@.len(),
            forall|m: int| 0 <= m < k ==> buffer@[i + m] == target@[m],
        decreases target@.len() - k,
    {
        if buffer[i + k] != target[k] {
            return false;
        }
        k += 1;
    }
    true
}

/// Index of the first occurrence of `target` in `buffer`; an empty target
/// occurs at 0.
pub fn first_match_index(buffer: &[u8], target: &[u8]) -> (r: Result<usize, Error>)
    ensures
        match r {
            Ok(i) => is_first_match(buffer@, target@, i as int) && i + target@.len() <= usize::MAX,
            Err(e) => !occurs(buffer@, target@) && (e matches Error::TargetNotFound(t)
                && t@ == target@),
        },
{
    let n = buffer.len();
    let m = target.len();
    if m <= n {
        let last = n - m;
        let mut i: usize = 0;
        loop
            invariant
                i <= last,
                last + m == n,
                n == buffer@.len(),
                m == target@.len(),
                forall|j: int| 0 <= j < i ==> !matches_at(buffer@, target@, j),
            ensures
                forall|j: int| 0 <= j <= last ==> !matches_at(buffer@, target@, j),
            decreases last - i,
        {
            if bytes_match_at(buffer, target, i) {
                return Ok(i);
            }
            if i == last {
                break;
            }
            i += 1;
        }
    }
    Err(Error::TargetNotFound(slice_to_vec_u8(target)))
}

/// Index of the last occurrence of `target` in `buffer`; an empty target
/// occurs at the end of the buffer.
pub fn last_match_index(buffer: &[u8], target: &[u8]) -> (r: Result<usize, Error>)
    ensures
        match r {
            Ok(i) => is_last_match(buffer@, target@, i as int) && i + target@.len() <= usize::MAX,
            Err(e) => !occurs(buffer@, target@) && (e matches Error::TargetNotFound(t)
                && t@ == target@),
        },
{
    let n = buffer.len();
    let m = target.len();
    if m <= n {
        let mut i: usize = n - m;
        loop
            invariant
                i + m <= n,
                n == buffer@.len(),
                m == target@.len(),
                forall|j: int| i < j <= n ==> !matches_at(buffer@, target@, j),
            ensures
                forall|j: int| 0 <= j <= n ==> !matches_at(buffer@, target@, j),
            decreases i,
        {
            if bytes_match_at(buffer, target, i) {
                return Ok(i);
            }
            if i == 0 {
                break;
            }
            i -= 1;
        }
    }
    Err(Error::TargetNotFound(slice_to_vec_u8(target)))
}

fn slice_to_vec_u8(s: &[u8]) -> (r: Vec<u8>)
    ensures
        r@ == s@,
{
    let mut v: Vec<u8> = Vec::new();
    let mut i: usize = 0;
    while i < s.len()
        invariant
            i <= s@.len(),
            v@ == s@.subrange(0, i as int),
        decreases s@.len() - i,
    {
        v.push(s[i]);
        i += 1;
        assert(v@ =~= s@.subrange(0, i as int));
    }
    assert(v@ =~= s@);
    v
}

/// Start and width of the first line boundary of `buffer` (CR, LF or CR-LF).
pub fn first_match_eol(buffer: &[u8]) -> (r: Option<(usize, usize)>)
    ensures
        match r {
            Some((i, n)) => is_first_eol(buffer@, i as int) && n == eol_width(buffer@, i as int),
            None => !has_eol(buffer@),
        },
{
    let mut i: usize = 0;
    while i < buffer.len()
        invariant
            i <= buffer@.len(),
            forall|j: int| 0 <= j < i ==> !is_eol_byte(buffer@[j]),
        decreases buffer@.len() - i,
    {
        let b = buffer[i];
        if b == 10 {
            return Some((i, 1));
        }
        if b == 13 {
            if i + 1 < buffer.len() && buffer[i + 1] == 10 {
                return Some((i, 2));
            }
            return Some((i, 1));
        }
        i += 1;
    }
    None
}

/// Whether a byte follows index `i` and `f` holds of it.
pub fn is_next_satisfy<F>(buffer: &[u8], i: usize, f: F) -> (r: bool) where F: Fn(u8) -> bool
    requires
        forall|b: u8| f.requires((b,)),
    ensures
        r ==> i + 1 < buffer@.len() && f.ensures((buffer@[i + 1],), true),
        !r ==> i + 1 >= buffer@.len() || f.ensures((buffer@[i + 1],), false),
{
    if i >= buffer.len() || buffer.len() - 1 <= i {
        false
    } else {
        f(buffer[i + 1])
    }
}

/// What follows the first line boundary.
pub fn extract_after_eol(buffer: &[u8]) -> (r: Option<&[u8]>)
    ensures
        match r {
            Some(s) => exists|i: int|
                is_first_eol(buffer@, i) && s@ == buffer@.subrange(
                    i + eol_width(buffer@, i),
                    buffer@.len() as int,
                ),
            None => !has_eol(buffer@),
        },
{
    match first_match_eol(buffer) {
        Some((eol_i, eol_size)) => {
            let n = buffer.len();
            Some(slice_subrange(buffer, eol_i + eol_size, n))
        },
        None => None,
    }
}

/// What precedes the first line boundary.
pub fn cut_after_eol(buffer: &[u8]) -> (r: Option<&[u8]>)
    ensures
        match r {
            Some(s) => exists|i: int| is_first_eol(buffer@, i) && s@ == buffer@.subrange(0, i),
            None => !has_eol(buffer@),
        },
{
    match first_match_eol(buffer) {
        Some((eol_i, _)) => Some(slice_subrange(buffer, 0, eol_i)),
        None => None,
    }
}

/// The first line boundary and what follows it.
pub fn extract_from_eol(buffer: &[u8]) -> (r: Option<&[u8]>)
    ensures
        match r {
            Some(s) => exists|i: int|
                is_first_eol(buffer@, i) && s@ == buffer@.subrange(i, buffer@.len() as int),
            None => !has_eol(buffer@),
        },
{
    match first_match_eol(buffer) {
        Some((eol_i, _)) => Some(slice_subrange(buffer, eol_i, buffer.len())),
        None => None,
    }
}

/// The buffer from the first occurrence of `target` on.
pub fn extract_from<'a>(buffer: &'a [u8], target: &[u8]) -> (r: Option<&'a [u8]>)
    ensures
        match r {
            Some(s) => exists|i: int|
                is_first_match(buffer@, target@, i) && s@ == buffer@.subrange(
                    i,
                    buffer@.len() as int,
                ),
            None => !occurs(buffer@, target@),
        },
{
    match first_match_index(buffer, target) {
        Ok(i) => Some(slice_subrange(buffer, i, buffer.len())),
        Err(_) => None,
    }
}

/// The buffer before the first occurrence of `target`.
pub fn cut_from<'a>(buffer: &'a [u8], target: &[u8]) -> (r: Option<&'a [u8]>)
    ensures
        match r {
            Some(s) => exists|i: int|
                is_first_match(buffer@, target@, i) && s@ == buffer@.subrange(0, i),
            None => !occurs(buffer@, target@),
        },
{
    match first_match_index(buffer, target) {
        Ok(i) => Some(slice_subrange(buffer, 0, i)),
        Err(_) => None,
    }
}

/// The buffer after the first occurrence of `target`.
pub fn extract_after<'a>(buffer: &'a [u8], target: &[u8]) -> (r: Option<&'a [u8]>)
    ensures
        match r {
            Some(s) => exists|i: int|
                is_first_match(buffer@, target@, i) && s@ == buffer@.subrange(
                    i + target@.len(),
                    buffer@.len() as int,
                ),
            None => !occurs(buffer@, target@),
        },
{
    match first_match_index(buffer, target) {
        Ok(i) => Some(slice_subrange(buffer, i + target.len(), buffer.len())),
        Err(_) => None,
    }
}

/// The buffer up to the end of the first occurrence of `target`.
pub fn cut_after<'a>(buffer: &'a [u8], target: &[u8]) -> (r: Option<&'a [u8]>)
    ensures
        match r {
            Some(s) => exists|i: int|
                is_first_match(buffer@, target@, i) && s@ == buffer@.subrange(
                    0,
                    i + target@.len(),
                ),
            None => !occurs(buffer@, target@),
        },
{
    match first_match_index(buffer, target) {
        Ok(i) => Some(slice_subrange(buffer, 0, i + target.len())),
        Err(_) => None,
    }
}

/// The buffer from the last occurrence of `target` on.
pub fn extract_tail_from<'a>(buffer: &'a [u8], target: &[u8]) -> (r: Option<&'a [u8]>)
    ensures
        match r {
            Some(s) => exists|i: int|
                is_last_match(buffer@, target@, i) && s@ == buffer@.subrange(
                    i,
                    buffer@.len() as int,
                ),
            None => !occurs(buffer@, target@),
        },
{
    match last_match_index(buffer, target) {
        Ok(i) => Some(slice_subrange(buffer, i, buffer.len())),
        Err(_) => None,
    }
}

/// The buffer before the last occurrence of `target`.
pub fn cut_tail_from<'a>(buffer: &'a [u8], target: &[u8]) -> (r: Option<&'a [u8]>)
    ensures
        match r {
            Some(s) => exists|i: int|
                is_last_match(buffer@, target@, i) && s@ == buffer@.subrange(0, i),
            None => !occurs(buffer@, target@),
        },
{
    match last_match_index(buffer, target) {
        Ok(i) => Some(slice_subrange(buffer, 0, i)),
        Err(_) => None,
    }
}

/// The buffer after the last occurrence of `target`.
pub fn extract_tail_after<'a>(buffer: &'a [u8], target: &[u8]) -> (r: Option<&'a [u8]>)
    ensures
        match r {
            Some(s) => exists|i: int|
                is_last_match(buffer@, target@, i) && s@ == buffer@.subrange(
                    i + target@.len(),
                    buffer@.len() as int,
                ),
            None => !occurs(buffer@, target@),
        },
{
    match last_match_index(buffer, target) {
        Ok(i) => Some(slice_subrange(buffer, i + target.len(), buffer.len())),
        Err(_) => None,
    }
}

/// The buffer up to the end of the last occurrence of `target`.
pub fn cut_tail_after<'a>(buffer: &'a [u8], target: &[u8]) -> (r: Option<&'a [u8]>)
    ensures
        match r {
            Some(s) => exists|i: int|
                is_last_match(buffer@, target@, i) && s@ == buffer@.subrange(
                    0,
                    i + target@.len(),
                ),
            None => !occurs(buffer@, target@),
        },
{
    match last_match_index(buffer, target) {
        Ok(i) => Some(slice_subrange(buffer, 0, i + target.len())),
        Err(_) => None,
    }
}

} // verus!
