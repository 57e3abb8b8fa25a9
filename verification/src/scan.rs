//! Finding the bracket that closes an open one, in the bytes of a program.
use vstd::prelude::*;

verus! {

/// Scanning `b` from index `k` (below `hi`) with `depth` brackets open: the
/// index of the `close` byte that brings the depth to zero. `None` when the
/// end `hi` comes first, or when a byte that is not ASCII comes first.
pub open spec fn match_from(b: Seq<u8>, hi: int, k: int, depth: nat, open: u8, close: u8) -> Option<int>
    decreases hi - k,
{
    if k >= hi || k < 0 || k >= b.len() {
        None
    } else if b[k] >= 128 {
        None
    } else if b[k] == open {
        match_from(b, hi, k + 1, depth + 1, open, close)
    } else if b[k] == close {
        if depth <= 1 {
            Some(k)
        } else {
            match_from(b, hi, k + 1, (depth - 1) as nat, open, close)
        }
    } else {
        match_from(b, hi, k + 1, depth, open, close)
    }
}

/// An optional index seen as an integer.
pub open spec fn opt_int(r: Option<usize>) -> Option<int> {
    match r {
        Some(j) => Some(j as int),
        None => None,
    }
}

/// A match lies in the scanned range and is a closing byte.
pub proof fn lemma_match_range(b: Seq<u8>, hi: int, k: int, depth: nat, open: u8, close: u8)
    requires
        match_from(b, hi, k, depth, open, close) is Some,
        open != close,
    ensures
        k <= match_from(b, hi, k, depth, open, close)->0 < hi,
        match_from(b, hi, k, depth, open, close)->0 < b.len(),
        b[match_from(b, hi, k, depth, open, close)->0] == close,
    decreases hi - k,
{
    if b[k] == open {
        lemma_match_range(b, hi, k + 1, depth + 1, open, close);
    } else if b[k] == close {
        if depth > 1 {
            lemma_match_range(b, hi, k + 1, (depth - 1) as nat, open, close);
        }
    } else {
        lemma_match_range(b, hi, k + 1, depth, open, close);
    }
}

/// A match found below `hi` is found the same below any `hi2` beyond it.
pub proof fn lemma_match_bound(b: Seq<u8>, hi: int, hi2: int, k: int, depth: nat, open: u8, close: u8)
    requires
        match_from(b, hi, k, depth, open, close) is Some,
        match_from(b, hi, k, depth, open, close)->0 < hi2,
        open != close,
    ensures
        match_from(b, hi2, k, depth, open, close) == match_from(b, hi, k, depth, open, close),
    decreases hi - k,
{
    lemma_match_range(b, hi, k, depth, open, close);
    if b[k] == open {
        lemma_match_bound(b, hi, hi2, k + 1, depth + 1, open, close);
    } else if b[k] == close {
        if depth > 1 {
            lemma_match_bound(b, hi, hi2, k + 1, (depth - 1) as nat, open, close);
        }
    } else {
        lemma_match_bound(b, hi, hi2, k + 1, depth, open, close);
    }
}

/// Closing `d + e` brackets first closes `d` of them, then `e` more.
pub proof fn lemma_match_split(b: Seq<u8>, hi: int, k: int, d: nat, e: nat, open: u8, close: u8)
    requires
        match_from(b, hi, k, d + e, open, close) is Some,
        d >= 1,
        e >= 1,
        open != close,
    ensures
        match_from(b, hi, k, d, open, close) is Some,
        match_from(b, hi, k, d, open, close)->0 < match_from(b, hi, k, d + e, open, close)->0,
        match_from(b, hi, match_from(b, hi, k, d, open, close)->0 + 1, e, open, close)
            == match_from(b, hi, k, d + e, open, close),
    decreases hi - k,
{
    let j = match_from(b, hi, k, d + e, open, close)->0;
    if b[k] == open {
        assert(d + e + 1 == (d + 1) + e);
        lemma_match_split(b, hi, k + 1, d + 1, e, open, close);
    } else if b[k] == close {
        if d == 1 {
            assert(match_from(b, hi, k + 1, e, open, close) == match_from(b, hi, k, d + e, open, close));
            lemma_match_range(b, hi, k + 1, e, open, close);
        } else {
            assert((d + e - 1) as nat == (d - 1) as nat + e);
            lemma_match_split(b, hi, k + 1, (d - 1) as nat, e, open, close);
        }
    } else {
        lemma_match_split(b, hi, k + 1, d, e, open, close);
    }
}

/// An opening bracket inside a matched range is itself matched within it.
pub proof fn lemma_match_nested(b: Seq<u8>, hi: int, k: int, depth: nat, p: int, open: u8, close: u8)
    requires
        match_from(b, hi, k, depth, open, close) is Some,
        depth >= 1,
        k <= p < match_from(b, hi, k, depth, open, close)->0,
        b[p] == open,
        open != close,
    ensures
        match_from(b, hi, p + 1, 1, open, close) is Some,
        match_from(b, hi, p + 1, 1, open, close)->0 < match_from(b, hi, k, depth, open, close)->0,
    decreases p - k,
{
    lemma_match_range(b, hi, k, depth, open, close);
    if k == p {
        assert(depth + 1 == 1 + depth);
        lemma_match_split(b, hi, k + 1, 1, depth, open, close);
    } else if b[k] == open {
        lemma_match_nested(b, hi, k + 1, depth + 1, p, open, close);
    } else if b[k] == close {
        lemma_match_nested(b, hi, k + 1, (depth - 1) as nat, p, open, close);
    } else {
        lemma_match_nested(b, hi, k + 1, depth, p, open, close);
    }
}

/// Scans `b` from `start` (below `hi`), one bracket open, for the closing
/// bracket that matches it.
pub fn find_match(b: &[u8], hi: usize, start: usize, open: u8, close: u8) -> (r: Option<usize>)
    requires
        hi <= b@.len(),
        1 <= start,
        open != close,
    ensures
        opt_int(r) == match_from(b@, hi as int, start as int, 1, open, close),
{
    let mut k: usize = start;
    let mut depth: usize = 1;
    while k < hi
        invariant
            hi <= b@.len(),
            1 <= start <= k,
            1 <= depth <= k - start + 1,
            match_from(b@, hi as int, start as int, 1, open, close) == match_from(
                b@,
                hi as int,
                k as int,
                depth as nat,
                open,
                close,
            ),
        decreases hi - k,
    {
        let c = b[k];
        if c >= 128 {
            return None;
        } else if c == open {
            depth += 1;
        } else if c == close {
            if depth <= 1 {
                return Some(k);
            }
            depth -= 1;
        }
        k += 1;
    }
    None
}

/// Scanning the bytes of a program from index `k` with `depth` brackets
/// open, where `skip` says that the byte at `k` follows a backtick and counts
/// for nothing: the index of the `close` byte that brings the depth to zero,
/// or `None` when the end of the program comes first. A backtick escapes the
/// byte after it, as it does when the program runs.
pub open spec fn scope_end(b: Seq<u8>, k: int, depth: nat, skip: bool, open: u8, close: u8) -> Option<int>
    decreases b.len() - k,
{
    if k < 0 || k >= b.len() {
        None
    } else if skip {
        scope_end(b, k + 1, depth, false, open, close)
    } else if b[k] == 96 {
        scope_end(b, k + 1, depth, true, open, close)
    } else if b[k] == open {
        scope_end(b, k + 1, depth + 1, false, open, close)
    } else if b[k] == close {
        if depth <= 1 {
            Some(k)
        } else {
            scope_end(b, k + 1, (depth - 1) as nat, false, open, close)
        }
    } else {
        scope_end(b, k + 1, depth, false, open, close)
    }
}

/// The end of a scope lies in the scanned range and is a closing byte.
pub proof fn lemma_scope_range(b: Seq<u8>, k: int, depth: nat, skip: bool, open: u8, close: u8)
    requires
        scope_end(b, k, depth, skip, open, close) is Some,
    ensures
        k <= scope_end(b, k, depth, skip, open, close)->0 < b.len(),
        b[scope_end(b, k, depth, skip, open, close)->0] == close,
    decreases b.len() - k,
{
    if skip {
        lemma_scope_range(b, k + 1, depth, false, open, close);
    } else if b[k] == 96 {
        lemma_scope_range(b, k + 1, depth, true, open, close);
    } else if b[k] == open {
        lemma_scope_range(b, k + 1, depth + 1, false, open, close);
    } else if b[k] == close {
        if depth > 1 {
            lemma_scope_range(b, k + 1, (depth - 1) as nat, false, open, close);
        }
    } else {
        lemma_scope_range(b, k + 1, depth, false, open, close);
    }
}

/// Scans the bytes `b` of a program from `start`, one bracket open, for the
/// bracket that closes it, passing over each byte that follows a backtick.
pub fn find_scope_end(b: &[u8], start: usize, open: u8, close: u8) -> (r: Option<usize>)
    requires
        1 <= start,
    ensures
        opt_int(r) == scope_end(b@, start as int, 1, false, open, close),
{
    let mut k: usize = start;
    let mut depth: usize = 1;
    let mut skip = false;
    while k < b.len()
        invariant
            1 <= start <= k,
            1 <= depth <= k - start + 1,
            scope_end(b@, start as int, 1, false, open, close) == scope_end(
                b@,
                k as int,
                depth as nat,
                skip,
                open,
                close,
            ),
        decreases b.len() - k,
    {
        let c = b[k];
        if skip {
            skip = false;
        } else if c == 96 {
            skip = true;
        } else if c == open {
            depth += 1;
        } else if c == close {
            if depth <= 1 {
                return Some(k);
            }
            depth -= 1;
        }
        k += 1;
    }
    None
}

/// Whether, reading `b` from `k0`, the byte at `i` follows a backtick that
/// is not itself escaped.
pub open spec fn escaped_from(b: Seq<u8>, k0: int, i: int) -> bool
    decreases i - k0,
{
    if i <= k0 {
        false
    } else {
        b[i - 1] == 96 && !escaped_from(b, k0, i - 1)
    }
}

/// The number of bytes `t`, not escaped, in `b[k0..i]`.
pub open spec fn count_from(b: Seq<u8>, k0: int, i: int, t: u8) -> nat
    decreases i - k0,
{
    if i <= k0 {
        0
    } else {
        count_from(b, k0, i - 1, t) + if !escaped_from(b, k0, i - 1) && b[i - 1] == t {
            1nat
        } else {
            0nat
        }
    }
}

/// The scan from `k` with `depth` brackets open, where the depth is what the
/// brackets of `b[k0..k]` leave.
proof fn lemma_scope_end_counts(b: Seq<u8>, k0: int, k: int, depth: nat, open: u8, close: u8)
    requires
        0 <= k0 <= k,
        open != close && open != 96 && close != 96,
        depth + count_from(b, k0, k, close) == 1 + count_from(b, k0, k, open),
        forall|i: int| k0 <= i <= k ==> #[trigger] count_from(b, k0, i, close) <= count_from(b, k0, i, open),
    ensures
        scope_end(b, k, depth, escaped_from(b, k0, k), open, close) matches Some(j) ==> {
            &&& k <= j < b.len()
            &&& b[j] == close
            &&& !escaped_from(b, k0, j)
            &&& count_from(b, k0, j, close) == count_from(b, k0, j, open)
            &&& forall|i: int| k0 <= i <= j ==> #[trigger] count_from(b, k0, i, close) <= count_from(b, k0, i, open)
        },
        scope_end(b, k, depth, escaped_from(b, k0, k), open, close) is None ==> forall|j: int|
            k <= j < b.len() && b[j] == close && !escaped_from(b, k0, j) ==> #[trigger] count_from(b, k0, j, close)
                != count_from(b, k0, j, open),
    decreases b.len() - k,
{
    if k >= b.len() {
        return;
    }
    let e = escaped_from(b, k0, k);
    assert(escaped_from(b, k0, k + 1) == (b[k] == 96 && !e));
    let nd: nat = if e {
        depth
    } else if b[k] == open {
        depth + 1
    } else if b[k] == close {
        if depth <= 1 {
            0
        } else {
            (depth - 1) as nat
        }
    } else {
        depth
    };
    if !e && b[k] == close && depth <= 1 {
        return;
    }
    assert forall|i: int| k0 <= i <= k + 1 implies #[trigger] count_from(b, k0, i, close) <= count_from(b, k0, i, open) by {
        if i <= k {
            assert(count_from(b, k0, i, close) <= count_from(b, k0, i, open));
        }
    }
    lemma_scope_end_counts(b, k0, k + 1, nd, open, close);
}

/// The bracket that closes a scope is the first closing byte, not escaped,
/// at which the closing bytes catch up with the opening ones: reading from
/// `k0` with one bracket open, `scope_end` finds a closing byte `j`, not
/// escaped, with as many opening as closing bytes before it and never more
/// closing than opening ones; and when it finds none, no such byte exists.
pub proof fn law_scope_end_is_first_balanced_close(b: Seq<u8>, k0: int, open: u8, close: u8)
    requires
        0 <= k0,
        open != close && open != 96 && close != 96,
    ensures
        scope_end(b, k0, 1, false, open, close) matches Some(j) ==> {
            &&& k0 <= j < b.len()
            &&& b[j] == close
            &&& !escaped_from(b, k0, j)
            &&& count_from(b, k0, j, close) == count_from(b, k0, j, open)
            &&& forall|i: int| k0 <= i <= j ==> #[trigger] count_from(b, k0, i, close) <= count_from(b, k0, i, open)
        },
        scope_end(b, k0, 1, false, open, close) is None ==> forall|j: int|
            k0 <= j < b.len() && b[j] == close && !escaped_from(b, k0, j) ==> #[trigger] count_from(b, k0, j, close)
                != count_from(b, k0, j, open),
{
    assert forall|i: int| k0 <= i <= k0 implies #[trigger] count_from(b, k0, i, close) <= count_from(b, k0, i, open) by {}
    lemma_scope_end_counts(b, k0, k0, 1, open, close);
}

} // verus!
