//! Path sanitization: the last line of defense against directory traversal
//! and control-character injection from archive content.
//!
//! An untrusted relative path from the archive is cleaned in four steps, in
//! order: (a) leading and trailing bytes from a fixed set (null, space,
//! newline, tab, carriage return, slash, dot) are trimmed, which also strips
//! any number of leading `../`-style prefixes; (b) backslashes are normalized
//! to forward slashes; (c) the path is rejected if its directory part (the
//! bytes before the last slash) contains `..` anywhere; (d) the result is
//! truncated at the first raw null, newline or carriage return, discarding
//! the remainder. Absolute-path prefixes and symlink escapes are not
//! rejected here; that is a known open gap.
//!
//! Paths are handled as raw bytes: the bytes the sanitizer inspects are all
//! ASCII, so this agrees with a character-level reading on UTF-8 input and
//! stays well-defined on input that is not UTF-8.

use vstd::prelude::*;

use crate::write_ops::{AssetWriteError, WriteErrorKind};

verus! {

/// Bytes trimmed from both ends of a path: null, space, newline, tab,
/// carriage return, slash, dot.
pub open spec fn is_trim_byte(b: u8) -> bool {
    b == 0u8 || b == 32u8 || b == 10u8 || b == 9u8 || b == 13u8 || b == 47u8 || b == 46u8
}

/// Bytes at which a path is cut off: null, newline, carriage return.
pub open spec fn is_terminator_byte(b: u8) -> bool {
    b == 0u8 || b == 10u8 || b == 13u8
}

/// Backslash becomes slash; every other byte is kept.
pub open spec fn norm_byte(b: u8) -> u8 {
    if b == 92u8 {
        47u8
    } else {
        b
    }
}

/// `s` without its leading trim bytes.
pub open spec fn trim_start(s: Seq<u8>) -> Seq<u8>
    decreases s.len(),
{
    if s.len() == 0 {
        s
    } else if is_trim_byte(s[0]) {
        trim_start(s.subrange(1, s.len() as int))
    } else {
        s
    }
}

/// `s` without its trailing trim bytes.
pub open spec fn trim_end(s: Seq<u8>) -> Seq<u8>
    decreases s.len(),
{
    if s.len() == 0 {
        s
    } else if is_trim_byte(s[s.len() - 1]) {
        trim_end(s.subrange(0, s.len() - 1))
    } else {
        s
    }
}

/// `s` without leading and trailing trim bytes.
pub open spec fn trimmed(s: Seq<u8>) -> Seq<u8> {
    trim_end(trim_start(s))
}

/// `s` with every backslash replaced by a slash.
pub open spec fn normalized(s: Seq<u8>) -> Seq<u8> {
    Seq::new(s.len(), |i: int| norm_byte(s[i]))
}

/// Two consecutive dots stand somewhere before a later slash: `..` occurs in
/// the directory part (the bytes before the last slash) of `s`.
pub open spec fn dir_has_traversal(s: Seq<u8>) -> bool {
    exists|i: int, m: int|
        0 <= i && i + 1 < m && m < s.len() && #[trigger] s[i] == 46u8 && s[i + 1] == 46u8
            && #[trigger] s[m] == 47u8
}

/// Index of the first terminator byte in `s`, or `s.len()` if there is none.
pub open spec fn first_terminator(s: Seq<u8>) -> int
    decreases s.len(),
{
    if s.len() == 0 {
        0
    } else if is_terminator_byte(s[0]) {
        0
    } else {
        1 + first_terminator(s.subrange(1, s.len() as int))
    }
}

/// What sanitization returns on `s`: the trimmed, slash-normalized path cut
/// at its first terminator byte, or nothing when the directory part of the
/// trimmed, normalized path contains `..`.
pub open spec fn sanitize_spec(s: Seq<u8>) -> Option<Seq<u8>> {
    let t = normalized(trimmed(s));
    if dir_has_traversal(t) {
        None
    } else {
        Some(t.subrange(0, first_terminator(t)))
    }
}

pub proof fn lemma_first_terminator_props(s: Seq<u8>)
    ensures
        0 <= first_terminator(s) <= s.len(),
        forall|k: int| 0 <= k < first_terminator(s) ==> !is_terminator_byte(#[trigger] s[k]),
        first_terminator(s) < s.len() ==> is_terminator_byte(s[first_terminator(s)]),
    decreases s.len(),
{
    if s.len() == 0 {
    } else if is_terminator_byte(s[0]) {
    } else {
        let sub = s.subrange(1, s.len() as int);
        lemma_first_terminator_props(sub);
        assert forall|k: int| 0 <= k < first_terminator(s) implies !is_terminator_byte(
            #[trigger] s[k],
        ) by {
            if k > 0 {
                assert(s[k] == sub[k - 1]);
            }
        }
        if first_terminator(s) < s.len() {
            assert(s[first_terminator(s)] == sub[first_terminator(s) - 1]);
        }
    }
}

/// An accepted result is free of `..` traversal in its directory part and of
/// embedded terminator bytes.
pub proof fn lemma_sanitize_output_clean(s: Seq<u8>, t: Seq<u8>)
    requires
        sanitize_spec(s) == Some(t),
    ensures
        !dir_has_traversal(t),
        forall|k: int| 0 <= k < t.len() ==> !is_terminator_byte(#[trigger] t[k]),
{
    let u = normalized(trimmed(s));
    lemma_first_terminator_props(u);
    assert(t == u.subrange(0, first_terminator(u)));
    assert forall|k: int| 0 <= k < t.len() implies !is_terminator_byte(#[trigger] t[k]) by {
        assert(t[k] == u[k]);
    }
    if dir_has_traversal(t) {
        let (i, m): (int, int) = choose|i: int, m: int|
            0 <= i && i + 1 < m && m < t.len() && #[trigger] t[i] == 46u8 && t[i + 1] == 46u8
                && #[trigger] t[m] == 47u8;
        assert(u[i] == 46u8 && u[i + 1] == 46u8 && u[m] == 47u8);
        assert(dir_has_traversal(u));
        assert(false);
    }
}

/// Sanitizing an already-accepted result accepts it and returns it unchanged,
/// provided the cut at the first terminator byte did not expose a new
/// trimmable tail: `trimmed(t) == t` states exactly that, and is also
/// necessary, since a result with a trimmable end cannot sanitize to itself.
pub proof fn lemma_sanitize_idempotent(s: Seq<u8>, t: Seq<u8>)
    requires
        sanitize_spec(s) == Some(t),
        trimmed(t) == t,
    ensures
        sanitize_spec(t) == Some(t),
{
    let u = normalized(trimmed(s));
    lemma_first_terminator_props(u);
    assert(t == u.subrange(0, first_terminator(u)));
    lemma_sanitize_output_clean(s, t);

    // No byte of `t` is a backslash, so normalizing `t` changes nothing.
    assert forall|k: int| 0 <= k < t.len() implies normalized(t)[k] == t[k] by {
        assert(t[k] == u[k]);
        assert(u[k] == norm_byte(trimmed(s)[k]));
    }
    assert(normalized(t) =~= t);
    assert(normalized(trimmed(t)) == t);

    // `t` holds no terminator byte, so the cut keeps all of it.
    lemma_first_terminator_props(t);
    assert(first_terminator(t) == t.len());
    assert(t.subrange(0, t.len() as int) =~= t);
}

fn is_trim_byte_exec(b: u8) -> (r: bool)
    ensures
        r == is_trim_byte(b),
{
    b == 0 || b == 32 || b == 10 || b == 9 || b == 13 || b == 47 || b == 46
}

fn is_terminator_byte_exec(b: u8) -> (r: bool)
    ensures
        r == is_terminator_byte(b),
{
    b == 0 || b == 10 || b == 13
}

/// Turn an untrusted relative path into a safe relative path, or reject it.
///
/// On success the result is exactly the path that `sanitize_spec` describes:
/// free of `..` traversal in its directory part and of embedded terminator
/// bytes. The error carries the offending path unchanged.
#[verifier::rlimit(60)]
pub fn sanitize_path(path: &[u8]) -> (r: Result<Vec<u8>, AssetWriteError>)
    ensures
        match r {
            Ok(out) => sanitize_spec(path@) == Some(out@),
            Err(e) => sanitize_spec(path@) is None && e.path@ == path@ && e.kind
                == WriteErrorKind::InvalidPath,
        },
{
    let n = path.len();
    proof {
        assert(path@.subrange(0, n as int) =~= path@);
    }

    // Step (a): trim both ends.
    let mut i: usize = 0;
    while i < n && is_trim_byte_exec(path[i])
        invariant
            0 <= i <= n,
            n == path@.len(),
            trim_start(path@) == trim_start(path@.subrange(i as int, n as int)),
        decreases n - i,
    {
        proof {
            let sub = path@.subrange(i as int, n as int);
            assert(sub.subrange(1, sub.len() as int) =~= path@.subrange(i + 1, n as int));
        }
        i += 1;
    }
    proof {
        let sub = path@.subrange(i as int, n as int);
        assert(trim_start(path@) == sub);
    }

    let mut j: usize = n;
    while j > i && is_trim_byte_exec(path[j - 1])
        invariant
            i <= j <= n,
            n == path@.len(),
            trim_start(path@) == path@.subrange(i as int, n as int),
            trimmed(path@) == trim_end(path@.subrange(i as int, j as int)),
        decreases j,
    {
        proof {
            let sub = path@.subrange(i as int, j as int);
            assert(sub.subrange(0, sub.len() - 1) =~= path@.subrange(i as int, j - 1));
        }
        j -= 1;
    }
    proof {
        assert(trimmed(path@) == path@.subrange(i as int, j as int));
    }

    // Step (b): normalize backslashes while copying the trimmed range.
    let mut out: Vec<u8> = Vec::new();
    let mut k: usize = i;
    while k < j
        invariant
            i <= k <= j <= n,
            n == path@.len(),
            out@.len() == k - i,
            forall|t: int| 0 <= t < out@.len() ==> out@[t] == norm_byte(path@[i + t]),
        decreases j - k,
    {
        let b = path[k];
        if b == 92 {
            out.push(47);
        } else {
            out.push(b);
        }
        k += 1;
    }
    proof {
        assert(out@ =~= normalized(trimmed(path@)));
    }

    let len = out.len();

    // Step (c): reject `..` anywhere in the directory part.
    let mut last_slash: usize = len;  // `len` means: no slash found
    let mut p: usize = len;
    while p > 0
        invariant
            0 <= p <= len,
            len == out@.len(),
            last_slash <= len,
            last_slash == len ==> forall|q: int| p <= q < len ==> out@[q] != 47u8,
            last_slash < len ==> p <= last_slash && out@[last_slash as int] == 47u8,
            last_slash < len ==> forall|q: int| last_slash < q < len ==> out@[q] != 47u8,
        decreases p,
    {
        p -= 1;
        if last_slash == len && out[p] == 47 {
            last_slash = p;
        }
    }

    if last_slash < len {
        // The directory part is out[0 .. last_slash].
        let mut q: usize = 0;
        while q + 1 < last_slash
            invariant
                0 <= q <= last_slash,
                out@ == normalized(trimmed(path@)),
                last_slash < len,
                len == out@.len(),
                out@[last_slash as int] == 47u8,
                forall|t: int| last_slash < t < len ==> out@[t] != 47u8,
                forall|t: int| 0 <= t < q ==> !(#[trigger] out@[t] == 46u8 && out@[t + 1] == 46u8),
            decreases last_slash - q,
        {
            if out[q] == 46 && out[q + 1] == 46 {
                proof {
                    let ls = last_slash as int;
                    assert(out@[q as int] == 46u8 && out@[q as int + 1] == 46u8 && out@[ls]
                        == 47u8);
                    assert(dir_has_traversal(out@));
                }
                return Err(AssetWriteError {
                    path: vstd::slice::slice_to_vec(path),
                    kind: WriteErrorKind::InvalidPath,
                });
            }
            q += 1;
        }
        proof {
            assert forall|ii: int, m: int|
                0 <= ii && ii + 1 < m && m < out@.len() && #[trigger] out@[m] == 47u8 implies !(
            #[trigger] out@[ii] == 46u8 && out@[ii + 1] == 46u8) by {
                assert(m <= last_slash);
                assert(ii < q);
            }
            assert(!dir_has_traversal(out@));
        }
    } else {
        proof {
            assert forall|m: int| 0 <= m < out@.len() implies out@[m] != 47u8 by {}
            assert(!dir_has_traversal(out@));
        }
    }

    // Step (d): cut at the first terminator byte.
    proof {
        assert(out@.subrange(0, len as int) =~= out@);
    }
    let mut e: usize = 0;
    while e < len && !is_terminator_byte_exec(out[e])
        invariant
            0 <= e <= len,
            len == out@.len(),
            first_terminator(out@) == e + first_terminator(out@.subrange(e as int, len as int)),
        decreases len - e,
    {
        proof {
            let sub = out@.subrange(e as int, len as int);
            assert(sub.subrange(1, sub.len() as int) =~= out@.subrange(e + 1, len as int));
        }
        e += 1;
    }
    proof {
        assert(out@.subrange(0, len as int) =~= out@);
        assert(first_terminator(out@) == e);
    }
    out.truncate(e);

    Ok(out)
}

} // verus!
