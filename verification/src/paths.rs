//! Byte-level path structure of archive entry names.
//!
//! An entry name is classified by its trailing component: `<key>/asset`
//! carries the binary payload, `<key>/asset.meta` the metadata text, and
//! `<key>/pathname` the destination path. These helpers find the last slash,
//! read the trailing component, build a sibling entry name and extract the
//! key (the last directory component), all on raw bytes.

use vstd::prelude::*;

verus! {

/// Index of the last slash in `p`, or `-1` when `p` holds none.
pub open spec fn last_slash_index(p: Seq<u8>) -> int
    decreases p.len(),
{
    if p.len() == 0 {
        -1
    } else if p[p.len() - 1] == 47u8 {
        p.len() - 1
    } else {
        last_slash_index(p.subrange(0, p.len() - 1))
    }
}

pub proof fn lemma_last_slash_index_props(p: Seq<u8>)
    ensures
        -1 <= last_slash_index(p) < p.len(),
        last_slash_index(p) >= 0 ==> p[last_slash_index(p)] == 47u8,
        forall|k: int| last_slash_index(p) < k < p.len() ==> p[k] != 47u8,
    decreases p.len(),
{
    if p.len() == 0 {
    } else if p[p.len() - 1] == 47u8 {
    } else {
        let sub = p.subrange(0, p.len() - 1);
        lemma_last_slash_index_props(sub);
        assert forall|k: int| last_slash_index(p) < k < p.len() implies p[k] != 47u8 by {
            if k < p.len() - 1 {
                assert(p[k] == sub[k]);
            }
        }
        if last_slash_index(p) >= 0 {
            assert(p[last_slash_index(p)] == sub[last_slash_index(p)]);
        }
    }
}

proof fn lemma_last_slash_index_at(p: Seq<u8>, i: int)
    requires
        0 <= i < p.len(),
        p[i] == 47u8,
        forall|k: int| i < k < p.len() ==> p[k] != 47u8,
    ensures
        last_slash_index(p) == i,
    decreases p.len(),
{
    if i == p.len() - 1 {
    } else {
        let sub = p.subrange(0, p.len() - 1);
        assert(p[p.len() - 1] != 47u8);
        assert(sub[i] == p[i]);
        assert forall|k: int| i < k < sub.len() implies sub[k] != 47u8 by {
            assert(sub[k] == p[k]);
        }
        lemma_last_slash_index_at(sub, i);
    }
}

proof fn lemma_last_slash_index_none(p: Seq<u8>)
    requires
        forall|k: int| 0 <= k < p.len() ==> p[k] != 47u8,
    ensures
        last_slash_index(p) == -1,
    decreases p.len(),
{
    if p.len() > 0 {
        let sub = p.subrange(0, p.len() - 1);
        assert forall|k: int| 0 <= k < sub.len() implies sub[k] != 47u8 by {
            assert(sub[k] == p[k]);
        }
        lemma_last_slash_index_none(sub);
    }
}

/// The trailing component of `p`: the bytes after the last slash, or all of
/// `p` when it holds none.
pub open spec fn leaf_of(p: Seq<u8>) -> Seq<u8> {
    p.subrange(last_slash_index(p) + 1, p.len() as int)
}

/// The entry name beside `p` in the same key directory: everything up to and
/// including the last slash of `p`, followed by `name`.
pub open spec fn sibling_of(p: Seq<u8>, name: Seq<u8>) -> Seq<u8> {
    p.subrange(0, last_slash_index(p) + 1) + name
}

/// `p` without its trailing slashes.
pub open spec fn strip_trailing_slashes(p: Seq<u8>) -> Seq<u8>
    decreases p.len(),
{
    if p.len() > 0 && p[p.len() - 1] == 47u8 {
        strip_trailing_slashes(p.subrange(0, p.len() - 1))
    } else {
        p
    }
}

/// The asset key of an entry name: the last directory component before the
/// trailing component, empty when there is none.
pub open spec fn guid_of(p: Seq<u8>) -> Seq<u8> {
    leaf_of(strip_trailing_slashes(p.subrange(0, if last_slash_index(p) >= 0 {
        last_slash_index(p)
    } else {
        0
    })))
}

/// The bytes of `asset`.
pub open spec fn asset_leaf() -> Seq<u8> {
    seq![97u8, 115u8, 115u8, 101u8, 116u8]
}

/// The bytes of `asset.meta`.
pub open spec fn meta_leaf() -> Seq<u8> {
    seq![97u8, 115u8, 115u8, 101u8, 116u8, 46u8, 109u8, 101u8, 116u8, 97u8]
}

/// The bytes of `pathname`.
pub open spec fn pathname_leaf() -> Seq<u8> {
    seq![112u8, 97u8, 116u8, 104u8, 110u8, 97u8, 109u8, 101u8]
}

/// The bytes of the prefix of `p` before its first slash — all of `p` when
/// it holds none.
pub open spec fn first_slash_index(p: Seq<u8>) -> int
    decreases p.len(),
{
    if p.len() == 0 {
        0
    } else if p[0] == 47u8 {
        0
    } else {
        1 + first_slash_index(p.subrange(1, p.len() as int))
    }
}

proof fn lemma_first_slash_index_props(p: Seq<u8>)
    ensures
        0 <= first_slash_index(p) <= p.len(),
        forall|k: int| 0 <= k < first_slash_index(p) ==> #[trigger] p[k] != 47u8,
        first_slash_index(p) < p.len() ==> p[first_slash_index(p)] == 47u8,
    decreases p.len(),
{
    if p.len() == 0 {
    } else if p[0] == 47u8 {
    } else {
        let sub = p.subrange(1, p.len() as int);
        lemma_first_slash_index_props(sub);
        assert forall|k: int| 0 <= k < first_slash_index(p) implies #[trigger] p[k] != 47u8 by {
            if k > 0 {
                assert(p[k] == sub[k - 1]);
            }
        }
        if first_slash_index(p) < p.len() {
            assert(p[first_slash_index(p)] == sub[first_slash_index(p) - 1]);
        }
    }
}

/// Whether two byte strings hold the same bytes.
pub fn bytes_eq(a: &[u8], b: &[u8]) -> (r: bool)
    ensures
        r == (a@ == b@),
{
    if a.len() != b.len() {
        return false;
    }
    let n = a.len();
    let mut i: usize = 0;
    while i < n
        invariant
            0 <= i <= n,
            n == a@.len() == b@.len(),
            forall|k: int| 0 <= k < i ==> a@[k] == b@[k],
        decreases n - i,
    {
        if a[i] != b[i] {
            return false;
        }
        i += 1;
    }
    proof {
        assert(a@ =~= b@);
    }
    true
}

/// Index just after the last slash of `path`: where its trailing component
/// starts.
pub fn find_leaf_start(path: &[u8]) -> (r: usize)
    ensures
        r == last_slash_index(path@) + 1,
{
    let n = path.len();
    let mut p: usize = n;
    while p > 0
        invariant
            0 <= p <= n,
            n == path@.len(),
            forall|k: int| p <= k < n ==> path@[k] != 47u8,
        decreases p,
    {
        if path[p - 1] == 47 {
            proof {
                lemma_last_slash_index_at(path@, p - 1);
            }
            return p;
        }
        p -= 1;
    }
    proof {
        lemma_last_slash_index_none(path@);
    }
    0
}

/// The trailing component of `path`.
pub fn get_leaf<'a>(path: &'a [u8]) -> (r: &'a [u8])
    ensures
        r@ == leaf_of(path@),
{
    let start = find_leaf_start(path);
    proof {
        lemma_last_slash_index_props(path@);
    }
    vstd::slice::slice_subrange(path, start, path.len())
}

/// The entry name beside `path` whose trailing component is `name`.
pub fn sibling_entry(path: &[u8], name: &[u8]) -> (r: Vec<u8>)
    ensures
        r@ == sibling_of(path@, name@),
{
    let start = find_leaf_start(path);
    proof {
        lemma_last_slash_index_props(path@);
    }
    let mut r = vstd::slice::slice_to_vec(vstd::slice::slice_subrange(path, 0, start));
    let mut i: usize = 0;
    let n = name.len();
    while i < n
        invariant
            0 <= i <= n,
            n == name@.len(),
            r@ == path@.subrange(0, last_slash_index(path@) + 1) + name@.subrange(0, i as int),
        decreases n - i,
    {
        let ghost before = r@;
        r.push(name[i]);
        proof {
            assert(r@ =~= path@.subrange(0, last_slash_index(path@) + 1) + name@.subrange(
                0,
                i + 1,
            ));
        }
        i += 1;
    }
    proof {
        assert(name@.subrange(0, n as int) =~= name@);
    }
    r
}

/// The asset key correlating an entry with its siblings: the last directory
/// component of `path`, read as the parent directory's name. Empty when
/// `path` has no parent directory.
pub fn extract_guid_from_path(path: &[u8]) -> (r: Vec<u8>)
    ensures
        r@ == guid_of(path@),
{
    let leaf_start = find_leaf_start(path);
    let dir_end: usize = if leaf_start > 0 {
        leaf_start - 1
    } else {
        0
    };
    proof {
        lemma_last_slash_index_props(path@);
        assert(path@.subrange(0, dir_end as int) == path@.subrange(
            0,
            if last_slash_index(path@) >= 0 {
                last_slash_index(path@)
            } else {
                0
            },
        ));
    }
    let ghost dir = path@.subrange(0, dir_end as int);

    // Strip trailing slashes from the directory part.
    let mut e: usize = dir_end;
    while e > 0 && path[e - 1] == 47
        invariant
            0 <= e <= dir_end,
            dir_end <= path@.len(),
            dir == path@.subrange(0, dir_end as int),
            strip_trailing_slashes(dir) == strip_trailing_slashes(path@.subrange(0, e as int)),
        decreases e,
    {
        proof {
            let sub = path@.subrange(0, e as int);
            assert(sub.subrange(0, sub.len() - 1) =~= path@.subrange(0, e - 1));
        }
        e -= 1;
    }
    let ghost stripped = path@.subrange(0, e as int);
    proof {
        assert(strip_trailing_slashes(dir) == stripped);
    }

    // The key is the trailing component of the stripped directory part.
    let mut g: usize = e;
    while g > 0 && path[g - 1] != 47
        invariant
            0 <= g <= e,
            e <= path@.len(),
            forall|k: int| g <= k < e ==> path@[k] != 47u8,
        decreases g,
    {
        g -= 1;
    }
    proof {
        let s = stripped;
        assert forall|k: int| g <= k < s.len() implies s[k] != 47u8 by {
            assert(s[k] == path@[k]);
        }
        if g > 0 {
            assert(s[g - 1] == path@[g - 1]);
            lemma_last_slash_index_at(s, g - 1);
        } else {
            lemma_last_slash_index_none(s);
        }
        assert(s.subrange(g as int, e as int) =~= path@.subrange(g as int, e as int));
    }
    vstd::slice::slice_to_vec(vstd::slice::slice_subrange(path, g, e))
}

/// The archive-relative hash of an entry name: its prefix before the first
/// slash, or the whole name when it holds none.
pub fn extract_asset_hash(entry_hash: &[u8]) -> (r: Vec<u8>)
    ensures
        r@ == entry_hash@.subrange(0, first_slash_index(entry_hash@)),
{
    let n = entry_hash.len();
    let mut i: usize = 0;
    while i < n && entry_hash[i] != 47
        invariant
            0 <= i <= n,
            n == entry_hash@.len(),
            forall|k: int| 0 <= k < i ==> #[trigger] entry_hash@[k] != 47u8,
        decreases n - i,
    {
        i += 1;
    }
    proof {
        lemma_first_slash_index_props(entry_hash@);
        if i < n {
            assert(first_slash_index(entry_hash@) == i) by {
                if first_slash_index(entry_hash@) < i {
                    assert(entry_hash@[first_slash_index(entry_hash@)] != 47u8);
                }
            }
        } else {
            assert(first_slash_index(entry_hash@) == i) by {
                if first_slash_index(entry_hash@) < n {
                    assert(entry_hash@[first_slash_index(entry_hash@)] != 47u8);
                }
            }
        }
    }
    vstd::slice::slice_to_vec(vstd::slice::slice_subrange(entry_hash, 0, i))
}

/// None of the three fixed trailing components holds a slash.
pub proof fn lemma_leaf_literals_no_slash()
    ensures
        forall|k: int| 0 <= k < asset_leaf().len() ==> asset_leaf()[k] != 47u8,
        forall|k: int| 0 <= k < meta_leaf().len() ==> meta_leaf()[k] != 47u8,
        forall|k: int| 0 <= k < pathname_leaf().len() ==> pathname_leaf()[k] != 47u8,
{
    assert forall|k: int| 0 <= k < asset_leaf().len() implies asset_leaf()[k] != 47u8 by {
        if k == 0 {
        } else if k == 1 {
        } else if k == 2 {
        } else if k == 3 {
        } else {
            assert(k == 4);
        }
    }
    assert forall|k: int| 0 <= k < meta_leaf().len() implies meta_leaf()[k] != 47u8 by {
        if k == 0 {
        } else if k == 1 {
        } else if k == 2 {
        } else if k == 3 {
        } else if k == 4 {
        } else if k == 5 {
        } else if k == 6 {
        } else if k == 7 {
        } else if k == 8 {
        } else {
            assert(k == 9);
        }
    }
    assert forall|k: int| 0 <= k < pathname_leaf().len() implies pathname_leaf()[k] != 47u8 by {
        if k == 0 {
        } else if k == 1 {
        } else if k == 2 {
        } else if k == 3 {
        } else if k == 4 {
        } else if k == 5 {
        } else if k == 6 {
        } else {
            assert(k == 7);
        }
    }
}

/// How an entry name `key/name` decomposes, for a slash-free key and a
/// slash-free trailing component: the leaf is `name`, a sibling swaps the
/// trailing component, and the asset key is `key`.
pub proof fn lemma_entry_parts(key: Seq<u8>, name: Seq<u8>)
    requires
        key.len() > 0,
        forall|k: int| 0 <= k < key.len() ==> key[k] != 47u8,
        forall|k: int| 0 <= k < name.len() ==> name[k] != 47u8,
    ensures
        last_slash_index(key + seq![47u8] + name) == key.len(),
        leaf_of(key + seq![47u8] + name) == name,
        forall|other: Seq<u8>|
            #[trigger] sibling_of(key + seq![47u8] + name, other) == key + seq![47u8] + other,
        guid_of(key + seq![47u8] + name) == key,
{
    let p = key + seq![47u8] + name;
    assert(p.len() == key.len() + 1 + name.len());
    assert(p[key.len() as int] == 47u8);
    assert forall|k: int| key.len() < k < p.len() implies p[k] != 47u8 by {
        assert(p[k] == name[k - key.len() - 1]);
    }
    lemma_last_slash_index_at(p, key.len() as int);
    assert(leaf_of(p) =~= name);
    assert forall|other: Seq<u8>|
        #[trigger] sibling_of(p, other) == key + seq![47u8] + other by {
        assert(p.subrange(0, key.len() as int + 1) =~= key + seq![47u8]);
        assert(p.subrange(0, key.len() as int + 1) + other =~= key + seq![47u8] + other);
    }
    let dir = p.subrange(0, key.len() as int);
    assert(dir =~= key);
    assert(strip_trailing_slashes(key) == key);
    lemma_last_slash_index_none(key);
    assert(leaf_of(key) =~= key);
}

} // verus!
