//! What the result writer needs decided: the order of a duplicate group's
//! members (file size ascending, modification time descending) and the names
//! of the symlinks it creates. Creating the links and reading file metadata
//! are I/O and stay with the driver.

use vstd::multiset::Multiset;
use vstd::prelude::*;
use vstd::string::{StrSliceExecFns, StringExecFns};

verus! {

/// The base64url encoding of the bytes, as base64_url::encode computes it:
/// a deterministic function of the bytes.
pub uninterp spec fn b64url_of(bytes: Seq<u8>) -> Seq<char>;

/// Relies on base64_url::encode: URL-safe base64 without padding, computed
/// from the bytes alone.
#[verifier::external_body]
fn b64url_encode(bytes: &Vec<u8>) -> (r: String)
    ensures
        r@ == b64url_of(bytes@),
{
    base64_url::encode(bytes.as_slice())
}

/// The decimal digit character for `d`.
pub open spec fn digit_char(d: int) -> char {
    ((48 + d) as u8) as char
}

/// The decimal digits of `n`, most significant first.
pub open spec fn spec_decimal(n: int) -> Seq<char>
    decreases n,
{
    if n < 10 {
        seq![digit_char(n)]
    } else {
        spec_decimal(n / 10).push(digit_char(n % 10))
    }
}

/// One decimal digit as a string.
fn digit_str(d: usize) -> (r: &'static str)
    requires
        d < 10,
    ensures
        r@ == seq![digit_char(d as int)],
{
    proof {
        reveal_strlit("0");
        reveal_strlit("1");
        reveal_strlit("2");
        reveal_strlit("3");
        reveal_strlit("4");
        reveal_strlit("5");
        reveal_strlit("6");
        reveal_strlit("7");
        reveal_strlit("8");
        reveal_strlit("9");
    }
    let r = match d {
        0 => "0",
        1 => "1",
        2 => "2",
        3 => "3",
        4 => "4",
        5 => "5",
        6 => "6",
        7 => "7",
        8 => "8",
        _ => "9",
    };
    proof {
        assert(r@ =~= seq![digit_char(d as int)]);
    }
    r
}

/// The decimal form of `n`.
pub fn usize_to_string(n: usize) -> (r: String)
    ensures
        r@ == spec_decimal(n as int),
    decreases n,
{
    if n < 10 {
        digit_str(n).to_owned()
    } else {
        let mut s = usize_to_string(n / 10);
        s.append(digit_str(n % 10));
        proof {
            assert(s@ =~= spec_decimal(n as int));
        }
        s
    }
}

/// The symlink name for one member of a duplicate group:
/// `<output>/dup/<base64url of the hash>-<running count>.<extension>`.
pub fn dup_link_name(output_path: &String, hash: &Vec<u8>, dup_count: usize, ext: &String) -> (r:
    String)
    ensures
        r@ == output_path@ + "/dup/"@ + b64url_of(hash@) + "-"@ + spec_decimal(dup_count as int)
            + "."@ + ext@,
{
    let mut s = output_path.clone();
    s.append("/dup/");
    let b = b64url_encode(hash);
    s.append(b.as_str());
    s.append("-");
    let c = usize_to_string(dup_count);
    s.append(c.as_str());
    s.append(".");
    s.append(ext.as_str());
    s
}

/// The symlink name for one unreadable or undecodable file:
/// `<output>/err/<running count>`.
pub fn err_link_name(output_path: &String, err_count: usize) -> (r: String)
    ensures
        r@ == output_path@ + "/err/"@ + spec_decimal(err_count as int),
{
    let mut s = output_path.clone();
    s.append("/err/");
    let c = usize_to_string(err_count);
    s.append(c.as_str());
    s
}

/// One group member with the metadata the order is decided by.
pub struct FileMeta {
    pub path: String,
    pub size: u64,
    pub mtime: i64,
}

/// The output order of a group: primary key file size ascending, secondary
/// key modification time descending.
pub open spec fn meta_le(a: FileMeta, b: FileMeta) -> bool {
    a.size < b.size || (a.size == b.size && a.mtime >= b.mtime)
}

/// Sorted by `meta_le`.
pub open spec fn sorted_by_meta(v: Seq<FileMeta>) -> bool {
    forall|i: int, j: int| 0 <= i < j < v.len() ==> meta_le(#[trigger] v[i], #[trigger] v[j])
}

/// Whether `a` orders at or before `b`.
fn meta_le_exec(a: &FileMeta, b: &FileMeta) -> (r: bool)
    ensures
        r == meta_le(*a, *b),
{
    a.size < b.size || (a.size == b.size && a.mtime >= b.mtime)
}

/// Sort a duplicate group's members for the writer: size ascending, ties
/// newest first. The result holds exactly the given members.
pub fn sort_group_members(metas: Vec<FileMeta>) -> (r: Vec<FileMeta>)
    ensures
        sorted_by_meta(r@),
        r@.to_multiset() == metas@.to_multiset(),
{
    broadcast use vstd::seq_lib::group_to_multiset_ensures, vstd::multiset::group_multiset_axioms;

    let ghost all = metas@;
    let mut metas = metas;
    let mut out: Vec<FileMeta> = Vec::new();
    proof {
        assert(out@.to_multiset() =~= Multiset::<FileMeta>::empty()) by {
            assert forall|x: FileMeta| out@.to_multiset().count(x) == 0 by {
                assert(!out@.contains(x));
            }
        }
        assert(out@.to_multiset().add(metas@.to_multiset()) =~= all.to_multiset());
    }
    while metas.len() > 0
        invariant
            sorted_by_meta(out@),
            out@.to_multiset().add(metas@.to_multiset()) == all.to_multiset(),
        decreases metas@.len(),
    {
        let ghost prev_metas = metas@;
        let m = match metas.pop() {
            Some(m) => m,
            None => {
                return out;
            },
        };
        proof {
            assert(metas@.push(m) =~= prev_metas);
            vstd::seq_lib::to_multiset_build::<FileMeta>(metas@, m);
        }
        let ghost prev = out@;
        let p = meta_insert_pos(&out, &m);
        out.insert(p, m);
        proof {
            vstd::seq_lib::to_multiset_insert::<FileMeta>(prev, p as int, m);
            assert(out@.to_multiset().add(metas@.to_multiset()) =~= all.to_multiset());
            assert forall|i: int, j: int| 0 <= i < j < out@.len() implies meta_le(
                #[trigger] out@[i],
                #[trigger] out@[j],
            ) by {
                if j < p {
                    assert(out@[i] == prev[i] && out@[j] == prev[j]);
                } else if j == p {
                    assert(out@[i] == prev[i]);
                    assert(meta_le(prev[i], m));
                } else if i == p {
                    assert(out@[j] == prev[j - 1]);
                    assert(!meta_le(prev[p as int], m));
                    if j - 1 > p {
                        assert(meta_le(prev[p as int], prev[j - 1]));
                    }
                } else if i < p {
                    assert(out@[i] == prev[i] && out@[j] == prev[j - 1]);
                    assert(meta_le(prev[i], prev[j - 1]));
                } else {
                    assert(out@[i] == prev[i - 1] && out@[j] == prev[j - 1]);
                    assert(meta_le(prev[i - 1], prev[j - 1]));
                }
            }
        }
    }
    proof {
        assert(metas@.to_multiset() =~= Multiset::<FileMeta>::empty()) by {
            assert forall|x: FileMeta| metas@.to_multiset().count(x) == 0 by {
                assert(!metas@.contains(x));
            }
        }
        assert(out@.to_multiset() =~= all.to_multiset());
    }
    out
}

/// The first position whose member does not order at or before `m`.
fn meta_insert_pos(out: &Vec<FileMeta>, m: &FileMeta) -> (p: usize)
    requires
        sorted_by_meta(out@),
    ensures
        0 <= p <= out@.len(),
        forall|k: int| 0 <= k < p ==> meta_le(#[trigger] out@[k], *m),
        p < out@.len() ==> !meta_le(out@[p as int], *m),
{
    let mut p: usize = 0;
    while p < out.len()
        invariant
            0 <= p <= out@.len(),
            forall|k: int| 0 <= k < p ==> meta_le(#[trigger] out@[k], *m),
        decreases out@.len() - p,
    {
        if !meta_le_exec(&out[p], m) {
            return p;
        }
        p += 1;
    }
    p
}

} // verus!
