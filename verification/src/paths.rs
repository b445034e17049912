//! Path handling: file-name and extension extraction on the path's string
//! form, and the image-extension test that decides which files the scanner
//! includes.
//!
//! A file is an image candidate when the lowercased extension of its path is
//! one of png, jpg, jpeg, webp, bmp, gif. The extension is the part of the
//! file name (after the last `/`) that follows its last `.`, except that a
//! name whose only `.` leads it has no extension.

use vstd::prelude::*;
use vstd::string::StrSliceExecFns;

verus! {

/// ASCII lowercasing of one character; other characters are unchanged.
pub open spec fn lower_char(c: char) -> char {
    if 65 <= c as u32 && c as u32 <= 90 {
        ((c as u8) + 32) as char
    } else {
        c
    }
}

/// A character sequence, ASCII-lowercased.
pub open spec fn lowered(s: Seq<char>) -> Seq<char> {
    s.map_values(|c: char| lower_char(c))
}

/// The index right after the last `/` of `p`; 0 when `p` holds no `/`.
pub open spec fn file_name_start(p: Seq<char>) -> int
    decreases p.len(),
{
    if p.len() == 0 {
        0
    } else if p.last() == '/' {
        p.len() as int
    } else {
        file_name_start(p.drop_last())
    }
}

/// The index of the last `.` of `name`; -1 when `name` holds no `.`.
pub open spec fn last_dot(name: Seq<char>) -> int
    decreases name.len(),
{
    if name.len() == 0 {
        -1
    } else if name.last() == '.' {
        name.len() - 1
    } else {
        last_dot(name.drop_last())
    }
}

/// `file_name_start` stays within the path.
pub proof fn lemma_file_name_start_bounds(p: Seq<char>)
    ensures
        0 <= file_name_start(p) <= p.len(),
    decreases p.len(),
{
    if p.len() > 0 && p.last() != '/' {
        lemma_file_name_start_bounds(p.drop_last());
    }
}

/// `last_dot` stays within the name.
pub proof fn lemma_last_dot_bounds(name: Seq<char>)
    ensures
        -1 <= last_dot(name) < name.len(),
    decreases name.len(),
{
    if name.len() > 0 && name.last() != '.' {
        lemma_last_dot_bounds(name.drop_last());
    }
}

/// The extension of the path `p`: the part of its file name after the last
/// `.`. A name without a `.`, or whose only `.` leads it (a hidden file),
/// has none.
pub open spec fn ext_of(p: Seq<char>) -> Option<Seq<char>> {
    let name = p.skip(file_name_start(p));
    let d = last_dot(name);
    if d <= 0 {
        None
    } else {
        Some(name.skip(d + 1))
    }
}

/// The accepted image extensions, lowercased.
pub open spec fn img_exts() -> Seq<Seq<char>> {
    seq![
        seq!['p', 'n', 'g'],
        seq!['j', 'p', 'g'],
        seq!['j', 'p', 'e', 'g'],
        seq!['w', 'e', 'b', 'p'],
        seq!['b', 'm', 'p'],
        seq!['g', 'i', 'f'],
    ]
}

/// Whether the path names an image candidate: it has an extension and the
/// lowercased extension is an accepted one.
pub open spec fn is_img_path(p: Seq<char>) -> bool {
    match ext_of(p) {
        None => false,
        Some(e) => img_exts().contains(lowered(e)),
    }
}

/// ASCII lowercasing of one character.
fn to_lower(c: char) -> (r: char)
    ensures
        r == lower_char(c),
{
    let u = c as u32;
    if 65 <= u && u <= 90 {
        proof {
            assert(c as u8 == c as u32);
        }
        ((c as u8) + 32) as char
    } else {
        c
    }
}

/// The index right after the last `/` of the path.
fn find_name_start(path: &str, n: usize) -> (start: usize)
    requires
        n == path@.len(),
    ensures
        0 <= start <= n,
        file_name_start(path@) == start,
{
    let mut i: usize = n;
    proof {
        assert(path@.take(n as int) =~= path@);
        lemma_file_name_start_bounds(path@);
    }
    while i > 0
        invariant
            0 <= i <= n == path@.len(),
            file_name_start(path@) == file_name_start(path@.take(i as int)),
            file_name_start(path@.take(i as int)) <= i,
        decreases i,
    {
        proof {
            assert(path@.take(i as int).drop_last() =~= path@.take(i - 1));
            assert(path@.take(i as int).last() == path@[i - 1]);
            lemma_file_name_start_bounds(path@.take(i - 1));
        }
        if path.get_char(i - 1) == '/' {
            return i;
        }
        i -= 1;
    }
    proof {
        assert(path@.take(0) =~= Seq::<char>::empty());
    }
    0
}

/// The index right after the last `.` of the file name starting at `start`;
/// `start` itself when the name holds no `.`.
fn find_after_last_dot(path: &str, start: usize, n: usize) -> (j: usize)
    requires
        start <= n == path@.len(),
    ensures
        start <= j <= n,
        j > start ==> last_dot(path@.skip(start as int)) == j - 1 - start,
        j == start ==> last_dot(path@.skip(start as int)) == -1,
{
    let ghost name = path@.skip(start as int);
    let mut j: usize = n;
    proof {
        assert(name.take(n - start as int) =~= name);
        lemma_last_dot_bounds(name);
    }
    while j > start
        invariant
            start <= j <= n == path@.len(),
            name == path@.skip(start as int),
            last_dot(name) == last_dot(name.take(j - start as int)),
            last_dot(name.take(j - start as int)) < j - start,
        decreases j,
    {
        proof {
            assert(name.take(j - start as int).drop_last() =~= name.take(j - 1 - start as int));
            assert(name.take(j - start as int).last() == name[j - 1 - start as int]);
            assert(name[j - 1 - start as int] == path@[j - 1]);
            lemma_last_dot_bounds(name.take(j - 1 - start as int));
        }
        if path.get_char(j - 1) == '.' {
            proof {
                assert(last_dot(name.take(j - start as int)) == j - 1 - start);
            }
            return j;
        }
        j -= 1;
    }
    proof {
        assert(name.take(0) =~= Seq::<char>::empty());
    }
    start
}

/// Whether the characters of `s` from `from` on, lowercased, are exactly
/// `lit`.
fn eq_lower_from(s: &str, from: usize, n: usize, lit: &str) -> (r: bool)
    requires
        from <= n == s@.len(),
    ensures
        r == (lowered(s@.skip(from as int)) == lit@),
{
    let m = lit.unicode_len();
    if n - from != m {
        proof {
            assert(lowered(s@.skip(from as int)).len() != lit@.len());
        }
        return false;
    }
    let mut i: usize = 0;
    while i < m
        invariant
            from + m == n,
            n == s@.len(),
            m == lit@.len(),
            0 <= i <= m,
            forall|j: int| 0 <= j < i ==> lower_char(s@.skip(from as int)[j]) == lit@[j],
        decreases m - i,
    {
        let c = to_lower(s.get_char(from + i));
        let d = lit.get_char(i);
        proof {
            assert(s@.skip(from as int)[i as int] == s@[from + i]);
        }
        if c != d {
            proof {
                assert(lowered(s@.skip(from as int))[i as int] != lit@[i as int]);
            }
            return false;
        }
        i += 1;
    }
    proof {
        assert(lowered(s@.skip(from as int)) =~= lit@);
    }
    true
}

/// Whether the lowercased extension of the path is one of the accepted
/// image extensions. Extension-based only: the content is never inspected.
pub fn has_img_ext(path: &str) -> (r: bool)
    ensures
        r == is_img_path(path@),
{
    let n = path.unicode_len();
    let start = find_name_start(path, n);
    let j = find_after_last_dot(path, start, n);

    if j - start <= 1 {
        // No dot, or a dot leading the file name: no extension.
        proof {
            let name = path@.skip(start as int);
            assert(last_dot(name) <= 0);
        }
        return false;
    }
    let ghost name = path@.skip(start as int);
    let ghost d = j - 1 - start as int;
    proof {
        assert(last_dot(name) == d && d > 0);
        assert(ext_of(path@) == Some(name.skip(d + 1)));
        assert(name.skip(d + 1) =~= path@.skip(j as int));
    }
    let r = eq_lower_from(path, j, n, "png") || eq_lower_from(path, j, n, "jpg") || eq_lower_from(
        path,
        j,
        n,
        "jpeg",
    ) || eq_lower_from(path, j, n, "webp") || eq_lower_from(path, j, n, "bmp") || eq_lower_from(
        path,
        j,
        n,
        "gif",
    );
    proof {
        reveal_strlit("png");
        reveal_strlit("jpg");
        reveal_strlit("jpeg");
        reveal_strlit("webp");
        reveal_strlit("bmp");
        reveal_strlit("gif");
        let low = lowered(path@.skip(j as int));
        if r {
            assert(img_exts().contains(low)) by {
                if low == "png"@ {
                    assert(img_exts()[0] == low);
                } else if low == "jpg"@ {
                    assert(img_exts()[1] == low);
                } else if low == "jpeg"@ {
                    assert(img_exts()[2] == low);
                } else if low == "webp"@ {
                    assert(img_exts()[3] == low);
                } else if low == "bmp"@ {
                    assert(img_exts()[4] == low);
                } else {
                    assert(img_exts()[5] == low);
                }
            }
        } else {
            assert(!img_exts().contains(low)) by {
                assert forall|k: int| 0 <= k < img_exts().len() implies img_exts()[k] != low by {
                    assert(img_exts()[0] == "png"@ && img_exts()[1] == "jpg"@ && img_exts()[2]
                        == "jpeg"@ && img_exts()[3] == "webp"@ && img_exts()[4] == "bmp"@
                        && img_exts()[5] == "gif"@);
                }
            }
        }
    }
    r
}

} // verus!
