use vstd::prelude::*;
use vstd::string::*;
use crate::text::{lowercase, lowercase_of};

verus! {

/// Where the last component of `s` starts: just past its last '/', or 0.
pub open spec fn name_start(s: Seq<char>) -> int
    decreases s.len(),
{
    if s.len() == 0 {
        0
    } else if s.last() == '/' {
        s.len() as int
    } else {
        name_start(s.drop_last())
    }
}

/// The last component of a path: what follows its last '/'.
pub open spec fn file_name_of(s: Seq<char>) -> Seq<char> {
    s.skip(name_start(s))
}

/// A last component that names no file: empty, "." or "..".
pub open spec fn is_special_name(n: Seq<char>) -> bool {
    n.len() == 0 || n == seq!['.'] || n == seq!['.', '.']
}

/// Index of the last '.' in `n`, or -1 when there is none.
pub open spec fn last_dot(n: Seq<char>) -> int
    decreases n.len(),
{
    if n.len() == 0 {
        -1
    } else if n.last() == '.' {
        n.len() - 1
    } else {
        last_dot(n.drop_last())
    }
}

/// The extension of a path: the text after the last '.' of its last
/// component, unless that dot opens the component (a hidden file) or the
/// component names no file.
pub open spec fn extension_of(s: Seq<char>) -> Option<Seq<char>> {
    let n = file_name_of(s);
    if is_special_name(n) || last_dot(n) <= 0 {
        None
    } else {
        Some(n.skip(last_dot(n) + 1))
    }
}

/// The extension of a path as the catalog stores it: lower-cased.
pub open spec fn stored_extension_of(s: Seq<char>) -> Option<Seq<char>> {
    match extension_of(s) {
        Some(x) => Some(lowercase_of(x)),
        None => None,
    }
}

/// Length of the stem of a last component: all of it, or what comes before
/// its extension's dot.
pub open spec fn stem_len(n: Seq<char>) -> int {
    if last_dot(n) <= 0 {
        n.len() as int
    } else {
        last_dot(n)
    }
}

/// `s` with its extension replaced by `ext` (removed when `ext` is empty);
/// unchanged when its last component names no file.
pub open spec fn with_extension_of(s: Seq<char>, ext: Seq<char>) -> Seq<char> {
    let n = file_name_of(s);
    if is_special_name(n) {
        s
    } else {
        let base = s.take(name_start(s) + stem_len(n));
        if ext.len() == 0 {
            base
        } else {
            base + seq!['.'] + ext
        }
    }
}

proof fn lemma_name_start_bounds(s: Seq<char>)
    ensures
        0 <= name_start(s) <= s.len(),
    decreases s.len(),
{
    if s.len() > 0 && s.last() != '/' {
        lemma_name_start_bounds(s.drop_last());
    }
}

proof fn lemma_last_dot_bounds(n: Seq<char>)
    ensures
        -1 <= last_dot(n) < n.len(),
        last_dot(n) >= 0 ==> n[last_dot(n)] == '.',
    decreases n.len(),
{
    if n.len() > 0 && n.last() != '.' {
        lemma_last_dot_bounds(n.drop_last());
    }
}

/// Splits a path at its last component: returns where that component starts
/// and where the last '.' within it is (if any).
fn locate_name_and_dot(s: &str) -> (r: (usize, Option<usize>))
    ensures
        r.0 as int == name_start(s@),
        match r.1 {
            Some(d) => d as int == name_start(s@) + last_dot(file_name_of(s@)) && last_dot(
                file_name_of(s@),
            ) >= 0,
            None => last_dot(file_name_of(s@)) == -1,
        },
{
    let len = s.unicode_len();
    let mut start: usize = 0;
    let mut i: usize = 0;
    while i < len
        invariant
            len == s@.len(),
            i <= len,
            start as int == name_start(s@.take(i as int)),
        decreases len - i,
    {
        let c = s.get_char(i);
        assert(s@.take(i + 1).drop_last() =~= s@.take(i as int));
        if c == '/' {
            start = i + 1;
        }
        i = i + 1;
    }
    assert(s@.take(len as int) =~= s@);
    proof {
        lemma_name_start_bounds(s@);
    }
    let ghost name = file_name_of(s@);
    let mut dot: Option<usize> = None;
    let mut j: usize = start;
    while j < len
        invariant
            len == s@.len(),
            start as int == name_start(s@),
            start <= j <= len,
            name == s@.skip(start as int),
            match dot {
                Some(d) => d as int == start + last_dot(name.take(j - start)) && last_dot(
                    name.take(j - start),
                ) >= 0,
                None => last_dot(name.take(j - start)) == -1,
            },
        decreases len - j,
    {
        let c = s.get_char(j);
        assert(name.take(j + 1 - start).drop_last() =~= name.take(j - start));
        if c == '.' {
            dot = Some(j);
        }
        j = j + 1;
    }
    assert(name.take(len - start) =~= name);
    (start, dot)
}

/// The extension of the file that `path` names, lower-cased: the text after
/// the last '.' of its last component, as `std::path::Path` reads it for a
/// path without trailing separators.
pub fn file_extension(path: &String) -> (r: Option<String>)
    ensures
        match (r, stored_extension_of(path@)) {
            (Some(e), Some(f)) => e@ == f,
            (None, None) => true,
            _ => false,
        },
{
    let s = path.as_str();
    let len = s.unicode_len();
    let (start, dot) = locate_name_and_dot(s);
    let ghost name = file_name_of(s@);
    proof {
        lemma_name_start_bounds(s@);
        lemma_last_dot_bounds(name);
    }
    if is_special(s, start, len) {
        return None;
    }
    match dot {
        None => None,
        Some(d) => {
            if d == start {
                None
            } else {
                let e = s.substring_char(d + 1, len);
                assert(e@ =~= name.skip(last_dot(name) + 1));
                Some(lowercase(e))
            }
        },
    }
}

/// Whether the last component, `s@[start..len]`, names no file.
fn is_special(s: &str, start: usize, len: usize) -> (r: bool)
    requires
        len == s@.len(),
        start as int == name_start(s@),
        start <= len,
    ensures
        r == is_special_name(file_name_of(s@)),
{
    let ghost name = file_name_of(s@);
    if start == len {
        return true;
    }
    let c0 = s.get_char(start);
    if len - start == 1 {
        assert(name.len() == 1 && name[0] == c0);
        assert(name == seq!['.'] <==> c0 == '.') by {
            if c0 == '.' {
                assert(name =~= seq!['.']);
            }
        }
        assert(name != seq!['.', '.']);
        c0 == '.'
    } else if len - start == 2 {
        let c1 = s.get_char(start + 1);
        assert(name.len() == 2 && name[0] == c0 && name[1] == c1);
        assert(name == seq!['.', '.'] <==> (c0 == '.' && c1 == '.')) by {
            if c0 == '.' && c1 == '.' {
                assert(name =~= seq!['.', '.']);
            }
        }
        assert(name != seq!['.']);
        c0 == '.' && c1 == '.'
    } else {
        assert(name.len() > 2);
        false
    }
}

/// `path` with its extension replaced by `ext`, as `Path::with_extension` does
/// for a path without trailing separators: an empty `ext` removes the
/// extension, and a path whose last component names no file is kept as it is.
pub fn with_extension(path: &str, ext: &str) -> (r: String)
    ensures
        r@ == with_extension_of(path@, ext@),
{
    let len = path.unicode_len();
    let (start, dot) = locate_name_and_dot(path);
    let ghost name = file_name_of(path@);
    proof {
        lemma_name_start_bounds(path@);
        lemma_last_dot_bounds(name);
    }
    if is_special(path, start, len) {
        return String::from_str(path);
    }
    let end = match dot {
        Some(d) => if d == start {
            len
        } else {
            d
        },
        None => len,
    };
    assert(end as int == name_start(path@) + stem_len(name));
    let base = String::from_str(path.substring_char(0, end));
    assert(base@ =~= path@.take(end as int));
    if ext.unicode_len() == 0 {
        base
    } else {
        let r = base.concat(".").concat(ext);
        proof {
            reveal_strlit(".");
        }
        assert(r@ =~= path@.take(end as int) + seq!['.'] + ext@);
        r
    }
}

} // verus!
