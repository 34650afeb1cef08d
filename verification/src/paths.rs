//! File paths as text, with `/` between their components.

use vstd::prelude::*;
use vstd::slice::slice_subrange;
use crate::text::{chars_of, string_of};

verus! {

/// The position of the last `c` in `s`.
pub open spec fn last_index_of(s: Seq<char>, c: char) -> Option<int>
    decreases s.len(),
{
    if s.len() == 0 {
        None
    } else if s.last() == c {
        Some(s.len() - 1)
    } else {
        last_index_of(s.drop_last(), c)
    }
}

/// The last component of `path`: what follows its last `/`, or all of it.
pub open spec fn file_name(path: Seq<char>) -> Seq<char> {
    match last_index_of(path, '/') {
        Some(k) => path.skip(k + 1),
        None => path,
    }
}

/// Where the extension of the file name `name` begins: after its last dot,
/// unless that dot opens the name or the name is `..`.
pub open spec fn extension_start(name: Seq<char>) -> Option<int> {
    if name == seq!['.', '.'] {
        None
    } else {
        match last_index_of(name, '.') {
            Some(k) => if k > 0 {
                Some(k + 1)
            } else {
                None
            },
            None => None,
        }
    }
}

/// The extension of the last component of `path`, without its dot.
pub open spec fn extension(path: Seq<char>) -> Option<Seq<char>> {
    let name = file_name(path);
    match extension_start(name) {
        Some(k) => Some(name.skip(k)),
        None => None,
    }
}

/// The file name `name` without its extension and the dot before it.
pub open spec fn stem(name: Seq<char>) -> Seq<char> {
    match extension_start(name) {
        Some(k) => name.take(k - 1),
        None => name,
    }
}

/// The path of the file `name` inside the directory `dir`.
pub open spec fn join(dir: Seq<char>, name: Seq<char>) -> Seq<char> {
    if dir.len() == 0 {
        name
    } else if dir.last() == '/' {
        dir + name
    } else {
        dir.push('/') + name
    }
}

/// The object file for `source` in `build_dir`: the file name of `source`
/// with `o` for its extension.
pub open spec fn object_path(build_dir: Seq<char>, source: Seq<char>) -> Seq<char> {
    join(build_dir, stem(file_name(source)).push('.').push('o'))
}

/// `last_index_of` finds a `c` that no other `c` follows.
pub proof fn lemma_last_index_of(s: Seq<char>, c: char)
    ensures
        match last_index_of(s, c) {
            Some(k) => 0 <= k < s.len() && s[k] == c && forall|j: int|
                k < j < s.len() ==> s[j] != c,
            None => forall|j: int| 0 <= j < s.len() ==> s[j] != c,
        },
    decreases s.len(),
{
    if s.len() > 0 && s.last() != c {
        let front = s.drop_last();
        lemma_last_index_of(front, c);
        match last_index_of(front, c) {
            Some(k) => {
                assert forall|j: int| k < j < s.len() implies s[j] != c by {
                    if j < front.len() {
                        assert(front[j] == s[j]);
                    }
                }
            },
            None => {
                assert forall|j: int| 0 <= j < s.len() implies s[j] != c by {
                    if j < front.len() {
                        assert(front[j] == s[j]);
                    }
                }
            },
        }
    }
}

/// The position of the last `c` in `s`.
pub fn find_last(s: &[char], c: char) -> (r: Option<usize>)
    ensures
        match r {
            Some(k) => last_index_of(s@, c) == Some(k as int) && k < s@.len(),
            None => last_index_of(s@, c) is None,
        },
{
    let mut i: usize = s.len();
    while i > 0
        invariant
            i <= s.len(),
            forall|j: int| i <= j < s.len() ==> s@[j] != c,
        decreases i,
    {
        i -= 1;
        if s[i] == c {
            proof {
                lemma_last_index_of(s@, c);
            }
            return Some(i);
        }
    }
    proof {
        lemma_last_index_of(s@, c);
    }
    None
}

/// Where the last component of `path` begins.
fn file_name_start(path: &[char]) -> (start: usize)
    ensures
        start <= path@.len(),
        path@.skip(start as int) == file_name(path@),
{
    proof {
        lemma_last_index_of(path@, '/');
    }
    let len: usize = path.len();
    match find_last(path, '/') {
        Some(k) => {
            assert(k < len);
            k + 1
        },
        None => {
            assert(path@.skip(0) == path@);
            0
        },
    }
}

/// Where the extension of the file name `name` begins.
fn find_extension(name: &[char]) -> (r: Option<usize>)
    ensures
        match r {
            Some(k) => extension_start(name@) == Some(k as int) && 0 < k <= name@.len(),
            None => extension_start(name@) is None,
        },
{
    proof {
        lemma_last_index_of(name@, '.');
    }
    if name.len() == 2 && name[0] == '.' && name[1] == '.' {
        assert(name@ == seq!['.', '.']);
        return None;
    }
    assert(name@ != seq!['.', '.']) by {
        if name@ == seq!['.', '.'] {
            assert(seq!['.', '.'].len() == 2);
            assert(seq!['.', '.'][0] == '.');
            assert(seq!['.', '.'][1] == '.');
        }
    }
    let len: usize = name.len();
    match find_last(name, '.') {
        Some(k) => if k > 0 {
            assert(k < len);
            Some(k + 1)
        } else {
            None
        },
        None => None,
    }
}

/// The extension of the last component of `path`, without its dot.
pub fn extension_of(path: &str) -> (r: Option<String>)
    ensures
        match r {
            Some(ext) => extension(path@) == Some(ext@),
            None => extension(path@) is None,
        },
{
    let chars = chars_of(path);
    let start = file_name_start(chars.as_slice());
    let name = slice_subrange(chars.as_slice(), start, chars.len());
    assert(name@ == file_name(path@));
    match find_extension(name) {
        Some(k) => {
            let ext = string_of(slice_subrange(name, k, name.len()));
            Some(ext)
        },
        None => None,
    }
}

/// Appends `chars` to `out`.
pub fn push_chars(out: &mut String, chars: &[char])
    ensures
        final(out)@ == old(out)@ + chars@,
{
    let mut i: usize = 0;
    while i < chars.len()
        invariant
            i <= chars.len(),
            out@ == old(out)@ + chars@.take(i as int),
        decreases chars.len() - i,
    {
        out.push(chars[i]);
        i += 1;
        assert(chars@.take(i as int) == chars@.take(i - 1).push(chars@[i - 1]));
    }
    assert(chars@.take(chars@.len() as int) == chars@);
}

/// The path of the object file for `source` in `build_dir`.
pub fn object_path_of(build_dir: &str, source: &str) -> (r: String)
    ensures
        r@ == object_path(build_dir@, source@),
{
    let dir = chars_of(build_dir);
    let chars = chars_of(source);
    let start = file_name_start(chars.as_slice());
    let name = slice_subrange(chars.as_slice(), start, chars.len());
    assert(name@ == file_name(source@));
    let stem_end: usize = match find_extension(name) {
        Some(k) => k - 1,
        None => name.len(),
    };
    assert(name@.take(stem_end as int) == stem(name@)) by {
        assert(name@.take(name@.len() as int) == name@);
    }
    let mut out = String::new();
    push_chars(&mut out, dir.as_slice());
    if dir.len() > 0 && dir[dir.len() - 1] != '/' {
        out.push('/');
    }
    let ghost prefix = out@;
    push_chars(&mut out, slice_subrange(name, 0, stem_end));
    out.push('.');
    out.push('o');
    proof {
        let file = stem(name@).push('.').push('o');
        assert(name@.subrange(0, stem_end as int) == stem(name@));
        assert(out@ == prefix + file);
        assert(Seq::<char>::empty() + dir@ == dir@);
        if dir@.len() == 0 {
            assert(prefix + file == file);
        }
    }
    out
}

} // verus!
