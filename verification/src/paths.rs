//! Paths as the tool writes them: text with `/` between components. The
//! file name is what follows the last `/`; its extension is what follows its
//! last `.`, unless that dot opens the name.

use vstd::prelude::*;
use vstd::string::*;
use crate::text::chars_of;

verus! {

/// Index of the last `c` in `s`, or -1 where there is none.
pub open spec fn last_index(s: Seq<char>, c: char) -> int
    decreases s.len(),
{
    if s.len() == 0 {
        -1
    } else if s.last() == c {
        s.len() - 1
    } else {
        last_index(s.drop_last(), c)
    }
}

/// What follows the last `/` of a path.
pub open spec fn file_name(path: Seq<char>) -> Seq<char> {
    path.skip(last_index(path, '/') + 1)
}

/// Index, inside the file name, of the dot that starts the extension, or a
/// value below 1 where the name has no extension.
pub open spec fn extension_dot(path: Seq<char>) -> int {
    last_index(file_name(path), '.')
}

/// The extension of the file name, without its dot.
pub open spec fn extension(path: Seq<char>) -> Option<Seq<char>> {
    if extension_dot(path) > 0 {
        Some(file_name(path).skip(extension_dot(path) + 1))
    } else {
        None
    }
}

/// The file name without its extension.
pub open spec fn file_stem(path: Seq<char>) -> Seq<char> {
    if extension_dot(path) > 0 {
        file_name(path).take(extension_dot(path))
    } else {
        file_name(path)
    }
}

/// `name` placed under `dir`: a `/` goes between them unless `dir` is empty
/// or ends in one, and a `name` that starts at the root stands alone.
pub open spec fn join(dir: Seq<char>, name: Seq<char>) -> Seq<char> {
    if name.len() > 0 && name[0] == '/' {
        name
    } else if dir.len() == 0 || dir.last() == '/' {
        dir + name
    } else {
        dir + seq!['/'] + name
    }
}

/// `path` with the extension of its file name replaced by `ext`. A path
/// without a file name is left as it is.
pub open spec fn with_extension(path: Seq<char>, ext: Seq<char>) -> Seq<char> {
    if file_name(path).len() == 0 {
        path
    } else {
        path.take(path.len() - file_name(path).len() + file_stem(path).len()) + seq!['.'] + ext
    }
}

/// Whether the path names a static archive, by its extension `a`.
pub open spec fn is_archive(path: Seq<char>) -> bool {
    extension(path) == Some(seq!['a'])
}

/// `last_index` finds an occurrence that no later one follows.
pub proof fn lemma_last_index(s: Seq<char>, c: char)
    ensures
        -1 <= last_index(s, c) < s.len(),
        last_index(s, c) >= 0 ==> s[last_index(s, c)] == c,
        forall|k: int| last_index(s, c) < k < s.len() ==> #[trigger] s[k] != c,
    decreases s.len(),
{
    if s.len() == 0 {
    } else if s.last() == c {
    } else {
        let t = s.drop_last();
        lemma_last_index(t, c);
        assert forall|k: int| last_index(s, c) < k < s.len() implies #[trigger] s[k] != c by {
            if k < t.len() {
                assert(s[k] == t[k]);
            }
        }
    }
}

/// An index with nothing equal to `c` behind it is the last index.
pub proof fn lemma_last_index_is(s: Seq<char>, c: char, r: int)
    requires
        -1 <= r < s.len(),
        r >= 0 ==> s[r] == c,
        forall|k: int| r < k < s.len() ==> #[trigger] s[k] != c,
    ensures
        last_index(s, c) == r,
{
    lemma_last_index(s, c);
    let l = last_index(s, c);
    if l < r {
        assert(s[r] != c);
    } else if r < l {
        assert(s[l] != c);
    }
}

fn last_index_of(cs: &Vec<char>, from: usize, c: char) -> (r: Option<usize>)
    requires
        from <= cs.len(),
    ensures
        match r {
            Some(i) => from <= i < cs.len() && last_index(cs@.skip(from as int), c) == i - from,
            None => last_index(cs@.skip(from as int), c) == -1,
        },
{
    let ghost tail = cs@.skip(from as int);
    let mut i: usize = cs.len();
    while i > from
        invariant
            from <= i <= cs.len(),
            tail == cs@.skip(from as int),
            forall|k: int| i - from <= k < tail.len() ==> #[trigger] tail[k] != c,
        decreases i,
    {
        i -= 1;
        if cs[i] == c {
            proof {
                assert(tail[i - from] == cs@[i as int]);
                lemma_last_index_is(tail, c, i - from);
            }
            return Some(i);
        }
        assert forall|k: int| i - from <= k < tail.len() implies #[trigger] tail[k] != c by {
            if k == i - from {
                assert(tail[k] == cs@[i as int]);
            }
        }
    }
    proof {
        lemma_last_index_is(tail, c, -1);
    }
    None
}

/// Where the file name of a path starts, and where its extension dot stands.
struct Parts {
    name_start: usize,
    dot: Option<usize>,
    len: usize,
}

impl Parts {
    spec fn describes(&self, path: Seq<char>) -> bool {
        &&& self.len == path.len()
        &&& self.name_start == last_index(path, '/') + 1
        &&& self.name_start <= self.len
        &&& match self.dot {
            Some(d) => self.name_start < d < self.len && extension_dot(path) == d - self.name_start,
            None => extension_dot(path) <= 0,
        }
    }
}

fn parts_of(path: &str) -> (p: Parts)
    ensures
        p.describes(path@),
{
    let cs = chars_of(path);
    assert(cs@.skip(0) == cs@);
    let name_start: usize = match last_index_of(&cs, 0, '/') {
        Some(i) => i + 1,
        None => 0,
    };
    let dot = match last_index_of(&cs, name_start, '.') {
        Some(d) => if d > name_start {
            Some(d)
        } else {
            None
        },
        None => None,
    };
    Parts { name_start, dot, len: cs.len() }
}

/// The extension of the file name of `path`, if it has one.
pub fn path_extension(path: &str) -> (r: Option<String>)
    ensures
        match r {
            Some(e) => extension(path@) == Some(e@),
            None => extension(path@) is None,
        },
{
    let p = parts_of(path);
    match p.dot {
        Some(d) => {
            assert(file_name(path@).skip(d - p.name_start + 1) == path@.subrange(
                d + 1,
                p.len as int,
            ));
            Some(path.substring_char(d + 1, p.len).to_owned())
        },
        None => None,
    }
}

/// The file name of `path` without its extension.
pub fn path_stem(path: &str) -> (r: String)
    ensures
        r@ == file_stem(path@),
{
    let p = parts_of(path);
    match p.dot {
        Some(d) => {
            assert(file_name(path@).take(d - p.name_start) == path@.subrange(
                p.name_start as int,
                d as int,
            ));
            path.substring_char(p.name_start, d).to_owned()
        },
        None => {
            assert(file_name(path@) == path@.subrange(p.name_start as int, p.len as int));
            path.substring_char(p.name_start, p.len).to_owned()
        },
    }
}

/// `name` placed under `dir`.
pub fn join_path(dir: &str, name: &str) -> (r: String)
    ensures
        r@ == join(dir@, name@),
{
    let d = chars_of(dir);
    let n = chars_of(name);
    if n.len() > 0 && n[0] == '/' {
        return name.to_owned();
    }
    let mut out = dir.to_owned();
    if d.len() > 0 && d[d.len() - 1] != '/' {
        proof {
            reveal_strlit("/");
            assert("/"@ == seq!['/']);
        }
        out.append("/");
    }
    out.append(name);
    out
}

/// `path` with the extension of its file name replaced by `ext`.
pub fn replace_extension(path: &str, ext: &str) -> (r: String)
    ensures
        r@ == with_extension(path@, ext@),
{
    let p = parts_of(path);
    if p.name_start == p.len {
        return path.to_owned();
    }
    let end: usize = match p.dot {
        Some(d) => d,
        None => p.len,
    };
    proof {
        reveal_strlit(".");
        assert("."@ == seq!['.']);
        assert(file_name(path@).len() == p.len - p.name_start);
        assert(path@.take(end as int) == path@.subrange(0, end as int));
    }
    let mut out = path.substring_char(0, end).to_owned();
    out.append(".");
    out.append(ext);
    out
}

/// Whether `path` names a static archive.
pub fn path_is_archive(path: &str) -> (r: bool)
    ensures
        r == is_archive(path@),
{
    let p = parts_of(path);
    match p.dot {
        Some(d) => {
            if p.len - d == 2 {
                let c = path.get_char(d + 1);
                assert(file_name(path@).skip(d - p.name_start + 1) == path@.subrange(
                    d + 1,
                    p.len as int,
                ));
                assert(path@.subrange(d + 1, p.len as int).len() == 1);
                if c == 'a' {
                    assert(path@.subrange(d + 1, p.len as int) == seq!['a']);
                } else {
                    assert(seq!['a'][0] == 'a');
                }
                c == 'a'
            } else {
                assert(file_name(path@).skip(d - p.name_start + 1).len() == p.len - d - 1);
                assert(seq!['a'].len() == 1);
                false
            }
        },
        None => false,
    }
}

} // verus!
