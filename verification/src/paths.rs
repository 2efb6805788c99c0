//! Path handling on plain strings: the file name of a path (the part
//! after the last separator), its extension (the part of the file name
//! after the last dot), and joining a directory with a file name.

use vstd::prelude::*;

verus! {

/// The file name of a path: the suffix after the last `/`.
pub open spec fn filename_of(p: Seq<char>) -> Seq<char>
    decreases p.len(),
{
    if p.len() == 0 {
        Seq::empty()
    } else if p.last() == '/' {
        Seq::empty()
    } else {
        filename_of(p.drop_last()).push(p.last())
    }
}

/// The extension of a file name: the suffix after the last dot, where a
/// dot at the very start of the name (a hidden file) does not count.
pub open spec fn extension_of(f: Seq<char>) -> Option<Seq<char>>
    decreases f.len(),
{
    if f.len() <= 1 {
        None
    } else if f.last() == '.' {
        Some(Seq::empty())
    } else {
        match extension_of(f.drop_last()) {
            Some(e) => Some(e.push(f.last())),
            None => None,
        }
    }
}

/// A directory joined with a file name, inserting a separator unless the
/// directory is empty or already ends in one.
pub open spec fn join_path(dir: Seq<char>, name: Seq<char>) -> Seq<char> {
    if dir.len() == 0 {
        name
    } else if dir.last() == '/' {
        dir + name
    } else {
        dir + seq!['/'] + name
    }
}

/// Computes the file name of a path.
pub fn filename_str(p: &str) -> (r: String)
    ensures
        r@ == filename_of(p@),
    decreases p@.len(),
{
    let n = p.unicode_len();
    if n == 0 {
        String::new()
    } else {
        let last = p.get_char(n - 1);
        if last == '/' {
            String::new()
        } else {
            let head = p.substring_char(0, n - 1);
            assert(head@ =~= p@.drop_last());
            let mut r = filename_str(head);
            r.push(last);
            r
        }
    }
}

/// Computes the extension of a file name.
pub fn extension_str(f: &str) -> (r: Option<String>)
    ensures
        match r {
            Some(e) => extension_of(f@) == Some(e@),
            None => extension_of(f@) is None,
        },
    decreases f@.len(),
{
    let n = f.unicode_len();
    if n <= 1 {
        None
    } else {
        let last = f.get_char(n - 1);
        if last == '.' {
            Some(String::new())
        } else {
            let head = f.substring_char(0, n - 1);
            assert(head@ =~= f@.drop_last());
            match extension_str(head) {
                Some(mut e) => {
                    e.push(last);
                    Some(e)
                }
                None => None,
            }
        }
    }
}

/// Joins a directory path with a file name.
pub fn join_path_str(dir: &str, name: &str) -> (r: String)
    ensures
        r@ == join_path(dir@, name@),
{
    let n = dir.unicode_len();
    if n == 0 {
        let mut r = String::new();
        r.append(name);
        r
    } else if dir.get_char(n - 1) == '/' {
        let mut r = String::new();
        r.append(dir);
        r.append(name);
        r
    } else {
        let mut r = String::new();
        r.append(dir);
        r.push('/');
        r.append(name);
        proof {
            assert(r@ =~= dir@ + seq!['/'] + name@);
        }
        r
    }
}

} // verus!
