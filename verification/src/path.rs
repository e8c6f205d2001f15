//! The name a path ends in, and the leading-dot convention for hidden files.

use crate::text::chars_of;
use vstd::prelude::*;

verus! {

/// Where the last component of a path begins: just after its last separator,
/// or at 0 when it holds none.
pub open spec fn name_start(path: Seq<char>) -> int
    decreases path.len(),
{
    if path.len() == 0 || path.last() == '/' {
        path.len() as int
    } else {
        name_start(path.drop_last())
    }
}

/// The file name of a path: its last component, where trailing separators and
/// `.` components are passed over. A path that ends in `..`, and one with no
/// component left, has none.
pub open spec fn file_name(path: Seq<char>) -> Option<Seq<char>>
    decreases path.len(),
{
    if path.len() == 0 {
        None
    } else if path.last() == '/' {
        file_name(path.drop_last())
    } else {
        let name = path.skip(name_start(path));
        if name.len() == 1 && name[0] == '.' {
            file_name(path.drop_last())
        } else if name.len() == 2 && name[0] == '.' && name[1] == '.' {
            None
        } else {
            Some(name)
        }
    }
}

/// Whether the path has a file name and that name begins with a dot.
pub open spec fn dot_named(path: Seq<char>) -> bool {
    file_name(path) matches Some(name) && name.len() > 0 && name[0] == '.'
}

proof fn lemma_name_start_bounds(path: Seq<char>)
    ensures
        0 <= name_start(path) <= path.len(),
        path.len() > 0 && path.last() != '/' ==> name_start(path) < path.len(),
    decreases path.len(),
{
    if path.len() > 0 && path.last() != '/' {
        lemma_name_start_bounds(path.drop_last());
    }
}

fn last_name_start(chars: &Vec<char>, end: usize) -> (start: usize)
    requires
        end <= chars.len(),
    ensures
        start == name_start(chars@.take(end as int)),
        start <= end,
{
    let mut start: usize = end;
    while start > 0 && chars[start - 1] != '/'
        invariant
            start <= end <= chars.len(),
            name_start(chars@.take(end as int)) == name_start(chars@.take(start as int)),
        decreases start,
    {
        assert(chars@.take(start as int).drop_last() =~= chars@.take(start - 1));
        start = start - 1;
    }
    start
}

/// Whether the file name of `path` begins with a dot.
pub fn has_dot_name(path: &str) -> (dotted: bool)
    ensures
        dotted == dot_named(path@),
{
    let chars = chars_of(path);
    let mut end: usize = chars.len();
    assert(chars@.take(end as int) =~= chars@);
    loop
        invariant
            end <= chars.len(),
            chars@ == path@,
            file_name(chars@.take(end as int)) == file_name(path@),
        decreases end,
    {
        let ghost rest = chars@.take(end as int);
        if end == 0 {
            return false;
        }
        assert(rest.drop_last() =~= chars@.take(end - 1));
        if chars[end - 1] == '/' {
            end = end - 1;
        } else {
            let start = last_name_start(&chars, end);
            proof {
                lemma_name_start_bounds(rest);
            }
            let len: usize = end - start;
            if len == 1 && chars[start] == '.' {
                end = end - 1;
            } else if len == 2 && chars[start] == '.' && chars[start + 1] == '.' {
                return false;
            } else {
                return chars[start] == '.';
            }
        }
    }
}

} // verus!
