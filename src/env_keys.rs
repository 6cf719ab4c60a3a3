use vstd::prelude::*;

use crate::project::names_view;
use crate::text::{split_first, split_once_char, trim_ws, trimmed};

verus! {

/// The key that a dotenv line declares: the text before its first `=`, trimmed; `None`
/// for a line without `=`.
pub open spec fn line_key(line: Seq<char>) -> Option<Seq<char>> {
    match split_first(line, '=') {
        Some((key, _)) => Some(trimmed(key)),
        None => None,
    }
}

/// The keys that `lines` declare, in order.
pub open spec fn env_keys(lines: Seq<Seq<char>>) -> Seq<Seq<char>>
    decreases lines.len(),
{
    if lines.len() == 0 {
        seq![]
    } else {
        let k = env_keys(lines.drop_last());
        match line_key(lines.last()) {
            Some(key) => k.push(key),
            None => k,
        }
    }
}

/// The variable names that the lines of a dotenv file declare, values left out.
pub fn get_env_file_keys(lines: &Vec<String>) -> (r: Vec<String>)
    ensures
        names_view(r@) == env_keys(names_view(lines@)),
{
    let mut keys: Vec<String> = Vec::new();
    let mut i: usize = 0;
    while i < lines.len()
        invariant
            i <= lines.len(),
            names_view(keys@) == env_keys(names_view(lines@.take(i as int))),
        decreases lines.len() - i,
    {
        let ghost prev = names_view(lines@.take(i as int));
        let ghost next = names_view(lines@.take(i + 1));
        assert(next.drop_last() =~= prev);
        assert(next.last() == lines@[i as int]@);
        match split_once_char(lines[i].as_str(), '=') {
            Some((key, _)) => {
                keys.push(trim_ws(key).to_owned());
                assert(names_view(keys@) =~= env_keys(next));
            },
            None => {},
        }
        i = i + 1;
    }
    assert(lines@.take(i as int) =~= lines@);
    keys
}

} // verus!
