//! Which files of the games folder are game packages.
use vstd::prelude::*;

use crate::text::chars_of;

verus! {

/// The suffix of a game package: `.rrs`.
pub open spec fn rrs_suffix() -> Seq<char> {
    seq!['.', 'r', 'r', 's']
}

/// Whether the file name `name` has the extension `rrs` as `Path::extension` reads it: it ends
/// with `.rrs` and something stands before that dot.
pub open spec fn is_game_name(name: Seq<char>) -> bool {
    name.len() >= 5 && name.subrange(name.len() - 4, name.len() as int) == rrs_suffix()
}

/// Whether the file name `name` has the extension `rrs`.
pub fn is_game_file_name(name: &str) -> (r: bool)
    ensures
        r == is_game_name(name@),
{
    let cs = chars_of(name);
    let n = cs.len();
    if n < 5 {
        return false;
    }
    let r = cs[n - 4] == '.' && cs[n - 3] == 'r' && cs[n - 2] == 'r' && cs[n - 1] == 's';
    proof {
        let tail = cs@.subrange(n - 4, n as int);
        assert(tail[0] == cs@[n - 4]);
        assert(tail[1] == cs@[n - 3]);
        assert(tail[2] == cs@[n - 2]);
        assert(tail[3] == cs@[n - 1]);
        if r {
            assert(tail =~= rrs_suffix());
        }
    }
    r
}

/// The names, in order, of the entries that are files with the extension `rrs`.
pub open spec fn game_names(entries: Seq<(String, bool)>) -> Seq<Seq<char>>
    decreases entries.len(),
{
    if entries.len() == 0 {
        seq![]
    } else {
        let rest = game_names(entries.drop_last());
        let e = entries.last();
        if e.1 && is_game_name(e.0@) {
            rest.push(e.0@)
        } else {
            rest
        }
    }
}

/// The game packages among the directory entries `entries` (file name, and whether it is a
/// regular file), in order.
pub fn game_file_names(entries: &[(String, bool)]) -> (r: Vec<String>)
    ensures
        r@.map_values(|s: String| s@) == game_names(entries@),
{
    let mut out: Vec<String> = Vec::new();
    let mut i: usize = 0;
    while i < entries.len()
        invariant
            i <= entries@.len(),
            out@.map_values(|s: String| s@) == game_names(entries@.take(i as int)),
        decreases entries@.len() - i,
    {
        let ghost before = out@;
        if entries[i].1 && is_game_file_name(entries[i].0.as_str()) {
            out.push(entries[i].0.clone());
        }
        proof {
            let t = entries@.take(i + 1);
            assert(t.drop_last() =~= entries@.take(i as int));
            assert(t.last() == entries@[i as int]);
            if entries@[i as int].1 && is_game_name(entries@[i as int].0@) {
                assert(out@.map_values(|s: String| s@) =~= before.map_values(|s: String| s@).push(
                    entries@[i as int].0@,
                ));
            } else {
                assert(out@ == before);
            }
        }
        i = i + 1;
    }
    assert(entries@.take(i as int) =~= entries@);
    out
}

} // verus!
