//! Working directory path handling.

use crate::chars::chars_of;
use crate::lex::find_char;
use vstd::prelude::*;

verus! {

/// Choice of the behavior of the `pwd` built-in.
#[derive(Debug, Clone, Copy, Default, Eq, Hash, PartialEq)]
pub enum Mode {
    /// Print the value of `$PWD` if it is a correct path, and fall back to
    /// `Physical` otherwise.
    #[default]
    Logical,
    /// Compute the canonical path to the working directory.
    Physical,
}

/// Whether `c` is `.` or `..`.
pub open spec fn is_dot_or_dot_dot(c: Seq<char>) -> bool {
    c == seq!['.'] || c == seq!['.', '.']
}

/// Whether some component of `s` that starts at `start` or later, splitting
/// at each `/`, is `.` or `..`.
pub open spec fn dot_component_from(s: Seq<char>, start: int) -> bool
    decreases s.len() - start,
{
    let e = find_char(s, start, '/');
    if !(0 <= start <= s.len()) {
        false
    } else if is_dot_or_dot_dot(s.subrange(start, e)) {
        true
    } else if e < s.len() && start <= e {
        dot_component_from(s, e + 1)
    } else {
        false
    }
}

/// Tests whether a path contains a dot (`.`) or dot-dot (`..`) component.
pub fn has_dot_or_dot_dot(path: &str) -> (r: bool)
    ensures
        r == dot_component_from(path@, 0),
{
    let v = chars_of(path);
    let n = v.len();
    let mut start: usize = 0;
    loop
        invariant
            v@ == path@,
            n == v@.len(),
            start <= n,
            dot_component_from(path@, 0) == dot_component_from(path@, start as int),
        decreases n - start,
    {
        proof {
            crate::lex::lemma_find_char(v@, start as int, '/');
        }
        let mut e = start;
        while e < n && v[e] != '/'
            invariant
                v@ == path@,
                n == v@.len(),
                start <= e <= n,
                find_char(v@, e as int, '/') == find_char(v@, start as int, '/'),
            decreases n - e,
        {
            e = e + 1;
        }
        let len = e - start;
        let dots = (len == 1 && v[start] == '.') || (len == 2 && v[start] == '.' && v[start + 1] == '.');
        assert(dots == is_dot_or_dot_dot(v@.subrange(start as int, e as int))) by {
            let sub = v@.subrange(start as int, e as int);
            if len == 1 && v@[start as int] == '.' {
                assert(sub =~= seq!['.']);
            } else if len == 2 && v@[start as int] == '.' && v@[start + 1] == '.' {
                assert(sub =~= seq!['.', '.']);
            } else if len == 1 {
                assert(sub[0] != seq!['.'][0]);
            } else if len == 2 {
                assert(sub[0] != seq!['.', '.'][0] || sub[1] != seq!['.', '.'][1]);
            } else {
                assert(sub.len() != seq!['.'].len() && sub.len() != seq!['.', '.'].len());
            }
        }
        if dots {
            return true;
        }
        if e >= n {
            return false;
        }
        start = e + 1;
    }
}

} // verus!
