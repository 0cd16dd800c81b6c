//! Display helpers.

use vstd::prelude::*;
use vstd::string::StrSliceExecFns;
use vstd::string::StringExecFns;

verus! {

/// A horizontal run of `n` box-drawing dashes.
pub open spec fn gutter_of(n: nat) -> Seq<char> {
    Seq::new(n, |i: int| '─')
}

/// What `pretty_box` draws around `s`.
pub open spec fn pretty_box_chars(s: Seq<char>) -> Seq<char> {
    "┌"@ + gutter_of((s.len() + 2) as nat) + "┐\n│ "@ + s + " │\n└"@
        + gutter_of((s.len() + 2) as nat) + "┘"@
}

/// A horizontal run of `n` box-drawing dashes.
fn gutter(n: usize) -> (r: String)
    ensures
        r@ == gutter_of(n as nat),
{
    let mut r = String::new();
    let mut t: usize = 0;
    proof {
        reveal_strlit("─");
        assert(r@ =~= gutter_of(0));
    }
    while t < n
        invariant
            t <= n,
            r@ == gutter_of(t as nat),
        decreases n - t,
    {
        r.append("─");
        proof {
            reveal_strlit("─");
            assert(r@ =~= gutter_of((t + 1) as nat));
        }
        t += 1;
    }
    r
}

/// Creates an ASCII-art-esque box around a string.
pub fn pretty_box(s: &str) -> (r: String)
    requires
        s@.len() + 2 <= usize::MAX,
    ensures
        r@ == pretty_box_chars(s@),
{
    let len = s.unicode_len();
    let g = gutter(len + 2);
    let mut r = String::new();
    r.append("┌");
    r.append(g.as_str());
    r.append("┐\n│ ");
    r.append(s);
    r.append(" │\n└");
    r.append(g.as_str());
    r.append("┘");
    proof {
        assert(r@ =~= pretty_box_chars(s@));
    }
    r
}

} // verus!
