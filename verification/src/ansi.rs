//! Removal of ANSI colour codes: control sequences of the form
//! `ESC [ parameters letter`, where the parameters are digits and `;`.
use vstd::prelude::*;
use crate::text::{chars_of, string_from_chars};

verus! {

pub open spec fn is_csi_param(c: char) -> bool {
    ('0' <= c && c <= '9') || c == ';'
}

pub open spec fn is_ascii_letter(c: char) -> bool {
    ('a' <= c && c <= 'z') || ('A' <= c && c <= 'Z')
}

/// The number of parameter characters in `s` from position `i` on.
pub open spec fn param_run(s: Seq<char>, i: int) -> int
    decreases s.len() - i,
{
    if 0 <= i < s.len() && is_csi_param(s[i]) {
        1 + param_run(s, i + 1)
    } else {
        0
    }
}

/// The length of the control sequence that starts at position `i` of `s`,
/// or 0 where none starts there.
pub open spec fn csi_len(s: Seq<char>, i: int) -> int {
    if 0 <= i && i + 1 < s.len() && s[i] == '\u{1b}' && s[i + 1] == '[' {
        let j = i + 2 + param_run(s, i + 2);
        if j < s.len() && is_ascii_letter(s[j]) {
            j + 1 - i
        } else {
            0
        }
    } else {
        0
    }
}

/// `s[i..]` with its control sequences removed, each found from the left
/// and removed whole before the search goes on after it.
pub open spec fn strip_ansi_from(s: Seq<char>, i: int) -> Seq<char>
    decreases s.len() - i,
{
    if i < 0 || i >= s.len() {
        seq![]
    } else if csi_len(s, i) > 0 {
        strip_ansi_from(s, i + csi_len(s, i))
    } else {
        seq![s[i]] + strip_ansi_from(s, i + 1)
    }
}

/// The text with its ANSI control sequences removed.
pub open spec fn ansi_stripped(s: Seq<char>) -> Seq<char> {
    strip_ansi_from(s, 0)
}

pub proof fn lemma_param_run_bounds(s: Seq<char>, i: int)
    requires
        0 <= i <= s.len(),
    ensures
        0 <= param_run(s, i) <= s.len() - i,
        forall|k: int| i <= k < i + param_run(s, i) ==> is_csi_param(#[trigger] s[k]),
        i + param_run(s, i) < s.len() ==> !is_csi_param(s[i + param_run(s, i)]),
    decreases s.len() - i,
{
    if i < s.len() && is_csi_param(s[i]) {
        lemma_param_run_bounds(s, i + 1);
    }
}

/// The length of the control sequence at position `i` of `v`, or 0.
fn csi_len_at(v: &Vec<char>, i: usize) -> (n: usize)
    requires
        i < v.len(),
    ensures
        n == csi_len(v@, i as int),
{
    if i + 1 < v.len() && v[i] == '\u{1b}' && v[i + 1] == '[' {
        let mut j = i + 2;
        proof {
            lemma_param_run_bounds(v@, i + 2);
        }
        while j < v.len() && (('0' <= v[j] && v[j] <= '9') || v[j] == ';')
            invariant
                i + 2 <= j <= v.len(),
                j <= i + 2 + param_run(v@, i + 2),
                forall|k: int| i + 2 <= k < j ==> is_csi_param(#[trigger] v@[k]),
                i + 2 + param_run(v@, i + 2) <= v.len(),
                i + 2 + param_run(v@, i + 2) < v.len() ==> !is_csi_param(
                    v@[i + 2 + param_run(v@, i + 2)],
                ),
            decreases v.len() - j,
        {
            j = j + 1;
        }
        proof {
            if j < i + 2 + param_run(v@, i + 2) {
                assert(is_csi_param(v@[j as int]));
            }
        }
        if j < v.len() && (('a' <= v[j] && v[j] <= 'z') || ('A' <= v[j] && v[j] <= 'Z')) {
            j + 1 - i
        } else {
            0
        }
    } else {
        0
    }
}

/// The text with its ANSI control sequences removed.
pub fn strip_ansi_chars(v: &Vec<char>) -> (r: Vec<char>)
    ensures
        r@ == ansi_stripped(v@),
{
    let mut r: Vec<char> = Vec::new();
    let mut i: usize = 0;
    while i < v.len()
        invariant
            i <= v.len(),
            r@ + strip_ansi_from(v@, i as int) == ansi_stripped(v@),
        decreases v.len() - i,
    {
        let n = csi_len_at(v, i);
        if n > 0 {
            i = i + n;
        } else {
            let ghost before = r@;
            r.push(v[i]);
            assert(r@ + strip_ansi_from(v@, i + 1) =~= before + strip_ansi_from(v@, i as int));
            i = i + 1;
        }
    }
    assert(r@ =~= r@ + strip_ansi_from(v@, i as int));
    r
}


/// The text with its ANSI colour codes removed.
pub fn strip_ansi(text: &str) -> (r: String)
    ensures
        r@ == ansi_stripped(text@),
{
    let v = chars_of(text);
    string_from_chars(&strip_ansi_chars(&v))
}

} // verus!
