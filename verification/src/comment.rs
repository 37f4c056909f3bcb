//! Commenting a block of lines in and out.
//!
//! `toggle_comment` rewrites a selection of editor lines: when every
//! non-blank line is already a comment, each loses the text up to its
//! first `#` and one space after it; otherwise every non-blank line
//! gains a `# ` prefix.  Blank lines keep their break but lose their
//! whitespace, and the result ends in a break only where the selection
//! did.

use vstd::prelude::*;

use crate::text::{find_nl_after, lemma_nl_after, nl_after, non_ws_after, scan_non_ws};

verus! {

/// Offset of the first `#` at or after `from`, or the length of the
/// text.
pub open spec fn hash_after(s: Seq<char>, from: int) -> int
    decreases s.len() - from,
{
    if from >= s.len() {
        s.len() as int
    } else if s[from] == '#' {
        from
    } else {
        hash_after(s, from + 1)
    }
}

pub proof fn lemma_hash_after(s: Seq<char>, from: int)
    requires
        0 <= from <= s.len(),
    ensures
        from <= hash_after(s, from) <= s.len(),
        hash_after(s, from) < s.len() ==> s[hash_after(s, from)] == '#',
        forall|j: int| from <= j < hash_after(s, from) ==> s[j] != '#',
    decreases s.len() - from,
{
    if from < s.len() && s[from] != '#' {
        lemma_hash_after(s, from + 1);
    }
}

fn find_hash(text: &str, from: usize) -> (r: usize)
    requires
        from <= text@.len(),
    ensures
        r as int == hash_after(text@, from as int),
{
    let n = text.unicode_len();
    let mut i = from;
    while i < n
        invariant
            from <= i <= n,
            n == text@.len(),
            hash_after(text@, from as int) == hash_after(text@, i as int),
        decreases n - i,
    {
        if text.get_char(i) == '#' {
            return i;
        }
        i += 1;
    }
    n
}

/// A line holding only whitespace.
pub open spec fn is_blank_line(l: Seq<char>) -> bool {
    non_ws_after(l, 0) == l.len()
}

/// A comment line: blank, or opening with `#` after any whitespace.
pub open spec fn is_comment_line(l: Seq<char>) -> bool {
    is_blank_line(l) || l[non_ws_after(l, 0)] == '#'
}

fn is_comment_line_exec(line: &str) -> (r: bool)
    ensures
        r == is_comment_line(line@),
{
    let n = line.unicode_len();
    let k = scan_non_ws(line, 0);
    if k == n {
        true
    } else {
        line.get_char(k) == '#'
    }
}

/// Every line of the text from offset `p` on is a comment line.
pub open spec fn all_comment_from(s: Seq<char>, p: int) -> bool
    decreases s.len() - p,
    via all_comment_from_dec
{
    if p < 0 || p >= s.len() {
        true
    } else {
        let j = nl_after(s, p);
        if j >= s.len() {
            is_comment_line(s.subrange(p, j))
        } else {
            is_comment_line(s.subrange(p, j)) && all_comment_from(s, j + 1)
        }
    }
}

#[via_fn]
proof fn all_comment_from_dec(s: Seq<char>, p: int) {
    if 0 <= p < s.len() {
        lemma_nl_after(s, p);
    }
}

/// One comment line with its comment mark removed: the text before its
/// first `#`, then the text after it, less one space directly after the
/// mark.
pub open spec fn uncomment_line(l: Seq<char>) -> Seq<char> {
    let h = hash_after(l, 0);
    let x = l.subrange(0, h);
    let y = l.subrange(h + 1, l.len() as int);
    if y.len() > 0 && y[0] == ' ' {
        x + y.drop_first()
    } else {
        x + y
    }
}

/// One line turned into a comment.
pub open spec fn commented_line(l: Seq<char>) -> Seq<char> {
    seq!['#', ' '] + l
}

/// What one line becomes: blank lines lose their text, and the others
/// lose or gain the comment mark.
pub open spec fn toggled_line(l: Seq<char>, uncomment: bool) -> Seq<char> {
    if is_blank_line(l) {
        Seq::empty()
    } else if uncomment {
        uncomment_line(l)
    } else {
        commented_line(l)
    }
}

/// The toggled text from offset `p` on: each line toggled, its break
/// kept, and no break added after a final line that had none.
pub open spec fn toggle_from(s: Seq<char>, p: int, uncomment: bool) -> Seq<char>
    decreases s.len() - p,
    via toggle_from_dec
{
    if p < 0 || p >= s.len() {
        Seq::empty()
    } else {
        let j = nl_after(s, p);
        let piece = toggled_line(s.subrange(p, j), uncomment);
        if j >= s.len() {
            piece
        } else {
            piece + seq!['\n'] + toggle_from(s, j + 1, uncomment)
        }
    }
}

#[via_fn]
proof fn toggle_from_dec(s: Seq<char>, p: int, uncomment: bool) {
    if 0 <= p < s.len() {
        lemma_nl_after(s, p);
    }
}

/// The whole toggled text: comments removed when every line is already
/// a comment line, comments added otherwise.
pub open spec fn spec_toggle(s: Seq<char>) -> Seq<char> {
    toggle_from(s, 0, all_comment_from(s, 0))
}

/// Rewrite a selection of lines, commenting them out or back in.
pub fn toggle_comment(text: &str) -> (r: String)
    ensures
        r@ == spec_toggle(text@),
{
    let ghost s = text@;
    let n = text.unicode_len();
    let mut unc = true;
    let mut p: usize = 0;
    while p < n
        invariant
            s == text@,
            n == s.len(),
            p <= n,
            all_comment_from(s, 0) == (unc && all_comment_from(s, p as int)),
        decreases n - p,
    {
        proof {
            lemma_nl_after(s, p as int);
        }
        let j = find_nl_after(text, p);
        let line = text.substring_char(p, j);
        let c = is_comment_line_exec(line);
        unc = unc && c;
        p = if j >= n {
            n
        } else {
            j + 1
        };
    }
    let mut r = String::new();
    proof {
        assert(r@ + toggle_from(s, 0, unc) =~= toggle_from(s, 0, unc));
    }
    let mut q: usize = 0;
    while q < n
        invariant
            s == text@,
            n == s.len(),
            q <= n,
            unc ==> all_comment_from(s, q as int),
            unc == all_comment_from(s, 0),
            spec_toggle(s) == r@ + toggle_from(s, q as int, unc),
        decreases n - q,
    {
        proof {
            lemma_nl_after(s, q as int);
        }
        let j = find_nl_after(text, q);
        let line = text.substring_char(q, j);
        let ghost l = s.subrange(q as int, j as int);
        let ghost r0 = r@;
        let ln = line.unicode_len();
        let k = scan_non_ws(line, 0);
        if k == ln {
            proof {
                assert(toggled_line(l, unc) =~= Seq::<char>::empty());
                assert(r@ =~= r0 + toggled_line(l, unc));
            }
        } else if unc {
            proof {
                assert(is_comment_line(l));
                lemma_hash_after(l, 0);
                if hash_after(l, 0) > non_ws_after(l, 0) {
                    assert(l[non_ws_after(l, 0)] != '#');
                    assert(false);
                }
            }
            let h = find_hash(line, 0);
            let x = line.substring_char(0, h);
            r.append(x);
            let tail = if h + 1 < ln && line.get_char(h + 1) == ' ' {
                line.substring_char(h + 2, ln)
            } else {
                line.substring_char(h + 1, ln)
            };
            r.append(tail);
            proof {
                let y = l.subrange(h as int + 1, l.len() as int);
                if y.len() > 0 && y[0] == ' ' {
                    assert(y.drop_first() =~= l.subrange(h as int + 2, l.len() as int));
                } else {
                    assert(y =~= l.subrange(h as int + 1, l.len() as int));
                }
                assert(toggled_line(l, unc) =~= x@ + tail@);
                assert(r@ =~= r0 + toggled_line(l, unc));
            }
        } else {
            r.append("# ");
            r.append(line);
            proof {
                reveal_strlit("# ");
                assert("# "@ =~= seq!['#', ' ']);
                assert(toggled_line(l, unc) =~= "# "@ + line@);
                assert(r@ =~= r0 + toggled_line(l, unc));
            }
        }
        if j < n {
            r.append("\n");
            proof {
                reveal_strlit("\n");
                assert("\n"@ =~= seq!['\n']);
                assert(r@ =~= r0 + toggled_line(l, unc) + seq!['\n']);
            }
        }
        proof {
            if j >= n {
                assert(toggle_from(s, q as int, unc) == toggled_line(l, unc));
                assert(toggle_from(s, n as int, unc) == Seq::<char>::empty());
                assert(r@ + toggle_from(s, n as int, unc) =~= r0 + toggle_from(s, q as int, unc));
            } else {
                assert(toggle_from(s, q as int, unc) == toggled_line(l, unc) + seq!['\n']
                    + toggle_from(s, (j + 1) as int, unc));
                assert(r@ + toggle_from(s, (j + 1) as int, unc) =~= r0 + toggle_from(
                    s,
                    q as int,
                    unc,
                ));
            }
        }
        q = if j >= n {
            n
        } else {
            j + 1
        };
    }
    proof {
        assert(toggle_from(s, n as int, unc) == Seq::<char>::empty());
        assert(r@ =~= r@ + toggle_from(s, n as int, unc));
    }
    r
}

} // verus!
