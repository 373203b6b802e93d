//! Whitespace and trimming on character sequences.
use vstd::prelude::*;

verus! {

/// Whether `c` has the Unicode `White_Space` property.
pub uninterp spec fn space_of(c: char) -> bool;

/// Relies on `char::is_whitespace`: the answer depends on the character alone.
#[verifier::external_body]
fn is_space(c: char) -> (r: bool)
    ensures
        r == space_of(c),
{
    c.is_whitespace()
}

/// Every character of `s` is whitespace (the empty sequence included).
pub open spec fn blank(s: Seq<char>) -> bool {
    forall|i: int| 0 <= i < s.len() ==> space_of(#[trigger] s[i])
}

/// `s` without its leading whitespace.
pub open spec fn trim_start(s: Seq<char>) -> Seq<char>
    decreases s.len(),
{
    if s.len() > 0 && space_of(s[0]) {
        trim_start(s.subrange(1, s.len() as int))
    } else {
        s
    }
}

/// `s` without its trailing whitespace.
pub open spec fn trim_end(s: Seq<char>) -> Seq<char>
    decreases s.len(),
{
    if s.len() > 0 && space_of(s[s.len() - 1]) {
        trim_end(s.subrange(0, s.len() - 1))
    } else {
        s
    }
}

/// `s` without surrounding whitespace.
pub open spec fn trimmed(s: Seq<char>) -> Seq<char> {
    trim_end(trim_start(s))
}

/// Text that shows something once trimmed.
pub open spec fn visible(s: Seq<char>) -> bool {
    trimmed(s).len() > 0
}

proof fn lemma_trim_start_blank(s: Seq<char>)
    ensures
        trim_start(s).len() == 0 <==> blank(s),
        trim_start(s).len() > 0 ==> !space_of(trim_start(s)[0]),
    decreases s.len(),
{
    if s.len() > 0 && space_of(s[0]) {
        let t = s.subrange(1, s.len() as int);
        lemma_trim_start_blank(t);
        if blank(t) {
            assert forall|i: int| 0 <= i < s.len() implies space_of(#[trigger] s[i]) by {
                if i > 0 {
                    assert(s[i] == t[i - 1]);
                }
            }
        }
        if blank(s) {
            assert forall|i: int| 0 <= i < t.len() implies space_of(#[trigger] t[i]) by {
                assert(t[i] == s[i + 1]);
            }
        }
    } else if s.len() > 0 {
        assert(!space_of(s[0]));
    }
}

proof fn lemma_trim_end_keeps_head(s: Seq<char>)
    requires
        s.len() > 0,
        !space_of(s[0]),
    ensures
        trim_end(s).len() > 0,
    decreases s.len(),
{
    if space_of(s[s.len() - 1]) {
        let t = s.subrange(0, s.len() - 1);
        assert(t[0] == s[0]);
        lemma_trim_end_keeps_head(t);
    }
}

/// Text is visible exactly when it is not all whitespace.
pub proof fn lemma_visible_iff_not_blank(s: Seq<char>)
    ensures
        visible(s) <==> !blank(s),
{
    lemma_trim_start_blank(s);
    if trim_start(s).len() > 0 {
        lemma_trim_end_keeps_head(trim_start(s));
    }
}

/// The text of `s` without surrounding whitespace.
pub fn trim(s: &str) -> (r: &str)
    ensures
        r@ == trimmed(s@),
{
    let n = s.unicode_len();
    let mut i: usize = 0;
    assert(s@.subrange(0, n as int) =~= s@);
    while i < n && is_space(s.get_char(i))
        invariant
            i <= n,
            n == s@.len(),
            trim_start(s@.subrange(i as int, n as int)) == trim_start(s@),
        decreases n - i,
    {
        let ghost t = s@.subrange(i as int, n as int);
        assert(t.subrange(1, t.len() as int) =~= s@.subrange(i + 1, n as int));
        i = i + 1;
    }
    let ghost head = s@.subrange(i as int, n as int);
    assert(i < n ==> head[0] == s@[i as int]);
    assert(head == trim_start(s@));
    let mut j: usize = n;
    while j > i && is_space(s.get_char(j - 1))
        invariant
            i <= j <= n,
            n == s@.len(),
            head == s@.subrange(i as int, n as int),
            trim_end(s@.subrange(i as int, j as int)) == trim_end(head),
        decreases j,
    {
        let ghost t = s@.subrange(i as int, j as int);
        assert(t.subrange(0, t.len() - 1) =~= s@.subrange(i as int, j - 1));
        j = j - 1;
    }
    let ghost last = s@.subrange(i as int, j as int);
    assert(j > i ==> last[last.len() - 1] == s@[j - 1]);
    s.substring_char(i, j)
}

/// Whether the text shows anything once trimmed.
pub fn is_visible(s: &str) -> (r: bool)
    ensures
        r == visible(s@),
{
    let t = trim(s);
    t.unicode_len() > 0
}

} // verus!
