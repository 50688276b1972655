use vstd::prelude::*;
use vstd::string::*;

verus! {

/// White space as `char::is_whitespace` sees it (the Unicode `White_Space` property).
pub open spec fn is_space(c: char) -> bool {
    c == ' ' || ('\t' <= c && c <= '\r') || c == '\u{85}' || c == '\u{a0}' || c == '\u{1680}'
        || ('\u{2000}' <= c && c <= '\u{200a}') || c == '\u{2028}' || c == '\u{2029}'
        || c == '\u{202f}' || c == '\u{205f}' || c == '\u{3000}'
}

fn space(c: char) -> (r: bool)
    ensures
        r == is_space(c),
{
    c == ' ' || ('\t' <= c && c <= '\r') || c == '\u{85}' || c == '\u{a0}' || c == '\u{1680}'
        || ('\u{2000}' <= c && c <= '\u{200a}') || c == '\u{2028}' || c == '\u{2029}'
        || c == '\u{202f}' || c == '\u{205f}' || c == '\u{3000}'
}

/// Number of white-space characters that open `s`.
pub open spec fn lead_len(s: Seq<char>) -> nat
    decreases s.len(),
{
    if s.len() > 0 && is_space(s[0]) {
        1 + lead_len(s.drop_first())
    } else {
        0
    }
}

/// Number of white-space characters that close `s`.
pub open spec fn trail_len(s: Seq<char>) -> nat
    decreases s.len(),
{
    if s.len() > 0 && is_space(s.last()) {
        1 + trail_len(s.drop_last())
    } else {
        0
    }
}

/// `s` without the white space at either end.
pub open spec fn trimmed(s: Seq<char>) -> Seq<char> {
    let t = s.skip(lead_len(s) as int);
    t.take(t.len() - trail_len(t))
}


proof fn lemma_lead_le(s: Seq<char>)
    ensures
        lead_len(s) <= s.len(),
        trail_len(s) <= s.len(),
    decreases s.len(),
{
    if s.len() > 0 {
        lemma_lead_le(s.drop_first());
        lemma_lead_le(s.drop_last());
    }
}

/// Trimming never lengthens.
pub proof fn lemma_trimmed_len(s: Seq<char>)
    ensures
        trimmed(s).len() <= s.len(),
{
    lemma_lead_le(s);
    lemma_lead_le(s.skip(lead_len(s) as int));
}

proof fn lemma_lead_len(s: Seq<char>, k: int)
    requires
        0 <= k <= s.len(),
        forall|t: int| 0 <= t < k ==> is_space(#[trigger] s[t]),
        k == s.len() || !is_space(s[k]),
    ensures
        lead_len(s) == k,
    decreases k,
{
    if k > 0 {
        let d = s.drop_first();
        assert forall|t: int| 0 <= t < k - 1 implies is_space(#[trigger] d[t]) by {
            assert(d[t] == s[t + 1]);
        }
        if k - 1 < d.len() {
            assert(d[k - 1] == s[k]);
        }
        lemma_lead_len(d, k - 1);
    }
}

proof fn lemma_trail_len(s: Seq<char>, k: int)
    requires
        0 <= k <= s.len(),
        forall|t: int| s.len() - k <= t < s.len() ==> is_space(#[trigger] s[t]),
        k == s.len() || !is_space(s[s.len() - k - 1]),
    ensures
        trail_len(s) == k,
    decreases k,
{
    if k > 0 {
        let d = s.drop_last();
        assert forall|t: int| d.len() - (k - 1) <= t < d.len() implies is_space(
            #[trigger] d[t],
        ) by {
            assert(d[t] == s[t]);
        }
        if k - 1 < d.len() {
            assert(d[d.len() - k] == s[s.len() - k - 1]);
        }
        lemma_trail_len(d, k - 1);
    }
}

/// The characters of `line` in columns `lo .. hi`, without white space at either end.
pub fn trimmed_field(line: &str, lo: usize, hi: usize) -> (r: String)
    requires
        lo <= hi <= line@.len(),
    ensures
        r@ == trimmed(line@.subrange(lo as int, hi as int)),
{
    let ghost s = line@.subrange(lo as int, hi as int);
    let mut a: usize = lo;
    while a < hi && space(line.get_char(a))
        invariant
            lo <= a <= hi <= line@.len(),
            s == line@.subrange(lo as int, hi as int),
            forall|t: int| 0 <= t < a - lo ==> is_space(#[trigger] s[t]),
        decreases hi - a,
    {
        a = a + 1;
    }
    proof {
        lemma_lead_len(s, a - lo);
    }
    let ghost u = s.skip(a - lo);
    assert(u =~= line@.subrange(a as int, hi as int));
    let mut b: usize = hi;
    while b > a && space(line.get_char(b - 1))
        invariant
            lo <= a <= b <= hi <= line@.len(),
            u == line@.subrange(a as int, hi as int),
            forall|t: int| b - a <= t < u.len() ==> is_space(#[trigger] u[t]),
        decreases b - a,
    {
        b = b - 1;
    }
    proof {
        lemma_trail_len(u, hi - b);
        assert(u.take(u.len() - (hi - b)) =~= line@.subrange(a as int, b as int));
    }
    line.substring_char(a, b).to_owned()
}

} // verus!
