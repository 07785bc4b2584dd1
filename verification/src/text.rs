use vstd::prelude::*;

verus! {

/// Whether the text `s` begins with the text `pat`.
pub open spec fn has_prefix(s: Seq<char>, pat: Seq<char>) -> bool {
    pat.len() <= s.len() && s.subrange(0, pat.len() as int) == pat
}

/// Returns the characters of `s`, in order.
pub fn chars_of(s: &str) -> (v: Vec<char>)
    ensures
        v@ == s@,
{
    let mut v: Vec<char> = Vec::new();
    for c in it: s.chars()
        invariant
            v@ == it.seq().take(it.index() as int),
            it.seq() == s@,
    {
        v.push(c);
    }
    v
}

/// Whether the characters `s` begin with the text `pat`.
pub fn starts_with(s: &[char], pat: &str) -> (b: bool)
    ensures
        b == has_prefix(s@, pat@),
{
    let p = chars_of(pat);
    if p.len() > s.len() {
        return false;
    }
    let mut i: usize = 0;
    while i < p.len()
        invariant
            i <= p@.len(),
            p@.len() <= s@.len(),
            p@ == pat@,
            forall|j: int| 0 <= j < i ==> s@[j] == p@[j],
        decreases p@.len() - i,
    {
        if s[i] != p[i] {
            assert(s@.subrange(0, p@.len() as int)[i as int] != pat@[i as int]);
            return false;
        }
        i = i + 1;
    }
    assert(s@.subrange(0, p@.len() as int) =~= pat@);
    true
}

/// Whether two texts hold the same characters.
pub fn same_text(a: &str, b: &str) -> (r: bool)
    ensures
        r == (a@ == b@),
{
    let x = chars_of(a);
    let y = chars_of(b);
    if x.len() != y.len() {
        return false;
    }
    let mut i: usize = 0;
    while i < x.len()
        invariant
            i <= x@.len(),
            x@.len() == y@.len(),
            x@ == a@,
            y@ == b@,
            forall|j: int| 0 <= j < i ==> x@[j] == y@[j],
        decreases x@.len() - i,
    {
        if x[i] != y[i] {
            return false;
        }
        i = i + 1;
    }
    assert(x@ =~= y@);
    true
}

/// The text that Rust's `Debug` formatting prints for a `str` holding `s`.
pub uninterp spec fn debug_quoted(s: Seq<char>) -> Seq<char>;

/// Formats `s` with `{:?}`, the `Debug` form that the standard library gives a `str`
/// (the text between double quotes, with special characters escaped). Claimed: the
/// result depends on the characters of `s` alone, and is named `debug_quoted`.
#[verifier::external_body]
pub(crate) fn debug_str(s: &str) -> (shown: String)
    ensures
        shown@ == debug_quoted(s@),
{
    format!("{:?}", s)
}

/// Whether `s` is one of the words of `words`.
pub open spec fn in_table(words: Seq<&'static str>, s: Seq<char>) -> bool {
    exists|i: int| 0 <= i < words.len() && (#[trigger] words[i])@ == s
}

/// Whether `s` is one of the words of `words`.
pub fn is_one_of(s: &str, words: &Vec<&'static str>) -> (b: bool)
    ensures
        b == in_table(words@, s@),
{
    let mut i: usize = 0;
    while i < words.len()
        invariant
            i <= words@.len(),
            forall|j: int| 0 <= j < i ==> (#[trigger] words@[j])@ != s@,
        decreases words@.len() - i,
    {
        if same_text(s, words[i]) {
            return true;
        }
        i = i + 1;
    }
    false
}

} // verus!
