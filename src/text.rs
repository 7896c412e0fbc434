use vstd::prelude::*;

verus! {

/// Relies on `str::chars` collected into a `Vec`: the characters of `s`, in order.
#[verifier::external_body]
pub(crate) fn chars_of(s: &str) -> (r: Vec<char>)
    ensures
        r@ == s@,
{
    s.chars().collect()
}

/// Relies on `String`'s `FromIterator<&char>`: the string made of those characters, in order.
#[verifier::external_body]
pub(crate) fn string_of(c: &Vec<char>) -> (r: String)
    ensures
        r@ == c@,
{
    c.iter().collect()
}

/// Characters that may trail a document without meaning anything.
pub open spec fn is_space(c: char) -> bool {
    c == ' ' || c == '\t' || c == '\r' || c == '\n'
}

/// `s` without its trailing whitespace.
pub open spec fn trim_end(s: Seq<char>) -> Seq<char>
    decreases s.len(),
{
    if s.len() > 0 && is_space(s.last()) {
        trim_end(s.drop_last())
    } else {
        s
    }
}

/// The length of `s` once its trailing whitespace is cut off.
pub fn trimmed_len(s: &Vec<char>) -> (n: usize)
    ensures
        n <= s@.len(),
        trim_end(s@) == s@.take(n as int),
{
    let mut n: usize = s.len();
    assert(s@.take(n as int) == s@);
    while n > 0 && (s[n - 1] == ' ' || s[n - 1] == '\t' || s[n - 1] == '\r' || s[n - 1] == '\n')
        invariant
            n <= s@.len(),
            trim_end(s@.take(n as int)) == trim_end(s@),
        decreases n,
    {
        assert(s@.take(n as int).drop_last() == s@.take(n - 1));
        n = n - 1;
    }
    n
}

/// Appends all of `b` to `a`.
pub fn append_chars(a: &mut Vec<char>, b: &Vec<char>)
    ensures
        final(a)@ == old(a)@ + b@,
{
    let mut i: usize = 0;
    while i < b.len()
        invariant
            i <= b@.len(),
            a@ == old(a)@ + b@.take(i as int),
        decreases b@.len() - i,
    {
        assert(b@.take(i + 1) == b@.take(i as int).push(b@[i as int]));
        a.push(b[i]);
        i = i + 1;
    }
    assert(b@.take(i as int) == b@);
}

/// Whether `s[pos..]` begins with `pat`.
pub fn matches_at(s: &Vec<char>, pos: usize, pat: &Vec<char>) -> (r: bool)
    requires
        pos <= s@.len(),
    ensures
        r == (pos + pat@.len() <= s@.len() && s@.subrange(pos as int, pos + pat@.len()) == pat@),
{
    if pat.len() > s.len() - pos {
        return false;
    }
    let mut i: usize = 0;
    while i < pat.len()
        invariant
            i <= pat@.len(),
            pos + pat@.len() <= s@.len(),
            s@.len() <= usize::MAX,
            forall|k: int| 0 <= k < i ==> s@[pos + k] == pat@[k],
        decreases pat@.len() - i,
    {
        if s[pos + i] != pat[i] {
            assert(s@.subrange(pos as int, pos + pat@.len())[i as int] != pat@[i as int]);
            return false;
        }
        i = i + 1;
    }
    assert(s@.subrange(pos as int, pos + pat@.len()) =~= pat@);
    true
}

/// How many characters of `pat` stand at `s[pos..]`, reading no further than `limit`.
pub fn common_prefix_len(s: &Vec<char>, pos: usize, pat: &Vec<char>, limit: usize) -> (k: usize)
    requires
        pos <= limit <= s@.len(),
    ensures
        k <= pat@.len(),
        pos + k <= limit,
        s@.subrange(pos as int, pos + k) == pat@.take(k as int),
{
    let mut k: usize = 0;
    while k < pat.len() && k < limit - pos && s[pos + k] == pat[k]
        invariant
            k <= pat@.len(),
            pos + k <= limit <= s@.len(),
            forall|i: int| 0 <= i < k ==> s@[pos + i] == pat@[i],
        decreases pat@.len() - k,
    {
        k = k + 1;
    }
    assert(s@.subrange(pos as int, pos + k) =~= pat@.take(k as int));
    k
}

} // verus!
