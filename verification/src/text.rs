//! Character-level text utilities shared by the record parsers: splitting a
//! block into lines, taking the value after the last colon of a line,
//! trimming whitespace, and reading non-negative decimal numbers.

use vstd::prelude::*;

verus! {

use vstd::std_specs::iter::IteratorSpec;

broadcast use vstd::string::next_postcondition, vstd::string::axiom_spec_iter;

/// ASCII whitespace: space, tab, line feed, vertical tab, form feed,
/// carriage return. Kernel text records only ever contain these.
pub open spec fn is_space(c: char) -> bool {
    c == ' ' || c == '\t' || c == '\n' || c == '\u{b}' || c == '\u{c}' || c == '\r'
}

fn is_space_exec(c: char) -> (r: bool)
    ensures
        r == is_space(c),
{
    c == ' ' || c == '\t' || c == '\n' || c == '\u{b}' || c == '\u{c}' || c == '\r'
}

/// The text after the last `:` of `s`; all of `s` when it has no colon.
pub open spec fn after_last_colon(s: Seq<char>) -> Seq<char>
    decreases s.len(),
{
    if s.len() == 0 {
        Seq::empty()
    } else if s.last() == ':' {
        Seq::empty()
    } else {
        after_last_colon(s.drop_last()).push(s.last())
    }
}

/// `s` without leading whitespace.
pub open spec fn trim_start(s: Seq<char>) -> Seq<char>
    decreases s.len(),
{
    if s.len() > 0 && is_space(s[0]) {
        trim_start(s.drop_first())
    } else {
        s
    }
}

/// `s` without trailing whitespace.
pub open spec fn trim_end(s: Seq<char>) -> Seq<char>
    decreases s.len(),
{
    if s.len() > 0 && is_space(s.last()) {
        trim_end(s.drop_last())
    } else {
        s
    }
}

/// `s` without leading and trailing whitespace.
pub open spec fn trimmed(s: Seq<char>) -> Seq<char> {
    trim_end(trim_start(s))
}

pub open spec fn is_digit(c: char) -> bool {
    48 <= c as u32 <= 57
}

pub open spec fn digit_val(c: char) -> nat {
    (c as u32 - 48) as nat
}

/// A non-empty run of decimal digits.
pub open spec fn all_digits(s: Seq<char>) -> bool {
    s.len() > 0 && forall|i: int| 0 <= i < s.len() ==> is_digit(s[i])
}

/// The number written in decimal by `s` (most significant digit first).
pub open spec fn digits_val(s: Seq<char>) -> nat
    decreases s.len(),
{
    if s.len() == 0 {
        0
    } else {
        digits_val(s.drop_last()) * 10 + digit_val(s.last())
    }
}

/// `line` without one trailing carriage return.
pub open spec fn strip_cr(line: Seq<char>) -> Seq<char> {
    if line.len() > 0 && line.last() == '\r' {
        line.drop_last()
    } else {
        line
    }
}

/// The lines of `s`, split at `\n`. A carriage return just before a
/// newline belongs to the terminator and is dropped; the final line has
/// no terminator.
pub open spec fn split_lines(s: Seq<char>) -> Seq<Seq<char>>
    decreases s.len(),
{
    if s.len() == 0 {
        seq![Seq::empty()]
    } else if s.last() == '\n' {
        let r = split_lines(s.drop_last());
        r.update(r.len() - 1, strip_cr(r.last())).push(Seq::empty())
    } else {
        let r = split_lines(s.drop_last());
        r.update(r.len() - 1, r.last().push(s.last()))
    }
}

pub open spec fn starts_with(s: Seq<char>, prefix: Seq<char>) -> bool {
    s.len() >= prefix.len() && s.subrange(0, prefix.len() as int) == prefix
}

/// Lexicographic order on character sequences, by code point; agrees with
/// the byte order of the UTF-8 encodings.
pub open spec fn lex_le(a: Seq<char>, b: Seq<char>) -> bool
    decreases a.len(),
{
    if a.len() == 0 {
        true
    } else if b.len() == 0 {
        false
    } else if (a[0] as u32) < (b[0] as u32) {
        true
    } else if (a[0] as u32) > (b[0] as u32) {
        false
    } else {
        lex_le(a.drop_first(), b.drop_first())
    }
}

/// Any two character sequences are ordered one way or the other.
pub proof fn lemma_lex_le_total(a: Seq<char>, b: Seq<char>)
    ensures
        lex_le(a, b) || lex_le(b, a),
    decreases a.len(),
{
    if a.len() > 0 && b.len() > 0 && (a[0] as u32) == (b[0] as u32) {
        lemma_lex_le_total(a.drop_first(), b.drop_first());
    }
}

/// The lexicographic order is transitive.
pub proof fn lemma_lex_le_trans(a: Seq<char>, b: Seq<char>, c: Seq<char>)
    requires
        lex_le(a, b),
        lex_le(b, c),
    ensures
        lex_le(a, c),
    decreases a.len(),
{
    if a.len() > 0 && b.len() > 0 && c.len() > 0 {
        if (a[0] as u32) == (b[0] as u32) && (b[0] as u32) == (c[0] as u32) {
            lemma_lex_le_trans(a.drop_first(), b.drop_first(), c.drop_first());
        }
    }
}

/// The characters of `s`, in order.
pub fn chars_of(s: &str) -> (v: Vec<char>)
    ensures
        v@ == s@,
{
    let mut v: Vec<char> = Vec::new();
    let mut it = s.chars();
    loop
        invariant
            v@ + it.remaining() == s@,
            it.obeys_prophetic_iter_laws(),
            it.decrease() is Some,
        ensures
            v@ == s@,
        decreases it.decrease()->0,
    {
        let ghost prev = it;
        let r = it.next();
        proof {
            vstd::string::next_postcondition(&prev, &it, r);
        }
        match r {
            Some(c) => {
                v.push(c);
            },
            None => {
                proof {
                    assert(v@ =~= v@ + it.remaining());
                }
                break ;
            },
        }
    }
    v
}

/// Relies on `String::from_iter` over `char`: the collected string holds
/// exactly the characters handed to it, in order.
#[verifier::external_body]
pub fn string_from_chars(v: &Vec<char>) -> (r: String)
    ensures
        r@ == v@,
{
    v.iter().collect()
}

/// `v` without leading and trailing whitespace.
pub fn trim_chars(v: &Vec<char>) -> (r: Vec<char>)
    ensures
        r@ == trimmed(v@),
{
    let n = v.len();
    proof {
        assert(v@.subrange(0, n as int) =~= v@);
    }
    let mut lo: usize = 0;
    while lo < n && is_space_exec(v[lo])
        invariant
            0 <= lo <= n == v@.len(),
            trim_start(v@) == trim_start(v@.subrange(lo as int, n as int)),
        decreases n - lo,
    {
        proof {
            assert(v@.subrange(lo as int, n as int).drop_first() =~= v@.subrange(
                lo + 1,
                n as int,
            ));
        }
        lo = lo + 1;
    }
    proof {
        assert(trim_start(v@) == v@.subrange(lo as int, n as int));
    }
    let mut hi: usize = n;
    while hi > lo && is_space_exec(v[hi - 1])
        invariant
            lo <= hi <= n == v@.len(),
            trim_start(v@) == v@.subrange(lo as int, n as int),
            trim_end(v@.subrange(lo as int, n as int)) == trim_end(
                v@.subrange(lo as int, hi as int),
            ),
        decreases hi,
    {
        proof {
            assert(v@.subrange(lo as int, hi as int).drop_last() =~= v@.subrange(
                lo as int,
                hi - 1,
            ));
        }
        hi = hi - 1;
    }
    proof {
        assert(trim_end(v@.subrange(lo as int, hi as int)) == v@.subrange(lo as int, hi as int));
    }
    let mut r: Vec<char> = Vec::new();
    let mut k: usize = lo;
    while k < hi
        invariant
            lo <= k <= hi <= v@.len(),
            r@ =~= v@.subrange(lo as int, k as int),
        decreases hi - k,
    {
        r.push(v[k]);
        k = k + 1;
    }
    proof {
        assert(r@ =~= v@.subrange(lo as int, hi as int));
    }
    r
}

proof fn lemma_alc_no_colon(s: Seq<char>)
    requires
        forall|i: int| 0 <= i < s.len() ==> s[i] != ':',
    ensures
        after_last_colon(s) == s,
    decreases s.len(),
{
    if s.len() > 0 {
        lemma_alc_no_colon(s.drop_last());
        assert(s.drop_last().push(s.last()) =~= s);
    } else {
        assert(after_last_colon(s) =~= s);
    }
}

proof fn lemma_alc_from(s: Seq<char>, k: int)
    requires
        0 <= k < s.len(),
        s[k] == ':',
        forall|i: int| k < i < s.len() ==> s[i] != ':',
    ensures
        after_last_colon(s) == s.subrange(k + 1, s.len() as int),
    decreases s.len(),
{
    if k == s.len() - 1 {
        assert(after_last_colon(s) =~= s.subrange(k + 1, s.len() as int));
    } else {
        lemma_alc_from(s.drop_last(), k);
        assert(s.drop_last().subrange(k + 1, s.len() - 1).push(s.last()) =~= s.subrange(
            k + 1,
            s.len() as int,
        ));
    }
}

/// The characters after the last colon of `v`; all of `v` when it has none.
pub fn after_last_colon_chars(v: &Vec<char>) -> (r: Vec<char>)
    ensures
        r@ == after_last_colon(v@),
{
    let n = v.len();
    let mut j: usize = n;
    while j > 0 && v[j - 1] != ':'
        invariant
            0 <= j <= n == v@.len(),
            forall|i: int| j <= i < n ==> v@[i] != ':',
        decreases j,
    {
        j = j - 1;
    }
    let mut r: Vec<char> = Vec::new();
    let mut k: usize = j;
    while k < n
        invariant
            j <= k <= n == v@.len(),
            r@ =~= v@.subrange(j as int, k as int),
        decreases n - k,
    {
        r.push(v[k]);
        k = k + 1;
    }
    proof {
        assert(r@ =~= v@.subrange(j as int, n as int));
        if j == 0 {
            lemma_alc_no_colon(v@);
            assert(r@ =~= v@);
        } else {
            lemma_alc_from(v@, j - 1);
        }
    }
    r
}

proof fn lemma_digits_prefix_le(s: Seq<char>, i: int)
    requires
        0 <= i <= s.len(),
    ensures
        digits_val(s.subrange(0, i)) <= digits_val(s),
    decreases s.len() - i,
{
    if i == s.len() {
        assert(s.subrange(0, i) =~= s);
    } else {
        lemma_digits_prefix_le(s, i + 1);
        assert(s.subrange(0, i + 1).drop_last() =~= s.subrange(0, i));
        assert(digits_val(s.subrange(0, i)) <= digits_val(s.subrange(0, i + 1)));
    }
}

/// Reads `v` as a non-negative decimal number. Yields nothing when `v` is
/// empty, holds a non-digit, or writes a value above `usize::MAX`.
pub fn parse_usize(v: &Vec<char>) -> (r: Option<usize>)
    ensures
        r is Some <==> all_digits(v@) && digits_val(v@) <= usize::MAX,
        r is Some ==> r->0 == digits_val(v@),
{
    let n = v.len();
    if n == 0 {
        return None;
    }
    let mut acc: usize = 0;
    let mut i: usize = 0;
    while i < n
        invariant
            0 <= i <= n == v@.len(),
            n > 0,
            forall|k: int| 0 <= k < i ==> is_digit(v@[k]),
            acc == digits_val(v@.subrange(0, i as int)),
        decreases n - i,
    {
        let c = v[i];
        let code = c as u32;
        if code < 48 || code > 57 {
            return None;
        }
        let d = (code - 48) as usize;
        if acc > (usize::MAX - d) / 10 {
            proof {
                assert(digits_val(v@.subrange(0, i + 1)) > usize::MAX) by {
                    assert(v@.subrange(0, i + 1).drop_last() =~= v@.subrange(0, i as int));
                };
                lemma_digits_prefix_le(v@, i + 1);
            }
            return None;
        }
        proof {
            assert(v@.subrange(0, i + 1).drop_last() =~= v@.subrange(0, i as int));
        }
        acc = acc * 10 + d;
        i = i + 1;
    }
    proof {
        assert(v@.subrange(0, n as int) =~= v@);
    }
    Some(acc)
}

/// Whether `v` begins with `prefix`.
pub fn starts_with_chars(v: &Vec<char>, prefix: &Vec<char>) -> (r: bool)
    ensures
        r == starts_with(v@, prefix@),
{
    let m = prefix.len();
    if v.len() < m {
        return false;
    }
    let mut i: usize = 0;
    while i < m
        invariant
            0 <= i <= m == prefix@.len(),
            v@.len() >= m,
            forall|k: int| 0 <= k < i ==> v@[k] == prefix@[k],
        decreases m - i,
    {
        if v[i] != prefix[i] {
            assert(v@.subrange(0, m as int)[i as int] != prefix@[i as int]);
            return false;
        }
        i = i + 1;
    }
    proof {
        assert(v@.subrange(0, m as int) =~= prefix@);
    }
    true
}

/// Splits `v` into lines at `\n`.
pub fn split_lines_chars(v: &Vec<char>) -> (r: Vec<Vec<char>>)
    ensures
        r.deep_view() == split_lines(v@),
{
    let n = v.len();
    let mut out: Vec<Vec<char>> = Vec::new();
    let mut cur: Vec<char> = Vec::new();
    let mut i: usize = 0;
    proof {
        assert(v@.subrange(0, 0) =~= Seq::<char>::empty());
        assert(out.deep_view().push(cur@) =~~= split_lines(v@.subrange(0, 0)));
    }
    while i < n
        invariant
            0 <= i <= n == v@.len(),
            out.deep_view().push(cur@) == split_lines(v@.subrange(0, i as int)),
        decreases n - i,
    {
        proof {
            assert(v@.subrange(0, i + 1).drop_last() =~= v@.subrange(0, i as int));
        }
        let c = v[i];
        if c == '\n' {
            let ghost before = cur@;
            if cur.len() > 0 && cur[cur.len() - 1] == '\r' {
                let _ = cur.pop();
            }
            proof {
                assert(cur@ =~= strip_cr(before));
            }
            out.push(cur);
            cur = Vec::new();
        } else {
            cur.push(c);
        }
        i = i + 1;
        proof {
            assert(out.deep_view().push(cur@) =~~= split_lines(v@.subrange(0, i as int)));
        }
    }
    proof {
        assert(v@.subrange(0, n as int) =~= v@);
    }
    out.push(cur);
    proof {
        assert(out.deep_view() =~~= split_lines(v@));
    }
    out
}

/// Whether `a` is at most `b` in the lexicographic order.
pub fn lex_le_chars(a: &Vec<char>, b: &Vec<char>) -> (r: bool)
    ensures
        r == lex_le(a@, b@),
{
    let mut i: usize = 0;
    proof {
        assert(a@.subrange(0, a@.len() as int) =~= a@);
        assert(b@.subrange(0, b@.len() as int) =~= b@);
    }
    loop
        invariant
            0 <= i <= a@.len(),
            i <= b@.len(),
            lex_le(a@, b@) == lex_le(
                a@.subrange(i as int, a@.len() as int),
                b@.subrange(i as int, b@.len() as int),
            ),
        ensures
            lex_le(a@, b@) == lex_le(
                a@.subrange(i as int, a@.len() as int),
                b@.subrange(i as int, b@.len() as int),
            ),
            i <= a@.len() && i <= b@.len(),
            i == a@.len() || i == b@.len() || (a@[i as int] as u32) != (b@[i as int] as u32),
        decreases a@.len() - i,
    {
        if i == a.len() || i == b.len() {
            break ;
        }
        let ca = a[i] as u32;
        let cb = b[i] as u32;
        if ca != cb {
            break ;
        }
        proof {
            let sa = a@.subrange(i as int, a@.len() as int);
            let sb = b@.subrange(i as int, b@.len() as int);
            assert(sa.drop_first() =~= a@.subrange(i + 1, a@.len() as int));
            assert(sb.drop_first() =~= b@.subrange(i + 1, b@.len() as int));
        }
        i = i + 1;
    }
    let r = if i == a.len() {
        true
    } else if i == b.len() {
        false
    } else {
        (a[i] as u32) < (b[i] as u32)
    };
    proof {
        let sa = a@.subrange(i as int, a@.len() as int);
        let sb = b@.subrange(i as int, b@.len() as int);
        if i < a@.len() && i < b@.len() {
            assert(sa[0] == a@[i as int] && sb[0] == b@[i as int]);
        }
    }
    r
}

} // verus!
