//! Verified building blocks for character-level text processing: equality,
//! prefix/suffix tests, trimming, substring search and removal, line
//! splitting, and a lexicographic order. Every executable function is proved
//! against a spec function over `Seq<char>` views.

use vstd::prelude::*;

verus! {

/// The whitespace characters this crate trims: space, tab, carriage return
/// and line feed.
pub open spec fn is_space(c: char) -> bool {
    c == ' ' || c == '\t' || c == '\r' || c == '\n'
}

/// `s` without its leading whitespace.
pub open spec fn trim_start_spec(s: Seq<char>) -> Seq<char>
    decreases s.len(),
{
    if s.len() > 0 && is_space(s[0]) {
        trim_start_spec(s.drop_first())
    } else {
        s
    }
}

/// `s` without its trailing whitespace.
pub open spec fn trim_end_spec(s: Seq<char>) -> Seq<char>
    decreases s.len(),
{
    if s.len() > 0 && is_space(s.last()) {
        trim_end_spec(s.drop_last())
    } else {
        s
    }
}

/// `s` without leading and trailing whitespace.
pub open spec fn trim_spec(s: Seq<char>) -> Seq<char> {
    trim_end_spec(trim_start_spec(s))
}

/// `p` is a prefix of `s`.
pub open spec fn has_prefix(s: Seq<char>, p: Seq<char>) -> bool {
    p.len() <= s.len() && s.take(p.len() as int) == p
}

/// `p` is a suffix of `s`.
pub open spec fn has_suffix(s: Seq<char>, p: Seq<char>) -> bool {
    p.len() <= s.len() && s.skip(s.len() - p.len()) == p
}

/// `p` occurs in `s` starting at position `i`.
pub open spec fn matches_at(s: Seq<char>, i: int, p: Seq<char>) -> bool {
    0 <= i && i + p.len() <= s.len() && s.subrange(i, i + p.len()) == p
}

/// `p` occurs somewhere in `s`.
pub open spec fn contains_seq(s: Seq<char>, p: Seq<char>) -> bool {
    exists|i: int| matches_at(s, i, p)
}

/// Tests whether a character is whitespace.
pub fn is_space_char(c: char) -> (r: bool)
    ensures
        r == is_space(c),
{
    c == ' ' || c == '\t' || c == '\r' || c == '\n'
}

/// Character-for-character string equality.
pub fn str_eq(a: &str, b: &str) -> (r: bool)
    ensures
        r == (a@ == b@),
{
    let an: usize = a.unicode_len();
    let bn: usize = b.unicode_len();
    if an != bn {
        return false;
    }
    let mut i: usize = 0;
    while i < an
        invariant
            an == a@.len(),
            an == b@.len(),
            i <= an,
            forall|k: int| 0 <= k < i ==> a@[k] == b@[k],
        decreases an - i,
    {
        if a.get_char(i) != b.get_char(i) {
            return false;
        }
        i += 1;
    }
    proof {
        assert(a@ =~= b@);
    }
    true
}

/// Tests whether `p` is a prefix of `s`.
pub fn str_has_prefix(s: &str, p: &str) -> (r: bool)
    ensures
        r == has_prefix(s@, p@),
{
    let n: usize = s.unicode_len();
    let m: usize = p.unicode_len();
    if m > n {
        return false;
    }
    let mut i: usize = 0;
    while i < m
        invariant
            n == s@.len(),
            m == p@.len(),
            m <= n,
            i <= m,
            forall|k: int| 0 <= k < i ==> s@[k] == p@[k],
        decreases m - i,
    {
        if s.get_char(i) != p.get_char(i) {
            proof {
                assert(s@.take(m as int)[i as int] != p@[i as int]);
            }
            return false;
        }
        i += 1;
    }
    proof {
        assert(s@.take(m as int) =~= p@);
    }
    true
}

/// Tests whether `p` is a suffix of `s`.
pub fn str_has_suffix(s: &str, p: &str) -> (r: bool)
    ensures
        r == has_suffix(s@, p@),
{
    let n: usize = s.unicode_len();
    let m: usize = p.unicode_len();
    if m > n {
        return false;
    }
    let off: usize = n - m;
    let mut i: usize = 0;
    while i < m
        invariant
            n == s@.len(),
            m == p@.len(),
            m <= n,
            off == n - m,
            i <= m,
            forall|k: int| 0 <= k < i ==> s@[off + k] == p@[k],
        decreases m - i,
    {
        if s.get_char(off + i) != p.get_char(i) {
            proof {
                assert(s@.skip(off as int)[i as int] != p@[i as int]);
            }
            return false;
        }
        i += 1;
    }
    proof {
        assert(s@.skip(off as int) =~= p@);
    }
    true
}

/// Removes leading and trailing whitespace.
pub fn trim_str(s: &str) -> (r: String)
    ensures
        r@ == trim_spec(s@),
{
    let n: usize = s.unicode_len();
    let mut start: usize = 0;
    proof {
        assert(s@.skip(0) =~= s@);
    }
    while start < n && is_space_char(s.get_char(start))
        invariant
            n == s@.len(),
            start <= n,
            trim_start_spec(s@) == trim_start_spec(s@.skip(start as int)),
        decreases n - start,
    {
        proof {
            assert(s@.skip(start as int).drop_first() =~= s@.skip(start as int + 1));
        }
        start += 1;
    }
    proof {
        assert(s@.skip(start as int).len() > 0 ==> s@.skip(start as int)[0] == s@[start as int]);
        assert(trim_start_spec(s@) == s@.skip(start as int));
    }
    let mut end: usize = n;
    while end > start && is_space_char(s.get_char(end - 1))
        invariant
            n == s@.len(),
            start <= end <= n,
            trim_end_spec(s@.skip(start as int)) == trim_end_spec(
                s@.subrange(start as int, end as int),
            ),
        decreases end,
    {
        proof {
            assert(s@.subrange(start as int, end as int).last() == s@[end - 1]);
            assert(s@.subrange(start as int, end as int).drop_last() =~= s@.subrange(
                start as int,
                end - 1,
            ));
        }
        end -= 1;
    }
    proof {
        assert(s@.skip(start as int) =~= s@.subrange(start as int, n as int));
        assert(s@.subrange(start as int, end as int).len() > 0 ==> s@.subrange(
            start as int,
            end as int,
        ).last() == s@[end - 1]);
        assert(trim_end_spec(s@.subrange(start as int, end as int)) == s@.subrange(
            start as int,
            end as int,
        ));
    }
    let r = s.substring_char(start, end);
    r.to_owned()
}

/// Removes trailing whitespace.
pub fn trim_end_str(s: &str) -> (r: String)
    ensures
        r@ == trim_end_spec(s@),
{
    let n: usize = s.unicode_len();
    let mut end: usize = n;
    proof {
        assert(s@.take(n as int) =~= s@);
    }
    while end > 0 && is_space_char(s.get_char(end - 1))
        invariant
            n == s@.len(),
            end <= n,
            trim_end_spec(s@) == trim_end_spec(s@.take(end as int)),
        decreases end,
    {
        proof {
            assert(s@.take(end as int).last() == s@[end - 1]);
            assert(s@.take(end as int).drop_last() =~= s@.take(end - 1));
        }
        end -= 1;
    }
    proof {
        assert(s@.take(end as int).len() > 0 ==> s@.take(end as int).last() == s@[end - 1]);
        assert(trim_end_spec(s@.take(end as int)) == s@.take(end as int));
    }
    let r = s.substring_char(0, end);
    proof {
        assert(s@.subrange(0, end as int) =~= s@.take(end as int));
    }
    r.to_owned()
}

/// Tests whether `p` occurs in `s` at position `i`.
pub fn match_at(s: &str, i: usize, p: &str) -> (r: bool)
    requires
        i + p@.len() <= s@.len(),
    ensures
        r == matches_at(s@, i as int, p@),
{
    let m: usize = p.unicode_len();
    let n: usize = s.unicode_len();
    let mut k: usize = 0;
    while k < m
        invariant
            m == p@.len(),
            n == s@.len(),
            i + m <= s@.len(),
            k <= m,
            forall|j: int| 0 <= j < k ==> s@[i + j] == p@[j],
        decreases m - k,
    {
        if s.get_char(i + k) != p.get_char(k) {
            proof {
                assert(s@.subrange(i as int, i + m)[k as int] != p@[k as int]);
            }
            return false;
        }
        k += 1;
    }
    proof {
        assert(s@.subrange(i as int, i + m) =~= p@);
    }
    true
}

/// Tests whether `p` occurs anywhere in `s`.
pub fn str_contains(s: &str, p: &str) -> (r: bool)
    ensures
        r == contains_seq(s@, p@),
{
    let n: usize = s.unicode_len();
    let m: usize = p.unicode_len();
    if m == 0 {
        proof {
            assert(s@.subrange(0, 0) =~= p@);
            assert(matches_at(s@, 0, p@));
        }
        return true;
    }
    if m > n {
        proof {
            assert(forall|i: int| !matches_at(s@, i, p@));
        }
        return false;
    }
    let mut i: usize = 0;
    while i <= n - m
        invariant
            n == s@.len(),
            m == p@.len(),
            1 <= m <= n,
            i <= n - m + 1,
            forall|k: int| 0 <= k < i ==> !matches_at(s@, k, p@),
        decreases n - i,
    {
        if match_at(s, i, p) {
            return true;
        }
        i += 1;
    }
    proof {
        assert(forall|k: int| matches_at(s@, k, p@) ==> 0 <= k <= n - m);
    }
    false
}

/// `s` with every occurrence of `p` removed, scanning left to right without
/// overlap; an empty `p` removes nothing.
pub open spec fn remove_all_spec(s: Seq<char>, p: Seq<char>) -> Seq<char>
    decreases s.len(),
{
    if p.len() == 0 || s.len() < p.len() {
        s
    } else if has_prefix(s, p) {
        remove_all_spec(s.skip(p.len() as int), p)
    } else {
        seq![s[0]] + remove_all_spec(s.drop_first(), p)
    }
}

/// Removes every occurrence of `p` from `s`, scanning left to right.
pub fn remove_all_str(s: &str, p: &str) -> (r: String)
    ensures
        r@ == remove_all_spec(s@, p@),
{
    let n: usize = s.unicode_len();
    let m: usize = p.unicode_len();
    if m == 0 {
        return s.to_owned();
    }
    let mut out = String::new();
    let mut i: usize = 0;
    proof {
        assert(s@.skip(0) =~= s@);
        assert(out@ + remove_all_spec(s@, p@) =~= remove_all_spec(s@, p@));
    }
    while i < n
        invariant
            n == s@.len(),
            m == p@.len(),
            m >= 1,
            i <= n,
            remove_all_spec(s@, p@) == out@ + remove_all_spec(s@.skip(i as int), p@),
        decreases n - i,
    {
        let ghost rest = s@.skip(i as int);
        if m <= n - i && match_at(s, i, p) {
            proof {
                assert(rest.take(m as int) =~= s@.subrange(i as int, i + m));
                assert(has_prefix(rest, p@));
                assert(rest.skip(m as int) =~= s@.skip(i + m));
            }
            i += m;
        } else {
            let piece = s.substring_char(i, i + 1);
            out.append(piece);
            proof {
                assert(rest.drop_first() =~= s@.skip(i as int + 1));
                if m <= n - i {
                    assert(rest.take(m as int) =~= s@.subrange(i as int, i + m));
                    assert(!has_prefix(rest, p@));
                    assert(remove_all_spec(rest, p@) == seq![rest[0]] + remove_all_spec(
                        rest.drop_first(),
                        p@,
                    ));
                } else {
                    // too little text is left for a match: the suffix is kept whole
                    assert(remove_all_spec(rest, p@) == rest);
                    assert(remove_all_spec(rest.drop_first(), p@) == rest.drop_first());
                    assert(rest =~= seq![rest[0]] + rest.drop_first());
                }
                assert(piece@ =~= seq![rest[0]]);
                assert(out@ + (seq![rest[0]] + remove_all_spec(rest.drop_first(), p@)) =~= (out@
                    + seq![rest[0]]) + remove_all_spec(s@.skip(i as int + 1), p@));
            }
            i += 1;
        }
    }
    proof {
        assert(s@.skip(n as int) =~= Seq::<char>::empty());
        assert(out@ + Seq::<char>::empty() =~= out@);
    }
    out
}

/// Position of the first line feed in `s`, or `s.len()` if there is none.
pub open spec fn first_nl(s: Seq<char>) -> nat
    decreases s.len(),
{
    if s.len() == 0 {
        0
    } else if s[0] == '\n' {
        0
    } else {
        1 + first_nl(s.drop_first())
    }
}

pub proof fn lemma_first_nl(s: Seq<char>)
    ensures
        first_nl(s) <= s.len(),
        first_nl(s) < s.len() ==> s[first_nl(s) as int] == '\n',
        forall|j: int| 0 <= j < first_nl(s) ==> s[j] != '\n',
    decreases s.len(),
{
    if s.len() > 0 && s[0] != '\n' {
        lemma_first_nl(s.drop_first());
        assert forall|j: int| 0 <= j < first_nl(s) implies s[j] != '\n' by {
            if j > 0 {
                assert(s.drop_first()[j - 1] == s[j]);
            }
        }
        if first_nl(s) < s.len() {
            assert(s[first_nl(s) as int] == s.drop_first()[first_nl(s.drop_first()) as int]);
        }
    }
}

pub proof fn lemma_first_nl_at(s: Seq<char>, k: int)
    requires
        0 <= k <= s.len(),
        forall|j: int| 0 <= j < k ==> s[j] != '\n',
        k < s.len() ==> s[k] == '\n',
    ensures
        first_nl(s) == k,
    decreases k,
{
    if k > 0 {
        lemma_first_nl_at(s.drop_first(), k - 1);
    }
}

/// A single trailing carriage return is dropped from a line.
pub open spec fn strip_cr(l: Seq<char>) -> Seq<char> {
    if l.len() > 0 && l.last() == '\r' {
        l.drop_last()
    } else {
        l
    }
}

/// The lines of `s`: split at each line feed, dropping one carriage return
/// directly before it; a final line ending is optional, and a lone trailing
/// carriage return at the end of the text is kept.
pub open spec fn split_lines_spec(s: Seq<char>) -> Seq<Seq<char>>
    decreases s.len(),
{
    if s.len() == 0 {
        Seq::empty()
    } else {
        let k = first_nl(s);
        if k >= s.len() {
            seq![s]
        } else {
            seq![strip_cr(s.take(k as int))] + split_lines_spec(s.skip(k as int + 1))
        }
    }
}

/// Splits `s` into its lines.
pub fn split_lines_str(s: &str) -> (r: Vec<String>)
    ensures
        r.deep_view() == split_lines_spec(s@),
{
    let n: usize = s.unicode_len();
    let mut out: Vec<String> = Vec::new();
    let mut start: usize = 0;
    let mut i: usize = 0;
    proof {
        assert(s@.skip(0) =~= s@);
        assert(out.deep_view() + split_lines_spec(s@) =~= split_lines_spec(s@));
    }
    while i < n
        invariant
            n == s@.len(),
            start <= i <= n,
            forall|j: int| start <= j < i ==> s@[j] != '\n',
            split_lines_spec(s@) == out.deep_view() + split_lines_spec(s@.skip(start as int)),
        decreases n - i,
    {
        if s.get_char(i) == '\n' {
            let end: usize = if i > start && s.get_char(i - 1) == '\r' {
                i - 1
            } else {
                i
            };
            let line = s.substring_char(start, end).to_owned();
            proof {
                let rest = s@.skip(start as int);
                assert forall|j: int| 0 <= j < i - start implies rest[j] != '\n' by {
                    assert(rest[j] == s@[start + j]);
                }
                lemma_first_nl_at(rest, i - start);
                assert(rest.take(i - start) =~= s@.subrange(start as int, i as int));
                assert(strip_cr(s@.subrange(start as int, i as int)) =~= s@.subrange(
                    start as int,
                    end as int,
                ));
                assert(rest.skip(i - start + 1) =~= s@.skip(i as int + 1));
                let prev = out.deep_view();
                assert(out.deep_view().push(line@).push(line@).drop_last() =~= out.deep_view().push(
                    line@,
                ));
                assert((prev + split_lines_spec(rest)) =~= (prev.push(line@)
                    + split_lines_spec(s@.skip(i as int + 1))));
            }
            let ghost prev = out.deep_view();
            out.push(line);
            proof {
                assert(out.deep_view() =~= prev.push(line@));
            }
            i += 1;
            start = i;
        } else {
            i += 1;
        }
    }
    if start < n {
        let line = s.substring_char(start, n).to_owned();
        proof {
            let rest = s@.skip(start as int);
            assert forall|j: int| 0 <= j < n - start implies rest[j] != '\n' by {
                assert(rest[j] == s@[start + j]);
            }
            lemma_first_nl_at(rest, n - start);
            assert(rest =~= s@.subrange(start as int, n as int));
            let prev = out.deep_view();
            assert((prev + seq![line@]) =~= prev.push(line@));
        }
        let ghost prev = out.deep_view();
        out.push(line);
        proof {
            assert(out.deep_view() =~= prev.push(line@));
            assert(split_lines_spec(s@.skip(start as int)) == seq![s@.skip(start as int)]);
        }
    } else {
        proof {
            assert(s@.skip(start as int) =~= Seq::<char>::empty());
            assert(out.deep_view() + Seq::<Seq<char>>::empty() =~= out.deep_view());
        }
    }
    out
}

pub proof fn lemma_trim_start_len(s: Seq<char>)
    ensures
        trim_start_spec(s).len() <= s.len(),
    decreases s.len(),
{
    if s.len() > 0 && is_space(s[0]) {
        lemma_trim_start_len(s.drop_first());
    }
}

pub proof fn lemma_trim_end_len(s: Seq<char>)
    ensures
        trim_end_spec(s).len() <= s.len(),
    decreases s.len(),
{
    if s.len() > 0 && is_space(s.last()) {
        lemma_trim_end_len(s.drop_last());
    }
}

/// A sequence equal to its own trim carries no leading or trailing space.
pub proof fn lemma_trim_parts(x: Seq<char>)
    requires
        trim_spec(x) == x,
    ensures
        trim_start_spec(x) == x,
        trim_end_spec(x) == x,
{
    lemma_trim_start_len(x);
    lemma_trim_end_len(trim_start_spec(x));
    if x.len() > 0 && is_space(x[0]) {
        lemma_trim_start_len(x.drop_first());
    }
    assert(trim_start_spec(x) == x);
    if x.len() > 0 && is_space(x.last()) {
        lemma_trim_end_len(x.drop_last());
    }
}

/// Padding a trimmed sequence with one space on each side trims back to it.
pub proof fn lemma_trim_padded(x: Seq<char>)
    requires
        trim_spec(x) == x,
    ensures
        trim_spec(" "@ + x + " "@) == x,
{
    reveal_strlit(" ");
    lemma_trim_parts(x);
    let p = " "@ + x + " "@;
    assert(p[0] == ' ');
    assert(p.drop_first() =~= x + " "@);
    if x.len() == 0 {
        assert(x + " "@ =~= " "@);
        assert(" "@.drop_first() =~= Seq::<char>::empty());
        assert(trim_start_spec(p) == trim_start_spec(" "@));
        assert(trim_start_spec(" "@) == trim_start_spec(Seq::<char>::empty()));
        assert(trim_start_spec(Seq::<char>::empty()) =~= Seq::<char>::empty());
        assert(trim_end_spec(Seq::<char>::empty()) =~= Seq::<char>::empty());
    } else {
        if is_space(x[0]) {
            lemma_trim_start_len(x.drop_first());
            assert(false);
        }
        assert((x + " "@)[0] == x[0]);
        assert(trim_start_spec(p) == trim_start_spec(x + " "@));
        assert(trim_start_spec(x + " "@) == x + " "@);
        assert((x + " "@).last() == ' ');
        assert((x + " "@).drop_last() =~= x);
        assert(trim_end_spec(x + " "@) == trim_end_spec(x));
    }
}

pub proof fn lemma_first_nl_append(a: Seq<char>, b: Seq<char>)
    requires
        first_nl(a) < a.len(),
    ensures
        first_nl(a + b) == first_nl(a),
{
    lemma_first_nl(a);
    let k = first_nl(a) as int;
    assert forall|j: int| 0 <= j < k implies (a + b)[j] != '\n' by {
        assert((a + b)[j] == a[j]);
    }
    assert((a + b)[k] == a[k]);
    lemma_first_nl_at(a + b, k);
}

/// Splitting distributes over concatenation at a line-feed boundary.
pub proof fn lemma_split_append(a: Seq<char>, b: Seq<char>)
    requires
        a.len() > 0,
        a.last() == '\n',
    ensures
        split_lines_spec(a + b) == split_lines_spec(a) + split_lines_spec(b),
    decreases a.len(),
{
    lemma_first_nl(a);
    if first_nl(a) >= a.len() {
        assert(a[a.len() - 1] != '\n');
    }
    let k = first_nl(a) as int;
    lemma_first_nl_append(a, b);
    assert((a + b).take(k) =~= a.take(k));
    if k == a.len() - 1 {
        assert((a + b).skip(k + 1) =~= b);
        assert(a.skip(k + 1) =~= Seq::<char>::empty());
        assert(split_lines_spec(Seq::<char>::empty()) =~= Seq::<Seq<char>>::empty());
        assert(split_lines_spec(a) =~= seq![strip_cr(a.take(k))]);
        assert(seq![strip_cr(a.take(k))] + split_lines_spec(b) =~= split_lines_spec(a)
            + split_lines_spec(b));
    } else {
        assert((a + b).skip(k + 1) =~= a.skip(k + 1) + b);
        assert(a.skip(k + 1).len() > 0);
        assert(a.skip(k + 1).last() == a.last());
        lemma_split_append(a.skip(k + 1), b);
        assert(seq![strip_cr(a.take(k))] + (split_lines_spec(a.skip(k + 1))
            + split_lines_spec(b)) =~= (seq![strip_cr(a.take(k))] + split_lines_spec(
            a.skip(k + 1),
        )) + split_lines_spec(b));
    }
}

/// A single line followed by one line feed splits into just that line.
pub proof fn lemma_split_single(l: Seq<char>)
    requires
        forall|j: int| 0 <= j < l.len() ==> l[j] != '\n',
        l.len() == 0 || l.last() != '\r',
    ensures
        split_lines_spec(l + "\n"@) == seq![l],
{
    reveal_strlit("\n");
    let s = l + "\n"@;
    assert forall|j: int| 0 <= j < l.len() implies s[j] != '\n' by {
        assert(s[j] == l[j]);
    }
    assert(s[l.len() as int] == '\n');
    lemma_first_nl_at(s, l.len() as int);
    assert(s.take(l.len() as int) =~= l);
    assert(s.skip(l.len() as int + 1) =~= Seq::<char>::empty());
    assert(split_lines_spec(Seq::<char>::empty()) =~= Seq::<Seq<char>>::empty());
    assert(strip_cr(l) == l);
    assert(split_lines_spec(s) =~= seq![l]);
}

/// Lexicographic order on character sequences by code point.
pub open spec fn lex_le(a: Seq<char>, b: Seq<char>) -> bool
    decreases a.len(),
{
    if a.len() == 0 {
        true
    } else if b.len() == 0 {
        false
    } else if (a[0] as u32) < (b[0] as u32) {
        true
    } else if (a[0] as u32) > (b[0] as u32) {
        false
    } else {
        lex_le(a.drop_first(), b.drop_first())
    }
}

pub proof fn lemma_lex_le_total(a: Seq<char>, b: Seq<char>)
    ensures
        lex_le(a, b) || lex_le(b, a),
    decreases a.len(),
{
    if a.len() > 0 && b.len() > 0 && (a[0] as u32) == (b[0] as u32) {
        lemma_lex_le_total(a.drop_first(), b.drop_first());
    }
}

pub proof fn lemma_lex_le_trans(a: Seq<char>, b: Seq<char>, c: Seq<char>)
    requires
        lex_le(a, b),
        lex_le(b, c),
    ensures
        lex_le(a, c),
    decreases a.len(),
{
    if a.len() > 0 && b.len() > 0 && c.len() > 0 && (a[0] as u32) == (b[0] as u32) && (b[0] as u32)
        == (c[0] as u32) {
        lemma_lex_le_trans(a.drop_first(), b.drop_first(), c.drop_first());
    }
}

/// Compares two strings in lexicographic order.
pub fn str_le(a: &str, b: &str) -> (r: bool)
    ensures
        r == lex_le(a@, b@),
{
    let an: usize = a.unicode_len();
    let bn: usize = b.unicode_len();
    let mut i: usize = 0;
    proof {
        assert(a@.skip(0) =~= a@);
        assert(b@.skip(0) =~= b@);
    }
    while i < an && i < bn
        invariant
            an == a@.len(),
            bn == b@.len(),
            i <= an,
            i <= bn,
            lex_le(a@, b@) == lex_le(a@.skip(i as int), b@.skip(i as int)),
        decreases an - i,
    {
        let ca = a.get_char(i);
        let cb = b.get_char(i);
        proof {
            assert(a@.skip(i as int)[0] == a@[i as int]);
            assert(b@.skip(i as int)[0] == b@[i as int]);
            assert(a@.skip(i as int).drop_first() =~= a@.skip(i as int + 1));
            assert(b@.skip(i as int).drop_first() =~= b@.skip(i as int + 1));
        }
        if (ca as u32) < (cb as u32) {
            return true;
        }
        if (ca as u32) > (cb as u32) {
            return false;
        }
        i += 1;
    }
    proof {
        if i >= an {
            assert(a@.skip(i as int) =~= Seq::<char>::empty());
        } else {
            assert(b@.skip(i as int) =~= Seq::<char>::empty());
            assert(a@.skip(i as int).len() > 0);
        }
    }
    an <= bn
}

/// The lowercase form of a character sequence, as Unicode case mapping
/// defines it; the result depends on the input characters alone.
pub uninterp spec fn lower_of(s: Seq<char>) -> Seq<char>;

/// Relies on `str::to_lowercase` from std: the Unicode lowercase mapping of
/// the input, a pure function of the input characters.
#[verifier::external_body]
pub(crate) fn to_lower_str(s: &str) -> (r: String)
    ensures
        r@ == lower_of(s@),
{
    s.to_lowercase()
}

} // verus!
