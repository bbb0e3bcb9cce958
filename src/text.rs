use vstd::prelude::*;
use vstd::string::*;

verus! {

/// Unicode `White_Space`, as `char::is_whitespace` decides it.
pub open spec fn is_ws(c: char) -> bool {
    let u = c as u32;
    (9 <= u <= 13) || u == 32 || u == 0x85 || u == 0xa0 || u == 0x1680 || (0x2000 <= u <= 0x200a)
        || u == 0x2028 || u == 0x2029 || u == 0x202f || u == 0x205f || u == 0x3000
}

/// The code point of `c` after ASCII lower-casing.
pub open spec fn fold(c: char) -> int {
    let u = c as int;
    if 65 <= u <= 90 {
        u + 32
    } else {
        u
    }
}

/// Number of leading whitespace characters.
pub open spec fn ws_prefix_len(s: Seq<char>) -> nat
    decreases s.len(),
{
    if s.len() > 0 && is_ws(s[0]) {
        1 + ws_prefix_len(s.drop_first())
    } else {
        0
    }
}

/// Number of trailing whitespace characters.
pub open spec fn ws_suffix_len(s: Seq<char>) -> nat
    decreases s.len(),
{
    if s.len() > 0 && is_ws(s.last()) {
        1 + ws_suffix_len(s.drop_last())
    } else {
        0
    }
}

/// Number of leading characters that are not whitespace.
pub open spec fn word_len(s: Seq<char>) -> nat
    decreases s.len(),
{
    if s.len() > 0 && !is_ws(s[0]) {
        1 + word_len(s.drop_first())
    } else {
        0
    }
}

pub open spec fn trim_start(s: Seq<char>) -> Seq<char> {
    s.skip(ws_prefix_len(s) as int)
}

pub open spec fn trim_end(s: Seq<char>) -> Seq<char> {
    s.take(s.len() - ws_suffix_len(s))
}

pub open spec fn trim(s: Seq<char>) -> Seq<char> {
    trim_end(trim_start(s))
}

/// The whitespace-separated words of `s`, in order (`str::split_whitespace`).
pub open spec fn tokens(s: Seq<char>) -> Seq<Seq<char>>
    decreases s.len(),
{
    if s.len() == 0 {
        seq![]
    } else if is_ws(s[0]) {
        tokens(s.drop_first())
    } else {
        let w = word_len(s) as int;
        if 0 < w <= s.len() {
            seq![s.take(w)] + tokens(s.skip(w))
        } else {
            seq![s]
        }
    }
}

/// `s` begins with `p`, ignoring ASCII case.
pub open spec fn starts_ci(s: Seq<char>, p: Seq<char>) -> bool {
    p.len() <= s.len() && forall|i: int| 0 <= i < p.len() ==> fold(#[trigger] s[i]) == fold(p[i])
}

/// `p` occurs in `s` at position `k`, ignoring ASCII case.
pub open spec fn occurs_ci_at(s: Seq<char>, p: Seq<char>, k: int) -> bool {
    0 <= k && k + p.len() <= s.len() && forall|i: int|
        0 <= i < p.len() ==> fold(#[trigger] s[k + i]) == fold(p[i])
}

/// `p` occurs somewhere in `s`, ignoring ASCII case.
pub open spec fn contains_ci(s: Seq<char>, p: Seq<char>) -> bool {
    exists|k: int| occurs_ci_at(s, p, k)
}

/// `a` and `b` are equal up to ASCII case.
pub open spec fn eq_ci(a: Seq<char>, b: Seq<char>) -> bool {
    a.len() == b.len() && starts_ci(a, b)
}

/// Every character of `s` is whitespace.
pub open spec fn is_blank(s: Seq<char>) -> bool {
    forall|i: int| 0 <= i < s.len() ==> is_ws(#[trigger] s[i])
}

/// Index of the first `'\n'` of `s`, or its length.
pub open spec fn nl_index(s: Seq<char>) -> nat
    decreases s.len(),
{
    if s.len() > 0 && s[0] != '\n' {
        1 + nl_index(s.drop_first())
    } else {
        0
    }
}

pub open spec fn strip_cr(l: Seq<char>) -> Seq<char> {
    if l.len() > 0 && l.last() == '\r' {
        l.drop_last()
    } else {
        l
    }
}

/// The lines of `s` as `str::lines` yields them: split at `"\n"` or `"\r\n"`,
/// with the final line ending optional.
pub open spec fn split_lines(s: Seq<char>) -> Seq<Seq<char>>
    decreases s.len(),
{
    if s.len() == 0 {
        seq![]
    } else {
        let i = nl_index(s) as int;
        if i >= s.len() {
            seq![s]
        } else {
            seq![strip_cr(s.take(i))] + split_lines(s.skip(i + 1))
        }
    }
}

/// The lines joined with `'\n'` between them.
pub open spec fn join_lines(ls: Seq<Seq<char>>) -> Seq<char>
    decreases ls.len(),
{
    if ls.len() == 0 {
        seq![]
    } else if ls.len() == 1 {
        ls[0]
    } else {
        join_lines(ls.drop_last()) + seq!['\n'] + ls.last()
    }
}

/// `s` begins with the character `c`.
pub open spec fn first_is_char(s: Seq<char>, c: char) -> bool {
    s.len() > 0 && s[0] == c
}

pub open spec fn ends_with_nl(s: Seq<char>) -> bool {
    s.len() > 0 && s.last() == '\n'
}

pub proof fn lemma_ws_prefix(s: Seq<char>, n: int)
    requires
        0 <= n <= s.len(),
        forall|j: int| 0 <= j < n ==> is_ws(#[trigger] s[j]),
        n == s.len() || !is_ws(s[n]),
    ensures
        ws_prefix_len(s) == n,
    decreases n,
{
    if n > 0 {
        let t = s.drop_first();
        assert forall|j: int| 0 <= j < n - 1 implies is_ws(#[trigger] t[j]) by {
            assert(t[j] == s[j + 1]);
        }
        lemma_ws_prefix(t, n - 1);
    }
}

pub proof fn lemma_word(s: Seq<char>, n: int)
    requires
        0 <= n <= s.len(),
        forall|j: int| 0 <= j < n ==> !is_ws(#[trigger] s[j]),
        n == s.len() || is_ws(s[n]),
    ensures
        word_len(s) == n,
    decreases n,
{
    if n > 0 {
        let t = s.drop_first();
        assert forall|j: int| 0 <= j < n - 1 implies !is_ws(#[trigger] t[j]) by {
            assert(t[j] == s[j + 1]);
        }
        lemma_word(t, n - 1);
    }
}

pub proof fn lemma_ws_suffix(s: Seq<char>, n: int)
    requires
        0 <= n <= s.len(),
        forall|j: int| s.len() - n <= j < s.len() ==> is_ws(#[trigger] s[j]),
        n == s.len() || !is_ws(s[s.len() - n - 1]),
    ensures
        ws_suffix_len(s) == n,
    decreases n,
{
    if n > 0 {
        let t = s.drop_last();
        assert forall|j: int| t.len() - (n - 1) <= j < t.len() implies is_ws(#[trigger] t[j]) by {
            assert(t[j] == s[j]);
        }
        lemma_ws_suffix(t, n - 1);
    }
}

pub proof fn lemma_nl_index(s: Seq<char>, n: int)
    requires
        0 <= n <= s.len(),
        forall|j: int| 0 <= j < n ==> #[trigger] s[j] != '\n',
        n == s.len() || s[n] == '\n',
    ensures
        nl_index(s) == n,
    decreases n,
{
    if n > 0 {
        let t = s.drop_first();
        assert forall|j: int| 0 <= j < n - 1 implies #[trigger] t[j] != '\n' by {
            assert(t[j] == s[j + 1]);
        }
        lemma_nl_index(t, n - 1);
    }
}

pub proof fn lemma_tokens_skip_ws(s: Seq<char>, n: int)
    requires
        0 <= n <= s.len(),
        forall|j: int| 0 <= j < n ==> is_ws(#[trigger] s[j]),
    ensures
        tokens(s) == tokens(s.skip(n)),
    decreases n,
{
    if n > 0 {
        let t = s.drop_first();
        assert forall|j: int| 0 <= j < n - 1 implies is_ws(#[trigger] t[j]) by {
            assert(t[j] == s[j + 1]);
        }
        lemma_tokens_skip_ws(t, n - 1);
        assert(t.skip(n - 1) =~= s.skip(n));
    } else {
        assert(s.skip(0) =~= s);
    }
}

/// A non-empty trimmed sequence has a non-whitespace character.
pub proof fn lemma_trim_ends(s: Seq<char>)
    requires
        trim(s).len() > 0,
    ensures
        !is_ws(trim(s)[0]),
        !is_blank(trim(s)),
{
    lemma_ws_prefix_bound(s);
    let t = trim_start(s);
    lemma_ws_suffix_bound(t);
    lemma_ws_prefix_stop(s);
    assert(trim(s)[0] == t[0]);
}

pub proof fn lemma_ws_prefix_bound(s: Seq<char>)
    ensures
        ws_prefix_len(s) <= s.len(),
    decreases s.len(),
{
    if s.len() > 0 && is_ws(s[0]) {
        lemma_ws_prefix_bound(s.drop_first());
    }
}

pub proof fn lemma_ws_suffix_bound(s: Seq<char>)
    ensures
        ws_suffix_len(s) <= s.len(),
    decreases s.len(),
{
    if s.len() > 0 && is_ws(s.last()) {
        lemma_ws_suffix_bound(s.drop_last());
    }
}

/// The first character after the leading whitespace is not whitespace.
pub proof fn lemma_ws_prefix_stop(s: Seq<char>)
    ensures
        ws_prefix_len(s) < s.len() ==> !is_ws(s[ws_prefix_len(s) as int]),
        forall|j: int| 0 <= j < ws_prefix_len(s) ==> is_ws(#[trigger] s[j]),
    decreases s.len(),
{
    lemma_ws_prefix_bound(s);
    if s.len() > 0 && is_ws(s[0]) {
        let t = s.drop_first();
        lemma_ws_prefix_stop(t);
        assert forall|j: int| 0 <= j < ws_prefix_len(s) implies is_ws(#[trigger] s[j]) by {
            if j > 0 {
                assert(s[j] == t[j - 1]);
            }
        }
    }
}

/// The characters before `nl_index` are no `'\n'`, and the one at it is.
pub proof fn lemma_nl_index_props(s: Seq<char>)
    ensures
        nl_index(s) <= s.len(),
        forall|j: int| 0 <= j < nl_index(s) ==> #[trigger] s[j] != '\n',
        nl_index(s) < s.len() ==> s[nl_index(s) as int] == '\n',
    decreases s.len(),
{
    if s.len() > 0 && s[0] != '\n' {
        let t = s.drop_first();
        lemma_nl_index_props(t);
        assert forall|j: int| 0 <= j < nl_index(s) implies #[trigger] s[j] != '\n' by {
            if j > 0 {
                assert(s[j] == t[j - 1]);
            }
        }
    }
}

pub fn is_whitespace(c: char) -> (r: bool)
    ensures
        r == is_ws(c),
{
    let u = c as u32;
    (9 <= u && u <= 13) || u == 32 || u == 0x85 || u == 0xa0 || u == 0x1680 || (0x2000 <= u && u
        <= 0x200a) || u == 0x2028 || u == 0x2029 || u == 0x202f || u == 0x205f || u == 0x3000
}

pub fn fold_char(c: char) -> (r: u32)
    ensures
        r as int == fold(c),
{
    let u = c as u32;
    if 65 <= u && u <= 90 {
        u + 32
    } else {
        u
    }
}

/// First index at or after `from` whose character is not whitespace, or the length.
fn skip_ws(s: &str, from: usize, len: usize) -> (r: usize)
    requires
        len == s@.len(),
        from <= len,
    ensures
        from <= r <= len,
        forall|j: int| from <= j < r ==> is_ws(#[trigger] s@[j]),
        r == len || !is_ws(s@[r as int]),
{
    let mut i = from;
    while i < len && is_whitespace(s.get_char(i))
        invariant
            from <= i <= len,
            len == s@.len(),
            forall|j: int| from <= j < i ==> is_ws(#[trigger] s@[j]),
        decreases len - i,
    {
        i = i + 1;
    }
    i
}

/// First index at or after `from` whose character is whitespace, or the length.
fn skip_word(s: &str, from: usize, len: usize) -> (r: usize)
    requires
        len == s@.len(),
        from <= len,
    ensures
        from <= r <= len,
        forall|j: int| from <= j < r ==> !is_ws(#[trigger] s@[j]),
        r == len || is_ws(s@[r as int]),
{
    let mut i = from;
    while i < len && !is_whitespace(s.get_char(i))
        invariant
            from <= i <= len,
            len == s@.len(),
            forall|j: int| from <= j < i ==> !is_ws(#[trigger] s@[j]),
        decreases len - i,
    {
        i = i + 1;
    }
    i
}

/// Number of leading whitespace characters of `s`.
pub fn leading_ws(s: &str) -> (n: usize)
    ensures
        n == ws_prefix_len(s@),
        n <= s@.len(),
{
    let len = s.unicode_len();
    let n = skip_ws(s, 0, len);
    proof {
        lemma_ws_prefix(s@, n as int);
    }
    n
}

/// Number of trailing whitespace characters of `s`.
pub fn trailing_ws(s: &str) -> (n: usize)
    ensures
        n == ws_suffix_len(s@),
        n <= s@.len(),
{
    let len = s.unicode_len();
    let mut n: usize = 0;
    while n < len && is_whitespace(s.get_char(len - 1 - n))
        invariant
            n <= len,
            len == s@.len(),
            forall|j: int| len - n <= j < len ==> is_ws(#[trigger] s@[j]),
        decreases len - n,
    {
        n = n + 1;
    }
    proof {
        lemma_ws_suffix(s@, n as int);
    }
    n
}

/// `s` with leading and trailing whitespace removed (`str::trim`).
pub fn trim_str(s: &str) -> (r: String)
    ensures
        r@ == trim(s@),
{
    let a = leading_ws(s);
    let len = s.unicode_len();
    let rest = s.substring_char(a, len);
    let b = trailing_ws(rest);
    let out = rest.substring_char(0, rest.unicode_len() - b);
    String::from_str(out)
}

/// `s` with leading whitespace removed (`str::trim_start`).
pub fn trim_start_str(s: &str) -> (r: String)
    ensures
        r@ == trim_start(s@),
{
    let a = leading_ws(s);
    let len = s.unicode_len();
    String::from_str(s.substring_char(a, len))
}

/// Every character of `s` is whitespace.
pub fn blank(s: &str) -> (r: bool)
    ensures
        r == is_blank(s@),
{
    let len = s.unicode_len();
    let n = skip_ws(s, 0, len);
    n == len
}

/// The whitespace-separated words of `s` (`str::split_whitespace`).
pub fn split_tokens(s: &str) -> (r: Vec<String>)
    ensures
        r.deep_view() == tokens(s@),
{
    let len = s.unicode_len();
    let mut out: Vec<String> = Vec::new();
    let mut i: usize = 0;
    assert(s@.skip(0) =~= s@);
    assert(out.deep_view() + tokens(s@) =~= tokens(s@));
    loop
        invariant
            i <= len,
            len == s@.len(),
            tokens(s@) == out.deep_view() + tokens(s@.skip(i as int)),
        decreases len - i,
    {
        let j = skip_ws(s, i, len);
        proof {
            let t = s@.skip(i as int);
            assert forall|x: int| 0 <= x < j - i implies is_ws(#[trigger] t[x]) by {
                assert(t[x] == s@[i + x]);
            }
            lemma_tokens_skip_ws(t, j - i);
            assert(t.skip(j - i) =~= s@.skip(j as int));
        }
        if j == len {
            proof {
                assert(tokens(s@.skip(i as int)) == Seq::<Seq<char>>::empty());
                assert(out.deep_view() + Seq::<Seq<char>>::empty() =~= out.deep_view());
            }
            return out;
        }
        let k = skip_word(s, j, len);
        let word = String::from_str(s.substring_char(j, k));
        proof {
            let u = s@.skip(j as int);
            assert forall|x: int| 0 <= x < k - j implies !is_ws(#[trigger] u[x]) by {
                assert(u[x] == s@[j + x]);
            }
            if k < len {
                assert(u[k - j] == s@[k as int]);
            }
            lemma_word(u, k - j);
            assert(u[0] == s@[j as int]);
            assert(u.take(k - j) =~= s@.subrange(j as int, k as int));
            assert(u.skip(k - j) =~= s@.skip(k as int));
        }
        let ghost before = out.deep_view();
        out.push(word);
        proof {
            assert(out.deep_view() =~= before.push(word@));
            assert(before + tokens(s@.skip(i as int)) =~= out.deep_view() + tokens(
                s@.skip(k as int),
            ));
        }
        i = k;
    }
}

/// Index of the first `'\n'` at or after `from`, or the length.
fn find_nl(s: &str, from: usize, len: usize) -> (r: usize)
    requires
        len == s@.len(),
        from <= len,
    ensures
        from <= r <= len,
        forall|j: int| from <= j < r ==> #[trigger] s@[j] != '\n',
        r == len || s@[r as int] == '\n',
{
    let mut i = from;
    while i < len && s.get_char(i) != '\n'
        invariant
            from <= i <= len,
            len == s@.len(),
            forall|j: int| from <= j < i ==> #[trigger] s@[j] != '\n',
        decreases len - i,
    {
        i = i + 1;
    }
    i
}

/// The lines of `s` (`str::lines`).
pub fn split_lines_str(s: &str) -> (r: Vec<String>)
    ensures
        r.deep_view() == split_lines(s@),
{
    let len = s.unicode_len();
    let mut out: Vec<String> = Vec::new();
    let mut i: usize = 0;
    assert(s@.skip(0) =~= s@);
    assert(out.deep_view() + split_lines(s@) =~= split_lines(s@));
    while i < len
        invariant
            i <= len,
            len == s@.len(),
            split_lines(s@) == out.deep_view() + split_lines(s@.skip(i as int)),
        decreases len - i,
    {
        let j = find_nl(s, i, len);
        let ghost t = s@.skip(i as int);
        proof {
            assert forall|x: int| 0 <= x < j - i implies #[trigger] t[x] != '\n' by {
                assert(t[x] == s@[i + x]);
            }
            if j < len {
                assert(t[j - i] == s@[j as int]);
            }
            lemma_nl_index(t, j - i);
            assert(t.take(j - i) =~= s@.subrange(i as int, j as int));
        }
        let mut end = j;
        if j < len && j > i && s.get_char(j - 1) == '\r' {
            end = j - 1;
        }
        let line = String::from_str(s.substring_char(i, end));
        let ghost before = out.deep_view();
        out.push(line);
        proof {
            assert(out.deep_view() =~= before.push(line@));
            if j == len {
                assert(t =~= line@);
                assert(s@.skip(len as int) =~= Seq::<char>::empty());
                assert(split_lines(s@.skip(len as int)) =~= Seq::<Seq<char>>::empty());
                assert(before + split_lines(t) =~= out.deep_view() + split_lines(
                    s@.skip(len as int),
                ));
            } else {
                assert(strip_cr(t.take(j - i)) =~= line@);
                assert(t.skip(j - i + 1) =~= s@.skip(j + 1));
                assert(before + split_lines(t) =~= out.deep_view() + split_lines(
                    s@.skip(j + 1),
                ));
            }
        }
        if j == len {
            i = len;
        } else {
            i = j + 1;
        }
    }
    proof {
        assert(s@.skip(len as int) =~= Seq::<char>::empty());
        assert(out.deep_view() + Seq::<Seq<char>>::empty() =~= out.deep_view());
    }
    out
}

/// The lines joined with `'\n'` (`[String]::join("\n")`).
pub fn join_lines_str(ls: &Vec<String>) -> (r: String)
    ensures
        r@ == join_lines(ls.deep_view()),
{
    let mut out = String::new();
    let mut i: usize = 0;
    while i < ls.len()
        invariant
            i <= ls.len(),
            out@ == join_lines(ls.deep_view().take(i as int)),
        decreases ls.len() - i,
    {
        let ghost v = ls.deep_view().take(i as int + 1);
        proof {
            assert(v.drop_last() =~= ls.deep_view().take(i as int));
        }
        if i > 0 {
            out.append("\n");
            proof {
                reveal_strlit("\n");
            }
        } else {
            proof {
                assert(ls.deep_view().take(0) =~= Seq::<Seq<char>>::empty());
            }
        }
        out.append(ls[i].as_str());
        proof {
            assert(out@ =~= join_lines(v));
        }
        i = i + 1;
    }
    proof {
        assert(ls.deep_view().take(ls.len() as int) =~= ls.deep_view());
    }
    out
}

/// `s` begins, at position `from`, with `p` up to ASCII case.
pub fn starts_with_ci_at(s: &str, from: usize, p: &str) -> (r: bool)
    requires
        from <= s@.len(),
    ensures
        r == starts_ci(s@.skip(from as int), p@),
{
    let len = s.unicode_len();
    let plen = p.unicode_len();
    if plen > len - from {
        return false;
    }
    let mut i: usize = 0;
    while i < plen
        invariant
            i <= plen,
            plen == p@.len(),
            len == s@.len(),
            from + plen <= len,
            forall|x: int| 0 <= x < i ==> fold(#[trigger] s@.skip(from as int)[x]) == fold(p@[x]),
        decreases plen - i,
    {
        if fold_char(s.get_char(from + i)) != fold_char(p.get_char(i)) {
            assert(s@.skip(from as int)[i as int] == s@[from + i]);
            return false;
        }
        assert(s@.skip(from as int)[i as int] == s@[from + i]);
        i = i + 1;
    }
    true
}

/// `p` occurs in `s` at or after position `from`, up to ASCII case.
pub fn contains_ci_from(s: &str, from: usize, p: &str) -> (r: bool)
    requires
        from <= s@.len(),
    ensures
        r == contains_ci(s@.skip(from as int), p@),
{
    let len = s.unicode_len();
    let ghost t = s@.skip(from as int);
    let mut k: usize = from;
    loop
        invariant
            from <= k <= len,
            len == s@.len(),
            t == s@.skip(from as int),
            forall|q: int| 0 <= q < k - from ==> !occurs_ci_at(t, p@, q),
        decreases len + 1 - k,
    {
        let hit = starts_with_ci_at(s, k, p);
        proof {
            let u = s@.skip(k as int);
            if hit {
                assert forall|x: int| 0 <= x < p@.len() implies fold(#[trigger] t[(k - from) + x])
                    == fold(p@[x]) by {
                    assert(t[(k - from) + x] == u[x]);
                }
                assert(occurs_ci_at(t, p@, k - from));
            } else {
                if occurs_ci_at(t, p@, k - from) {
                    assert forall|x: int| 0 <= x < p@.len() implies fold(#[trigger] u[x]) == fold(
                        p@[x],
                    ) by {
                        assert(t[(k - from) + x] == u[x]);
                    }
                }
            }
        }
        if hit {
            return true;
        }
        if k == len {
            proof {
                assert forall|q: int| !occurs_ci_at(t, p@, q) by {
                    if 0 <= q && q + p@.len() <= t.len() {
                        assert(q <= k - from);
                    }
                }
            }
            return false;
        }
        k = k + 1;
    }
}

/// Number of trailing copies of `c`.
pub open spec fn trailing_run(s: Seq<char>, c: char) -> nat
    decreases s.len(),
{
    if s.len() > 0 && s.last() == c {
        1 + trailing_run(s.drop_last(), c)
    } else {
        0
    }
}

/// Number of leading copies of `c`.
pub open spec fn leading_run(s: Seq<char>, c: char) -> nat
    decreases s.len(),
{
    if s.len() > 0 && s[0] == c {
        1 + leading_run(s.drop_first(), c)
    } else {
        0
    }
}

/// `s` without its trailing copies of `c` (`str::trim_end_matches`).
pub open spec fn trim_end_char(s: Seq<char>, c: char) -> Seq<char> {
    s.take(s.len() - trailing_run(s, c))
}

/// `s` without its leading copies of `c` (`str::trim_start_matches`).
pub open spec fn trim_start_char(s: Seq<char>, c: char) -> Seq<char> {
    s.skip(leading_run(s, c) as int)
}

/// `s` without leading or trailing copies of `c` (`str::trim_matches`).
pub open spec fn trim_char(s: Seq<char>, c: char) -> Seq<char> {
    trim_end_char(trim_start_char(s, c), c)
}

/// `p` occurs in `s` at position `k`.
pub open spec fn occurs_at(s: Seq<char>, p: Seq<char>, k: int) -> bool {
    0 <= k && k + p.len() <= s.len() && s.subrange(k, k + p.len()) == p
}

/// The first position at or after `k` where `p` occurs in `s` (`str::find`).
pub open spec fn find_from(s: Seq<char>, p: Seq<char>, k: int) -> Option<int>
    decreases s.len() + 1 - k,
{
    if k < 0 || k + p.len() > s.len() {
        None
    } else if occurs_at(s, p, k) {
        Some(k)
    } else {
        find_from(s, p, k + 1)
    }
}

/// The last position below `k` where `p` occurs in `s` (`str::rfind`).
pub open spec fn rfind_below(s: Seq<char>, p: Seq<char>, k: int) -> Option<int>
    decreases k,
{
    if k <= 0 {
        None
    } else if occurs_at(s, p, k - 1) {
        Some(k - 1)
    } else {
        rfind_below(s, p, k - 1)
    }
}

pub proof fn lemma_trailing_run(s: Seq<char>, c: char, n: int)
    requires
        0 <= n <= s.len(),
        forall|j: int| s.len() - n <= j < s.len() ==> #[trigger] s[j] == c,
        n == s.len() || s[s.len() - n - 1] != c,
    ensures
        trailing_run(s, c) == n,
    decreases n,
{
    if n > 0 {
        let t = s.drop_last();
        assert forall|j: int| t.len() - (n - 1) <= j < t.len() implies #[trigger] t[j] == c by {
            assert(t[j] == s[j]);
        }
        lemma_trailing_run(t, c, n - 1);
    }
}

pub proof fn lemma_leading_run(s: Seq<char>, c: char, n: int)
    requires
        0 <= n <= s.len(),
        forall|j: int| 0 <= j < n ==> #[trigger] s[j] == c,
        n == s.len() || s[n] != c,
    ensures
        leading_run(s, c) == n,
    decreases n,
{
    if n > 0 {
        let t = s.drop_first();
        assert forall|j: int| 0 <= j < n - 1 implies #[trigger] t[j] == c by {
            assert(t[j] == s[j + 1]);
        }
        lemma_leading_run(t, c, n - 1);
    }
}

/// `s` without its trailing copies of `c`.
pub fn trim_end_matches_char(s: &str, c: char) -> (r: String)
    ensures
        r@ == trim_end_char(s@, c),
{
    let len = s.unicode_len();
    let mut n: usize = 0;
    while n < len && s.get_char(len - 1 - n) == c
        invariant
            n <= len,
            len == s@.len(),
            forall|j: int| len - n <= j < len ==> #[trigger] s@[j] == c,
        decreases len - n,
    {
        n = n + 1;
    }
    proof {
        lemma_trailing_run(s@, c, n as int);
    }
    String::from_str(s.substring_char(0, len - n))
}

/// `s` without its leading copies of `c`.
pub fn trim_start_matches_char(s: &str, c: char) -> (r: String)
    ensures
        r@ == trim_start_char(s@, c),
{
    let len = s.unicode_len();
    let mut n: usize = 0;
    while n < len && s.get_char(n) == c
        invariant
            n <= len,
            len == s@.len(),
            forall|j: int| 0 <= j < n ==> #[trigger] s@[j] == c,
        decreases len - n,
    {
        n = n + 1;
    }
    proof {
        lemma_leading_run(s@, c, n as int);
    }
    String::from_str(s.substring_char(n, len))
}

/// `s` without leading or trailing copies of `c`.
pub fn trim_matches_char(s: &str, c: char) -> (r: String)
    ensures
        r@ == trim_char(s@, c),
{
    let a = trim_start_matches_char(s, c);
    trim_end_matches_char(a.as_str(), c)
}

/// Does `p` occur in `s` at position `k`?
pub fn occurs_at_str(s: &str, p: &str, k: usize) -> (r: bool)
    ensures
        r == occurs_at(s@, p@, k as int),
{
    let len = s.unicode_len();
    let plen = p.unicode_len();
    if k > len || plen > len - k {
        return false;
    }
    let mut i: usize = 0;
    while i < plen
        invariant
            i <= plen,
            plen == p@.len(),
            len == s@.len(),
            k + plen <= len,
            forall|x: int| 0 <= x < i ==> #[trigger] s@[k + x] == p@[x],
        decreases plen - i,
    {
        if s.get_char(k + i) != p.get_char(i) {
            assert(s@.subrange(k as int, k + plen)[i as int] == s@[k + i]);
            return false;
        }
        i = i + 1;
    }
    assert forall|x: int| 0 <= x < plen implies #[trigger] s@.subrange(k as int, k + plen)[x]
        == p@[x] by {
        assert(s@[k + x] == p@[x]);
    }
    assert(s@.subrange(k as int, k + plen) =~= p@);
    true
}

/// The first position of `p` in `s` (`str::find`).
pub fn find_str(s: &str, p: &str) -> (r: Option<usize>)
    ensures
        match (r, find_from(s@, p@, 0)) {
            (Some(a), Some(b)) => a == b,
            (None, None) => true,
            _ => false,
        },
        r matches Some(i) ==> occurs_at(s@, p@, i as int),
{
    let len = s.unicode_len();
    let plen = p.unicode_len();
    if plen > len {
        return None;
    }
    let mut k: usize = 0;
    loop
        invariant
            k <= len - plen,
            plen <= len,
            len == s@.len(),
            plen == p@.len(),
            find_from(s@, p@, 0) == find_from(s@, p@, k as int),
        decreases len - plen - k,
    {
        if occurs_at_str(s, p, k) {
            return Some(k);
        }
        if k == len - plen {
            assert(find_from(s@, p@, k as int + 1) is None);
            return None;
        }
        k = k + 1;
    }
}

/// The last position of `p` in `s` (`str::rfind`).
pub fn rfind_str(s: &str, p: &str) -> (r: Option<usize>)
    ensures
        match (r, rfind_below(s@, p@, s@.len() as int + 1)) {
            (Some(a), Some(b)) => a == b,
            (None, None) => true,
            _ => false,
        },
        r matches Some(i) ==> occurs_at(s@, p@, i as int),
{
    let len = s.unicode_len();
    if occurs_at_str(s, p, len) {
        return Some(len);
    }
    let mut k: usize = len;
    while k > 0
        invariant
            k <= len + 1,
            len == s@.len(),
            rfind_below(s@, p@, s@.len() as int + 1) == rfind_below(s@, p@, k as int),
        decreases k,
    {
        if occurs_at_str(s, p, k - 1) {
            return Some(k - 1);
        }
        k = k - 1;
    }
    None
}

/// The pieces joined with `sep` between them (`[String]::join`).
pub open spec fn join_sep(ls: Seq<Seq<char>>, sep: Seq<char>) -> Seq<char>
    decreases ls.len(),
{
    if ls.len() == 0 {
        seq![]
    } else if ls.len() == 1 {
        ls[0]
    } else {
        join_sep(ls.drop_last(), sep) + sep + ls.last()
    }
}

/// The pieces joined with `sep` between them.
pub fn join_with(ls: &Vec<String>, sep: &str) -> (r: String)
    ensures
        r@ == join_sep(ls.deep_view(), sep@),
{
    let mut out = String::new();
    let mut i: usize = 0;
    while i < ls.len()
        invariant
            i <= ls.len(),
            out@ == join_sep(ls.deep_view().take(i as int), sep@),
        decreases ls.len() - i,
    {
        let ghost v = ls.deep_view().take(i as int + 1);
        proof {
            assert(v.drop_last() =~= ls.deep_view().take(i as int));
        }
        if i > 0 {
            out.append(sep);
        } else {
            proof {
                assert(ls.deep_view().take(0) =~= Seq::<Seq<char>>::empty());
            }
        }
        out.append(ls[i].as_str());
        proof {
            assert(out@ =~= join_sep(v, sep@));
        }
        i = i + 1;
    }
    proof {
        assert(ls.deep_view().take(ls.len() as int) =~= ls.deep_view());
    }
    out
}

/// A copy of each string.
pub fn copy_strings(v: &Vec<String>) -> (r: Vec<String>)
    ensures
        r.deep_view() == v.deep_view(),
{
    let mut out: Vec<String> = Vec::new();
    let mut i: usize = 0;
    while i < v.len()
        invariant
            i <= v.len(),
            out.deep_view() =~= v.deep_view().take(i as int),
        decreases v.len() - i,
    {
        let ghost before = out.deep_view();
        out.push(v[i].clone());
        assert(out.deep_view() =~= before.push(v[i as int]@));
        i = i + 1;
    }
    out
}

/// The first occurrence at or after `k0` is at `j` when `p` occurs at `j`
/// and nowhere in between.
pub proof fn lemma_find_first(s: Seq<char>, p: Seq<char>, k0: int, j: int)
    requires
        0 <= k0 <= j,
        occurs_at(s, p, j),
        forall|m: int| k0 <= m < j ==> !#[trigger] occurs_at(s, p, m),
    ensures
        find_from(s, p, k0) == Some(j),
    decreases j - k0,
{
    if k0 < j {
        lemma_find_first(s, p, k0 + 1, j);
    }
}

/// No occurrence is found exactly when there is none.
pub proof fn lemma_find_none(s: Seq<char>, p: Seq<char>, k0: int)
    requires
        k0 >= 0,
    ensures
        (find_from(s, p, k0) is None) == (forall|m: int| k0 <= m ==> !#[trigger] occurs_at(s, p, m)),
    decreases s.len() + 1 - k0,
{
    if k0 + p.len() <= s.len() {
        lemma_find_none(s, p, k0 + 1);
        if !occurs_at(s, p, k0) {
            assert forall|m: int| k0 <= m && (forall|m2: int| k0 + 1 <= m2 ==> !#[trigger] occurs_at(s, p, m2))
                implies !#[trigger] occurs_at(s, p, m) by {
                if m > k0 {
                    assert(!occurs_at(s, p, m));
                }
            }
        }
    } else {
        assert forall|m: int| k0 <= m implies !#[trigger] occurs_at(s, p, m) by {}
    }
}

pub proof fn lemma_trailing_run_stop(s: Seq<char>, c: char)
    ensures
        trailing_run(s, c) <= s.len(),
        trailing_run(s, c) < s.len() ==> s[s.len() - trailing_run(s, c) - 1] != c,
    decreases s.len(),
{
    if s.len() > 0 && s.last() == c {
        lemma_trailing_run_stop(s.drop_last(), c);
    }
}

/// What `trim_end_char` leaves does not end with `c`, and trimming again
/// leaves it as it is.
pub proof fn lemma_trim_end_char(s: Seq<char>, c: char)
    ensures
        trim_end_char(s, c).len() > 0 ==> trim_end_char(s, c).last() != c,
        trim_end_char(trim_end_char(s, c), c) == trim_end_char(s, c),
        trim_end_char(s, c) == s.take(trim_end_char(s, c).len() as int),
        trim_end_char(s, c).len() <= s.len(),
{
    lemma_trailing_run_stop(s, c);
    let t = trim_end_char(s, c);
    if t.len() > 0 {
        assert(t.last() == s[s.len() - trailing_run(s, c) - 1]);
    }
    assert(trailing_run(t, c) == 0);
    assert(t.take(t.len() as int) =~= t);
}

} // verus!
