use vstd::prelude::*;
use vstd::string::*;
use crate::config::path_join;
use crate::hosts::{has_prefix, str_has_prefix};
use crate::ssh::eq_ignore_case;
use crate::text::{trailing_run, lemma_find_first, lemma_find_none, lemma_trim_end_char, occurs_at, eq_ci, trim, trim_str, find_from, find_str, join_lines, join_lines_str, trim_end_char, trim_end_matches_char};

verus! {

/// The line that opens the managed block.
pub const MANAGED_START: &'static str = "### MANAGED BY PROXYCTL-RS START (DO NOT EDIT)";

/// The line that closes the managed block.
pub const MANAGED_END: &'static str = "### MANAGED BY PROXYCTL-RS END (DO NOT EDIT)";

/// Number of `'\n'` directly before position `k`.
pub open spec fn nl_before(s: Seq<char>, k: int) -> nat
    decreases k,
{
    if 0 < k <= s.len() && s[k - 1] == '\n' {
        1 + nl_before(s, k - 1)
    } else {
        0
    }
}

/// Number of `'\n'` directly before position `k` that only pad: all but the
/// one that ends the line before.
pub open spec fn padding_before(s: Seq<char>, k: int) -> nat {
    if nl_before(s, k) > 0 {
        (nl_before(s, k) - 1) as nat
    } else {
        0
    }
}

/// Number of `'\n'` from position `k` on.
pub open spec fn nl_after(s: Seq<char>, k: int) -> nat
    decreases s.len() - k,
{
    if 0 <= k < s.len() && s[k] == '\n' {
        1 + nl_after(s, k + 1)
    } else {
        0
    }
}

/// `s` without its managed blocks: each run from a start marker to the next
/// end marker goes, with the newlines directly after it and the blank lines
/// directly before it; the newline that ends the line before it stays. The
/// flag says whether a block went.
pub open spec fn strip_block(s: Seq<char>) -> (Seq<char>, bool)
    decreases s.len(),
{
    match find_from(s, MANAGED_START@, 0) {
        None => (s, false),
        Some(st) => match find_from(s.skip(st), MANAGED_END@, 0) {
            None => (s, false),
            Some(rel) => {
                let end = st + rel + MANAGED_END@.len();
                let a = st - padding_before(s, st);
                let b = end + nl_after(s, end);
                if 0 <= a < b <= s.len() {
                    (strip_block(s.take(a) + s.skip(b)).0, true)
                } else {
                    (s, false)
                }
            },
        },
    }
}

/// The managed block holding `exports`, with its final newline.
pub open spec fn managed_block(exports: Seq<Seq<char>>) -> Seq<char> {
    join_lines(seq![MANAGED_START@] + exports + seq![MANAGED_END@]).push('\n')
}

/// A profile's new content: without export lines, the old content with its
/// managed block stripped; else that content without trailing newlines,
/// one blank line where it is not empty, and the managed block.
pub open spec fn profile_content(existing: Seq<char>, exports: Seq<Seq<char>>) -> Seq<char> {
    let base = strip_block(existing).0;
    if exports.len() == 0 {
        base
    } else {
        let b = trim_end_char(base, '\n');
        (if b.len() > 0 {
            b + seq!['\n', '\n']
        } else {
            seq![]
        }) + managed_block(exports)
    }
}

/// Removes the managed blocks of a profile's content; the flag says whether
/// there was one.
pub fn strip_managed_block(content: &str) -> (r: (String, bool))
    ensures
        (r.0@, r.1) == strip_block(content@),
{
    let mut current = String::from_str(content);
    let mut changed = false;
    loop
        invariant
            strip_block(content@).0 == strip_block(current@).0,
            strip_block(content@).1 == (changed || strip_block(current@).1),
        decreases current@.len(),
    {
        let s = current.as_str();
        let len = s.unicode_len();
        let st = match find_str(s, MANAGED_START) {
            Some(st) => st,
            None => {
                return (current, changed);
            },
        };
        let tail = s.substring_char(st, len);
        let rel = match find_str(tail, MANAGED_END) {
            Some(rel) => rel,
            None => {
                return (current, changed);
            },
        };
        let elen = MANAGED_END.unicode_len();
        assert(tail@ == s@.skip(st as int));
        let end = st + rel + elen;
        let mut a = st;
        while a > 0 && s.get_char(a - 1) == '\n'
            invariant
                a <= st <= len,
                len == s@.len(),
                nl_before(s@, st as int) == (st - a) + nl_before(s@, a as int),
            decreases a,
        {
            a = a - 1;
        }
        if a < st {
            a = a + 1;
        }
        let mut b = end;
        while b < len && s.get_char(b) == '\n'
            invariant
                end <= b <= len,
                len == s@.len(),
                nl_after(s@, end as int) == (b - end) + nl_after(s@, b as int),
            decreases len - b,
        {
            b = b + 1;
        }
        if !(a < b) {
            return (current, changed);
        }
        let mut next = String::from_str(s.substring_char(0, a));
        next.append(s.substring_char(b, len));
        assert(next@ =~= s@.take(a as int) + s@.skip(b as int));
        current = next;
        changed = true;
    }
}

/// A profile's new content for the given export lines (see
/// [`profile_content`]).
pub fn managed_profile_content(existing: &str, exports: &Vec<String>) -> (r: String)
    ensures
        r@ == profile_content(existing@, exports.deep_view()),
{
    let (base, _) = strip_managed_block(existing);
    if exports.len() == 0 {
        return base;
    }
    let b = trim_end_matches_char(base.as_str(), '\n');
    let mut out = String::new();
    if b.as_str().unicode_len() > 0 {
        out.append(b.as_str());
        out.append("\n\n");
        proof {
            reveal_strlit("\n\n");
        }
    }
    let mut lines: Vec<String> = Vec::new();
    lines.push(String::from_str(MANAGED_START));
    let mut i: usize = 0;
    while i < exports.len()
        invariant
            i <= exports.len(),
            lines.deep_view() =~= seq![MANAGED_START@] + exports.deep_view().take(i as int),
        decreases exports.len() - i,
    {
        let ghost before = lines.deep_view();
        lines.push(exports[i].clone());
        assert(lines.deep_view() =~= before.push(exports[i as int]@));
        i = i + 1;
    }
    let ghost before = lines.deep_view();
    lines.push(String::from_str(MANAGED_END));
    assert(exports.deep_view().take(exports.len() as int) =~= exports.deep_view());
    assert(lines.deep_view() =~= seq![MANAGED_START@] + exports.deep_view() + seq![MANAGED_END@]);
    let block = join_lines_str(&lines);
    out.append(block.as_str());
    out.append("\n");
    proof {
        reveal_strlit("\n");
    }
    out
}

/// The profile files, relative to the home directory, that a shell reads,
/// in order of preference; shell names compare up to ASCII case.
pub open spec fn profile_candidates(shell: Seq<char>) -> Seq<Seq<char>> {
    if eq_ci(shell, "zsh"@) {
        seq![".zshenv"@, ".zprofile"@, ".zshrc"@]
    } else if eq_ci(shell, "bash"@) {
        seq![".bash_profile"@, ".bashrc"@]
    } else {
        seq![]
    }
}

/// The profile files that a shell reads, in order of preference.
pub fn shell_profile_candidates(shell: &str) -> (r: Vec<String>)
    ensures
        r.deep_view() == profile_candidates(shell@),
{
    let mut v: Vec<String> = Vec::new();
    if eq_ignore_case(shell, "zsh") {
        v.push(String::from_str(".zshenv"));
        v.push(String::from_str(".zprofile"));
        v.push(String::from_str(".zshrc"));
    } else if eq_ignore_case(shell, "bash") {
        v.push(String::from_str(".bash_profile"));
        v.push(String::from_str(".bashrc"));
    }
    assert(v.deep_view() =~= profile_candidates(shell@));
    v
}

/// Index of the first `true` at or after `i`.
pub open spec fn first_true(v: Seq<bool>, i: int) -> Option<int>
    decreases v.len() - i,
{
    if i < 0 || i >= v.len() {
        None
    } else if v[i] {
        Some(i)
    } else {
        first_true(v, i + 1)
    }
}

/// The profile to use among `candidates`: the first that exists, else the
/// first one; `None` where there is no candidate.
pub fn select_profile(candidates: &Vec<String>, exists: &Vec<bool>) -> (r: Option<usize>)
    requires
        exists.len() == candidates.len(),
    ensures
        match first_true(exists@, 0) {
            Some(i) => r == Some(i as usize),
            None => r == if candidates.len() > 0 {
                Some(0usize)
            } else {
                None::<usize>
            },
        },
{
    let mut i: usize = 0;
    while i < exists.len()
        invariant
            i <= exists.len(),
            first_true(exists@, 0) == first_true(exists@, i as int),
        decreases exists.len() - i,
    {
        if exists[i] {
            return Some(i);
        }
        i = i + 1;
    }
    if candidates.len() > 0 {
        Some(0)
    } else {
        None
    }
}

/// `t` without its leading `~/` prefixes.
pub open spec fn strip_tilde(t: Seq<char>) -> Seq<char>
    decreases t.len(),
{
    if has_prefix(t, seq!['~', '/']) {
        strip_tilde(t.skip(2))
    } else {
        t
    }
}

/// A configured profile path made absolute: `~/` and relative paths are
/// taken from the home directory.
pub open spec fn expanded_path(value: Seq<char>, home: Seq<char>) -> Seq<char> {
    path_join(home, strip_tilde(trim(value)))
}

/// A configured profile path made absolute.
pub fn expand_profile_path(value: &str, home: &str) -> (r: String)
    ensures
        r@ == expanded_path(value@, home@),
{
    proof {
        reveal_strlit("~/");
        assert("~/"@ =~= seq!['~', '/']);
    }
    let mut t = trim_str(value);
    while str_has_prefix(t.as_str(), "~/")
        invariant
            strip_tilde(trim(value@)) == strip_tilde(t@),
            "~/"@ == seq!['~', '/'],
        decreases t@.len(),
    {
        let n = t.as_str().unicode_len();
        t = String::from_str(t.as_str().substring_char(2, n));
    }
    let nlen = t.as_str().unicode_len();
    if nlen > 0 && t.as_str().get_char(0) == '/' {
        return t;
    }
    let hlen = home.unicode_len();
    let mut path = String::from_str(home);
    if !(hlen > 0 && home.get_char(hlen - 1) == '/') {
        path.append("/");
        proof {
            reveal_strlit("/");
        }
    }
    path.append(t.as_str());
    path
}

/// Adds `path` unless it is already listed.
pub fn push_unique_path(paths: &mut Vec<String>, path: String)
    ensures
        old(paths).deep_view().contains(path@) ==> final(paths).deep_view() == old(paths).deep_view(),
        !old(paths).deep_view().contains(path@) ==> final(paths).deep_view() == old(
            paths,
        ).deep_view().push(path@),
{
    let ghost v = paths.deep_view();
    let mut i: usize = 0;
    while i < paths.len()
        invariant
            i <= paths.len(),
            v == paths.deep_view(),
            forall|j: int| 0 <= j < i ==> #[trigger] v[j] != path@,
        decreases paths.len() - i,
    {
        if paths[i] == path {
            assert(v[i as int] == path@);
            return;
        }
        i = i + 1;
    }
    paths.push(path);
    assert(paths.deep_view() =~= v.push(path@));
}

/// Adds a shell name unless it is empty or already listed up to ASCII case.
pub fn add_shell_name(names: &mut Vec<String>, name: &str)
    ensures
        (name@.len() == 0 || exists|j: int| 0 <= j < old(names).len() && eq_ci(#[trigger] old(names).deep_view()[j], name@))
            ==> final(names).deep_view() == old(names).deep_view(),
        !(name@.len() == 0 || exists|j: int| 0 <= j < old(names).len() && eq_ci(#[trigger] old(names).deep_view()[j], name@))
            ==> final(names).deep_view() == old(names).deep_view().push(name@),
{
    if name.unicode_len() == 0 {
        return;
    }
    let ghost v = names.deep_view();
    let mut i: usize = 0;
    while i < names.len()
        invariant
            i <= names.len(),
            v == names.deep_view(),
            forall|j: int| 0 <= j < i ==> !eq_ci(#[trigger] v[j], name@),
        decreases names.len() - i,
    {
        if eq_ignore_case(names[i].as_str(), name) {
            assert(eq_ci(v[i as int], name@));
            return;
        }
        i = i + 1;
    }
    names.push(String::from_str(name));
    assert(names.deep_view() =~= v.push(name@));
}

proof fn lemma_join_front(h: Seq<char>, es: Seq<Seq<char>>)
    requires
        es.len() > 0,
    ensures
        join_lines(seq![h] + es) == h + seq!['\n'] + join_lines(es),
    decreases es.len(),
{
    let a = seq![h] + es;
    if es.len() == 1 {
        assert(a.drop_last() =~= seq![h]);
        assert(a.last() == es[0]);
        assert(join_lines(seq![h]) == h);
        assert(join_lines(es) == es[0]);
        assert(join_lines(a) =~= h + seq!['\n'] + join_lines(es));
    } else {
        assert(a.drop_last() =~= seq![h] + es.drop_last());
        assert(a.last() == es.last());
        lemma_join_front(h, es.drop_last());
        assert(join_lines(a) =~= h + seq!['\n'] + join_lines(es));
    }
}

/// The managed block laid out: start marker, the joined export lines and the
/// end marker, each on a line of its own.
proof fn lemma_block_layout(es: Seq<Seq<char>>)
    requires
        es.len() > 0,
    ensures
        managed_block(es) == MANAGED_START@ + seq!['\n'] + join_lines(es) + seq!['\n'] + MANAGED_END@
            + seq!['\n'],
{
    let a = seq![MANAGED_START@] + es;
    assert((a + seq![MANAGED_END@]).drop_last() =~= a);
    assert((a + seq![MANAGED_END@]).last() == MANAGED_END@);
    lemma_join_front(MANAGED_START@, es);
}

/// What the proofs use of the two markers.
proof fn lemma_markers()
    ensures
        MANAGED_START@.len() == 46,
        MANAGED_END@.len() == 44,
        forall|i: int| 0 <= i < 46 ==> #[trigger] MANAGED_START@[i] != '\n',
        forall|i: int| 0 <= i < 44 ==> #[trigger] MANAGED_END@[i] != '\n',
        MANAGED_START@[27] != MANAGED_END@[27],
        MANAGED_START@[3] != MANAGED_END@[2],
        MANAGED_START@[3] != MANAGED_END@[1],
{
    reveal_strlit("### MANAGED BY PROXYCTL-RS START (DO NOT EDIT)");
    reveal_strlit("### MANAGED BY PROXYCTL-RS END (DO NOT EDIT)");
}

/// The start marker is first found where `z` begins, after `b` and a blank
/// line, when `b` is a prefix of a text without the marker.
proof fn lemma_start_found(b: Seq<char>, s0: Seq<char>, z: Seq<char>)
    requires
        b.len() <= s0.len(),
        b == s0.take(b.len() as int),
        find_from(s0, MANAGED_START@, 0) is None,
        z.len() >= 46,
        z.subrange(0, 46) == MANAGED_START@,
    ensures
        ({
            let p = if b.len() > 0 { b + seq!['\n', '\n'] } else { Seq::<char>::empty() };
            find_from(p + z, MANAGED_START@, 0) == Some(p.len() as int)
        }),
{
    lemma_markers();
    let st = MANAGED_START@;
    let p = if b.len() > 0 { b + seq!['\n', '\n'] } else { Seq::<char>::empty() };
    let y = p + z;
    let pb = p.len() as int;
    lemma_find_none(s0, st, 0);
    assert(y.subrange(pb, pb + 46) =~= z.subrange(0, 46));
    assert forall|k: int| 0 <= k < pb implies !#[trigger] occurs_at(y, st, k) by {
        if occurs_at(y, st, k) {
            if k + 46 <= b.len() {
                assert forall|i: int| 0 <= i < 46 implies #[trigger] s0[k + i] == st[i] by {
                    assert(y.subrange(k, k + 46)[i] == y[k + i]);
                    assert(y[k + i] == b[k + i]);
                    assert(b[k + i] == s0[k + i]);
                }
                assert(s0.subrange(k, k + 46) =~= st);
                assert(occurs_at(s0, st, k));
            } else {
                let idx = if k <= b.len() {
                    b.len() as int
                } else {
                    b.len() + 1int
                };
                assert(y[idx] == '\n');
                assert(y.subrange(k, k + 46)[idx - k] == y[idx]);
            }
        }
    }
    lemma_find_first(y, st, 0, pb);
}

/// In the laid-out block the end marker is first found at its own line.
proof fn lemma_end_found(m: Seq<char>)
    requires
        find_from(m, MANAGED_END@, 0) is None,
    ensures
        ({
            let n = seq!['\n'];
            let z = MANAGED_START@ + n + m + n + MANAGED_END@ + n;
            find_from(z, MANAGED_END@, 0) == Some(48 + m.len() as int)
        }),
{
    lemma_markers();
    let st = MANAGED_START@;
    let en = MANAGED_END@;
    let n = seq!['\n'];
    let z = st + n + m + n + en + n;
    lemma_find_none(m, en, 0);
    let q: int = 47 + m.len() as int;
    let rel = q + 1;
    assert(z.subrange(rel, rel + 44) =~= en);
    assert forall|k: int| 0 <= k < rel implies !#[trigger] occurs_at(z, en, k) by {
        if occurs_at(z, en, k) {
            let w = z.subrange(k, k + 44);
            if k == 0 {
                assert(w[27] == st[27]);
            } else if k == 1 {
                assert(w[2] == st[3]);
            } else if k == 2 {
                assert(w[1] == st[3]);
            } else if k <= 46 {
                assert(w[46 - k] == z[46]);
            } else if k + 44 <= q {
                assert(m.subrange(k - 47, k - 47 + 44) =~= w);
                assert(occurs_at(m, en, k - 47));
            } else {
                assert(w[q - k] == z[q]);
            }
        }
    }
    lemma_find_first(z, en, 0, rel);
}

/// `b` with a line ending after it, unless it is empty.
pub open spec fn ended(b: Seq<char>) -> Seq<char> {
    if b.len() > 0 {
        b.push('\n')
    } else {
        b
    }
}

/// Stripping what a write produced gives back the earlier content without
/// its block and with a single line ending.
#[verifier::rlimit(40)]
proof fn lemma_strip_written(x: Seq<char>, es: Seq<Seq<char>>)
    requires
        es.len() > 0,
        find_from(strip_block(x).0, MANAGED_START@, 0) is None,
        find_from(join_lines(es), MANAGED_END@, 0) is None,
    ensures
        strip_block(profile_content(x, es)) == (ended(trim_end_char(strip_block(x).0, '\n')), true),
        find_from(ended(trim_end_char(strip_block(x).0, '\n')), MANAGED_START@, 0) is None,
        trim_end_char(ended(trim_end_char(strip_block(x).0, '\n')), '\n') == trim_end_char(
            strip_block(x).0,
            '\n',
        ),
{
    lemma_markers();
    let st = MANAGED_START@;
    let en = MANAGED_END@;
    let s0 = strip_block(x).0;
    let b = trim_end_char(s0, '\n');
    lemma_trim_end_char(s0, '\n');
    let n = seq!['\n'];
    let m = join_lines(es);
    let p = if b.len() > 0 { b + seq!['\n', '\n'] } else { Seq::<char>::empty() };
    lemma_block_layout(es);
    let y = profile_content(x, es);
    let z = st + n + m + n + en + n;
    assert(y =~= p + z);
    let pb = p.len() as int;
    assert(z.subrange(0, 46) =~= st);
    lemma_start_found(b, s0, z);
    lemma_end_found(m);
    assert(y.skip(pb) =~= z);
    let end = pb + 48 + m.len() + 44;
    assert(end == y.len() - 1);
    if b.len() > 0 {
        assert(y[pb - 1] == '\n');
        assert(y[pb - 2] == '\n');
        assert(y[pb - 3] == b.last());
        assert(nl_before(y, pb - 2) == 0);
        assert(nl_before(y, pb - 1) == 1);
        assert(nl_before(y, pb) == 2);
    }
    assert(y[end] == '\n');
    assert(nl_after(y, end + 1) == 0);
    assert(nl_after(y, end) == 1);
    let bb = ended(b);
    lemma_find_none(s0, st, 0);
    assert forall|k: int| 0 <= k implies !#[trigger] occurs_at(bb, st, k) by {
        if occurs_at(bb, st, k) {
            if k + 46 <= b.len() {
                assert forall|i: int| 0 <= i < 46 implies #[trigger] s0[k + i] == st[i] by {
                    assert(bb.subrange(k, k + 46)[i] == bb[k + i]);
                    assert(bb[k + i] == b[k + i]);
                }
                assert(s0.subrange(k, k + 46) =~= st);
                assert(occurs_at(s0, st, k));
            } else {
                assert(bb[b.len() as int] == '\n');
                assert(bb.subrange(k, k + 46)[b.len() - k] == bb[b.len() as int]);
            }
        }
    }
    lemma_find_none(bb, st, 0);
    assert(strip_block(bb) == (bb, false));
    let a = pb - padding_before(y, pb);
    assert(a == bb.len());
    assert(find_from(y, st, 0) == Some(pb));
    assert(find_from(y.skip(pb), en, 0) == Some(48 + m.len() as int));
    assert(y.take(a) + y.skip(end + 1) =~= bb);
    if b.len() > 0 {
        assert(bb.drop_last() =~= b);
        assert(trailing_run(b, '\n') == 0);
        assert(trailing_run(bb, '\n') == 1);
        assert(bb.take(bb.len() - 1) =~= b);
    }
}

/// Writing the same export lines twice gives what the first write gave,
/// where the content left after stripping holds no start marker and the
/// export lines hold no end marker.
pub proof fn lemma_profile_write_idempotent(x: Seq<char>, es: Seq<Seq<char>>)
    requires
        es.len() > 0,
        find_from(strip_block(x).0, MANAGED_START@, 0) is None,
        find_from(join_lines(es), MANAGED_END@, 0) is None,
    ensures
        profile_content(profile_content(x, es), es) == profile_content(x, es),
{
    lemma_strip_written(x, es);
    lemma_trim_end_char(strip_block(x).0, '\n');
}

/// Writing no export lines after a write removes the block whole: what is
/// left is the earlier content without its block, ending in one line ending
/// where it is not empty, and it holds no start marker.
pub proof fn lemma_profile_remove_after_write(x: Seq<char>, es: Seq<Seq<char>>)
    requires
        es.len() > 0,
        find_from(strip_block(x).0, MANAGED_START@, 0) is None,
        find_from(join_lines(es), MANAGED_END@, 0) is None,
    ensures
        profile_content(profile_content(x, es), seq![]) == ended(trim_end_char(strip_block(x).0, '\n')),
        find_from(profile_content(profile_content(x, es), seq![]), MANAGED_START@, 0) is None,
{
    lemma_strip_written(x, es);
}

/// Writing other export lines after a write replaces the block: the result
/// is what writing them to the earlier content gives.
pub proof fn lemma_profile_rewrite(x: Seq<char>, first: Seq<Seq<char>>, second: Seq<Seq<char>>)
    requires
        first.len() > 0,
        second.len() > 0,
        find_from(strip_block(x).0, MANAGED_START@, 0) is None,
        find_from(join_lines(first), MANAGED_END@, 0) is None,
    ensures
        profile_content(profile_content(x, first), second) == profile_content(x, second),
{
    lemma_strip_written(x, first);
    lemma_trim_end_char(strip_block(x).0, '\n');
}

} // verus!
