//! Verified string helpers: character search, splitting, joining and
//! decimal parsing, used by the descriptor parser, the FTP LIST parser
//! and the path planners.

use vstd::prelude::*;
use vstd::string::*;

verus! {

/// The views of a sequence of strings.
pub open spec fn seq_views(v: Seq<String>) -> Seq<Seq<char>> {
    v.map_values(|s: String| s@)
}

/// First index of `c` in `s`, if any.
pub open spec fn spec_find(s: Seq<char>, c: char) -> Option<int>
    decreases s.len(),
{
    if s.len() == 0 {
        None
    } else if s[0] == c {
        Some(0int)
    } else {
        match spec_find(s.drop_first(), c) {
            None => None,
            Some(i) => Some(i + 1),
        }
    }
}

/// Last index of `c` in `s`, if any.
pub open spec fn spec_rfind(s: Seq<char>, c: char) -> Option<int>
    decreases s.len(),
{
    if s.len() == 0 {
        None
    } else if s[s.len() - 1] == c {
        Some(s.len() - 1)
    } else {
        spec_rfind(s.drop_last(), c)
    }
}

proof fn lemma_find_hit(s: Seq<char>, c: char, i: int)
    requires
        0 <= i < s.len(),
        s[i] == c,
        forall|k: int| 0 <= k < i ==> s[k] != c,
    ensures
        spec_find(s, c) == Some(i),
    decreases s.len(),
{
    if i == 0 {
    } else {
        assert(s.drop_first()[i - 1] == c);
        assert(forall|k: int| 0 <= k < i - 1 ==> s.drop_first()[k] != c);
        lemma_find_hit(s.drop_first(), c, i - 1);
    }
}

proof fn lemma_find_miss(s: Seq<char>, c: char)
    requires
        forall|k: int| 0 <= k < s.len() ==> s[k] != c,
    ensures
        spec_find(s, c) is None,
    decreases s.len(),
{
    if s.len() > 0 {
        assert(forall|k: int| 0 <= k < s.drop_first().len() ==> s.drop_first()[k] != c);
        lemma_find_miss(s.drop_first(), c);
    }
}

proof fn lemma_rfind_hit(s: Seq<char>, c: char, i: int)
    requires
        0 <= i < s.len(),
        s[i] == c,
        forall|k: int| i < k < s.len() ==> s[k] != c,
    ensures
        spec_rfind(s, c) == Some(i),
    decreases s.len(),
{
    if i == s.len() - 1 {
    } else {
        assert(s.drop_last()[i] == c);
        assert(forall|k: int| i < k < s.drop_last().len() ==> s.drop_last()[k] != c);
        lemma_rfind_hit(s.drop_last(), c, i);
    }
}

proof fn lemma_rfind_miss(s: Seq<char>, c: char)
    requires
        forall|k: int| 0 <= k < s.len() ==> s[k] != c,
    ensures
        spec_rfind(s, c) is None,
    decreases s.len(),
{
    if s.len() > 0 {
        assert(forall|k: int| 0 <= k < s.drop_last().len() ==> s.drop_last()[k] != c);
        lemma_rfind_miss(s.drop_last(), c);
    }
}

/// Whether the characters of `a` and `b` agree.
pub fn str_eq(a: &str, b: &str) -> (r: bool)
    ensures
        r == (a@ == b@),
{
    let n = a.unicode_len();
    let m = b.unicode_len();
    if n != m {
        assert(a@ != b@);
        return false;
    }
    let mut i: usize = 0;
    while i < n
        invariant
            n == a@.len(),
            n == b@.len(),
            i <= n,
            forall|k: int| 0 <= k < i ==> a@[k] == b@[k],
        decreases n - i,
    {
        if a.get_char(i) != b.get_char(i) {
            return false;
        }
        i = i + 1;
    }
    proof {
        assert(a@ =~= b@);
    }
    true
}

/// First index of `c` in `s`, scanning forward.
pub fn find_char(s: &str, c: char) -> (r: Option<usize>)
    ensures
        match r {
            Some(i) => i < s@.len() && spec_find(s@, c) == Some(i as int),
            None => spec_find(s@, c) is None,
        },
{
    let n = s.unicode_len();
    let mut i: usize = 0;
    while i < n
        invariant
            n == s@.len(),
            i <= n,
            forall|k: int| 0 <= k < i ==> s@[k] != c,
        decreases n - i,
    {
        if s.get_char(i) == c {
            proof {
                lemma_find_hit(s@, c, i as int);
            }
            return Some(i);
        }
        i = i + 1;
    }
    proof {
        lemma_find_miss(s@, c);
    }
    None
}

/// Last index of `c` in `s`, scanning backward.
pub fn rfind_char(s: &str, c: char) -> (r: Option<usize>)
    ensures
        match r {
            Some(i) => i < s@.len() && spec_rfind(s@, c) == Some(i as int),
            None => spec_rfind(s@, c) is None,
        },
{
    let n = s.unicode_len();
    let mut i: usize = n;
    while i > 0
        invariant
            n == s@.len(),
            i <= n,
            forall|k: int| i <= k < n ==> s@[k] != c,
        decreases i,
    {
        i = i - 1;
        if s.get_char(i) == c {
            proof {
                lemma_rfind_hit(s@, c, i as int);
            }
            return Some(i);
        }
    }
    proof {
        lemma_rfind_miss(s@, c);
    }
    None
}

/// What splitting at the first occurrence of `c` yields: the part before
/// and the part after the separator, or nothing when `c` does not occur.
pub open spec fn spec_split_once(s: Seq<char>, c: char) -> Option<(Seq<char>, Seq<char>)> {
    match spec_find(s, c) {
        None => None,
        Some(i) => Some((s.take(i), s.skip(i + 1))),
    }
}

/// Splits at the first occurrence of `c`.
pub fn split_once_char(s: &str, c: char) -> (r: Option<(String, String)>)
    ensures
        match r {
            Some(p) => spec_split_once(s@, c) == Some((p.0@, p.1@)),
            None => spec_split_once(s@, c) is None,
        },
{
    match find_char(s, c) {
        None => None,
        Some(i) => {
            let n = s.unicode_len();
            let before = s.substring_char(0, i).to_owned();
            let after = s.substring_char(i + 1, n).to_owned();
            proof {
                assert(before@ =~= s@.take(i as int));
                assert(after@ =~= s@.skip(i as int + 1));
            }
            Some((before, after))
        },
    }
}

/// What splitting at the last occurrence of `c` yields.
pub open spec fn spec_rsplit_once(s: Seq<char>, c: char) -> Option<(Seq<char>, Seq<char>)> {
    match spec_rfind(s, c) {
        None => None,
        Some(i) => Some((s.take(i), s.skip(i + 1))),
    }
}

/// Splits at the last occurrence of `c`.
pub fn rsplit_once_char(s: &str, c: char) -> (r: Option<(String, String)>)
    ensures
        match r {
            Some(p) => spec_rsplit_once(s@, c) == Some((p.0@, p.1@)),
            None => spec_rsplit_once(s@, c) is None,
        },
{
    match rfind_char(s, c) {
        None => None,
        Some(i) => {
            let n = s.unicode_len();
            proof {
                lemma_rfind_bound(s@, c);
            }
            let before = s.substring_char(0, i).to_owned();
            let after = s.substring_char(i + 1, n).to_owned();
            proof {
                assert(before@ =~= s@.take(i as int));
                assert(after@ =~= s@.skip(i as int + 1));
            }
            Some((before, after))
        },
    }
}

proof fn lemma_rfind_bound(s: Seq<char>, c: char)
    ensures
        match spec_rfind(s, c) {
            Some(i) => 0 <= i < s.len() && s[i] == c,
            None => true,
        },
    decreases s.len(),
{
    if s.len() > 0 && s[s.len() - 1] != c {
        lemma_rfind_bound(s.drop_last(), c);
    }
}

/// Whether `c` is a white-space character (the Unicode `White_Space` set).
pub open spec fn is_ws_char(c: char) -> bool {
    c == ' ' || c == '\t' || c == '\n' || c == '\r' || c == '\u{b}' || c == '\u{c}' || c
        == '\u{85}' || c == '\u{a0}' || c == '\u{1680}' || ('\u{2000}' <= c && c <= '\u{200a}') || c
        == '\u{2028}' || c == '\u{2029}' || c == '\u{202f}' || c == '\u{205f}' || c == '\u{3000}'
}

/// Tests `is_ws_char`.
pub fn is_ws(c: char) -> (r: bool)
    ensures
        r == is_ws_char(c),
{
    c == ' ' || c == '\t' || c == '\n' || c == '\r' || c == '\u{b}' || c == '\u{c}' || c
        == '\u{85}' || c == '\u{a0}' || c == '\u{1680}' || ('\u{2000}' <= c && c <= '\u{200a}') || c
        == '\u{2028}' || c == '\u{2029}' || c == '\u{202f}' || c == '\u{205f}' || c == '\u{3000}'
}

/// Length of the longest prefix of `s` free of separators.
pub open spec fn token_len(s: Seq<char>, sep: spec_fn(char) -> bool) -> nat
    decreases s.len(),
{
    if s.len() == 0 || sep(s[0]) {
        0
    } else {
        (1 + token_len(s.drop_first(), sep)) as nat
    }
}

/// The maximal separator-free runs of `s`, in order.  Separators are
/// dropped, so empty tokens never occur.
pub open spec fn tokens(s: Seq<char>, sep: spec_fn(char) -> bool) -> Seq<Seq<char>>
    decreases s.len(),
    via tokens_decreases
{
    if s.len() == 0 {
        Seq::empty()
    } else if sep(s[0]) {
        tokens(s.drop_first(), sep)
    } else {
        seq![s.take(token_len(s, sep) as int)] + tokens(s.skip(token_len(s, sep) as int), sep)
    }
}

#[via_fn]
proof fn tokens_decreases(s: Seq<char>, sep: spec_fn(char) -> bool) {
    if s.len() > 0 && !sep(s[0]) {
        lemma_token_len_le(s, sep);
        assert(token_len(s, sep) >= 1);
        assert(s.skip(token_len(s, sep) as int).len() < s.len());
    }
}

proof fn lemma_token_len_le(s: Seq<char>, sep: spec_fn(char) -> bool)
    ensures
        token_len(s, sep) <= s.len(),
    decreases s.len(),
{
    if s.len() > 0 && !sep(s[0]) {
        lemma_token_len_le(s.drop_first(), sep);
    }
}

proof fn lemma_token_len_exact(s: Seq<char>, sep: spec_fn(char) -> bool, k: int)
    requires
        0 <= k <= s.len(),
        forall|i: int| 0 <= i < k ==> !sep(s[i]),
        k == s.len() || sep(s[k]),
    ensures
        token_len(s, sep) == k,
    decreases s.len(),
{
    if k > 0 {
        assert(forall|i: int| 0 <= i < k - 1 ==> !sep(s.drop_first()[i]));
        assert(k - 1 < s.drop_first().len() ==> sep(s.drop_first()[k - 1]));
        lemma_token_len_exact(s.drop_first(), sep, k - 1);
    }
}

proof fn lemma_tokens_skip_sep(s: Seq<char>, sep: spec_fn(char) -> bool, i: int)
    requires
        0 <= i < s.len(),
        sep(s[i]),
    ensures
        tokens(s.skip(i), sep) == tokens(s.skip(i + 1), sep),
{
    assert(s.skip(i).len() > 0);
    assert(s.skip(i)[0] == s[i]);
    assert(s.skip(i).drop_first() =~= s.skip(i + 1));
}

proof fn lemma_tokens_take_token(s: Seq<char>, sep: spec_fn(char) -> bool, i: int, j: int)
    requires
        0 <= i < s.len(),
        i <= j <= s.len(),
        forall|k: int| i <= k < j ==> !sep(s[k]),
        i < j,
        j == s.len() || sep(s[j]),
    ensures
        tokens(s.skip(i), sep) == seq![s.subrange(i, j)] + tokens(s.skip(j), sep),
{
    let suf = s.skip(i);
    assert(forall|k: int| 0 <= k < j - i ==> !sep(suf[k]));
    assert(j - i < suf.len() ==> sep(suf[j - i]));
    lemma_token_len_exact(suf, sep, j - i);
    assert(!sep(suf[0]));
    assert(suf.take(j - i) =~= s.subrange(i, j));
    assert(suf.skip(j - i) =~= s.skip(j));
}

/// What splitting `s` on white space yields.
pub open spec fn spec_split_ws(s: Seq<char>) -> Seq<Seq<char>> {
    tokens(s, |c: char| is_ws_char(c))
}

/// Splits `s` into its maximal runs of non-white-space characters.
pub fn split_whitespace_vec(s: &str) -> (r: Vec<String>)
    ensures
        seq_views(r@) == spec_split_ws(s@),
{
    let ghost sep = |c: char| is_ws_char(c);
    let n = s.unicode_len();
    let mut out: Vec<String> = Vec::new();
    let mut i: usize = 0;
    proof {
        assert(s@.skip(0) =~= s@);
        assert(seq_views(out@) + tokens(s@.skip(0), sep) =~= tokens(s@, sep));
    }
    while i < n
        invariant
            n == s@.len(),
            i <= n,
            seq_views(out@) + tokens(s@.skip(i as int), sep) == tokens(s@, sep),
            sep == (|c: char| is_ws_char(c)),
        decreases n - i,
    {
        if is_ws(s.get_char(i)) {
            proof {
                lemma_tokens_skip_sep(s@, sep, i as int);
            }
            i = i + 1;
        } else {
            let start = i;
            i = i + 1;
            while i < n && !is_ws(s.get_char(i))
                invariant
                    n == s@.len(),
                    start < i <= n,
                    forall|k: int| start <= k < i ==> !sep(s@[k]),
                    sep == (|c: char| is_ws_char(c)),
                decreases n - i,
            {
                i = i + 1;
            }
            assert(i == n || sep(s@[i as int]));
            let tok = s.substring_char(start, i).to_owned();
            proof {
                lemma_tokens_take_token(s@, sep, start as int, i as int);
                assert(tok@ =~= s@.subrange(start as int, i as int));
            }
            out.push(tok);
            proof {
                assert(seq_views(out@) =~= seq_views(out@.drop_last()).push(tok@));
                assert(seq_views(out@) + tokens(s@.skip(i as int), sep) =~= tokens(s@, sep));
            }
        }
    }
    proof {
        assert(s@.skip(n as int) =~= Seq::<char>::empty());
        assert(seq_views(out@) =~= tokens(s@, sep));
    }
    out
}

/// Whether `c` is a decimal digit.
pub open spec fn is_digit(c: char) -> bool {
    '0' <= c && c <= '9'
}

/// The numeric value of a digit character.
pub open spec fn digit_val(c: char) -> int {
    c as int - '0' as int
}

/// Whether every character of `s` is a decimal digit.
pub open spec fn all_digits(s: Seq<char>) -> bool {
    forall|i: int| 0 <= i < s.len() ==> is_digit(s[i])
}

/// The value of `s` read as a decimal numeral.
pub open spec fn dec_val(s: Seq<char>) -> int
    decreases s.len(),
{
    if s.len() == 0 {
        0
    } else {
        dec_val(s.drop_last()) * 10 + digit_val(s.last())
    }
}

/// What parsing `s` as an unsigned 32-bit decimal yields: the value when
/// `s` is a non-empty, all-digit numeral that fits, nothing otherwise.
pub open spec fn spec_parse_u32(s: Seq<char>) -> Option<u32> {
    if s.len() > 0 && all_digits(s) && dec_val(s) <= u32::MAX {
        Some(dec_val(s) as u32)
    } else {
        None
    }
}

proof fn lemma_dec_val_nonneg(s: Seq<char>)
    requires
        all_digits(s),
    ensures
        dec_val(s) >= 0,
    decreases s.len(),
{
    if s.len() > 0 {
        assert(all_digits(s.drop_last()));
        lemma_dec_val_nonneg(s.drop_last());
    }
}

proof fn lemma_dec_val_grows(s: Seq<char>, i: int)
    requires
        all_digits(s),
        0 <= i <= s.len(),
    ensures
        dec_val(s) >= dec_val(s.take(i)),
    decreases s.len() - i,
{
    if i < s.len() {
        lemma_dec_val_grows(s, i + 1);
        let t = s.take(i + 1);
        assert(t.drop_last() =~= s.take(i));
        assert(t.last() == s[i]);
        lemma_dec_val_nonneg(s.take(i));
        assert(dec_val(s.take(i + 1)) == dec_val(s.take(i)) * 10 + digit_val(s[i]));
    } else {
        assert(s.take(i) =~= s);
    }
}

/// Parses `s` as an unsigned decimal numeral.
pub fn parse_u32_digits(s: &str) -> (r: Option<u32>)
    ensures
        r == spec_parse_u32(s@),
{
    let n = s.unicode_len();
    if n == 0 {
        return None;
    }
    let mut acc: u64 = 0;
    let mut i: usize = 0;
    proof {
        assert(s@.take(0) =~= Seq::<char>::empty());
    }
    while i < n
        invariant
            n == s@.len(),
            i <= n,
            forall|k: int| 0 <= k < i ==> is_digit(s@[k]),
            acc == dec_val(s@.take(i as int)),
            acc <= u32::MAX,
        decreases n - i,
    {
        let c = s.get_char(i);
        if !('0' <= c && c <= '9') {
            assert(!all_digits(s@));
            return None;
        }
        let d: u64 = (c as u32 - '0' as u32) as u64;
        acc = acc * 10 + d;
        i = i + 1;
        proof {
            assert(s@.take(i as int).drop_last() =~= s@.take(i as int - 1));
            assert(s@.take(i as int).last() == s@[i as int - 1]);
        }
        if acc > 0xffff_ffff {
            proof {
                assert(all_digits(s@) ==> dec_val(s@) >= dec_val(s@.take(i as int))) by {
                    if all_digits(s@) {
                        lemma_dec_val_grows(s@, i as int);
                    }
                }
            }
            return None;
        }
    }
    proof {
        assert(s@.take(n as int) =~= s@);
    }
    Some(acc as u32)
}

/// The parts joined with `sep` between consecutive parts.
pub open spec fn spec_join(parts: Seq<Seq<char>>, sep: char) -> Seq<char>
    decreases parts.len(),
{
    if parts.len() == 0 {
        Seq::empty()
    } else if parts.len() == 1 {
        parts[0]
    } else {
        spec_join(parts.drop_last(), sep) + seq![sep] + parts.last()
    }
}

/// Joins `parts[from..]` with the one-character separator `sep_str`.
pub fn join_from(parts: &Vec<String>, from: usize, sep_str: &str) -> (r: String)
    requires
        from <= parts@.len(),
        sep_str@.len() == 1,
    ensures
        r@ == spec_join(seq_views(parts@).skip(from as int), sep_str@[0]),
{
    let ghost sep = sep_str@[0];
    let ghost whole = seq_views(parts@).skip(from as int);
    let mut r = String::new();
    let mut i: usize = from;
    proof {
        assert(whole.take(0) =~= Seq::<Seq<char>>::empty());
    }
    while i < parts.len()
        invariant
            from <= i <= parts@.len(),
            sep_str@.len() == 1,
            sep == sep_str@[0],
            whole == seq_views(parts@).skip(from as int),
            r@ == spec_join(whole.take(i - from), sep),
        decreases parts@.len() - i,
    {
        if i > from {
            r.append(sep_str);
            proof {
                assert(seq![sep] =~= sep_str@);
            }
        }
        r.append(parts[i].as_str());
        i = i + 1;
        proof {
            let k = i - from;
            assert(whole.take(k).drop_last() =~= whole.take(k - 1));
            assert(whole.take(k).last() == whole[k - 1]);
            if k == 1 {
                assert(r@ =~= spec_join(whole.take(k), sep));
            }
        }
    }
    proof {
        assert(whole.take(parts@.len() - from) =~= whole);
    }
    r
}

/// The child path used for record keys during recursive FTP listing:
/// `name` when the base is `.` or empty, otherwise `base/name`.
pub open spec fn spec_join_path(base: Seq<char>, name: Seq<char>) -> Seq<char> {
    if base =~= seq!['.'] || base.len() == 0 {
        name
    } else {
        base + seq!['/'] + name
    }
}

/// Joins a base path and an entry name with `/`.
pub fn join_path(base: &str, name: &str) -> (r: String)
    ensures
        r@ == spec_join_path(base@, name@),
{
    let is_dot = base.unicode_len() == 1 && base.get_char(0) == '.';
    if is_dot || base.unicode_len() == 0 {
        proof {
            if is_dot {
                assert(base@ =~= seq!['.']);
            }
        }
        name.to_owned()
    } else {
        assert(!(base@ =~= seq!['.']));
        let mut r = base.to_owned();
        r.append("/");
        r.append(name);
        proof {
            reveal_strlit("/");
            assert("/"@ =~= seq!['/']);
        }
        r
    }
}

/// `s` with every leading `/` removed.
pub open spec fn drop_leading_slashes(s: Seq<char>) -> Seq<char>
    decreases s.len(),
{
    if s.len() > 0 && s[0] == '/' {
        drop_leading_slashes(s.drop_first())
    } else {
        s
    }
}

proof fn lemma_drop_leading_slashes_at(s: Seq<char>, i: int)
    requires
        0 <= i <= s.len(),
        forall|k: int| 0 <= k < i ==> s[k] == '/',
        i == s.len() || s[i] != '/',
    ensures
        drop_leading_slashes(s) == s.skip(i),
    decreases s.len(),
{
    if i == 0 {
        assert(s.skip(0) =~= s);
    } else {
        assert(forall|k: int| 0 <= k < i - 1 ==> s.drop_first()[k] == '/');
        lemma_drop_leading_slashes_at(s.drop_first(), i - 1);
        assert(s.drop_first().skip(i - 1) =~= s.skip(i));
    }
}

/// What stripping the folder root `root` from an event path yields: the
/// remainder of `path` behind the root, without leading `/`, when `root`
/// is a prefix of `path` that ends at a component boundary.
pub open spec fn spec_strip_prefix(path: Seq<char>, root: Seq<char>) -> Option<Seq<char>> {
    if root.len() == 0 {
        Some(drop_leading_slashes(path))
    } else if path.len() >= root.len() && path.take(root.len() as int) == root {
        let rest = path.skip(root.len() as int);
        if rest.len() == 0 {
            Some(rest)
        } else if rest[0] == '/' || root[root.len() - 1] == '/' {
            Some(drop_leading_slashes(rest))
        } else {
            None
        }
    } else {
        None
    }
}

/// Strips the folder root from an absolute event path, yielding the
/// endpoint-relative path.
pub fn strip_path_prefix(path: &str, root: &str) -> (r: Option<String>)
    ensures
        match r {
            Some(rest) => spec_strip_prefix(path@, root@) == Some(rest@),
            None => spec_strip_prefix(path@, root@) is None,
        },
{
    let n = path.unicode_len();
    let m = root.unicode_len();
    if m > 0 {
        if n < m {
            return None;
        }
        let mut i: usize = 0;
        while i < m
            invariant
                n == path@.len(),
                m == root@.len(),
                m <= n,
                i <= m,
                forall|k: int| 0 <= k < i ==> path@[k] == root@[k],
            decreases m - i,
        {
            if path.get_char(i) != root.get_char(i) {
                assert(path@.take(m as int)[i as int] != root@[i as int]);
                return None;
            }
            i = i + 1;
        }
        proof {
            assert(path@.take(m as int) =~= root@);
        }
        if n > m && path.get_char(m) != '/' && root.get_char(m - 1) != '/' {
            proof {
                let rest = path@.skip(m as int);
                assert(rest[0] == path@[m as int]);
            }
            return None;
        }
    }
    // Skip the separators at the front of the remainder.
    let start = if m > 0 {
        m
    } else {
        0
    };
    let mut j: usize = start;
    while j < n && path.get_char(j) == '/'
        invariant
            n == path@.len(),
            start <= j <= n,
            forall|k: int| start <= k < j ==> path@[k] == '/',
        decreases n - j,
    {
        j = j + 1;
    }
    let rest = path.substring_char(j, n).to_owned();
    proof {
        let tail = path@.skip(start as int);
        assert(forall|k: int| 0 <= k < j - start ==> tail[k] == '/');
        assert(j - start == tail.len() || tail[j - start] != '/');
        lemma_drop_leading_slashes_at(tail, j - start);
        assert(tail.skip(j - start) =~= path@.skip(j as int));
        assert(rest@ =~= path@.skip(j as int));
        if m == 0 {
            assert(tail =~= path@);
        }
        if m > 0 {
            let rst = path@.skip(m as int);
            if rst.len() == 0 {
                assert(rest@ =~= rst);
            } else {
                assert(rst[0] == path@[m as int]);
                assert(rst == tail);
            }
        }
    }
    Some(rest)
}

/// Whether `sub` occurs in `s` starting at `i`.
pub open spec fn contains_at(s: Seq<char>, sub: Seq<char>, i: int) -> bool {
    0 <= i && i + sub.len() <= s.len() && s.subrange(i, i + sub.len()) == sub
}

/// Whether `sub` occurs anywhere in `s`.
pub open spec fn spec_contains(s: Seq<char>, sub: Seq<char>) -> bool {
    exists|i: int| contains_at(s, sub, i)
}

/// Whether `sub` occurs in `s`.
pub fn contains_str(s: &str, sub: &str) -> (r: bool)
    ensures
        r == spec_contains(s@, sub@),
{
    let n = s.unicode_len();
    let m = sub.unicode_len();
    if m > n {
        assert(forall|i: int| !contains_at(s@, sub@, i));
        return false;
    }
    let mut i: usize = 0;
    while i <= n - m
        invariant
            n == s@.len(),
            m == sub@.len(),
            m <= n,
            i <= n - m + 1,
            forall|k: int| 0 <= k < i ==> !contains_at(s@, sub@, k),
        decreases n - i,
    {
        let mut j: usize = 0;
        while j < m && s.get_char(i + j) == sub.get_char(j)
            invariant
                n == s@.len(),
                m == sub@.len(),
                i + m <= n,
                j <= m,
                forall|k: int| 0 <= k < j ==> s@[i + k] == sub@[k],
            decreases m - j,
        {
            j = j + 1;
        }
        if j == m {
            proof {
                assert(s@.subrange(i as int, i + m) =~= sub@);
                assert(contains_at(s@, sub@, i as int));
            }
            return true;
        }
        proof {
            assert(s@[i + j] != sub@[j as int]);
            assert(s@.subrange(i as int, i + m)[j as int] == s@[i + j]);
            assert(!contains_at(s@, sub@, i as int));
        }
        i = i + 1;
    }
    proof {
        assert(forall|k: int| k > n - m ==> !contains_at(s@, sub@, k));
    }
    false
}

/// What splitting `s` on `/` and dropping empty parts yields.
pub open spec fn spec_components(s: Seq<char>) -> Seq<Seq<char>> {
    tokens(s, |c: char| c == '/')
}

/// Splits a path into its non-empty `/`-separated components.
pub fn path_components(s: &str) -> (r: Vec<String>)
    ensures
        seq_views(r@) == spec_components(s@),
{
    let ghost sep = |c: char| c == '/';
    let n = s.unicode_len();
    let mut out: Vec<String> = Vec::new();
    let mut i: usize = 0;
    proof {
        assert(s@.skip(0) =~= s@);
        assert(seq_views(out@) + tokens(s@.skip(0), sep) =~= tokens(s@, sep));
    }
    while i < n
        invariant
            n == s@.len(),
            i <= n,
            seq_views(out@) + tokens(s@.skip(i as int), sep) == tokens(s@, sep),
            sep == (|c: char| c == '/'),
        decreases n - i,
    {
        if s.get_char(i) == '/' {
            proof {
                lemma_tokens_skip_sep(s@, sep, i as int);
            }
            i = i + 1;
        } else {
            let start = i;
            i = i + 1;
            while i < n && s.get_char(i) != '/'
                invariant
                    n == s@.len(),
                    start < i <= n,
                    forall|k: int| start <= k < i ==> !sep(s@[k]),
                    sep == (|c: char| c == '/'),
                decreases n - i,
            {
                i = i + 1;
            }
            assert(i == n || sep(s@[i as int]));
            let tok = s.substring_char(start, i).to_owned();
            proof {
                lemma_tokens_take_token(s@, sep, start as int, i as int);
                assert(tok@ =~= s@.subrange(start as int, i as int));
            }
            out.push(tok);
            proof {
                assert(seq_views(out@) =~= seq_views(out@.drop_last()).push(tok@));
                assert(seq_views(out@) + tokens(s@.skip(i as int), sep) =~= tokens(s@, sep));
            }
        }
    }
    proof {
        assert(s@.skip(n as int) =~= Seq::<char>::empty());
        assert(seq_views(out@) =~= tokens(s@, sep));
    }
    out
}

} // verus!
