//! Character-level string operations, stated over `Seq<char>`.

use vstd::prelude::*;

verus! {

/// `suffix` is a suffix of `s`.
pub open spec fn is_suffix_of(suffix: Seq<char>, s: Seq<char>) -> bool {
    suffix.len() <= s.len() && s.subrange(s.len() - suffix.len(), s.len() as int) == suffix
}

/// `prefix` is a prefix of `s`.
pub open spec fn is_prefix_of(prefix: Seq<char>, s: Seq<char>) -> bool {
    prefix.len() <= s.len() && s.subrange(0, prefix.len() as int) == prefix
}

/// The characters of a string slice, as a vector.
pub fn chars_of(s: &str) -> (v: Vec<char>)
    ensures
        v@ == s@,
{
    let n = s.unicode_len();
    let mut v: Vec<char> = Vec::new();
    let mut i: usize = 0;
    while i < n
        invariant
            n == s@.len(),
            i <= n,
            v@ == s@.subrange(0, i as int),
        decreases n - i,
    {
        v.push(s.get_char(i));
        i = i + 1;
        assert(v@ =~= s@.subrange(0, i as int));
    }
    assert(v@ =~= s@);
    v
}

/// Whether `s` ends with `suffix`.
pub fn ends_with(s: &str, suffix: &str) -> (b: bool)
    ensures
        b == is_suffix_of(suffix@, s@),
{
    let sv = chars_of(s);
    let xv = chars_of(suffix);
    if xv.len() > sv.len() {
        return false;
    }
    let total = sv.len();
    let off = total - xv.len();
    let mut i: usize = 0;
    while i < xv.len()
        invariant
            sv@ == s@,
            xv@ == suffix@,
            off + xv@.len() == sv@.len(),
            sv@.len() == total,
            i <= xv@.len(),
            forall|k: int| 0 <= k < i ==> sv@[off + k] == xv@[k],
        decreases xv.len() - i,
    {
        if sv[off + i] != xv[i] {
            assert(s@.subrange(s@.len() - suffix@.len(), s@.len() as int)[i as int] != suffix@[i as int]);
            return false;
        }
        i = i + 1;
    }
    assert(s@.subrange(s@.len() - suffix@.len(), s@.len() as int) =~= suffix@);
    true
}

/// Whether `s` starts with `prefix`.
pub fn starts_with(s: &str, prefix: &str) -> (b: bool)
    ensures
        b == is_prefix_of(prefix@, s@),
{
    let sv = chars_of(s);
    let pv = chars_of(prefix);
    if pv.len() > sv.len() {
        return false;
    }
    let mut i: usize = 0;
    while i < pv.len()
        invariant
            sv@ == s@,
            pv@ == prefix@,
            pv@.len() <= sv@.len(),
            i <= pv@.len(),
            forall|k: int| 0 <= k < i ==> sv@[k] == pv@[k],
        decreases pv.len() - i,
    {
        if sv[i] != pv[i] {
            assert(s@.subrange(0, prefix@.len() as int)[i as int] != prefix@[i as int]);
            return false;
        }
        i = i + 1;
    }
    assert(s@.subrange(0, prefix@.len() as int) =~= prefix@);
    true
}

/// The module path `m` is the module `p` or lies under it: `m` is `p`, or
/// starts with `p` followed by `::`.
pub open spec fn within_module(m: Seq<char>, p: Seq<char>) -> bool {
    m == p || is_prefix_of(p + seq![':', ':'], m)
}

/// The leading `crate::` of a crate-qualified module path.
pub open spec fn crate_qualifier() -> Seq<char> {
    seq!['c', 'r', 'a', 't', 'e', ':', ':']
}

/// The module path `m` is the module `p` or lies under it, `p` written
/// either crate-qualified (`crate::motor`) or relative to the crate root
/// (`motor`).
pub open spec fn module_matches(m: Seq<char>, p: Seq<char>) -> bool {
    ||| within_module(m, p)
    ||| is_prefix_of(crate_qualifier(), m) && within_module(m.skip(7), p)
}

/// Whether the characters of `m` from `off` on are the module `p` or lie
/// under it.
fn within_module_at(m: &Vec<char>, off: usize, p: &Vec<char>) -> (b: bool)
    requires
        off <= m@.len(),
    ensures
        b == within_module(m@.skip(off as int), p@),
{
    let ghost rest = m@.skip(off as int);
    let ghost sep = p@ + seq![':', ':'];
    let n = m.len() - off;
    if n < p.len() {
        assert(rest != p@);
        return false;
    }
    let mut i: usize = 0;
    while i < p.len()
        invariant
            rest == m@.skip(off as int),
            sep == p@ + seq![':', ':'],
            off <= m@.len(),
            m@.len() == m.len(),
            n == rest.len(),
            off + n == m@.len(),
            p@.len() <= n,
            i <= p@.len(),
            forall|k: int| 0 <= k < i ==> rest[k] == p@[k],
        decreases p.len() - i,
    {
        if m[off + i] != p[i] {
            assert(rest[i as int] != p@[i as int]);
            assert(rest != p@);
            assert(!is_prefix_of(sep, rest)) by {
                if is_prefix_of(sep, rest) {
                    assert(rest.subrange(0, sep.len() as int)[i as int] == sep[i as int]);
                }
            }
            return false;
        }
        i = i + 1;
    }
    if n == p.len() {
        assert(rest =~= p@);
        return true;
    }
    assert(rest != p@);
    if n - p.len() >= 2 && m[off + p.len()] == ':' && m[off + p.len() + 1] == ':' {
        assert(rest.subrange(0, sep.len() as int) =~= sep);
        true
    } else {
        assert(!is_prefix_of(sep, rest)) by {
            if is_prefix_of(sep, rest) {
                assert(rest.subrange(0, sep.len() as int)[p@.len() as int] == sep[p@.len() as int]);
                assert(rest.subrange(0, sep.len() as int)[p@.len() + 1int] == sep[p@.len() + 1int]);
            }
        }
        false
    }
}

/// Whether the module path `m` is the module `path` or lies under it, with
/// `path` crate-qualified or not.
pub fn matches_module(m: &str, path: &str) -> (b: bool)
    ensures
        b == module_matches(m@, path@),
{
    let mv = chars_of(m);
    let pv = chars_of(path);
    assert(mv@.skip(0) =~= mv@);
    if within_module_at(&mv, 0, &pv) {
        return true;
    }
    proof {
        reveal_strlit("crate::");
        assert("crate::"@ =~= crate_qualifier());
    }
    if starts_with(m, "crate::") {
        within_module_at(&mv, 7, &pv)
    } else {
        false
    }
}

/// Whether two string slices hold the same characters.
pub fn same_text(a: &str, b: &str) -> (r: bool)
    ensures
        r == (a@ == b@),
{
    let av = chars_of(a);
    let bv = chars_of(b);
    if av.len() != bv.len() {
        return false;
    }
    let mut i: usize = 0;
    while i < av.len()
        invariant
            av@ == a@,
            bv@ == b@,
            av@.len() == bv@.len(),
            i <= av@.len(),
            forall|k: int| 0 <= k < i ==> av@[k] == bv@[k],
        decreases av.len() - i,
    {
        if av[i] != bv[i] {
            return false;
        }
        i = i + 1;
    }
    assert(a@ =~= b@);
    true
}


/// `char::is_whitespace`: the characters with the Unicode `White_Space`
/// property.
pub open spec fn is_ws(c: char) -> bool {
    ||| ('\u{9}' <= c && c <= '\u{d}')
    ||| c == ' '
    ||| c == '\u{85}'
    ||| c == '\u{a0}'
    ||| c == '\u{1680}'
    ||| ('\u{2000}' <= c && c <= '\u{200a}')
    ||| c == '\u{2028}'
    ||| c == '\u{2029}'
    ||| c == '\u{202f}'
    ||| c == '\u{205f}'
    ||| c == '\u{3000}'
}

/// Whether a character is whitespace, as `char::is_whitespace` says.
pub fn is_whitespace(c: char) -> (b: bool)
    ensures
        b == is_ws(c),
{
    ('\u{9}' <= c && c <= '\u{d}') || c == ' ' || c == '\u{85}' || c == '\u{a0}' || c == '\u{1680}'
        || ('\u{2000}' <= c && c <= '\u{200a}') || c == '\u{2028}' || c == '\u{2029}' || c == '\u{202f}'
        || c == '\u{205f}' || c == '\u{3000}'
}

/// `s` without its leading whitespace.
pub open spec fn trim_start(s: Seq<char>) -> Seq<char>
    decreases s.len(),
{
    if s.len() > 0 && is_ws(s[0]) {
        trim_start(s.drop_first())
    } else {
        s
    }
}

/// `s` without its trailing whitespace.
pub open spec fn trim_end(s: Seq<char>) -> Seq<char>
    decreases s.len(),
{
    if s.len() > 0 && is_ws(s.last()) {
        trim_end(s.drop_last())
    } else {
        s
    }
}

/// `str::trim`: `s` without leading and trailing whitespace.
pub open spec fn spec_trim(s: Seq<char>) -> Seq<char> {
    trim_end(trim_start(s))
}

proof fn lemma_trim_start_at(s: Seq<char>, i: int)
    requires
        0 <= i <= s.len(),
        forall|k: int| 0 <= k < i ==> is_ws(s[k]),
        i == s.len() || !is_ws(s[i]),
    ensures
        trim_start(s) == s.subrange(i, s.len() as int),
    decreases i,
{
    if i == 0 {
        assert(s.subrange(0, s.len() as int) =~= s);
    } else {
        lemma_trim_start_at(s.drop_first(), i - 1);
        assert(s.drop_first().subrange(i - 1, s.len() - 1) =~= s.subrange(i, s.len() as int));
    }
}

proof fn lemma_trim_end_at(s: Seq<char>, j: int)
    requires
        0 <= j <= s.len(),
        forall|k: int| j <= k < s.len() ==> is_ws(s[k]),
        j == 0 || !is_ws(s[j - 1]),
    ensures
        trim_end(s) == s.subrange(0, j),
    decreases s.len() - j,
{
    if j == s.len() {
        assert(s.subrange(0, j) =~= s);
    } else {
        lemma_trim_end_at(s.drop_last(), j);
        assert(s.drop_last().subrange(0, j) =~= s.subrange(0, j));
    }
}

/// `str::trim`.
pub fn trim(s: &str) -> (r: &str)
    ensures
        r@ == spec_trim(s@),
{
    let v = chars_of(s);
    let n = v.len();
    let mut a: usize = 0;
    while a < n && is_whitespace(v[a])
        invariant
            v@ == s@,
            n == v@.len(),
            a <= n,
            forall|k: int| 0 <= k < a ==> is_ws(v@[k]),
        decreases n - a,
    {
        a = a + 1;
    }
    let mut b: usize = n;
    while b > a && is_whitespace(v[b - 1])
        invariant
            v@ == s@,
            n == v@.len(),
            a <= b <= n,
            forall|k: int| b <= k < n ==> is_ws(v@[k]),
        decreases b - a,
    {
        b = b - 1;
    }
    proof {
        lemma_trim_start_at(s@, a as int);
        let t = s@.subrange(a as int, n as int);
        assert forall|k: int| b - a <= k < t.len() implies is_ws(t[k]) by {
            assert(t[k] == s@[a + k]);
        }
        if b > a {
            assert(t[b - a - 1] == s@[b - 1]);
        }
        lemma_trim_end_at(t, b - a);
        assert(t.subrange(0, b - a) =~= s@.subrange(a as int, b as int));
    }
    s.substring_char(a, b)
}

/// The part of `s` before the first `c`; all of `s` when there is none.
/// (`s.split(c).next()`.)
pub open spec fn before_char(s: Seq<char>, c: char) -> Seq<char>
    decreases s.len(),
{
    if s.len() == 0 {
        s
    } else if s[0] == c {
        Seq::empty()
    } else {
        seq![s[0]] + before_char(s.drop_first(), c)
    }
}

proof fn lemma_before_char_at(s: Seq<char>, c: char, i: int)
    requires
        0 <= i <= s.len(),
        forall|k: int| 0 <= k < i ==> s[k] != c,
        i == s.len() || s[i] == c,
    ensures
        before_char(s, c) == s.subrange(0, i),
    decreases i,
{
    if i == 0 {
        if s.len() == 0 {
            assert(s.subrange(0, 0) =~= s);
        } else {
            assert(s.subrange(0, 0) =~= Seq::<char>::empty());
        }
    } else {
        lemma_before_char_at(s.drop_first(), c, i - 1);
        assert(seq![s[0]] + s.drop_first().subrange(0, i - 1) =~= s.subrange(0, i));
    }
}

/// The part of `s` before the first `c`.
pub fn split_first(s: &str, c: char) -> (r: &str)
    ensures
        r@ == before_char(s@, c),
{
    let v = chars_of(s);
    let mut i: usize = 0;
    while i < v.len() && v[i] != c
        invariant
            v@ == s@,
            i <= v@.len(),
            forall|k: int| 0 <= k < i ==> v@[k] != c,
        decreases v.len() - i,
    {
        i = i + 1;
    }
    proof {
        lemma_before_char_at(s@, c, i as int);
    }
    s.substring_char(0, i)
}

/// A `::` starts at position `k` of `s`.
pub open spec fn sep_at(s: Seq<char>, k: int) -> bool {
    s[k] == ':' && s[k + 1] == ':'
}

/// The first position of a `::` in `s`, scanning from the left.
pub open spec fn first_sep(s: Seq<char>) -> Option<int>
    decreases s.len(),
{
    if s.len() < 2 {
        None
    } else if s[0] == ':' && s[1] == ':' {
        Some(0)
    } else {
        match first_sep(s.drop_first()) {
            Some(i) => Some(i + 1),
            None => None,
        }
    }
}

/// The last piece of `s.split("::")`: what follows the last separator that
/// a left-to-right scan finds, or all of `s` when it has none.
pub open spec fn last_split_piece(s: Seq<char>) -> Seq<char>
    decreases s.len(),
{
    match first_sep(s) {
        Some(i) => if 0 <= i && i + 2 <= s.len() {
            last_split_piece(s.subrange(i + 2, s.len() as int))
        } else {
            s
        },
        None => s,
    }
}

proof fn lemma_first_sep(s: Seq<char>, i: int)
    requires
        0 <= i,
        i + 1 <= s.len(),
        forall|k: int| 0 <= k < i ==> !#[trigger] sep_at(s, k),
    ensures
        (i + 1 < s.len() && s[i] == ':' && s[i + 1] == ':') ==> first_sep(s) == Some(i),
        i + 1 == s.len() ==> first_sep(s) is None,
    decreases i,
{
    if i > 0 {
        assert forall|k: int| 0 <= k < i - 1 implies !#[trigger] sep_at(s.drop_first(), k) by {
            assert(!sep_at(s, k + 1));
        }
        assert(!sep_at(s, 0));
        lemma_first_sep(s.drop_first(), i - 1);
    }
}

/// The last piece of `s.split("::")`.
pub fn split_last_sep(s: &str) -> (r: &str)
    ensures
        r@ == last_split_piece(s@),
{
    let v = chars_of(s);
    let n = v.len();
    let mut start: usize = 0;
    let mut i: usize = 0;
    assert(s@.subrange(0, n as int) =~= s@);
    while i < n && i + 1 < n
        invariant
            v@ == s@,
            n == v@.len(),
            start <= i,
            i <= n,
            last_split_piece(s@) == last_split_piece(s@.subrange(start as int, n as int)),
            forall|k: int| start <= k < i ==> !#[trigger] sep_at(s@, k),
        decreases n - i,
    {
        if v[i] == ':' && v[i + 1] == ':' {
            proof {
                let t = s@.subrange(start as int, n as int);
                assert forall|k: int| 0 <= k < i - start implies !#[trigger] sep_at(t, k) by {
                    assert(!sep_at(s@, k + start));
                }
                lemma_first_sep(t, i - start);
                assert(s@.subrange(start as int, n as int).subrange(i - start + 2, n - start) =~= s@.subrange(i + 2, n as int));
            }
            i = i + 2;
            start = i;
        } else {
            i = i + 1;
        }
    }
    proof {
        let t = s@.subrange(start as int, n as int);
        if t.len() >= 1 {
            assert forall|k: int| 0 <= k < t.len() - 1 implies !#[trigger] sep_at(t, k) by {
                assert(!sep_at(s@, k + start));
            }
            lemma_first_sep(t, t.len() - 1);
        }
    }
    s.substring_char(start, n)
}


/// `s` holds no `c`.
pub open spec fn lacks_char(s: Seq<char>, c: char) -> bool {
    forall|k: int| 0 <= k < s.len() ==> s[k] != c
}

/// `s` holds no `::`.
pub open spec fn lacks_sep(s: Seq<char>) -> bool {
    forall|k: int| 0 <= k < s.len() - 1 ==> !#[trigger] sep_at(s, k)
}

/// `s` has no leading and no trailing whitespace.
pub open spec fn is_trimmed(s: Seq<char>) -> bool {
    s.len() == 0 || (!is_ws(s[0]) && !is_ws(s.last()))
}

proof fn lemma_trim_start_sub(s: Seq<char>)
    ensures
        exists|a: int| 0 <= a <= s.len() && trim_start(s) == s.subrange(a, s.len() as int),
        trim_start(s).len() == 0 || !is_ws(trim_start(s)[0]),
    decreases s.len(),
{
    if s.len() > 0 && is_ws(s[0]) {
        lemma_trim_start_sub(s.drop_first());
        let a = choose|a: int| 0 <= a <= s.drop_first().len() && trim_start(s.drop_first()) == s.drop_first().subrange(a, s.drop_first().len() as int);
        assert(s.drop_first().subrange(a, s.drop_first().len() as int) =~= s.subrange(a + 1, s.len() as int));
    } else {
        assert(s.subrange(0, s.len() as int) =~= s);
    }
}

proof fn lemma_trim_end_sub(s: Seq<char>)
    ensures
        exists|b: int| 0 <= b <= s.len() && trim_end(s) == s.subrange(0, b),
        trim_end(s).len() == 0 || !is_ws(trim_end(s).last()),
    decreases s.len(),
{
    if s.len() > 0 && is_ws(s.last()) {
        lemma_trim_end_sub(s.drop_last());
        let b = choose|b: int| 0 <= b <= s.drop_last().len() && trim_end(s.drop_last()) == s.drop_last().subrange(0, b);
        assert(s.drop_last().subrange(0, b) =~= s.subrange(0, b));
    } else {
        assert(s.subrange(0, s.len() as int) =~= s);
    }
}

/// `spec_trim` gives a trimmed stretch of its argument.
pub(crate) proof fn lemma_trim_sub(s: Seq<char>)
    ensures
        exists|a: int, b: int| 0 <= a <= b <= s.len() && spec_trim(s) == s.subrange(a, b),
        is_trimmed(spec_trim(s)),
{
    lemma_trim_start_sub(s);
    let t = trim_start(s);
    let a = choose|a: int| 0 <= a <= s.len() && t == s.subrange(a, s.len() as int);
    lemma_trim_end_sub(t);
    let b = choose|b: int| 0 <= b <= t.len() && trim_end(t) == t.subrange(0, b);
    assert(t.subrange(0, b) =~= s.subrange(a, a + b));
    if spec_trim(s).len() > 0 {
        assert(spec_trim(s)[0] == t[0]);
    }
}

/// A trimmed string is its own trim.
pub(crate) proof fn lemma_trim_fixed(s: Seq<char>)
    requires
        is_trimmed(s),
    ensures
        spec_trim(s) == s,
{
}

/// A stretch of a string that lacks `c`, or `::`, lacks it too.
pub(crate) proof fn lemma_sub_lacks(s: Seq<char>, a: int, b: int, c: char)
    requires
        0 <= a <= b <= s.len(),
    ensures
        lacks_char(s, c) ==> lacks_char(s.subrange(a, b), c),
        lacks_sep(s) ==> lacks_sep(s.subrange(a, b)),
{
    if lacks_sep(s) {
        assert forall|k: int| 0 <= k < s.subrange(a, b).len() - 1 implies !#[trigger] sep_at(s.subrange(a, b), k) by {
            assert(!sep_at(s, k + a));
        }
    }
}

pub(crate) proof fn lemma_before_char_facts(s: Seq<char>, c: char)
    ensures
        lacks_char(before_char(s, c), c),
        exists|b: int| 0 <= b <= s.len() && before_char(s, c) == s.subrange(0, b),
        lacks_char(s, c) ==> before_char(s, c) == s,
    decreases s.len(),
{
    if s.len() == 0 {
        assert(s.subrange(0, 0) =~= s);
    } else if s[0] == c {
        assert(s.subrange(0, 0) =~= Seq::<char>::empty());
    } else {
        let d = s.drop_first();
        lemma_before_char_facts(d, c);
        let b = choose|b: int| 0 <= b <= d.len() && before_char(d, c) == d.subrange(0, b);
        assert(seq![s[0]] + d.subrange(0, b) =~= s.subrange(0, b + 1));
        if lacks_char(s, c) {
            assert(lacks_char(d, c));
            assert(seq![s[0]] + d =~= s);
        }
    }
}

pub(crate) proof fn lemma_first_sep_none(s: Seq<char>)
    ensures
        (first_sep(s) is None) <==> lacks_sep(s),
    decreases s.len(),
{
    if s.len() >= 2 {
        lemma_first_sep_none(s.drop_first());
        if !(s[0] == ':' && s[1] == ':') {
            assert(lacks_sep(s.drop_first()) <==> lacks_sep(s)) by {
                if lacks_sep(s.drop_first()) {
                    assert forall|k: int| 0 <= k < s.len() - 1 implies !#[trigger] sep_at(s, k) by {
                        if k > 0 {
                            assert(!sep_at(s.drop_first(), k - 1));
                        }
                    }
                }
                if lacks_sep(s) {
                    assert forall|k: int| 0 <= k < s.drop_first().len() - 1 implies !#[trigger] sep_at(s.drop_first(), k) by {
                        assert(!sep_at(s, k + 1));
                    }
                }
            }
        } else {
            assert(sep_at(s, 0));
        }
    }
}

pub(crate) proof fn lemma_last_piece_facts(s: Seq<char>)
    ensures
        lacks_sep(last_split_piece(s)),
        exists|a: int| 0 <= a <= s.len() && last_split_piece(s) == s.subrange(a, s.len() as int),
    decreases s.len(),
{
    lemma_first_sep_none(s);
    lemma_first_sep_bounds(s);
    match first_sep(s) {
        Some(i) => {
            if 0 <= i && i + 2 <= s.len() {
                let t = s.subrange(i + 2, s.len() as int);
                lemma_last_piece_facts(t);
                let a = choose|a: int| 0 <= a <= t.len() && last_split_piece(t) == t.subrange(a, t.len() as int);
                assert(t.subrange(a, t.len() as int) =~= s.subrange(a + i + 2, s.len() as int));
            } else {
                assert(s.subrange(0, s.len() as int) =~= s);
                assert(false);
            }
        },
        None => {
            assert(s.subrange(0, s.len() as int) =~= s);
        },
    }
}

/// What a first separator position says.
proof fn lemma_first_sep_bounds(s: Seq<char>)
    ensures
        first_sep(s) matches Some(i) ==> 0 <= i && i + 2 <= s.len(),
    decreases s.len(),
{
    if s.len() >= 2 && !(s[0] == ':' && s[1] == ':') {
        lemma_first_sep_bounds(s.drop_first());
    }
}

} // verus!
