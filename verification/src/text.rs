//! Character-level text handling shared by the console, the registries and
//! the editor helpers: whitespace, trimming, word splitting, prefixes and the
//! lexicographic order that `String`'s `Ord` uses.
use vstd::prelude::*;

verus! {

/// Characters that carry the Unicode `White_Space` property, the set that
/// `char::is_whitespace` tests for.
pub open spec fn spec_is_whitespace(c: char) -> bool {
    ||| c == '\t' || c == '\n' || c == '\u{0B}' || c == '\u{0C}' || c == '\r' || c == ' '
    ||| c == '\u{85}' || c == '\u{A0}' || c == '\u{1680}'
    ||| ('\u{2000}' <= c && c <= '\u{200A}')
    ||| c == '\u{2028}' || c == '\u{2029}' || c == '\u{202F}' || c == '\u{205F}' || c == '\u{3000}'
}

pub fn is_whitespace(c: char) -> (r: bool)
    ensures
        r == spec_is_whitespace(c),
{
    c == '\t' || c == '\n' || c == '\u{0B}' || c == '\u{0C}' || c == '\r' || c == ' '
        || c == '\u{85}' || c == '\u{A0}' || c == '\u{1680}' || ('\u{2000}' <= c && c
        <= '\u{200A}') || c == '\u{2028}' || c == '\u{2029}' || c == '\u{202F}' || c
        == '\u{205F}' || c == '\u{3000}'
}

/// Appends one character to a string; the call is `String::push`, which
/// appends the character at the end.
#[verifier::external_body]
pub(crate) fn push_char(s: &mut String, c: char)
    ensures
        final(s)@ == old(s)@.push(c),
{
    s.push(c);
}

/// Names the result of `str::to_lowercase`, Unicode's full lowercase mapping.
pub uninterp spec fn spec_to_lowercase(s: Seq<char>) -> Seq<char>;

/// Whether every character of `s` is ASCII.
pub open spec fn all_ascii(s: Seq<char>) -> bool {
    forall|i: int| 0 <= i < s.len() ==> (s[i] as u32) < 128
}

/// The call is `str::to_lowercase`; its result is named, as the Unicode case
/// tables it follows take pages to state. Of it is claimed only what its
/// documented mapping gives plainly: the empty string stays empty, and a
/// string of ASCII characters has its capitals made small and nothing else
/// changed.
#[verifier::external_body]
pub(crate) fn to_lowercase(s: &str) -> (r: String)
    ensures
        r@ == spec_to_lowercase(s@),
        s@.len() == 0 ==> r@.len() == 0,
        all_ascii(s@) ==> r@ == crate::editor::ascii_lowercase(s@),
{
    s.to_lowercase()
}

/// The characters of a string slice, in order.
pub fn chars_of(s: &str) -> (r: Vec<char>)
    ensures
        r@ == s@,
{
    let mut out: Vec<char> = Vec::new();
    let n = s.unicode_len();
    let mut i: usize = 0;
    while i < n
        invariant
            n == s@.len(),
            i <= n,
            out@ == s@.subrange(0, i as int),
        decreases n - i,
    {
        let c = s.get_char(i);
        out.push(c);
        i = i + 1;
    }
    out
}

/// The string made of the characters `v[from..to]`.
pub fn string_from_range(v: &Vec<char>, from: usize, to: usize) -> (r: String)
    requires
        from <= to <= v.len(),
    ensures
        r@ == v@.subrange(from as int, to as int),
{
    let mut out = String::new();
    let mut i = from;
    while i < to
        invariant
            from <= i <= to <= v.len(),
            out@ == v@.subrange(from as int, i as int),
        decreases to - i,
    {
        push_char(&mut out, v[i]);
        i = i + 1;
    }
    out
}

/// A copy of a string literal or slice as an owned string.
pub fn owned(s: &str) -> (r: String)
    ensures
        r@ == s@,
{
    let v = chars_of(s);
    string_from_range(&v, 0, v.len())
}

/// `a` followed by `b`.
pub fn concat(a: &str, b: &str) -> (r: String)
    ensures
        r@ == a@ + b@,
{
    let mut out = owned(a);
    let v = chars_of(b);
    let mut i: usize = 0;
    while i < v.len()
        invariant
            i <= v.len(),
            v@ == b@,
            out@ == a@ + b@.subrange(0, i as int),
        decreases v.len() - i,
    {
        push_char(&mut out, v[i]);
        i = i + 1;
        assert(b@.subrange(0, i as int) == b@.subrange(0, i - 1).push(v@[i - 1]));
    }
    assert(b@.subrange(0, v.len() as int) == b@);
    out
}

/// Whether two strings hold the same characters.
pub fn str_eq(a: &str, b: &str) -> (r: bool)
    ensures
        r == (a@ == b@),
{
    let va = chars_of(a);
    let vb = chars_of(b);
    if va.len() != vb.len() {
        return false;
    }
    let mut i: usize = 0;
    while i < va.len()
        invariant
            i <= va.len() == vb.len(),
            va@ == a@,
            vb@ == b@,
            forall|k: int| 0 <= k < i ==> va@[k] == vb@[k],
        decreases va.len() - i,
    {
        if va[i] != vb[i] {
            return false;
        }
        i = i + 1;
    }
    assert(va@ =~= vb@);
    true
}

/// Whether `s` begins with `prefix`, as `str::starts_with` with a string pattern.
pub fn starts_with(s: &str, prefix: &str) -> (r: bool)
    ensures
        r == prefix@.is_prefix_of(s@),
{
    let vs = chars_of(s);
    let vp = chars_of(prefix);
    if vp.len() > vs.len() {
        return false;
    }
    let mut i: usize = 0;
    while i < vp.len()
        invariant
            i <= vp.len() <= vs.len(),
            vs@ == s@,
            vp@ == prefix@,
            forall|k: int| 0 <= k < i ==> vp@[k] == vs@[k],
        decreases vp.len() - i,
    {
        if vp[i] != vs[i] {
            return false;
        }
        i = i + 1;
    }
    true
}

// ---------------------------------------------------------------------------
// Trimming
// ---------------------------------------------------------------------------

/// `s` without its leading whitespace.
pub open spec fn trim_start(s: Seq<char>) -> Seq<char>
    decreases s.len(),
{
    if s.len() > 0 && spec_is_whitespace(s[0]) {
        trim_start(s.drop_first())
    } else {
        s
    }
}

/// `s` without its trailing whitespace.
pub open spec fn trim_end(s: Seq<char>) -> Seq<char>
    decreases s.len(),
{
    if s.len() > 0 && spec_is_whitespace(s.last()) {
        trim_end(s.drop_last())
    } else {
        s
    }
}

/// `s` without leading and trailing whitespace, as `str::trim`.
pub open spec fn trim(s: Seq<char>) -> Seq<char> {
    trim_end(trim_start(s))
}

proof fn lemma_trim_start_at(s: Seq<char>, i: int)
    requires
        0 <= i <= s.len(),
        forall|k: int| 0 <= k < i ==> spec_is_whitespace(#[trigger] s[k]),
        i == s.len() || !spec_is_whitespace(s[i]),
    ensures
        trim_start(s) == s.subrange(i, s.len() as int),
    decreases i,
{
    if i == 0 {
        assert(s.subrange(0, s.len() as int) =~= s);
    } else {
        let t = s.drop_first();
        assert forall|k: int| 0 <= k < i - 1 implies spec_is_whitespace(#[trigger] t[k]) by {
            assert(t[k] == s[k + 1]);
        }
        lemma_trim_start_at(t, i - 1);
        assert(t.subrange(i - 1, t.len() as int) =~= s.subrange(i, s.len() as int));
    }
}

proof fn lemma_trim_end_at(s: Seq<char>, j: int)
    requires
        0 <= j <= s.len(),
        forall|k: int| j <= k < s.len() ==> spec_is_whitespace(#[trigger] s[k]),
        j == 0 || !spec_is_whitespace(s[j - 1]),
    ensures
        trim_end(s) == s.subrange(0, j),
    decreases s.len() - j,
{
    if j == s.len() {
        assert(s.subrange(0, j) =~= s);
    } else {
        let t = s.drop_last();
        assert(spec_is_whitespace(s.last()));
        lemma_trim_end_at(t, j);
        assert(t.subrange(0, j) =~= s.subrange(0, j));
    }
}

/// The bounds `[start, end)` of `s` with surrounding whitespace removed.
pub fn trim_bounds(v: &Vec<char>) -> (r: (usize, usize))
    ensures
        r.0 <= r.1 <= v.len(),
        v@.subrange(r.0 as int, r.1 as int) == trim(v@),
{
    let mut i: usize = 0;
    while i < v.len() && is_whitespace(v[i])
        invariant
            i <= v.len(),
            forall|k: int| 0 <= k < i ==> spec_is_whitespace(#[trigger] v@[k]),
        decreases v.len() - i,
    {
        i = i + 1;
    }
    proof {
        lemma_trim_start_at(v@, i as int);
    }
    let mut j: usize = v.len();
    while j > i && is_whitespace(v[j - 1])
        invariant
            i <= j <= v.len(),
            forall|k: int| j <= k < v.len() ==> spec_is_whitespace(#[trigger] v@[k]),
        decreases j,
    {
        j = j - 1;
    }
    proof {
        let t = v@.subrange(i as int, v.len() as int);
        assert forall|k: int| j - i <= k < t.len() implies spec_is_whitespace(#[trigger] t[k]) by {
            assert(t[k] == v@[k + i]);
        }
        if j > i {
            assert(t[j - i - 1] == v@[j - 1]);
        }
        lemma_trim_end_at(t, j - i);
        assert(t.subrange(0, j - i) =~= v@.subrange(i as int, j as int));
    }
    (i, j)
}

/// `s` with leading and trailing whitespace removed, as `str::trim`.
pub fn trimmed(s: &str) -> (r: String)
    ensures
        r@ == trim(s@),
{
    let v = chars_of(s);
    let (i, j) = trim_bounds(&v);
    string_from_range(&v, i, j)
}

// ---------------------------------------------------------------------------
// Words
// ---------------------------------------------------------------------------

/// The whitespace-separated words of `s`, as `str::split_whitespace` yields
/// them: maximal runs of non-whitespace characters, in order.
pub open spec fn words(s: Seq<char>) -> Seq<Seq<char>>
    decreases s.len(),
{
    if s.len() == 0 {
        Seq::empty()
    } else {
        let w = words(s.drop_last());
        let c = s.last();
        if spec_is_whitespace(c) {
            w
        } else if s.len() >= 2 && !spec_is_whitespace(s[s.len() - 2]) {
            w.update(w.len() - 1, w.last().push(c))
        } else {
            w.push(seq![c])
        }
    }
}

pub proof fn lemma_words_nonempty_end(s: Seq<char>)
    requires
        s.len() > 0,
        !spec_is_whitespace(s.last()),
    ensures
        words(s).len() > 0,
    decreases s.len(),
{
    if s.len() >= 2 && !spec_is_whitespace(s[s.len() - 2]) {
        let t = s.drop_last();
        assert(t.last() == s[s.len() - 2]);
        lemma_words_nonempty_end(t);
    }
}

/// The whitespace-separated words of `s`.
pub fn split_whitespace(s: &str) -> (r: Vec<String>)
    ensures
        r@.map_values(|w: String| w@) == words(s@),
{
    let v = chars_of(s);
    let mut out: Vec<String> = Vec::new();
    let mut cur = String::new();
    let mut in_word = false;
    let mut i: usize = 0;
    while i < v.len()
        invariant
            i <= v.len(),
            v@ == s@,
            in_word <==> (i > 0 && !spec_is_whitespace(v@[i - 1])),
            in_word ==> out@.map_values(|w: String| w@).push(cur@) == words(
                v@.subrange(0, i as int),
            ),
            !in_word ==> out@.map_values(|w: String| w@) == words(v@.subrange(0, i as int)),
        decreases v.len() - i,
    {
        let c = v[i];
        let ghost pre = v@.subrange(0, i as int);
        let ghost post = v@.subrange(0, i + 1);
        assert(post.drop_last() =~= pre);
        assert(post.last() == c);
        if is_whitespace(c) {
            if in_word {
                let w = cur;
                out.push(w);
                cur = String::new();
                assert(out@.map_values(|w: String| w@) =~= old_map_push(out@));
            }
            in_word = false;
        } else {
            if in_word {
                assert(post[post.len() - 2] == v@[i - 1]);
                proof {
                    let wp = words(pre);
                    assert(wp =~= out@.map_values(|w: String| w@).push(cur@));
                }
                push_char(&mut cur, c);
                assert(words(post) =~= out@.map_values(|w: String| w@).push(cur@));
            } else {
                cur = String::new();
                push_char(&mut cur, c);
                assert(cur@ =~= seq![c]);
                if i > 0 {
                    assert(post[post.len() - 2] == v@[i - 1]);
                }
                assert(words(post) =~= out@.map_values(|w: String| w@).push(cur@));
            }
            in_word = true;
        }
        i = i + 1;
    }
    if in_word {
        out.push(cur);
        assert(out@.map_values(|w: String| w@) =~= old_map_push(out@));
    }
    assert(v@.subrange(0, v.len() as int) =~= v@);
    out
}

spec fn old_map_push(s: Seq<String>) -> Seq<Seq<char>> {
    s.map_values(|w: String| w@)
}

// ---------------------------------------------------------------------------
// Lexicographic order
// ---------------------------------------------------------------------------

/// Strict lexicographic order on character sequences, comparing code points;
/// this is the order of `String`'s `Ord`.
pub open spec fn chars_lt(a: Seq<char>, b: Seq<char>) -> bool
    decreases a.len(),
{
    if a.len() == 0 {
        b.len() > 0
    } else if b.len() == 0 {
        false
    } else if a[0] < b[0] {
        true
    } else if a[0] > b[0] {
        false
    } else {
        chars_lt(a.drop_first(), b.drop_first())
    }
}

pub open spec fn chars_le(a: Seq<char>, b: Seq<char>) -> bool {
    chars_lt(a, b) || a == b
}

pub proof fn lemma_chars_lt_irreflexive(a: Seq<char>)
    ensures
        !chars_lt(a, a),
    decreases a.len(),
{
    if a.len() > 0 {
        lemma_chars_lt_irreflexive(a.drop_first());
    }
}

pub proof fn lemma_chars_trichotomy(a: Seq<char>, b: Seq<char>)
    ensures
        chars_lt(a, b) || chars_lt(b, a) || a == b,
        !(chars_lt(a, b) && chars_lt(b, a)),
    decreases a.len(),
{
    if a.len() == 0 || b.len() == 0 {
        if a.len() == 0 && b.len() == 0 {
            assert(a =~= b);
        }
    } else if a[0] == b[0] {
        lemma_chars_trichotomy(a.drop_first(), b.drop_first());
        if a.drop_first() == b.drop_first() {
            assert(a[0] == b[0]);
            assert(a =~= seq![a[0]] + a.drop_first());
            assert(b =~= seq![b[0]] + b.drop_first());
        }
    }
}

pub proof fn lemma_chars_lt_transitive(a: Seq<char>, b: Seq<char>, c: Seq<char>)
    requires
        chars_lt(a, b),
        chars_lt(b, c),
    ensures
        chars_lt(a, c),
    decreases a.len(),
{
    if a.len() > 0 && b.len() > 0 && c.len() > 0 {
        if a[0] == b[0] && b[0] == c[0] {
            lemma_chars_lt_transitive(a.drop_first(), b.drop_first(), c.drop_first());
        }
    }
}

/// Order on two-part keys: first part, then second part.
pub open spec fn key_le(a: (Seq<char>, Seq<char>), b: (Seq<char>, Seq<char>)) -> bool {
    chars_lt(a.0, b.0) || (a.0 == b.0 && chars_le(a.1, b.1))
}

pub proof fn lemma_key_total(a: (Seq<char>, Seq<char>), b: (Seq<char>, Seq<char>))
    ensures
        key_le(a, b) || key_le(b, a),
{
    lemma_chars_trichotomy(a.0, b.0);
    lemma_chars_trichotomy(a.1, b.1);
}

pub proof fn lemma_key_transitive(
    a: (Seq<char>, Seq<char>),
    b: (Seq<char>, Seq<char>),
    c: (Seq<char>, Seq<char>),
)
    requires
        key_le(a, b),
        key_le(b, c),
    ensures
        key_le(a, c),
{
    if chars_lt(a.0, b.0) && chars_lt(b.0, c.0) {
        lemma_chars_lt_transitive(a.0, b.0, c.0);
    }
    if chars_lt(a.1, b.1) && chars_lt(b.1, c.1) {
        lemma_chars_lt_transitive(a.1, b.1, c.1);
    }
}

/// Exec comparison of character vectors: whether `a < b`.
pub fn vec_chars_lt(a: &Vec<char>, b: &Vec<char>) -> (r: bool)
    ensures
        r == chars_lt(a@, b@),
{
    let mut i: usize = 0;
    assert(a@.subrange(0, a.len() as int) =~= a@);
    assert(b@.subrange(0, b.len() as int) =~= b@);
    while i < a.len() && i < b.len()
        invariant
            i <= a.len(),
            i <= b.len(),
            forall|k: int| 0 <= k < i ==> a@[k] == b@[k],
            chars_lt(a@, b@) == chars_lt(a@.subrange(i as int, a.len() as int), b@.subrange(i as int, b.len() as int)),
        decreases a.len() - i,
    {
        if a[i] < b[i] {
            return true;
        }
        if a[i] > b[i] {
            return false;
        }
        proof {
            let sa = a@.subrange(i as int, a.len() as int);
            let sb = b@.subrange(i as int, b.len() as int);
            assert(sa.drop_first() =~= a@.subrange(i + 1, a.len() as int));
            assert(sb.drop_first() =~= b@.subrange(i + 1, b.len() as int));
        }
        i = i + 1;
    }
    i < b.len()
}

/// Values that a sort can order by a two-part text key.
pub trait TextKey {
    spec fn text_key(&self) -> (Seq<char>, Seq<char>);

    fn key_le_exec(&self, other: &Self) -> (r: bool)
        ensures
            r == key_le(self.text_key(), other.text_key()),
    ;
}

/// Whether a sequence is in non-decreasing key order.
pub open spec fn sorted_by_key<T: TextKey>(s: Seq<T>) -> bool {
    forall|i: int, j: int| 0 <= i < j < s.len() ==> key_le(#[trigger] s[i].text_key(), #[trigger] s[j].text_key())
}

/// Compares two strings by their characters: whether `a <= b`.
pub fn string_le(a: &String, b: &String) -> (r: bool)
    ensures
        r == chars_le(a@, b@),
{
    let va = chars_of(a.as_str());
    let vb = chars_of(b.as_str());
    let lt = vec_chars_lt(&va, &vb);
    if lt {
        true
    } else {
        let eq = str_eq(a.as_str(), b.as_str());
        eq
    }
}

impl TextKey for String {
    open spec fn text_key(&self) -> (Seq<char>, Seq<char>) {
        (self@, Seq::empty())
    }

    fn key_le_exec(&self, other: &Self) -> (r: bool) {
        let lt = vec_chars_lt(&chars_of(self.as_str()), &chars_of(other.as_str()));
        if lt {
            true
        } else {
            str_eq(self.as_str(), other.as_str())
        }
    }
}

/// Sorts by key, keeping equal keys in their input order; the result holds
/// the same elements.
pub fn sort_by_text_key<T: TextKey>(v: Vec<T>) -> (r: Vec<T>)
    ensures
        r@.to_multiset() == v@.to_multiset(),
        r.len() == v.len(),
        sorted_by_key(r@),
{
    broadcast use vstd::seq_lib::group_to_multiset_ensures;

    let mut rest = v;
    let mut out: Vec<T> = Vec::new();
    let ghost orig = rest@;
    while rest.len() > 0
        invariant
            out@.to_multiset().add(rest@.to_multiset()) == orig.to_multiset(),
            out.len() + rest.len() == orig.len(),
            sorted_by_key(out@),
        decreases rest.len(),
    {
        let ghost rest_before = rest@;
        let x = rest.remove(0);
        proof {
            vstd::seq_lib::to_multiset_remove(rest_before, 0);
            assert(rest_before.remove(0) =~= rest@);
            assert(rest_before[0] == x);
            assert(rest_before.contains(x));
            vstd::seq_lib::to_multiset_contains(rest_before, x);
            assert(rest_before.to_multiset().count(x) > 0);
        }
        let mut k: usize = 0;
        while k < out.len() && out[k].key_le_exec(&x)
            invariant
                k <= out.len(),
                forall|j: int| 0 <= j < k ==> key_le(#[trigger] out@[j].text_key(), x.text_key()),
            decreases out.len() - k,
        {
            k = k + 1;
        }
        let ghost out_before = out@;
        proof {
            if k < out.len() {
                lemma_key_total(out@[k as int].text_key(), x.text_key());
            }
        }
        out.insert(k, x);
        proof {
            assert forall|i: int, j: int| 0 <= i < j < out@.len() implies key_le(
                #[trigger] out@[i].text_key(),
                #[trigger] out@[j].text_key(),
            ) by {
                if j < k {
                    assert(out@[i] == out_before[i]);
                    assert(out@[j] == out_before[j]);
                } else if j == k {
                    assert(out@[i] == out_before[i]);
                } else if i == k {
                    assert(out@[j] == out_before[j - 1]);
                    if j - 1 > k {
                        assert(key_le(out_before[k as int].text_key(), out_before[j - 1].text_key()));
                        lemma_key_transitive(x.text_key(), out_before[k as int].text_key(), out_before[j - 1].text_key());
                    }
                } else if i < k {
                    assert(out@[i] == out_before[i]);
                    assert(out@[j] == out_before[j - 1]);
                } else {
                    assert(out@[i] == out_before[i - 1]);
                    assert(out@[j] == out_before[j - 1]);
                }
            }
            vstd::seq_lib::to_multiset_insert(out_before, k as int, x);
            broadcast use vstd::multiset::group_multiset_axioms;
            assert(out@.to_multiset().add(rest@.to_multiset()) =~= orig.to_multiset());
        }
    }
    out
}


/// The character views of a sequence of strings.
pub open spec fn views(v: Seq<String>) -> Seq<Seq<char>> {
    v.map_values(|s: String| s@)
}

/// Mapping both sides keeps two permutations of each other permutations.
pub proof fn lemma_map_permutation<A, B>(s1: Seq<A>, s2: Seq<A>, f: spec_fn(A) -> B)
    requires
        s1.to_multiset() == s2.to_multiset(),
    ensures
        s1.map_values(f).to_multiset() == s2.map_values(f).to_multiset(),
    decreases s1.len(),
{
    broadcast use vstd::seq_lib::group_to_multiset_ensures;
    broadcast use vstd::multiset::group_multiset_axioms;

    if s1.len() == 0 {
        assert(s1.to_multiset().len() == 0);
        assert(s2.to_multiset().len() == 0);
        assert(s2.len() == 0);
        assert(s1.map_values(f) =~= Seq::<B>::empty());
        assert(s2.map_values(f) =~= Seq::<B>::empty());
    } else {
        let x = s1.last();
        let t1 = s1.drop_last();
        assert(s1 =~= t1.push(x));
        assert(s1.to_multiset().count(x) > 0);
        vstd::seq_lib::to_multiset_contains(s2, x);
        let j = choose|j: int| 0 <= j < s2.len() && s2[j] == x;
        let t2 = s2.remove(j);
        assert(t2.to_multiset() =~= s2.to_multiset().remove(x));
        assert(t1.to_multiset() =~= s1.to_multiset().remove(x));
        lemma_map_permutation(t1, t2, f);
        assert(s1.map_values(f) =~= t1.map_values(f).push(f(x)));
        assert(s2.map_values(f) =~= t2.map_values(f).insert(j, f(x)));
        vstd::seq_lib::to_multiset_insert(t2.map_values(f), j, f(x));
    }
}

/// `chars_le` as a relation.
pub open spec fn text_le() -> spec_fn(Seq<char>, Seq<char>) -> bool {
    |a: Seq<char>, b: Seq<char>| chars_le(a, b)
}

/// `chars_le` is a total order on character sequences.
pub proof fn lemma_text_le_total_ordering()
    ensures
        vstd::relations::total_ordering(text_le()),
{
    assert forall|a: Seq<char>| #[trigger] text_le()(a, a) by {}
    assert forall|a: Seq<char>, b: Seq<char>| #[trigger] text_le()(a, b) && #[trigger] text_le()(b, a) implies a == b by {
        lemma_chars_trichotomy(a, b);
    }
    assert forall|a: Seq<char>, b: Seq<char>, c: Seq<char>| #[trigger] text_le()(a, b) && #[trigger] text_le()(b, c) implies text_le()(a, c) by {
        if chars_lt(a, b) && chars_lt(b, c) {
            lemma_chars_lt_transitive(a, b, c);
        }
    }
    assert forall|a: Seq<char>, b: Seq<char>| #[trigger] text_le()(a, b) || #[trigger] text_le()(b, a) by {
        lemma_chars_trichotomy(a, b);
    }
}

/// Sorts strings into `String`'s order.
pub fn sort_strings(v: Vec<String>) -> (r: Vec<String>)
    ensures
        views(r@).to_multiset() == views(v@).to_multiset(),
        vstd::relations::sorted_by(views(r@), text_le()),
{
    let ghost orig = v@;
    let r = sort_by_text_key(v);
    proof {
        lemma_map_permutation(r@, orig, |s: String| s@);
        assert forall|i: int, j: int| 0 <= i < j < views(r@).len() implies #[trigger] text_le()(views(r@)[i], views(r@)[j]) by {
            assert(key_le(r@[i].text_key(), r@[j].text_key()));
        }
    }
    r
}

/// The sorted order of a sequence of character sequences is unique.
pub proof fn lemma_sorted_text_unique(x: Seq<Seq<char>>, y: Seq<Seq<char>>)
    requires
        x.to_multiset() == y.to_multiset(),
        vstd::relations::sorted_by(x, text_le()),
        vstd::relations::sorted_by(y, text_le()),
    ensures
        x == y,
{
    lemma_text_le_total_ordering();
    vstd::seq_lib::lemma_sorted_unique(x, y, text_le());
}


/// Removes the last character; the call is `String::pop`, which removes and
/// returns the last character, or returns `None` on an empty string.
#[verifier::external_body]
pub(crate) fn pop_char(s: &mut String) -> (r: Option<char>)
    ensures
        old(s)@.len() == 0 ==> r is None && final(s)@ == old(s)@,
        old(s)@.len() > 0 ==> r == Some(old(s)@.last()) && final(s)@ == old(s)@.drop_last(),
{
    s.pop()
}

/// A trimmed string that is not empty ends with a character that is not whitespace.
pub proof fn lemma_trim_end_last(s: Seq<char>)
    ensures
        trim_end(s).len() > 0 ==> !spec_is_whitespace(trim_end(s).last()),
        trim_end(s).len() <= s.len(),
    decreases s.len(),
{
    if s.len() > 0 && spec_is_whitespace(s.last()) {
        lemma_trim_end_last(s.drop_last());
    }
}

/// A string that is not all whitespace has at least one word.
pub proof fn lemma_trimmed_has_word(s: Seq<char>)
    requires
        trim(s).len() > 0,
    ensures
        words(trim(s)).len() > 0,
{
    lemma_trim_end_last(trim_start(s));
    lemma_words_nonempty_end(trim(s));
}

/// The strings `v[from..]`.
pub fn tail_strings(v: &Vec<String>, from: usize) -> (r: Vec<String>)
    requires
        from <= v.len(),
    ensures
        views(r@) == views(v@).subrange(from as int, v.len() as int),
{
    let mut out: Vec<String> = Vec::new();
    let mut i = from;
    while i < v.len()
        invariant
            from <= i <= v.len(),
            views(out@) == views(v@).subrange(from as int, i as int),
        decreases v.len() - i,
    {
        let ghost pre = out@;
        out.push(v[i].clone());
        assert(views(out@) =~= views(pre).push(v@[i as int]@));
        assert(views(out@) =~= views(v@).subrange(from as int, i + 1));
        i = i + 1;
    }
    out
}


impl TextKey for (String, String) {
    open spec fn text_key(&self) -> (Seq<char>, Seq<char>) {
        (self.0@, Seq::empty())
    }

    fn key_le_exec(&self, other: &Self) -> (r: bool) {
        string_le(&self.0, &other.0)
    }
}

/// The character views of a sequence of string pairs.
pub open spec fn pair_views(v: Seq<(String, String)>) -> Seq<(Seq<char>, Seq<char>)> {
    v.map_values(|p: (String, String)| (p.0@, p.1@))
}

/// Whether pairs are in order of their first parts.
pub open spec fn sorted_by_first(s: Seq<(Seq<char>, Seq<char>)>) -> bool {
    forall|i: int, j: int| 0 <= i < j < s.len() ==> chars_le(#[trigger] s[i].0, #[trigger] s[j].0)
}

/// Sorts pairs by their first part, keeping pairs with equal first parts in
/// their input order.
pub fn sort_pairs_by_first(v: Vec<(String, String)>) -> (r: Vec<(String, String)>)
    ensures
        pair_views(r@).to_multiset() == pair_views(v@).to_multiset(),
        sorted_by_first(pair_views(r@)),
{
    let ghost orig = v@;
    let r = sort_by_text_key(v);
    proof {
        lemma_map_permutation(r@, orig, |p: (String, String)| (p.0@, p.1@));
        assert forall|i: int, j: int| 0 <= i < j < pair_views(r@).len() implies chars_le(#[trigger] pair_views(r@)[i].0, #[trigger] pair_views(r@)[j].0) by {
            assert(key_le(r@[i].text_key(), r@[j].text_key()));
        }
    }
    r
}

} // verus!
