//! Text primitives: code-point order on strings, Unicode whitespace trimming,
//! and sorted string lists without duplicates.
use vstd::prelude::*;
use vstd::string::*;

verus! {

/// Lexicographic order on sequences, by the strict order `lt` on entries; a
/// proper prefix comes first.
pub open spec fn lex_lt<T>(a: Seq<T>, b: Seq<T>, lt: spec_fn(T, T) -> bool) -> bool
    decreases a.len(),
{
    if a.len() == 0 {
        b.len() > 0
    } else if b.len() == 0 {
        false
    } else if a[0] != b[0] {
        lt(a[0], b[0])
    } else {
        lex_lt(a.drop_first(), b.drop_first(), lt)
    }
}

/// `lt` is a strict total order.
pub open spec fn is_strict_total<T>(lt: spec_fn(T, T) -> bool) -> bool {
    &&& forall|x: T| !#[trigger] lt(x, x)
    &&& forall|x: T, y: T, z: T| #[trigger] lt(x, y) && #[trigger] lt(y, z) ==> lt(x, z)
    &&& forall|x: T, y: T| x == y || #[trigger] lt(x, y) || #[trigger] lt(y, x)
}

pub proof fn lemma_lex_irreflexive<T>(a: Seq<T>, lt: spec_fn(T, T) -> bool)
    ensures
        !lex_lt(a, a, lt),
    decreases a.len(),
{
    if a.len() > 0 {
        lemma_lex_irreflexive(a.drop_first(), lt);
    }
}

pub proof fn lemma_lex_transitive<T>(a: Seq<T>, b: Seq<T>, c: Seq<T>, lt: spec_fn(T, T) -> bool)
    requires
        is_strict_total(lt),
        lex_lt(a, b, lt),
        lex_lt(b, c, lt),
    ensures
        lex_lt(a, c, lt),
    decreases a.len(),
{
    if a.len() > 0 && b.len() > 0 && c.len() > 0 {
        if a[0] == b[0] && b[0] == c[0] {
            lemma_lex_transitive(a.drop_first(), b.drop_first(), c.drop_first(), lt);
        } else if a[0] == c[0] {
            assert(lt(a[0], b[0]) && lt(b[0], a[0]));
            assert(lt(a[0], a[0]));
        }
    }
}

pub proof fn lemma_lex_total<T>(a: Seq<T>, b: Seq<T>, lt: spec_fn(T, T) -> bool)
    requires
        is_strict_total(lt),
    ensures
        a == b || lex_lt(a, b, lt) || lex_lt(b, a, lt),
        !(lex_lt(a, b, lt) && lex_lt(b, a, lt)),
    decreases a.len(),
{
    if a.len() > 0 && b.len() > 0 {
        if a[0] == b[0] {
            lemma_lex_total(a.drop_first(), b.drop_first(), lt);
            if a.drop_first() == b.drop_first() {
                assert forall|k: int| 0 <= k < a.len() implies a[k] == b[k] by {
                    if k > 0 {
                        assert(a[k] == a.drop_first()[k - 1]);
                        assert(b[k] == b.drop_first()[k - 1]);
                    }
                }
                assert(a =~= b);
            }
        } else {
            assert(lt(a[0], b[0]) || lt(b[0], a[0]));
            if lt(a[0], b[0]) && lt(b[0], a[0]) {
                assert(lt(a[0], a[0]));
            }
        }
    } else if a.len() == 0 && b.len() == 0 {
        assert(a =~= b);
    }
}

/// Code-point order on characters.
pub open spec fn char_lt() -> spec_fn(char, char) -> bool {
    |x: char, y: char| (x as u32) < (y as u32)
}

proof fn lemma_char_order()
    ensures
        is_strict_total(char_lt()),
{
    assert forall|x: char, y: char| x == y || #[trigger] char_lt()(x, y) || #[trigger] char_lt()(
        y,
        x,
    ) by {
        vstd::utf8::char_u32_cast(x, x as u32);
        vstd::utf8::char_u32_cast(y, y as u32);
    }
}

/// Lexicographic order on strings, character by character by code point.
/// UTF-8 keeps code-point order, so this is the order of `str` comparison.
pub open spec fn str_lt(a: Seq<char>, b: Seq<char>) -> bool {
    lex_lt(a, b, char_lt())
}

pub proof fn lemma_str_lt_irreflexive(a: Seq<char>)
    ensures
        !str_lt(a, a),
{
    lemma_lex_irreflexive(a, char_lt());
}

pub proof fn lemma_str_lt_transitive(a: Seq<char>, b: Seq<char>, c: Seq<char>)
    requires
        str_lt(a, b),
        str_lt(b, c),
    ensures
        str_lt(a, c),
{
    lemma_char_order();
    lemma_lex_transitive(a, b, c, char_lt());
}

pub proof fn lemma_str_lt_total(a: Seq<char>, b: Seq<char>)
    ensures
        a == b || str_lt(a, b) || str_lt(b, a),
        !(str_lt(a, b) && str_lt(b, a)),
{
    lemma_char_order();
    lemma_lex_total(a, b, char_lt());
}

/// Characters with the Unicode White_Space property, the set that
/// `char::is_whitespace` and `str::trim` go by.
pub open spec fn is_ws(c: char) -> bool {
    let u = c as u32;
    ||| 0x9 <= u <= 0xd
    ||| u == 0x20
    ||| u == 0x85
    ||| u == 0xa0
    ||| u == 0x1680
    ||| 0x2000 <= u <= 0x200a
    ||| u == 0x2028
    ||| u == 0x2029
    ||| u == 0x202f
    ||| u == 0x205f
    ||| u == 0x3000
}

pub open spec fn trim_start(s: Seq<char>) -> Seq<char>
    decreases s.len(),
{
    if s.len() > 0 && is_ws(s[0]) {
        trim_start(s.drop_first())
    } else {
        s
    }
}

pub open spec fn trim_end(s: Seq<char>) -> Seq<char>
    decreases s.len(),
{
    if s.len() > 0 && is_ws(s.last()) {
        trim_end(s.drop_last())
    } else {
        s
    }
}

/// `s` without leading and trailing whitespace.
pub open spec fn trim(s: Seq<char>) -> Seq<char> {
    trim_end(trim_start(s))
}

proof fn lemma_trim_start(s: Seq<char>, i: int)
    requires
        0 <= i <= s.len(),
        forall|k: int| 0 <= k < i ==> is_ws(#[trigger] s[k]),
        i < s.len() ==> !is_ws(s[i]),
    ensures
        trim_start(s) == s.skip(i),
    decreases i,
{
    if i == 0 {
        assert(s.skip(0) =~= s);
    } else {
        let t = s.drop_first();
        assert forall|k: int| 0 <= k < i - 1 implies is_ws(#[trigger] t[k]) by {
            assert(t[k] == s[k + 1]);
        }
        lemma_trim_start(t, i - 1);
        assert(t.skip(i - 1) =~= s.skip(i));
    }
}

proof fn lemma_trim_end(s: Seq<char>, j: int)
    requires
        0 <= j <= s.len(),
        forall|k: int| j <= k < s.len() ==> is_ws(#[trigger] s[k]),
        j > 0 ==> !is_ws(s[j - 1]),
    ensures
        trim_end(s) == s.take(j),
    decreases s.len() - j,
{
    if j == s.len() {
        assert(s.take(j) =~= s);
    } else {
        let t = s.drop_last();
        assert forall|k: int| j <= k < t.len() implies is_ws(#[trigger] t[k]) by {
            assert(t[k] == s[k]);
        }
        lemma_trim_end(t, j);
        assert(t.take(j) =~= s.take(j));
    }
}

proof fn lemma_trim_start_index(s: Seq<char>) -> (i: int)
    ensures
        0 <= i <= s.len(),
        forall|k: int| 0 <= k < i ==> is_ws(#[trigger] s[k]),
        i < s.len() ==> !is_ws(s[i]),
        trim_start(s) == s.skip(i),
    decreases s.len(),
{
    if s.len() > 0 && is_ws(s[0]) {
        let t = s.drop_first();
        let i0 = lemma_trim_start_index(t);
        assert forall|k: int| 0 <= k < i0 + 1 implies is_ws(#[trigger] s[k]) by {
            if k > 0 {
                assert(s[k] == t[k - 1]);
            }
        }
        if i0 < t.len() {
            assert(s[i0 + 1] == t[i0]);
        }
        assert(t.skip(i0) =~= s.skip(i0 + 1));
        i0 + 1
    } else {
        assert(s.skip(0) =~= s);
        0
    }
}

proof fn lemma_trim_end_index(s: Seq<char>) -> (j: int)
    ensures
        0 <= j <= s.len(),
        forall|k: int| j <= k < s.len() ==> is_ws(#[trigger] s[k]),
        j > 0 ==> !is_ws(s[j - 1]),
        trim_end(s) == s.take(j),
    decreases s.len(),
{
    if s.len() > 0 && is_ws(s.last()) {
        let t = s.drop_last();
        let j0 = lemma_trim_end_index(t);
        assert forall|k: int| j0 <= k < s.len() implies is_ws(#[trigger] s[k]) by {
            if k < t.len() {
                assert(s[k] == t[k]);
            }
        }
        if j0 > 0 {
            assert(s[j0 - 1] == t[j0 - 1]);
        }
        assert(t.take(j0) =~= s.take(j0));
        j0
    } else {
        assert(s.take(s.len() as int) =~= s);
        s.len() as int
    }
}

/// Trimming removes whitespace at the two ends and nothing else: the result
/// is the stretch of `s` from its first to its last character that is not
/// whitespace, every character inside included (empty where `s` is all
/// whitespace).
pub proof fn law_trim_strips_only_the_ends(s: Seq<char>) -> (ends: (int, int))
    ensures
        0 <= ends.0 <= ends.1 <= s.len(),
        trim(s) == s.subrange(ends.0, ends.1),
        forall|k: int| 0 <= k < ends.0 ==> is_ws(#[trigger] s[k]),
        forall|k: int| ends.1 <= k < s.len() ==> is_ws(#[trigger] s[k]),
        ends.0 < ends.1 ==> !is_ws(s[ends.0]) && !is_ws(s[ends.1 - 1]),
{
    let i = lemma_trim_start_index(s);
    let t = s.skip(i);
    let j = lemma_trim_end_index(t);
    assert(t.take(j) =~= s.subrange(i, i + j));
    assert forall|k: int| i + j <= k < s.len() implies is_ws(#[trigger] s[k]) by {
        assert(s[k] == t[k - i]);
    }
    if j > 0 {
        assert(s[i] == t[0]);
        assert(s[i + j - 1] == t[j - 1]);
    }
    (i, i + j)
}

/// The whitespace that trimming removes is exactly the Unicode White_Space
/// property (PropList.txt): U+0009..U+000D, U+0020, U+0085, U+00A0, U+1680,
/// U+2000..U+200A, U+2028, U+2029, U+202F, U+205F and U+3000.
pub proof fn law_whitespace_is_unicode_white_space(c: char)
    ensures
        is_ws(c) <==> {
            let u = c as u32;
            ||| u == 0x9 || u == 0xa || u == 0xb || u == 0xc || u == 0xd
            ||| u == 0x20 || u == 0x85 || u == 0xa0 || u == 0x1680
            ||| u == 0x2000 || u == 0x2001 || u == 0x2002 || u == 0x2003 || u == 0x2004
            ||| u == 0x2005 || u == 0x2006 || u == 0x2007 || u == 0x2008 || u == 0x2009
            ||| u == 0x200a || u == 0x2028 || u == 0x2029 || u == 0x202f || u == 0x205f
            ||| u == 0x3000
        },
{
}

/// No visible ASCII character (letters, digits, punctuation) is
/// whitespace.
pub proof fn law_visible_ascii_is_not_whitespace(c: char)
    requires
        0x21 <= c as u32 <= 0x7e,
    ensures
        !is_ws(c),
{
}

/// Text that neither begins nor ends with whitespace is left as it is by
/// trimming, inner spaces included.
pub proof fn law_trim_keeps_text_without_outer_whitespace(s: Seq<char>)
    requires
        s.len() == 0 || (!is_ws(s[0]) && !is_ws(s.last())),
    ensures
        trim(s) == s,
{
    let ends = law_trim_strips_only_the_ends(s);
    if s.len() > 0 {
        if ends.0 > 0 {
            assert(is_ws(s[0]));
        }
        if ends.1 < s.len() {
            assert(is_ws(s[s.len() - 1]));
        }
    }
    assert(s.subrange(ends.0, ends.1) =~= s);
}

/// The characters of `s`, in order.
pub fn chars_of(s: &str) -> (r: Vec<char>)
    ensures
        r@ == s@,
{
    broadcast use vstd::string::axiom_spec_iter;

    let mut r: Vec<char> = Vec::new();
    for c in it: s.chars()
        invariant
            it.seq() == s@,
            r@ == it.seq().take(it.index()),
    {
        r.push(c);
        assert(r@ =~= it.seq().take(it.index() + 1));
    }
    assert(r@ =~= s@);
    r
}

/// Whether `c` is Unicode whitespace.
pub fn is_whitespace(c: char) -> (r: bool)
    ensures
        r == is_ws(c),
{
    let u = c as u32;
    (0x9 <= u && u <= 0xd) || u == 0x20 || u == 0x85 || u == 0xa0 || u == 0x1680 || (0x2000 <= u
        && u <= 0x200a) || u == 0x2028 || u == 0x2029 || u == 0x202f || u == 0x205f || u == 0x3000
}

/// `s` with leading and trailing whitespace removed.
pub fn trimmed(s: &str) -> (r: String)
    ensures
        r@ == trim(s@),
{
    let cs = chars_of(s);
    let n = cs.len();
    let mut start: usize = 0;
    while start < n && is_whitespace(cs[start])
        invariant
            start <= n,
            n == cs@.len(),
            forall|k: int| 0 <= k < start ==> is_ws(#[trigger] cs@[k]),
        decreases n - start,
    {
        start = start + 1;
    }
    proof {
        lemma_trim_start(s@, start as int);
    }
    let mut end: usize = n;
    while end > start && is_whitespace(cs[end - 1])
        invariant
            start <= end <= n,
            n == cs@.len(),
            forall|k: int| end <= k < n ==> is_ws(#[trigger] cs@[k]),
        decreases end,
    {
        end = end - 1;
    }
    proof {
        let t = s@.skip(start as int);
        assert forall|k: int| end - start <= k < t.len() implies is_ws(#[trigger] t[k]) by {
            assert(t[k] == cs@[k + start]);
        }
        if end > start {
            assert(t[end - start - 1] == cs@[end - 1]);
        }
        lemma_trim_end(t, end - start);
        assert(t.take(end - start) =~= s@.subrange(start as int, end as int));
    }
    s.substring_char(start, end).to_owned()
}

/// Whether `a` and `b` hold the same characters.
pub fn str_equal(a: &str, b: &str) -> (r: bool)
    ensures
        r == (a@ == b@),
{
    let ca = chars_of(a);
    let cb = chars_of(b);
    if ca.len() != cb.len() {
        return false;
    }
    let mut i: usize = 0;
    while i < ca.len()
        invariant
            i <= ca@.len(),
            ca@.len() == cb@.len(),
            ca@ == a@,
            cb@ == b@,
            forall|k: int| 0 <= k < i ==> ca@[k] == cb@[k],
        decreases ca@.len() - i,
    {
        if ca[i] != cb[i] {
            return false;
        }
        i = i + 1;
    }
    assert(a@ =~= b@);
    true
}

proof fn lemma_str_lt_skip(a: Seq<char>, b: Seq<char>, i: int)
    requires
        0 <= i <= a.len(),
        i <= b.len(),
        forall|k: int| 0 <= k < i ==> a[k] == b[k],
    ensures
        str_lt(a, b) == str_lt(a.skip(i), b.skip(i)),
    decreases i,
{
    if i == 0 {
        assert(a.skip(0) =~= a);
        assert(b.skip(0) =~= b);
    } else {
        lemma_str_lt_skip(a.drop_first(), b.drop_first(), i - 1);
        assert(a.drop_first().skip(i - 1) =~= a.skip(i));
        assert(b.drop_first().skip(i - 1) =~= b.skip(i));
    }
}

/// Whether `a` comes strictly before `b` in code-point order.
pub fn str_less(a: &str, b: &str) -> (r: bool)
    ensures
        r == str_lt(a@, b@),
{
    let ca = chars_of(a);
    let cb = chars_of(b);
    let mut i: usize = 0;
    while i < ca.len() && i < cb.len() && ca[i] == cb[i]
        invariant
            i <= ca@.len(),
            i <= cb@.len(),
            ca@ == a@,
            cb@ == b@,
            forall|k: int| 0 <= k < i ==> ca@[k] == cb@[k],
        decreases ca@.len() - i,
    {
        i = i + 1;
    }
    proof {
        lemma_str_lt_skip(a@, b@, i as int);
    }
    if i == ca.len() {
        i < cb.len()
    } else if i == cb.len() {
        false
    } else {
        (ca[i] as u32) < (cb[i] as u32)
    }
}

/// Every pair of entries is in strictly increasing order.
pub open spec fn sorted_strings(s: Seq<String>) -> bool {
    forall|i: int, j: int| 0 <= i < j < s.len() ==> str_lt(#[trigger] s[i]@, #[trigger] s[j]@)
}

/// Some entry of `s` holds the characters `x`.
pub open spec fn has_string(s: Seq<String>, x: Seq<char>) -> bool {
    exists|i: int| 0 <= i < s.len() && #[trigger] s[i]@ == x
}

/// Inserting `x` at a place where everything before is smaller and
/// everything after is larger keeps the list sorted and adds just `x`,
/// which was not there before.
proof fn lemma_insert_in_place(s: Seq<String>, p: int, x: String)
    requires
        sorted_strings(s),
        0 <= p <= s.len(),
        forall|k: int| 0 <= k < p ==> str_lt(#[trigger] s[k]@, x@),
        p < s.len() ==> str_lt(x@, s[p]@),
    ensures
        sorted_strings(s.insert(p, x)),
        forall|y: Seq<char>| has_string(s.insert(p, x), y) <==> (has_string(s, y) || y == x@),
        !has_string(s, x@),
{
    let t = s.insert(p, x);
    assert forall|i: int, j: int| 0 <= i < j < t.len() implies str_lt(
        #[trigger] t[i]@,
        #[trigger] t[j]@,
    ) by {
        if j < p {
            assert(t[i] == s[i] && t[j] == s[j]);
        } else if j == p {
            assert(t[i] == s[i]);
        } else if i > p {
            assert(t[i] == s[i - 1] && t[j] == s[j - 1]);
        } else {
            assert(t[j] == s[j - 1]);
            if j - 1 > p {
                lemma_str_lt_transitive(x@, s[p]@, s[j - 1]@);
            }
            if i < p {
                assert(t[i] == s[i]);
                lemma_str_lt_transitive(s[i]@, x@, s[j - 1]@);
            }
        }
    }
    assert forall|y: Seq<char>| has_string(t, y) <==> (has_string(s, y) || y == x@) by {
        if has_string(t, y) {
            let i = choose|i: int| 0 <= i < t.len() && #[trigger] t[i]@ == y;
            if i < p {
                assert(s[i] == t[i]);
            } else if i > p {
                assert(s[i - 1] == t[i]);
            }
        }
        if has_string(s, y) {
            let i = choose|i: int| 0 <= i < s.len() && #[trigger] s[i]@ == y;
            if i < p {
                assert(t[i] == s[i]);
            } else {
                assert(t[i + 1] == s[i]);
            }
        }
        if y == x@ {
            assert(t[p] == x);
        }
    }
    if has_string(s, x@) {
        let q = choose|q: int| 0 <= q < s.len() && #[trigger] s[q]@ == x@;
        lemma_str_lt_irreflexive(x@);
        if q > p {
            assert(str_lt(s[p]@, s[q]@));
            lemma_str_lt_total(x@, s[p]@);
        }
    }
}

/// Inserts `s` at its place in the sorted list `v`, unless it is already there.
pub fn insert_sorted(v: &mut Vec<String>, s: String)
    requires
        sorted_strings(old(v)@),
    ensures
        sorted_strings(final(v)@),
        forall|x: Seq<char>| has_string(final(v)@, x) <==> (has_string(old(v)@, x) || x == s@),
        has_string(old(v)@, s@) ==> final(v)@ == old(v)@,
        !has_string(old(v)@, s@) ==> final(v)@.len() == old(v)@.len() + 1,
{
    let n = v.len();
    let mut p: usize = 0;
    while p < n && str_less(v[p].as_str(), s.as_str())
        invariant
            p <= n,
            n == v@.len(),
            forall|k: int| 0 <= k < p ==> str_lt(#[trigger] v@[k]@, s@),
        decreases n - p,
    {
        p = p + 1;
    }
    if p < n && str_equal(v[p].as_str(), s.as_str()) {
        assert(has_string(v@, s@));
        return;
    }
    proof {
        if p < n {
            lemma_str_lt_total(v@[p as int]@, s@);
        }
        lemma_insert_in_place(v@, p as int, s);
    }
    v.insert(p, s);
}

/// The keys of a list of keyed entries.
pub open spec fn keys_of<T>(v: Seq<(String, T)>) -> Seq<String> {
    Seq::new(v.len(), |i: int| v[i].0)
}

/// Inserts the entry `(key, val)` at the place of its key in the list `v`,
/// sorted by key, unless an entry with that key is already there.
pub fn insert_keyed<T>(v: &mut Vec<(String, T)>, key: String, val: T)
    requires
        sorted_strings(keys_of(old(v)@)),
    ensures
        sorted_strings(keys_of(final(v)@)),
        forall|x: Seq<char>|
            has_string(keys_of(final(v)@), x) <==> (has_string(keys_of(old(v)@), x) || x == key@),
        forall|k: int|
            0 <= k < final(v)@.len() ==> (exists|j: int|
                0 <= j < old(v)@.len() && #[trigger] old(v)@[j] == final(v)@[k]) || (final(v)@[k].0
                == key && final(v)@[k].1 == val),
        has_string(keys_of(old(v)@), key@) ==> final(v)@ == old(v)@,
        !has_string(keys_of(old(v)@), key@) ==> final(v)@.len() == old(v)@.len() + 1,
{
    let n = v.len();
    let ghost old_v = v@;
    let ghost ok = keys_of(old_v);
    let mut p: usize = 0;
    while p < n && str_less(v[p].0.as_str(), key.as_str())
        invariant
            p <= n,
            n == v@.len(),
            v@ == old_v,
            ok == keys_of(old_v),
            forall|k: int| 0 <= k < p ==> str_lt(#[trigger] ok[k]@, key@),
        decreases n - p,
    {
        p = p + 1;
    }
    if p < n && str_equal(v[p].0.as_str(), key.as_str()) {
        assert(ok[p as int]@ == key@);
        assert(has_string(ok, key@));
        assert forall|k: int| 0 <= k < v@.len() implies (exists|j: int|
            0 <= j < old_v.len() && #[trigger] old_v[j] == v@[k]) || (v@[k].0 == key && v@[k].1
            == val) by {
            assert(old_v[k] == v@[k]);
        }
        return;
    }
    proof {
        if p < n {
            lemma_str_lt_total(ok[p as int]@, key@);
        }
        lemma_insert_in_place(ok, p as int, key);
    }
    v.insert(p, (key, val));
    proof {
        let nv = v@;
        assert(keys_of(nv) =~= ok.insert(p as int, key));
        assert forall|k: int| 0 <= k < nv.len() implies (exists|j: int|
            0 <= j < old_v.len() && #[trigger] old_v[j] == nv[k]) || (nv[k].0 == key && nv[k].1
            == val) by {
            if k < p {
                assert(old_v[k] == nv[k]);
            } else if k > p {
                assert(old_v[k - 1] == nv[k]);
            }
        }
    }
}

/// Two sorted lists with the same entries hold the same strings, in the
/// same places.
pub proof fn lemma_sorted_unique(a: Seq<String>, b: Seq<String>)
    requires
        sorted_strings(a),
        sorted_strings(b),
        forall|x: Seq<char>| has_string(a, x) <==> has_string(b, x),
    ensures
        a.len() == b.len(),
        forall|k: int| 0 <= k < a.len() ==> #[trigger] a[k]@ == b[k]@,
    decreases a.len(),
{
    if a.len() == 0 {
        if b.len() > 0 {
            assert(has_string(b, b[0]@));
        }
    } else if b.len() == 0 {
        assert(has_string(a, a[0]@));
    } else {
        assert(has_string(a, a[0]@));
        assert(has_string(b, b[0]@));
        let i = choose|i: int| 0 <= i < a.len() && #[trigger] a[i]@ == b[0]@;
        let j = choose|j: int| 0 <= j < b.len() && #[trigger] b[j]@ == a[0]@;
        if a[0]@ != b[0]@ {
            assert(i > 0 && j > 0);
            assert(str_lt(a[0]@, a[i]@));
            assert(str_lt(b[0]@, b[j]@));
            lemma_str_lt_total(a[0]@, b[0]@);
        }
        let ra = a.drop_first();
        let rb = b.drop_first();
        assert forall|x: Seq<char>| has_string(ra, x) <==> has_string(rb, x) by {
            if has_string(ra, x) {
                let k = choose|k: int| 0 <= k < ra.len() && #[trigger] ra[k]@ == x;
                assert(a[k + 1]@ == x);
                assert(str_lt(a[0]@, a[k + 1]@));
                lemma_str_lt_irreflexive(x);
                assert(has_string(a, x));
                let m = choose|m: int| 0 <= m < b.len() && #[trigger] b[m]@ == x;
                assert(m != 0);
                assert(rb[m - 1]@ == x);
            }
            if has_string(rb, x) {
                let k = choose|k: int| 0 <= k < rb.len() && #[trigger] rb[k]@ == x;
                assert(b[k + 1]@ == x);
                assert(str_lt(b[0]@, b[k + 1]@));
                lemma_str_lt_irreflexive(x);
                assert(has_string(b, x));
                let m = choose|m: int| 0 <= m < a.len() && #[trigger] a[m]@ == x;
                assert(m != 0);
                assert(ra[m - 1]@ == x);
            }
        }
        assert forall|p: int, q: int| 0 <= p < q < ra.len() implies str_lt(
            #[trigger] ra[p]@,
            #[trigger] ra[q]@,
        ) by {
            assert(str_lt(a[p + 1]@, a[q + 1]@));
        }
        assert forall|p: int, q: int| 0 <= p < q < rb.len() implies str_lt(
            #[trigger] rb[p]@,
            #[trigger] rb[q]@,
        ) by {
            assert(str_lt(b[p + 1]@, b[q + 1]@));
        }
        lemma_sorted_unique(ra, rb);
        assert forall|k: int| 0 <= k < a.len() implies #[trigger] a[k]@ == b[k]@ by {
            if k > 0 {
                assert(ra[k - 1]@ == rb[k - 1]@);
            }
        }
    }
}

pub proof fn lemma_has_string_push(s: Seq<String>, v: String, x: Seq<char>)
    ensures
        has_string(s.push(v), x) <==> (has_string(s, x) || v@ == x),
{
    let t = s.push(v);
    if has_string(t, x) {
        let i = choose|i: int| 0 <= i < t.len() && #[trigger] t[i]@ == x;
        if i < s.len() {
            assert(s[i] == t[i]);
        }
    }
    if has_string(s, x) {
        let i = choose|i: int| 0 <= i < s.len() && #[trigger] s[i]@ == x;
        assert(t[i] == s[i]);
    }
    if v@ == x {
        assert(t[s.len() as int] == v);
    }
}

} // verus!
