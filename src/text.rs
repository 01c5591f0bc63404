use vstd::prelude::*;

verus! {

// ---------------------------------------------------------------------------
// The line model: a line is a sequence of characters. It bears a key iff it
// holds the two-character marker " =". The key is what stands before the
// first marker, the value what stands after it.
// ---------------------------------------------------------------------------

/// A marker " =" starts at position `i` of `l`.
pub open spec fn has_marker_at(l: Seq<char>, i: int) -> bool {
    0 <= i && i + 1 < l.len() && l[i] == ' ' && l[i + 1] == '='
}

/// The position of the first marker at or after `i`, or -1.
pub open spec fn marker_from(l: Seq<char>, i: int) -> int
    decreases l.len() - i,
{
    if i < 0 || i + 1 >= l.len() {
        -1
    } else if has_marker_at(l, i) {
        i
    } else {
        marker_from(l, i + 1)
    }
}

/// The position of the first marker of `l`, or -1 when it has none.
pub open spec fn marker_index(l: Seq<char>) -> int {
    marker_from(l, 0)
}

pub open spec fn is_key_line(l: Seq<char>) -> bool {
    marker_index(l) >= 0
}

/// The key followed by the marker: what a line of the same key starts with.
pub open spec fn key_prefix(l: Seq<char>) -> Seq<char> {
    l.take(marker_index(l) + 2)
}

/// The key, as it stands before the marker.
pub open spec fn key_of(l: Seq<char>) -> Seq<char> {
    l.take(marker_index(l))
}

/// Everything after the marker, as stored.
pub open spec fn rest_of(l: Seq<char>) -> Seq<char> {
    l.skip(marker_index(l) + 2)
}

pub open spec fn starts_with(s: Seq<char>, p: Seq<char>) -> bool {
    p.len() <= s.len() && s.take(p.len() as int) == p
}

pub open spec fn occurs_at(s: Seq<char>, p: Seq<char>, i: int) -> bool {
    0 <= i && i + p.len() <= s.len() && s.subrange(i, i + p.len()) == p
}

pub open spec fn contains(s: Seq<char>, p: Seq<char>) -> bool {
    exists|i: int| occurs_at(s, p, i)
}

// ---------------------------------------------------------------------------
// Orders: the code points of a string, and the same with ASCII upper case
// folded to lower case.
// ---------------------------------------------------------------------------

pub open spec fn fold_code(c: char) -> u32 {
    if 'A' <= c && c <= 'Z' {
        (c as u32 + 32) as u32
    } else {
        c as u32
    }
}

pub open spec fn codes(s: Seq<char>) -> Seq<u32> {
    s.map_values(|c: char| c as u32)
}

pub open spec fn folded(s: Seq<char>) -> Seq<u32> {
    s.map_values(|c: char| fold_code(c))
}

/// The codes that a comparison looks at, folded or not.
pub open spec fn order_codes(s: Seq<char>, fold: bool) -> Seq<u32> {
    if fold {
        folded(s)
    } else {
        codes(s)
    }
}

/// `a` and `b` agree on their first `i` elements, and there `a` is the smaller:
/// it ends, or its next element is the smaller one.
pub open spec fn lex_less_at(a: Seq<u32>, b: Seq<u32>, i: int) -> bool {
    &&& 0 <= i <= a.len()
    &&& i <= b.len()
    &&& a.take(i) == b.take(i)
    &&& (i == a.len() && i < b.len()) || (i < a.len() && i < b.len() && a[i] < b[i])
}

/// Lexicographic order, as `str`'s `<` orders strings by code point.
pub open spec fn lex_less(a: Seq<u32>, b: Seq<u32>) -> bool {
    exists|i: int| lex_less_at(a, b, i)
}

pub open spec fn lex_le(a: Seq<u32>, b: Seq<u32>) -> bool {
    lex_less(a, b) || a == b
}

// ---------------------------------------------------------------------------
// Trimming, by `char::is_whitespace`.
// ---------------------------------------------------------------------------

/// The White_Space characters of Unicode.
pub open spec fn is_ws(c: char) -> bool {
    let u = c as u32;
    (9 <= u && u <= 13) || u == 32 || u == 0x85 || u == 0xA0 || u == 0x1680 || (0x2000 <= u
        && u <= 0x200A) || u == 0x2028 || u == 0x2029 || u == 0x202F || u == 0x205F || u
        == 0x3000
}

pub open spec fn trim_start(s: Seq<char>) -> Seq<char>
    decreases s.len(),
{
    if s.len() > 0 && is_ws(s[0]) {
        trim_start(s.drop_first())
    } else {
        s
    }
}

pub open spec fn trim_end(s: Seq<char>) -> Seq<char>
    decreases s.len(),
{
    if s.len() > 0 && is_ws(s.last()) {
        trim_end(s.drop_last())
    } else {
        s
    }
}

pub open spec fn trim(s: Seq<char>) -> Seq<char> {
    trim_end(trim_start(s))
}

// ---------------------------------------------------------------------------
// Executable helpers.
// ---------------------------------------------------------------------------

/// The characters of `s`, in order.
pub fn chars_of(s: &str) -> (r: Vec<char>)
    ensures
        r@ == s@,
{
    let mut r: Vec<char> = Vec::new();
    for c in it: s.chars()
        invariant
            r@ == it.seq().take(it.index() as int),
            it.seq() == s@,
    {
        r.push(c);
    }
    r
}

/// Where the first marker of `l` stands.
pub fn find_marker(l: &Vec<char>) -> (r: Option<usize>)
    ensures
        match r {
            Some(i) => marker_index(l@) == i as int,
            None => marker_index(l@) == -1,
        },
{
    let mut i: usize = 0;
    while i < l.len() && l.len() - i > 1
        invariant
            i <= l.len(),
            marker_index(l@) == marker_from(l@, i as int),
        decreases l.len() - i,
    {
        if l[i] == ' ' && l[i + 1] == '=' {
            return Some(i);
        }
        i = i + 1;
    }
    None
}

pub proof fn lemma_marker_from(l: Seq<char>, i: int)
    requires
        0 <= i,
    ensures
        marker_from(l, i) == -1 || (i <= marker_from(l, i) && has_marker_at(l, marker_from(l, i))),
        forall|j: int|
            i <= j && (marker_from(l, i) == -1 || j < marker_from(l, i)) ==> !has_marker_at(l, j),
    decreases l.len() - i,
{
    if i + 1 < l.len() && !has_marker_at(l, i) {
        lemma_marker_from(l, i + 1);
    }
}

/// The first marker is where `has_marker_at` first holds.
pub proof fn lemma_marker_index(l: Seq<char>)
    ensures
        marker_index(l) == -1 || (0 <= marker_index(l) && has_marker_at(l, marker_index(l))),
        forall|j: int|
            0 <= j && (marker_index(l) == -1 || j < marker_index(l)) ==> !has_marker_at(l, j),
{
    lemma_marker_from(l, 0);
}

/// Two lines that agree up to and including a marker have that first marker.
pub proof fn lemma_marker_of_agreeing(a: Seq<char>, b: Seq<char>, m: int)
    requires
        marker_index(a) == m,
        m >= 0,
        m + 2 <= b.len(),
        a.take(m + 2) == b.take(m + 2),
    ensures
        marker_index(b) == m,
{
    lemma_marker_index(a);
    lemma_marker_index(b);
    assert(has_marker_at(a, m));
    assert(a.len() >= m + 2);
    assert forall|j: int| 0 <= j < m implies !has_marker_at(b, j) by {
        assert(a.take(m + 2)[j] == b.take(m + 2)[j]);
        assert(a.take(m + 2)[j + 1] == b.take(m + 2)[j + 1]);
        assert(a.take(m + 2)[j] == a[j]);
        assert(b.take(m + 2)[j] == b[j]);
        assert(a.take(m + 2)[j + 1] == a[j + 1]);
        assert(b.take(m + 2)[j + 1] == b[j + 1]);
        assert(!has_marker_at(a, j));
    }
    assert(a.take(m + 2)[m] == b.take(m + 2)[m]);
    assert(a.take(m + 2)[m + 1] == b.take(m + 2)[m + 1]);
    assert(a.take(m + 2)[m] == a[m]);
    assert(b.take(m + 2)[m] == b[m]);
    assert(a.take(m + 2)[m + 1] == a[m + 1]);
    assert(b.take(m + 2)[m + 1] == b[m + 1]);
    assert(has_marker_at(b, m));
    if marker_index(b) != m {
        assert(!has_marker_at(b, m));
    }
}

/// `p` is where `s` starts.
pub fn has_prefix(s: &Vec<char>, p: &Vec<char>) -> (r: bool)
    ensures
        r == starts_with(s@, p@),
{
    if p.len() > s.len() {
        return false;
    }
    let mut i: usize = 0;
    while i < p.len()
        invariant
            p.len() <= s.len(),
            i <= p.len(),
            forall|j: int| 0 <= j < i ==> s@[j] == p@[j],
        decreases p.len() - i,
    {
        if s[i] != p[i] {
            assert(s@.take(p.len() as int)[i as int] != p@[i as int]);
            return false;
        }
        i = i + 1;
    }
    assert(s@.take(p.len() as int) =~= p@);
    true
}

/// `p` occurs in `s`.
pub fn has_infix(s: &Vec<char>, p: &Vec<char>) -> (r: bool)
    ensures
        r == contains(s@, p@),
{
    if p.len() > s.len() {
        return false;
    }
    if p.len() == 0 {
        assert(s@.subrange(0, 0) =~= p@);
        assert(occurs_at(s@, p@, 0));
        return true;
    }
    let mut i: usize = 0;
    while i <= s.len() - p.len()
        invariant
            1 <= p.len() <= s.len(),
            forall|k: int| 0 <= k < i ==> !occurs_at(s@, p@, k),
        decreases s.len() - i,
    {
        let mut j: usize = 0;
        let mut same = true;
        while j < p.len()
            invariant
                i + p.len() <= s.len(),
                j <= p.len(),
                same ==> forall|t: int| 0 <= t < j ==> s@[i + t] == p@[t],
                !same ==> !occurs_at(s@, p@, i as int),
            decreases p.len() - j,
        {
            if s[i + j] != p[j] {
                assert(s@.subrange(i as int, i + p.len())[j as int] != p@[j as int]);
                same = false;
            }
            j = j + 1;
        }
        if same {
            assert(s@.subrange(i as int, i + p.len()) =~= p@);
            assert(occurs_at(s@, p@, i as int));
            return true;
        }
        i = i + 1;
    }
    false
}

pub fn fold_char(c: char, fold: bool) -> (r: u32)
    ensures
        r == (if fold {
            fold_code(c)
        } else {
            c as u32
        }),
{
    if fold && 'A' <= c && c <= 'Z' {
        c as u32 + 32
    } else {
        c as u32
    }
}

/// `a` comes before `b`, by code point or with ASCII case folded.
pub fn less_than(a: &Vec<char>, b: &Vec<char>, fold: bool) -> (r: bool)
    ensures
        r == lex_less(order_codes(a@, fold), order_codes(b@, fold)),
{
    let ghost ca = order_codes(a@, fold);
    let ghost cb = order_codes(b@, fold);
    let mut i: usize = 0;
    while i < a.len() && i < b.len()
        invariant
            i <= a.len(),
            i <= b.len(),
            ca.len() == a.len(),
            cb.len() == b.len(),
            ca == order_codes(a@, fold),
            cb == order_codes(b@, fold),
            ca.take(i as int) == cb.take(i as int),
        decreases a.len() - i,
    {
        let x = fold_char(a[i], fold);
        let y = fold_char(b[i], fold);
        assert(x == ca[i as int] && y == cb[i as int]);
        if x != y {
            let r = x < y;
            proof {
                if r {
                    assert(lex_less_at(ca, cb, i as int));
                } else {
                    assert forall|k: int| !lex_less_at(ca, cb, k) by {
                        if lex_less_at(ca, cb, k) && k != i {
                            if k < i {
                                assert(ca.take(i as int)[k] == cb.take(i as int)[k]);
                            } else {
                                assert(ca.take(k)[i as int] == cb.take(k)[i as int]);
                            }
                        }
                    }
                }
            }
            return r;
        }
        assert(ca.take(i + 1) =~= ca.take(i as int).push(x));
        assert(cb.take(i + 1) =~= cb.take(i as int).push(y));
        i = i + 1;
    }
    let r = i == a.len() && i < b.len();
    proof {
        if r {
            assert(lex_less_at(ca, cb, i as int));
        } else {
            assert forall|k: int| !lex_less_at(ca, cb, k) by {
                if lex_less_at(ca, cb, k) {
                    if k < i {
                        assert(ca.take(i as int)[k] == cb.take(i as int)[k]);
                    }
                }
            }
        }
    }
    r
}

/// The two strings are equal once ASCII case is folded.
pub fn equal_folded(a: &Vec<char>, b: &Vec<char>) -> (r: bool)
    ensures
        r == (folded(a@) == folded(b@)),
{
    if a.len() != b.len() {
        assert(folded(a@).len() != folded(b@).len());
        return false;
    }
    let mut i: usize = 0;
    while i < a.len()
        invariant
            a.len() == b.len(),
            i <= a.len(),
            forall|k: int| 0 <= k < i ==> fold_code(a@[k]) == fold_code(b@[k]),
        decreases a.len() - i,
    {
        if fold_char(a[i], true) != fold_char(b[i], true) {
            assert(folded(a@)[i as int] != folded(b@)[i as int]);
            return false;
        }
        i = i + 1;
    }
    assert(folded(a@) =~= folded(b@));
    true
}

pub fn is_ws_char(c: char) -> (r: bool)
    ensures
        r == is_ws(c),
{
    let u = c as u32;
    (9 <= u && u <= 13) || u == 32 || u == 0x85 || u == 0xA0 || u == 0x1680 || (0x2000 <= u && u
        <= 0x200A) || u == 0x2028 || u == 0x2029 || u == 0x202F || u == 0x205F || u == 0x3000
}

proof fn lemma_trim_start_skip(s: Seq<char>, i: int)
    requires
        0 <= i < s.len(),
        is_ws(s[i]),
    ensures
        trim_start(s.skip(i)) == trim_start(s.skip(i + 1)),
{
    assert(s.skip(i).drop_first() =~= s.skip(i + 1));
}

proof fn lemma_trim_end_of_range(s: Seq<char>, a: int, j: int)
    requires
        0 <= a <= j <= s.len(),
        forall|k: int| a <= k < j ==> is_ws(#[trigger] s[k]),
    ensures
        trim_end(s.subrange(a, j)) == trim_end(s.subrange(a, a)),
    decreases j - a,
{
    if j > a {
        let t = s.subrange(a, j);
        assert(t.drop_last() =~= s.subrange(a, j - 1));
        assert(t.last() == s[j - 1]);
        lemma_trim_end_of_range(s, a, j - 1);
    }
}

/// The bounds of `s` with its leading and trailing white space cut off.
pub fn trim_bounds(s: &Vec<char>) -> (r: (usize, usize))
    ensures
        r.0 <= r.1 <= s.len(),
        s@.subrange(r.0 as int, r.1 as int) == trim(s@),
{
    let mut a: usize = 0;
    assert(s@.skip(0) =~= s@);
    while a < s.len() && is_ws_char(s[a])
        invariant
            a <= s.len(),
            trim_start(s@) == trim_start(s@.skip(a as int)),
        decreases s.len() - a,
    {
        proof {
            lemma_trim_start_skip(s@, a as int);
        }
        a = a + 1;
    }
    assert(trim_start(s@) == s@.skip(a as int)) by {
        if a == s.len() {
            assert(s@.skip(a as int).len() == 0);
        }
    }
    let mut b: usize = s.len();
    while b > a && is_ws_char(s[b - 1])
        invariant
            a <= b <= s.len(),
            forall|k: int| b <= k < s.len() ==> is_ws(#[trigger] s@[k]),
        decreases b,
    {
        b = b - 1;
    }
    proof {
        let t = s@.skip(a as int);
        assert(t.take(b - a) =~= s@.subrange(a as int, b as int));
        assert(t =~= s@.subrange(a as int, s.len() as int));
        lemma_trim_end_of_range(s@, b as int, s.len() as int);
        // the trailing white space goes, the rest stays
        assert forall|j: int| b <= j <= s.len() implies trim_end(s@.subrange(a as int, j)) == trim_end(
            s@.subrange(a as int, b as int),
        ) by {
            lemma_trim_end_shrinks(s@, a as int, b as int, j);
        }
        if b > a {
            assert(!is_ws(s@[b - 1]));
            assert(s@.subrange(a as int, b as int).last() == s@[b - 1]);
        } else {
            assert(s@.subrange(a as int, b as int).len() == 0);
        }
    }
    (a, b)
}

proof fn lemma_trim_end_shrinks(s: Seq<char>, a: int, b: int, j: int)
    requires
        0 <= a <= b <= j <= s.len(),
        forall|k: int| b <= k < s.len() ==> is_ws(#[trigger] s[k]),
    ensures
        trim_end(s.subrange(a, j)) == trim_end(s.subrange(a, b)),
    decreases j - b,
{
    if j > b {
        let t = s.subrange(a, j);
        assert(t.drop_last() =~= s.subrange(a, j - 1));
        assert(t.last() == s[j - 1]);
        lemma_trim_end_shrinks(s, a, b, j - 1);
    }
}


/// The two ranges hold the same characters.
pub fn equal_ranges(a: &Vec<char>, ra: (usize, usize), b: &Vec<char>, rb: (usize, usize)) -> (r:
    bool)
    requires
        ra.0 <= ra.1 <= a.len(),
        rb.0 <= rb.1 <= b.len(),
    ensures
        r == (a@.subrange(ra.0 as int, ra.1 as int) == b@.subrange(rb.0 as int, rb.1 as int)),
{
    let ghost sa = a@.subrange(ra.0 as int, ra.1 as int);
    let ghost sb = b@.subrange(rb.0 as int, rb.1 as int);
    if ra.1 - ra.0 != rb.1 - rb.0 {
        assert(sa.len() != sb.len());
        return false;
    }
    let n = ra.1 - ra.0;
    let mut i: usize = 0;
    while i < n
        invariant
            n == ra.1 - ra.0,
            n == rb.1 - rb.0,
            ra.0 <= ra.1 <= a.len(),
            rb.0 <= rb.1 <= b.len(),
            i <= n,
            sa == a@.subrange(ra.0 as int, ra.1 as int),
            sb == b@.subrange(rb.0 as int, rb.1 as int),
            forall|k: int| 0 <= k < i ==> sa[k] == sb[k],
        decreases n - i,
    {
        if a[ra.0 + i] != b[rb.0 + i] {
            assert(sa[i as int] != sb[i as int]);
            return false;
        }
        i = i + 1;
    }
    assert(sa =~= sb);
    true
}

/// `key` followed by the marker.
pub open spec fn with_marker(key: Seq<char>) -> Seq<char> {
    key + seq![' ', '=']
}

/// `key` followed by the marker, as a string.
pub fn marker_after(key: &str) -> (r: String)
    ensures
        r@ == with_marker(key@),
{
    let mut r = key.to_owned();
    r.append(" =");
    proof {
        reveal_strlit(" =");
        assert(" ="@ =~= seq![' ', '=']);
    }
    r
}


/// Lexicographic order is transitive.
pub proof fn lemma_lex_trans(a: Seq<u32>, b: Seq<u32>, c: Seq<u32>)
    requires
        lex_less(a, b),
        lex_less(b, c),
    ensures
        lex_less(a, c),
{
    let i = choose|i: int| lex_less_at(a, b, i);
    let j = choose|j: int| lex_less_at(b, c, j);
    if i < j {
        assert forall|t: int| 0 <= t < i implies a.take(i)[t] == c.take(i)[t] by {
            assert(a.take(i)[t] == b.take(i)[t]);
            assert(b.take(j)[t] == c.take(j)[t]);
        }
        assert(a.take(i) =~= c.take(i));
        if i < a.len() {
            assert(b.take(j)[i] == c.take(j)[i]);
        }
        assert(lex_less_at(a, c, i));
    } else if j < i {
        assert forall|t: int| 0 <= t < j implies a.take(j)[t] == c.take(j)[t] by {
            assert(a.take(i)[t] == b.take(i)[t]);
            assert(b.take(j)[t] == c.take(j)[t]);
        }
        assert(a.take(j) =~= c.take(j));
        assert(a.take(i)[j] == b.take(i)[j]);
        assert(lex_less_at(a, c, j));
    } else {
        assert forall|t: int| 0 <= t < i implies a.take(i)[t] == c.take(i)[t] by {
            assert(a.take(i)[t] == b.take(i)[t]);
            assert(b.take(j)[t] == c.take(j)[t]);
        }
        assert(a.take(i) =~= c.take(i));
        assert(lex_less_at(a, c, i));
    }
}

/// Lexicographic order is total.
pub proof fn lemma_lex_total(a: Seq<u32>, b: Seq<u32>)
    ensures
        lex_less(a, b) || lex_less(b, a) || a == b,
    decreases a.len(),
{
    assert(a.take(0) =~= b.take(0));
    if a.len() == 0 || b.len() == 0 {
        if a.len() == 0 && b.len() == 0 {
            assert(a =~= b);
        } else if a.len() == 0 {
            assert(lex_less_at(a, b, 0));
        } else {
            assert(lex_less_at(b, a, 0));
        }
    } else if a[0] != b[0] {
        if a[0] < b[0] {
            assert(lex_less_at(a, b, 0));
        } else {
            assert(lex_less_at(b, a, 0));
        }
    } else {
        let ta = a.drop_first();
        let tb = b.drop_first();
        lemma_lex_total(ta, tb);
        if ta == tb {
            assert(a =~= seq![a[0]] + ta);
            assert(b =~= seq![b[0]] + tb);
        } else if lex_less(ta, tb) {
            let i = choose|i: int| lex_less_at(ta, tb, i);
            assert(a.take(i + 1) =~= b.take(i + 1)) by {
                assert forall|t: int| 0 <= t < i + 1 implies #[trigger] a.take(i + 1)[t] == b.take(i + 1)[t] by {
                    if t > 0 {
                        assert(ta.take(i)[t - 1] == tb.take(i)[t - 1]);
                    }
                }
            }
            assert(lex_less_at(a, b, i + 1));
        } else {
            let i = choose|i: int| lex_less_at(tb, ta, i);
            assert(a.take(i + 1) =~= b.take(i + 1)) by {
                assert forall|t: int| 0 <= t < i + 1 implies #[trigger] a.take(i + 1)[t] == b.take(i + 1)[t] by {
                    if t > 0 {
                        assert(ta.take(i)[t - 1] == tb.take(i)[t - 1]);
                    }
                }
            }
            assert(lex_less_at(b, a, i + 1));
        }
    }
}


/// The two hold the same characters.
pub fn equal_chars(a: &Vec<char>, b: &Vec<char>) -> (r: bool)
    ensures
        r == (a@ == b@),
{
    let r = equal_ranges(a, (0, a.len()), b, (0, b.len()));
    assert(a@.subrange(0, a.len() as int) =~= a@);
    assert(b@.subrange(0, b.len() as int) =~= b@);
    r
}

} // verus!
