//! Character-level helpers on strings: comparison in the order of `String`'s
//! `Ord`, prefixes, slices, concatenation and decimal rendering of integers.
use vstd::prelude::*;
use vstd::string::*;

verus! {

/// The character sequences of a list of strings.
pub open spec fn strings_view(v: Seq<String>) -> Seq<Seq<char>> {
    v.map_values(|s: String| s@)
}

/// Strict lexicographic order on character sequences, comparing characters by
/// code point (the order `BTreeMap<String, _>` sorts its keys in).
pub open spec fn seq_lt(a: Seq<char>, b: Seq<char>) -> bool {
    exists|i: int|
        #![trigger a.take(i), b.take(i)]
        0 <= i <= a.len() && i <= b.len() && a.take(i) == b.take(i) && ((i == a.len() && i
            < b.len()) || (i < a.len() && i < b.len() && (a[i] as int) < (b[i] as int)))
}

/// Index of the first position where `a` and `b` differ, or the length of the
/// shorter one when one is a prefix of the other.
pub open spec fn first_difference(a: Seq<char>, b: Seq<char>) -> int
    decreases a.len(),
{
    if a.len() == 0 || b.len() == 0 || a[0] != b[0] {
        0
    } else {
        1 + first_difference(a.drop_first(), b.drop_first())
    }
}

pub proof fn lemma_first_difference(a: Seq<char>, b: Seq<char>)
    ensures
        0 <= first_difference(a, b) <= a.len(),
        first_difference(a, b) <= b.len(),
        a.take(first_difference(a, b)) == b.take(first_difference(a, b)),
        first_difference(a, b) < a.len() && first_difference(a, b) < b.len() ==> a[first_difference(
            a,
            b,
        )] != b[first_difference(a, b)],
    decreases a.len(),
{
    if a.len() == 0 || b.len() == 0 || a[0] != b[0] {
        assert(a.take(0) =~= b.take(0));
    } else {
        let a1 = a.drop_first();
        let b1 = b.drop_first();
        lemma_first_difference(a1, b1);
        let k = first_difference(a1, b1);
        assert(a.take(k + 1) =~= seq![a[0]] + a1.take(k));
        assert(b.take(k + 1) =~= seq![b[0]] + b1.take(k));
        if k < a1.len() && k < b1.len() {
            assert(a[k + 1] == a1[k]);
            assert(b[k + 1] == b1[k]);
        }
    }
}

/// Characterises `seq_lt` by the first position where the sequences differ.
pub proof fn lemma_seq_lt_by_difference(a: Seq<char>, b: Seq<char>)
    ensures
        ({
            let k = first_difference(a, b);
            seq_lt(a, b) <==> ((k == a.len() && k < b.len()) || (k < a.len() && k < b.len() && (
            a[k] as int) < (b[k] as int)))
        }),
{
    lemma_first_difference(a, b);
    let k = first_difference(a, b);
    if seq_lt(a, b) {
        let i = choose|i: int|
            #![trigger a.take(i), b.take(i)]
            0 <= i <= a.len() && i <= b.len() && a.take(i) == b.take(i) && ((i == a.len() && i
                < b.len()) || (i < a.len() && i < b.len() && (a[i] as int) < (b[i] as int)));
        if i < k {
            assert(a.take(k)[i] == b.take(k)[i]);
        } else if k < i {
            assert(a.take(i)[k] == b.take(i)[k]);
        }
    } else {
        if (k == a.len() && k < b.len()) || (k < a.len() && k < b.len() && (a[k] as int) < (
        b[k] as int)) {
            assert(a.take(k) == b.take(k));
        }
    }
}

pub proof fn lemma_seq_lt_irreflexive(a: Seq<char>)
    ensures
        !seq_lt(a, a),
{
    lemma_seq_lt_by_difference(a, a);
    lemma_first_difference(a, a);
}

/// `seq_lt` is a strict total order.
pub proof fn lemma_seq_lt_total(a: Seq<char>, b: Seq<char>)
    ensures
        a != b ==> (seq_lt(a, b) || seq_lt(b, a)),
        !(seq_lt(a, b) && seq_lt(b, a)),
{
    lemma_seq_lt_by_difference(a, b);
    lemma_seq_lt_by_difference(b, a);
    lemma_first_difference(a, b);
    lemma_first_difference(b, a);
    lemma_first_difference_symmetric(a, b);
    let k = first_difference(a, b);
    if a != b && k == a.len() && k == b.len() {
        assert(a =~= a.take(k));
        assert(b =~= b.take(k));
    }
    if k < a.len() && k < b.len() {
        assert((a[k] as int) != (b[k] as int));
    }
}

pub proof fn lemma_first_difference_symmetric(a: Seq<char>, b: Seq<char>)
    ensures
        first_difference(a, b) == first_difference(b, a),
    decreases a.len(),
{
    if a.len() == 0 || b.len() == 0 || a[0] != b[0] {
    } else {
        lemma_first_difference_symmetric(a.drop_first(), b.drop_first());
    }
}

pub proof fn lemma_seq_lt_transitive(a: Seq<char>, b: Seq<char>, c: Seq<char>)
    requires
        seq_lt(a, b),
        seq_lt(b, c),
    ensures
        seq_lt(a, c),
{
    lemma_seq_lt_by_difference(a, b);
    lemma_seq_lt_by_difference(b, c);
    lemma_seq_lt_by_difference(a, c);
    lemma_first_difference(a, b);
    lemma_first_difference(b, c);
    let i = first_difference(a, b);
    let j = first_difference(b, c);
    let m = if i < j {
        i
    } else {
        j
    };
    assert forall|t: int| 0 <= t < m implies a[t] == c[t] by {
        assert(a.take(i)[t] == b.take(i)[t]);
        assert(b.take(j)[t] == c.take(j)[t]);
    }
    if i < j {
        assert(b[i] == c[i]) by {
            assert(b.take(j)[i] == c.take(j)[i]);
        }
    } else if j < i {
        assert(a[j] == b[j]) by {
            assert(a.take(i)[j] == b.take(i)[j]);
        }
    }
    lemma_first_difference_at(a, c, m);
}

/// Character-wise equality of two string slices.
pub fn str_equal(a: &str, b: &str) -> (r: bool)
    ensures
        r == (a@ == b@),
{
    let n = a.unicode_len();
    let m = b.unicode_len();
    if n != m {
        return false;
    }
    let mut i: usize = 0;
    while i < n
        invariant
            n == a@.len(),
            m == b@.len(),
            n == m,
            i <= n,
            forall|j: int| 0 <= j < i ==> a@[j] == b@[j],
        decreases n - i,
    {
        if a.get_char(i) != b.get_char(i) {
            return false;
        }
        i += 1;
    }
    assert(a@ =~= b@);
    true
}

/// `a < b` in the order of `String`'s `Ord` (code-point lexicographic order).
pub fn str_less(a: &str, b: &str) -> (r: bool)
    ensures
        r == seq_lt(a@, b@),
{
    let n = a.unicode_len();
    let m = b.unicode_len();
    let mut i: usize = 0;
    proof {
        lemma_seq_lt_by_difference(a@, b@);
        lemma_first_difference(a@, b@);
    }
    while i < n && i < m
        invariant
            n == a@.len(),
            m == b@.len(),
            i <= n,
            i <= m,
            forall|j: int| 0 <= j < i ==> a@[j] == b@[j],
        decreases n - i,
    {
        let ca = a.get_char(i);
        let cb = b.get_char(i);
        if ca != cb {
            proof {
                assert(a@.take(i as int) =~= b@.take(i as int));
                lemma_first_difference_at(a@, b@, i as int);
                lemma_seq_lt_by_difference(a@, b@);
            }
            let r = (ca as u32) < (cb as u32);
            assert(r == ((a@[i as int] as int) < (b@[i as int] as int)));
            return r;
        }
        i += 1;
    }
    proof {
        assert(a@.take(i as int) =~= b@.take(i as int));
        lemma_first_difference_at(a@, b@, i as int);
    }
    i == n && i < m
}

/// The first difference is at `i` when the sequences agree before `i` and
/// differ at `i` (or one of them ends there).
pub proof fn lemma_first_difference_at(a: Seq<char>, b: Seq<char>, i: int)
    requires
        0 <= i <= a.len(),
        i <= b.len(),
        forall|j: int| 0 <= j < i ==> a[j] == b[j],
        i == a.len() || i == b.len() || a[i] != b[i],
    ensures
        first_difference(a, b) == i,
    decreases i,
{
    if i > 0 {
        lemma_first_difference_at(a.drop_first(), b.drop_first(), i - 1);
    }
}

/// Whether `prefix` is a prefix of `s`.
pub fn str_starts_with(s: &str, prefix: &str) -> (r: bool)
    ensures
        r == prefix@.is_prefix_of(s@),
{
    let n = s.unicode_len();
    let m = prefix.unicode_len();
    if m > n {
        return false;
    }
    let mut i: usize = 0;
    while i < m
        invariant
            n == s@.len(),
            m == prefix@.len(),
            m <= n,
            i <= m,
            forall|j: int| 0 <= j < i ==> prefix@[j] == s@[j],
        decreases m - i,
    {
        if s.get_char(i) != prefix.get_char(i) {
            return false;
        }
        i += 1;
    }
    true
}

/// The characters of `s` from position `from` (inclusive) to `to` (exclusive),
/// as a new string.
pub fn substring(s: &str, from: usize, to: usize) -> (r: String)
    requires
        from <= to <= s@.len(),
    ensures
        r@ == s@.subrange(from as int, to as int),
{
    s.substring_char(from, to).to_owned()
}

/// `a` followed by `b`, as a new string.
pub fn concat(a: &str, b: &str) -> (r: String)
    ensures
        r@ == a@ + b@,
{
    let mut r = a.to_owned();
    r.append(b);
    r
}

/// The character of a decimal digit.
pub open spec fn digit_char(d: int) -> char {
    if d == 0 {
        '0'
    } else if d == 1 {
        '1'
    } else if d == 2 {
        '2'
    } else if d == 3 {
        '3'
    } else if d == 4 {
        '4'
    } else if d == 5 {
        '5'
    } else if d == 6 {
        '6'
    } else if d == 7 {
        '7'
    } else if d == 8 {
        '8'
    } else {
        '9'
    }
}

/// Decimal representation of a natural number, without sign or leading zeros
/// (what `u64::to_string` prints).
pub open spec fn decimal(n: nat) -> Seq<char>
    decreases n,
{
    if n < 10 {
        seq![digit_char(n as int)]
    } else {
        decimal(n / 10).push(digit_char((n % 10) as int))
    }
}

/// The one-character string of a decimal digit.
fn digit_string(d: u64) -> (r: String)
    requires
        d < 10,
    ensures
        r@ == seq![digit_char(d as int)],
{
    let digits = "0123456789";
    proof {
        reveal_strlit("0123456789");
    }
    let r = substring(digits, d as usize, (d + 1) as usize);
    assert(r@ =~= seq![digit_char(d as int)]);
    r
}

/// Renders `n` in decimal, as `n.to_string()` does.
pub fn u64_to_decimal(n: u64) -> (r: String)
    ensures
        r@ == decimal(n as nat),
    decreases n,
{
    if n < 10 {
        digit_string(n)
    } else {
        let head = u64_to_decimal(n / 10);
        let last = digit_string(n % 10);
        let r = concat(head.as_str(), last.as_str());
        assert(r@ =~= decimal(n as nat));
        r
    }
}

} // verus!
