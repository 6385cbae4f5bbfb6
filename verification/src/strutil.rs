use vstd::prelude::*;
use vstd::string::StrSliceExecFns;
use vstd::string::StringExecFns;

verus! {

/// Strict lexicographic order on character sequences, comparing scalar values
/// position by position; a proper prefix sorts before its extensions.
pub open spec fn lex_lt(a: Seq<char>, b: Seq<char>) -> bool
    decreases a.len(),
{
    if b.len() == 0 {
        false
    } else if a.len() == 0 {
        true
    } else if a[0] != b[0] {
        (a[0] as int) < (b[0] as int)
    } else {
        lex_lt(a.skip(1), b.skip(1))
    }
}

/// A sequence of strings that is strictly increasing: sorted and duplicate-free.
pub open spec fn sorted_strict(s: Seq<Seq<char>>) -> bool {
    forall|i: int, j: int| 0 <= i < j < s.len() ==> lex_lt(s[i], s[j])
}

/// The views of a sequence of `String`s.
pub open spec fn string_views(s: Seq<String>) -> Seq<Seq<char>> {
    s.map_values(|t: String| t@)
}

pub proof fn lemma_lex_lt_connected(a: Seq<char>, b: Seq<char>)
    requires
        a != b,
    ensures
        lex_lt(a, b) || lex_lt(b, a),
    decreases a.len(),
{
    if a.len() == 0 && b.len() == 0 {
        assert(a =~= b);
    } else if a.len() == 0 {
        assert(lex_lt(a, b));
    } else if b.len() == 0 {
        assert(lex_lt(b, a));
    } else if a[0] == b[0] {
        if a.skip(1) == b.skip(1) {
            assert(a.skip(1).len() == a.len() - 1);
            assert(b.skip(1).len() == b.len() - 1);
            assert(a.len() == b.len());
            assert forall|j: int| 0 <= j < a.len() implies a[j] == b[j] by {
                if j > 0 {
                    assert(a[j] == a.skip(1)[j - 1]);
                    assert(b[j] == b.skip(1)[j - 1]);
                }
            }
            assert(a =~= b);
            assert(false);
        } else {
            lemma_lex_lt_connected(a.skip(1), b.skip(1));
        }
    } else {
        assert((a[0] as int) != (b[0] as int));
        assert(lex_lt(a, b) || lex_lt(b, a));
    }
}

pub proof fn lemma_lex_lt_transitive(a: Seq<char>, b: Seq<char>, c: Seq<char>)
    requires
        lex_lt(a, b),
        lex_lt(b, c),
    ensures
        lex_lt(a, c),
    decreases a.len(),
{
    if a.len() > 0 && b.len() > 0 && c.len() > 0 && a[0] == b[0] && b[0] == c[0] {
        lemma_lex_lt_transitive(a.skip(1), b.skip(1), c.skip(1));
    }
}

/// When the first `i` characters agree, the order is decided by the remainders.
pub proof fn lemma_lex_lt_common_prefix(a: Seq<char>, b: Seq<char>, i: int)
    requires
        0 <= i <= a.len(),
        i <= b.len(),
        forall|j: int| 0 <= j < i ==> a[j] == b[j],
    ensures
        lex_lt(a, b) == lex_lt(a.skip(i), b.skip(i)),
    decreases i,
{
    if i > 0 {
        lemma_lex_lt_common_prefix(a.skip(1), b.skip(1), i - 1);
        assert(a.skip(1).skip(i - 1) =~= a.skip(i));
        assert(b.skip(1).skip(i - 1) =~= b.skip(i));
        assert(forall|j: int| 0 <= j < i - 1 ==> a.skip(1)[j] == b.skip(1)[j]);
    } else {
        assert(a.skip(0) =~= a);
        assert(b.skip(0) =~= b);
    }
}

/// Insertion of a string into a sorted, duplicate-free sequence of strings,
/// keeping it sorted and duplicate-free.
pub open spec fn insert_sorted(s: Seq<Seq<char>>, x: Seq<char>) -> Seq<Seq<char>>
    decreases s.len(),
{
    if s.len() == 0 {
        seq![x]
    } else if lex_lt(s[0], x) {
        seq![s[0]] + insert_sorted(s.skip(1), x)
    } else if s[0] == x {
        s
    } else {
        seq![x] + s
    }
}

pub proof fn lemma_sorted_skip1(s: Seq<Seq<char>>)
    requires
        sorted_strict(s),
        s.len() > 0,
    ensures
        sorted_strict(s.skip(1)),
{
    assert forall|i: int, j: int| 0 <= i < j < s.skip(1).len() implies lex_lt(
        s.skip(1)[i],
        s.skip(1)[j],
    ) by {
        assert(s.skip(1)[i] == s[i + 1]);
        assert(s.skip(1)[j] == s[j + 1]);
    }
}

/// Inserting into a sorted duplicate-free sequence keeps it sorted, keeps every
/// element, adds nothing but the new string, and grows by at most one.
pub proof fn lemma_insert_sorted_props(s: Seq<Seq<char>>, x: Seq<char>)
    requires
        sorted_strict(s),
    ensures
        sorted_strict(insert_sorted(s, x)),
        s.len() <= insert_sorted(s, x).len() <= s.len() + 1,
        insert_sorted(s, x).contains(x),
        forall|e: Seq<char>| s.contains(e) ==> insert_sorted(s, x).contains(e),
        forall|e: Seq<char>| insert_sorted(s, x).contains(e) ==> s.contains(e) || e == x,
    decreases s.len(),
{
    let r = insert_sorted(s, x);
    if s.len() == 0 {
        assert(r == seq![x]);
        assert(r[0] == x);
    } else if lex_lt(s[0], x) {
        lemma_sorted_skip1(s);
        lemma_insert_sorted_props(s.skip(1), x);
        let sub = insert_sorted(s.skip(1), x);
        assert(r == seq![s[0]] + sub);
        assert forall|i: int, j: int| 0 <= i < j < r.len() implies lex_lt(r[i], r[j]) by {
            if i == 0 {
                // r[j] is either x or an element of s.skip(1); both are above s[0]
                assert(r[j] == sub[j - 1]);
                assert(sub.contains(sub[j - 1]));
                if r[j] == x {
                    assert(lex_lt(s[0], x));
                } else {
                    assert(s.skip(1).contains(r[j]));
                    let k = choose|k: int| 0 <= k < s.skip(1).len() && s.skip(1)[k] == r[j];
                    assert(s[k + 1] == r[j]);
                    assert(lex_lt(s[0], s[k + 1]));
                }
            } else {
                assert(r[i] == sub[i - 1] && r[j] == sub[j - 1]);
            }
        }
        assert forall|e: Seq<char>| s.contains(e) implies r.contains(e) by {
            let k = choose|k: int| 0 <= k < s.len() && s[k] == e;
            if k == 0 {
                assert(r[0] == e);
            } else {
                assert(s.skip(1)[k - 1] == e);
                assert(s.skip(1).contains(e));
                let m = choose|m: int| 0 <= m < sub.len() && sub[m] == e;
                assert(r[m + 1] == e);
            }
        }
        assert forall|e: Seq<char>| r.contains(e) implies s.contains(e) || e == x by {
            let k = choose|k: int| 0 <= k < r.len() && r[k] == e;
            if k == 0 {
                assert(s[0] == e);
            } else {
                assert(sub.contains(r[k]));
                if e != x {
                    assert(s.skip(1).contains(e));
                    let m = choose|m: int| 0 <= m < s.skip(1).len() && s.skip(1)[m] == e;
                    assert(s[m + 1] == e);
                }
            }
        }
        let m0 = choose|m0: int| 0 <= m0 < sub.len() && sub[m0] == x;
        assert(r[m0 + 1] == x);
    } else if s[0] == x {
        assert(s[0] == x);
    } else {
        assert(r == seq![x] + s);
        assert(r[0] == x);
        lemma_lex_lt_connected(s[0], x);
        assert(lex_lt(x, s[0]));
        assert forall|i: int, j: int| 0 <= i < j < r.len() implies lex_lt(r[i], r[j]) by {
            if i == 0 {
                assert(r[j] == s[j - 1]);
                if j > 1 {
                    lemma_lex_lt_transitive(x, s[0], s[j - 1]);
                }
            } else {
                assert(r[i] == s[i - 1] && r[j] == s[j - 1]);
            }
        }
        assert forall|e: Seq<char>| s.contains(e) implies r.contains(e) by {
            let k = choose|k: int| 0 <= k < s.len() && s[k] == e;
            assert(r[k + 1] == e);
        }
        assert forall|e: Seq<char>| r.contains(e) implies s.contains(e) || e == x by {
            let k = choose|k: int| 0 <= k < r.len() && r[k] == e;
            if k > 0 {
                assert(s[k - 1] == e);
            }
        }
    }
}

/// Locates the result of `insert_sorted` from the first position whose element
/// is not below the new string.
pub proof fn lemma_insert_sorted_split(s: Seq<Seq<char>>, x: Seq<char>, i: int)
    requires
        sorted_strict(s),
        0 <= i <= s.len(),
        forall|j: int| 0 <= j < i ==> lex_lt(s[j], x),
        i < s.len() ==> !lex_lt(s[i], x),
    ensures
        insert_sorted(s, x) == if i < s.len() && s[i] == x {
            s
        } else {
            s.take(i) + seq![x] + s.skip(i)
        },
    decreases i,
{
    if i == 0 {
        if s.len() == 0 {
            assert(insert_sorted(s, x) =~= s.take(0) + seq![x] + s.skip(0));
        } else if s[0] == x {
        } else {
            assert(insert_sorted(s, x) == seq![x] + s);
            assert(seq![x] + s =~= s.take(0) + seq![x] + s.skip(0));
        }
    } else {
        assert(lex_lt(s[0], x));
        lemma_sorted_skip1(s);
        assert(forall|j: int| 0 <= j < i - 1 ==> s.skip(1)[j] == s[j + 1]);
        lemma_insert_sorted_split(s.skip(1), x, i - 1);
        let sub = insert_sorted(s.skip(1), x);
        assert(insert_sorted(s, x) == seq![s[0]] + sub);
        if i < s.len() && s[i] == x {
            assert(s.skip(1)[i - 1] == x);
            assert(sub == s.skip(1));
            assert(seq![s[0]] + s.skip(1) =~= s);
        } else {
            assert(sub == s.skip(1).take(i - 1) + seq![x] + s.skip(1).skip(i - 1));
            assert(seq![s[0]] + sub =~= s.take(i) + seq![x] + s.skip(i)) by {
                assert(forall|j: int|
                    0 <= j < i - 1 ==> #[trigger] s.skip(1).take(i - 1)[j] == s[j + 1]);
                assert(forall|j: int|
                    0 <= j < s.len() - i ==> #[trigger] s.skip(1).skip(i - 1)[j] == s[j + i]);
                assert(forall|j: int| 0 <= j < i ==> #[trigger] s.take(i)[j] == s[j]);
                assert(forall|j: int| 0 <= j < s.len() - i ==> #[trigger] s.skip(i)[j] == s[j + i]);
            }
        }
    }
}

/// The first `i` strings of `s` joined with the separator `sep`.
pub open spec fn join_upto(s: Seq<Seq<char>>, sep: Seq<char>, i: int) -> Seq<char>
    decreases i,
{
    if i <= 0 {
        Seq::<char>::empty()
    } else if i == 1 {
        s[0]
    } else {
        join_upto(s, sep, i - 1) + sep + s[i - 1]
    }
}

/// All strings of `s` joined with the separator `sep`.
pub open spec fn join_all(s: Seq<Seq<char>>, sep: Seq<char>) -> Seq<char> {
    join_upto(s, sep, s.len() as int)
}

/// Joins the strings of `v` with the separator `sep`.
pub fn join_strings(v: &Vec<String>, sep: &str) -> (r: String)
    ensures
        r@ == join_all(string_views(v@), sep@),
{
    let mut r = String::new();
    let mut i: usize = 0;
    while i < v.len()
        invariant
            i <= v@.len(),
            r@ == join_upto(string_views(v@), sep@, i as int),
        decreases v@.len() - i,
    {
        if i > 0 {
            StringExecFns::append(&mut r, sep);
        }
        StringExecFns::append(&mut r, v[i].as_str());
        proof {
            assert(string_views(v@)[i as int] == v@[i as int]@);
            if i == 0 {
                assert(r@ =~= join_upto(string_views(v@), sep@, 1));
            }
        }
        i = i + 1;
    }
    r
}

/// The character for a decimal digit.
pub open spec fn digit_char(d: nat) -> char {
    ((d + 48) as u8) as char
}

/// The decimal rendering of a number, most significant digit first.
pub open spec fn dec_digits(n: nat) -> Seq<char>
    decreases n,
{
    if n < 10 {
        seq![digit_char(n)]
    } else {
        dec_digits(n / 10).push(digit_char(n % 10))
    }
}

fn digit_str(d: u64) -> (r: &'static str)
    requires
        d < 10,
    ensures
        r@ == seq![digit_char(d as nat)],
{
    proof {
        reveal_strlit("0");
        reveal_strlit("1");
        reveal_strlit("2");
        reveal_strlit("3");
        reveal_strlit("4");
        reveal_strlit("5");
        reveal_strlit("6");
        reveal_strlit("7");
        reveal_strlit("8");
        reveal_strlit("9");
    }
    match d {
        0 => "0",
        1 => "1",
        2 => "2",
        3 => "3",
        4 => "4",
        5 => "5",
        6 => "6",
        7 => "7",
        8 => "8",
        _ => "9",
    }
}

/// The decimal rendering of `n`.
pub fn u64_to_string(n: u64) -> (r: String)
    ensures
        r@ == dec_digits(n as nat),
    decreases n,
{
    if n < 10 {
        digit_str(n).to_owned()
    } else {
        let mut r = u64_to_string(n / 10);
        StringExecFns::append(&mut r, digit_str(n % 10));
        proof {
            assert(r@ =~= dec_digits(n as nat));
        }
        r
    }
}

/// Character-wise string equality, proved against the character views.
pub fn str_eq(a: &str, b: &str) -> (r: bool)
    ensures
        r == (a@ == b@),
{
    let alen = a.unicode_len();
    let blen = b.unicode_len();
    if alen != blen {
        return false;
    }
    let mut i: usize = 0;
    while i < alen
        invariant
            i <= alen,
            alen == a@.len(),
            alen == b@.len(),
            forall|j: int| 0 <= j < i ==> a@[j] == b@[j],
        decreases alen - i,
    {
        if a.get_char(i) != b.get_char(i) {
            return false;
        }
        i = i + 1;
    }
    proof {
        assert(a@ =~= b@);
    }
    true
}

/// Character-wise strict lexicographic comparison of strings.
pub fn str_lt(a: &str, b: &str) -> (r: bool)
    ensures
        r == lex_lt(a@, b@),
{
    let alen = a.unicode_len();
    let blen = b.unicode_len();
    let n = if alen < blen {
        alen
    } else {
        blen
    };
    let mut i: usize = 0;
    while i < n
        invariant
            i <= n,
            alen == a@.len(),
            blen == b@.len(),
            n == if alen < blen { alen } else { blen },
            forall|j: int| 0 <= j < i ==> a@[j] == b@[j],
        decreases n - i,
    {
        let ca = a.get_char(i);
        let cb = b.get_char(i);
        if ca != cb {
            proof {
                lemma_lex_lt_common_prefix(a@, b@, i as int);
            }
            return (ca as u32) < (cb as u32);
        }
        i = i + 1;
    }
    proof {
        lemma_lex_lt_common_prefix(a@, b@, n as int);
    }
    alen < blen
}

} // verus!
