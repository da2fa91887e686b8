//! Character-level string utilities: conversions between `String` and
//! `Vec<char>`, lexicographic order on character sequences, sorting with and
//! without deduplication, and substring search.

use vstd::prelude::*;
use vstd::multiset::Multiset;
use vstd::string::StrSliceExecFns;
use vstd::string::StringExecFns;

verus! {

/// Relies on std's String::push: appends the given character to the end of
/// the string.
#[verifier::external_body]
pub fn push_char(s: &mut String, c: char)
    ensures
        final(s)@ == old(s)@.push(c),
{
    s.push(c);
}

pub fn to_chars(s: &str) -> (r: Vec<char>)
    ensures
        r@ == s@,
{
    let n: usize = s.unicode_len();
    let mut r: Vec<char> = Vec::new();
    let mut i: usize = 0;
    while i < n
        invariant
            i <= n,
            n == s@.len(),
            r@ == s@.subrange(0, i as int),
        decreases n - i,
    {
        let c = s.get_char(i);
        r.push(c);
        assert(r@ =~= s@.subrange(0, i + 1 as int));
        i += 1;
    }
    assert(r@ =~= s@);
    r
}

pub fn from_chars(v: &Vec<char>) -> (r: String)
    ensures
        r@ == v@,
{
    let mut r = String::new();
    let mut i: usize = 0;
    while i < v.len()
        invariant
            i <= v.len(),
            r@ == v@.subrange(0, i as int),
        decreases v.len() - i,
    {
        push_char(&mut r, v[i]);
        assert(r@ =~= v@.subrange(0, i + 1 as int));
        i += 1;
    }
    assert(r@ =~= v@);
    r
}

pub fn char_vec_eq(a: &Vec<char>, b: &Vec<char>) -> (r: bool)
    ensures
        r == (a@ == b@),
{
    if a.len() != b.len() {
        assert(a@ !~= b@);
        return false;
    }
    let mut i: usize = 0;
    while i < a.len()
        invariant
            i <= a.len(),
            a@.len() == b@.len(),
            forall|j: int| 0 <= j < i ==> a@[j] == b@[j],
        decreases a.len() - i,
    {
        if a[i] != b[i] {
            assert(a@ != b@);
            return false;
        }
        i += 1;
    }
    assert(a@ =~= b@);
    true
}

/// Strict lexicographic order on character sequences, by Unicode scalar
/// value. This coincides with the order std gives strings, since UTF-8
/// byte order agrees with scalar order.
pub open spec fn lex_lt(a: Seq<char>, b: Seq<char>) -> bool
    decreases a.len() + b.len(),
{
    if b.len() == 0 {
        false
    } else if a.len() == 0 {
        true
    } else if a[0] == b[0] {
        lex_lt(a.skip(1), b.skip(1))
    } else {
        (a[0] as u32) < (b[0] as u32)
    }
}

pub open spec fn lex_le(a: Seq<char>, b: Seq<char>) -> bool {
    lex_lt(a, b) || a == b
}

proof fn lemma_char_neq_scalar(a: char, b: char)
    requires
        a != b,
    ensures
        (a as u32) != (b as u32),
{
    vstd::utf8::char_u32_cast(a, a as u32);
    vstd::utf8::char_u32_cast(b, b as u32);
}

proof fn lemma_lex_total(a: Seq<char>, b: Seq<char>)
    ensures
        lex_lt(a, b) || lex_lt(b, a) || a == b,
    decreases a.len() + b.len(),
{
    if b.len() == 0 || a.len() == 0 {
        if a.len() == b.len() {
            assert(a =~= b);
        }
    } else if a[0] == b[0] {
        lemma_lex_total(a.skip(1), b.skip(1));
        if a.skip(1) == b.skip(1) {
            assert(a.skip(1).len() == a.len() - 1);
            assert(b.skip(1).len() == b.len() - 1);
            assert(a.len() == b.len());
            assert forall|i: int| 0 <= i < a.len() implies a[i] == b[i] by {
                if i >= 1 {
                    assert(a[i] == a.skip(1)[i - 1]);
                    assert(b[i] == b.skip(1)[i - 1]);
                }
            }
            assert(a =~= b);
        }
    } else {
        lemma_char_neq_scalar(a[0], b[0]);
    }
}

proof fn lemma_lex_asym(a: Seq<char>, b: Seq<char>)
    requires
        lex_lt(a, b),
    ensures
        !lex_lt(b, a),
        a != b,
    decreases a.len() + b.len(),
{
    if b.len() == 0 {
    } else if a.len() == 0 {
    } else if a[0] == b[0] {
        lemma_lex_asym(a.skip(1), b.skip(1));
        if a == b {
            assert(a.skip(1) =~= b.skip(1));
        }
    }
}

proof fn lemma_lex_trans(a: Seq<char>, b: Seq<char>, c: Seq<char>)
    requires
        lex_lt(a, b),
        lex_lt(b, c),
    ensures
        lex_lt(a, c),
    decreases a.len() + b.len() + c.len(),
{
    if c.len() == 0 {
    } else if b.len() == 0 {
    } else if a.len() == 0 {
    } else {
        if a[0] == b[0] && b[0] == c[0] {
            lemma_lex_trans(a.skip(1), b.skip(1), c.skip(1));
        }
    }
}

/// Public faces of the order lemmas, stated together: `lex_lt` is a strict
/// total order on character sequences.
pub proof fn lemma_lex_strict_total_order(a: Seq<char>, b: Seq<char>, c: Seq<char>)
    ensures
        lex_lt(a, b) || lex_lt(b, a) || a == b,
        lex_lt(a, b) ==> !lex_lt(b, a) && a != b,
        lex_lt(a, b) && lex_lt(b, c) ==> lex_lt(a, c),
{
    lemma_lex_total(a, b);
    if lex_lt(a, b) {
        lemma_lex_asym(a, b);
        if lex_lt(b, c) {
            lemma_lex_trans(a, b, c);
        }
    }
}

pub fn str_lt(a: &str, b: &str) -> (r: bool)
    ensures
        r == lex_lt(a@, b@),
    decreases a@.len(),
{
    let an: usize = a.unicode_len();
    let bn: usize = b.unicode_len();
    if bn == 0 {
        false
    } else if an == 0 {
        true
    } else {
        let ca = a.get_char(0);
        let cb = b.get_char(0);
        if ca == cb {
            let ar = a.substring_char(1, an);
            let br = b.substring_char(1, bn);
            assert(ar@ =~= a@.skip(1));
            assert(br@ =~= b@.skip(1));
            str_lt(ar, br)
        } else {
            (ca as u32) < (cb as u32)
        }
    }
}

pub fn str_eq(a: &str, b: &str) -> (r: bool)
    ensures
        r == (a@ == b@),
{
    let ac = to_chars(a);
    let bc = to_chars(b);
    char_vec_eq(&ac, &bc)
}

pub fn str_le(a: &str, b: &str) -> (r: bool)
    ensures
        r == lex_le(a@, b@),
{
    if str_lt(a, b) {
        true
    } else {
        let ac = to_chars(a);
        let bc = to_chars(b);
        char_vec_eq(&ac, &bc)
    }
}

// ---------- sorting ----------

/// Insert `x` into an already sorted sequence, after every element that is
/// `lex_le` it (so insertion is stable for equal elements).
pub open spec fn ins_sorted(x: Seq<char>, s: Seq<Seq<char>>) -> Seq<Seq<char>>
    decreases s.len(),
{
    if s.len() == 0 {
        seq![x]
    } else if lex_le(s[0], x) {
        seq![s[0]] + ins_sorted(x, s.skip(1))
    } else {
        seq![x] + s
    }
}

pub open spec fn sort_seqs_from(v: Seq<Seq<char>>, i: int, acc: Seq<Seq<char>>) -> Seq<
    Seq<char>,
>
    decreases v.len() - i,
{
    if i < 0 || i >= v.len() {
        acc
    } else {
        sort_seqs_from(v, i + 1, ins_sorted(v[i], acc))
    }
}

/// The sorted arrangement of `v`: inserting its elements left to right into
/// an initially empty sequence.
pub open spec fn sort_seqs(v: Seq<Seq<char>>) -> Seq<Seq<char>> {
    sort_seqs_from(v, 0, Seq::empty())
}

pub open spec fn sorted_le(s: Seq<Seq<char>>) -> bool {
    forall|i: int, j: int| 0 <= i < j < s.len() ==> lex_le(#[trigger] s[i], #[trigger] s[j])
}

proof fn lemma_ins_sorted_props(x: Seq<char>, s: Seq<Seq<char>>)
    requires
        sorted_le(s),
    ensures
        sorted_le(ins_sorted(x, s)),
        ins_sorted(x, s).to_multiset() == s.to_multiset().insert(x),
        ins_sorted(x, s).len() == s.len() + 1,
    decreases s.len(),
{
    broadcast use vstd::seq_lib::group_to_multiset_ensures;

    let r = ins_sorted(x, s);
    if s.len() == 0 {
        assert(r =~= seq![x]);
        assert(seq![x].to_multiset() == Seq::<Seq<char>>::empty().to_multiset().insert(x)) by {
            assert(seq![x] =~= Seq::<Seq<char>>::empty().push(x));
        }
        assert(s.to_multiset() == Seq::<Seq<char>>::empty().to_multiset());
    } else if lex_le(s[0], x) {
        assert(sorted_le(s.skip(1))) by {
            assert(forall|i: int, j: int|
                0 <= i < j < s.skip(1).len() ==> lex_le(
                    #[trigger] s.skip(1)[i],
                    #[trigger] s.skip(1)[j],
                ));
        }
        lemma_ins_sorted_props(x, s.skip(1));
        let rr = ins_sorted(x, s.skip(1));
        assert(r =~= seq![s[0]] + rr);
        // sortedness: s[0] is lex_le everything in rr
        assert forall|j: int| 0 <= j < rr.len() implies lex_le(s[0], rr[j]) by {
            assert(rr.to_multiset().contains(rr[j]));
            assert(rr.to_multiset() == s.skip(1).to_multiset().insert(x));
            if rr[j] == x {
                assert(lex_le(s[0], x));
            } else {
                assert(s.skip(1).to_multiset().contains(rr[j]));
                let k = choose|k: int| 0 <= k < s.skip(1).len() && s.skip(1)[k] == rr[j];
                assert(s.skip(1)[k] == s[k + 1]);
                assert(lex_le(s[0], s[k + 1]));
            }
        }
        assert(sorted_le(r)) by {
            assert(forall|i: int, j: int|
                0 <= i < j < r.len() && i >= 1 ==> lex_le(#[trigger] r[i], #[trigger] r[j]))
                by {
                assert(forall|i: int, j: int|
                    0 <= i < j < rr.len() ==> lex_le(#[trigger] rr[i], #[trigger] rr[j]));
                assert(forall|i: int| 1 <= i < r.len() ==> r[i] == rr[i - 1]);
            }
        }
        // multiset
        assert(r.to_multiset() == s.to_multiset().insert(x)) by {
            assert(s =~= seq![s[0]] + s.skip(1));
            vstd::seq_lib::lemma_multiset_commutative(seq![s[0]], s.skip(1));
            vstd::seq_lib::lemma_multiset_commutative(seq![s[0]], rr);
            assert(rr.to_multiset() == s.skip(1).to_multiset().insert(x));
            assert((seq![s[0]] + rr).to_multiset() =~= (seq![s[0]] + s.skip(1)).to_multiset().insert(
                x,
            ));
        }
    } else {
        assert(r =~= seq![x] + s);
        lemma_lex_total(s[0], x);
        assert(lex_lt(x, s[0]));
        assert forall|j: int| 0 <= j < s.len() implies lex_le(x, s[j]) by {
            if j == 0 {
            } else {
                assert(lex_le(s[0], s[j]));
                if s[0] == s[j] {
                } else {
                    lemma_lex_trans(x, s[0], s[j]);
                }
            }
        }
        assert(sorted_le(r)) by {
            assert(forall|i: int| 1 <= i < r.len() ==> r[i] == s[i - 1]);
        }
        assert(r.to_multiset() == s.to_multiset().insert(x)) by {
            vstd::seq_lib::lemma_multiset_commutative(seq![x], s);
            assert(seq![x].to_multiset() == Multiset::<Seq<char>>::empty().insert(x)) by {
                assert(seq![x] =~= Seq::<Seq<char>>::empty().push(x));
            }
            assert((seq![x] + s).to_multiset() =~= s.to_multiset().insert(x));
        }
    }
}

/// The sorted arrangement is sorted and keeps exactly the elements of `v`.
pub proof fn lemma_sort_seqs_props(v: Seq<Seq<char>>)
    ensures
        sorted_le(sort_seqs(v)),
        sort_seqs(v).to_multiset() == v.to_multiset(),
        sort_seqs(v).len() == v.len(),
{
    lemma_sort_seqs_from_props(v, 0, Seq::empty());
    broadcast use vstd::seq_lib::group_to_multiset_ensures;

    assert(Seq::<Seq<char>>::empty().to_multiset() =~= Multiset::empty());
    assert(v.skip(0) =~= v);
    assert(v.to_multiset().add(Multiset::empty()) =~= v.to_multiset());
}

proof fn lemma_sort_seqs_from_props(v: Seq<Seq<char>>, i: int, acc: Seq<Seq<char>>)
    requires
        0 <= i <= v.len(),
        sorted_le(acc),
    ensures
        sorted_le(sort_seqs_from(v, i, acc)),
        sort_seqs_from(v, i, acc).to_multiset() == v.skip(i).to_multiset().add(acc.to_multiset()),
        sort_seqs_from(v, i, acc).len() == v.len() - i + acc.len(),
    decreases v.len() - i,
{
    broadcast use vstd::seq_lib::group_to_multiset_ensures;

    if i >= v.len() {
        assert(v.skip(i) =~= Seq::empty());
        assert(v.skip(i).to_multiset() =~= Multiset::empty());
        assert(Multiset::empty().add(acc.to_multiset()) =~= acc.to_multiset());
    } else {
        lemma_ins_sorted_props(v[i], acc);
        lemma_sort_seqs_from_props(v, i + 1, ins_sorted(v[i], acc));
        assert(v.skip(i) =~= seq![v[i]] + v.skip(i + 1));
        vstd::seq_lib::lemma_multiset_commutative(seq![v[i]], v.skip(i + 1));
        assert(seq![v[i]].to_multiset() == Multiset::<Seq<char>>::empty().insert(v[i])) by {
            assert(seq![v[i]] =~= Seq::<Seq<char>>::empty().push(v[i]));
        }
        assert(v.skip(i + 1).to_multiset().add(ins_sorted(v[i], acc).to_multiset()) =~= v.skip(
            i,
        ).to_multiset().add(acc.to_multiset()));
    }
}

/// Sort strings into lexicographic order.
pub fn sort_strings(v: &Vec<String>) -> (r: Vec<String>)
    ensures
        r.deep_view() == sort_seqs(v.deep_view()),
{
    let ghost goal = sort_seqs(v.deep_view());
    let mut r: Vec<String> = Vec::new();
    let mut i: usize = 0;
    while i < v.len()
        invariant
            i <= v.len(),
            sort_seqs_from(v.deep_view(), i as int, r.deep_view()) == goal,
            goal == sort_seqs(v.deep_view()),
        decreases v.len() - i,
    {
        let x = &v[i];
        assert(v.deep_view()[i as int] == x@);
        // find the insertion point: past every element lex_le x
        let mut j: usize = 0;
        while j < r.len() && str_le(r[j].as_str(), x.as_str())
            invariant
                j <= r.len(),
                forall|k: int| 0 <= k < j ==> lex_le(#[trigger] r.deep_view()[k], x@),
            decreases r.len() - j,
        {
            j += 1;
        }
        proof {
            lemma_ins_at_point(x@, r.deep_view(), j as int);
        }
        let mut out: Vec<String> = Vec::new();
        let mut k: usize = 0;
        while k < j
            invariant
                k <= j,
                j <= r.len(),
                out@.len() == k,
                forall|m: int| 0 <= m < k ==> out@[m] == r@[m],
            decreases j - k,
        {
            out.push(r[k].clone());
            k += 1;
        }
        out.push(x.clone());
        let mut k2: usize = j;
        while k2 < r.len()
            invariant
                j <= k2 <= r.len(),
                out@.len() == k2 + 1,
                forall|m: int| 0 <= m < j ==> out@[m] == r@[m],
                out@[j as int] == *x,
                forall|m: int| j < m <= k2 ==> out@[m] == r@[m - 1],
            decreases r.len() - k2,
        {
            out.push(r[k2].clone());
            k2 += 1;
        }
        assert(out.deep_view() =~= ins_sorted(x@, r.deep_view())) by {
            assert(ins_sorted(x@, r.deep_view()) == r.deep_view().subrange(0, j as int)
                + seq![x@] + r.deep_view().subrange(j as int, r.deep_view().len() as int));
            assert(forall|m: int|
                0 <= m < out@.len() ==> out.deep_view()[m] == #[trigger] out@[m]@);
            assert(forall|m: int| 0 <= m < r@.len() ==> r.deep_view()[m] == #[trigger] r@[m]@);
        }
        r = out;
        i += 1;
    }
    assert(r.deep_view() == goal);
    r
}

/// Where the scan in `sort_strings` stops, inserting there is `ins_sorted`.
proof fn lemma_ins_at_point(x: Seq<char>, s: Seq<Seq<char>>, j: int)
    requires
        0 <= j <= s.len(),
        forall|k: int| 0 <= k < j ==> lex_le(#[trigger] s[k], x),
        j < s.len() ==> !lex_le(s[j], x),
    ensures
        ins_sorted(x, s) == s.subrange(0, j) + seq![x] + s.subrange(j, s.len() as int),
    decreases s.len(),
{
    if s.len() == 0 {
        assert(ins_sorted(x, s) =~= s.subrange(0, j) + seq![x] + s.subrange(j, s.len() as int));
    } else if j == 0 {
        assert(!lex_le(s[0], x));
        assert(ins_sorted(x, s) =~= s.subrange(0, 0) + seq![x] + s.subrange(0, s.len() as int));
    } else {
        assert(lex_le(s[0], x));
        assert(forall|k: int| 0 <= k < j - 1 ==> lex_le(#[trigger] s.skip(1)[k], x));
        lemma_ins_at_point(x, s.skip(1), j - 1);
        assert(ins_sorted(x, s) == seq![s[0]] + ins_sorted(x, s.skip(1)));
        assert(seq![s[0]] + (s.skip(1).subrange(0, j - 1) + seq![x] + s.skip(1).subrange(
            j - 1,
            s.skip(1).len() as int,
        )) =~= s.subrange(0, j) + seq![x] + s.subrange(j, s.len() as int));
    }
}

/// How a vector of strings is indexed at the level of its deep view.
pub proof fn lemma_string_vec_deep_view(v: &Vec<String>)
    ensures
        v.deep_view().len() == v@.len(),
        forall|i: int| 0 <= i < v@.len() ==> v.deep_view()[i] == (#[trigger] v@[i])@,
{
}

// ---------- sorting with deduplication ----------

/// Insert `x` into a strictly sorted sequence, unless it is already there.
pub open spec fn ins_unique(x: Seq<char>, s: Seq<Seq<char>>) -> Seq<Seq<char>>
    decreases s.len(),
{
    if s.len() == 0 {
        seq![x]
    } else if s[0] == x {
        s
    } else if lex_lt(s[0], x) {
        seq![s[0]] + ins_unique(x, s.skip(1))
    } else {
        seq![x] + s
    }
}

pub open spec fn sortu_from(v: Seq<Seq<char>>, i: int, acc: Seq<Seq<char>>) -> Seq<Seq<char>>
    decreases v.len() - i,
{
    if i < 0 || i >= v.len() {
        acc
    } else {
        sortu_from(v, i + 1, ins_unique(v[i], acc))
    }
}

/// The sorted, duplicate-free arrangement of `v`.
pub open spec fn sortu(v: Seq<Seq<char>>) -> Seq<Seq<char>> {
    sortu_from(v, 0, Seq::empty())
}

/// Strictly sorted: in particular, free of duplicates.
pub open spec fn sorted_lt(s: Seq<Seq<char>>) -> bool {
    forall|i: int, j: int| 0 <= i < j < s.len() ==> lex_lt(#[trigger] s[i], #[trigger] s[j])
}

proof fn lemma_ins_unique_props(x: Seq<char>, s: Seq<Seq<char>>)
    requires
        sorted_lt(s),
    ensures
        sorted_lt(ins_unique(x, s)),
        ins_unique(x, s).to_set() == s.to_set().insert(x),
    decreases s.len(),
{
    let r = ins_unique(x, s);
    if s.len() == 0 {
        assert(r =~= seq![x]);
        assert(r.to_set() =~= s.to_set().insert(x)) by {
            assert(r[0] == x);
            assert(r.contains(x));
            assert(forall|y: Seq<char>| #[trigger] r.contains(y) ==> y == x);
            assert(forall|y: Seq<char>| !(#[trigger] s.contains(y)));
        }
    } else if s[0] == x {
        assert(r.to_set() =~= s.to_set().insert(x)) by {
            assert(s.contains(x));
        }
    } else if lex_lt(s[0], x) {
        assert(sorted_lt(s.skip(1))) by {
            assert(forall|i: int, j: int|
                0 <= i < j < s.skip(1).len() ==> lex_lt(
                    #[trigger] s.skip(1)[i],
                    #[trigger] s.skip(1)[j],
                ));
        }
        lemma_ins_unique_props(x, s.skip(1));
        let rr = ins_unique(x, s.skip(1));
        assert(r =~= seq![s[0]] + rr);
        assert forall|j: int| 0 <= j < rr.len() implies lex_lt(s[0], rr[j]) by {
            assert(rr.contains(rr[j]));
            assert(rr.to_set().contains(rr[j]));
            assert(rr.to_set() == s.skip(1).to_set().insert(x));
            if rr[j] == x {
            } else {
                assert(s.skip(1).to_set().contains(rr[j]));
                assert(s.skip(1).contains(rr[j]));
                let k = choose|k: int| 0 <= k < s.skip(1).len() && s.skip(1)[k] == rr[j];
                assert(s.skip(1)[k] == s[k + 1]);
                assert(lex_lt(s[0], s[k + 1]));
            }
        }
        assert(sorted_lt(r)) by {
            assert(forall|i: int| 1 <= i < r.len() ==> r[i] == rr[i - 1]);
        }
        assert(r.to_set() =~= s.to_set().insert(x)) by {
            assert forall|y: Seq<char>| #[trigger] r.contains(y) implies s.to_set().insert(
                x,
            ).contains(y) by {
                let j = choose|j: int| 0 <= j < r.len() && r[j] == y;
                if j == 0 {
                    assert(s.contains(s[0]));
                } else {
                    assert(rr.contains(y));
                    assert(rr.to_set().contains(y));
                    if y != x {
                        assert(s.skip(1).contains(y));
                        let k = choose|k: int| 0 <= k < s.skip(1).len() && s.skip(1)[k] == y;
                        assert(s[k + 1] == y);
                        assert(s.contains(y));
                    }
                }
            }
            assert forall|y: Seq<char>| s.to_set().insert(x).contains(y) implies #[trigger] r
                .contains(y) by {
                if y == x {
                    assert(rr.to_set().contains(x));
                    assert(rr.contains(x));
                    let k = choose|k: int| 0 <= k < rr.len() && rr[k] == x;
                    assert(r[k + 1] == x);
                } else {
                    assert(s.contains(y));
                    let k = choose|k: int| 0 <= k < s.len() && s[k] == y;
                    if k == 0 {
                        assert(r[0] == y);
                    } else {
                        assert(s.skip(1)[k - 1] == y);
                        assert(s.skip(1).contains(y));
                        assert(s.skip(1).to_set().contains(y));
                        assert(rr.to_set().contains(y));
                        assert(rr.contains(y));
                        let m = choose|m: int| 0 <= m < rr.len() && rr[m] == y;
                        assert(r[m + 1] == y);
                    }
                }
            }
        }
    } else {
        lemma_lex_total(s[0], x);
        assert(lex_lt(x, s[0]));
        assert(r =~= seq![x] + s);
        assert forall|j: int| 0 <= j < s.len() implies lex_lt(x, s[j]) by {
            if j > 0 {
                lemma_lex_trans(x, s[0], s[j]);
            }
        }
        assert(sorted_lt(r)) by {
            assert(forall|i: int| 1 <= i < r.len() ==> r[i] == s[i - 1]);
        }
        assert(r.to_set() =~= s.to_set().insert(x)) by {
            assert(r.contains(x)) by {
                assert(r[0] == x);
            }
            assert forall|y: Seq<char>| s.to_set().insert(x).contains(y) implies #[trigger] r
                .contains(y) by {
                if y != x {
                    let k = choose|k: int| 0 <= k < s.len() && s[k] == y;
                    assert(r[k + 1] == y);
                }
            }
            assert forall|y: Seq<char>| #[trigger] r.contains(y) implies s.to_set().insert(
                x,
            ).contains(y) by {
                let j = choose|j: int| 0 <= j < r.len() && r[j] == y;
                if j > 0 {
                    assert(s[j - 1] == y);
                    assert(s.contains(y));
                }
            }
        }
    }
}

proof fn lemma_sortu_from_props(v: Seq<Seq<char>>, i: int, acc: Seq<Seq<char>>)
    requires
        0 <= i <= v.len(),
        sorted_lt(acc),
    ensures
        sorted_lt(sortu_from(v, i, acc)),
        sortu_from(v, i, acc).to_set() == v.skip(i).to_set().union(acc.to_set()),
    decreases v.len() - i,
{
    if i >= v.len() {
        assert(v.skip(i) =~= Seq::empty());
        assert(v.skip(i).to_set() =~= Set::empty());
        assert(Set::empty().union(acc.to_set()) =~= acc.to_set());
    } else {
        lemma_ins_unique_props(v[i], acc);
        lemma_sortu_from_props(v, i + 1, ins_unique(v[i], acc));
        assert(v.skip(i + 1).to_set().union(acc.to_set().insert(v[i])) =~= v.skip(
            i,
        ).to_set().union(acc.to_set())) by {
            assert(forall|k: int|
                0 <= k < v.skip(i + 1).len() ==> #[trigger] v.skip(i + 1)[k] == v.skip(i)[k + 1]);
            assert(v.skip(i)[0] == v[i]);
            assert(v.skip(i).contains(v[i]));
            assert forall|y: Seq<char>| v.skip(i).to_set().contains(y) implies v.skip(
                i + 1,
            ).to_set().union(acc.to_set().insert(v[i])).contains(y) by {
                let k = choose|k: int| 0 <= k < v.skip(i).len() && v.skip(i)[k] == y;
                if k > 0 {
                    assert(v.skip(i + 1)[k - 1] == y);
                    assert(v.skip(i + 1).contains(y));
                }
            }
            assert forall|y: Seq<char>| v.skip(i + 1).to_set().contains(y) implies v.skip(
                i,
            ).to_set().contains(y) by {
                let k = choose|k: int|
                    0 <= k < v.skip(i + 1).len() && #[trigger] v.skip(i + 1)[k] == y;
                assert(v.skip(i)[k + 1] == y);
            }
        }
    }
}

/// The sorted, duplicate-free arrangement is strictly sorted and keeps
/// exactly the set of elements of `v`.
pub proof fn lemma_sortu_props(v: Seq<Seq<char>>)
    ensures
        sorted_lt(sortu(v)),
        sortu(v).to_set() == v.to_set(),
{
    lemma_sortu_from_props(v, 0, Seq::empty());
    assert(v.skip(0) =~= v);
    assert(Seq::<Seq<char>>::empty().to_set() =~= Set::empty());
    assert(v.to_set().union(Set::empty()) =~= v.to_set());
}

/// Where the scan in `sort_dedup_strings` stops, inserting there is
/// `ins_unique`.
proof fn lemma_insu_at_point(x: Seq<char>, s: Seq<Seq<char>>, j: int)
    requires
        0 <= j <= s.len(),
        forall|k: int| 0 <= k < j ==> lex_lt(#[trigger] s[k], x),
        j < s.len() ==> !lex_lt(s[j], x),
    ensures
        j < s.len() && s[j] == x ==> ins_unique(x, s) == s,
        !(j < s.len() && s[j] == x) ==> ins_unique(x, s) == s.subrange(0, j) + seq![x]
            + s.subrange(j, s.len() as int),
    decreases s.len(),
{
    if s.len() == 0 {
        assert(ins_unique(x, s) =~= s.subrange(0, j) + seq![x] + s.subrange(j, s.len() as int));
    } else if j == 0 {
        if s[0] == x {
        } else {
            lemma_lex_total(s[0], x);
            assert(lex_lt(x, s[0]));
            assert(ins_unique(x, s) =~= s.subrange(0, 0) + seq![x] + s.subrange(0, s.len() as int));
        }
    } else {
        assert(lex_lt(s[0], x));
        lemma_lex_asym(s[0], x);
        assert(s[0] != x);
        assert(forall|k: int| 0 <= k < j - 1 ==> lex_lt(#[trigger] s.skip(1)[k], x));
        lemma_insu_at_point(x, s.skip(1), j - 1);
        if j - 1 < s.skip(1).len() && s.skip(1)[j - 1] == x {
            assert(s[j] == x);
            assert(ins_unique(x, s) =~= s);
        } else {
            assert(seq![s[0]] + (s.skip(1).subrange(0, j - 1) + seq![x] + s.skip(1).subrange(
                j - 1,
                s.skip(1).len() as int,
            )) =~= s.subrange(0, j) + seq![x] + s.subrange(j, s.len() as int));
        }
    }
}

/// Sort strings into lexicographic order, dropping exact duplicates.
pub fn sort_dedup_strings(v: &Vec<String>) -> (r: Vec<String>)
    ensures
        r.deep_view() == sortu(v.deep_view()),
{
    let ghost goal = sortu(v.deep_view());
    let mut r: Vec<String> = Vec::new();
    let mut i: usize = 0;
    while i < v.len()
        invariant
            i <= v.len(),
            sortu_from(v.deep_view(), i as int, r.deep_view()) == goal,
            goal == sortu(v.deep_view()),
        decreases v.len() - i,
    {
        let x = &v[i];
        assert(v.deep_view()[i as int] == x@);
        let mut j: usize = 0;
        while j < r.len() && str_lt(r[j].as_str(), x.as_str())
            invariant
                j <= r.len(),
                forall|k: int| 0 <= k < j ==> lex_lt(#[trigger] r.deep_view()[k], x@),
            decreases r.len() - j,
        {
            j += 1;
        }
        let duplicate: bool = if j < r.len() {
            str_eq(r[j].as_str(), x.as_str())
        } else {
            false
        };
        proof {
            lemma_insu_at_point(x@, r.deep_view(), j as int);
        }
        if !duplicate {
            let mut out: Vec<String> = Vec::new();
            let mut k: usize = 0;
            while k < j
                invariant
                    k <= j,
                    j <= r.len(),
                    out@.len() == k,
                    forall|m: int| 0 <= m < k ==> out@[m] == r@[m],
                decreases j - k,
            {
                out.push(r[k].clone());
                k += 1;
            }
            out.push(x.clone());
            let mut k2: usize = j;
            while k2 < r.len()
                invariant
                    j <= k2 <= r.len(),
                    out@.len() == k2 + 1,
                    forall|m: int| 0 <= m < j ==> out@[m] == r@[m],
                    out@[j as int] == *x,
                    forall|m: int| j < m <= k2 ==> out@[m] == r@[m - 1],
                decreases r.len() - k2,
            {
                out.push(r[k2].clone());
                k2 += 1;
            }
            assert(out.deep_view() =~= ins_unique(x@, r.deep_view())) by {
                assert(ins_unique(x@, r.deep_view()) == r.deep_view().subrange(0, j as int)
                    + seq![x@] + r.deep_view().subrange(j as int, r.deep_view().len() as int));
                assert(forall|m: int|
                    0 <= m < out@.len() ==> out.deep_view()[m] == #[trigger] out@[m]@);
                assert(forall|m: int| 0 <= m < r@.len() ==> r.deep_view()[m] == #[trigger] r@[m]@);
            }
            r = out;
        } else {
            assert(r.deep_view() == ins_unique(x@, r.deep_view()));
        }
        i += 1;
    }
    assert(r.deep_view() == goal);
    r
}

// ---------- substring search ----------

pub open spec fn contains_seq(s: Seq<char>, p: Seq<char>) -> bool {
    exists|i: int| 0 <= i && i + p.len() <= s.len() && #[trigger] s.subrange(i, i + p.len() as int)
        == p
}

fn match_at(s: &Vec<char>, p: &Vec<char>, i: usize) -> (r: bool)
    requires
        i + p@.len() <= s@.len(),
    ensures
        r == (s@.subrange(i as int, i + p@.len() as int) == p@),
{
    let slen: usize = s.len();
    let plen: usize = p.len();
    let mut k: usize = 0;
    while k < plen
        invariant
            k <= plen,
            plen == p@.len(),
            slen == s@.len(),
            i + plen <= slen,
            forall|m: int| 0 <= m < k ==> s@[i + m] == p@[m],
        decreases plen - k,
    {
        if s[i + k] != p[k] {
            assert(s@.subrange(i as int, i + p@.len() as int)[k as int] != p@[k as int]);
            return false;
        }
        k += 1;
    }
    assert(s@.subrange(i as int, i + p@.len() as int) =~= p@);
    true
}

/// Whether `p` occurs as a contiguous substring of `s`.
pub fn contains_sub(s: &str, p: &str) -> (r: bool)
    ensures
        r == contains_seq(s@, p@),
{
    let sv = to_chars(s);
    let pv = to_chars(p);
    if pv.len() > sv.len() {
        assert(!contains_seq(s@, p@));
        return false;
    }
    if pv.len() == 0 {
        assert(s@.subrange(0, 0 + p@.len() as int) =~= p@);
        assert(contains_seq(s@, p@));
        return true;
    }
    let mut i: usize = 0;
    let slen: usize = sv.len();
    let last: usize = slen - pv.len();
    while i <= last
        invariant
            0 <= i <= last + 1,
            last == s@.len() - p@.len(),
            last < slen,
            slen == s@.len(),
            p@.len() >= 1,
            sv@ == s@,
            pv@ == p@,
            forall|j: int|
                0 <= j < i ==> #[trigger] s@.subrange(j, j + p@.len() as int) != p@,
        decreases last + 1 - i,
    {
        if match_at(&sv, &pv, i) {
            proof {
                let j: int = i as int;
                assert(s@.subrange(j, j + p@.len() as int) == p@);
                assert(contains_seq(s@, p@));
            }
            return true;
        }
        i += 1;
    }
    assert(!contains_seq(s@, p@));
    false
}

} // verus!
