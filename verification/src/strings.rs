//! Verified string helpers: decimal numerals, delimiter sanitization,
//! joining with a separator, and lexicographic ordering and sorting.

use vstd::prelude::*;
use vstd::string::StrSliceExecFns;
use vstd::string::StringExecFns;

verus! {

/// Relies on String::push: appends the given character to the end of the
/// string.
#[verifier::external_body]
pub(crate) fn push_char(s: &mut String, c: char)
    ensures
        final(s)@ == old(s)@.push(c),
{
    s.push(c);
}

/// The character of one decimal digit.
pub open spec fn dec_digit(d: int) -> char
    recommends
        0 <= d <= 9,
{
    ((d + 48) as u8) as char
}

/// The decimal numeral of a number, most significant digit first.
pub open spec fn spec_dec_str(n: int) -> Seq<char>
    recommends
        n >= 0,
    decreases n,
{
    if n < 10 {
        seq![dec_digit(n)]
    } else {
        spec_dec_str(n / 10).push(dec_digit(n % 10))
    }
}

/// Format a number as its decimal numeral.
pub fn usize_to_string(n: usize) -> (s: String)
    ensures
        s@ == spec_dec_str(n as int),
    decreases n,
{
    if n < 10 {
        let mut s = String::new();
        push_char(&mut s, ((n as u8) + 48) as char);
        proof {
            assert(s@ =~= seq![dec_digit(n as int)]);
        }
        s
    } else {
        let mut s = usize_to_string(n / 10);
        push_char(&mut s, (((n % 10) as u8) + 48) as char);
        s
    }
}

pub open spec fn is_dec_digit(c: char) -> bool {
    48 <= c as int <= 57
}

pub open spec fn digit_val(c: char) -> int {
    c as int - 48
}

pub open spec fn all_dec_digits(s: Seq<char>) -> bool {
    forall|i: int| 0 <= i < s.len() ==> is_dec_digit(#[trigger] s[i])
}

/// The number a sequence of decimal digits denotes.
pub open spec fn digits_val(s: Seq<char>) -> int
    decreases s.len(),
{
    if s.len() == 0 {
        0
    } else {
        digits_val(s.drop_last()) * 10 + digit_val(s.last())
    }
}

/// A digit numeral denotes a non-negative number.
pub proof fn lemma_digits_val_nonneg(s: Seq<char>)
    requires
        all_dec_digits(s),
    ensures
        digits_val(s) >= 0,
    decreases s.len(),
{
    if s.len() > 0 {
        assert(all_dec_digits(s.drop_last()));
        lemma_digits_val_nonneg(s.drop_last());
    }
}

/// A digit numeral denotes at least what any of its prefixes denotes.
pub proof fn lemma_digits_val_prefix_le(s: Seq<char>, j: int)
    requires
        all_dec_digits(s),
        0 <= j <= s.len(),
    ensures
        digits_val(s.take(j)) <= digits_val(s),
    decreases s.len() - j,
{
    if j < s.len() {
        lemma_digits_val_prefix_le(s, j + 1);
        let t = s.take(j + 1);
        assert(t.drop_last() =~= s.take(j));
        assert(all_dec_digits(s.take(j)));
        lemma_digits_val_nonneg(s.take(j));
        assert(digits_val(t) == digits_val(s.take(j)) * 10 + digit_val(t.last()));
    } else {
        assert(s.take(j) =~= s);
    }
}

/// The number a decimal numeral denotes: an optional leading plus sign,
/// then at least one digit; `None` on anything else or when the number
/// does not fit the machine word.
pub open spec fn spec_parse_usize(s: Seq<char>) -> Option<usize> {
    let body = if s.len() >= 1 && s[0] == '+' {
        s.drop_first()
    } else {
        s
    };
    if body.len() == 0 || !all_dec_digits(body) {
        None
    } else if digits_val(body) > usize::MAX as int {
        None
    } else {
        Some(digits_val(body) as usize)
    }
}

/// Parse a decimal numeral.
pub fn parse_usize(s: &str) -> (r: Option<usize>)
    ensures
        r == spec_parse_usize(s@),
{
    let n = s.unicode_len();
    let start: usize = if n > 0 && s.get_char(0) == '+' {
        1
    } else {
        0
    };
    let ghost body = if s@.len() >= 1 && s@[0] == '+' {
        s@.drop_first()
    } else {
        s@
    };
    proof {
        assert(body =~= s@.subrange(start as int, n as int));
    }
    if start >= n {
        return None;
    }
    let mut i: usize = start;
    let mut acc: u128 = 0;
    while i < n
        invariant
            start <= i <= n,
            start < n,
            n == s@.len(),
            body == s@.subrange(start as int, n as int),
            body == (if s@.len() >= 1 && s@[0] == '+' {
                s@.drop_first()
            } else {
                s@
            }),
            all_dec_digits(s@.subrange(start as int, i as int)),
            acc == digits_val(s@.subrange(start as int, i as int)),
            acc <= usize::MAX as u128,
        decreases n - i,
    {
        let ghost done = s@.subrange(start as int, i as int);
        let c = s.get_char(i);
        let cv = c as u32;
        proof {
            assert(s@.subrange(start as int, i as int + 1).drop_last() =~= done);
            assert(s@.subrange(start as int, i as int + 1).last() == s@[i as int]);
        }
        if cv < 48 || cv > 57 {
            proof {
                assert(body[i - start] == s@[i as int]);
                assert(!is_dec_digit(body[i - start]));
                assert(!all_dec_digits(body));
            }
            return None;
        }
        acc = acc * 10 + ((cv - 48) as u128);
        proof {
            assert(acc == digits_val(s@.subrange(start as int, i as int + 1)));
        }
        if acc > usize::MAX as u128 {
            proof {
                let pre = s@.subrange(start as int, i as int + 1);
                assert(pre =~= body.take(i as int + 1 - start));
                if all_dec_digits(body) {
                    lemma_digits_val_prefix_le(body, i as int + 1 - start);
                    assert(digits_val(body) > usize::MAX as int);
                }
            }
            return None;
        }
        i += 1;
    }
    proof {
        assert(s@.subrange(start as int, n as int) =~= body);
        lemma_digits_val_nonneg(body);
    }
    Some(acc as usize)
}

/// The sequence with every comma replaced by a semicolon, so a field never
/// collides with the report's delimiter.
pub open spec fn spec_sanitize(s: Seq<char>) -> Seq<char> {
    s.map(|i: int, c: char| if c == ',' { ';' } else { c })
}

/// Replace every comma with a semicolon.
pub fn sanitize(s: &str) -> (r: String)
    ensures
        r@ == spec_sanitize(s@),
{
    let n = s.unicode_len();
    let mut r = String::new();
    proof {
        assert(r@ =~= spec_sanitize(s@.take(0)));
    }
    let mut i: usize = 0;
    while i < n
        invariant
            i <= n,
            n == s@.len(),
            r@ == spec_sanitize(s@.take(i as int)),
        decreases n - i,
    {
        let c = s.get_char(i);
        if c == ',' {
            push_char(&mut r, ';');
        } else {
            push_char(&mut r, c);
        }
        proof {
            assert(r@ =~= spec_sanitize(s@.take(i as int + 1)));
        }
        i += 1;
    }
    proof {
        assert(s@.take(n as int) =~= s@);
    }
    r
}

/// The parts joined with the separator between neighbours.
pub open spec fn spec_join(parts: Seq<Seq<char>>, sep: Seq<char>) -> Seq<char>
    decreases parts.len(),
{
    if parts.len() == 0 {
        Seq::empty()
    } else if parts.len() == 1 {
        parts[0]
    } else {
        spec_join(parts.drop_last(), sep) + sep + parts.last()
    }
}

/// Join the parts with the separator between neighbours.
pub fn join_with(parts: &Vec<String>, sep: &str) -> (r: String)
    ensures
        r@ == spec_join(parts@.map(|i: int, s: String| s@), sep@),
{
    let ghost models = parts@.map(|i: int, s: String| s@);
    let mut r = String::new();
    proof {
        assert(models.take(0) =~= Seq::<Seq<char>>::empty());
        assert(r@ =~= spec_join(models.take(0), sep@));
    }
    let mut i: usize = 0;
    while i < parts.len()
        invariant
            i <= parts@.len(),
            models == parts@.map(|i: int, s: String| s@),
            r@ == spec_join(models.take(i as int), sep@),
        decreases parts@.len() - i,
    {
        proof {
            assert(models.take(i as int + 1).drop_last() =~= models.take(i as int));
            assert(models.take(i as int + 1).last() == models[i as int]);
        }
        if i > 0 {
            r.append(sep);
        }
        let p = &parts[i];
        proof {
            assert(p@ == models[i as int]);
        }
        r.append(p.as_str());
        i += 1;
    }
    proof {
        assert(models.take(parts@.len() as int) =~= models);
    }
    r
}

/// Copy a vector of strings, value for value.
pub fn clone_strings(v: &Vec<String>) -> (r: Vec<String>)
    ensures
        r@ == v@,
{
    let mut r: Vec<String> = Vec::new();
    let mut i: usize = 0;
    proof {
        assert(r@ =~= v@.take(0));
    }
    while i < v.len()
        invariant
            i <= v@.len(),
            r@ == v@.take(i as int),
        decreases v@.len() - i,
    {
        r.push(v[i].clone());
        proof {
            assert(r@ =~= v@.take(i as int + 1));
        }
        i += 1;
    }
    proof {
        assert(v@.take(v@.len() as int) =~= v@);
    }
    r
}

/// Lexicographic order on character sequences, by code point.
pub open spec fn lex_le(a: Seq<char>, b: Seq<char>) -> bool
    decreases a.len(),
{
    if a.len() == 0 {
        true
    } else if b.len() == 0 {
        false
    } else if a[0] == b[0] {
        lex_le(a.drop_first(), b.drop_first())
    } else {
        (a[0] as int) < (b[0] as int)
    }
}

/// Compare two strings lexicographically by code point.
pub fn str_le(a: &str, b: &str) -> (r: bool)
    ensures
        r == lex_le(a@, b@),
{
    let na = a.unicode_len();
    let nb = b.unicode_len();
    let mut i: usize = 0;
    proof {
        assert(a@.skip(0) =~= a@);
        assert(b@.skip(0) =~= b@);
    }
    while i < na && i < nb
        invariant
            i <= na,
            i <= nb,
            na == a@.len(),
            nb == b@.len(),
            lex_le(a@, b@) == lex_le(a@.skip(i as int), b@.skip(i as int)),
        decreases na - i,
    {
        let ca = a.get_char(i);
        let cb = b.get_char(i);
        proof {
            assert(a@.skip(i as int)[0] == a@[i as int]);
            assert(b@.skip(i as int)[0] == b@[i as int]);
            assert(a@.skip(i as int).drop_first() =~= a@.skip(i as int + 1));
            assert(b@.skip(i as int).drop_first() =~= b@.skip(i as int + 1));
        }
        if ca == cb {
            i += 1;
        } else {
            return (ca as u32) < (cb as u32);
        }
    }
    na <= nb
}

/// Insert a string into a sequence from the right, before every member
/// that is strictly greater; on a sorted sequence this keeps it sorted and
/// places the newcomer after its equals.
pub open spec fn lex_insert(s: Seq<Seq<char>>, x: Seq<char>) -> Seq<Seq<char>>
    decreases s.len(),
{
    if s.len() == 0 {
        seq![x]
    } else if lex_le(s.last(), x) {
        s.push(x)
    } else {
        lex_insert(s.drop_last(), x).push(s.last())
    }
}

/// Insertion sort, left to right: the unique stable lexicographic sort.
pub open spec fn spec_sort_strs(s: Seq<Seq<char>>) -> Seq<Seq<char>>
    decreases s.len(),
{
    if s.len() == 0 {
        Seq::empty()
    } else {
        lex_insert(spec_sort_strs(s.drop_last()), s.last())
    }
}

/// Inserting grows the sequence by one.
pub proof fn lemma_lex_insert_len(s: Seq<Seq<char>>, x: Seq<char>)
    ensures
        lex_insert(s, x).len() == s.len() + 1,
    decreases s.len(),
{
    if s.len() > 0 && !lex_le(s.last(), x) {
        lemma_lex_insert_len(s.drop_last(), x);
    }
}

/// Sorting keeps the length.
pub proof fn lemma_sort_strs_len(s: Seq<Seq<char>>)
    ensures
        spec_sort_strs(s).len() == s.len(),
    decreases s.len(),
{
    if s.len() > 0 {
        lemma_sort_strs_len(s.drop_last());
        lemma_lex_insert_len(spec_sort_strs(s.drop_last()), s.last());
    }
}

/// The order is total: of two strings, one is at most the other.
pub proof fn lemma_lex_le_total(a: Seq<char>, b: Seq<char>)
    ensures
        lex_le(a, b) || lex_le(b, a),
    decreases a.len(),
{
    if a.len() > 0 && b.len() > 0 && a[0] == b[0] {
        lemma_lex_le_total(a.drop_first(), b.drop_first());
    }
}

/// The order is transitive.
pub proof fn lemma_lex_le_trans(a: Seq<char>, b: Seq<char>, c: Seq<char>)
    requires
        lex_le(a, b),
        lex_le(b, c),
    ensures
        lex_le(a, c),
    decreases a.len(),
{
    if a.len() > 0 && b.len() > 0 && c.len() > 0 && a[0] == b[0] && b[0] == c[0] {
        lemma_lex_le_trans(a.drop_first(), b.drop_first(), c.drop_first());
    }
}

/// Every string is at most itself.
pub proof fn lemma_lex_le_refl(a: Seq<char>)
    ensures
        lex_le(a, a),
    decreases a.len(),
{
    if a.len() > 0 {
        lemma_lex_le_refl(a.drop_first());
    }
}

/// The strings come in lexicographic order.
pub open spec fn lex_sorted(s: Seq<Seq<char>>) -> bool {
    forall|i: int, j: int| 0 <= i < j < s.len() ==> lex_le(s[i], s[j])
}

/// What insertion adds is the newcomer; everything else was a member.
proof fn lemma_lex_insert_elems(s: Seq<Seq<char>>, x: Seq<char>)
    ensures
        forall|i: int|
            0 <= i < lex_insert(s, x).len() ==> lex_insert(s, x)[i] == x || s.contains(
                #[trigger] lex_insert(s, x)[i],
            ),
    decreases s.len(),
{
    if s.len() > 0 && !lex_le(s.last(), x) {
        lemma_lex_insert_elems(s.drop_last(), x);
        let r0 = lex_insert(s.drop_last(), x);
        assert forall|i: int|
            0 <= i < r0.push(s.last()).len() implies r0.push(s.last())[i] == x || s.contains(
            #[trigger] r0.push(s.last())[i],
        ) by {
            if i < r0.len() {
                assert(r0.push(s.last())[i] == r0[i]);
                if r0[i] != x {
                    let j = choose|j: int| 0 <= j < s.drop_last().len() && s.drop_last()[j]
                        == r0[i];
                    assert(s[j] == r0[i]);
                }
            } else {
                assert(s.contains(s.last()));
            }
        }
    }
}

/// Inserting into a sorted sequence keeps it sorted.
proof fn lemma_lex_insert_sorted(s: Seq<Seq<char>>, x: Seq<char>)
    requires
        lex_sorted(s),
    ensures
        lex_sorted(lex_insert(s, x)),
    decreases s.len(),
{
    if s.len() == 0 {
    } else if lex_le(s.last(), x) {
        let r = s.push(x);
        assert forall|i: int, j: int| 0 <= i < j < r.len() implies lex_le(r[i], r[j]) by {
            if j == s.len() {
                assert(r[i] == s[i]);
                if i < s.len() - 1 {
                    lemma_lex_le_trans(s[i], s.last(), x);
                }
            }
        }
    } else {
        assert(lex_sorted(s.drop_last()));
        lemma_lex_insert_sorted(s.drop_last(), x);
        lemma_lex_insert_elems(s.drop_last(), x);
        let r0 = lex_insert(s.drop_last(), x);
        lemma_lex_le_total(s.last(), x);
        let r = r0.push(s.last());
        assert forall|i: int, j: int| 0 <= i < j < r.len() implies lex_le(r[i], r[j]) by {
            if j == r0.len() {
                assert(r[i] == r0[i]);
                if r0[i] == x {
                    assert(lex_le(x, s.last()));
                } else {
                    let k = choose|k: int| 0 <= k < s.drop_last().len() && s.drop_last()[k]
                        == r0[i];
                    assert(s[k] == r0[i]);
                    assert(lex_le(s[k], s.last()));
                }
            }
        }
    }
}

/// Insertion adds exactly the newcomer to the members.
proof fn lemma_lex_insert_multiset(s: Seq<Seq<char>>, x: Seq<char>)
    ensures
        lex_insert(s, x).to_multiset() == s.to_multiset().insert(x),
    decreases s.len(),
{
    broadcast use vstd::seq_lib::group_to_multiset_ensures;

    if s.len() == 0 {
        assert(seq![x] =~= Seq::<Seq<char>>::empty().push(x));
        assert(lex_insert(s, x).to_multiset() =~= s.to_multiset().insert(x));
    } else if lex_le(s.last(), x) {
    } else {
        lemma_lex_insert_multiset(s.drop_last(), x);
        assert(s.drop_last().push(s.last()) =~= s);
        assert(lex_insert(s, x).to_multiset() =~= s.to_multiset().insert(x));
    }
}

/// Law: the sorted peer list is ordered lexicographically and holds
/// exactly the same members as the unsorted one, each as often.
pub proof fn lemma_sort_strs_sorted_permutation(s: Seq<Seq<char>>)
    ensures
        lex_sorted(spec_sort_strs(s)),
        spec_sort_strs(s).to_multiset() == s.to_multiset(),
    decreases s.len(),
{
    broadcast use vstd::seq_lib::group_to_multiset_ensures;

    if s.len() > 0 {
        lemma_sort_strs_sorted_permutation(s.drop_last());
        lemma_lex_insert_sorted(spec_sort_strs(s.drop_last()), s.last());
        lemma_lex_insert_multiset(spec_sort_strs(s.drop_last()), s.last());
        assert(s.drop_last().push(s.last()) =~= s);
        assert(spec_sort_strs(s).to_multiset() =~= s.to_multiset());
    }
}

/// Where the scan for the insertion point stops, that is what
/// `lex_insert` produces.
proof fn lemma_lex_insert_at(s: Seq<Seq<char>>, x: Seq<char>, p: int)
    requires
        0 <= p <= s.len(),
        forall|j: int| p <= j < s.len() ==> !lex_le(#[trigger] s[j], x),
        p > 0 ==> lex_le(s[p - 1], x),
    ensures
        lex_insert(s, x) == s.take(p) + seq![x] + s.skip(p),
    decreases s.len(),
{
    if s.len() == 0 {
        assert(lex_insert(s, x) =~= s.take(p) + seq![x] + s.skip(p));
    } else if lex_le(s.last(), x) {
        assert(p == s.len());
        assert(s.take(p) =~= s);
        assert(lex_insert(s, x) =~= s.take(p) + seq![x] + s.skip(p));
    } else {
        assert(p < s.len());
        assert forall|j: int| p <= j < s.drop_last().len() implies !lex_le(
            #[trigger] s.drop_last()[j],
            x,
        ) by {
            assert(s.drop_last()[j] == s[j]);
        }
        if p > 0 {
            assert(s.drop_last()[p - 1] == s[p - 1]);
        }
        lemma_lex_insert_at(s.drop_last(), x, p);
        assert(lex_insert(s, x) =~= s.take(p) + seq![x] + s.skip(p));
    }
}

/// Whether the scan for an insertion point must step further left.
fn scan_gt(out: &Vec<String>, p: usize, x: &String) -> (r: bool)
    requires
        1 <= p <= out@.len(),
    ensures
        r == !lex_le(out@[p as int - 1]@, x@),
{
    let prev = &out[p - 1];
    !str_le(prev.as_str(), x.as_str())
}

/// Insert a string into an already sorted vector at its place.
fn insert_string(out: &mut Vec<String>, x: String)
    ensures
        final(out)@.map(|i: int, s: String| s@) == lex_insert(
            old(out)@.map(|i: int, s: String| s@),
            x@,
        ),
{
    let ghost m = out@.map(|i: int, s: String| s@);
    let mut p: usize = out.len();
    while p > 0 && scan_gt(out, p, &x)
        invariant
            p <= m.len(),
            m == out@.map(|i: int, s: String| s@),
            forall|j: int| p <= j < m.len() ==> !lex_le(#[trigger] m[j], x@),
        decreases p,
    {
        p -= 1;
    }
    proof {
        lemma_lex_insert_at(m, x@, p as int);
    }
    out.insert(p, x);
    proof {
        assert(out@.map(|i: int, s: String| s@) =~= m.take(p as int) + seq![x@] + m.skip(
            p as int,
        ));
    }
}

/// Sort strings lexicographically by code point, stably.
pub fn sort_strings(v: Vec<String>) -> (r: Vec<String>)
    ensures
        r@.map(|i: int, s: String| s@) == spec_sort_strs(v@.map(|i: int, s: String| s@)),
{
    let ghost models = v@.map(|i: int, s: String| s@);
    let mut out: Vec<String> = Vec::new();
    proof {
        assert(models.take(0) =~= Seq::<Seq<char>>::empty());
        assert(out@.map(|i: int, s: String| s@) =~= spec_sort_strs(models.take(0)));
    }
    let mut i: usize = 0;
    while i < v.len()
        invariant
            i <= v@.len(),
            models == v@.map(|i: int, s: String| s@),
            out@.map(|j: int, s: String| s@) == spec_sort_strs(models.take(i as int)),
        decreases v@.len() - i,
    {
        proof {
            assert(models.take(i as int + 1).drop_last() =~= models.take(i as int));
            assert(models.take(i as int + 1).last() == models[i as int]);
        }
        let item = v[i].clone();
        proof {
            assert(item@ == models[i as int]);
        }
        insert_string(&mut out, item);
        i += 1;
    }
    proof {
        assert(models.take(v@.len() as int) =~= models);
    }
    out
}

} // verus!
