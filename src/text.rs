//! Searching and joining text.
use vstd::prelude::*;

verus! {

/// `s` holds `t` at position `i`.
pub open spec fn occurs_at(s: Seq<char>, t: Seq<char>, i: int) -> bool {
    0 <= i && i + t.len() <= s.len() && s.subrange(i, i + t.len()) == t
}

/// `s` holds `t` somewhere.
pub open spec fn has_text(s: Seq<char>, t: Seq<char>) -> bool {
    exists|i: int| #[trigger] occurs_at(s, t, i)
}

fn occurs_at_exec(s: &str, t: &str, i: usize, slen: usize, tlen: usize) -> (r: bool)
    requires
        slen == s@.len(),
        tlen == t@.len(),
        i + tlen <= slen,
    ensures
        r == occurs_at(s@, t@, i as int),
{
    let mut k: usize = 0;
    while k < tlen
        invariant
            slen == s@.len(),
            tlen == t@.len(),
            i + tlen <= slen,
            k <= tlen,
            forall|x: int| 0 <= x < k ==> s@[i + x] == t@[x],
        decreases tlen - k,
    {
        if s.get_char(i + k) != t.get_char(k) {
            assert(s@.subrange(i as int, i + tlen)[k as int] != t@[k as int]);
            return false;
        }
        k = k + 1;
    }
    assert(s@.subrange(i as int, i + tlen) =~= t@);
    true
}

/// Whether `s` holds `t`.
pub fn contains_text(s: &str, t: &str) -> (r: bool)
    ensures
        r == has_text(s@, t@),
{
    let slen = s.unicode_len();
    let tlen = t.unicode_len();
    if tlen > slen {
        return false;
    }
    let last = slen - tlen;
    let mut i: usize = 0;
    while i < last
        invariant
            slen == s@.len(),
            tlen == t@.len(),
            last == slen - tlen,
            i <= last,
            forall|x: int| 0 <= x < i ==> !#[trigger] occurs_at(s@, t@, x),
        decreases last - i,
    {
        if occurs_at_exec(s, t, i, slen, tlen) {
            return true;
        }
        i = i + 1;
    }
    let r = occurs_at_exec(s, t, last, slen, tlen);
    proof {
        if !r {
            assert forall|x: int| !#[trigger] occurs_at(s@, t@, x) by {
                if x > last as int {
                    assert(!(x + t@.len() <= s@.len()));
                }
            }
        }
    }
    r
}

/// Whether `s` begins with `p`.
pub fn starts_with_text(s: &str, p: &str) -> (r: bool)
    ensures
        r == (p@.len() <= s@.len() && s@.subrange(0, p@.len() as int) == p@),
{
    let ls = s.unicode_len();
    let lp = p.unicode_len();
    if lp > ls {
        return false;
    }
    occurs_at_exec(s, p, 0, ls, lp)
}

/// `s` is the text `lit`.
pub fn text_is(s: &str, lit: &str) -> (r: bool)
    ensures
        r == (s@ == lit@),
{
    let n = s.unicode_len();
    if n != lit.unicode_len() {
        return false;
    }
    let r = occurs_at_exec(s, lit, 0, n, n);
    assert(s@.subrange(0, n as int) =~= s@);
    r
}

/// The items separated by a comma and a space.
pub open spec fn join(items: Seq<Seq<char>>) -> Seq<char>
    decreases items.len(),
{
    if items.len() == 0 {
        Seq::empty()
    } else if items.len() == 1 {
        items[0]
    } else {
        join(items.drop_last()) + ", "@ + items.last()
    }
}

/// Appends the items of `items` to `out`, separated by a comma and a space.
pub fn push_joined(out: &mut String, items: &Vec<String>)
    ensures
        final(out)@ == old(out)@ + join(items@.map_values(|s: String| s@)),
{
    let ghost start = out@;
    let ghost names = items@.map_values(|s: String| s@);
    let mut k: usize = 0;
    while k < items.len()
        invariant
            k <= items@.len(),
            names == items@.map_values(|s: String| s@),
            out@ == start + join(names.subrange(0, k as int)),
        decreases items@.len() - k,
    {
        proof {
            assert(names.subrange(0, k + 1).drop_last() =~= names.subrange(0, k as int));
        }
        if k > 0 {
            out.append(", ");
        }
        out.append(items[k].as_str());
        proof {
            if k == 0 {
                assert(join(names.subrange(0, 0)) =~= Seq::<char>::empty());
            }
        }
        k = k + 1;
    }
    assert(names.subrange(0, k as int) =~= names);
}

/// `a` sorts before `b`, comparing from position `i` on, character by character: the
/// order of `String`'s `Ord`, which compares the UTF-8 bytes, that is the code points.
pub open spec fn text_lt_at(a: Seq<char>, b: Seq<char>, i: nat) -> bool
    decreases a.len() - i,
{
    if i >= a.len() {
        i < b.len()
    } else if i >= b.len() {
        false
    } else if a[i as int] != b[i as int] {
        a[i as int] < b[i as int]
    } else {
        text_lt_at(a, b, i + 1)
    }
}

pub open spec fn text_lt(a: Seq<char>, b: Seq<char>) -> bool {
    text_lt_at(a, b, 0)
}

/// Two texts that agree before `i` are equal or one sorts before the other, never both.
pub proof fn lemma_text_order(a: Seq<char>, b: Seq<char>, i: nat)
    requires
        i <= a.len(),
        i <= b.len(),
        a.subrange(0, i as int) == b.subrange(0, i as int),
    ensures
        text_lt_at(a, b, i) || text_lt_at(b, a, i) || a == b,
        !(text_lt_at(a, b, i) && text_lt_at(b, a, i)),
        !text_lt_at(a, a, i),
    decreases a.len() - i,
{
    if i < a.len() && i < b.len() {
        if a[i as int] == b[i as int] {
            assert(a.subrange(0, (i + 1) as int) =~= a.subrange(0, i as int).push(a[i as int]));
            assert(b.subrange(0, (i + 1) as int) =~= b.subrange(0, i as int).push(b[i as int]));
            lemma_text_order(a, b, (i + 1) as nat);
        }
        lemma_text_order(a, a, (i + 1) as nat);
    } else {
        if i == a.len() && i == b.len() {
            assert(a =~= a.subrange(0, i as int));
            assert(b =~= b.subrange(0, i as int));
        }
    }
    if i < a.len() {
        assert(a.subrange(0, (i + 1) as int) =~= a.subrange(0, i as int).push(a[i as int]));
        lemma_text_order(a, a, (i + 1) as nat);
    }
}

/// Two texts are equal or one sorts before the other, never both.
pub proof fn lemma_text_total(a: Seq<char>, b: Seq<char>)
    ensures
        text_lt(a, b) || text_lt(b, a) || a == b,
        !(text_lt(a, b) && text_lt(b, a)),
        !text_lt(a, a),
{
    assert(a.subrange(0, 0) =~= b.subrange(0, 0));
    lemma_text_order(a, b, 0);
}

/// The order is transitive.
pub proof fn lemma_text_lt_trans(a: Seq<char>, b: Seq<char>, c: Seq<char>, i: nat)
    requires
        text_lt_at(a, b, i),
        text_lt_at(b, c, i),
    ensures
        text_lt_at(a, c, i),
    decreases a.len() - i,
{
    if i < a.len() && i < b.len() && i < c.len() && a[i as int] == b[i as int] && b[i as int] == c[i as int] {
        lemma_text_lt_trans(a, b, c, (i + 1) as nat);
    }
}

/// Whether `a` sorts before `b`.
pub fn text_less(a: &str, b: &str) -> (r: bool)
    ensures
        r == text_lt(a@, b@),
{
    let la = a.unicode_len();
    let lb = b.unicode_len();
    let mut i: usize = 0;
    while i < la && i < lb
        invariant
            la == a@.len(),
            lb == b@.len(),
            i <= la,
            i <= lb,
            text_lt(a@, b@) == text_lt_at(a@, b@, i as nat),
        decreases la - i,
    {
        let x = a.get_char(i);
        let y = b.get_char(i);
        if x != y {
            return x < y;
        }
        i = i + 1;
    }
    i < lb && i >= la
}

} // verus!
