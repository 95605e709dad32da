//! The canonical block of `x-oss-` headers: filtered, stably sorted by name
//! and rendered one `name:value` line each.

use vstd::prelude::*;

verus! {

/// A header as text: its name and its value.
pub type HeaderText = (Seq<char>, Seq<char>);

/// The text of a list of headers held as pairs of strings.
pub open spec fn texts(v: Seq<(String, String)>) -> Seq<HeaderText> {
    v.map_values(|p: (String, String)| (p.0@, p.1@))
}

pub open spec fn oss_marker() -> Seq<char> {
    seq!['x', '-', 'o', 's', 's', '-']
}

pub open spec fn occurs_at(s: Seq<char>, p: Seq<char>, i: int) -> bool {
    0 <= i && i + p.len() <= s.len() && s.subrange(i, i + p.len()) == p
}

/// A name takes part in signing when `x-oss-` occurs anywhere in it.
pub open spec fn is_oss_name(n: Seq<char>) -> bool {
    exists|i: int| occurs_at(n, oss_marker(), i)
}

/// Lexicographic order on names, character by character.
pub open spec fn name_le(a: Seq<char>, b: Seq<char>) -> bool
    decreases a.len(),
{
    if a.len() == 0 {
        true
    } else if b.len() == 0 {
        false
    } else if a[0] as u32 != b[0] as u32 {
        (a[0] as u32) < (b[0] as u32)
    } else {
        name_le(a.drop_first(), b.drop_first())
    }
}

/// The headers whose name takes part in signing, in their order.
pub open spec fn oss_only(s: Seq<HeaderText>) -> Seq<HeaderText>
    decreases s.len(),
{
    if s.len() == 0 {
        s
    } else if is_oss_name(s.last().0) {
        oss_only(s.drop_last()).push(s.last())
    } else {
        oss_only(s.drop_last())
    }
}

/// `e` placed after every header of `t` whose name is not greater than its own.
pub open spec fn insert_by_name(t: Seq<HeaderText>, e: HeaderText) -> Seq<HeaderText>
    decreases t.len(),
{
    if t.len() == 0 {
        seq![e]
    } else if name_le(t.last().0, e.0) {
        t.push(e)
    } else {
        insert_by_name(t.drop_last(), e).push(t.last())
    }
}

/// The stable sort of `s` by name: headers of one name keep their order.
pub open spec fn sort_by_name(s: Seq<HeaderText>) -> Seq<HeaderText>
    decreases s.len(),
{
    if s.len() == 0 {
        s
    } else {
        insert_by_name(sort_by_name(s.drop_last()), s.last())
    }
}

/// One `name:value` line per header, in order.
pub open spec fn render(s: Seq<HeaderText>) -> Seq<char>
    decreases s.len(),
{
    if s.len() == 0 {
        Seq::empty()
    } else {
        render(s.drop_last()) + s.last().0 + seq![':'] + s.last().1 + seq!['\n']
    }
}

/// The block of signed headers that a list of headers gives.
pub open spec fn header_block(s: Seq<HeaderText>) -> Seq<char> {
    render(sort_by_name(oss_only(s)))
}

/// Whether `x-oss-` occurs in `name`.
pub fn is_oss_header_name(name: &str) -> (r: bool)
    ensures
        r == is_oss_name(name@),
{
    let n = name.unicode_len();
    if n < 6 {
        assert forall|j: int| !occurs_at(name@, oss_marker(), j) by {}
        return false;
    }
    let mut i: usize = 0;
    while i <= n - 6
        invariant
            n == name@.len(),
            n >= 6,
            forall|j: int| 0 <= j < i ==> !occurs_at(name@, oss_marker(), j),
        decreases n - i,
    {
        if name.get_char(i) == 'x' && name.get_char(i + 1) == '-' && name.get_char(i + 2) == 'o'
            && name.get_char(i + 3) == 's' && name.get_char(i + 4) == 's' && name.get_char(i + 5)
            == '-' {
            assert(name@.subrange(i as int, i + 6) =~= oss_marker());
            assert(occurs_at(name@, oss_marker(), i as int));
            return true;
        }
        assert(!occurs_at(name@, oss_marker(), i as int)) by {
            if occurs_at(name@, oss_marker(), i as int) {
                let s = name@.subrange(i as int, i + 6);
                assert(s[0] == name@[i as int]);
                assert(s[5] == name@[i + 5]);
            }
        }
        i = i + 1;
    }
    assert forall|j: int| !occurs_at(name@, oss_marker(), j) by {
        if 0 <= j && j >= i {
            assert(j + 6 > n);
        }
    }
    false
}

/// Whether name `a` sorts before or equal to name `b`.
pub fn name_le_exec(a: &str, b: &str) -> (r: bool)
    ensures
        r == name_le(a@, b@),
{
    let na = a.unicode_len();
    let nb = b.unicode_len();
    let mut i: usize = 0;
    assert(a@.subrange(0, na as int) =~= a@);
    assert(b@.subrange(0, nb as int) =~= b@);
    while i < na && i < nb
        invariant
            na == a@.len(),
            nb == b@.len(),
            i <= na,
            i <= nb,
            name_le(a@, b@) == name_le(a@.subrange(i as int, na as int), b@.subrange(i as int, nb as int)),
        decreases na - i,
    {
        let ca = a.get_char(i);
        let cb = b.get_char(i);
        let ghost sa = a@.subrange(i as int, na as int);
        let ghost sb = b@.subrange(i as int, nb as int);
        assert(sa[0] == ca && sb[0] == cb);
        if ca as u32 != cb as u32 {
            return (ca as u32) < (cb as u32);
        }
        assert(sa.drop_first() =~= a@.subrange(i + 1, na as int));
        assert(sb.drop_first() =~= b@.subrange(i + 1, nb as int));
        i = i + 1;
    }
    i == na
}

/// The headers of `entries` whose name holds `x-oss-`, in their order.
pub fn oss_headers(entries: &Vec<(String, String)>) -> (r: Vec<(String, String)>)
    ensures
        texts(r@) == oss_only(texts(entries@)),
{
    let mut r: Vec<(String, String)> = Vec::new();
    let mut i: usize = 0;
    while i < entries.len()
        invariant
            i <= entries@.len(),
            texts(r@) == oss_only(texts(entries@.subrange(0, i as int))),
        decreases entries@.len() - i,
    {
        let ghost before = entries@.subrange(0, i as int);
        let ghost after = entries@.subrange(0, i + 1);
        assert(texts(after).drop_last() =~= texts(before));
        assert(texts(after).last() == (entries@[i as int].0@, entries@[i as int].1@));
        let ghost old_r = r@;
        if is_oss_header_name(entries[i].0.as_str()) {
            r.push((entries[i].0.clone(), entries[i].1.clone()));
            assert(texts(r@) =~= texts(old_r).push(texts(after).last()));
        }
        i = i + 1;
    }
    assert(entries@.subrange(0, entries@.len() as int) =~= entries@);
    r
}

/// `entries` stably sorted by name.
pub fn sort_headers(entries: &Vec<(String, String)>) -> (r: Vec<(String, String)>)
    ensures
        texts(r@) == sort_by_name(texts(entries@)),
{
    let mut out: Vec<(String, String)> = Vec::new();
    let mut i: usize = 0;
    while i < entries.len()
        invariant
            i <= entries@.len(),
            texts(out@) == sort_by_name(texts(entries@.subrange(0, i as int))),
        decreases entries@.len() - i,
    {
        let e = (entries[i].0.clone(), entries[i].1.clone());
        let ghost ev: HeaderText = (e.0@, e.1@);
        let ghost t = texts(out@);
        let mut k: usize = out.len();
        assert(t.subrange(0, t.len() as int) =~= t);
        assert(t.subrange(t.len() as int, t.len() as int) =~= Seq::<HeaderText>::empty());
        loop
            invariant
                out@.len() == t.len(),
                texts(out@) == t,
                ev == (e.0@, e.1@),
                k <= t.len(),
                insert_by_name(t, ev) == insert_by_name(t.subrange(0, k as int), ev) + t.subrange(k as int, t.len() as int),
            ensures
                k <= t.len(),
                insert_by_name(t, ev) == insert_by_name(t.subrange(0, k as int), ev) + t.subrange(k as int, t.len() as int),
                k == 0 || name_le(t[k - 1].0, ev.0),
            decreases k,
        {
            if k == 0 {
                break;
            }
            assert(t[k - 1] == (out@[k - 1].0@, out@[k - 1].1@));
            let le = name_le_exec(out[k - 1].0.as_str(), e.0.as_str());
            assert(le == name_le(t[k - 1].0, ev.0));
            if le {
                break;
            }
            let ghost pre = t.subrange(0, k as int);
            assert(pre.drop_last() =~= t.subrange(0, k - 1));
            assert(pre.last() == t[k - 1]);
            assert(pre.len() > 0);
            assert(insert_by_name(pre, ev) == insert_by_name(t.subrange(0, k - 1), ev).push(t[k - 1]));
            assert(insert_by_name(t.subrange(0, k - 1), ev).push(t[k - 1]) + t.subrange(k as int, t.len() as int)
                =~= insert_by_name(t.subrange(0, k - 1), ev) + t.subrange(k - 1, t.len() as int));
            k = k - 1;
        }
        proof {
            let pre = t.subrange(0, k as int);
            if k == 0 {
                assert(pre =~= Seq::<HeaderText>::empty());
            } else {
                assert(pre.last() == t[k - 1]);
            }
            assert(insert_by_name(pre, ev) == pre.push(ev));
        }
        out.insert(k, e);
        proof {
            assert(texts(out@) =~= t.subrange(0, k as int).push(ev) + t.subrange(k as int, t.len() as int));
            let before = entries@.subrange(0, i as int);
            let after = entries@.subrange(0, i + 1);
            assert(texts(after).drop_last() =~= texts(before));
            assert(texts(after).last() == ev);
        }
        i = i + 1;
    }
    assert(entries@.subrange(0, entries@.len() as int) =~= entries@);
    out
}

/// One `name:value` line per header of `entries`, in order.
pub fn render_headers(entries: &Vec<(String, String)>) -> (r: String)
    ensures
        r@ == render(texts(entries@)),
{
    let mut r = String::new();
    let mut i: usize = 0;
    while i < entries.len()
        invariant
            i <= entries@.len(),
            r@ == render(texts(entries@.subrange(0, i as int))),
        decreases entries@.len() - i,
    {
        let ghost before = entries@.subrange(0, i as int);
        let ghost after = entries@.subrange(0, i + 1);
        assert(texts(after).drop_last() =~= texts(before));
        assert(texts(after).last() == (entries@[i as int].0@, entries@[i as int].1@));
        r.append(entries[i].0.as_str());
        r.append(":");
        r.append(entries[i].1.as_str());
        r.append("\n");
        proof {
            reveal_strlit(":");
            reveal_strlit("\n");
        }
        assert(":"@ =~= seq![':']);
        assert("\n"@ =~= seq!['\n']);
        assert(r@ =~= render(texts(after)));
        i = i + 1;
    }
    assert(entries@.subrange(0, entries@.len() as int) =~= entries@);
    r
}

/// The canonical block of signed headers of `entries`.
pub fn canonical_headers(entries: &Vec<(String, String)>) -> (r: String)
    ensures
        r@ == header_block(texts(entries@)),
{
    let oss = oss_headers(entries);
    let sorted = sort_headers(&oss);
    render_headers(&sorted)
}

/// Every header that `oss_only` keeps has a name holding `x-oss-`.
proof fn lemma_oss_only_names(s: Seq<HeaderText>)
    ensures
        forall|j: int| 0 <= j < oss_only(s).len() ==> is_oss_name(#[trigger] oss_only(s)[j].0),
    decreases s.len(),
{
    if s.len() > 0 {
        let r = oss_only(s.drop_last());
        lemma_oss_only_names(s.drop_last());
        if is_oss_name(s.last().0) {
            assert forall|j: int| 0 <= j < oss_only(s).len() implies is_oss_name(
                #[trigger] oss_only(s)[j].0,
            ) by {
                if j < r.len() {
                    assert(oss_only(s)[j] == r[j]);
                }
            }
        }
    }
}

/// Inserting a header with an `x-oss-` name among such headers keeps them all such.
proof fn lemma_insert_keeps_oss_names(t: Seq<HeaderText>, e: HeaderText)
    requires
        forall|j: int| 0 <= j < t.len() ==> is_oss_name(#[trigger] t[j].0),
        is_oss_name(e.0),
    ensures
        forall|j: int|
            0 <= j < insert_by_name(t, e).len() ==> is_oss_name(#[trigger] insert_by_name(t, e)[j].0),
    decreases t.len(),
{
    if t.len() > 0 && !name_le(t.last().0, e.0) {
        let d = t.drop_last();
        assert forall|j: int| 0 <= j < d.len() implies is_oss_name(#[trigger] d[j].0) by {
            assert(d[j] == t[j]);
        }
        lemma_insert_keeps_oss_names(d, e);
        let r = insert_by_name(d, e);
        assert forall|j: int| 0 <= j < insert_by_name(t, e).len() implies is_oss_name(
            #[trigger] insert_by_name(t, e)[j].0,
        ) by {
            if j < r.len() {
                assert(insert_by_name(t, e)[j] == r[j]);
            } else {
                assert(insert_by_name(t, e)[j] == t.last());
            }
        }
    } else if t.len() > 0 {
        assert forall|j: int| 0 <= j < insert_by_name(t, e).len() implies is_oss_name(
            #[trigger] insert_by_name(t, e)[j].0,
        ) by {
            if j < t.len() {
                assert(insert_by_name(t, e)[j] == t[j]);
            }
        }
    } else {
        assert(insert_by_name(t, e) == seq![e]);
    }
}

/// Sorting headers whose names all hold `x-oss-` keeps them all such.
proof fn lemma_sort_keeps_oss_names(s: Seq<HeaderText>)
    requires
        forall|j: int| 0 <= j < s.len() ==> is_oss_name(#[trigger] s[j].0),
    ensures
        forall|j: int| 0 <= j < sort_by_name(s).len() ==> is_oss_name(#[trigger] sort_by_name(s)[j].0),
    decreases s.len(),
{
    if s.len() > 0 {
        let d = s.drop_last();
        assert forall|j: int| 0 <= j < d.len() implies is_oss_name(#[trigger] d[j].0) by {
            assert(d[j] == s[j]);
        }
        lemma_sort_keeps_oss_names(d);
        lemma_insert_keeps_oss_names(sort_by_name(d), s.last());
    }
}

/// The header block renders only headers whose name holds `x-oss-`.
pub proof fn lemma_block_holds_only_oss_headers(s: Seq<HeaderText>)
    ensures
        forall|j: int|
            0 <= j < sort_by_name(oss_only(s)).len() ==> is_oss_name(
                #[trigger] sort_by_name(oss_only(s))[j].0,
            ),
{
    lemma_oss_only_names(s);
    lemma_sort_keeps_oss_names(oss_only(s));
}

/// Headers without `x-oss-` in their name do not change the header block:
/// two lists with the same `x-oss-` headers in the same order give one block.
pub proof fn lemma_block_ignores_other_headers(a: Seq<HeaderText>, b: Seq<HeaderText>)
    requires
        oss_only(a) == oss_only(b),
    ensures
        header_block(a) == header_block(b),
{
}

/// Adding a header without `x-oss-` in its name leaves the block as it was.
pub proof fn lemma_other_header_leaves_block(s: Seq<HeaderText>, e: HeaderText)
    requires
        !is_oss_name(e.0),
    ensures
        header_block(s.push(e)) == header_block(s),
{
    assert(s.push(e).drop_last() =~= s);
}

/// Each header's name sorts before or equal to the next one's.
pub open spec fn sorted_by_name(s: Seq<HeaderText>) -> bool {
    forall|i: int| 0 <= i < s.len() - 1 ==> name_le(#[trigger] s[i].0, s[i + 1].0)
}

/// Of two names one sorts before or equal to the other.
proof fn lemma_name_le_total(a: Seq<char>, b: Seq<char>)
    ensures
        name_le(a, b) || name_le(b, a),
    decreases a.len(),
{
    if a.len() > 0 && b.len() > 0 && a[0] as u32 == b[0] as u32 {
        lemma_name_le_total(a.drop_first(), b.drop_first());
    }
}

/// Inserting adds one header, and the last one is either the new header or
/// the last of `t`.
proof fn lemma_insert_last(t: Seq<HeaderText>, e: HeaderText)
    ensures
        insert_by_name(t, e).len() == t.len() + 1,
        insert_by_name(t, e).last() == e || (t.len() > 0 && insert_by_name(t, e).last() == t.last()),
    decreases t.len(),
{
    if t.len() > 0 && !name_le(t.last().0, e.0) {
        lemma_insert_last(t.drop_last(), e);
    }
}

/// Inserting into headers in name order keeps them in name order.
proof fn lemma_insert_sorted(t: Seq<HeaderText>, e: HeaderText)
    requires
        sorted_by_name(t),
    ensures
        sorted_by_name(insert_by_name(t, e)),
    decreases t.len(),
{
    let r = insert_by_name(t, e);
    if t.len() == 0 {
        assert(r == seq![e]);
    } else if name_le(t.last().0, e.0) {
        assert forall|i: int| 0 <= i < r.len() - 1 implies name_le(#[trigger] r[i].0, r[i + 1].0) by {
            if i < t.len() - 1 {
                assert(r[i] == t[i] && r[i + 1] == t[i + 1]);
            }
        }
    } else {
        let d = t.drop_last();
        assert forall|i: int| 0 <= i < d.len() - 1 implies name_le(#[trigger] d[i].0, d[i + 1].0) by {
            assert(d[i] == t[i] && d[i + 1] == t[i + 1]);
        }
        lemma_insert_sorted(d, e);
        lemma_insert_last(d, e);
        lemma_name_le_total(t.last().0, e.0);
        let m = insert_by_name(d, e);
        if m.last() != e {
            assert(t[t.len() - 2] == d.last());
        }
        assert(name_le(m.last().0, t.last().0));
        assert forall|i: int| 0 <= i < r.len() - 1 implies name_le(#[trigger] r[i].0, r[i + 1].0) by {
            if i < m.len() - 1 {
                assert(r[i] == m[i] && r[i + 1] == m[i + 1]);
            } else {
                assert(r[i] == m.last());
            }
        }
    }
}

/// The stable sort puts headers in name order.
proof fn lemma_sort_sorted(s: Seq<HeaderText>)
    ensures
        sorted_by_name(sort_by_name(s)),
    decreases s.len(),
{
    if s.len() > 0 {
        lemma_sort_sorted(s.drop_last());
        lemma_insert_sorted(sort_by_name(s.drop_last()), s.last());
    }
}

/// The header block renders its headers in name order, whatever order they
/// came in.
pub proof fn lemma_block_in_name_order(s: Seq<HeaderText>)
    ensures
        sorted_by_name(sort_by_name(oss_only(s))),
{
    lemma_sort_sorted(oss_only(s));
}

/// The headers of `s` named `n`, in their order.
pub open spec fn of_name(s: Seq<HeaderText>, n: Seq<char>) -> Seq<HeaderText>
    decreases s.len(),
{
    if s.len() == 0 {
        s
    } else if s.last().0 == n {
        of_name(s.drop_last(), n).push(s.last())
    } else {
        of_name(s.drop_last(), n)
    }
}

/// Every name sorts before or equal to itself.
proof fn lemma_name_le_reflexive(a: Seq<char>)
    ensures
        name_le(a, a),
    decreases a.len(),
{
    if a.len() > 0 {
        lemma_name_le_reflexive(a.drop_first());
    }
}

/// Inserting a header appends it to the headers of its own name and leaves
/// the others as they were.
proof fn lemma_insert_of_name(t: Seq<HeaderText>, e: HeaderText, n: Seq<char>)
    ensures
        of_name(insert_by_name(t, e), n) == (if e.0 == n {
            of_name(t, n).push(e)
        } else {
            of_name(t, n)
        }),
    decreases t.len(),
{
    if t.len() == 0 {
        let r = insert_by_name(t, e);
        assert(r == seq![e]);
        assert(r.drop_last() =~= t);
    } else if name_le(t.last().0, e.0) {
        assert(t.push(e).drop_last() =~= t);
    } else {
        let d = t.drop_last();
        lemma_insert_of_name(d, e, n);
        lemma_name_le_reflexive(e.0);
        let m = insert_by_name(d, e);
        assert(m.push(t.last()).drop_last() =~= m);
    }
}

/// Inserting a header adds it to the multiset of headers.
proof fn lemma_insert_to_multiset(t: Seq<HeaderText>, e: HeaderText)
    ensures
        insert_by_name(t, e).to_multiset() =~= t.to_multiset().insert(e),
    decreases t.len(),
{
    broadcast use vstd::seq_lib::group_to_multiset_ensures;

    if t.len() == 0 {
        assert(insert_by_name(t, e) =~= t.push(e));
    } else if !name_le(t.last().0, e.0) {
        let d = t.drop_last();
        lemma_insert_to_multiset(d, e);
        assert(d.push(t.last()) =~= t);
    }
}

/// The stable sort keeps, for each name, the headers of that name in their
/// order: it only moves headers of different names past each other.
pub proof fn lemma_sort_keeps_order_within_name(s: Seq<HeaderText>, n: Seq<char>)
    ensures
        of_name(sort_by_name(s), n) == of_name(s, n),
    decreases s.len(),
{
    if s.len() > 0 {
        lemma_sort_keeps_order_within_name(s.drop_last(), n);
        lemma_insert_of_name(sort_by_name(s.drop_last()), s.last(), n);
    }
}

/// The stable sort is a permutation of its input.
pub proof fn lemma_sort_is_permutation(s: Seq<HeaderText>)
    ensures
        sort_by_name(s).to_multiset() == s.to_multiset(),
    decreases s.len(),
{
    broadcast use vstd::seq_lib::group_to_multiset_ensures;

    if s.len() > 0 {
        let d = s.drop_last();
        lemma_sort_is_permutation(d);
        lemma_insert_to_multiset(sort_by_name(d), s.last());
        assert(d.push(s.last()) =~= s);
    }
}

/// Two characters with the same code are the same character.
proof fn lemma_char_code_injective(c: char, d: char)
    requires
        c as u32 == d as u32,
    ensures
        c == d,
{
}

/// Two names that sort before or equal to each other are the same name.
proof fn lemma_name_le_antisymmetric(a: Seq<char>, b: Seq<char>)
    requires
        name_le(a, b),
        name_le(b, a),
    ensures
        a == b,
    decreases a.len(),
{
    if a.len() == 0 {
        assert(b.len() == 0);
        assert(a =~= b);
    } else {
        assert(b.len() > 0);
        if a[0] as u32 != b[0] as u32 {
            assert((a[0] as u32) < (b[0] as u32));
            assert((b[0] as u32) < (a[0] as u32));
        }
        lemma_char_code_injective(a[0], b[0]);
        lemma_name_le_antisymmetric(a.drop_first(), b.drop_first());
        assert(a =~= seq![a[0]] + a.drop_first());
        assert(b =~= seq![b[0]] + b.drop_first());
    }
}

/// The order on names is transitive.
proof fn lemma_name_le_transitive(a: Seq<char>, b: Seq<char>, c: Seq<char>)
    requires
        name_le(a, b),
        name_le(b, c),
    ensures
        name_le(a, c),
    decreases a.len(),
{
    if a.len() > 0 && a[0] as u32 == b[0] as u32 && b[0] as u32 == c[0] as u32 {
        lemma_name_le_transitive(a.drop_first(), b.drop_first(), c.drop_first());
    }
}

/// In headers in name order, any earlier name sorts before or equal to any later one.
proof fn lemma_sorted_pair(s: Seq<HeaderText>, i: int, j: int)
    requires
        sorted_by_name(s),
        0 <= i <= j < s.len(),
    ensures
        name_le(s[i].0, s[j].0),
    decreases j - i,
{
    if i == j {
        lemma_name_le_reflexive(s[i].0);
    } else {
        lemma_sorted_pair(s, i, j - 1);
        assert(name_le(s[j - 1].0, s[j].0));
        lemma_name_le_transitive(s[i].0, s[j - 1].0, s[j].0);
    }
}

/// A header of name `n` is among those that `of_name` keeps.
proof fn lemma_of_name_found(s: Seq<HeaderText>, n: Seq<char>)
    requires
        of_name(s, n).len() > 0,
    ensures
        exists|k: int| 0 <= k < s.len() && (#[trigger] s[k]).0 == n,
    decreases s.len(),
{
    if s.last().0 != n {
        lemma_of_name_found(s.drop_last(), n);
        let k = choose|k: int| 0 <= k < s.drop_last().len() && (#[trigger] s.drop_last()[k]).0 == n;
        assert(s[k] == s.drop_last()[k]);
    } else {
        assert(s[s.len() - 1].0 == n);
    }
}

/// Two lists in name order that hold, for every name, the same headers of
/// that name in the same order are the same list.
proof fn lemma_sorted_unique(s1: Seq<HeaderText>, s2: Seq<HeaderText>)
    requires
        sorted_by_name(s1),
        sorted_by_name(s2),
        forall|n: Seq<char>| #[trigger] of_name(s1, n) == of_name(s2, n),
    ensures
        s1 == s2,
    decreases s1.len() + s2.len(),
{
    if s1.len() == 0 && s2.len() == 0 {
        assert(s1 =~= s2);
    } else if s1.len() == 0 {
        assert(of_name(s2, s2.last().0).len() > 0);
        assert(of_name(s1, s2.last().0).len() == 0);
    } else if s2.len() == 0 {
        assert(of_name(s1, s1.last().0).len() > 0);
        assert(of_name(s2, s1.last().0).len() == 0);
    } else {
        let x = s1.last().0;
        let y = s2.last().0;
        assert(of_name(s2, y).len() > 0);
        assert(of_name(s1, y) == of_name(s2, y));
        lemma_of_name_found(s1, y);
        let k1 = choose|k: int| 0 <= k < s1.len() && (#[trigger] s1[k]).0 == y;
        lemma_sorted_pair(s1, k1, s1.len() - 1);
        assert(of_name(s1, x).len() > 0);
        assert(of_name(s1, x) == of_name(s2, x));
        lemma_of_name_found(s2, x);
        let k2 = choose|k: int| 0 <= k < s2.len() && (#[trigger] s2[k]).0 == x;
        lemma_sorted_pair(s2, k2, s2.len() - 1);
        lemma_name_le_antisymmetric(x, y);
        assert(of_name(s1, x).last() == s1.last());
        assert(of_name(s2, x).last() == s2.last());
        let d1 = s1.drop_last();
        let d2 = s2.drop_last();
        assert forall|n: Seq<char>| #[trigger] of_name(d1, n) == of_name(d2, n) by {
            assert(of_name(s1, n) == of_name(s2, n));
            if n == x {
                assert(of_name(d1, n) =~= of_name(s1, n).drop_last());
                assert(of_name(d2, n) =~= of_name(s2, n).drop_last());
            }
        }
        assert forall|i: int| 0 <= i < d1.len() - 1 implies name_le(#[trigger] d1[i].0, d1[i + 1].0) by {
            assert(d1[i] == s1[i] && d1[i + 1] == s1[i + 1]);
        }
        assert forall|i: int| 0 <= i < d2.len() - 1 implies name_le(#[trigger] d2[i].0, d2[i + 1].0) by {
            assert(d2[i] == s2[i] && d2[i + 1] == s2[i + 1]);
        }
        lemma_sorted_unique(d1, d2);
        assert(s1 =~= d1.push(s1.last()));
        assert(s2 =~= d2.push(s2.last()));
    }
}

/// The header block does not depend on the order in which headers of
/// different names come: two lists that hold, for every name, the same
/// `x-oss-` headers of that name in the same order give the same block.
pub proof fn lemma_block_ignores_name_order(a: Seq<HeaderText>, b: Seq<HeaderText>)
    requires
        forall|n: Seq<char>| #[trigger] of_name(oss_only(a), n) == of_name(oss_only(b), n),
    ensures
        header_block(a) == header_block(b),
{
    let sa = sort_by_name(oss_only(a));
    let sb = sort_by_name(oss_only(b));
    lemma_sort_sorted(oss_only(a));
    lemma_sort_sorted(oss_only(b));
    assert forall|n: Seq<char>| #[trigger] of_name(sa, n) == of_name(sb, n) by {
        lemma_sort_keeps_order_within_name(oss_only(a), n);
        lemma_sort_keeps_order_within_name(oss_only(b), n);
        assert(of_name(oss_only(a), n) == of_name(oss_only(b), n));
    }
    lemma_sorted_unique(sa, sb);
}

/// The `x-oss-` headers of one name are all the headers of that name when it
/// holds `x-oss-`, and none otherwise.
pub proof fn lemma_of_name_oss_only(s: Seq<HeaderText>, n: Seq<char>)
    ensures
        of_name(oss_only(s), n) == (if is_oss_name(n) {
            of_name(s, n)
        } else {
            Seq::<HeaderText>::empty()
        }),
    decreases s.len(),
{
    if s.len() > 0 {
        lemma_of_name_oss_only(s.drop_last(), n);
        let r = oss_only(s.drop_last());
        if is_oss_name(s.last().0) {
            assert(r.push(s.last()).drop_last() =~= r);
        }
    }
}

/// `of_name` read from the front: the first header, if it has the name,
/// then those of the rest.
pub proof fn lemma_of_name_front(s: Seq<HeaderText>, n: Seq<char>)
    requires
        s.len() > 0,
    ensures
        of_name(s, n) == (if s[0].0 == n {
            seq![s[0]] + of_name(s.drop_first(), n)
        } else {
            of_name(s.drop_first(), n)
        }),
    decreases s.len(),
{
    let t = s.drop_first();
    if s.len() == 1 {
        assert(s.drop_last() =~= Seq::<HeaderText>::empty());
        assert(t =~= Seq::<HeaderText>::empty());
        assert(of_name(s, n) =~= (if s[0].0 == n {
            seq![s[0]] + of_name(t, n)
        } else {
            of_name(t, n)
        }));
    } else {
        let d = s.drop_last();
        lemma_of_name_front(d, n);
        assert(d[0] == s[0]);
        assert(t.drop_last() =~= d.drop_first());
        assert(t.last() == s.last());
        assert(of_name(s, n) =~= (if s[0].0 == n {
            seq![s[0]] + of_name(t, n)
        } else {
            of_name(t, n)
        }));
    }
}

} // verus!
