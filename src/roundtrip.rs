//! Why decoding an encoding gives the value back: the annotations that
//! encoding flattens into one list are found again by the decoder's lookups.
use vstd::prelude::*;
use crate::annotation::AnnView;
use crate::deserialize::{
    decode_annotated, decode_child, decode_entries, decode_items, decode_members, decode_plain,
    decode_with_children, lemma_lookup_append, lemma_sub_children_append, lookup, sub_children,
};
use crate::json::JsonView;
use crate::path::{escape, lemma_split_escape, split};
use crate::serialize::{
    collect, encode_spec, entries_json, entry_blocks, entry_path, item_blocks, items_json, lemma_children_nonempty,
    lemma_collect_empty, lemma_flatten_empty, member_blocks, members_json, AnnResult,
};
use crate::deserialize::{decode_error, decode_number, decode_regexp, last_index_of, member_index, member_index_from};
use crate::tags::{
    key_cause, key_message, key_name, tag_bigint, tag_date, tag_error, tag_map, tag_number, tag_regexp, tag_set,
    tag_undefined, tag_url, text_infinity, text_nan, text_neg_infinity, text_neg_zero,
};
use crate::text::{is_digit, lemma_nat_text, nat_text};
use crate::error::ErrorKind;
use crate::value::ValueView;

verus! {

/// Decoding the JSON form `j` with what encoding recorded, `a`, gives `v`.
pub open spec fn decodes_back(j: JsonView, a: Option<AnnResult>, v: ValueView) -> bool {
    match a {
        None => decode_plain(j) == v,
        Some(AnnResult::Typed(t)) => decode_annotated(j, t) == Ok::<ValueView, ErrorKind>(v),
        Some(AnnResult::Children(m)) => decode_with_children(j, m) == Ok::<ValueView, ErrorKind>(v),
    }
}

/// An annotation result that lists descendants lists at least one.
pub open spec fn nonempty_children(a: Option<AnnResult>) -> bool {
    a matches Some(AnnResult::Children(m)) ==> m.len() > 0
}

/// No path at or below one key is at or below the other.
pub open spec fn separated(k1: Seq<char>, k2: Seq<char>) -> bool {
    &&& k1 != k2
    &&& !(k1 + seq!['.']).is_prefix_of(k2)
    &&& !(k2 + seq!['.']).is_prefix_of(k1)
}

/// Every entry of `m` is at `k` or below it.
pub open spec fn owned_by(m: Seq<(Seq<char>, AnnView)>, k: Seq<char>) -> bool {
    forall|i: int| 0 <= i < m.len() ==> (#[trigger] m[i]).0 == k || (k + seq!['.']).is_prefix_of(m[i].0)
}

/// The decoder finds nothing in `m` for a child at `k`.
pub open spec fn foreign(m: Seq<(Seq<char>, AnnView)>, k: Seq<char>) -> bool {
    lookup(m, k) is None && sub_children(m, k + seq!['.']).len() == 0
}

proof fn lemma_prefix_order(a: Seq<char>, b: Seq<char>, e: Seq<char>)
    requires
        a.is_prefix_of(e),
        b.is_prefix_of(e),
        a.len() <= b.len(),
    ensures
        a.is_prefix_of(b),
{
    assert(b.subrange(0, a.len() as int) =~= e.subrange(0, a.len() as int));
}

proof fn lemma_entry_foreign(owner: Seq<char>, k: Seq<char>, e: Seq<char>)
    requires
        separated(owner, k),
        e == owner || (owner + seq!['.']).is_prefix_of(e),
    ensures
        e != k,
        !(k + seq!['.']).is_prefix_of(e),
{
    let a = owner + seq!['.'];
    let b = k + seq!['.'];
    if e != owner && b.is_prefix_of(e) {
        if a.len() <= b.len() {
            lemma_prefix_order(a, b, e);
            if a.len() == b.len() {
                assert(owner =~= a.drop_last());
                assert(k =~= b.drop_last());
                assert(a =~= b);
            } else {
                assert(k.subrange(0, a.len() as int) =~= b.subrange(0, a.len() as int));
            }
        } else {
            lemma_prefix_order(b, a, e);
            assert(owner.subrange(0, b.len() as int) =~= a.subrange(0, b.len() as int));
        }
    }
}

/// A list whose entries all lie at or below a key separated from `k` is foreign to `k`.
pub proof fn lemma_owned_foreign(m: Seq<(Seq<char>, AnnView)>, owner: Seq<char>, k: Seq<char>)
    requires
        owned_by(m, owner),
        separated(owner, k),
    ensures
        foreign(m, k),
    decreases m.len(),
{
    if m.len() > 0 {
        assert(owned_by(m.drop_last(), owner)) by {
            assert forall|i: int| 0 <= i < m.drop_last().len() implies (#[trigger] m.drop_last()[i]).0 == owner
                || (owner + seq!['.']).is_prefix_of(m.drop_last()[i].0) by {
                assert(m.drop_last()[i] == m[i]);
            }
        }
        lemma_owned_foreign(m.drop_last(), owner, k);
        lemma_entry_foreign(owner, k, m[m.len() - 1].0);
    }
}

pub proof fn lemma_foreign_append(a: Seq<(Seq<char>, AnnView)>, b: Seq<(Seq<char>, AnnView)>, k: Seq<char>)
    requires
        foreign(a, k),
        foreign(b, k),
    ensures
        foreign(a + b, k),
{
    lemma_lookup_append(a, b, k);
    lemma_sub_children_append(a, b, k + seq!['.']);
}

/// A flattened list of blocks that are all foreign to `k` is foreign to `k`.
pub proof fn lemma_flatten_foreign(bs: Seq<Seq<(Seq<char>, AnnView)>>, k: Seq<char>)
    requires
        forall|j: int| 0 <= j < bs.len() ==> foreign(#[trigger] bs[j], k),
    ensures
        foreign(bs.flatten(), k),
    decreases bs.len(),
{
    if bs.len() == 0 {
        assert(lookup(Seq::<(Seq<char>, AnnView)>::empty(), k) is None);
    } else {
        assert forall|j: int| 0 <= j < bs.drop_first().len() implies foreign(#[trigger] bs.drop_first()[j], k) by {
            assert(bs.drop_first()[j] == bs[j + 1]);
        }
        lemma_flatten_foreign(bs.drop_first(), k);
        assert(foreign(bs[0], k));
        lemma_foreign_append(bs.first(), bs.drop_first().flatten(), k);
    }
}

/// In a flattened list of blocks, a child at `k` sees exactly what block `i`
/// holds for it when every other block is foreign to `k`.
pub proof fn lemma_flatten_sees_block(bs: Seq<Seq<(Seq<char>, AnnView)>>, i: int, k: Seq<char>)
    requires
        0 <= i < bs.len(),
        forall|j: int| 0 <= j < bs.len() && j != i ==> foreign(#[trigger] bs[j], k),
    ensures
        lookup(bs.flatten(), k) == lookup(bs[i], k),
        sub_children(bs.flatten(), k + seq!['.']) == sub_children(bs[i], k + seq!['.']),
    decreases bs.len(),
{
    let rest = bs.drop_first();
    assert(bs.flatten() == bs.first() + rest.flatten());
    lemma_lookup_append(bs.first(), rest.flatten(), k);
    lemma_sub_children_append(bs.first(), rest.flatten(), k + seq!['.']);
    if i == 0 {
        assert forall|j: int| 0 <= j < rest.len() implies foreign(#[trigger] rest[j], k) by {
            assert(rest[j] == bs[j + 1]);
        }
        lemma_flatten_foreign(rest, k);
        assert(sub_children(bs.first(), k + seq!['.']) + sub_children(rest.flatten(), k + seq!['.']) =~= sub_children(bs.first(), k + seq!['.']));
    } else {
        assert forall|j: int| 0 <= j < rest.len() && j != i - 1 implies foreign(#[trigger] rest[j], k) by {
            assert(rest[j] == bs[j + 1]);
        }
        lemma_flatten_sees_block(rest, i - 1, k);
        assert(foreign(bs[0], k));
        assert(sub_children(bs.first(), k + seq!['.']) + sub_children(rest.flatten(), k + seq!['.']) =~= sub_children(rest.flatten(), k + seq!['.']));
    }
}

proof fn lemma_lookup_absent(m: Seq<(Seq<char>, AnnView)>, k: Seq<char>)
    requires
        forall|i: int| 0 <= i < m.len() ==> (#[trigger] m[i]).0 != k,
    ensures
        lookup(m, k) is None,
    decreases m.len(),
{
    if m.len() > 0 {
        assert forall|i: int| 0 <= i < m.drop_last().len() implies (#[trigger] m.drop_last()[i]).0 != k by {
            assert(m.drop_last()[i] == m[i]);
        }
        lemma_lookup_absent(m.drop_last(), k);
        assert(m.last() == m[m.len() - 1]);
    }
}

proof fn lemma_sub_children_own(k: Seq<char>, m: Seq<(Seq<char>, AnnView)>)
    ensures
        sub_children(collect(k, Some(AnnResult::Children(m))), k + seq!['.']) == m,
    decreases m.len(),
{
    let c = collect(k, Some(AnnResult::Children(m)));
    let p = k + seq!['.'];
    if m.len() > 0 {
        assert(c.drop_last() =~= collect(k, Some(AnnResult::Children(m.drop_last()))));
        lemma_sub_children_own(k, m.drop_last());
        let e = c.last();
        assert(e == (k + seq!['.'] + m.last().0, m.last().1));
        assert(p.is_prefix_of(e.0)) by {
            assert(e.0.subrange(0, p.len() as int) =~= p);
        }
        assert(e.0.skip(p.len() as int) =~= m.last().0);
        assert(m.drop_last().push(m.last()) =~= m);
    } else {
        assert(c.len() == 0);
    }
}

/// What the decoder sees at `k` in the block that a child at `k` adds.
pub proof fn lemma_own_block(k: Seq<char>, a: Option<AnnResult>)
    ensures
        owned_by(collect(k, a), k),
        lookup(collect(k, a), k) == (match a {
            Some(AnnResult::Typed(t)) => Some(t),
            _ => None::<AnnView>,
        }),
        sub_children(collect(k, a), k + seq!['.']) == (match a {
            Some(AnnResult::Children(m)) => m,
            _ => Seq::<(Seq<char>, AnnView)>::empty(),
        }),
{
    let c = collect(k, a);
    match a {
        None => {
            assert(c.len() == 0);
        },
        Some(AnnResult::Typed(t)) => {
            assert(c.drop_last() =~= Seq::<(Seq<char>, AnnView)>::empty());
            assert(lookup(c.drop_last(), k) is None);
            assert(!(k + seq!['.']).is_prefix_of(k));
            assert(sub_children(c.drop_last(), k + seq!['.']) =~= Seq::<(Seq<char>, AnnView)>::empty());
        },
        Some(AnnResult::Children(m)) => {
            assert forall|i: int| 0 <= i < c.len() implies (#[trigger] c[i]).0 != k
                && (k + seq!['.']).is_prefix_of(c[i].0) by {
                assert(c[i].0.len() > k.len());
                assert(c[i].0.subrange(0, k.len() as int + 1) =~= k + seq!['.']);
            }
            lemma_lookup_absent(c, k);
            lemma_sub_children_own(k, m);
        },
    }
}

/// A child at `k` decodes back when the decoder sees at `k` exactly what the
/// child's own block holds.
pub proof fn lemma_child_decodes(j: JsonView, k: Seq<char>, f: Seq<(Seq<char>, AnnView)>, a: Option<AnnResult>, v: ValueView)
    requires
        decodes_back(j, a, v),
        nonempty_children(a),
        lookup(f, k) == lookup(collect(k, a), k),
        sub_children(f, k + seq!['.']) == sub_children(collect(k, a), k + seq!['.']),
    ensures
        decode_child(j, k, f) == Ok::<ValueView, ErrorKind>(v),
{
    lemma_own_block(k, a);
}

/// Distinct indices give separated paths.
pub proof fn lemma_index_separated(i: nat, j: nat)
    requires
        i != j,
    ensures
        separated(nat_text(i), nat_text(j)),
{
    lemma_nat_text(i);
    lemma_nat_text(j);
    let a = nat_text(i);
    let b = nat_text(j);
    if (a + seq!['.']).is_prefix_of(b) {
        assert(b[a.len() as int] == (a + seq!['.'])[a.len() as int]);
        assert(is_digit(b[a.len() as int]));
    }
    if (b + seq!['.']).is_prefix_of(a) {
        assert(a[b.len() as int] == (b + seq!['.'])[b.len() as int]);
        assert(is_digit(a[b.len() as int]));
    }
}

proof fn lemma_split_nonempty(s: Seq<char>, cur: Seq<char>)
    ensures
        split(s, cur).len() >= 1,
    decreases s.len(),
{
    if s.len() > 0 {
        if s[0] == '\\' && s.len() > 1 && (s[1] == '\\' || s[1] == '.') {
            lemma_split_nonempty(s.skip(2), cur.push(s[1]));
        } else if s[0] == '.' {
            lemma_split_nonempty(s.skip(1), Seq::empty());
        } else {
            lemma_split_nonempty(s.skip(1), cur.push(s[0]));
        }
    }
}

proof fn lemma_escape_not_below(k1: Seq<char>, k2: Seq<char>)
    ensures
        !(escape(k1) + seq!['.']).is_prefix_of(escape(k2)),
{
    let e1 = escape(k1);
    let e2 = escape(k2);
    if (e1 + seq!['.']).is_prefix_of(e2) {
        let n = e1.len() + 1;
        let r = e2.skip(n as int);
        assert(e2.subrange(0, n as int) =~= e1 + seq!['.']);
        assert(e2 =~= e2.subrange(0, n as int) + r);
        assert(e2 =~= e1 + (seq!['.'] + r));
        lemma_split_escape(k1, seq!['.'] + r, Seq::empty());
        lemma_split_escape(k2, Seq::empty(), Seq::empty());
        assert(e2 + Seq::<char>::empty() =~= e2);
        assert(Seq::<char>::empty() + k1 =~= k1);
        assert((seq!['.'] + r).skip(1) =~= r);
        lemma_split_nonempty(r, Seq::empty());
        assert(split(e2, Seq::empty()).len() >= 2);
    }
}

/// Distinct keys give separated escaped paths.
pub proof fn lemma_escape_separated(k1: Seq<char>, k2: Seq<char>)
    requires
        k1 != k2,
    ensures
        separated(escape(k1), escape(k2)),
{
    lemma_escape_not_below(k1, k2);
    lemma_escape_not_below(k2, k1);
    lemma_split_escape(k1, Seq::empty(), Seq::empty());
    lemma_split_escape(k2, Seq::empty(), Seq::empty());
    assert(escape(k1) + Seq::<char>::empty() =~= escape(k1));
    assert(escape(k2) + Seq::<char>::empty() =~= escape(k2));
    assert(Seq::<char>::empty() + k1 =~= k1);
    assert(Seq::<char>::empty() + k2 =~= k2);
    if escape(k1) == escape(k2) {
        assert(seq![k1][0] == seq![k2][0]);
    }
}

/// In `nat_text(i) + ".s"`, the only dot stands right after the index.
proof fn lemma_entry_path_dot(i: nat, s: char, x: int)
    requires
        s != '.',
        0 <= x < entry_path(i, s).len(),
        entry_path(i, s)[x] == '.',
    ensures
        x == nat_text(i).len(),
{
    lemma_nat_text(i);
    let t = nat_text(i);
    if x < t.len() {
        assert(entry_path(i, s)[x] == t[x]);
        assert(is_digit(t[x]));
    }
}

/// Distinct slots of map entries give separated paths.
pub proof fn lemma_entry_separated(i: nat, s: char, j: nat, d: char)
    requires
        s == '0' || s == '1',
        d == '0' || d == '1',
        i != j || s != d,
    ensures
        separated(entry_path(i, s), entry_path(j, d)),
{
    let a = entry_path(i, s);
    let b = entry_path(j, d);
    let ti = nat_text(i);
    let tj = nat_text(j);
    lemma_nat_text(i);
    lemma_nat_text(j);
    assert(a[ti.len() as int] == '.');
    assert(b[tj.len() as int] == '.');
    if a == b {
        lemma_entry_path_dot(j, d, ti.len() as int);
        assert(ti =~= a.subrange(0, ti.len() as int));
        assert(tj =~= b.subrange(0, tj.len() as int));
        if i != j {
            lemma_index_separated(i, j);
        }
        assert(a[ti.len() as int + 1] == s);
    }
    if (a + seq!['.']).is_prefix_of(b) {
        assert((a + seq!['.'])[ti.len() as int] == '.');
        assert(b[ti.len() as int] == b.subrange(0, a.len() as int + 1)[ti.len() as int]);
        assert(b[a.len() as int] == b.subrange(0, a.len() as int + 1)[a.len() as int]);
        assert(b[ti.len() as int] == '.');
        lemma_entry_path_dot(j, d, ti.len() as int);
        assert(b[a.len() as int] == '.');
        lemma_entry_path_dot(j, d, a.len() as int);
    }
    if (b + seq!['.']).is_prefix_of(a) {
        assert((b + seq!['.'])[tj.len() as int] == '.');
        assert(a[tj.len() as int] == a.subrange(0, b.len() as int + 1)[tj.len() as int]);
        assert(a[b.len() as int] == a.subrange(0, b.len() as int + 1)[b.len() as int]);
        assert(a[tj.len() as int] == '.');
        lemma_entry_path_dot(i, s, tj.len() as int);
        assert(a[b.len() as int] == '.');
        lemma_entry_path_dot(i, s, b.len() as int);
    }
}

/// Each item decodes back from what encoding made of it.
pub open spec fn items_decode_back(items: Seq<ValueView>) -> bool {
    forall|i: int| 0 <= i < items.len() ==> decodes_back(encode_spec(#[trigger] items[i]).0, encode_spec(items[i]).1, items[i])
}

proof fn lemma_decode_items_from(s: Seq<JsonView>, f: Seq<(Seq<char>, AnnView)>, vs: Seq<ValueView>, k: int)
    requires
        s.len() == vs.len(),
        0 <= k <= s.len(),
        forall|i: int| 0 <= i < s.len() ==> decode_child(#[trigger] s[i], nat_text(i as nat), f) == Ok::<ValueView, ErrorKind>(vs[i]),
    ensures
        decode_items(s, f, k) == Ok::<Seq<ValueView>, ErrorKind>(vs.skip(k)),
    decreases s.len() - k,
{
    if k < s.len() {
        lemma_decode_items_from(s, f, vs, k + 1);
        assert(seq![vs[k]] + vs.skip(k + 1) =~= vs.skip(k));
    } else {
        assert(vs.skip(k) =~= Seq::<ValueView>::empty());
    }
}

/// The items of an array or a set decode back at their indices.
pub proof fn lemma_items_decode(items: Seq<ValueView>)
    requires
        items_decode_back(items),
    ensures
        decode_items(items_json(items), item_blocks(items, items.len() as int).flatten(), 0)
            == Ok::<Seq<ValueView>, ErrorKind>(items),
{
    let bs = item_blocks(items, items.len() as int);
    let f = bs.flatten();
    let s = items_json(items);
    assert forall|i: int| 0 <= i < s.len() implies decode_child(#[trigger] s[i], nat_text(i as nat), f) == Ok::<ValueView, ErrorKind>(items[i]) by {
        let k = nat_text(i as nat);
        assert forall|j: int| 0 <= j < bs.len() && j != i implies foreign(#[trigger] bs[j], k) by {
            lemma_own_block(nat_text(j as nat), encode_spec(items[j]).1);
            lemma_index_separated(j as nat, i as nat);
            lemma_owned_foreign(bs[j], nat_text(j as nat), k);
        }
        lemma_flatten_sees_block(bs, i, k);
        lemma_children_nonempty(items[i]);
        lemma_child_decodes(s[i], k, f, encode_spec(items[i]).1, items[i]);
    }
    lemma_decode_items_from(s, f, items, 0);
    assert(items.skip(0) =~= items);
}

/// When encoding records nothing for any item, plain reading gives the items back.
pub proof fn lemma_items_plain(items: Seq<ValueView>)
    requires
        items_decode_back(items),
        item_blocks(items, items.len() as int).flatten().len() == 0,
    ensures
        forall|i: int| 0 <= i < items.len() ==> decode_plain(#[trigger] items_json(items)[i]) == items[i],
{
    let bs = item_blocks(items, items.len() as int);
    lemma_flatten_empty(bs);
    assert forall|i: int| 0 <= i < items.len() implies decode_plain(#[trigger] items_json(items)[i]) == items[i] by {
        lemma_children_nonempty(items[i]);
        lemma_collect_empty(nat_text(i as nat), encode_spec(items[i]).1);
        assert(bs[i].len() == 0);
    }
}

/// Each member decodes back from what encoding made of it.
pub open spec fn members_decode_back(m: Seq<(Seq<char>, ValueView)>) -> bool {
    forall|i: int| 0 <= i < m.len() ==> decodes_back(encode_spec(#[trigger] m[i].1).0, encode_spec(m[i].1).1, m[i].1)
}

pub open spec fn distinct_keys(m: Seq<(Seq<char>, ValueView)>) -> bool {
    forall|i: int, j: int| 0 <= i < j < m.len() ==> #[trigger] m[i].0 != #[trigger] m[j].0
}

proof fn lemma_decode_members_from(s: Seq<(Seq<char>, JsonView)>, f: Seq<(Seq<char>, AnnView)>, vs: Seq<(Seq<char>, ValueView)>, k: int)
    requires
        s.len() == vs.len(),
        0 <= k <= s.len(),
        forall|i: int| 0 <= i < s.len() ==> (#[trigger] s[i]).0 == vs[i].0
            && decode_child(s[i].1, escape(s[i].0), f) == Ok::<ValueView, ErrorKind>(vs[i].1),
    ensures
        decode_members(s, f, k) == Ok::<Seq<(Seq<char>, ValueView)>, ErrorKind>(vs.skip(k)),
    decreases s.len() - k,
{
    if k < s.len() {
        lemma_decode_members_from(s, f, vs, k + 1);
        assert(seq![(s[k].0, vs[k].1)] + vs.skip(k + 1) =~= vs.skip(k));
    } else {
        assert(vs.skip(k) =~= Seq::<(Seq<char>, ValueView)>::empty());
    }
}

/// The members of an object with distinct keys decode back at their escaped keys.
pub proof fn lemma_members_decode(m: Seq<(Seq<char>, ValueView)>)
    requires
        members_decode_back(m),
        distinct_keys(m),
    ensures
        decode_members(members_json(m), member_blocks(m, m.len() as int).flatten(), 0)
            == Ok::<Seq<(Seq<char>, ValueView)>, ErrorKind>(m),
{
    let bs = member_blocks(m, m.len() as int);
    let f = bs.flatten();
    let s = members_json(m);
    assert forall|i: int| 0 <= i < s.len() implies (#[trigger] s[i]).0 == m[i].0
        && decode_child(s[i].1, escape(s[i].0), f) == Ok::<ValueView, ErrorKind>(m[i].1) by {
        let k = escape(m[i].0);
        assert forall|j: int| 0 <= j < bs.len() && j != i implies foreign(#[trigger] bs[j], k) by {
            lemma_own_block(escape(m[j].0), encode_spec(m[j].1).1);
            if j < i {
                assert(m[j].0 != m[i].0);
            } else {
                assert(m[i].0 != m[j].0);
            }
            lemma_escape_separated(m[j].0, m[i].0);
            lemma_owned_foreign(bs[j], escape(m[j].0), k);
        }
        lemma_flatten_sees_block(bs, i, k);
        lemma_children_nonempty(m[i].1);
        lemma_child_decodes(s[i].1, k, f, encode_spec(m[i].1).1, m[i].1);
    }
    lemma_decode_members_from(s, f, m, 0);
    assert(m.skip(0) =~= m);
}

/// When encoding records nothing for any member, plain reading gives the members back.
pub proof fn lemma_members_plain(m: Seq<(Seq<char>, ValueView)>)
    requires
        members_decode_back(m),
        member_blocks(m, m.len() as int).flatten().len() == 0,
    ensures
        forall|i: int| 0 <= i < m.len() ==> decode_plain(#[trigger] members_json(m)[i].1) == m[i].1,
{
    let bs = member_blocks(m, m.len() as int);
    lemma_flatten_empty(bs);
    assert forall|i: int| 0 <= i < m.len() implies decode_plain(#[trigger] members_json(m)[i].1) == m[i].1 by {
        lemma_children_nonempty(m[i].1);
        lemma_collect_empty(escape(m[i].0), encode_spec(m[i].1).1);
        assert(bs[i].len() == 0);
    }
}

/// Each key and value of a map decodes back from what encoding made of it.
pub open spec fn entries_decode_back(e: Seq<(ValueView, ValueView)>) -> bool {
    forall|i: int| 0 <= i < e.len() ==> decodes_back(encode_spec(#[trigger] e[i].0).0, encode_spec(e[i].0).1, e[i].0)
        && decodes_back(encode_spec(e[i].1).0, encode_spec(e[i].1).1, e[i].1)
}

proof fn lemma_decode_entries_from(e: Seq<(ValueView, ValueView)>, f: Seq<(Seq<char>, AnnView)>, k: int)
    requires
        0 <= k <= e.len(),
        forall|i: int| 0 <= i < e.len() ==> decode_child(encode_spec(#[trigger] e[i].0).0, entry_path(i as nat, '0'), f)
            == Ok::<ValueView, ErrorKind>(e[i].0) && decode_child(encode_spec(e[i].1).0, entry_path(i as nat, '1'), f)
            == Ok::<ValueView, ErrorKind>(e[i].1),
    ensures
        decode_entries(entries_json(e), f, k) == Ok::<Seq<(ValueView, ValueView)>, ErrorKind>(e.skip(k)),
    decreases e.len() - k,
{
    if k < e.len() {
        lemma_decode_entries_from(e, f, k + 1);
        let p = seq![encode_spec(e[k].0).0, encode_spec(e[k].1).0];
        assert(entries_json(e)[k] == JsonView::Array(p));
        assert(p[0] == encode_spec(e[k].0).0 && p[1] == encode_spec(e[k].1).0);
        assert(seq![(e[k].0, e[k].1)] + e.skip(k + 1) =~= e.skip(k));
    } else {
        assert(e.skip(k) =~= Seq::<(ValueView, ValueView)>::empty());
    }
}

proof fn lemma_entry_block_foreign(e: Seq<(ValueView, ValueView)>, j: int, i: nat, s: char)
    requires
        0 <= j < e.len(),
        s == '0' || s == '1',
    ensures
        foreign(collect(entry_path(j as nat, '0'), encode_spec(e[j].0).1), entry_path(i, s)) || (j == i && s == '0'),
        foreign(collect(entry_path(j as nat, '1'), encode_spec(e[j].1).1), entry_path(i, s)) || (j == i && s == '1'),
{
    lemma_own_block(entry_path(j as nat, '0'), encode_spec(e[j].0).1);
    lemma_own_block(entry_path(j as nat, '1'), encode_spec(e[j].1).1);
    if !(j == i && s == '0') {
        lemma_entry_separated(j as nat, '0', i, s);
        lemma_owned_foreign(collect(entry_path(j as nat, '0'), encode_spec(e[j].0).1), entry_path(j as nat, '0'), entry_path(i, s));
    }
    if !(j == i && s == '1') {
        lemma_entry_separated(j as nat, '1', i, s);
        lemma_owned_foreign(collect(entry_path(j as nat, '1'), encode_spec(e[j].1).1), entry_path(j as nat, '1'), entry_path(i, s));
    }
}

/// The keys and values of a map decode back at `i.0` and `i.1`.
pub proof fn lemma_entries_decode(e: Seq<(ValueView, ValueView)>)
    requires
        entries_decode_back(e),
    ensures
        decode_entries(entries_json(e), entry_blocks(e, e.len() as int).flatten(), 0)
            == Ok::<Seq<(ValueView, ValueView)>, ErrorKind>(e),
{
    let bs = entry_blocks(e, e.len() as int);
    let f = bs.flatten();
    assert forall|i: int| 0 <= i < e.len() implies decode_child(encode_spec(#[trigger] e[i].0).0, entry_path(i as nat, '0'), f)
        == Ok::<ValueView, ErrorKind>(e[i].0) && decode_child(encode_spec(e[i].1).0, entry_path(i as nat, '1'), f)
        == Ok::<ValueView, ErrorKind>(e[i].1) by {
        let c0 = collect(entry_path(i as nat, '0'), encode_spec(e[i].0).1);
        let c1 = collect(entry_path(i as nat, '1'), encode_spec(e[i].1).1);
        assert(bs[i] == c0 + c1);
        let k0 = entry_path(i as nat, '0');
        let k1 = entry_path(i as nat, '1');
        assert forall|j: int| 0 <= j < bs.len() && j != i implies foreign(#[trigger] bs[j], k0) && foreign(bs[j], k1) by {
            lemma_entry_block_foreign(e, j, i as nat, '0');
            lemma_entry_block_foreign(e, j, i as nat, '1');
            lemma_foreign_append(collect(entry_path(j as nat, '0'), encode_spec(e[j].0).1), collect(entry_path(j as nat, '1'), encode_spec(e[j].1).1), k0);
            lemma_foreign_append(collect(entry_path(j as nat, '0'), encode_spec(e[j].0).1), collect(entry_path(j as nat, '1'), encode_spec(e[j].1).1), k1);
        }
        lemma_entry_block_foreign(e, i, i as nat, '0');
        lemma_entry_block_foreign(e, i, i as nat, '1');
        lemma_flatten_sees_block(bs, i, k0);
        lemma_flatten_sees_block(bs, i, k1);
        lemma_lookup_append(c0, c1, k0);
        lemma_lookup_append(c0, c1, k1);
        lemma_sub_children_append(c0, c1, k0 + seq!['.']);
        lemma_sub_children_append(c0, c1, k1 + seq!['.']);
        lemma_own_block(k0, encode_spec(e[i].0).1);
        lemma_own_block(k1, encode_spec(e[i].1).1);
        assert(sub_children(c0, k0 + seq!['.']) + sub_children(c1, k0 + seq!['.']) =~= sub_children(c0, k0 + seq!['.']));
        assert(sub_children(c0, k1 + seq!['.']) + sub_children(c1, k1 + seq!['.']) =~= sub_children(c1, k1 + seq!['.']));
        lemma_children_nonempty(e[i].0);
        lemma_children_nonempty(e[i].1);
        lemma_child_decodes(encode_spec(e[i].0).0, k0, f, encode_spec(e[i].0).1, e[i].0);
        lemma_child_decodes(encode_spec(e[i].1).0, k1, f, encode_spec(e[i].1).1, e[i].1);
    }
    lemma_decode_entries_from(e, f, 0);
    assert(e.skip(0) =~= e);
}

/// The tags are pairwise distinct, and so are the special number texts and
/// the member names of an error.
pub proof fn lemma_tags_distinct()
    ensures
        tag_date() != tag_undefined(),
        tag_bigint() != tag_undefined() && tag_bigint() != tag_date(),
        tag_set() != tag_undefined() && tag_set() != tag_date() && tag_set() != tag_bigint(),
        tag_map() != tag_undefined() && tag_map() != tag_date() && tag_map() != tag_bigint() && tag_map() != tag_set(),
        tag_number() != tag_undefined() && tag_number() != tag_date() && tag_number() != tag_bigint()
            && tag_number() != tag_set() && tag_number() != tag_map(),
        tag_regexp() != tag_undefined() && tag_regexp() != tag_date() && tag_regexp() != tag_bigint()
            && tag_regexp() != tag_set() && tag_regexp() != tag_map() && tag_regexp() != tag_number(),
        tag_url() != tag_undefined() && tag_url() != tag_date() && tag_url() != tag_bigint() && tag_url() != tag_set()
            && tag_url() != tag_map() && tag_url() != tag_number() && tag_url() != tag_regexp(),
        tag_error() != tag_undefined() && tag_error() != tag_date() && tag_error() != tag_bigint()
            && tag_error() != tag_set() && tag_error() != tag_map() && tag_error() != tag_number()
            && tag_error() != tag_regexp() && tag_error() != tag_url(),
        text_infinity() != text_nan(),
        text_neg_infinity() != text_nan() && text_neg_infinity() != text_infinity(),
        text_neg_zero() != text_nan() && text_neg_zero() != text_infinity() && text_neg_zero() != text_neg_infinity(),
        key_message() != key_name(),
        key_cause() != key_name() && key_cause() != key_message(),
{
    assert(tag_undefined().len() == 9 && tag_date().len() == 4 && tag_bigint().len() == 6);
    assert(tag_set().len() == 3 && tag_map().len() == 3 && tag_number().len() == 6);
    assert(tag_regexp().len() == 6 && tag_url().len() == 3 && tag_error().len() == 5);
    assert(tag_number()[0] != tag_bigint()[0]);
    assert(tag_regexp()[0] != tag_bigint()[0] && tag_regexp()[0] != tag_number()[0]);
    assert(tag_map()[0] != tag_set()[0]);
    assert(tag_url()[0] != tag_set()[0] && tag_url()[0] != tag_map()[0]);
    assert(text_nan().len() == 3 && text_infinity().len() == 8 && text_neg_infinity().len() == 9 && text_neg_zero().len() == 2);
    assert(key_name().len() == 4 && key_message().len() == 7 && key_cause().len() == 5);
}

proof fn lemma_last_index_after(a: Seq<char>, f: Seq<char>, c: char)
    requires
        a.len() > 0,
        a.last() == c,
        !f.contains(c),
    ensures
        last_index_of(a + f, c) == a.len() - 1,
    decreases f.len(),
{
    if f.len() == 0 {
        assert(a + f =~= a);
    } else {
        assert((a + f).drop_last() =~= a + f.drop_last());
        assert((a + f).last() == f.last());
        assert(f.last() == f[f.len() - 1]);
        assert(!f.drop_last().contains(c)) by {
            if f.drop_last().contains(c) {
                let i = choose|i: int| 0 <= i < f.drop_last().len() && f.drop_last()[i] == c;
                assert(f[i] == c);
            }
        }
        lemma_last_index_after(a, f.drop_last(), c);
    }
}

/// `/source/flags` reads back as the regular expression when the flags hold no `/`.
pub proof fn lemma_regexp_decodes(source: Seq<char>, flags: Seq<char>)
    requires
        !flags.contains('/'),
    ensures
        decode_regexp(seq!['/'] + source + seq!['/'] + flags) == Ok::<ValueView, ErrorKind>(ValueView::RegExp(source, flags)),
{
    let a = seq!['/'] + source + seq!['/'];
    let t = a + flags;
    lemma_last_index_after(a, flags, '/');
    assert(t[0] == '/');
    assert(t.subrange(1, a.len() - 1) =~= source);
    assert(t.subrange(a.len() as int, t.len() as int) =~= flags);
}

/// An error's members are found at their places, and its cause decodes back.
pub proof fn lemma_error_decodes(name: Seq<char>, message: Seq<char>, cause: Option<Box<ValueView>>)
    requires
        cause matches Some(c) ==> decodes_back(encode_spec(*c).0, encode_spec(*c).1, *c),
    ensures
        decode_error(crate::serialize::error_json(name, message, cause), crate::serialize::error_ann(cause))
            == Ok::<ValueView, ErrorKind>(ValueView::Error(name, message, cause)),
{
    lemma_tags_distinct();
    let ms = crate::serialize::error_json(name, message, cause);
    assert(ms[0].0 == key_name() && ms[1].0 == key_message());
    assert(member_index(ms, key_name()) == 0);
    assert(member_index_from(ms, key_message(), 1) == 1);
    assert(member_index(ms, key_message()) == 1);
    assert(member_index_from(ms, key_cause(), 2) == (if ms.len() == 3 { 2int } else { -1int }));
    assert(member_index_from(ms, key_cause(), 1) == member_index_from(ms, key_cause(), 2));
    match cause {
        Some(c) => {
            assert(ms[2].0 == key_cause());
            lemma_children_nonempty(*c);
            lemma_child_decodes(encode_spec(*c).0, key_cause(), collect(key_cause(), encode_spec(*c).1), encode_spec(*c).1, *c);
        },
        None => {},
    }
}

} // verus!
