//! Grouping and renumbering: turning a directory's paths into a rename plan.
//!
//! The entries are sorted by group key, with numbers descending inside a
//! group and unnumbered entries last; groups without a numbered member are
//! dropped.  Every numbered member of a surviving group is then renamed with
//! its number shifted up by one, and an unnumbered member takes number 1,
//! all zero-padded to the width of the group's shifted maximum.

use vstd::multiset::Multiset;
use vstd::prelude::*;

use crate::entry::{
    copy_range, dec_digits, digits_val, dir_of, entry_of, ext_seq, key_of, padded, sep_of, Entry,
    EntryV,
};

verus! {

broadcast use vstd::seq_lib::group_to_multiset_ensures, vstd::multiset::group_multiset_axioms;

/// The paths of a directory's files, each as one byte string.
pub type PathList = Vec<Vec<u8>>;

/// The views of a sequence of entries.
pub open spec fn views(s: Seq<Entry>) -> Seq<EntryV> {
    Seq::new(s.len(), |i: int| s[i]@)
}

/// The entries a sequence of paths parses to.
pub open spec fn parsed_of(ps: Seq<Vec<u8>>) -> Seq<EntryV> {
    Seq::new(ps.len(), |i: int| entry_of(ps[i]@))
}

/// Strict lexicographic order on byte strings.
pub open spec fn lex_lt(a: Seq<u8>, b: Seq<u8>) -> bool
    decreases a.len(),
{
    if b.len() == 0 {
        false
    } else if a.len() == 0 {
        true
    } else if a[0] < b[0] {
        true
    } else if a[0] > b[0] {
        false
    } else {
        lex_lt(a.drop_first(), b.drop_first())
    }
}

/// Number order used inside a group: descending, unnumbered entries last.
pub open spec fn num_le(a: Option<usize>, b: Option<usize>) -> bool {
    match (a, b) {
        (Some(x), Some(y)) => x >= y,
        (Some(x), None) => true,
        (None, None) => true,
        (None, Some(y)) => false,
    }
}

/// Sort order of the scan: group key ascending, then number descending with
/// unnumbered entries after all numbered ones.
pub open spec fn entry_le(x: EntryV, y: EntryV) -> bool {
    lex_lt(key_of(x), key_of(y)) || (key_of(x) == key_of(y) && num_le(x.n, y.n))
}

pub open spec fn sorted(s: Seq<EntryV>) -> bool {
    forall|i: int, j: int| 0 <= i < j < s.len() ==> entry_le(s[i], s[j])
}

/// An entry shares its group with some numbered entry of `all`.
pub open spec fn eligible(x: EntryV, all: Seq<EntryV>) -> bool {
    exists|y: EntryV| all.contains(y) && key_of(y) == key_of(x) && y.n is Some
}

/// How often `x` appears among the eligible entries of `all`: its own count
/// when its group has a numbered member, and zero otherwise.
pub open spec fn selected_count(x: EntryV, all: Seq<EntryV>) -> nat {
    if eligible(x, all) {
        all.to_multiset().count(x)
    } else {
        0
    }
}

/// `out` holds exactly the eligible entries of `all`, as often as `all`
/// does: the content of the scan's result.
pub open spec fn same_selection(out: Seq<EntryV>, all: Seq<EntryV>) -> bool {
    forall|x: EntryV| #[trigger] out.to_multiset().count(x) == selected_count(x, all)
}

/// The subsequence of `s` whose members are eligible with respect to `all`.
pub open spec fn keep_eligible(s: Seq<EntryV>, all: Seq<EntryV>) -> Seq<EntryV>
    decreases s.len(),
{
    if s.len() == 0 {
        Seq::empty()
    } else if eligible(s.last(), all) {
        keep_eligible(s.drop_last(), all).push(s.last())
    } else {
        keep_eligible(s.drop_last(), all)
    }
}

proof fn lemma_lex_trans(a: Seq<u8>, b: Seq<u8>, c: Seq<u8>)
    requires
        lex_lt(a, b),
        lex_lt(b, c),
    ensures
        lex_lt(a, c),
    decreases a.len(),
{
    if a.len() > 0 && b.len() > 0 && c.len() > 0 && a[0] == b[0] && b[0] == c[0] {
        lemma_lex_trans(a.drop_first(), b.drop_first(), c.drop_first());
    }
}

proof fn lemma_lex_connex(a: Seq<u8>, b: Seq<u8>)
    ensures
        lex_lt(a, b) || lex_lt(b, a) || a == b,
    decreases a.len(),
{
    if a.len() == 0 && b.len() == 0 {
        assert(a =~= b);
    } else if a.len() > 0 && b.len() > 0 && a[0] == b[0] {
        lemma_lex_connex(a.drop_first(), b.drop_first());
        if a.drop_first() == b.drop_first() {
            assert(a.drop_first().len() == a.len() - 1);
            assert(b.drop_first().len() == b.len() - 1);
            assert(a.len() == b.len());
            assert forall|i: int| 0 <= i < a.len() implies a[i] == b[i] by {
                if i >= 1 {
                    assert(a[i] == a.drop_first()[i - 1]);
                    assert(b[i] == b.drop_first()[i - 1]);
                }
            }
            assert(a =~= b);
        }
    }
}

proof fn lemma_lex_asym(a: Seq<u8>, b: Seq<u8>)
    requires
        lex_lt(a, b),
    ensures
        !lex_lt(b, a),
    decreases a.len(),
{
    if a.len() > 0 && b.len() > 0 && a[0] == b[0] {
        lemma_lex_asym(a.drop_first(), b.drop_first());
    }
}

/// The sort order is total.
proof fn lemma_entry_le_total(x: EntryV, y: EntryV)
    ensures
        entry_le(x, y) || entry_le(y, x),
{
    lemma_lex_connex(key_of(x), key_of(y));
}

/// The sort order is transitive.
proof fn lemma_entry_le_trans(x: EntryV, y: EntryV, z: EntryV)
    requires
        entry_le(x, y),
        entry_le(y, z),
    ensures
        entry_le(x, z),
{
    if lex_lt(key_of(x), key_of(y)) && lex_lt(key_of(y), key_of(z)) {
        lemma_lex_trans(key_of(x), key_of(y), key_of(z));
    }
}

/// Lexicographic comparison is decided at the first differing index.
proof fn lemma_lex_skip(a: Seq<u8>, b: Seq<u8>, i: int)
    requires
        0 <= i <= a.len(),
        i <= b.len(),
        forall|k: int| 0 <= k < i ==> a[k] == b[k],
    ensures
        lex_lt(a, b) == lex_lt(a.skip(i), b.skip(i)),
    decreases i,
{
    if i > 0 {
        lemma_lex_skip(a.drop_first(), b.drop_first(), i - 1);
        assert(forall|k: int|
            0 <= k < i - 1 ==> a.drop_first()[k] == a[k + 1] && b.drop_first()[k] == b[k + 1]);
        assert(a.drop_first().skip(i - 1) =~= a.skip(i));
        assert(b.drop_first().skip(i - 1) =~= b.skip(i));
    } else {
        assert(a.skip(0) =~= a);
        assert(b.skip(0) =~= b);
    }
}

/// The group key of `x` as a range of its base.
fn key_len(x: &Entry) -> (kl: usize)
    ensures
        kl <= x.b@.len(),
        key_of(x@) == x.b@.subrange(0, kl as int),
{
    let len = x.b.len();
    if len > 0 && (x.b[len - 1] == 95 || x.b[len - 1] == 45 || x.b[len - 1] == 32) {
        proof {
            assert(x.b@.drop_last() =~= x.b@.subrange(0, len - 1));
        }
        len - 1
    } else {
        proof {
            assert(x.b@ =~= x.b@.subrange(0, len as int));
        }
        len
    }
}

/// Decides `entry_le` on two entries.
fn entry_le_exec(x: &Entry, y: &Entry) -> (r: bool)
    ensures
        r == entry_le(x@, y@),
{
    let ka = key_len(x);
    let kb = key_len(y);
    let mut i: usize = 0;
    while i < ka && i < kb && x.b[i] == y.b[i]
        invariant
            i <= ka,
            i <= kb,
            ka <= x.b@.len(),
            kb <= y.b@.len(),
            key_of(x@) == x.b@.subrange(0, ka as int),
            key_of(y@) == y.b@.subrange(0, kb as int),
            forall|k: int| 0 <= k < i ==> x.b@[k] == y.b@[k],
        decreases ka - i,
    {
        i += 1;
    }
    proof {
        lemma_lex_skip(key_of(x@), key_of(y@), i as int);
        lemma_lex_skip(key_of(y@), key_of(x@), i as int);
    }
    if i < ka && i < kb {
        if x.b[i] < y.b[i] {
            proof {
                assert(key_of(x@).skip(i as int)[0] == x.b@[i as int]);
                assert(key_of(y@).skip(i as int)[0] == y.b@[i as int]);
            }
            true
        } else {
            proof {
                assert(key_of(x@).skip(i as int)[0] == x.b@[i as int]);
                assert(key_of(y@).skip(i as int)[0] == y.b@[i as int]);
                assert(!lex_lt(key_of(x@), key_of(y@)));
                assert(key_of(x@)[i as int] != key_of(y@)[i as int]);
            }
            false
        }
    } else if i < kb {
        proof {
            assert(key_of(x@).skip(i as int).len() == 0);
            assert(key_of(y@).skip(i as int).len() > 0);
        }
        true
    } else if i < ka {
        proof {
            assert(key_of(y@).skip(i as int).len() == 0);
            assert(key_of(x@).len() != key_of(y@).len());
        }
        false
    } else {
        proof {
            assert(key_of(x@) =~= key_of(y@));
        }
        match (x.n, y.n) {
            (Some(u), Some(v)) => u >= v,
            (Some(_), None) => true,
            (None, None) => true,
            (None, Some(_)) => false,
        }
    }
}

/// Decides equality of two group keys.
fn same_key_exec(x: &Entry, y: &Entry) -> (r: bool)
    ensures
        r == (key_of(x@) == key_of(y@)),
{
    let ka = key_len(x);
    let kb = key_len(y);
    if ka != kb {
        proof {
            assert(key_of(x@).len() == ka as int);
            assert(key_of(y@).len() == kb as int);
        }
        return false;
    }
    let mut i: usize = 0;
    while i < ka
        invariant
            i <= ka,
            ka == kb,
            ka <= x.b@.len(),
            kb <= y.b@.len(),
            key_of(x@) == x.b@.subrange(0, ka as int),
            key_of(y@) == y.b@.subrange(0, kb as int),
            forall|k: int| 0 <= k < i ==> x.b@[k] == y.b@[k],
        decreases ka - i,
    {
        if x.b[i] != y.b[i] {
            assert(key_of(x@)[i as int] != key_of(y@)[i as int]);
            return false;
        }
        i += 1;
    }
    proof {
        assert(key_of(x@) =~= key_of(y@));
    }
    true
}

proof fn lemma_views_remove(s: Seq<Entry>, i: int)
    requires
        0 <= i < s.len(),
    ensures
        views(s.remove(i)) =~= views(s).remove(i),
{
}

proof fn lemma_views_insert(s: Seq<Entry>, i: int, e: Entry)
    requires
        0 <= i <= s.len(),
    ensures
        views(s.insert(i, e)) =~= views(s).insert(i, e@),
{
}

/// Sorts the entries by `entry_le`, keeping the collection's contents.
fn sort_entries(v: &mut Vec<Entry>)
    ensures
        sorted(views(final(v)@)),
        views(final(v)@).to_multiset() == views(old(v)@).to_multiset(),
{
    let mut i: usize = 0;
    while i < v.len()
        invariant
            i <= v@.len(),
            views(v@).to_multiset() == views(old(v)@).to_multiset(),
            sorted(views(v@).take(i as int)),
        decreases v@.len() - i,
    {
        let ghost v0 = v@;
        let ghost s0 = views(v0);
        let e = v.remove(i);
        let ghost v1 = v@;
        let ghost s1 = views(v1);
        proof {
            lemma_views_remove(v0, i as int);
            assert(s1 == s0.remove(i as int));
            assert(e@ == s0[i as int]);
            assert(forall|k: int| 0 <= k < i ==> s1[k] == s0[k]);
        }
        let mut j: usize = 0;
        while j < i && entry_le_exec(&v[j], &e)
            invariant
                j <= i,
                i < v@.len() + 1,
                v@ == v1,
                s1 == views(v1),
                forall|k: int| 0 <= k < j ==> entry_le(s1[k], e@),
            decreases i - j,
        {
            assert(v@[j as int]@ == s1[j as int]);
            j += 1;
        }
        proof {
            if j < i {
                assert(v@[j as int]@ == s1[j as int]);
                lemma_entry_le_total(s1[j as int], e@);
                assert(entry_le(e@, s1[j as int]));
            }
        }
        v.insert(j, e);
        proof {
            lemma_views_insert(v1, j as int, e);
            let s2 = views(v@);
            assert(s2 == s1.insert(j as int, e@));
            assert(s2.to_multiset() == s1.to_multiset().insert(e@));
            assert(s0.to_multiset().count(e@) >= 1) by {
                assert(s0.contains(e@));
            }
            assert(s2.to_multiset() =~= s0.to_multiset());
            let t = s1.take(i as int);
            assert(sorted(t)) by {
                assert(t =~= s0.take(i as int));
            }
            assert forall|x: int, y: int| 0 <= x < y < i + 1 implies entry_le(
                #[trigger] s2.take(i + 1)[x],
                #[trigger] s2.take(i + 1)[y],
            ) by {
                assert(s2.take(i + 1)[x] == s2[x]);
                assert(s2.take(i + 1)[y] == s2[y]);
                if y < j {
                    assert(entry_le(t[x], t[y]));
                } else if y == j {
                    assert(entry_le(s1[x], e@));
                } else {
                    if x < j {
                        assert(entry_le(t[x], t[y - 1]));
                    } else if x == j {
                        if y - 1 == j {
                            assert(entry_le(e@, s1[j as int]));
                        } else {
                            assert(entry_le(e@, s1[j as int]));
                            assert(entry_le(s1[j as int], s1[y - 1]));
                            lemma_entry_le_trans(e@, s1[j as int], s1[y - 1]);
                        }
                    } else {
                        assert(entry_le(t[x - 1], t[y - 1]));
                    }
                }
            }
            assert(sorted(s2.take(i + 1)));
        }
        i += 1;
    }
    proof {
        assert(views(v@).take(v@.len() as int) =~= views(v@));
    }
}


proof fn lemma_views_push(s: Seq<Entry>, e: Entry)
    ensures
        views(s.push(e)) =~= views(s).push(e@),
{
}

/// A copy of one entry.
fn dup_entry(e: &Entry) -> (r: Entry)
    ensures
        r@ == e@,
{
    proof {
        assert(e.p@.subrange(0, e.p@.len() as int) =~= e.p@);
        assert(e.b@.subrange(0, e.b@.len() as int) =~= e.b@);
    }
    let p = copy_range(&e.p, 0, e.p.len());
    let b = copy_range(&e.b, 0, e.b.len());
    let a = match &e.a {
        Some(x) => {
            proof {
                assert(x@.subrange(0, x@.len() as int) =~= x@);
            }
            Some(copy_range(x, 0, x.len()))
        },
        None => None,
    };
    Entry { p, b, a, n: e.n }
}

/// Whether the entry at `i` has a numbered entry of the same group anywhere
/// in the collection.
fn eligible_exec(es: &Vec<Entry>, i: usize) -> (r: bool)
    requires
        i < es@.len(),
    ensures
        r == eligible(views(es@)[i as int], views(es@)),
{
    let ghost all = views(es@);
    let mut j: usize = 0;
    while j < es.len()
        invariant
            j <= es@.len(),
            i < es@.len(),
            all == views(es@),
            forall|k: int|
                0 <= k < j ==> !(key_of(#[trigger] all[k]) == key_of(all[i as int]) && all[k].n
                    is Some),
        decreases es@.len() - j,
    {
        if es[j].n.is_some() && same_key_exec(&es[j], &es[i]) {
            proof {
                assert(all.contains(all[j as int]));
            }
            return true;
        }
        j += 1;
    }
    proof {
        if eligible(all[i as int], all) {
            let y = choose|y: EntryV|
                all.contains(y) && key_of(y) == key_of(all[i as int]) && y.n is Some;
            let k = choose|k: int| 0 <= k < all.len() && all[k] == y;
            assert(!(key_of(all[k]) == key_of(all[i as int]) && all[k].n is Some));
        }
    }
    false
}

/// Members of the filtered sequence come from the sequence itself.
proof fn lemma_keep_contains(s: Seq<EntryV>, all: Seq<EntryV>)
    ensures
        forall|i: int|
            0 <= i < keep_eligible(s, all).len() ==> s.contains(
                #[trigger] keep_eligible(s, all)[i],
            ),
    decreases s.len(),
{
    if s.len() > 0 {
        lemma_keep_contains(s.drop_last(), all);
        let k = keep_eligible(s, all);
        let kd = keep_eligible(s.drop_last(), all);
        assert forall|i: int| 0 <= i < k.len() implies s.contains(k[i]) by {
            if eligible(s.last(), all) && i == k.len() - 1 {
                assert(k[i] == s.last());
                assert(s[s.len() - 1] == s.last());
            } else {
                assert(k[i] == kd[i]);
                assert(s.drop_last().contains(kd[i]));
                let j = choose|j: int| 0 <= j < s.drop_last().len() && s.drop_last()[j] == kd[i];
                assert(s[j] == kd[i]);
            }
        }
    }
}

/// Filtering a sorted sequence leaves it sorted.
proof fn lemma_keep_sorted(s: Seq<EntryV>, all: Seq<EntryV>)
    requires
        sorted(s),
    ensures
        sorted(keep_eligible(s, all)),
    decreases s.len(),
{
    if s.len() > 0 {
        assert(forall|i: int| 0 <= i < s.len() - 1 ==> s.drop_last()[i] == s[i]);
        assert(sorted(s.drop_last()));
        lemma_keep_sorted(s.drop_last(), all);
        lemma_keep_contains(s.drop_last(), all);
        let k = keep_eligible(s, all);
        let kd = keep_eligible(s.drop_last(), all);
        if eligible(s.last(), all) {
            assert forall|i: int, j: int| 0 <= i < j < k.len() implies entry_le(
                #[trigger] k[i],
                #[trigger] k[j],
            ) by {
                if j == k.len() - 1 {
                    assert(k[j] == s.last());
                    assert(k[i] == kd[i]);
                    assert(s.drop_last().contains(kd[i]));
                    let m = choose|m: int|
                        0 <= m < s.drop_last().len() && s.drop_last()[m] == kd[i];
                    assert(entry_le(s[m], s[s.len() - 1]));
                } else {
                    assert(entry_le(kd[i], kd[j]));
                }
            }
        }
    }
}

/// The filtered sequence holds exactly the eligible members, as often as
/// the sequence does.
proof fn lemma_keep_count(s: Seq<EntryV>, all: Seq<EntryV>, x: EntryV)
    ensures
        keep_eligible(s, all).to_multiset().count(x) == (if eligible(x, all) {
            s.to_multiset().count(x)
        } else {
            0
        }),
    decreases s.len(),
{
    if s.len() == 0 {
        assert(keep_eligible(s, all).to_multiset() =~= Multiset::empty());
        assert(s.to_multiset() =~= Multiset::empty());
    } else {
        lemma_keep_count(s.drop_last(), all, x);
        assert(s.drop_last().push(s.last()) =~= s);
        assert(s.drop_last().push(s.last()).to_multiset() == s.drop_last().to_multiset().insert(
            s.last(),
        ));
        if eligible(s.last(), all) {
            assert(keep_eligible(s, all) == keep_eligible(s.drop_last(), all).push(s.last()));
        }
    }
}

/// Eligibility looks only at which entries are present.
proof fn lemma_eligible_multiset(a: Seq<EntryV>, b: Seq<EntryV>, x: EntryV)
    requires
        a.to_multiset() == b.to_multiset(),
    ensures
        eligible(x, a) == eligible(x, b),
{
    if eligible(x, a) {
        let y = choose|y: EntryV| a.contains(y) && key_of(y) == key_of(x) && y.n is Some;
        assert(a.to_multiset().count(y) > 0);
        assert(b.contains(y));
    }
    if eligible(x, b) {
        let y = choose|y: EntryV| b.contains(y) && key_of(y) == key_of(x) && y.n is Some;
        assert(b.to_multiset().count(y) > 0);
        assert(a.contains(y));
    }
}

/// Parses every path, sorts the entries by group key with numbers
/// descending, and keeps exactly the entries whose group has a numbered
/// member.
pub fn entries(paths: PathList) -> (r: Vec<Entry>)
    ensures
        sorted(views(r@)),
        same_selection(views(r@), parsed_of(paths@)),
{
    let ghost orig = paths@;
    let mut ps = paths;
    let mut es: Vec<Entry> = Vec::new();
    while 0 < ps.len()
        invariant
            es@.len() + ps@.len() == orig.len(),
            ps@ =~= orig.skip(es@.len() as int),
            views(es@) =~= parsed_of(orig).take(es@.len() as int),
        decreases ps@.len(),
    {
        let ghost n0 = es@.len() as int;
        let p = ps.remove(0);
        proof {
            assert(p == orig.skip(n0)[0]);
            assert(p == orig[n0]);
            assert(ps@ =~= orig.skip(n0 + 1));
        }
        let e = Entry::from_path(p);
        let ghost es0 = es@;
        es.push(e);
        proof {
            lemma_views_push(es0, e);
            assert(e@ == parsed_of(orig)[n0]);
            assert(views(es@) =~= parsed_of(orig).take(n0 + 1));
        }
    }
    proof {
        assert(views(es@) =~= parsed_of(orig));
    }
    sort_entries(&mut es);
    let ghost all = views(es@);
    let mut out: Vec<Entry> = Vec::new();
    let mut i: usize = 0;
    while i < es.len()
        invariant
            i <= es@.len(),
            all == views(es@),
            sorted(all),
            all.to_multiset() == parsed_of(orig).to_multiset(),
            views(out@) == keep_eligible(all.take(i as int), all),
        decreases es@.len() - i,
    {
        let ghost t1 = all.take(i + 1);
        proof {
            assert(t1.drop_last() =~= all.take(i as int));
            assert(t1.last() == all[i as int]);
        }
        if eligible_exec(&es, i) {
            let d = dup_entry(&es[i]);
            let ghost before = out@;
            out.push(d);
            proof {
                lemma_views_push(before, d);
                assert(views(out@) =~= views(before).push(all[i as int]));
                assert(views(out@) =~= keep_eligible(t1, all));
            }
        } else {
            proof {
                assert(views(out@) =~= keep_eligible(t1, all));
            }
        }
        i += 1;
    }
    proof {
        assert(all.take(all.len() as int) =~= all);
        assert(views(out@) == keep_eligible(all, all));
        lemma_keep_sorted(all, all);
        assert forall|x: EntryV|
            #[trigger] views(out@).to_multiset().count(x) == selected_count(x, parsed_of(orig)) by {
            lemma_keep_count(all, all, x);
            lemma_eligible_multiset(all, parsed_of(orig), x);
        }
    }
    out
}


/// Two entries of one rename group.
pub open spec fn same_key(x: EntryV, y: EntryV) -> bool {
    key_of(x) == key_of(y)
}

/// First index of the maximal run of equal group keys around `i`.
pub open spec fn run_lo(s: Seq<EntryV>, i: int) -> int
    decreases i,
{
    if 0 < i < s.len() && same_key(s[i - 1], s[i]) {
        run_lo(s, i - 1)
    } else {
        i
    }
}

/// Index one past the maximal run of equal group keys around `i`.
pub open spec fn run_hi(s: Seq<EntryV>, i: int) -> int
    decreases s.len() - i,
{
    if 0 <= i && i + 1 < s.len() && same_key(s[i], s[i + 1]) {
        run_hi(s, i + 1)
    } else {
        i + 1
    }
}

/// The greatest number among the entries of `s[lo..hi]`.
pub open spec fn group_max(s: Seq<EntryV>, lo: int, hi: int) -> Option<usize>
    decreases hi - lo,
{
    if lo >= hi {
        None
    } else {
        let rest = group_max(s, lo + 1, hi);
        match (s[lo].n, rest) {
            (Some(x), Some(m)) => if x >= m {
                Some(x)
            } else {
                Some(m)
            },
            (Some(x), None) => Some(x),
            (None, _) => rest,
        }
    }
}

/// The separator recorded on the first numbered entry of `s[lo..hi]`.
pub open spec fn group_sep(s: Seq<EntryV>, lo: int, hi: int) -> Option<u8>
    decreases hi - lo,
{
    if lo >= hi {
        None
    } else if s[lo].n is Some {
        sep_of(s[lo])
    } else {
        group_sep(s, lo + 1, hi)
    }
}

/// The padding width of a group whose greatest number is `m`: wide enough
/// for the shifted maximum.
pub open spec fn width_of(m: usize) -> nat {
    dec_digits((m + 1) as nat).len()
}

/// The file name an entry is renamed to: its number shifted up by one, or
/// number 1 appended after the group separator for an unnumbered entry.
pub open spec fn target_name(x: EntryV, sep: Option<u8>, w: nat) -> Option<Seq<u8>> {
    match x.n {
        Some(m) => Some(x.b + padded((m + 1) as nat, w) + ext_seq(x)),
        None => match sep {
            Some(c) => Some(x.b + seq![c] + padded(1, w) + ext_seq(x)),
            None => None,
        },
    }
}

/// The rename pair of the entry at `i`, if it gets one: its group must have
/// a numbered member, and an unnumbered entry needs the group separator.
pub open spec fn target_of(s: Seq<EntryV>, i: int) -> Option<(Seq<u8>, Seq<u8>)> {
    let lo = run_lo(s, i);
    let hi = run_hi(s, i);
    match group_max(s, lo, hi) {
        None => None,
        Some(m) => match target_name(s[i], group_sep(s, lo, hi), width_of(m)) {
            None => None,
            Some(nm) => Some((s[i].p, dir_of(s[i].p) + nm)),
        },
    }
}

/// The rename pairs of the first `k` entries, in order.
pub open spec fn plan_prefix(s: Seq<EntryV>, k: int) -> Seq<(Seq<u8>, Seq<u8>)>
    decreases k,
{
    if k <= 0 {
        Seq::empty()
    } else {
        match target_of(s, k - 1) {
            Some(pr) => plan_prefix(s, k - 1).push(pr),
            None => plan_prefix(s, k - 1),
        }
    }
}

/// The whole rename plan of a sequence of entries.
pub open spec fn plan_of(s: Seq<EntryV>) -> Seq<(Seq<u8>, Seq<u8>)> {
    plan_prefix(s, s.len() as int)
}

/// The views of a sequence of rename pairs.
pub open spec fn pairs_view(q: Seq<(Vec<u8>, Vec<u8>)>) -> Seq<(Seq<u8>, Seq<u8>)> {
    Seq::new(q.len(), |i: int| (q[i].0@, q[i].1@))
}

/// Every entry's number stays below the greatest number of its range.
proof fn lemma_group_max_bounds(s: Seq<EntryV>, lo: int, hi: int)
    requires
        0 <= lo,
        hi <= s.len(),
    ensures
        group_max(s, lo, hi) matches Some(m) ==> (exists|k: int|
            lo <= k < hi && s[k].n == Some(m)),
        (forall|k: int|
            lo <= k < hi ==> ((#[trigger] s[k].n) matches Some(x) ==> group_max(s, lo, hi)
                matches Some(m) && x <= m)),
    decreases hi - lo,
{
    if lo < hi {
        lemma_group_max_bounds(s, lo + 1, hi);
        if group_max(s, lo, hi) is Some {
            let m = group_max(s, lo, hi)->0;
            if s[lo].n == Some(m) {
                assert(lo <= lo < hi && s[lo].n == Some(m));
            } else {
                let k = choose|k: int| lo + 1 <= k < hi && s[k].n == group_max(s, lo + 1, hi);
                assert(lo <= k < hi && s[k].n == Some(m));
            }
        }
    }
}

proof fn lemma_pairs_push(q: Seq<(Vec<u8>, Vec<u8>)>, x: (Vec<u8>, Vec<u8>))
    ensures
        pairs_view(q.push(x)) =~= pairs_view(q).push((x.0@, x.1@)),
{
}

/// A copy of one byte string.
fn dup_bytes(v: &Vec<u8>) -> (r: Vec<u8>)
    ensures
        r@ == v@,
{
    proof {
        assert(v@.subrange(0, v@.len() as int) =~= v@);
    }
    copy_range(v, 0, v.len())
}

/// Computes the rename plan of the entries: per maximal run of equal group
/// keys that holds a numbered entry, every numbered member is renamed with
/// its number shifted up by one, and an unnumbered member takes number 1
/// after the group separator, all zero-padded to the width of the shifted
/// maximum; the directory part of each path is kept.
pub fn plan(es: &Vec<Entry>) -> (r: Vec<(Vec<u8>, Vec<u8>)>)
    requires
        (forall|k: int|
            0 <= k < views(es@).len() ==> ((#[trigger] views(es@)[k]).n matches Some(m) ==> m
                < usize::MAX)),
    ensures
        pairs_view(r@) == plan_of(views(es@)),
{
    let ghost s = views(es@);
    let mut r: Vec<(Vec<u8>, Vec<u8>)> = Vec::new();
    let mut i: usize = 0;
    while i < es.len()
        invariant
            i <= es@.len(),
            s == views(es@),
            (forall|k: int|
                0 <= k < s.len() ==> ((#[trigger] s[k]).n matches Some(m) ==> m < usize::MAX)),
            pairs_view(r@) == plan_prefix(s, i as int),
        decreases es@.len() - i,
    {
        let mut lo = i;
        while lo > 0 && same_key_exec(&es[lo - 1], &es[lo])
            invariant
                lo <= i,
                i < es@.len(),
                s == views(es@),
                run_lo(s, i as int) == run_lo(s, lo as int),
            decreases lo,
        {
            proof {
                assert(s[lo - 1] == es@[lo - 1]@ && s[lo as int] == es@[lo as int]@);
            }
            lo -= 1;
        }
        proof {
            assert(run_lo(s, lo as int) == lo as int);
        }
        let mut hi = i + 1;
        while hi < es.len() && same_key_exec(&es[hi - 1], &es[hi])
            invariant
                i < hi <= es@.len(),
                i < es@.len(),
                s == views(es@),
                run_hi(s, i as int) == run_hi(s, hi - 1),
            decreases es@.len() - hi,
        {
            proof {
                assert(s[hi - 1] == es@[hi - 1]@ && s[hi as int] == es@[hi as int]@);
            }
            hi += 1;
        }
        proof {
            assert(run_hi(s, hi - 1) == hi as int);
            assert(run_lo(s, i as int) == lo as int && run_hi(s, i as int) == hi as int);
        }
        let mut k = hi;
        let mut mx: Option<usize> = None;
        while k > lo
            invariant
                lo <= k <= hi,
                hi <= es@.len(),
                s == views(es@),
                mx == group_max(s, k as int, hi as int),
            decreases k,
        {
            k -= 1;
            let nk = es[k].n;
            proof {
                assert(nk == s[k as int].n);
            }
            mx = match (nk, mx) {
                (Some(x), Some(m)) => if x >= m {
                    Some(x)
                } else {
                    Some(m)
                },
                (Some(x), None) => Some(x),
                (None, m) => m,
            };
        }
        let mut q = lo;
        while q < hi && es[q].n.is_none()
            invariant
                lo <= q <= hi,
                hi <= es@.len(),
                s == views(es@),
                group_sep(s, lo as int, hi as int) == group_sep(s, q as int, hi as int),
            decreases hi - q,
        {
            proof {
                assert(es@[q as int]@ == s[q as int]);
            }
            q += 1;
        }
        let sp: Option<u8> = if q < hi {
            proof {
                assert(es@[q as int]@ == s[q as int]);
            }
            es[q].file_name_sep()
        } else {
            None
        };
        proof {
            assert(sp == group_sep(s, lo as int, hi as int));
        }
        let ghost r0 = r@;
        match mx {
            Some(m) => {
                proof {
                    lemma_group_max_bounds(s, lo as int, hi as int);
                    assert(es@[i as int]@ == s[i as int]);
                }
                let w = log10(m + 1);
                let t = es[i].new_path(true, sp, w);
                match t {
                    Some(tp) => {
                        let f = dup_bytes(&es[i].p);
                        proof {
                            let nm = target_name(s[i as int], sp, width_of(m))->0;
                            assert(tp@ =~= dir_of(s[i as int].p) + nm);
                            assert(target_of(s, i as int) == Some((s[i as int].p, tp@)));
                        }
                        r.push((f, tp));
                        proof {
                            lemma_pairs_push(r0, ((f, tp)));
                        }
                    },
                    None => {
                        proof {
                            assert(target_of(s, i as int) is None);
                        }
                    },
                }
            },
            None => {
                proof {
                    assert(target_of(s, i as int) is None);
                }
            },
        }
        proof {
            assert(pairs_view(r@) == plan_prefix(s, i + 1));
        }
        i += 1;
    }
    proof {
        assert(plan_prefix(s, s.len() as int) == plan_of(s));
    }
    r
}


proof fn lemma_run_lo_props(s: Seq<EntryV>, i: int)
    requires
        0 <= i < s.len(),
    ensures
        0 <= run_lo(s, i) <= i,
        forall|k: int| run_lo(s, i) <= k <= i ==> same_key(#[trigger] s[k], s[i]),
        run_lo(s, i) > 0 ==> !same_key(s[run_lo(s, i) - 1], s[run_lo(s, i)]),
    decreases i,
{
    if 0 < i && same_key(s[i - 1], s[i]) {
        lemma_run_lo_props(s, i - 1);
    }
}

proof fn lemma_run_hi_props(s: Seq<EntryV>, i: int)
    requires
        0 <= i < s.len(),
    ensures
        i < run_hi(s, i) <= s.len(),
        forall|k: int| i <= k < run_hi(s, i) ==> same_key(#[trigger] s[k], s[i]),
        run_hi(s, i) < s.len() ==> !same_key(s[run_hi(s, i) - 1], s[run_hi(s, i)]),
    decreases s.len() - i,
{
    if i + 1 < s.len() && same_key(s[i], s[i + 1]) {
        lemma_run_hi_props(s, i + 1);
    }
}

proof fn lemma_run_lo_connected(s: Seq<EntryV>, i: int, j: int)
    requires
        0 <= i <= j < s.len(),
        forall|k: int| i <= k <= j ==> same_key(#[trigger] s[k], s[j]),
    ensures
        run_lo(s, i) == run_lo(s, j),
    decreases j - i,
{
    if i < j {
        assert(same_key(s[j - 1], s[j]));
        lemma_run_lo_connected(s, i, j - 1);
    }
}

/// In a sorted sequence, an entry between two entries of one group key
/// carries that key too.
proof fn lemma_sorted_key_between(s: Seq<EntryV>, i: int, k: int, j: int)
    requires
        sorted(s),
        0 <= i <= k <= j < s.len(),
        same_key(s[i], s[j]),
    ensures
        same_key(s[k], s[i]),
{
    if i < k && k < j {
        assert(entry_le(s[i], s[k]));
        assert(entry_le(s[k], s[j]));
        if lex_lt(key_of(s[i]), key_of(s[k])) {
            if lex_lt(key_of(s[k]), key_of(s[j])) {
                lemma_lex_trans(key_of(s[i]), key_of(s[k]), key_of(s[j]));
                lemma_lex_asym(key_of(s[i]), key_of(s[j]));
            } else {
                lemma_lex_asym(key_of(s[i]), key_of(s[k]));
            }
        }
    }
}

/// A range has a greatest number exactly when it has a numbered member.
proof fn lemma_group_max_exists(s: Seq<EntryV>, lo: int, hi: int)
    requires
        0 <= lo,
        hi <= s.len(),
    ensures
        (group_max(s, lo, hi) is Some) == (exists|k: int|
            lo <= k < hi && (#[trigger] s[k].n) is Some),
    decreases hi - lo,
{
    if lo < hi {
        lemma_group_max_exists(s, lo + 1, hi);
        if s[lo].n is Some {
            assert(lo <= lo < hi && s[lo].n is Some);
        }
    }
}

proof fn lemma_group_max_all_none(s: Seq<EntryV>, lo: int, hi: int)
    requires
        0 <= lo,
        hi <= s.len(),
        forall|k: int| lo <= k < hi ==> (#[trigger] s[k].n) is None,
    ensures
        group_max(s, lo, hi) is None,
{
    lemma_group_max_exists(s, lo, hi);
}

/// Law: in a sorted sequence, two entries belong to the same rename group
/// exactly when their group keys are equal; and a group is renumbered
/// exactly when one of its members carries a number.
pub proof fn lemma_grouping(s: Seq<EntryV>, i: int, j: int)
    requires
        sorted(s),
        0 <= i < s.len(),
        0 <= j < s.len(),
    ensures
        same_key(s[i], s[j]) == (run_lo(s, i) == run_lo(s, j)),
        (group_max(s, run_lo(s, i), run_hi(s, i)) is Some) == (exists|k: int|
            run_lo(s, i) <= k < run_hi(s, i) && (#[trigger] s[k].n) is Some),
{
    lemma_run_lo_props(s, i);
    lemma_run_lo_props(s, j);
    lemma_run_hi_props(s, i);
    lemma_group_max_exists(s, run_lo(s, i), run_hi(s, i));
    if same_key(s[i], s[j]) {
        if i <= j {
            assert forall|k: int| i <= k <= j implies same_key(#[trigger] s[k], s[j]) by {
                lemma_sorted_key_between(s, i, k, j);
            }
            lemma_run_lo_connected(s, i, j);
        } else {
            assert forall|k: int| j <= k <= i implies same_key(#[trigger] s[k], s[i]) by {
                lemma_sorted_key_between(s, j, k, i);
            }
            lemma_run_lo_connected(s, j, i);
        }
    }
    if run_lo(s, i) == run_lo(s, j) {
        assert(same_key(s[run_lo(s, i)], s[i]));
        assert(same_key(s[run_lo(s, j)], s[j]));
    }
}

/// Law: every numbered member of a renumbered group is renamed to its base,
/// its old number plus one — exactly — zero-padded to the group's width,
/// and its extension, under its old directory.
pub proof fn lemma_shift_by_one(s: Seq<EntryV>, i: int)
    requires
        0 <= i < s.len(),
        s[i].n is Some,
    ensures
        target_of(s, i) is Some,
        (target_of(s, i) matches Some(pr) ==> pr.0 == s[i].p && pr.1 == dir_of(s[i].p) + s[i].b
            + padded((s[i].n->0 + 1) as nat, width_of(group_max(s, run_lo(s, i), run_hi(s, i))->0))
            + ext_seq(s[i]) && digits_val(
            padded((s[i].n->0 + 1) as nat, width_of(group_max(s, run_lo(s, i), run_hi(s, i))->0)),
        ) == s[i].n->0 + 1),
{
    lemma_run_lo_props(s, i);
    lemma_run_hi_props(s, i);
    lemma_group_max_exists(s, run_lo(s, i), run_hi(s, i));
    assert(run_lo(s, i) <= i < run_hi(s, i) && s[i].n is Some);
    let m = group_max(s, run_lo(s, i), run_hi(s, i))->0;
    crate::entry::lemma_padded_props((s[i].n->0 + 1) as nat, width_of(m));
}

/// Law: all numbered members of one renumbered group share one output
/// width: the digit count of the group's greatest number plus one.
pub proof fn lemma_width_consistency(s: Seq<EntryV>, i: int)
    requires
        0 <= i < s.len(),
        s[i].n is Some,
    ensures
        ({
            let w = width_of(group_max(s, run_lo(s, i), run_hi(s, i))->0);
            padded((s[i].n->0 + 1) as nat, w).len() == w
        }),
{
    let lo = run_lo(s, i);
    let hi = run_hi(s, i);
    lemma_run_lo_props(s, i);
    lemma_run_hi_props(s, i);
    lemma_group_max_bounds(s, lo, hi);
    lemma_group_max_exists(s, lo, hi);
    assert(lo <= i < hi && s[i].n is Some);
    let m = group_max(s, lo, hi)->0;
    let x = s[i].n->0;
    assert(x <= m);
    crate::entry::lemma_dec_digits_mono((x + 1) as nat, (m + 1) as nat);
    crate::entry::lemma_padded_props((x + 1) as nat, width_of(m));
}

/// Law: an entry whose group has no numbered member is never renamed.
pub proof fn lemma_non_interference(s: Seq<EntryV>, i: int)
    requires
        0 <= i < s.len(),
        forall|k: int|
            run_lo(s, i) <= k < run_hi(s, i) ==> (#[trigger] s[k].n) is None,
    ensures
        target_of(s, i) is None,
{
    lemma_run_lo_props(s, i);
    lemma_run_hi_props(s, i);
    lemma_group_max_all_none(s, run_lo(s, i), run_hi(s, i));
}

/// Number of decimal digits of `u`; 1 for 0.
pub fn log10(u: usize) -> (d: usize)
    ensures
        d as nat == dec_digits(u as nat).len(),
        1 <= d <= u + 1,
    decreases u,
{
    if u < 10 {
        1
    } else {
        proof {
            assert(u / 10 < u) by (nonlinear_arith)
                requires
                    u >= 10,
            ;
        }
        1 + log10(u / 10)
    }
}

} // verus!
