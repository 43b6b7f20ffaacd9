//! The tag catalog: a strictly sorted list of tag names, and the
//! selection flags that mirror one image's tags against the catalog.
//!
//! A catalog never holds a name twice; insertion keeps it sorted, and
//! removing a name from an image's own tag list never touches the catalog.

use vstd::prelude::*;

use crate::order::{
    lex_lt, lemma_lex_lt_asymmetric, lemma_lex_lt_connected, lemma_lex_lt_irreflexive,
    lemma_lex_lt_transitive, str_lt,
};

verus! {

/// A list of names in strictly ascending lexicographic order.
///
/// Strict order implies that no name occurs twice.
pub open spec fn strictly_sorted(s: Seq<Seq<char>>) -> bool {
    forall|i: int, j: int| 0 <= i < j < s.len() ==> lex_lt(s[i], s[j])
}

/// Where a new name lands in a sorted list: before the first entry that
/// does not precede it.
pub open spec fn sorted_insert(s: Seq<Seq<char>>, name: Seq<char>) -> Seq<Seq<char>>
    decreases s.len(),
{
    if s.len() == 0 {
        seq![name]
    } else if lex_lt(s[0], name) {
        seq![s[0]] + sorted_insert(s.drop_first(), name)
    } else {
        seq![name] + s
    }
}

/// What inserting a tag into a catalog yields: the catalog itself when the
/// name is already present, the sorted insertion otherwise.
pub open spec fn insert_if_absent(s: Seq<Seq<char>>, name: Seq<char>) -> Seq<Seq<char>> {
    if s.contains(name) {
        s
    } else {
        sorted_insert(s, name)
    }
}

/// Removing the first occurrence of a name from a list; in a strictly
/// sorted list this is the only occurrence.
pub open spec fn remove_name(s: Seq<Seq<char>>, name: Seq<char>) -> Seq<Seq<char>>
    decreases s.len(),
{
    if s.len() == 0 {
        s
    } else if s[0] == name {
        s.drop_first()
    } else {
        seq![s[0]] + remove_name(s.drop_first(), name)
    }
}

/// The flags that drive the per-tag checkboxes: one flag per catalog
/// entry, true exactly when that entry occurs in the image's tag list.
pub open spec fn selection_flags_spec(catalog: Seq<Seq<char>>, image_tags: Seq<Seq<char>>) -> Seq<
    bool,
> {
    Seq::new(catalog.len(), |i: int| image_tags.contains(catalog[i]))
}

/// The selection flags are a pure, pointwise function of the catalog and
/// one image's tag list: the flag at position `i` is true exactly when the
/// catalog entry at `i` occurs in the tag list.
pub proof fn lemma_selection_flags_pointwise(catalog: Seq<Seq<char>>, image_tags: Seq<Seq<char>>)
    ensures
        selection_flags_spec(catalog, image_tags).len() == catalog.len(),
        forall|i: int|
            0 <= i < catalog.len() ==> selection_flags_spec(catalog, image_tags)[i]
                == image_tags.contains(#[trigger] catalog[i]),
{
}

/// A strictly sorted list holds no name twice.
pub proof fn lemma_sorted_no_duplicates(s: Seq<Seq<char>>)
    requires
        strictly_sorted(s),
    ensures
        s.no_duplicates(),
{
    assert forall|i: int, j: int| 0 <= i < s.len() && 0 <= j < s.len() && i != j implies s[i]
        != s[j] by {
        if s[i] == s[j] {
            if i < j {
                lemma_lex_lt_irreflexive(s[i]);
            } else {
                lemma_lex_lt_irreflexive(s[j]);
            }
        }
    }
}

/// Sorted insertion of an absent name keeps the list strictly sorted,
/// adds that name, and keeps every name that was there.
pub proof fn lemma_sorted_insert_props(s: Seq<Seq<char>>, name: Seq<char>)
    requires
        strictly_sorted(s),
        !s.contains(name),
    ensures
        strictly_sorted(sorted_insert(s, name)),
        sorted_insert(s, name).len() == s.len() + 1,
        sorted_insert(s, name).contains(name),
        forall|x: Seq<char>|
            sorted_insert(s, name).contains(x) <==> (s.contains(x) || x == name),
    decreases s.len(),
{
    let r = sorted_insert(s, name);
    if s.len() == 0 {
        assert(r[0] == name);
        assert(forall|x: Seq<char>| r.contains(x) ==> x == name);
    } else if lex_lt(s[0], name) {
        let tail = s.drop_first();
        let rt = sorted_insert(tail, name);
        assert(strictly_sorted(tail)) by {
            assert forall|i: int, j: int| 0 <= i < j < tail.len() implies lex_lt(
                tail[i],
                tail[j],
            ) by {
                assert(tail[i] == s[i + 1]);
                assert(tail[j] == s[j + 1]);
            }
        }
        assert(!tail.contains(name)) by {
            if tail.contains(name) {
                let k = choose|k: int| 0 <= k < tail.len() && tail[k] == name;
                assert(s[k + 1] == name);
                assert(s.contains(name));
            }
        }
        lemma_sorted_insert_props(tail, name);
        assert(r =~= seq![s[0]] + rt);
        // every element of the new tail is above the head
        assert forall|v: int| 1 <= v < r.len() implies lex_lt(r[0], r[v]) by {
            let x = rt[v - 1];
            assert(rt.contains(x)) by {
                assert(0 <= v - 1 < rt.len() && rt[v - 1] == x);
            }
            assert(tail.contains(x) || x == name);
            if x == name {
                assert(lex_lt(s[0], name));
            } else {
                let k = choose|k: int| 0 <= k < tail.len() && tail[k] == x;
                assert(tail[k] == s[k + 1]);
                assert(lex_lt(s[0], s[k + 1]));
            }
        }
        assert(strictly_sorted(r)) by {
            assert forall|u: int, v: int| 0 <= u < v < r.len() implies lex_lt(r[u], r[v]) by {
                if u > 0 {
                    assert(r[u] == rt[u - 1] && r[v] == rt[v - 1]);
                }
            }
        }
        assert(r.contains(name)) by {
            assert(rt.contains(name));
            let k = choose|k: int| 0 <= k < rt.len() && rt[k] == name;
            assert(r[k + 1] == name);
        }
        assert forall|x: Seq<char>| r.contains(x) <==> (s.contains(x) || x == name) by {
            if r.contains(x) {
                let k = choose|k: int| 0 <= k < r.len() && r[k] == x;
                if k == 0 {
                    assert(s[0] == x);
                    assert(s.contains(x));
                } else {
                    assert(rt[k - 1] == x);
                    assert(rt.contains(x)) by {
                        assert(0 <= k - 1 < rt.len() && rt[k - 1] == x);
                    }
                    assert(tail.contains(x) || x == name);
                    if x != name {
                        let m = choose|m: int| 0 <= m < tail.len() && tail[m] == x;
                        assert(s[m + 1] == x);
                        assert(s.contains(x));
                    }
                }
            }
            if s.contains(x) {
                let k = choose|k: int| 0 <= k < s.len() && s[k] == x;
                if k == 0 {
                    assert(r[0] == x);
                    assert(r.contains(x));
                } else {
                    assert(tail[k - 1] == x);
                    assert(tail.contains(x)) by {
                        assert(0 <= k - 1 < tail.len() && tail[k - 1] == x);
                    }
                    assert(rt.contains(x));
                    let m = choose|m: int| 0 <= m < rt.len() && rt[m] == x;
                    assert(r[m + 1] == x);
                    assert(r.contains(x));
                }
            }
            if x == name {
                assert(r.contains(name));
            }
        }
    } else {
        // the head does not precede the new name, and cannot equal it,
        // so the new name precedes the head
        assert(s[0] != name) by {
            assert(s.contains(s[0]));
        }
        assert(lex_lt(name, s[0])) by {
            if !lex_lt(name, s[0]) {
                lemma_lex_lt_connected(s[0], name);
            }
        }
        assert(r =~= seq![name] + s);
        assert(strictly_sorted(r)) by {
            assert forall|u: int, v: int| 0 <= u < v < r.len() implies lex_lt(r[u], r[v]) by {
                if u == 0 {
                    if v == 1 {
                        assert(r[v] == s[0]);
                    } else {
                        assert(r[v] == s[v - 1]);
                        assert(lex_lt(s[0], s[v - 1]));
                        lemma_lex_lt_transitive(name, s[0], s[v - 1]);
                    }
                } else {
                    assert(r[u] == s[u - 1] && r[v] == s[v - 1]);
                }
            }
        }
        assert(r[0] == name);
        assert forall|x: Seq<char>| r.contains(x) <==> (s.contains(x) || x == name) by {
            if r.contains(x) {
                let k = choose|k: int| 0 <= k < r.len() && r[k] == x;
                if k > 0 {
                    assert(s[k - 1] == x);
                }
            }
            if s.contains(x) {
                let k = choose|k: int| 0 <= k < s.len() && s[k] == x;
                assert(r[k + 1] == x);
            }
        }
    }
}

/// When every entry before position `i` precedes the name and the entry at
/// `i` (if any) comes after it, sorted insertion is insertion at `i`.
pub proof fn lemma_sorted_insert_at(s: Seq<Seq<char>>, name: Seq<char>, i: int)
    requires
        0 <= i <= s.len(),
        forall|j: int| 0 <= j < i ==> lex_lt(#[trigger] s[j], name),
        i == s.len() || lex_lt(name, s[i]),
    ensures
        sorted_insert(s, name) == s.insert(i, name),
    decreases s.len(),
{
    if s.len() == 0 {
        assert(sorted_insert(s, name) =~= s.insert(0, name));
    } else if i == 0 {
        assert(!lex_lt(s[0], name)) by {
            lemma_lex_lt_asymmetric(name, s[0]);
        }
        assert(sorted_insert(s, name) =~= s.insert(0, name));
    } else {
        assert(lex_lt(s[0], name));
        let tail = s.drop_first();
        assert(forall|j: int| 0 <= j < i - 1 ==> lex_lt(#[trigger] tail[j], name)) by {
            assert(forall|j: int| 0 <= j < i - 1 ==> tail[j] == s[j + 1]);
        }
        assert(i - 1 == tail.len() || lex_lt(name, tail[i - 1]));
        lemma_sorted_insert_at(tail, name, i - 1);
        assert(sorted_insert(s, name) =~= s.insert(i, name));
    }
}

/// Removing a name that does not occur changes nothing.
pub proof fn lemma_remove_name_absent(s: Seq<Seq<char>>, name: Seq<char>)
    requires
        !s.contains(name),
    ensures
        remove_name(s, name) == s,
    decreases s.len(),
{
    if s.len() == 0 {
    } else {
        let tail = s.drop_first();
        assert(s[0] != name) by {
            assert(s.contains(s[0]));
        }
        assert(!tail.contains(name)) by {
            if tail.contains(name) {
                let k = choose|k: int| 0 <= k < tail.len() && tail[k] == name;
                assert(s[k + 1] == name);
                assert(s.contains(name));
            }
        }
        lemma_remove_name_absent(tail, name);
        assert(remove_name(s, name) =~= s);
    }
}

/// When the first occurrence of a name stands at position `i`, removing the
/// name removes exactly that position.
pub proof fn lemma_remove_name_at(s: Seq<Seq<char>>, name: Seq<char>, i: int)
    requires
        0 <= i < s.len(),
        s[i] == name,
        forall|j: int| 0 <= j < i ==> #[trigger] s[j] != name,
    ensures
        remove_name(s, name) == s.remove(i),
    decreases s.len(),
{
    if i == 0 {
        assert(remove_name(s, name) =~= s.remove(0));
    } else {
        let tail = s.drop_first();
        assert(tail[i - 1] == s[i]);
        assert(forall|j: int| 0 <= j < i - 1 ==> #[trigger] tail[j] == s[j + 1]);
        lemma_remove_name_at(tail, name, i - 1);
        assert(remove_name(s, name) =~= s.remove(i));
    }
}

/// Removing a name from a strictly sorted list keeps it strictly sorted,
/// drops every occurrence of that name, and keeps every other name.
pub proof fn lemma_remove_name_props(s: Seq<Seq<char>>, name: Seq<char>)
    requires
        strictly_sorted(s),
    ensures
        strictly_sorted(remove_name(s, name)),
        !remove_name(s, name).contains(name),
        forall|x: Seq<char>|
            x != name ==> (remove_name(s, name).contains(x) <==> s.contains(x)),
        remove_name(s, name).len() == if s.contains(name) {
            s.len() - 1
        } else {
            s.len() as int
        },
{
    let r = remove_name(s, name);
    lemma_sorted_no_duplicates(s);
    if !s.contains(name) {
        lemma_remove_name_absent(s, name);
    } else {
        let i = choose|i: int| 0 <= i < s.len() && s[i] == name;
        assert(forall|j: int| 0 <= j < i ==> #[trigger] s[j] != name) by {
            assert(forall|j: int| 0 <= j < i ==> s[j] != s[i]);
        }
        lemma_remove_name_at(s, name, i);
        s.remove_ensures(i);
        assert(strictly_sorted(r)) by {
            assert forall|u: int, v: int| 0 <= u < v < r.len() implies lex_lt(r[u], r[v]) by {
                let su: int = if u < i {
                    u
                } else {
                    u + 1
                };
                let sv: int = if v < i {
                    v
                } else {
                    v + 1
                };
                assert(r[u] == s[su]);
                assert(r[v] == s[sv]);
            }
        }
        assert(!r.contains(name)) by {
            if r.contains(name) {
                let k = choose|k: int| 0 <= k < r.len() && r[k] == name;
                if k < i {
                    assert(s[k] == name);
                    assert(s[k] != s[i]);
                } else {
                    assert(s[k + 1] == name);
                    assert(s[k + 1] != s[i]);
                }
            }
        }
        assert forall|x: Seq<char>| x != name implies (r.contains(x) <==> s.contains(x)) by {
            if r.contains(x) {
                let k = choose|k: int| 0 <= k < r.len() && r[k] == x;
                if k < i {
                    assert(s[k] == x);
                } else {
                    assert(s[k + 1] == x);
                }
                assert(s.contains(x));
            }
            if s.contains(x) {
                let k = choose|k: int| 0 <= k < s.len() && s[k] == x;
                if k < i {
                    assert(r[k] == x);
                } else {
                    assert(k > i);
                    assert(r[k - 1] == x);
                }
                assert(r.contains(x));
            }
        }
    }
}

/// Round trip: inserting an absent name and then removing it restores the
/// list exactly.
pub proof fn lemma_insert_remove_roundtrip(s: Seq<Seq<char>>, name: Seq<char>)
    requires
        strictly_sorted(s),
        !s.contains(name),
    ensures
        remove_name(insert_if_absent(s, name), name) == s,
    decreases s.len(),
{
    let r = sorted_insert(s, name);
    if s.len() == 0 {
        assert(remove_name(r, name) =~= s);
    } else if lex_lt(s[0], name) {
        let tail = s.drop_first();
        assert(strictly_sorted(tail)) by {
            assert forall|i: int, j: int| 0 <= i < j < tail.len() implies lex_lt(
                tail[i],
                tail[j],
            ) by {
                assert(tail[i] == s[i + 1]);
                assert(tail[j] == s[j + 1]);
            }
        }
        assert(!tail.contains(name)) by {
            if tail.contains(name) {
                let k = choose|k: int| 0 <= k < tail.len() && tail[k] == name;
                assert(s[k + 1] == name);
                assert(s.contains(name));
            }
        }
        lemma_insert_remove_roundtrip(tail, name);
        assert(s[0] != name) by {
            assert(s.contains(s[0]));
        }
        assert(r == seq![s[0]] + sorted_insert(tail, name));
        assert(r[0] == s[0]);
        assert(r.drop_first() =~= sorted_insert(tail, name));
        assert(!tail.contains(name));
        assert(insert_if_absent(tail, name) == sorted_insert(tail, name));
        assert(remove_name(r, name) =~= s);
    } else {
        assert(r == seq![name] + s);
        assert(r[0] == name);
        assert(remove_name(r, name) =~= s);
    }
}

/// Inserting a name a second time changes nothing: the catalog after one
/// insertion already holds the name, exactly once, and stays sorted.
pub proof fn lemma_insert_idempotent(s: Seq<Seq<char>>, name: Seq<char>)
    requires
        strictly_sorted(s),
    ensures
        insert_if_absent(insert_if_absent(s, name), name) == insert_if_absent(s, name),
        strictly_sorted(insert_if_absent(s, name)),
        insert_if_absent(s, name).contains(name),
        insert_if_absent(s, name).no_duplicates(),
{
    if !s.contains(name) {
        lemma_sorted_insert_props(s, name);
    }
    lemma_sorted_no_duplicates(insert_if_absent(s, name));
}

/// What a catalog holds after an insertion: the inserted name and exactly
/// the names it held before.
pub proof fn lemma_insert_if_absent_contains(s: Seq<Seq<char>>, name: Seq<char>)
    requires
        strictly_sorted(s),
    ensures
        strictly_sorted(insert_if_absent(s, name)),
        forall|x: Seq<char>|
            #[trigger] insert_if_absent(s, name).contains(x) <==> (s.contains(x) || x == name),
{
    if !s.contains(name) {
        lemma_sorted_insert_props(s, name);
    }
}

/// A catalog never shrinks: insertion keeps every name that was present.
pub proof fn lemma_insert_monotone(s: Seq<Seq<char>>, name: Seq<char>)
    requires
        strictly_sorted(s),
    ensures
        forall|x: Seq<char>| s.contains(x) ==> insert_if_absent(s, name).contains(x),
        insert_if_absent(s, name).len() >= s.len(),
{
    if !s.contains(name) {
        lemma_sorted_insert_props(s, name);
    }
}

/// Decides whether a tag list holds a name, by exact, case-sensitive
/// comparison.
pub fn contains_tag(tags: &Vec<String>, name: &String) -> (r: bool)
    ensures
        r == tags.deep_view().contains(name@),
{
    let n = tags.len();
    let mut i: usize = 0;
    while i < n
        invariant
            i <= n,
            n == tags@.len(),
            forall|j: int| 0 <= j < i ==> tags.deep_view()[j] != name@,
        decreases n - i,
    {
        if tags[i] == *name {
            assert(tags.deep_view()[i as int] == name@);
            return true;
        }
        i = i + 1;
    }
    assert(!tags.deep_view().contains(name@));
    false
}

/// Inserts a name into a sorted tag list unless it is already there;
/// the list stays strictly sorted and afterwards holds the name.
pub fn insert_tag_if_absent(tags: &mut Vec<String>, name: &String)
    requires
        strictly_sorted(old(tags).deep_view()),
    ensures
        final(tags).deep_view() == insert_if_absent(old(tags).deep_view(), name@),
        strictly_sorted(final(tags).deep_view()),
        final(tags).deep_view().contains(name@),
{
    let ghost s = tags.deep_view();
    let n = tags.len();
    let mut i: usize = 0;
    loop
        invariant
            i <= n,
            n == tags@.len(),
            s == tags.deep_view(),
            strictly_sorted(s),
            forall|j: int| 0 <= j < i ==> lex_lt(#[trigger] s[j], name@),
        ensures
            i <= n,
            forall|j: int| 0 <= j < i ==> lex_lt(#[trigger] s[j], name@),
            i < n ==> !lex_lt(s[i as int], name@),
        decreases n - i,
    {
        if i >= n {
            break ;
        }
        if !str_lt(tags[i].as_str(), name.as_str()) {
            break ;
        }
        i = i + 1;
    }
    // here every entry before i precedes the name, and the entry at i
    // (if any) does not
    if i < n && tags[i] == *name {
        assert(s.contains(name@)) by {
            assert(s[i as int] == name@);
        }
        proof {
            lemma_insert_idempotent(s, name@);
        }
        return ;
    }
    assert(!s.contains(name@)) by {
        if s.contains(name@) {
            let k = choose|k: int| 0 <= k < s.len() && s[k] == name@;
            if k < i {
                lemma_lex_lt_irreflexive(name@);
            } else if k > i {
                assert(lex_lt(s[i as int], s[k]));
            }
        }
    }
    assert(i < n ==> lex_lt(name@, s[i as int])) by {
        if i < n && !lex_lt(name@, s[i as int]) {
            lemma_lex_lt_connected(s[i as int], name@);
            assert(s.contains(name@)) by {
                assert(s[i as int] == name@);
            }
        }
    }
    proof {
        lemma_sorted_insert_at(s, name@, i as int);
        lemma_sorted_insert_props(s, name@);
    }
    let ghost old_rows = tags@;
    let cl = name.clone();
    tags.insert(i, cl);
    proof {
        old_rows.insert_ensures(i as int, cl);
        s.insert_ensures(i as int, name@);
        assert forall|k: int| 0 <= k < tags@.len() implies tags.deep_view()[k] == s.insert(
            i as int,
            name@,
        )[k] by {
            if k < i {
                assert(tags@[k] == old_rows[k]);
            } else if k == i {
                assert(tags@[k] == cl);
            } else {
                assert(tags@[k] == old_rows[k - 1]);
            }
        }
        assert(tags.deep_view() =~= s.insert(i as int, name@));
    }
}

/// Locates a name in a strictly sorted tag list by bisection.
#[verifier::loop_isolation(false)]
pub fn find_sorted(tags: &Vec<String>, name: &String) -> (r: Option<usize>)
    requires
        strictly_sorted(tags.deep_view()),
    ensures
        (match r {
            Some(i) => i < tags@.len() && tags.deep_view()[i as int] == name@ && (forall|j: int|
                0 <= j < i ==> #[trigger] tags.deep_view()[j] != name@),
            None => !tags.deep_view().contains(name@),
        }),
{
    let ghost s = tags.deep_view();
    let mut lo: usize = 0;
    let mut hi: usize = tags.len();
    while lo < hi
        invariant
            lo <= hi <= tags@.len(),
            forall|j: int| 0 <= j < lo ==> lex_lt(#[trigger] s[j], name@),
            forall|j: int| hi <= j < s.len() ==> lex_lt(name@, #[trigger] s[j]),
        decreases hi - lo,
    {
        let mid = lo + (hi - lo) / 2;
        if str_lt(tags[mid].as_str(), name.as_str()) {
            proof {
                assert forall|j: int| 0 <= j < mid + 1 implies lex_lt(
                    #[trigger] s[j],
                    name@,
                ) by {
                    if j < mid {
                        lemma_lex_lt_transitive(s[j], s[mid as int], name@);
                    }
                }
            }
            lo = mid + 1;
        } else if str_lt(name.as_str(), tags[mid].as_str()) {
            proof {
                assert forall|j: int| mid <= j < s.len() implies lex_lt(
                    name@,
                    #[trigger] s[j],
                ) by {
                    if j > mid {
                        lemma_lex_lt_transitive(name@, s[mid as int], s[j]);
                    }
                }
            }
            hi = mid;
        } else {
            proof {
                lemma_lex_lt_connected(s[mid as int], name@);
                assert forall|j: int| 0 <= j < mid implies #[trigger] s[j] != name@ by {
                    if s[j] == name@ {
                        lemma_lex_lt_irreflexive(name@);
                    }
                }
            }
            return Some(mid);
        }
    }
    proof {
        assert forall|j: int| 0 <= j < s.len() implies #[trigger] s[j] != name@ by {
            if s[j] == name@ {
                lemma_lex_lt_irreflexive(name@);
            }
        }
    }
    None
}

/// Removes a name from a sorted tag list if it is there; the list stays
/// strictly sorted and afterwards does not hold the name.
pub fn remove_tag(tags: &mut Vec<String>, name: &String)
    requires
        strictly_sorted(old(tags).deep_view()),
    ensures
        final(tags).deep_view() == remove_name(old(tags).deep_view(), name@),
        strictly_sorted(final(tags).deep_view()),
        !final(tags).deep_view().contains(name@),
{
    let ghost s = tags.deep_view();
    proof {
        lemma_remove_name_props(s, name@);
    }
    let found = find_sorted(tags, name);
    match found {
        Some(i) => {
            proof {
                lemma_remove_name_at(s, name@, i as int);
            }
            let ghost old_rows = tags@;
            tags.remove(i);
            proof {
                old_rows.remove_ensures(i as int);
                s.remove_ensures(i as int);
                assert forall|k: int| 0 <= k < tags@.len() implies tags.deep_view()[k] == s.remove(
                    i as int,
                )[k] by {
                    if k < i {
                        assert(tags@[k] == old_rows[k]);
                    } else {
                        assert(tags@[k] == old_rows[k + 1]);
                    }
                }
                assert(tags.deep_view() =~= s.remove(i as int));
            }
        },
        None => {
            proof {
                lemma_remove_name_absent(s, name@);
            }
        },
    }
}

/// Computes the checkbox flags for one image: for each catalog entry, true
/// exactly when the image's own tag list holds that entry.
pub fn recompute_selection_flags(catalog: &Vec<String>, image_tags: &Vec<String>) -> (flags: Vec<
    bool,
>)
    ensures
        flags@ == selection_flags_spec(catalog.deep_view(), image_tags.deep_view()),
{
    let n = catalog.len();
    let mut flags: Vec<bool> = Vec::new();
    let mut i: usize = 0;
    while i < n
        invariant
            i <= n,
            n == catalog@.len(),
            flags@.len() == i,
            forall|j: int|
                0 <= j < i ==> flags@[j] == image_tags.deep_view().contains(
                    #[trigger] catalog.deep_view()[j],
                ),
        decreases n - i,
    {
        let f = contains_tag(image_tags, &catalog[i]);
        flags.push(f);
        i = i + 1;
    }
    assert(flags@ =~= selection_flags_spec(catalog.deep_view(), image_tags.deep_view()));
    flags
}

} // verus!
