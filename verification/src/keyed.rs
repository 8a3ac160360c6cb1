//! Small maps kept as vectors of (key, value) pairs: a lookup finds the first
//! pair with the key, an insertion replaces that pair's value or appends a
//! new pair, so a key is never held twice.
use vstd::prelude::*;
use crate::ast::{self, GUID, RefKey};

verus! {

/// Position of the first pair named `k`, from position `i` on.
pub open spec fn name_pos_from<V>(s: Seq<(String, V)>, k: Seq<char>, i: int) -> Option<int>
    decreases s.len() - i,
{
    if i < 0 || i >= s.len() {
        None
    } else if s[i].0@ == k {
        Some(i)
    } else {
        name_pos_from(s, k, i + 1)
    }
}

/// Position of the first pair named `k`.
pub open spec fn name_pos<V>(s: Seq<(String, V)>, k: Seq<char>) -> Option<int> {
    name_pos_from(s, k, 0)
}

pub open spec fn name_lookup<V>(s: Seq<(String, V)>, k: Seq<char>) -> Option<V> {
    match name_pos(s, k) {
        Some(i) => Some(s[i].1),
        None => None,
    }
}

pub open spec fn name_insert<V>(s: Seq<(String, V)>, k: String, v: V) -> Seq<(String, V)> {
    match name_pos(s, k@) {
        Some(i) => s.update(i, (s[i].0, v)),
        None => s.push((k, v)),
    }
}

/// Position of the first pair keyed by a reference that denotes `k`, from
/// position `i` on.
pub open spec fn ref_pos_from<V>(s: Seq<(ast::Reference, V)>, k: RefKey, i: int) -> Option<int>
    decreases s.len() - i,
{
    if i < 0 || i >= s.len() {
        None
    } else if s[i].0@ == k {
        Some(i)
    } else {
        ref_pos_from(s, k, i + 1)
    }
}

/// Position of the first pair keyed by a reference that denotes `k`.
pub open spec fn ref_pos<V>(s: Seq<(ast::Reference, V)>, k: RefKey) -> Option<int> {
    ref_pos_from(s, k, 0)
}

pub open spec fn ref_lookup<V>(s: Seq<(ast::Reference, V)>, k: RefKey) -> Option<V> {
    match ref_pos(s, k) {
        Some(i) => Some(s[i].1),
        None => None,
    }
}

pub open spec fn ref_insert<V>(s: Seq<(ast::Reference, V)>, k: ast::Reference, v: V) -> Seq<(ast::Reference, V)> {
    match ref_pos(s, k@) {
        Some(i) => s.update(i, (s[i].0, v)),
        None => s.push((k, v)),
    }
}

/// Position of the first pair with identifier `g`, from position `i` on.
pub open spec fn guid_pos_from<V>(s: Seq<(GUID, V)>, g: GUID, i: int) -> Option<int>
    decreases s.len() - i,
{
    if i < 0 || i >= s.len() {
        None
    } else if s[i].0 == g {
        Some(i)
    } else {
        guid_pos_from(s, g, i + 1)
    }
}

/// Position of the pair with identifier `g`.
pub open spec fn guid_pos<V>(s: Seq<(GUID, V)>, g: GUID) -> Option<int> {
    guid_pos_from(s, g, 0)
}

/// Where a position is found, and that it is found wherever the key is.
pub proof fn lemma_guid_pos_from<V>(s: Seq<(GUID, V)>, g: GUID, i: int)
    requires
        0 <= i,
    ensures
        guid_pos_from(s, g, i) matches Some(p) ==> i <= p < s.len() && s[p].0 == g && forall|j: int| i <= j < p ==> s[j].0 != g,
        guid_pos_from(s, g, i) is None ==> forall|j: int| i <= j < s.len() ==> s[j].0 != g,
    decreases s.len() - i,
{
    if i < s.len() {
        lemma_guid_pos_from(s, g, i + 1);
    }
}

pub open spec fn guid_lookup<V>(s: Seq<(GUID, V)>, g: GUID) -> Option<V> {
    match guid_pos(s, g) {
        Some(i) => Some(s[i].1),
        None => None,
    }
}

pub open spec fn guid_insert<V>(s: Seq<(GUID, V)>, g: GUID, v: V) -> Seq<(GUID, V)> {
    match guid_pos(s, g) {
        Some(i) => s.update(i, (g, v)),
        None => s.push((g, v)),
    }
}

pub open spec fn guid_remove<V>(s: Seq<(GUID, V)>, g: GUID) -> Seq<(GUID, V)> {
    match guid_pos(s, g) {
        Some(i) => s.remove(i),
        None => s,
    }
}

pub open spec fn guids_distinct<V>(s: Seq<(GUID, V)>) -> bool {
    forall|i: int, j: int| 0 <= i < j < s.len() ==> s[i].0 != s[j].0
}

/// The identifiers held, in order.
pub open spec fn guids_of<V>(s: Seq<(GUID, V)>) -> Seq<GUID> {
    s.map_values(|p: (GUID, V)| p.0)
}

pub fn name_find<V>(s: &Vec<(String, V)>, k: &String) -> (r: Option<usize>)
    ensures
        match r {
            Some(i) => name_pos(s@, k@) == Some(i as int) && i < s@.len(),
            None => name_pos(s@, k@) is None,
        },
{
    let mut i: usize = 0;
    while i < s.len()
        invariant
            i <= s@.len(),
            name_pos(s@, k@) == name_pos_from(s@, k@, i as int),
        decreases s@.len() - i,
    {
        if s[i].0 == *k {
            return Some(i);
        }
        i = i + 1;
    }
    None
}

pub fn name_set<V>(s: &mut Vec<(String, V)>, k: String, v: V)
    ensures
        final(s)@ == name_insert(old(s)@, k, v),
{
    match name_find(s, &k) {
        Some(i) => {
            let key = s[i].0.clone();
            s.set(i, (key, v));
        },
        None => {
            s.push((k, v));
        },
    }
}

pub fn ref_find<V>(s: &Vec<(ast::Reference, V)>, k: &ast::Reference) -> (r: Option<usize>)
    ensures
        match r {
            Some(i) => ref_pos(s@, k@) == Some(i as int) && i < s@.len(),
            None => ref_pos(s@, k@) is None,
        },
{
    let mut i: usize = 0;
    while i < s.len()
        invariant
            i <= s@.len(),
            ref_pos(s@, k@) == ref_pos_from(s@, k@, i as int),
        decreases s@.len() - i,
    {
        if s[i].0.same_as(k) {
            return Some(i);
        }
        i = i + 1;
    }
    None
}

pub fn ref_set<V>(s: &mut Vec<(ast::Reference, V)>, k: ast::Reference, v: V)
    ensures
        final(s)@ == ref_insert(old(s)@, k, v),
{
    match ref_find(s, &k) {
        Some(i) => {
            let key = s[i].0.duplicate();
            s.set(i, (key, v));
        },
        None => {
            s.push((k, v));
        },
    }
}

pub fn guid_find<V>(s: &Vec<(GUID, V)>, g: GUID) -> (r: Option<usize>)
    ensures
        match r {
            Some(i) => guid_pos(s@, g) == Some(i as int) && i < s@.len(),
            None => guid_pos(s@, g) is None,
        },
{
    let mut i: usize = 0;
    while i < s.len()
        invariant
            i <= s@.len(),
            guid_pos(s@, g) == guid_pos_from(s@, g, i as int),
        decreases s@.len() - i,
    {
        if s[i].0.0 == g.0 {
            return Some(i);
        }
        i = i + 1;
    }
    None
}

pub fn guid_set<V>(s: &mut Vec<(GUID, V)>, g: GUID, v: V)
    ensures
        final(s)@ == guid_insert(old(s)@, g, v),
{
    match guid_find(s, g) {
        Some(i) => {
            s.set(i, (g, v));
        },
        None => {
            s.push((g, v));
        },
    }
}

pub fn guid_take<V>(s: &mut Vec<(GUID, V)>, g: GUID) -> (r: Option<V>)
    ensures
        r == guid_lookup(old(s)@, g),
        final(s)@ == guid_remove(old(s)@, g),
{
    match guid_find(s, g) {
        Some(i) => {
            let (_, v) = s.remove(i);
            Some(v)
        },
        None => None,
    }
}

pub proof fn lemma_guid_pos_unique<V>(s: Seq<(GUID, V)>, h: GUID, k: int)
    requires
        guids_distinct(s),
        0 <= k < s.len(),
        s[k].0 == h,
    ensures
        guid_pos(s, h) == Some(k),
{
    lemma_guid_pos_from(s, h, 0);
    if guid_pos(s, h) is None {
        assert(s[k].0 == h);
    } else {
        let p = guid_pos(s, h)->0;
        if p != k {
            if p < k {
                assert(s[p].0 != s[k].0);
            } else {
                assert(s[k].0 != s[p].0);
            }
        }
    }
}

/// In a list with distinct identifiers, what a lookup gives is the value
/// stored with the identifier, if any.
pub proof fn lemma_guid_lookup_distinct<V>(s: Seq<(GUID, V)>, h: GUID)
    requires
        guids_distinct(s),
    ensures
        forall|k: int| 0 <= k < s.len() && s[k].0 == h ==> guid_pos(s, h) == Some(k) && guid_lookup(s, h) == Some(s[k].1),
        (forall|k: int| 0 <= k < s.len() ==> s[k].0 != h) ==> guid_lookup(s, h) is None,
{
    lemma_guid_pos_from(s, h, 0);
    assert forall|k: int| 0 <= k < s.len() && s[k].0 == h implies guid_pos(s, h) == Some(k) by {
        lemma_guid_pos_unique(s, h, k);
    }
}

pub proof fn lemma_guid_insert_distinct<V>(s: Seq<(GUID, V)>, g: GUID, v: V)
    requires
        guids_distinct(s),
    ensures
        guids_distinct(guid_insert(s, g, v)),
        guid_lookup(guid_insert(s, g, v), g) == Some(v),
        forall|h: GUID| h != g ==> guid_lookup(guid_insert(s, g, v), h) == guid_lookup(s, h),
        guids_of(guid_insert(s, g, v)).to_set() == guids_of(s).to_set().insert(g),
{
    lemma_guid_pos_from(s, g, 0);
    let r = guid_insert(s, g, v);
    match guid_pos(s, g) {
        Some(i) => {
            assert(r == s.update(i, (g, v)));
            assert forall|k: int| 0 <= k < r.len() implies (#[trigger] r[k]).0 == s[k].0 by {}
            assert(guids_distinct(r));
            assert(guids_of(r) =~= guids_of(s));
            assert(guids_of(s)[i] == g);
            assert(guids_of(r).to_set() =~= guids_of(s).to_set().insert(g));
            lemma_guid_lookup_distinct(r, g);
            assert(r[i] == (g, v));
            assert forall|h: GUID| h != g implies guid_lookup(r, h) == guid_lookup(s, h) by {
                lemma_guid_lookup_distinct(r, h);
                lemma_guid_lookup_distinct(s, h);
                if exists|k: int| 0 <= k < s.len() && s[k].0 == h {
                    let k = choose|k: int| 0 <= k < s.len() && s[k].0 == h;
                    assert(r[k] == s[k]);
                } else {
                    assert forall|k: int| 0 <= k < r.len() implies r[k].0 != h by {
                        assert(r[k].0 == s[k].0);
                    }
                }
            }
        },
        None => {
            assert(r == s.push((g, v)));
            assert(guids_of(r) =~= guids_of(s).push(g));
            guids_of(s).lemma_push_to_set_commute(g);
            assert(guids_of(r).to_set() =~= guids_of(s).to_set().insert(g));
            assert(guids_distinct(r)) by {
                assert forall|a: int, b: int| 0 <= a < b < r.len() implies r[a].0 != r[b].0 by {
                    if b == s.len() {
                        assert(r[a] == s[a]);
                    }
                }
            }
            lemma_guid_lookup_distinct(r, g);
            assert(r[s.len() as int] == (g, v));
            assert forall|h: GUID| h != g implies guid_lookup(r, h) == guid_lookup(s, h) by {
                lemma_guid_lookup_distinct(r, h);
                lemma_guid_lookup_distinct(s, h);
                if exists|k: int| 0 <= k < s.len() && s[k].0 == h {
                    let k = choose|k: int| 0 <= k < s.len() && s[k].0 == h;
                    assert(r[k] == s[k]);
                } else {
                    assert forall|k: int| 0 <= k < r.len() implies r[k].0 != h by {
                        if k < s.len() {
                            assert(r[k] == s[k]);
                        }
                    }
                }
            }
        },
    }
}

pub proof fn lemma_guid_remove_distinct<V>(s: Seq<(GUID, V)>, g: GUID)
    requires
        guids_distinct(s),
    ensures
        guids_distinct(guid_remove(s, g)),
        guid_lookup(guid_remove(s, g), g) is None,
        forall|h: GUID| h != g ==> guid_lookup(guid_remove(s, g), h) == guid_lookup(s, h),
        guids_of(guid_remove(s, g)).to_set() == guids_of(s).to_set().remove(g),
{
    lemma_guid_pos_from(s, g, 0);
    let r = guid_remove(s, g);
    match guid_pos(s, g) {
        Some(i) => {
            assert(r == s.remove(i));
            assert forall|k: int| 0 <= k < r.len() implies #[trigger] r[k] == if k < i { s[k] } else { s[k + 1] } by {}
            assert(guids_distinct(r)) by {
                assert forall|a: int, b: int| 0 <= a < b < r.len() implies r[a].0 != r[b].0 by {
                    let a2 = if a < i { a } else { a + 1 };
                    let b2 = if b < i { b } else { b + 1 };
                    assert(r[a] == s[a2] && r[b] == s[b2]);
                }
            }
            assert(s[i].0 == g);
            assert forall|k: int| 0 <= k < r.len() implies r[k].0 != g by {
                let k2 = if k < i { k } else { k + 1 };
                assert(r[k] == s[k2]);
            }
            lemma_guid_lookup_distinct(r, g);
            assert forall|h: GUID| h != g implies guid_lookup(r, h) == guid_lookup(s, h) by {
                lemma_guid_lookup_distinct(r, h);
                lemma_guid_lookup_distinct(s, h);
                if exists|k: int| 0 <= k < s.len() && s[k].0 == h {
                    let k = choose|k: int| 0 <= k < s.len() && s[k].0 == h;
                    assert(k != i);
                    let k2 = if k < i { k } else { k - 1 };
                    assert(r[k2] == s[k]);
                } else {
                    assert forall|k: int| 0 <= k < r.len() implies r[k].0 != h by {
                        let k2 = if k < i { k } else { k + 1 };
                        assert(r[k] == s[k2]);
                    }
                }
            }
            assert(guids_of(r).to_set() =~= guids_of(s).to_set().remove(g)) by {
                assert forall|h: GUID| guids_of(r).to_set().contains(h) <==> guids_of(s).to_set().remove(g).contains(h) by {
                    if guids_of(r).contains(h) {
                        let k = choose|k: int| 0 <= k < guids_of(r).len() && guids_of(r)[k] == h;
                        let k2 = if k < i { k } else { k + 1 };
                        assert(r[k] == s[k2]);
                        assert(guids_of(s)[k2] == h);
                    }
                    if guids_of(s).contains(h) && h != g {
                        let k = choose|k: int| 0 <= k < guids_of(s).len() && guids_of(s)[k] == h;
                        assert(k != i);
                        let k2 = if k < i { k } else { k - 1 };
                        assert(r[k2] == s[k]);
                        assert(guids_of(r)[k2] == h);
                    }
                }
            }
        },
        None => {
            assert(r == s);
            assert forall|k: int| 0 <= k < r.len() implies r[k].0 != g by {}
            lemma_guid_lookup_distinct(r, g);
        },
    }
}

pub proof fn lemma_ref_pos_same_keys<A, B>(a: Seq<(ast::Reference, A)>, b: Seq<(ast::Reference, B)>, k: RefKey, i: int)
    requires
        a.len() == b.len(),
        forall|j: int| 0 <= j < a.len() ==> (#[trigger] a[j]).0 == b[j].0,
    ensures
        ref_pos_from(a, k, i) == ref_pos_from(b, k, i),
    decreases a.len() - i,
{
    if 0 <= i < a.len() {
        assert(a[i].0 == b[i].0);
        lemma_ref_pos_same_keys(a, b, k, i + 1);
    }
}

pub proof fn lemma_ref_pos_from_bound<V>(s: Seq<(ast::Reference, V)>, k: RefKey, i: int)
    ensures
        ref_pos_from(s, k, i) matches Some(p) ==> i <= p < s.len() && s[p].0@ == k,
    decreases s.len() - i,
{
    if 0 <= i < s.len() {
        lemma_ref_pos_from_bound(s, k, i + 1);
    }
}

pub proof fn lemma_name_pos_from_bound<V>(s: Seq<(String, V)>, k: Seq<char>, i: int)
    ensures
        name_pos_from(s, k, i) matches Some(p) ==> i <= p < s.len() && s[p].0@ == k,
    decreases s.len() - i,
{
    if 0 <= i < s.len() {
        lemma_name_pos_from_bound(s, k, i + 1);
    }
}

/// A lookup finds something exactly where a position does.
pub proof fn lemma_guid_lookup_some<V>(s: Seq<(GUID, V)>, g: GUID)
    ensures
        guid_lookup(s, g) is Some <==> guid_pos(s, g) is Some,
        guid_pos(s, g) matches Some(p) ==> 0 <= p < s.len() && s[p].0 == g,
        guid_pos(s, g) is None ==> forall|j: int| 0 <= j < s.len() ==> s[j].0 != g,
{
    lemma_guid_pos_from(s, g, 0);
}

/// Positions by name agree between two lists with the same names.
pub proof fn lemma_name_pos_same_keys<A, B>(a: Seq<(String, A)>, b: Seq<(String, B)>, k: Seq<char>, i: int)
    requires
        a.len() == b.len(),
        forall|j: int| 0 <= j < a.len() ==> (#[trigger] a[j]).0 == b[j].0,
    ensures
        name_pos_from(a, k, i) == name_pos_from(b, k, i),
    decreases a.len() - i,
{
    if 0 <= i < a.len() {
        assert(a[i].0 == b[i].0);
        lemma_name_pos_same_keys(a, b, k, i + 1);
    }
}

/// Position of the first pair keyed by the names `a` and `b`, from position `i` on.
pub open spec fn pair_pos_from<V>(s: Seq<((String, String), V)>, a: Seq<char>, b: Seq<char>, i: int) -> Option<int>
    decreases s.len() - i,
{
    if i < 0 || i >= s.len() {
        None
    } else if s[i].0.0@ == a && s[i].0.1@ == b {
        Some(i)
    } else {
        pair_pos_from(s, a, b, i + 1)
    }
}

pub open spec fn pair_pos<V>(s: Seq<((String, String), V)>, a: Seq<char>, b: Seq<char>) -> Option<int> {
    pair_pos_from(s, a, b, 0)
}

pub open spec fn pair_insert<V>(s: Seq<((String, String), V)>, a: String, b: String, v: V) -> Seq<((String, String), V)> {
    match pair_pos(s, a@, b@) {
        Some(i) => s.update(i, (s[i].0, v)),
        None => s.push(((a, b), v)),
    }
}

pub proof fn lemma_pair_pos_from<V>(s: Seq<((String, String), V)>, a: Seq<char>, b: Seq<char>, i: int)
    ensures
        pair_pos_from(s, a, b, i) matches Some(p) ==> i <= p < s.len() && s[p].0.0@ == a && s[p].0.1@ == b,
    decreases s.len() - i,
{
    if 0 <= i < s.len() {
        lemma_pair_pos_from(s, a, b, i + 1);
    }
}

/// Positions by a pair of names agree between two lists with the same keys.
pub proof fn lemma_pair_pos_same_keys<A, B>(x: Seq<((String, String), A)>, y: Seq<((String, String), B)>, a: Seq<char>, b: Seq<char>, i: int)
    requires
        x.len() == y.len(),
        forall|j: int| 0 <= j < x.len() ==> (#[trigger] x[j]).0 == y[j].0,
    ensures
        pair_pos_from(x, a, b, i) == pair_pos_from(y, a, b, i),
    decreases x.len() - i,
{
    if 0 <= i < x.len() {
        assert(x[i].0 == y[i].0);
        lemma_pair_pos_same_keys(x, y, a, b, i + 1);
    }
}

pub fn pair_find<V>(s: &Vec<((String, String), V)>, a: &String, b: &String) -> (r: Option<usize>)
    ensures
        match r {
            Some(i) => pair_pos(s@, a@, b@) == Some(i as int) && i < s@.len(),
            None => pair_pos(s@, a@, b@) is None,
        },
{
    let mut i: usize = 0;
    while i < s.len()
        invariant
            i <= s@.len(),
            pair_pos(s@, a@, b@) == pair_pos_from(s@, a@, b@, i as int),
        decreases s@.len() - i,
    {
        if s[i].0.0 == *a && s[i].0.1 == *b {
            return Some(i);
        }
        i = i + 1;
    }
    None
}

pub fn pair_set<V>(s: &mut Vec<((String, String), V)>, a: String, b: String, v: V)
    ensures
        final(s)@ == pair_insert(old(s)@, a, b, v),
{
    match pair_find(s, &a, &b) {
        Some(i) => {
            let key = (s[i].0.0.clone(), s[i].0.1.clone());
            s.set(i, (key, v));
        },
        None => {
            s.push(((a, b), v));
        },
    }
}

} // verus!
