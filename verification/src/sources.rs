//! Where the process-ID files to look at come from.

use crate::pid_proc::PidProc;
use vstd::prelude::*;

verus! {

/// Something that a walk through a directory came upon.
#[derive(Debug, Clone, PartialEq, Eq)]
pub struct DirItem {
    /// The components of its path, each as bytes.
    pub path: Vec<Vec<u8>>,
    /// Whether it is a regular file.
    pub is_file: bool,
}

impl View for DirItem {
    type V = (Seq<Seq<u8>>, bool);

    open spec fn view(&self) -> (Seq<Seq<u8>>, bool) {
        (components(self.path@), self.is_file)
    }
}

/// What the components of a path hold.
pub open spec fn components(path: Seq<Vec<u8>>) -> Seq<Seq<u8>> {
    Seq::new(path.len(), |i: int| path[i]@)
}

/// Whether a file name ends in a dot and `extension`, with something before the dot.
pub open spec fn has_extension(name: Seq<u8>, extension: Seq<u8>) -> bool {
    let dot = name.len() - extension.len() - 1;
    dot > 0 && name[dot] == '.' as u8 && name.skip(dot + 1) == extension
}

pub open spec fn yml() -> Seq<u8> {
    seq!['y' as u8, 'm' as u8, 'l' as u8]
}

pub open spec fn yaml() -> Seq<u8> {
    seq!['y' as u8, 'a' as u8, 'm' as u8, 'l' as u8]
}

/// Whether an item is a configuration file: a regular file with the extension `yml` or `yaml`.
pub open spec fn is_config(item: (Seq<Seq<u8>>, bool)) -> bool {
    let (path, is_file) = item;
    is_file && path.len() > 0 && (has_extension(path.last(), yml()) || has_extension(
        path.last(),
        yaml(),
    ))
}

/// The order of file names, by their bytes.
pub open spec fn name_less(a: Seq<u8>, b: Seq<u8>) -> bool
    decreases a.len(),
{
    if b.len() == 0 {
        false
    } else if a.len() == 0 {
        true
    } else if a[0] != b[0] {
        a[0] < b[0]
    } else {
        name_less(a.skip(1), b.skip(1))
    }
}

/// The order of paths, component by component.
pub open spec fn path_less(a: Seq<Seq<u8>>, b: Seq<Seq<u8>>) -> bool
    decreases a.len(),
{
    if b.len() == 0 {
        false
    } else if a.len() == 0 {
        true
    } else if a[0] != b[0] {
        name_less(a[0], b[0])
    } else {
        path_less(a.skip(1), b.skip(1))
    }
}

/// Whether the item `i` comes before the item `j`: by path and, under one path, as found.
pub open spec fn comes_before(items: Seq<DirItem>, i: int, j: int) -> bool {
    path_less(items[i]@.0, items[j]@.0) || (items[i]@.0 == items[j]@.0 && i < j)
}

/// Whether `order` lists the configuration files among `items`, all of them and in order.
pub open spec fn is_config_order(items: Seq<DirItem>, order: Seq<usize>) -> bool {
    &&& forall|k: int|
        0 <= k < order.len() ==> (#[trigger] order[k]) < items.len() && is_config(
            items[order[k] as int]@,
        )
    &&& forall|i: int|
        0 <= i < items.len() && is_config(#[trigger] items[i]@) ==> order.contains(i as usize)
    &&& forall|a: int, b: int|
        0 <= a < b < order.len() ==> comes_before(
            items,
            #[trigger] order[a] as int,
            #[trigger] order[b] as int,
        )
}

proof fn lemma_name_order(a: Seq<u8>, b: Seq<u8>)
    ensures
        a == b || name_less(a, b) || name_less(b, a),
        !(name_less(a, b) && name_less(b, a)),
        !name_less(a, a),
    decreases a.len(),
{
    if a.len() > 0 && b.len() > 0 {
        lemma_name_order(a.skip(1), b.skip(1));
        if a[0] == b[0] && a.skip(1) == b.skip(1) {
            assert(a == seq![a[0]] + a.skip(1));
            assert(b == seq![b[0]] + b.skip(1));
        }
    } else if a.len() == 0 && b.len() == 0 {
        assert(a == b);
    } else if a.len() > 0 {
        lemma_name_order(a.skip(1), a.skip(1));
    }
}

proof fn lemma_name_transitive(a: Seq<u8>, b: Seq<u8>, c: Seq<u8>)
    requires
        name_less(a, b),
        name_less(b, c),
    ensures
        name_less(a, c),
    decreases a.len(),
{
    if a.len() > 0 && a[0] == b[0] && b[0] == c[0] {
        lemma_name_transitive(a.skip(1), b.skip(1), c.skip(1));
    }
}

/// Of two different paths exactly one comes first.
pub proof fn law_path_order_is_total(a: Seq<Seq<u8>>, b: Seq<Seq<u8>>)
    ensures
        a == b || path_less(a, b) || path_less(b, a),
        !(path_less(a, b) && path_less(b, a)),
        !path_less(a, a),
    decreases a.len(),
{
    if a.len() > 0 && b.len() > 0 {
        lemma_name_order(a[0], b[0]);
        law_path_order_is_total(a.skip(1), b.skip(1));
        if a[0] == b[0] && a.skip(1) == b.skip(1) {
            assert(a == seq![a[0]] + a.skip(1));
            assert(b == seq![b[0]] + b.skip(1));
        }
    } else if a.len() == 0 && b.len() == 0 {
        assert(a == b);
    } else if a.len() > 0 {
        law_path_order_is_total(a.skip(1), a.skip(1));
    }
}

/// The order of paths is transitive.
pub proof fn law_path_order_is_transitive(a: Seq<Seq<u8>>, b: Seq<Seq<u8>>, c: Seq<Seq<u8>>)
    requires
        path_less(a, b),
        path_less(b, c),
    ensures
        path_less(a, c),
    decreases a.len(),
{
    if a.len() > 0 {
        lemma_name_order(a[0], b[0]);
        lemma_name_order(a[0], c[0]);
        if a[0] == b[0] && b[0] == c[0] {
            law_path_order_is_transitive(a.skip(1), b.skip(1), c.skip(1));
        } else if a[0] != b[0] && b[0] != c[0] {
            lemma_name_transitive(a[0], b[0], c[0]);
        }
    }
}

fn name_before(a: &Vec<u8>, b: &Vec<u8>) -> (r: bool)
    ensures
        r == name_less(a@, b@),
{
    let mut k: usize = 0;
    assert(a@.skip(0) == a@ && b@.skip(0) == b@);
    while k < a.len() && k < b.len() && a[k] == b[k]
        invariant
            k <= a.len(),
            k <= b.len(),
            name_less(a@, b@) == name_less(a@.skip(k as int), b@.skip(k as int)),
        decreases a.len() - k,
    {
        assert(a@.skip(k as int).skip(1) == a@.skip(k + 1));
        assert(b@.skip(k as int).skip(1) == b@.skip(k + 1));
        k = k + 1;
    }
    if k >= b.len() {
        false
    } else if k >= a.len() {
        true
    } else {
        a[k] < b[k]
    }
}

fn path_before(a: &Vec<Vec<u8>>, b: &Vec<Vec<u8>>) -> (r: bool)
    ensures
        r == path_less(components(a@), components(b@)),
{
    let ghost pa = components(a@);
    let ghost pb = components(b@);
    let mut k: usize = 0;
    assert(pa.skip(0) == pa && pb.skip(0) == pb);
    while k < a.len() && k < b.len()
        invariant
            pa == components(a@),
            pb == components(b@),
            k <= a.len(),
            k <= b.len(),
            path_less(pa, pb) == path_less(pa.skip(k as int), pb.skip(k as int)),
        decreases a.len() - k,
    {
        proof {
            lemma_name_order(pa[k as int], pb[k as int]);
        }
        if name_before(&a[k], &b[k]) {
            return true;
        }
        if name_before(&b[k], &a[k]) {
            return false;
        }
        assert(pa.skip(k as int).skip(1) == pa.skip(k + 1));
        assert(pb.skip(k as int).skip(1) == pb.skip(k + 1));
        k = k + 1;
    }
    k < b.len()
}

fn ends_in_extension(name: &Vec<u8>, extension: &Vec<u8>) -> (r: bool)
    ensures
        r == has_extension(name@, extension@),
{
    if name.len() < 2 || name.len() - 2 < extension.len() {
        return false;
    }
    let dot: usize = name.len() - extension.len() - 1;
    if name[dot] != '.' as u8 {
        return false;
    }
    let mut k: usize = 0;
    while k < extension.len()
        invariant
            0 < dot == name.len() - extension.len() - 1,
            k <= extension.len(),
            forall|j: int| 0 <= j < k ==> name@[dot + 1 + j] == extension@[j],
        decreases extension.len() - k,
    {
        if name[dot + 1 + k] != extension[k] {
            assert(name@.skip(dot + 1)[k as int] != extension@[k as int]);
            return false;
        }
        k = k + 1;
    }
    assert(name@.skip(dot + 1) == extension@);
    true
}

fn config(item: &DirItem) -> (r: bool)
    ensures
        r == is_config(item@),
{
    if !item.is_file || item.path.len() == 0 {
        return false;
    }
    let name: &Vec<u8> = &item.path[item.path.len() - 1];
    assert(name@ == item@.0.last());
    let yml: Vec<u8> = vec!['y' as u8, 'm' as u8, 'l' as u8];
    let yaml: Vec<u8> = vec!['y' as u8, 'a' as u8, 'm' as u8, 'l' as u8];
    assert(yml@ == self::yml());
    assert(yaml@ == self::yaml());
    ends_in_extension(name, &yml) || ends_in_extension(name, &yaml)
}

/// Picks the configuration files among `items` and puts them in order. What is returned are
/// their indices.
pub fn select_configs(items: &Vec<DirItem>) -> (order: Vec<usize>)
    ensures
        is_config_order(items@, order@),
{
    let mut order: Vec<usize> = Vec::new();
    let mut i: usize = 0;
    while i < items.len()
        invariant
            i <= items.len(),
            forall|k: int|
                0 <= k < order.len() ==> (#[trigger] order@[k]) < i && is_config(
                    items@[order@[k] as int]@,
                ),
            forall|j: int|
                0 <= j < i && is_config(#[trigger] items@[j]@) ==> order@.contains(j as usize),
            forall|a: int, b: int|
                0 <= a < b < order.len() ==> comes_before(
                    items@,
                    #[trigger] order@[a] as int,
                    #[trigger] order@[b] as int,
                ),
        decreases items.len() - i,
    {
        if config(&items[i]) {
            let ghost before = order@;
            insert_in_order(items, &mut order, i);
            assert forall|k: int| 0 <= k < order.len() implies (#[trigger] order@[k]) < i + 1
                && is_config(items@[order@[k] as int]@) by {
                assert(order@.contains(order@[k]));
            }
            assert forall|j: int| 0 <= j < i + 1 && is_config(#[trigger] items@[j]@) implies
                order@.contains(j as usize) by {
                assert(j < i ==> before.contains(j as usize));
            }
        }
        i = i + 1;
    }
    order
}

/// Puts the item `i` in its place among those in `order`, which were all found before it.
fn insert_in_order(items: &Vec<DirItem>, order: &mut Vec<usize>, i: usize)
    requires
        i < items.len(),
        forall|k: int| 0 <= k < old(order)@.len() ==> (#[trigger] old(order)@[k]) < i,
        forall|a: int, b: int|
            0 <= a < b < old(order)@.len() ==> comes_before(
                items@,
                #[trigger] old(order)@[a] as int,
                #[trigger] old(order)@[b] as int,
            ),
    ensures
        forall|x: usize| #[trigger]
            final(order)@.contains(x) <==> x == i || old(order)@.contains(x),
        forall|a: int, b: int|
            0 <= a < b < final(order)@.len() ==> comes_before(
                items@,
                #[trigger] final(order)@[a] as int,
                #[trigger] final(order)@[b] as int,
            ),
{
    let ghost before = order@;
    let mut p: usize = 0;
    while p < order.len() && !path_before(&items[i].path, &items[order[p]].path)
        invariant
            i < items.len(),
            p <= order.len(),
            forall|k: int| 0 <= k < order@.len() ==> (#[trigger] order@[k]) < i,
            forall|k: int|
                0 <= k < p ==> !path_less(
                    items@[i as int]@.0,
                    items@[(#[trigger] order@[k]) as int]@.0,
                ),
        decreases order.len() - p,
    {
        p = p + 1;
    }
    order.insert(p, i);
    proof {
        let me = items@[i as int]@.0;
        assert(order@ == before.insert(p as int, i));
        assert forall|x: usize| #[trigger] order@.contains(x) <==> x == i || before.contains(x) by {
            if x == i {
                assert(order@[p as int] == x);
            } else if before.contains(x) {
                let k = choose|k: int| 0 <= k < before.len() && before[k] == x;
                assert(order@[if k < p { k } else { k + 1 }] == x);
            } else if order@.contains(x) {
                let k = choose|k: int| 0 <= k < order@.len() && order@[k] == x;
                assert(before[if k < p { k } else { k - 1 }] == x);
            }
        }
        assert forall|a: int, b: int| 0 <= a < b < order@.len() implies comes_before(
            items@,
            #[trigger] order@[a] as int,
            #[trigger] order@[b] as int,
        ) by {
            if b == p {
                let other = before[a];
                assert(order@[a] == other);
                law_path_order_is_total(me, items@[other as int]@.0);
            } else if a == p {
                let next = before[p as int];
                let other = before[b - 1];
                assert(order@[b] == other);
                if b - 1 > p {
                    assert(comes_before(items@, next as int, other as int));
                    if path_less(items@[next as int]@.0, items@[other as int]@.0) {
                        law_path_order_is_transitive(
                            me,
                            items@[next as int]@.0,
                            items@[other as int]@.0,
                        );
                    }
                }
            } else {
                let x = if a < p {
                    a
                } else {
                    a - 1
                };
                let y = if b < p {
                    b
                } else {
                    b - 1
                };
                assert(order@[a] == before[x] && order@[b] == before[y]);
            }
        }
    }
}

/// The paths of the items that `order` lists.
pub open spec fn listed_paths(items: Seq<DirItem>, order: Seq<usize>) -> Seq<Seq<Seq<u8>>> {
    Seq::new(order.len(), |k: int| items[order[k] as int]@.0)
}

/// Whether no two configuration files among `items` have the same path.
pub open spec fn distinct_configs(items: Seq<DirItem>) -> bool {
    forall|i: int, j: int|
        0 <= i < j < items.len() && is_config(items[i]@) && is_config(items[j]@) ==> (
        #[trigger] items[i])@.0 != (#[trigger] items[j])@.0
}

/// Whether every configuration file in `items` is in `others`.
pub open spec fn configs_among(items: Seq<DirItem>, others: Seq<DirItem>) -> bool {
    forall|i: int|
        0 <= i < items.len() && is_config(items[i]@) ==> exists|j: int|
            0 <= j < others.len() && (#[trigger] others[j])@ == (#[trigger] items[i])@
}

/// Two walks that come upon the same configuration files, in whatever order and among
/// whatever else, lead to those files in the same order.
pub proof fn law_order_of_walk_does_not_matter(
    items: Seq<DirItem>,
    order: Seq<usize>,
    others: Seq<DirItem>,
    other_order: Seq<usize>,
)
    requires
        distinct_configs(items),
        distinct_configs(others),
        items.len() <= usize::MAX,
        others.len() <= usize::MAX,
        configs_among(items, others),
        configs_among(others, items),
        is_config_order(items, order),
        is_config_order(others, other_order),
    ensures
        listed_paths(items, order) == listed_paths(others, other_order),
{
    lemma_listed_among(items, order, others, other_order);
    lemma_listed_among(others, other_order, items, order);
    lemma_listed_ascending(items, order);
    lemma_listed_ascending(others, other_order);
    lemma_ascending_unique(listed_paths(items, order), listed_paths(others, other_order));
}

spec fn ascending(s: Seq<Seq<Seq<u8>>>) -> bool {
    forall|a: int, b: int|
        0 <= a < b < s.len() ==> path_less(#[trigger] s[a], #[trigger] s[b])
}

proof fn lemma_listed_ascending(items: Seq<DirItem>, order: Seq<usize>)
    requires
        distinct_configs(items),
        is_config_order(items, order),
    ensures
        ascending(listed_paths(items, order)),
{
    let s = listed_paths(items, order);
    assert forall|a: int, b: int| 0 <= a < b < s.len() implies path_less(
        #[trigger] s[a],
        #[trigger] s[b],
    ) by {
        assert(comes_before(items, order[a] as int, order[b] as int));
        assert(order[a] < items.len() && is_config(items[order[a] as int]@));
        assert(order[b] < items.len() && is_config(items[order[b] as int]@));
    }
}

proof fn lemma_listed_among(
    items: Seq<DirItem>,
    order: Seq<usize>,
    others: Seq<DirItem>,
    other_order: Seq<usize>,
)
    requires
        others.len() <= usize::MAX,
        configs_among(items, others),
        is_config_order(items, order),
        is_config_order(others, other_order),
    ensures
        forall|x: Seq<Seq<u8>>|
            #[trigger] listed_paths(items, order).contains(x) ==> listed_paths(
                others,
                other_order,
            ).contains(x),
{
    let s = listed_paths(items, order);
    let t = listed_paths(others, other_order);
    assert forall|x: Seq<Seq<u8>>| #[trigger] s.contains(x) implies t.contains(x) by {
        let k = choose|k: int| 0 <= k < s.len() && s[k] == x;
        let i = order[k] as int;
        assert(is_config(items[i]@));
        let j = choose|j: int| 0 <= j < others.len() && (#[trigger] others[j])@ == items[i]@;
        assert(is_config(others[j]@));
        assert(other_order.contains(j as usize));
        let m = choose|m: int| 0 <= m < other_order.len() && other_order[m] == j as usize;
        assert(t[m] == x);
    }
}

proof fn lemma_ascending_unique(s: Seq<Seq<Seq<u8>>>, t: Seq<Seq<Seq<u8>>>)
    requires
        ascending(s),
        ascending(t),
        forall|x: Seq<Seq<u8>>| #[trigger] s.contains(x) ==> t.contains(x),
        forall|x: Seq<Seq<u8>>| #[trigger] t.contains(x) ==> s.contains(x),
    ensures
        s == t,
    decreases s.len(),
{
    if s.len() == 0 {
        if t.len() > 0 {
            assert(t.contains(t[0]));
        }
        assert(s == t);
    } else {
        assert(s.contains(s[0]));
        assert(t.contains(s[0]));
        let j = choose|j: int| 0 <= j < t.len() && t[j] == s[0];
        assert(t.contains(t[0]));
        let i = choose|i: int| 0 <= i < s.len() && s[i] == t[0];
        law_path_order_is_total(s[0], t[0]);
        assert(s[0] == t[0]) by {
            if j > 0 {
                assert(path_less(t[0], t[j]));
                if i > 0 {
                    assert(path_less(s[0], s[i]));
                }
            }
        }
        let s1 = s.skip(1);
        let t1 = t.skip(1);
        lemma_rest_among(s, t);
        lemma_rest_among(t, s);
        lemma_ascending_unique(s1, t1);
        assert(s == seq![s[0]] + s1);
        assert(t == seq![t[0]] + t1);
    }
}

proof fn lemma_rest_among(s: Seq<Seq<Seq<u8>>>, t: Seq<Seq<Seq<u8>>>)
    requires
        ascending(s),
        s.len() > 0,
        t.len() > 0,
        s[0] == t[0],
        forall|x: Seq<Seq<u8>>| #[trigger] s.contains(x) ==> t.contains(x),
    ensures
        ascending(s.skip(1)),
        forall|x: Seq<Seq<u8>>| #[trigger] s.skip(1).contains(x) ==> t.skip(1).contains(x),
{
    let s1 = s.skip(1);
    let t1 = t.skip(1);
    assert forall|a: int, b: int| 0 <= a < b < s1.len() implies path_less(
        #[trigger] s1[a],
        #[trigger] s1[b],
    ) by {
        assert(s1[a] == s[a + 1] && s1[b] == s[b + 1]);
    }
    assert forall|x: Seq<Seq<u8>>| #[trigger] s1.contains(x) implies t1.contains(x) by {
        let k = choose|k: int| 0 <= k < s1.len() && s1[k] == x;
        assert(s[k + 1] == x);
        assert(s.contains(x));
        assert(path_less(s[0], s[k + 1]));
        law_path_order_is_total(s[0], s[0]);
        let m = choose|m: int| 0 <= m < t.len() && t[m] == x;
        assert(t1[m - 1] == x);
    }
}

/// What came of reading a configuration file.
#[derive(Debug, Clone, PartialEq, Eq)]
pub enum ConfigRead {
    /// The file could not be read.
    Unreadable,
    /// It was read, and is not a list of process-ID files.
    Unparsable,
    /// It lists these process-ID files.
    Listed(Vec<PidProc>),
}

/// Why the configuration files could not be loaded. The index of the offending file is given.
#[derive(Debug, Clone, Copy, PartialEq, Eq, Structural)]
pub enum LoadError {
    Unreadable(usize),
    Unparsable(usize),
}

/// What a file that could be read lists.
pub open spec fn listed(read: ConfigRead) -> Seq<PidProc> {
    match read {
        ConfigRead::Listed(procs) => procs@,
        _ => Seq::empty(),
    }
}

/// What a row of files lists, one file after the other.
pub open spec fn all_listed(reads: Seq<ConfigRead>) -> Seq<PidProc>
    decreases reads.len(),
{
    if reads.len() == 0 {
        Seq::empty()
    } else {
        all_listed(reads.drop_last()) + listed(reads.last())
    }
}

/// Files that are read one group after the other list the same as when read at once.
pub proof fn law_listing_joins(reads: Seq<ConfigRead>, more: Seq<ConfigRead>)
    ensures
        all_listed(reads + more) == all_listed(reads) + all_listed(more),
    decreases more.len(),
{
    if more.len() == 0 {
        assert(reads + more == reads);
        assert(all_listed(reads) + Seq::<PidProc>::empty() == all_listed(reads));
    } else {
        law_listing_joins(reads, more.drop_last());
        assert((reads + more).drop_last() == reads + more.drop_last());
        assert(all_listed(reads) + (all_listed(more.drop_last()) + listed(more.last())) == (
        all_listed(reads) + all_listed(more.drop_last())) + listed(more.last()));
    }
}

/// Whether the files before the file `i` could be read, all of them.
pub open spec fn good_before(reads: Seq<ConfigRead>, i: int) -> bool {
    forall|j: int| 0 <= j < i ==> (#[trigger] reads[j]) is Listed
}

/// Puts together what the configuration files list. The first one that failed decides.
pub fn join_configs(reads: Vec<ConfigRead>) -> (r: Result<Vec<PidProc>, LoadError>)
    ensures
        match r {
            Ok(procs) => good_before(reads@, reads@.len() as int) && procs@ == all_listed(reads@)
                && forall|j: int| 0 <= j < reads@.len() ==> (#[trigger] reads@[j]) is Listed,
            Err(LoadError::Unreadable(i)) => i < reads@.len() && good_before(reads@, i as int)
                && reads@[i as int] is Unreadable,
            Err(LoadError::Unparsable(i)) => i < reads@.len() && good_before(reads@, i as int)
                && reads@[i as int] is Unparsable,
        },
{
    let mut all: Vec<PidProc> = Vec::new();
    let mut i: usize = 0;
    let ghost whole = reads@;
    let len: usize = reads.len();
    for read in it: reads
        invariant
            it.seq() == whole,
            whole.len() == len,
            i == it.index(),
            i <= len,
            good_before(whole, i as int),
            all@ == all_listed(whole.take(i as int)),
    {
        assert(read == whole[i as int]);
        assert(whole.take(i + 1).drop_last() == whole.take(i as int));
        match read {
            ConfigRead::Unreadable => {
                return Err(LoadError::Unreadable(i));
            },
            ConfigRead::Unparsable => {
                return Err(LoadError::Unparsable(i));
            },
            ConfigRead::Listed(procs) => {
                let mut procs: Vec<PidProc> = procs;
                all.append(&mut procs);
            },
        }
        i = i + 1;
    }
    assert(whole.take(len as int) == whole);
    Ok(all)
}

/// Nothing says which process-ID files to look at.
#[derive(Debug, Clone, Copy, PartialEq, Eq, Structural)]
pub struct NoSource {}

impl NoSource {
    /// The error in words.
    pub fn message(&self) -> (m: &'static str)
        ensures
            m@ == "Either -p, -d, or --pidpair-dir must be specified"@,
    {
        "Either -p, -d, or --pidpair-dir must be specified"
    }
}

/// Checks that process-ID files or a directory of configuration files were given.
pub fn require_source(pid_files_given: bool, pidpair_dir_given: bool) -> (r: Result<(), NoSource>)
    ensures
        r is Ok <==> pid_files_given || pidpair_dir_given,
{
    if !pid_files_given && !pidpair_dir_given {
        return Err(NoSource {  });
    }
    Ok(())
}

/// `.yml` in bytes.
pub open spec fn dot_yml() -> Seq<u8> {
    seq![0x2eu8, 0x79, 0x6d, 0x6c]
}

/// `.yaml` in bytes.
pub open spec fn dot_yaml() -> Seq<u8> {
    seq![0x2eu8, 0x79, 0x61, 0x6d, 0x6c]
}

/// A regular file is a configuration file by its name alone, in whatever directory it is: with
/// something in front, and `.yml` or `.yaml` after it.
pub proof fn law_config_by_name(dir: Seq<Seq<u8>>, stem: Seq<u8>)
    requires
        stem.len() > 0,
    ensures
        is_config((dir.push(stem + dot_yml()), true)),
        is_config((dir.push(stem + dot_yaml()), true)),
{
    let short = stem + dot_yml();
    assert(short.skip(stem.len() as int + 1) == yml());
    assert(has_extension(short, yml()));
    assert(dir.push(short).last() == short);
    let long = stem + dot_yaml();
    assert(long.skip(stem.len() as int + 1) == yaml());
    assert(has_extension(long, yaml()));
    assert(dir.push(long).last() == long);
}

/// Nothing else is a configuration file.
pub proof fn law_config_has_such_a_name(item: (Seq<Seq<u8>>, bool))
    requires
        is_config(item),
    ensures
        item.1,
        item.0.len() > 0,
        exists|stem: Seq<u8>|
            stem.len() > 0 && (item.0.last() == #[trigger] (stem + dot_yml()) || item.0.last()
                == stem + dot_yaml()),
{
    let name = item.0.last();
    if has_extension(name, yml()) {
        let dot = name.len() - 4;
        let stem = name.take(dot);
        assert(name == stem.push(name[dot]) + name.skip(dot + 1));
        assert(name == stem + dot_yml());
    } else {
        let dot = name.len() - 5;
        let stem = name.take(dot);
        assert(name == stem.push(name[dot]) + name.skip(dot + 1));
        assert(name == stem + dot_yaml());
        assert((stem + dot_yml()).len() == stem.len() + 4);
    }
}

/// Of two names the one with the smaller byte comes first, where they first differ, and a name
/// comes before every longer one that begins with it.
pub proof fn law_names_in_order(front: Seq<u8>, x: u8, y: u8, a: Seq<u8>, b: Seq<u8>)
    requires
        x < y,
    ensures
        name_less(front.push(x) + a, front.push(y) + b),
        !name_less(front.push(y) + b, front.push(x) + a),
        name_less(front, front.push(y) + b),
        !name_less(front.push(y) + b, front),
        !name_less(front, front),
    decreases front.len(),
{
    let s = front.push(x) + a;
    let t = front.push(y) + b;
    if front.len() > 0 {
        let rest = front.skip(1);
        assert(s.skip(1) == rest.push(x) + a);
        assert(t.skip(1) == rest.push(y) + b);
        law_names_in_order(rest, x, y, a, b);
    }
}

/// Of two paths the one with the smaller component comes first, where they first differ, and a
/// path comes before everything below it.
pub proof fn law_paths_in_order(
    front: Seq<Seq<u8>>,
    x: Seq<u8>,
    y: Seq<u8>,
    a: Seq<Seq<u8>>,
    b: Seq<Seq<u8>>,
)
    requires
        name_less(x, y),
    ensures
        path_less(front.push(x) + a, front.push(y) + b),
        !path_less(front.push(y) + b, front.push(x) + a),
        path_less(front, front.push(y) + b),
        !path_less(front.push(y) + b, front),
        !path_less(front, front),
    decreases front.len(),
{
    let s = front.push(x) + a;
    let t = front.push(y) + b;
    lemma_name_order(x, y);
    if front.len() > 0 {
        let rest = front.skip(1);
        assert(s.skip(1) == rest.push(x) + a);
        assert(t.skip(1) == rest.push(y) + b);
        law_paths_in_order(rest, x, y, a, b);
    } else {
        assert(s[0] == x && t[0] == y);
    }
}

/// An item is its components and whether it is a file, and nothing of them is lost from view.
pub proof fn law_item_in_view(item: DirItem)
    ensures
        item@.0.len() == item.path@.len(),
        forall|i: int| 0 <= i < item.path@.len() ==> #[trigger] item@.0[i] == item.path@[i]@,
        item@.1 == item.is_file,
{
}

/// The list of configuration files holds each of them once, by its index, and nothing else; of
/// two of them, the one with the smaller path comes first, and of two with one path the one
/// that was found first.
pub proof fn law_every_config_is_listed_once(items: Seq<DirItem>, order: Seq<usize>)
    requires
        is_config_order(items, order),
        items.len() <= usize::MAX,
    ensures
        order.no_duplicates(),
        forall|i: usize|
            #[trigger] order.contains(i) <==> i < items.len() && is_config(items[i as int]@),
        forall|a: int, b: int|
            #![trigger order[a], order[b]]
            0 <= a < order.len() && 0 <= b < order.len() && path_less(
                items[order[a] as int]@.0,
                items[order[b] as int]@.0,
            ) ==> a < b,
        forall|a: int, b: int|
            #![trigger order[a], order[b]]
            0 <= a < order.len() && 0 <= b < order.len() && items[order[a] as int]@.0
                == items[order[b] as int]@.0 && order[a] < order[b] ==> a < b,
{
    assert forall|a: int, b: int|
        #![trigger order[a], order[b]]
        0 <= a < b < order.len() implies order[a] != order[b] && !path_less(
        items[order[b] as int]@.0,
        items[order[a] as int]@.0,
    ) && (items[order[a] as int]@.0 == items[order[b] as int]@.0 ==> order[a] < order[b]) by {
        assert(comes_before(items, order[a] as int, order[b] as int));
        law_path_order_is_total(items[order[a] as int]@.0, items[order[b] as int]@.0);
    }
    assert forall|a: int, b: int|
        #![trigger order[a], order[b]]
        0 <= a < order.len() && 0 <= b < order.len() && path_less(
            items[order[a] as int]@.0,
            items[order[b] as int]@.0,
        ) implies a < b by {
        law_path_order_is_total(items[order[a] as int]@.0, items[order[b] as int]@.0);
    }
    assert forall|i: usize| #[trigger] order.contains(i) <==> i < items.len() && is_config(
        items[i as int]@,
    ) by {
        if order.contains(i) {
            let k = choose|k: int| 0 <= k < order.len() && order[k] == i;
            assert(order[k] < items.len());
        }
    }
}

/// One file lists what it holds, all of it and in its order, and no file lists nothing.
pub proof fn law_one_file_lists_what_it_holds(procs: Vec<PidProc>)
    ensures
        all_listed(seq![ConfigRead::Listed(procs)]) == procs@,
        all_listed(Seq::empty()) == Seq::<PidProc>::empty(),
{
    let one = seq![ConfigRead::Listed(procs)];
    assert(one.drop_last() == Seq::<ConfigRead>::empty());
    assert(all_listed(one.drop_last()) == Seq::<PidProc>::empty());
    assert(all_listed(one) == procs@);
}

/// Each entry of each file is in the result, right after all entries of the files before it and
/// those before it in its own file; and the result holds no more than that.
pub proof fn law_every_entry_has_its_place(
    reads: Seq<ConfigRead>,
    procs: Vec<PidProc>,
    more: Seq<ConfigRead>,
    k: int,
)
    requires
        0 <= k < procs@.len(),
    ensures
        ({
            let all = all_listed(reads + seq![ConfigRead::Listed(procs)] + more);
            let place = all_listed(reads).len() + k;
            &&& all.len() == all_listed(reads).len() + procs@.len() + all_listed(more).len()
            &&& all[place] == procs@[k]
        }),
{
    let one = seq![ConfigRead::Listed(procs)];
    law_listing_joins(reads + one, more);
    law_listing_joins(reads, one);
    law_one_file_lists_what_it_holds(procs);
}

/// With one more file, all files up to there could be read when those before and this one could.
pub proof fn law_good_files_one_more(reads: Seq<ConfigRead>, i: int)
    requires
        0 <= i < reads.len(),
    ensures
        good_before(reads, 0),
        good_before(reads, i + 1) <==> good_before(reads, i) && reads[i] is Listed,
{
}

} // verus!
