use vstd::prelude::*;
use std::collections::HashMap;
use crate::gtfs::Stop;
use crate::str_utils::common_prefix_len;
use crate::str_utils::get_common_prefix_len;
use crate::str_utils::get_root_stop_id;
use crate::str_utils::root_stop_id;

verus! {

/// A logical station: the stops (by index) that share a root id, with the name of each.
pub struct StopGroup {
    pub root_id: String,
    pub stops: Vec<usize>,
    pub names: Vec<String>,
}

/// Every group is non-empty, lists each member with its name and root id, no two groups share a
/// root id, and every stop is a member of a group.
pub open spec fn stop_groups_ok(stops: Seq<Stop>, groups: Seq<StopGroup>) -> bool {
    &&& forall|g: int|
        0 <= g < groups.len() ==> {
            &&& (#[trigger] groups[g]).stops@.len() == groups[g].names@.len()
            &&& groups[g].stops@.len() >= 1
        }
    &&& forall|g: int, k: int|
        0 <= g < groups.len() && 0 <= k < groups[g].stops@.len() ==> {
            let s = #[trigger] groups[g].stops@[k];
            &&& s < stops.len()
            &&& root_stop_id(stops[s as int].stop_id@) == groups[g].root_id@
            &&& groups[g].names@[k]@ == stops[s as int].stop_name@
        }
    &&& forall|g: int, h: int|
        0 <= g < groups.len() && 0 <= h < groups.len() && g != h ==> (#[trigger] groups[g]).root_id@
            != (#[trigger] groups[h]).root_id@
    &&& forall|s: int| 0 <= s < stops.len() ==> #[trigger] in_some_group(groups, s)
}

/// Stop `s` is a member of one of `groups`.
pub open spec fn in_some_group(groups: Seq<StopGroup>, s: int) -> bool {
    exists|g: int, k: int|
        0 <= g < groups.len() && 0 <= k < groups[g].stops@.len() && #[trigger] groups[g].stops@[k]
            == s as usize
}

/// Index of the group whose root id is `root`, if there is one. The map is only a fast path:
/// what it returns is checked, and on a miss the groups are searched in order.
fn find_group(index: &HashMap<String, usize>, groups: &Vec<StopGroup>, root: &String) -> (r: Option<
    usize,
>)
    ensures
        r matches Some(g) ==> g < groups.len() && groups@[g as int].root_id@ == root@,
        r is None ==> forall|g: int| 0 <= g < groups.len() ==> (#[trigger] groups@[g]).root_id@ != root@,
{
    if let Some(g) = index.get(root) {
        let g = *g;
        if g < groups.len() && groups[g].root_id == *root {
            return Some(g);
        }
    }
    let mut g: usize = 0;
    while g < groups.len()
        invariant
            g <= groups.len(),
            forall|h: int| 0 <= h < g ==> (#[trigger] groups@[h]).root_id@ != root@,
        decreases groups.len() - g,
    {
        if groups[g].root_id == *root {
            return Some(g);
        }
        g += 1;
    }
    None
}

/// Groups the stops by root id, keeping the name of every member.
pub fn create_stop_groups(stops: &Vec<Stop>) -> (groups: Vec<StopGroup>)
    ensures
        stop_groups_ok(stops@, groups@),
{
    let mut groups: Vec<StopGroup> = Vec::new();
    let mut index: HashMap<String, usize> = HashMap::new();
    let mut s: usize = 0;
    while s < stops.len()
        invariant
            s <= stops.len(),
            forall|g: int|
                0 <= g < groups.len() ==> {
                    &&& (#[trigger] groups@[g]).stops@.len() == groups@[g].names@.len()
                    &&& groups@[g].stops@.len() >= 1
                },
            forall|g: int, k: int|
                0 <= g < groups.len() && 0 <= k < groups@[g].stops@.len() ==> {
                    let t = #[trigger] groups@[g].stops@[k];
                    &&& t < stops.len()
                    &&& root_stop_id(stops@[t as int].stop_id@) == groups@[g].root_id@
                    &&& groups@[g].names@[k]@ == stops@[t as int].stop_name@
                },
            forall|g: int, h: int|
                0 <= g < groups.len() && 0 <= h < groups.len() && g != h ==> (
                #[trigger] groups@[g]).root_id@ != (#[trigger] groups@[h]).root_id@,
            forall|t: int| 0 <= t < s ==> #[trigger] in_some_group(groups@, t),
        decreases stops.len() - s,
    {
        let root = get_root_stop_id(&stops[s].stop_id);
        let ghost old_groups = groups@;
        match find_group(&index, &groups, &root) {
            Some(g) => {
                let mut group = StopGroup {
                    root_id: String::new(),
                    stops: Vec::new(),
                    names: Vec::new(),
                };
                std::mem::swap(&mut group, &mut groups[g]);
                let ghost og = group;
                group.stops.push(s);
                group.names.push(stops[s].stop_name.clone());
                std::mem::swap(&mut group, &mut groups[g]);
                proof {
                    assert(groups@ == old_groups.update(g as int, groups@[g as int]));
                    assert(groups@[g as int].stops@ == og.stops@.push(s));
                    assert forall|t: int| 0 <= t < s + 1 implies #[trigger] in_some_group(groups@, t) by {
                        if t == s {
                            assert(groups@[g as int].stops@[og.stops@.len() as int] == s);
                        } else {
                            assert(in_some_group(old_groups, t));
                            let (gg, k) = choose|gg: int, k: int|
                                0 <= gg < old_groups.len() && 0 <= k < old_groups[gg].stops@.len()
                                    && #[trigger] old_groups[gg].stops@[k] == t as usize;
                            if gg == g {
                                assert(groups@[gg].stops@[k] == t as usize);
                            } else {
                                assert(groups@[gg] == old_groups[gg]);
                            }
                        }
                    }
                }
            },
            None => {
                let g = groups.len();
                let name = stops[s].stop_name.clone();
                index.insert(root.clone(), g);
                groups.push(StopGroup { root_id: root, stops: vec![s], names: vec![name] });
                proof {
                    assert forall|t: int| 0 <= t < s + 1 implies #[trigger] in_some_group(groups@, t) by {
                        if t == s {
                            assert(groups@[g as int].stops@[0] == s);
                        } else {
                            assert(in_some_group(old_groups, t));
                            let (gg, k) = choose|gg: int, k: int|
                                0 <= gg < old_groups.len() && 0 <= k < old_groups[gg].stops@.len()
                                    && #[trigger] old_groups[gg].stops@[k] == t as usize;
                            assert(groups@[gg] == old_groups[gg]);
                        }
                    }
                }
            },
        }
        s += 1;
    }
    groups
}

/// Score of name `k` of group `g` against `name`: the length of their common prefix.
pub open spec fn name_score(groups: Seq<StopGroup>, name: Seq<char>, g: int, k: int) -> int {
    common_prefix_len(name, groups[g].names@[k]@)
}

/// Name `(g, k)` comes before name `(h, l)` when groups and their names are taken in order.
pub open spec fn comes_before(g: int, k: int, h: int, l: int) -> bool {
    g < h || (g == h && k < l)
}

/// Name `k` of group `g` scores highest against `name`, and every name before it scores less.
pub open spec fn is_best_name(groups: Seq<StopGroup>, name: Seq<char>, g: int, k: int) -> bool {
    &&& forall|h: int, l: int|
        0 <= h < groups.len() && 0 <= l < groups[h].names@.len() ==> #[trigger] name_score(
            groups,
            name,
            h,
            l,
        ) <= name_score(groups, name, g, k)
    &&& forall|h: int, l: int|
        0 <= h < groups.len() && 0 <= l < groups[h].names@.len() && comes_before(h, l, g, k)
            ==> #[trigger] name_score(groups, name, h, l) < name_score(groups, name, g, k)
}

/// Group `g` owns the first of the highest-scoring names.
pub open spec fn owns_best_name(groups: Seq<StopGroup>, name: Seq<char>, g: int) -> bool {
    exists|k: int| 0 <= k < groups[g].names@.len() && #[trigger] is_best_name(groups, name, g, k)
}

/// The group owning the first of the highest-scoring names, or none where no group has a name.
pub fn get_stop_group_by_name(groups: &Vec<StopGroup>, name: &String) -> (r: Option<usize>)
    ensures
        r is None <==> forall|g: int| 0 <= g < groups.len() ==> (#[trigger] groups@[g]).names@.len()
            == 0,
        r matches Some(g) ==> g < groups.len() && owns_best_name(groups@, name@, g as int),
{
    let mut best: Option<(usize, usize, usize)> = None;
    let mut g: usize = 0;
    while g < groups.len()
        invariant
            g <= groups.len(),
            best is None <==> forall|h: int| 0 <= h < g ==> (#[trigger] groups@[h]).names@.len() == 0,
            best matches Some(b) ==> {
                &&& b.0 < g
                &&& b.1 < groups@[b.0 as int].names@.len()
                &&& b.2 == name_score(groups@, name@, b.0 as int, b.1 as int)
                &&& forall|h: int, l: int|
                    0 <= h < g && 0 <= l < groups@[h].names@.len() ==> #[trigger] name_score(
                        groups@,
                        name@,
                        h,
                        l,
                    ) <= b.2
                &&& forall|h: int, l: int|
                    0 <= h < groups.len() && 0 <= l < groups@[h].names@.len() && comes_before(
                        h,
                        l,
                        b.0 as int,
                        b.1 as int,
                    ) ==> #[trigger] name_score(groups@, name@, h, l) < b.2
            },
        decreases groups.len() - g,
    {
        let names = &groups[g].names;
        let mut k: usize = 0;
        while k < names.len()
            invariant
                g < groups.len(),
                names == groups@[g as int].names,
                k <= names.len(),
                best is None <==> (forall|h: int| 0 <= h < g ==> (#[trigger] groups@[h]).names@.len()
                    == 0) && k == 0,
                best matches Some(b) ==> {
                    &&& comes_before(b.0 as int, b.1 as int, g as int, k as int)
                    &&& b.0 <= g
                    &&& b.1 < groups@[b.0 as int].names@.len()
                    &&& b.2 == name_score(groups@, name@, b.0 as int, b.1 as int)
                    &&& forall|h: int, l: int|
                        0 <= h < groups.len() && 0 <= l < groups@[h].names@.len() && comes_before(
                            h,
                            l,
                            g as int,
                            k as int,
                        ) ==> #[trigger] name_score(groups@, name@, h, l) <= b.2
                    &&& forall|h: int, l: int|
                        0 <= h < groups.len() && 0 <= l < groups@[h].names@.len() && comes_before(
                            h,
                            l,
                            b.0 as int,
                            b.1 as int,
                        ) ==> #[trigger] name_score(groups@, name@, h, l) < b.2
                },
            decreases names.len() - k,
        {
            let score = get_common_prefix_len(name, &names[k]);
            match best {
                Some(b) => {
                    if score > b.2 {
                        best = Some((g, k, score));
                    }
                },
                None => {
                    best = Some((g, k, score));
                },
            }
            k += 1;
        }
        g += 1;
    }
    match best {
        Some(b) => {
            proof {
                assert(b.0 < groups.len());
                assert(b.1 < groups@[b.0 as int].names@.len());
                assert(is_best_name(groups@, name@, b.0 as int, b.1 as int));
                assert(owns_best_name(groups@, name@, b.0 as int));
            }
            Some(b.0)
        },
        None => None,
    }
}

/// At most one group owns the first of the highest-scoring names, so a name selects one group.
pub proof fn lemma_best_group_unique(groups: Seq<StopGroup>, name: Seq<char>, g: int, h: int)
    requires
        0 <= g < groups.len(),
        0 <= h < groups.len(),
        owns_best_name(groups, name, g),
        owns_best_name(groups, name, h),
    ensures
        g == h,
{
    let k = choose|k: int| 0 <= k < groups[g].names@.len() && #[trigger] is_best_name(groups, name, g, k);
    let l = choose|l: int| 0 <= l < groups[h].names@.len() && #[trigger] is_best_name(groups, name, h, l);
    assert(name_score(groups, name, g, k) <= name_score(groups, name, h, l));
    assert(name_score(groups, name, h, l) <= name_score(groups, name, g, k));
    if comes_before(g, k, h, l) {
        assert(name_score(groups, name, g, k) < name_score(groups, name, h, l));
    }
    if comes_before(h, l, g, k) {
        assert(name_score(groups, name, h, l) < name_score(groups, name, g, k));
    }
}

} // verus!
