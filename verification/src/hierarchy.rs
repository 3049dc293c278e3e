//! The preference-path hierarchy: a trie over the full expressed rankings
//! of all ballots, counting at each path's end how many ballots exhaust
//! there, and its conversion to a plain tree for reporting.

use vstd::prelude::*;

use crate::ballot::Ballot;

verus! {

/// A plain tree node: interior nodes carry children and no value, leaves
/// carry the exhaustion count at their path.
pub struct Node {
    pub name: String,
    pub value: Option<i64>,
    pub children: Option<Vec<Node>>,
}

/// The internal trie: an interior node maps candidate names (and the
/// special exhaustion key) to subtrees; a leaf holds how many ballots
/// exhaust at its path.
pub enum NodeInternal {
    /// Leaf node
    Value(i64),
    /// Edge
    Children(Vec<(String, NodeInternal)>),
}

/// The reserved key under which an interior node counts the ballots whose
/// ranking ends there.
pub open spec fn exhausted_key() -> Seq<char> {
    "Exhausted"@
}

/// The first entry of `children` whose key reads `key`, if any.
pub open spec fn spec_assoc_find(
    children: Seq<(String, NodeInternal)>,
    key: Seq<char>,
) -> Option<NodeInternal>
    decreases children.len(),
{
    if children.len() == 0 {
        None
    } else if children[0].0@ == key {
        Some(children[0].1)
    } else {
        spec_assoc_find(children.drop_first(), key)
    }
}

/// The trie invariant: within each interior node the keys are distinct,
/// the exhaustion key maps to a leaf and every other key to an interior
/// node, recursively.
pub open spec fn spec_node_wf(n: NodeInternal) -> bool
    decreases n,
{
    match n {
        NodeInternal::Value(_) => true,
        NodeInternal::Children(cs) => {
            &&& (forall|i: int, j: int| 0 <= i < j < cs@.len() ==> cs@[i].0@ != cs@[j].0@)
            &&& (forall|i: int|
                0 <= i < cs@.len() ==> ((#[trigger] cs@[i]).0@ == exhausted_key() <==> cs@[i].1
                    is Value))
            &&& (forall|i: int| 0 <= i < cs@.len() ==> spec_node_wf((#[trigger] cs@[i]).1))
        },
    }
}

/// Every leaf of the trie holds a count between 0 and `b`.
pub open spec fn spec_values_le(n: NodeInternal, b: int) -> bool
    decreases n,
{
    match n {
        NodeInternal::Value(v) => 0 <= v <= b,
        NodeInternal::Children(cs) => forall|i: int|
            0 <= i < cs@.len() ==> spec_values_le((#[trigger] cs@[i]).1, b),
    }
}

/// A bound on the leaf counts stays a bound when it grows.
pub proof fn lemma_values_le_mono(n: NodeInternal, b1: int, b2: int)
    requires
        spec_values_le(n, b1),
        b1 <= b2,
    ensures
        spec_values_le(n, b2),
    decreases n,
{
    match n {
        NodeInternal::Value(_) => {},
        NodeInternal::Children(cs) => {
            assert forall|i: int| 0 <= i < cs@.len() implies spec_values_le(
                (#[trigger] cs@[i]).1,
                b2,
            ) by {
                lemma_values_le_mono(cs@[i].1, b1, b2);
            }
        },
    }
}

/// How many ballots the trie rooted at `children` records as exhausting
/// exactly at the end of `path`: the count of the leaf under the
/// exhaustion key of the node that `path` leads to, or 0 where the path
/// leaves the trie.
pub open spec fn spec_trie_count(
    children: Seq<(String, NodeInternal)>,
    path: Seq<Seq<char>>,
) -> int
    decreases path.len(),
{
    if path.len() == 0 {
        match spec_assoc_find(children, exhausted_key()) {
            Some(NodeInternal::Value(v)) => v as int,
            _ => 0,
        }
    } else {
        match spec_assoc_find(children, path[0]) {
            Some(NodeInternal::Children(cs)) => spec_trie_count(cs@, path.drop_first()),
            _ => 0,
        }
    }
}

/// The views of a list of path segments.
pub open spec fn spec_path_views(path: Seq<String>) -> Seq<Seq<char>> {
    Seq::new(path.len(), |j: int| path[j]@)
}

/// The name path of one ballot: its expressed choices, each replaced by
/// the candidate's name.
pub open spec fn spec_name_path(s: Seq<usize>, names: Seq<String>) -> Seq<Seq<char>> {
    Seq::new(s.len(), |j: int| names[s[j] as int]@)
}

/// How many of `ballots` express at least one preference and follow
/// exactly the name path `p`.
pub open spec fn spec_hier_count(
    ballots: Seq<Ballot>,
    names: Seq<String>,
    p: Seq<Seq<char>>,
) -> int
    decreases ballots.len(),
{
    if ballots.len() == 0 {
        0
    } else {
        spec_hier_count(ballots.drop_last(), names, p) + if ballots.last()@.len() > 0
            && spec_name_path(ballots.last()@, names) == p {
            1int
        } else {
            0int
        }
    }
}

/// Finds the first entry of `children` whose key equals `key`.
fn assoc_position(children: &Vec<(String, NodeInternal)>, key: &String) -> (r: Option<usize>)
    ensures
        match r {
            Some(j) => j < children@.len() && children@[j as int].0@ == key@ && forall|q: int|
                0 <= q < j ==> children@[q].0@ != key@,
            None => forall|q: int| 0 <= q < children@.len() ==> children@[q].0@ != key@,
        },
{
    let mut j: usize = 0;
    while j < children.len()
        invariant
            j <= children@.len(),
            forall|q: int| 0 <= q < j ==> children@[q].0@ != key@,
        decreases children@.len() - j,
    {
        if children[j].0 == *key {
            return Some(j);
        }
        j = j + 1;
    }
    None
}

/// Where `children` holds `key` first, `spec_assoc_find` yields that
/// entry's node; where it holds it nowhere, the find fails.
pub proof fn lemma_assoc_find_at(children: Seq<(String, NodeInternal)>, key: Seq<char>, j: int)
    requires
        0 <= j < children.len(),
        children[j].0@ == key,
        forall|q: int| 0 <= q < j ==> children[q].0@ != key,
    ensures
        spec_assoc_find(children, key) == Some(children[j].1),
    decreases j,
{
    if j > 0 {
        let rest = children.drop_first();
        assert forall|q: int| 0 <= q < j - 1 implies rest[q].0@ != key by {
            assert(rest[q] == children[q + 1]);
        }
        lemma_assoc_find_at(rest, key, j - 1);
    }
}

/// Where no entry carries `key`, the find fails.
pub proof fn lemma_assoc_find_none(children: Seq<(String, NodeInternal)>, key: Seq<char>)
    requires
        forall|q: int| 0 <= q < children.len() ==> children[q].0@ != key,
    ensures
        spec_assoc_find(children, key) is None,
    decreases children.len(),
{
    if children.len() > 0 {
        let rest = children.drop_first();
        assert forall|q: int| 0 <= q < rest.len() implies rest[q].0@ != key by {
            assert(rest[q] == children[q + 1]);
        }
        lemma_assoc_find_none(rest, key);
    }
}

/// The trie invariant, seen from a node's child list.
pub open spec fn spec_children_wf(cs: Seq<(String, NodeInternal)>) -> bool {
    &&& (forall|i: int, j: int| 0 <= i < j < cs.len() ==> cs[i].0@ != cs[j].0@)
    &&& (forall|i: int|
        0 <= i < cs.len() ==> ((#[trigger] cs[i]).0@ == exhausted_key() <==> cs[i].1 is Value))
    &&& (forall|i: int| 0 <= i < cs.len() ==> spec_node_wf((#[trigger] cs[i]).1))
}

/// The leaf-count bound, seen from a node's child list.
pub open spec fn spec_children_values_le(cs: Seq<(String, NodeInternal)>, b: int) -> bool {
    forall|i: int| 0 <= i < cs.len() ==> spec_values_le((#[trigger] cs[i]).1, b)
}

/// Replacing the entry at `j` by one with the same key leaves every find
/// for a different key unchanged.
proof fn lemma_assoc_find_update_other(
    s: Seq<(String, NodeInternal)>,
    j: int,
    e: (String, NodeInternal),
    key: Seq<char>,
)
    requires
        0 <= j < s.len(),
        e.0@ == s[j].0@,
        key != s[j].0@,
    ensures
        spec_assoc_find(s.update(j, e), key) == spec_assoc_find(s, key),
    decreases s.len(),
{
    let s2 = s.update(j, e);
    if j == 0 {
        assert(s2.drop_first() =~= s.drop_first());
    } else {
        assert(s2[0] == s[0]);
        if s[0].0@ != key {
            assert(s2.drop_first() =~= s.drop_first().update(j - 1, e));
            lemma_assoc_find_update_other(s.drop_first(), j - 1, e, key);
        }
    }
}

/// Appending an entry with a fresh key leaves every find for a different
/// key unchanged.
proof fn lemma_assoc_find_push_other(
    s: Seq<(String, NodeInternal)>,
    e: (String, NodeInternal),
    key: Seq<char>,
)
    requires
        key != e.0@,
    ensures
        spec_assoc_find(s.push(e), key) == spec_assoc_find(s, key),
    decreases s.len(),
{
    let s2 = s.push(e);
    if s.len() == 0 {
        assert(s2[0] == e);
        assert(s2[0].0@ != key);
        assert(s2.drop_first() =~= Seq::<(String, NodeInternal)>::empty());
        assert(spec_assoc_find(s2, key) is None);
        assert(spec_assoc_find(s, key) is None);
    } else {
        assert(s2[0] == s[0]);
        if s[0].0@ != key {
            assert(s2.drop_first() =~= s.drop_first().push(e));
            lemma_assoc_find_push_other(s.drop_first(), e, key);
        } else {
            assert(spec_assoc_find(s2, key) == Some(s2[0].1));
            assert(spec_assoc_find(s, key) == Some(s[0].1));
        }
    }
}

/// An empty trie records no path.
proof fn lemma_trie_count_empty(p: Seq<Seq<char>>)
    ensures
        spec_trie_count(Seq::empty(), p) == 0,
{
}

/// The exhaustion key, as an owned string.
fn exhausted_string() -> (r: String)
    ensures
        r@ == exhausted_key(),
{
    "Exhausted".to_owned()
}

/// Records one more ballot whose remaining name path is `path[i..]` into
/// the trie: descends along the path, creating interior nodes as needed,
/// and bumps the exhaustion count of the node the path ends at.
fn trie_insert(mut children: Vec<(String, NodeInternal)>, path: &Vec<String>, i: usize) -> (res:
    Vec<(String, NodeInternal)>)
    requires
        spec_children_wf(children@),
        spec_children_values_le(children@, i64::MAX - 1),
        i <= path@.len(),
        forall|j: int| i <= j < path@.len() ==> path@[j]@ != exhausted_key(),
    ensures
        spec_children_wf(res@),
        res@.len() > 0,
        forall|b: int|
            spec_children_values_le(children@, b) && 0 <= b ==> spec_children_values_le(
                res@,
                b + 1,
            ),
        forall|p: Seq<Seq<char>>|
            #[trigger] spec_trie_count(res@, p) == spec_trie_count(children@, p) + if p
                == spec_path_views(path@).subrange(i as int, path@.len() as int) {
                1int
            } else {
                0int
            },
    decreases path@.len() - i,
{
    let ghost s = children@;
    let ghost suffix = spec_path_views(path@).subrange(i as int, path@.len() as int);
    if i == path.len() {
        let exh = exhausted_string();
        let posn = assoc_position(&children, &exh);
        match posn {
            Some(j) => {
                let (kstr, node) = children.remove(j);
                match node {
                    NodeInternal::Value(v) => {
                        assert(v < i64::MAX) by {
                            assert(spec_values_le(s[j as int].1, i64::MAX - 1));
                        }
                        children.insert(j, (kstr, NodeInternal::Value(v + 1)));
                        proof {
                            let e = (kstr, NodeInternal::Value((v + 1) as i64));
                            assert(children@ =~= s.update(j as int, e));
                            assert forall|p: Seq<Seq<char>>|
                                #[trigger] spec_trie_count(children@, p) == spec_trie_count(
                                s,
                                p,
                            ) + if p == suffix {
                                1int
                            } else {
                                0int
                            } by {
                                if p.len() == 0 {
                                    assert(p =~= suffix);
                                    lemma_assoc_find_at(s, exhausted_key(), j as int);
                                    lemma_assoc_find_at(children@, exhausted_key(), j as int);
                                } else {
                                    assert(p != suffix);
                                    if p[0] == exhausted_key() {
                                        lemma_assoc_find_at(s, exhausted_key(), j as int);
                                        lemma_assoc_find_at(
                                            children@,
                                            exhausted_key(),
                                            j as int,
                                        );
                                    } else {
                                        lemma_assoc_find_update_other(s, j as int, e, p[0]);
                                    }
                                }
                            }
                            assert forall|b: int|
                                spec_children_values_le(s, b) && 0 <= b
                                implies spec_children_values_le(children@, b + 1) by {
                                assert forall|q: int|
                                    0 <= q < children@.len() implies spec_values_le(
                                    (#[trigger] children@[q]).1,
                                    b + 1,
                                ) by {
                                    if q != j {
                                        lemma_values_le_mono(s[q].1, b, b + 1);
                                    }
                                }
                            }
                        }
                    },
                    NodeInternal::Children(_) => {
                        proof {
                            assert(s[j as int].0@ == exhausted_key());
                            assert(false);
                        }
                        return unreached();
                    },
                }
            },
            None => {
                children.push((exh, NodeInternal::Value(1)));
                proof {
                    let e = (
                        children@[children@.len() - 1].0,
                        NodeInternal::Value(1i64),
                    );
                    assert(children@ =~= s.push(children@[children@.len() - 1]));
                    assert(children@[children@.len() - 1].0@ == exhausted_key());
                    lemma_assoc_find_none(s, exhausted_key());
                    assert forall|p: Seq<Seq<char>>|
                        #[trigger] spec_trie_count(children@, p) == spec_trie_count(s, p) + if p
                            == suffix {
                            1int
                        } else {
                            0int
                        } by {
                        if p.len() == 0 {
                            assert(p =~= suffix);
                            lemma_assoc_find_at(
                                children@,
                                exhausted_key(),
                                children@.len() - 1,
                            );
                        } else {
                            assert(p != suffix);
                            if p[0] == exhausted_key() {
                                lemma_assoc_find_at(
                                    children@,
                                    exhausted_key(),
                                    children@.len() - 1,
                                );
                            } else {
                                lemma_assoc_find_push_other(
                                    s,
                                    children@[children@.len() - 1],
                                    p[0],
                                );
                            }
                        }
                    }
                    assert forall|b: int|
                        spec_children_values_le(s, b) && 0 <= b implies spec_children_values_le(
                        children@,
                        b + 1,
                    ) by {
                        assert forall|q: int|
                            0 <= q < children@.len() implies spec_values_le(
                            (#[trigger] children@[q]).1,
                            b + 1,
                        ) by {
                            if q < s.len() {
                                lemma_values_le_mono(s[q].1, b, b + 1);
                            }
                        }
                    }
                }
            },
        }
        children
    } else {
        let key = path[i].clone();
        let ghost key0 = path@[i as int]@;
        let ghost suffix_rest = spec_path_views(path@).subrange(i + 1, path@.len() as int);
        proof {
            assert(suffix.len() == path@.len() - i);
            assert(suffix[0] == key0);
            assert(suffix.drop_first() =~= suffix_rest);
        }
        let posn = assoc_position(&children, &key);
        match posn {
            Some(j) => {
                let (kstr, node) = children.remove(j);
                match node {
                    NodeInternal::Children(cs) => {
                        proof {
                            assert(spec_node_wf(s[j as int].1));
                            assert(spec_children_wf(cs@));
                            assert(spec_values_le(s[j as int].1, i64::MAX - 1));
                            assert(spec_children_values_le(cs@, i64::MAX - 1));
                        }
                        let ghost cs_old = cs@;
                        let cs2 = trie_insert(cs, path, i + 1);
                        children.insert(j, (kstr, NodeInternal::Children(cs2)));
                        proof {
                            let e = (kstr, NodeInternal::Children(cs2));
                            assert(children@ =~= s.update(j as int, e));
                            assert forall|p: Seq<Seq<char>>|
                                #[trigger] spec_trie_count(children@, p) == spec_trie_count(
                                s,
                                p,
                            ) + if p == suffix {
                                1int
                            } else {
                                0int
                            } by {
                                if p.len() == 0 {
                                    assert(p != suffix);
                                    lemma_assoc_find_update_other(
                                        s,
                                        j as int,
                                        e,
                                        exhausted_key(),
                                    );
                                } else if p[0] != key0 {
                                    assert(p != suffix);
                                    lemma_assoc_find_update_other(s, j as int, e, p[0]);
                                } else {
                                    lemma_assoc_find_at(s, key0, j as int);
                                    lemma_assoc_find_at(children@, key0, j as int);
                                    let p_rest = p.drop_first();
                                    assert(spec_trie_count(children@, p) == spec_trie_count(
                                        cs2@,
                                        p_rest,
                                    ));
                                    assert(spec_trie_count(s, p) == spec_trie_count(
                                        cs_old,
                                        p_rest,
                                    ));
                                    if p_rest == suffix_rest {
                                        assert forall|q: int|
                                            0 <= q < p.len() implies p[q] == suffix[q] by {
                                            if q > 0 {
                                                assert(p[q] == p_rest[q - 1]);
                                                assert(suffix[q] == suffix_rest[q - 1]);
                                            }
                                        }
                                        assert(p =~= suffix);
                                    } else {
                                        assert(p != suffix) by {
                                            if p == suffix {
                                                assert(p.drop_first() =~= suffix.drop_first());
                                            }
                                        }
                                    }
                                }
                            }
                            assert forall|b: int|
                                spec_children_values_le(s, b) && 0 <= b
                                implies spec_children_values_le(children@, b + 1) by {
                                assert forall|q: int|
                                    0 <= q < children@.len() implies spec_values_le(
                                    (#[trigger] children@[q]).1,
                                    b + 1,
                                ) by {
                                    if q != j {
                                        lemma_values_le_mono(s[q].1, b, b + 1);
                                    } else {
                                        assert(spec_values_le(s[j as int].1, b));
                                        assert(spec_children_values_le(cs_old, b));
                                    }
                                }
                            }
                        }
                    },
                    NodeInternal::Value(_) => {
                        proof {
                            assert(s[j as int].0@ == key0);
                            assert(false);
                        }
                        return unreached();
                    },
                }
            },
            None => {
                let empty_children: Vec<(String, NodeInternal)> = Vec::new();
                let cs2 = trie_insert(empty_children, path, i + 1);
                children.push((key, NodeInternal::Children(cs2)));
                proof {
                    let e = children@[children@.len() - 1];
                    assert(children@ =~= s.push(e));
                    assert(e.0@ == key0);
                    lemma_assoc_find_none(s, key0);
                    assert forall|p: Seq<Seq<char>>|
                        #[trigger] spec_trie_count(children@, p) == spec_trie_count(s, p) + if p
                            == suffix {
                            1int
                        } else {
                            0int
                        } by {
                        if p.len() == 0 {
                            assert(p != suffix);
                            lemma_assoc_find_push_other(s, e, exhausted_key());
                        } else if p[0] != key0 {
                            assert(p != suffix);
                            lemma_assoc_find_push_other(s, e, p[0]);
                        } else {
                            lemma_assoc_find_at(children@, key0, children@.len() - 1);
                            let p_rest = p.drop_first();
                            assert(spec_trie_count(children@, p) == spec_trie_count(
                                cs2@,
                                p_rest,
                            ));
                            assert(spec_trie_count(s, p) == 0);
                            assert(spec_trie_count(cs2@, p_rest) == spec_trie_count(
                                Seq::empty(),
                                p_rest,
                            ) + if p_rest == suffix_rest {
                                1int
                            } else {
                                0int
                            });
                            lemma_trie_count_empty(p_rest);
                            if p_rest == suffix_rest {
                                assert forall|q: int| 0 <= q < p.len() implies p[q]
                                    == suffix[q] by {
                                    if q > 0 {
                                        assert(p[q] == p_rest[q - 1]);
                                        assert(suffix[q] == suffix_rest[q - 1]);
                                    }
                                }
                                assert(p =~= suffix);
                            } else {
                                assert(p != suffix) by {
                                    if p == suffix {
                                        assert(p.drop_first() =~= suffix.drop_first());
                                    }
                                }
                            }
                        }
                    }
                    assert forall|b: int|
                        spec_children_values_le(s, b) && 0 <= b implies spec_children_values_le(
                        children@,
                        b + 1,
                    ) by {
                        assert forall|q: int|
                            0 <= q < children@.len() implies spec_values_le(
                            (#[trigger] children@[q]).1,
                            b + 1,
                        ) by {
                            if q < s.len() {
                                lemma_values_le_mono(s[q].1, b, b + 1);
                            } else {
                                assert(spec_children_values_le(Seq::<
                                    (String, NodeInternal),
                                >::empty(), b));
                            }
                        }
                    }
                }
            },
        }
        children
    }
}

/// Builds the preference-path trie of the whole ballot set: for every
/// ballot with at least one expressed preference, the path of its choices'
/// names is inserted and the exhaustion count at the path's end is bumped.
pub fn build_hierarchy(ballots: &Vec<Ballot>, names: &Vec<String>) -> (children: Vec<
    (String, NodeInternal),
>)
    requires
        forall|i: int|
            0 <= i < ballots@.len() ==> (#[trigger] ballots@[i]).valid_for(
                names@.len() as usize,
            ),
        forall|j: int| 0 <= j < names@.len() ==> (#[trigger] names@[j])@ != exhausted_key(),
        ballots@.len() <= i64::MAX,
    ensures
        spec_children_wf(children@),
        spec_children_values_le(children@, ballots@.len() as int),
        forall|p: Seq<Seq<char>>|
            #[trigger] spec_trie_count(children@, p) == spec_hier_count(ballots@, names@, p),
        children@.len() == 0 <==> (forall|i: int|
            0 <= i < ballots@.len() ==> (#[trigger] ballots@[i])@.len() == 0),
{
    let mut children: Vec<(String, NodeInternal)> = Vec::new();
    let mut i: usize = 0;
    while i < ballots.len()
        invariant
            i <= ballots@.len(),
            children@.len() == 0 <==> (forall|i2: int|
                0 <= i2 < i ==> (#[trigger] ballots@[i2])@.len() == 0),
            forall|i2: int|
                0 <= i2 < ballots@.len() ==> (#[trigger] ballots@[i2]).valid_for(
                    names@.len() as usize,
                ),
            forall|j: int| 0 <= j < names@.len() ==> (#[trigger] names@[j])@ != exhausted_key(),
            ballots@.len() <= i64::MAX,
            spec_children_wf(children@),
            spec_children_values_le(children@, i as int),
            forall|p: Seq<Seq<char>>|
                #[trigger] spec_trie_count(children@, p) == spec_hier_count(
                    ballots@.subrange(0, i as int),
                    names@,
                    p,
                ),
        decreases ballots@.len() - i,
    {
        proof {
            assert(ballots@.subrange(0, i + 1).drop_last() =~= ballots@.subrange(0, i as int));
            assert(ballots@.subrange(0, i + 1).last() == ballots@[i as int]);
        }
        let n_choices = ballots[i].count();
        if n_choices > 0 {
            let mut path: Vec<String> = Vec::new();
            let mut j: usize = 0;
            while j < n_choices
                invariant
                    j <= n_choices,
                    i < ballots@.len(),
                    n_choices == ballots@[i as int]@.len(),
                    ballots@[i as int].valid_for(names@.len() as usize),
                    path@.len() == j,
                    forall|q: int|
                        0 <= q < j ==> (#[trigger] path@[q])@ == names@[ballots@[i as int]@[q] as int]@,
                decreases n_choices - j,
            {
                let c = ballots[i].choice(j);
                path.push(names[c].clone());
                j = j + 1;
            }
            let ghost bpath = spec_name_path(ballots@[i as int]@, names@);
            proof {
                assert(spec_path_views(path@) =~= bpath);
                assert(spec_path_views(path@).subrange(0, path@.len() as int) =~= bpath);
                assert forall|q: int|
                    0 <= q < path@.len() implies (#[trigger] path@[q])@ != exhausted_key() by {
                    assert(path@[q]@ == names@[ballots@[i as int]@[q] as int]@);
                }
                assert(spec_children_values_le(children@, i64::MAX - 1)) by {
                    assert forall|q: int|
                        0 <= q < children@.len() implies spec_values_le(
                        (#[trigger] children@[q]).1,
                        i64::MAX - 1,
                    ) by {
                        lemma_values_le_mono(children@[q].1, i as int, i64::MAX - 1);
                    }
                }
            }
            let ghost s_before = children@;
            children = trie_insert(children, &path, 0);
            proof {
                assert(!(forall|i2: int| 0 <= i2 < i + 1 ==> (#[trigger] ballots@[i2])@.len()
                    == 0)) by {
                    assert(ballots@[i as int]@.len() > 0);
                }
                assert(spec_children_values_le(children@, i + 1)) by {
                    assert(spec_children_values_le(s_before, i as int));
                }
                assert forall|p: Seq<Seq<char>>|
                    #[trigger] spec_trie_count(children@, p) == spec_hier_count(
                        ballots@.subrange(0, i + 1),
                        names@,
                        p,
                    ) by {
                    assert(spec_trie_count(children@, p) == spec_trie_count(s_before, p) + if p
                        == bpath {
                        1int
                    } else {
                        0int
                    });
                }
            }
        } else {
            proof {
                assert forall|q: int|
                    0 <= q < children@.len() implies spec_values_le(
                    (#[trigger] children@[q]).1,
                    i + 1,
                ) by {
                    lemma_values_le_mono(children@[q].1, i as int, i + 1);
                }
            }
        }
        i = i + 1;
    }
    proof {
        assert(ballots@.subrange(0, ballots@.len() as int) =~= ballots@);
    }
    children
}

/// Whether the plain tree node `r` renders the trie node `n` under the
/// name `k`: leaves keep their count as the node value, interior nodes
/// carry their children in order, named by their keys.
pub open spec fn spec_node_repr(k: Seq<char>, n: NodeInternal, r: Node) -> bool
    decreases n,
{
    match n {
        NodeInternal::Value(v) => r.name@ == k && r.value == Some(v) && r.children is None,
        NodeInternal::Children(cs) => {
            &&& r.name@ == k
            &&& r.value is None
            &&& r.children matches Some(ch)
            &&& r.children matches Some(ch) ==> ch@.len() == cs@.len() && (forall|j: int|
                0 <= j < cs@.len() ==> spec_node_repr(
                    cs@[j].0@,
                    (#[trigger] cs@[j]).1,
                    ch@[j],
                ))
        },
    }
}

/// Whether `ch` is the node-for-node rendering of some well-formed trie
/// child list: the nodes correspond one to one to trie entries with
/// distinct keys, every node named by the exhaustion key is a leaf carrying
/// a count and every other node is an interior node carrying children of
/// the same shape, recursively.  This pins the tree's structure: each name
/// path leads through at most one child at every level.
pub open spec fn spec_renders_wf_trie(ch: Seq<Node>) -> bool {
    exists|cs: Seq<(String, NodeInternal)>|
        {
            &&& #[trigger] spec_children_wf(cs)
            &&& ch.len() == cs.len()
            &&& forall|j: int|
                0 <= j < cs.len() ==> spec_node_repr(cs[j].0@, (#[trigger] cs[j]).1, ch[j])
        }
}

/// The first node of `nodes` whose name reads `key`, if any.
pub open spec fn spec_tree_find(nodes: Seq<Node>, key: Seq<char>) -> Option<Node>
    decreases nodes.len(),
{
    if nodes.len() == 0 {
        None
    } else if nodes[0].name@ == key {
        Some(nodes[0])
    } else {
        spec_tree_find(nodes.drop_first(), key)
    }
}

/// The exhaustion count that the plain tree records at the end of `path`,
/// mirroring `spec_trie_count` on the rendered form.
pub open spec fn spec_tree_count(nodes: Seq<Node>, path: Seq<Seq<char>>) -> int
    decreases path.len(),
{
    if path.len() == 0 {
        match spec_tree_find(nodes, exhausted_key()) {
            Some(nd) => match nd.value {
                Some(v) => v as int,
                None => 0,
            },
            None => 0,
        }
    } else {
        match spec_tree_find(nodes, path[0]) {
            Some(nd) => match nd.children {
                Some(ch) => spec_tree_count(ch@, path.drop_first()),
                None => 0,
            },
            None => 0,
        }
    }
}

/// Rendered children are found under the same keys as their trie
/// counterparts.
proof fn lemma_repr_find(cs: Seq<(String, NodeInternal)>, nodes: Seq<Node>, key: Seq<char>)
    requires
        nodes.len() == cs.len(),
        forall|j: int|
            0 <= j < cs.len() ==> spec_node_repr(cs[j].0@, (#[trigger] cs[j]).1, nodes[j]),
    ensures
        match spec_assoc_find(cs, key) {
            None => spec_tree_find(nodes, key) is None,
            Some(n) => spec_tree_find(nodes, key) matches Some(r) && spec_node_repr(key, n, r),
        },
    decreases cs.len(),
{
    if cs.len() > 0 {
        assert(spec_node_repr(cs[0].0@, cs[0].1, nodes[0]));
        assert(nodes[0].name@ == cs[0].0@);
        if cs[0].0@ == key {
        } else {
            let cs_rest = cs.drop_first();
            let nodes_rest = nodes.drop_first();
            assert forall|j: int|
                0 <= j < cs_rest.len() implies spec_node_repr(
                cs_rest[j].0@,
                (#[trigger] cs_rest[j]).1,
                nodes_rest[j],
            ) by {
                assert(cs_rest[j] == cs[j + 1]);
                assert(nodes_rest[j] == nodes[j + 1]);
            }
            lemma_repr_find(cs_rest, nodes_rest, key);
        }
    }
}

/// The rendered tree records the same count for every path as the trie it
/// was rendered from.
pub proof fn lemma_repr_tree_count(
    cs: Seq<(String, NodeInternal)>,
    nodes: Seq<Node>,
    path: Seq<Seq<char>>,
)
    requires
        nodes.len() == cs.len(),
        forall|j: int|
            0 <= j < cs.len() ==> spec_node_repr(cs[j].0@, (#[trigger] cs[j]).1, nodes[j]),
    ensures
        spec_tree_count(nodes, path) == spec_trie_count(cs, path),
    decreases path.len(),
{
    if path.len() == 0 {
        lemma_repr_find(cs, nodes, exhausted_key());
    } else {
        lemma_repr_find(cs, nodes, path[0]);
        match spec_assoc_find(cs, path[0]) {
            Some(n) => {
                let r = spec_tree_find(nodes, path[0])->Some_0;
                match n {
                    NodeInternal::Value(_) => {},
                    NodeInternal::Children(cs2) => {
                        let ch2 = r.children->Some_0;
                        lemma_repr_tree_count(cs2@, ch2@, path.drop_first());
                    },
                }
            },
            None => {},
        }
    }
}

/// Renders one trie entry as a plain tree node under the name `k`: a leaf
/// keeps its exhaustion count as the node value; an interior node renders
/// its children in order.
pub fn hmap_to_vec(k: String, n: &NodeInternal) -> (r: Node)
    ensures
        spec_node_repr(k@, *n, r),
    decreases *n,
{
    match n {
        NodeInternal::Value(v) => Node { name: k, value: Some(*v), children: None },
        NodeInternal::Children(cs) => {
            let mut ch: Vec<Node> = Vec::new();
            let mut j: usize = 0;
            while j < cs.len()
                invariant
                    j <= cs@.len(),
                    *n == NodeInternal::Children(*cs),
                    ch@.len() == j,
                    forall|q: int|
                        0 <= q < j ==> spec_node_repr(
                            cs@[q].0@,
                            (#[trigger] cs@[q]).1,
                            ch@[q],
                        ),
                decreases cs@.len() - j,
            {
                proof {
                    assert(decreases_to!(*n => (*n)->Children_0));
                    assert(decreases_to!(*n => *cs));
                    assert(decreases_to!(*cs => cs@));
                    assert(decreases_to!(cs@ => cs@[j as int]));
                    assert(decreases_to!(cs@[j as int] => cs@[j as int].1));
                }
                let child = hmap_to_vec(cs[j].0.clone(), &cs[j].1);
                ch.push(child);
                j = j + 1;
            }
            Node { name: k, value: None, children: Some(ch) }
        },
    }
}

/// Builds the full preference-path hierarchy of the ballot set and renders
/// it as a plain tree under a root named "Root".  Every top-level child is
/// an interior node (a candidate name is never the exhaustion key), so the
/// optional sum of child values that the root carries is defined — zero —
/// only when the tree has no children at all, and undefined otherwise.
pub fn compute_hierarchy(ballots: &Vec<Ballot>, names: &Vec<String>) -> (root: Node)
    requires
        forall|i: int|
            0 <= i < ballots@.len() ==> (#[trigger] ballots@[i]).valid_for(
                names@.len() as usize,
            ),
        forall|j: int| 0 <= j < names@.len() ==> (#[trigger] names@[j])@ != exhausted_key(),
        ballots@.len() <= i64::MAX,
    ensures
        root.name@ == "Root"@,
        root.children matches Some(ch) && {
            &&& (forall|p: Seq<Seq<char>>|
                #[trigger] spec_tree_count(ch@, p) == spec_hier_count(ballots@, names@, p))
            &&& spec_renders_wf_trie(ch@)
            &&& (ch@.len() == 0 <==> (forall|i: int|
                0 <= i < ballots@.len() ==> (#[trigger] ballots@[i])@.len() == 0))
            &&& root.value == (if ch@.len() == 0 {
                Some(0i64)
            } else {
                None::<i64>
            })
        },
{
    let children = build_hierarchy(ballots, names);
    let mut ch: Vec<Node> = Vec::new();
    let mut j: usize = 0;
    while j < children.len()
        invariant
            j <= children@.len(),
            spec_children_wf(children@),
            children@.len() == 0 <==> (forall|i: int|
                0 <= i < ballots@.len() ==> (#[trigger] ballots@[i])@.len() == 0),
            ch@.len() == j,
            forall|q: int|
                0 <= q < j ==> spec_node_repr(
                    children@[q].0@,
                    (#[trigger] children@[q]).1,
                    ch@[q],
                ),
        decreases children@.len() - j,
    {
        let child = hmap_to_vec(children[j].0.clone(), &children[j].1);
        ch.push(child);
        j = j + 1;
    }
    proof {
        assert forall|p: Seq<Seq<char>>|
            #[trigger] spec_tree_count(ch@, p) == spec_hier_count(ballots@, names@, p) by {
            lemma_repr_tree_count(children@, ch@, p);
        }
        assert(spec_renders_wf_trie(ch@)) by {
            assert(spec_children_wf(children@));
            assert(ch@.len() == children@.len());
            assert(forall|q: int|
                0 <= q < children@.len() ==> spec_node_repr(
                    children@[q].0@,
                    (#[trigger] children@[q]).1,
                    ch@[q],
                ));
        }
    }
    let value = if ch.len() == 0 {
        Some(0i64)
    } else {
        None
    };
    Node { name: "Root".to_owned(), value, children: Some(ch) }
}

} // verus!
