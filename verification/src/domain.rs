//! The domain-suffix matcher: an immutable set of domain names held as a
//! prefix tree over reversed label sequences (root/TLD first), answering
//! whether a queried name equals, or lies under, any name of the set.

use vstd::prelude::*;
use vstd::seq_lib::*;

use crate::builders::{Matcher, MatcherBuilder};
use crate::errors::BuildError;
use crate::name::{
    labels_view, line_kept, name_labels, names_view, split_on, valid_name, DomainName,
};
use crate::value::Value;

verus! {

/// One node of the suffix tree. A node marked `covers` covers its whole
/// subtree: every name whose reversed labels pass through it is matched.
pub(crate) struct Node {
    pub(crate) covers: bool,
    pub(crate) children: Vec<(String, Node)>,
}

/// Distinct edge labels at every node, all the way down.
pub(crate) open spec fn node_wf(n: Node) -> bool
    decreases n,
{
    &&& (forall|x1: int, x2: int|
        0 <= x1 < x2 < n.children@.len() ==> (#[trigger] n.children@[x1]).0@ != (
        #[trigger] n.children@[x2]).0@)
    &&& (forall|x: int|
        0 <= x < n.children@.len() ==> node_wf((#[trigger] n.children@[x]).1))
}

/// Whether a reversed label path is covered from this node: the walk along
/// the path reaches or passes through a node marked `covers` before or at
/// the end of the path.
pub(crate) open spec fn node_covers(n: Node, path: Seq<Seq<char>>) -> bool
    decreases path.len(),
{
    ||| n.covers
    ||| (path.len() > 0 && exists|x: int|
        0 <= x < n.children@.len() && (#[trigger] n.children@[x]).0@ == path[0] && node_covers(
            n.children@[x].1,
            path.drop_first(),
        ))
}

/// A non-empty prefix relation, unfolded one element: the head must agree
/// and the tails must stand in the same relation.
proof fn lemma_prefix_unfold(l: Seq<Seq<char>>, p: Seq<Seq<char>>)
    requires
        l.len() > 0,
    ensures
        l.is_prefix_of(p) <==> (p.len() > 0 && p[0] == l[0] && l.drop_first().is_prefix_of(
            p.drop_first(),
        )),
{
    if l.len() <= p.len() {
        assert(l.drop_first() =~= l.subrange(1, l.len() as int));
        assert(p.drop_first().subrange(0, l.len() - 1) =~= p.subrange(1, l.len() as int));
        if l.is_prefix_of(p) {
            assert(p[0] == l[0]);
            assert(l.drop_first() =~= p.drop_first().subrange(0, l.len() - 1));
        }
        if p.len() > 0 && p[0] == l[0] && l.drop_first().is_prefix_of(p.drop_first()) {
            assert(l.drop_first() =~= p.drop_first().subrange(0, l.len() - 1));
            assert forall|i: int| 0 <= i < l.len() implies l[i] == p[i] by {
                if i > 0 {
                    assert(l[i] == l.drop_first()[i - 1]);
                    assert(l.drop_first()[i - 1] == p.subrange(1, l.len() as int)[i - 1]);
                }
            }
            assert(l =~= p.subrange(0, l.len() as int));
        }
    }
}

/// Insert the reversed labels `rev[k..]` below `n`: afterwards the node
/// covers exactly what it covered before, plus every path that `rev[k..]`
/// is a prefix of. A walk that meets a `covers` mark stops at once, so the
/// insertion of an already covered name changes nothing.
fn insert_at(n: &mut Node, rev: &Vec<String>, k: usize)
    requires
        node_wf(*old(n)),
        k <= rev@.len(),
    ensures
        node_wf(*final(n)),
        forall|p: Seq<Seq<char>>|
            #[trigger] node_covers(*final(n), p) <==> node_covers(*old(n), p)
                || crate::name::labels_view(rev@).skip(k as int).is_prefix_of(p),
    decreases rev@.len() - k,
{
    let ghost pre = crate::name::labels_view(rev@).skip(k as int);
    if n.covers {
        proof {
            assert forall|p: Seq<Seq<char>>|
                #[trigger] node_covers(*n, p) <==> node_covers(*old(n), p) || pre.is_prefix_of(
                    p,
                ) by {
                assert(node_covers(*n, p));
            }
        }
        return ;
    }
    if k == rev.len() {
        n.covers = true;
        proof {
            assert(pre =~= Seq::<Seq<char>>::empty());
            assert forall|p: Seq<Seq<char>>|
                #[trigger] node_covers(*n, p) <==> node_covers(*old(n), p) || pre.is_prefix_of(
                    p,
                ) by {
                assert(node_covers(*n, p));
                assert(pre =~= p.subrange(0, 0));
            }
        }
        return ;
    }
    let ghost pre1 = crate::name::labels_view(rev@).skip(k as int + 1);
    proof {
        assert(pre =~= seq![rev@[k as int]@] + pre1);
        assert(pre[0] == rev@[k as int]@);
    }
    let mut j: usize = 0;
    while j < n.children.len() && !(n.children[j].0 == rev[k])
        invariant
            k < rev@.len(),
            j <= n.children@.len(),
            forall|x: int| 0 <= x < j ==> (#[trigger] n.children@[x]).0@ != rev@[k as int]@,
        decreases n.children@.len() - j,
    {
        j += 1;
    }
    let ghost old_cs = n.children@;
    if j < n.children.len() {
        let (lab, mut child) = n.children.remove(j);
        let ghost child0 = child;
        insert_at(&mut child, rev, k + 1);
        let ghost child1 = child;
        n.children.push((lab, child));
        proof {
            let new_cs = n.children@;
            assert(new_cs =~= old_cs.remove(j as int).push((lab, child1)));
            assert(lab == old_cs[j as int].0 && child0 == old_cs[j as int].1);
            assert(lab@ == rev@[k as int]@);
            // every edge label is preserved, only the subtree under `lab` changed
            assert forall|x1: int, x2: int| 0 <= x1 < x2 < new_cs.len() implies (
            #[trigger] new_cs[x1]).0@ != (#[trigger] new_cs[x2]).0@ by {
                let y1: int = if x1 == new_cs.len() - 1 {
                    j as int
                } else if x1 < j {
                    x1
                } else {
                    x1 + 1
                };
                let y2: int = if x2 == new_cs.len() - 1 {
                    j as int
                } else if x2 < j {
                    x2
                } else {
                    x2 + 1
                };
                assert(new_cs[x1].0 == old_cs[y1].0);
                assert(new_cs[x2].0 == old_cs[y2].0);
            }
            assert forall|x: int| 0 <= x < new_cs.len() implies node_wf(
                (#[trigger] new_cs[x]).1,
            ) by {
                if x < new_cs.len() - 1 {
                    let y: int = if x < j {
                        x
                    } else {
                        x + 1
                    };
                    assert(new_cs[x].1 == old_cs[y].1);
                }
            }
            assert(node_wf(*n));
            assert forall|p: Seq<Seq<char>>|
                #[trigger] node_covers(*n, p) <==> node_covers(*old(n), p) || pre.is_prefix_of(
                    p,
                ) by {
                if p.len() == 0 {
                    assert(!pre.is_prefix_of(p));
                } else {
                    lemma_prefix_unfold(pre, p);
                    assert(pre.drop_first() =~= pre1);
                    let q = p.drop_first();
                    if node_covers(*n, p) {
                        let x = choose|x: int|
                            0 <= x < new_cs.len() && (#[trigger] new_cs[x]).0@ == p[0]
                                && node_covers(new_cs[x].1, q);
                        if x == new_cs.len() - 1 {
                            assert(node_covers(child1, q));
                            if node_covers(child0, q) {
                                assert(node_covers(*old(n), p));
                            } else {
                                assert(pre1.is_prefix_of(q));
                            }
                        } else {
                            let y: int = if x < j {
                                x
                            } else {
                                x + 1
                            };
                            assert(new_cs[x] == old_cs[y]);
                            assert(node_covers(*old(n), p));
                        }
                    }
                    if node_covers(*old(n), p) {
                        let y = choose|y: int|
                            0 <= y < old_cs.len() && (#[trigger] old_cs[y]).0@ == p[0]
                                && node_covers(old_cs[y].1, q);
                        if y == j {
                            assert(node_covers(child1, q));
                            assert(new_cs[new_cs.len() - 1].0@ == p[0]);
                            assert(node_covers(*n, p));
                        } else {
                            let x: int = if y < j {
                                y
                            } else {
                                y - 1
                            };
                            assert(new_cs[x] == old_cs[y]);
                            assert(node_covers(*n, p));
                        }
                    }
                    if pre.is_prefix_of(p) {
                        assert(p[0] == pre[0] && pre1.is_prefix_of(q));
                        assert(node_covers(child1, q));
                        assert(new_cs[new_cs.len() - 1].0@ == p[0]);
                        assert(node_covers(*n, p));
                    }
                }
            }
        }
    } else {
        let mut child = Node { covers: false, children: Vec::new() };
        proof {
            assert(node_wf(child));
            assert forall|q: Seq<Seq<char>>| !(#[trigger] node_covers(child, q)) by {}
        }
        let ghost child0 = child;
        insert_at(&mut child, rev, k + 1);
        let ghost child1 = child;
        let lab = rev[k].clone();
        n.children.push((lab, child));
        proof {
            let new_cs = n.children@;
            assert(new_cs =~= old_cs.push((lab, child1)));
            assert(lab@ == rev@[k as int]@);
            assert forall|x1: int, x2: int| 0 <= x1 < x2 < new_cs.len() implies (
            #[trigger] new_cs[x1]).0@ != (#[trigger] new_cs[x2]).0@ by {
                if x2 == new_cs.len() - 1 {
                    assert(new_cs[x1] == old_cs[x1]);
                }
            }
            assert forall|x: int| 0 <= x < new_cs.len() implies node_wf(
                (#[trigger] new_cs[x]).1,
            ) by {
                if x < new_cs.len() - 1 {
                    assert(new_cs[x] == old_cs[x]);
                }
            }
            assert(node_wf(*n));
            assert forall|p: Seq<Seq<char>>|
                #[trigger] node_covers(*n, p) <==> node_covers(*old(n), p) || pre.is_prefix_of(
                    p,
                ) by {
                if p.len() == 0 {
                    assert(!pre.is_prefix_of(p));
                } else {
                    lemma_prefix_unfold(pre, p);
                    assert(pre.drop_first() =~= pre1);
                    let q = p.drop_first();
                    if node_covers(*n, p) {
                        let x = choose|x: int|
                            0 <= x < new_cs.len() && (#[trigger] new_cs[x]).0@ == p[0]
                                && node_covers(new_cs[x].1, q);
                        if x == new_cs.len() - 1 {
                            assert(node_covers(child1, q));
                            assert(!node_covers(child0, q));
                            assert(pre1.is_prefix_of(q));
                        } else {
                            assert(new_cs[x] == old_cs[x]);
                            assert(node_covers(*old(n), p));
                        }
                    }
                    if node_covers(*old(n), p) {
                        let y = choose|y: int|
                            0 <= y < old_cs.len() && (#[trigger] old_cs[y]).0@ == p[0]
                                && node_covers(old_cs[y].1, q);
                        assert(new_cs[y] == old_cs[y]);
                        assert(node_covers(*n, p));
                    }
                    if pre.is_prefix_of(p) {
                        assert(p[0] == pre[0] && pre1.is_prefix_of(q));
                        assert(node_covers(child1, q));
                        assert(new_cs[new_cs.len() - 1].0@ == p[0]);
                        assert(node_covers(*n, p));
                    }
                }
            }
        }
    }
}

/// The domain-suffix matcher: immutable once built, shared read-only by
/// every concurrent query evaluation.
pub struct Domain {
    root: Node,
}

impl Domain {
    /// Internal well-formedness: distinct edge labels at every node, so
    /// that the walk's single descent is the only possible one.
    pub closed spec fn inv(&self) -> bool {
        node_wf(self.root)
    }

    /// The matched language over reversed label paths: whether the walk
    /// along `path` reaches or passes through a covered subtree.
    pub closed spec fn covers(&self, path: Seq<Seq<char>>) -> bool {
        node_covers(self.root, path)
    }

    /// An empty matcher: covers nothing.
    pub fn empty() -> (r: Domain)
        ensures
            r.inv(),
            forall|p: Seq<Seq<char>>| !(#[trigger] r.covers(p)),
    {
        let root = Node { covers: false, children: Vec::new() };
        proof {
            assert forall|p: Seq<Seq<char>>| !(#[trigger] node_covers(root, p)) by {}
        }
        Domain { root }
    }

    /// Insert one name: afterwards the matcher covers exactly what it did
    /// before, plus the name's own subtree — every path that the name's
    /// reversed labels are a prefix of. Inserting a name already covered
    /// leaves the matched language unchanged.
    pub fn insert(&mut self, name: &DomainName)
        requires
            old(self).inv(),
        ensures
            final(self).inv(),
            forall|p: Seq<Seq<char>>|
                #[trigger] final(self).covers(p) <==> old(self).covers(p)
                    || name@.reverse().is_prefix_of(p),
    {
        let n_labels = name.label_count();
        let mut rev: Vec<String> = Vec::new();
        let mut k = n_labels;
        proof {
            assert(crate::name::labels_view(rev@) =~= name@.skip(k as int).reverse());
        }
        while k > 0
            invariant
                k <= name@.len(),
                n_labels == name@.len(),
                crate::name::labels_view(rev@) =~= name@.skip(k as int).reverse(),
            decreases k,
        {
            k -= 1;
            let l = name.label_at(k).clone();
            proof {
                assert(crate::name::labels_view(rev@.push(l)) =~= crate::name::labels_view(
                    rev@,
                ).push(l@));
                assert(name@.skip(k as int).reverse() =~= name@.skip(k as int + 1).reverse().push(
                    name@[k as int],
                ));
            }
            rev.push(l);
        }
        proof {
            assert(name@.skip(0) =~= name@);
            assert(crate::name::labels_view(rev@).skip(0) =~= name@.reverse());
        }
        insert_at(&mut self.root, &rev, 0);
    }

    /// Insert a whole batch of names in one operation: the matched
    /// language afterwards is the union of the old one and every inserted
    /// name's subtree.
    pub fn insert_multi(&mut self, names: &Vec<DomainName>)
        requires
            old(self).inv(),
        ensures
            final(self).inv(),
            forall|p: Seq<Seq<char>>|
                #[trigger] final(self).covers(p) <==> old(self).covers(p) || exists|i: int|
                    0 <= i < names@.len() && (#[trigger] names@[i]@.reverse()).is_prefix_of(p),
    {
        let mut i: usize = 0;
        while i < names.len()
            invariant
                i <= names@.len(),
                self.inv(),
                forall|p: Seq<Seq<char>>|
                    #[trigger] self.covers(p) <==> old(self).covers(p) || exists|x: int|
                        0 <= x < i && (#[trigger] names@[x]@.reverse()).is_prefix_of(p),
            decreases names@.len() - i,
        {
            let ghost prev = *self;
            self.insert(&names[i]);
            proof {
                assert forall|p: Seq<Seq<char>>|
                    #[trigger] self.covers(p) <==> old(self).covers(p) || exists|x: int|
                        0 <= x < i + 1 && (#[trigger] names@[x]@.reverse()).is_prefix_of(p) by {
                    if self.covers(p) {
                        if prev.covers(p) {
                            if !old(self).covers(p) {
                                let x = choose|x: int|
                                    0 <= x < i && (#[trigger] names@[x]@.reverse()).is_prefix_of(
                                        p,
                                    );
                                assert(0 <= x < i + 1 && names@[x]@.reverse().is_prefix_of(p));
                            }
                        } else {
                            assert(names@[i as int]@.reverse().is_prefix_of(p));
                        }
                    }
                    if exists|x: int|
                        0 <= x < i + 1 && (#[trigger] names@[x]@.reverse()).is_prefix_of(p) {
                        let x = choose|x: int|
                            0 <= x < i + 1 && (#[trigger] names@[x]@.reverse()).is_prefix_of(p);
                        if x < i {
                            assert(prev.covers(p));
                        }
                        assert(self.covers(p));
                    }
                    if old(self).covers(p) {
                        assert(prev.covers(p));
                        assert(self.covers(p));
                    }
                }
            }
            i += 1;
        }
    }

    /// Walk the tree along the reversed labels of a name: true exactly when
    /// the matcher covers that path.
    pub fn matches_name(&self, name: &DomainName) -> (r: bool)
        requires
            self.inv(),
        ensures
            r == self.covers(name@.reverse()),
    {
        let ghost path = name@.reverse();
        let n_labels = name.label_count();
        let mut cur: &Node = &self.root;
        let mut k: usize = 0;
        proof {
            assert(path.skip(0) =~= path);
        }
        loop
            invariant
                k <= n_labels,
                n_labels == name@.len(),
                path == name@.reverse(),
                node_wf(*cur),
                node_covers(self.root, path) == node_covers(*cur, path.skip(k as int)),
            decreases n_labels - k,
        {
            let ghost sk = path.skip(k as int);
            if cur.covers {
                proof {
                    assert(node_covers(*cur, sk));
                }
                return true;
            }
            if k == n_labels {
                proof {
                    assert(sk.len() == 0);
                    assert(!node_covers(*cur, sk));
                }
                return false;
            }
            let lab = name.label_at(n_labels - 1 - k);
            proof {
                assert(sk[0] == path[k as int]);
                assert(path[k as int] == name@[n_labels - 1 - k]);
            }
            let mut j: usize = 0;
            while j < cur.children.len() && !(cur.children[j].0 == *lab)
                invariant
                    j <= cur.children@.len(),
                    forall|x: int| 0 <= x < j ==> (#[trigger] cur.children@[x]).0@ != lab@,
                decreases cur.children@.len() - j,
            {
                j += 1;
            }
            if j == cur.children.len() {
                proof {
                    if node_covers(*cur, sk) {
                        let x = choose|x: int|
                            0 <= x < cur.children@.len() && (#[trigger] cur.children@[x]).0@
                                == sk[0] && node_covers(cur.children@[x].1, sk.drop_first());
                        assert(false);
                    }
                }
                return false;
            }
            proof {
                assert(cur.children@[j as int].0@ == lab@);
                assert(sk.drop_first() =~= path.skip(k as int + 1));
                if node_covers(*cur, sk) {
                    let x = choose|x: int|
                        0 <= x < cur.children@.len() && (#[trigger] cur.children@[x]).0@ == sk[0]
                            && node_covers(cur.children@[x].1, sk.drop_first());
                    assert(x == j);
                }
                if node_covers(cur.children@[j as int].1, path.skip(k as int + 1)) {
                    assert(node_covers(*cur, sk));
                }
            }
            cur = &cur.children[j].1;
            k += 1;
        }
    }
}

impl Matcher for Domain {
    open spec fn wf(&self) -> bool {
        self.inv()
    }

    /// The matcher's language over dotted names: structurally valid names
    /// whose reversed labels the tree covers. A name that does not parse is
    /// never matched — a match decision never fails the query path.
    open spec fn matches_spec(&self, name: Seq<char>) -> bool {
        valid_name(name) && self.covers(name_labels(name).reverse())
    }

    fn matches(&self, name: &str) -> (r: bool) {
        match DomainName::parse(name) {
            Some(d) => self.matches_name(&d),
            None => false,
        }
    }
}

/// What a batch of newline-separated lines contributes to a domain set:
/// blank lines and lines with characters outside the allowed set are
/// silently discarded; every kept line must be a structurally valid name,
/// else the whole batch fails, carrying the first offending line.
pub open spec fn decode_lines(lines: Seq<Seq<char>>) -> Result<Seq<Seq<Seq<char>>>, Seq<char>>
    decreases lines.len(),
{
    if lines.len() == 0 {
        Ok(Seq::empty())
    } else {
        match decode_lines(lines.drop_last()) {
            Err(e) => Err(e),
            Ok(v) => {
                let l = lines.last();
                if !line_kept(l) {
                    Ok(v)
                } else if valid_name(l) {
                    Ok(v.push(name_labels(l)))
                } else {
                    Err(l)
                }
            },
        }
    }
}

/// Once a prefix of the lines has failed, the whole batch fails the same
/// way: the first offending line decides.
proof fn lemma_decode_lines_err_extends(lines: Seq<Seq<char>>, i: int)
    requires
        0 <= i <= lines.len(),
        decode_lines(lines.take(i)) is Err,
    ensures
        decode_lines(lines) == decode_lines(lines.take(i)),
    decreases lines.len() - i,
{
    if i < lines.len() {
        assert(lines.take(i + 1).drop_last() =~= lines.take(i));
        lemma_decode_lines_err_extends(lines, i + 1);
    } else {
        assert(lines.take(i) =~= lines);
    }
}

/// Gather the structural domain names of one newline-separated source:
/// the filtering and fail-fast validation of `decode_lines`, over the
/// text's lines.
pub fn into_dnames(list: &str) -> (r: Result<Vec<DomainName>, BuildError>)
    ensures
        match decode_lines(split_on(list@, '\n')) {
            Ok(ns) => r matches Ok(v) && names_view(v@) == ns && (forall|i: int|
                0 <= i < v@.len() ==> (#[trigger] v@[i]).wf()),
            Err(l) => r matches Err(e) && (e matches BuildError::InvalidDomainName(s) && s@
                == l),
        },
{
    let lines = crate::name::split_pieces(list, '\n');
    let ghost lv = labels_view(lines@);
    let mut out: Vec<DomainName> = Vec::new();
    let mut i: usize = 0;
    proof {
        assert(lv.take(0) =~= Seq::<Seq<char>>::empty());
        assert(names_view(out@) =~= Seq::<Seq<Seq<char>>>::empty());
    }
    while i < lines.len()
        invariant
            i <= lines@.len(),
            lv == labels_view(lines@),
            lv == split_on(list@, '\n'),
            decode_lines(lv.take(i as int)) == Ok::<_, Seq<char>>(names_view(out@)),
            forall|k: int| 0 <= k < out@.len() ==> (#[trigger] out@[k]).wf(),
        decreases lines@.len() - i,
    {
        let line = &lines[i];
        proof {
            assert(lv.take(i + 1).drop_last() =~= lv.take(i as int));
            assert(lv.take(i + 1).last() == line@);
        }
        if crate::name::is_line_kept(line.as_str()) {
            match DomainName::parse(line.as_str()) {
                Some(d) => {
                    proof {
                        assert(names_view(out@.push(d)) =~= names_view(out@).push(d@));
                    }
                    out.push(d);
                },
                None => {
                    proof {
                        lemma_decode_lines_err_extends(lv, i + 1);
                    }
                    return Err(BuildError::InvalidDomainName(line.clone()));
                },
            }
        }
        i += 1;
    }
    proof {
        assert(lv.take(lines@.len() as int) =~= lv);
    }
    Ok(out)
}

/// One source of domain entries: an inline name list, or the path of a
/// file whose text holds such a list.
#[derive(Clone, Debug, PartialEq, Eq)]
pub enum ResourceType {
    /// One or more newline-separated names, inline.
    Qname(String),
    /// The path of a (possibly compressed) file of newline-separated
    /// names. Reading files is the surrounding program's affair: it
    /// replaces such an entry with the file's text before the build.
    File(String),
}

/// The spec-level fate of a resource list: the names it contributes, or
/// what made it fail — an unresolved file path, or an invalid line.
pub enum DomainSetIssue {
    File(Seq<char>),
    Line(Seq<char>),
}

/// What a resource list contributes to a domain set, fail-fast: the names
/// of every inline source in order, or the first failure.
pub open spec fn decode_resources(rs: Seq<ResourceType>) -> Result<
    Seq<Seq<Seq<char>>>,
    DomainSetIssue,
>
    decreases rs.len(),
{
    if rs.len() == 0 {
        Ok(Seq::empty())
    } else {
        match decode_resources(rs.drop_last()) {
            Err(e) => Err(e),
            Ok(v) => match rs.last() {
                ResourceType::Qname(n) => match decode_lines(split_on(n@, '\n')) {
                    Ok(ns) => Ok(v + ns),
                    Err(l) => Err(DomainSetIssue::Line(l)),
                },
                ResourceType::File(p) => Err(DomainSetIssue::File(p@)),
            },
        }
    }
}

/// Once a prefix of the resources has failed, the whole list fails the
/// same way.
proof fn lemma_decode_resources_err_extends(rs: Seq<ResourceType>, i: int)
    requires
        0 <= i <= rs.len(),
        decode_resources(rs.take(i)) is Err,
    ensures
        decode_resources(rs) == decode_resources(rs.take(i)),
    decreases rs.len() - i,
{
    if i < rs.len() {
        assert(rs.take(i + 1).drop_last() =~= rs.take(i));
        lemma_decode_resources_err_extends(rs, i + 1);
    } else {
        assert(rs.take(i) =~= rs);
    }
}

/// The language a batch of names spans: every path some name's reversed
/// labels are a prefix of.
pub open spec fn set_language(ns: Seq<Seq<Seq<char>>>, p: Seq<Seq<char>>) -> bool {
    exists|i: int| 0 <= i < ns.len() && (#[trigger] ns[i]).reverse().is_prefix_of(p)
}

impl Domain {
    /// Build a matcher from a list of resources, in one batch: it covers
    /// exactly the names the resources contribute, or fails fast on the
    /// first unresolved file or invalid line, naming it.
    pub fn new(p: Vec<ResourceType>) -> (r: Result<Domain, BuildError>)
        ensures
            match decode_resources(p@) {
                Ok(ns) => r matches Ok(m) && m.inv() && (forall|q: Seq<Seq<char>>|
                    #[trigger] m.covers(q) <==> set_language(ns, q)),
                Err(DomainSetIssue::Line(l)) => r matches Err(e) && (e
                    matches BuildError::InvalidDomainName(s) && s@ == l),
                Err(DomainSetIssue::File(pth)) => r matches Err(e) && (e
                    matches BuildError::UnresolvedFile(s) && s@ == pth),
            },
    {
        let mut all: Vec<DomainName> = Vec::new();
        let mut i: usize = 0;
        proof {
            assert(p@.take(0) =~= Seq::<ResourceType>::empty());
            assert(names_view(all@) =~= Seq::<Seq<Seq<char>>>::empty());
        }
        while i < p.len()
            invariant
                i <= p@.len(),
                decode_resources(p@.take(i as int)) == Ok::<_, DomainSetIssue>(
                    names_view(all@),
                ),
            decreases p@.len() - i,
        {
            proof {
                assert(p@.take(i + 1).drop_last() =~= p@.take(i as int));
                assert(p@.take(i + 1).last() == p@[i as int]);
            }
            match &p[i] {
                ResourceType::Qname(n) => {
                    match into_dnames(n.as_str()) {
                        Ok(mut v) => {
                            proof {
                                assert(names_view(all@ + v@) =~= names_view(all@)
                                    + names_view(v@));
                            }
                            all.append(&mut v);
                        },
                        Err(e) => {
                            proof {
                                lemma_decode_resources_err_extends(p@, i + 1);
                            }
                            return Err(e);
                        },
                    }
                },
                ResourceType::File(path) => {
                    proof {
                        lemma_decode_resources_err_extends(p@, i + 1);
                    }
                    return Err(BuildError::UnresolvedFile(path.clone()));
                },
            }
            i += 1;
        }
        proof {
            assert(p@.take(p@.len() as int) =~= p@);
        }
        let mut m = Domain::empty();
        m.insert_multi(&all);
        proof {
            let ns = names_view(all@);
            assert forall|q: Seq<Seq<char>>| #[trigger] m.covers(q) <==> set_language(ns, q) by {
                if m.covers(q) {
                    let x = choose|x: int|
                        0 <= x < all@.len() && (#[trigger] all@[x]@.reverse()).is_prefix_of(q);
                    assert(ns[x] == all@[x]@);
                    assert(set_language(ns, q));
                }
                if set_language(ns, q) {
                    let x = choose|x: int|
                        0 <= x < ns.len() && (#[trigger] ns[x]).reverse().is_prefix_of(q);
                    assert(ns[x] == all@[x]@);
                    assert(m.covers(q));
                }
            }
        }
        Ok(m)
    }
}

/// A builder for the domain matcher: an ordered list of resources,
/// consumed exactly once to produce the matcher.
#[derive(Clone, Debug, PartialEq, Eq)]
pub struct DomainBuilder {
    resources: Vec<ResourceType>,
}

impl View for DomainBuilder {
    type V = Seq<ResourceType>;

    closed spec fn view(&self) -> Seq<ResourceType> {
        self.resources@
    }
}

impl Default for DomainBuilder {
    /// An empty builder, as `new` gives.
    fn default() -> (r: Self)
        ensures
            r@ == Seq::<ResourceType>::empty(),
    {
        DomainBuilder::new()
    }
}

impl DomainBuilder {
    /// Create a new domain builder with no resources.
    pub fn new() -> (r: Self)
        ensures
            r@ == Seq::<ResourceType>::empty(),
    {
        DomainBuilder { resources: Vec::new() }
    }

    /// Add an inline domain name (or newline-separated name list) to the
    /// match list.
    pub fn add_qnmae(self, s: String) -> (r: Self)
        ensures
            r@ == self@.push(ResourceType::Qname(s)),
    {
        let mut resources = self.resources;
        resources.push(ResourceType::Qname(s));
        DomainBuilder { resources }
    }

    /// Add a file of domain names to the match list, by path.
    pub fn add_file(self, s: String) -> (r: Self)
        ensures
            r@ == self@.push(ResourceType::File(s)),
    {
        let mut resources = self.resources;
        resources.push(ResourceType::File(s));
        DomainBuilder { resources }
    }

    /// The resources gathered so far, in order. The surrounding program
    /// reads each `File` entry and replaces it with its text before the
    /// build — reading files is its affair, not this core's.
    pub fn resources(&self) -> (r: &Vec<ResourceType>)
        ensures
            r@ == self@,
    {
        &self.resources
    }
}

/// What a configuration value must look like to decode as one resource:
/// a one-key record, `qname` or `file`, over a string.
pub open spec fn resource_of(v: Value) -> Option<ResourceType> {
    match v {
        Value::Record(fs) => if fs@.len() == 1 {
            match fs@[0].value {
                Value::Str(s) => if fs@[0].key@ == "qname"@ {
                    Some(ResourceType::Qname(s))
                } else if fs@[0].key@ == "file"@ {
                    Some(ResourceType::File(s))
                } else {
                    None
                },
                _ => None,
            }
        } else {
            None
        },
        _ => None,
    }
}

/// The resources a configuration list denotes, if every entry decodes.
pub open spec fn resources_of(vs: Seq<Value>) -> Option<Seq<ResourceType>>
    decreases vs.len(),
{
    if vs.len() == 0 {
        Some(Seq::empty())
    } else {
        match resources_of(vs.drop_last()) {
            None => None,
            Some(rs) => match resource_of(vs.last()) {
                Some(r) => Some(rs.push(r)),
                None => None,
            },
        }
    }
}

impl MatcherBuilder for DomainBuilder {
    type Built = Domain;

    /// A matcher-configuration is a list of resource entries.
    open spec fn decodable(v: Value) -> bool {
        match v {
            Value::List(vs) => resources_of(vs@) is Some,
            _ => false,
        }
    }

    open spec fn is_decoding_of(self, v: Value) -> bool {
        match v {
            Value::List(vs) => resources_of(vs@) == Some(self@),
            _ => false,
        }
    }

    #[verifier::loop_isolation(false)]
    fn try_decode(v: &Value) -> (r: Option<Self>) {
        match v {
            Value::List(vs) => {
                let mut resources: Vec<ResourceType> = Vec::new();
                let mut i: usize = 0;
                proof {
                    assert(vs@.take(0) =~= Seq::<Value>::empty());
                    assert(resources_of(vs@.take(0)) == Some(resources@));
                }
                while i < vs.len()
                    invariant
                        i <= vs@.len(),
                        resources_of(vs@.take(i as int)) == Some(resources@),
                    decreases vs@.len() - i,
                {
                    proof {
                        assert(vs@.take(i + 1).drop_last() =~= vs@.take(i as int));
                        assert(vs@.take(i + 1).last() == vs@[i as int]);
                    }
                    match decode_resource(&vs[i]) {
                        Some(r) => {
                            resources.push(r);
                        },
                        None => {
                            proof {
                                assert(resources_of(vs@.take(i + 1)) is None);
                                lemma_resources_of_none_extends(vs@, i + 1);
                            }
                            return None;
                        },
                    }
                    i += 1;
                }
                proof {
                    assert(vs@.take(vs@.len() as int) =~= vs@);
                }
                Some(DomainBuilder { resources })
            },
            _ => None,
        }
    }

    /// The build is owed success exactly when every resource is inline and
    /// every kept line is a valid name.
    open spec fn build_succeeds(self) -> bool {
        decode_resources(self@) is Ok
    }

    open spec fn builds_to(self, m: Domain) -> bool {
        match decode_resources(self@) {
            Ok(ns) => forall|q: Seq<Seq<char>>| #[trigger] m.covers(q) <==> set_language(ns, q),
            Err(_) => false,
        }
    }

    fn build(self) -> (r: Result<Domain, BuildError>) {
        Domain::new(self.resources)
    }
}

/// Decode one resource entry.
fn decode_resource(v: &Value) -> (r: Option<ResourceType>)
    ensures
        r == resource_of(*v),
{
    match v {
        Value::Record(fs) => {
            if fs.len() == 1 {
                let f = &fs[0];
                match &f.value {
                    Value::Str(s) => {
                        if f.key == "qname".to_owned() {
                            Some(ResourceType::Qname(s.clone()))
                        } else if f.key == "file".to_owned() {
                            Some(ResourceType::File(s.clone()))
                        } else {
                            None
                        }
                    },
                    _ => None,
                }
            } else {
                None
            }
        },
        _ => None,
    }
}

/// Once one entry has failed to decode, the whole list fails.
proof fn lemma_resources_of_none_extends(vs: Seq<Value>, i: int)
    requires
        0 <= i <= vs.len(),
        resources_of(vs.take(i)) is None,
    ensures
        resources_of(vs) is None,
    decreases vs.len() - i,
{
    if i < vs.len() {
        assert(vs.take(i + 1).drop_last() =~= vs.take(i));
        lemma_resources_of_none_extends(vs, i + 1);
    } else {
        assert(vs.take(i) =~= vs);
    }
}

/// Insertion is idempotent: a second insertion of the same name leaves the
/// matched language exactly as the first left it, whatever else the matcher
/// holds.
pub proof fn lemma_insert_idempotent(m0: Domain, m1: Domain, m2: Domain, rev: Seq<Seq<char>>)
    requires
        forall|p: Seq<Seq<char>>| #[trigger] m1.covers(p) <==> m0.covers(p) || rev.is_prefix_of(p),
        forall|p: Seq<Seq<char>>| #[trigger] m2.covers(p) <==> m1.covers(p) || rev.is_prefix_of(p),
    ensures
        forall|p: Seq<Seq<char>>| #[trigger] m2.covers(p) <==> m1.covers(p),
{
}

} // verus!
