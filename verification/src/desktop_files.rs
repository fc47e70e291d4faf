//! Collecting the `.desktop` files under an applications directory: a
//! depth-first walk that takes the children of each directory in order of
//! their names, lists a directory's entry files before descending into its
//! subdirectories, and enters each directory (by device and inode) once.
//!
//! The walk is a state: the caller takes the next directory to read, reads
//! its children and hands them back, until no directory is left.
use vstd::prelude::*;
use crate::paths::{extension, extension_of};
use crate::sorted::{insert_by, is_text_less, sort_by, text_less};

verus! {

/// A child of a directory being walked.
pub struct DirectoryChild {
    /// Its file name.
    pub name: String,
    /// Its path: the directory's path joined with the name.
    pub path: String,
    /// Its device and inode when it is a directory (links followed).
    pub directory: Option<(u64, u64)>,
}

/// A child as texts.
pub struct ChildView {
    pub name: Seq<char>,
    pub path: Seq<char>,
    pub directory: Option<(u64, u64)>,
}

impl View for DirectoryChild {
    type V = ChildView;

    open spec fn view(&self) -> ChildView {
        ChildView { name: self.name@, path: self.path@, directory: self.directory }
    }
}

/// The children as texts.
pub open spec fn children_view(children: Seq<DirectoryChild>) -> Seq<ChildView> {
    children.map_values(|c: DirectoryChild| c@)
}

/// Children are taken in order of their names.
pub open spec fn child_name(c: ChildView) -> Seq<char> {
    c.name
}

/// One child comes before another when its name does.
pub open spec fn by_name() -> spec_fn(ChildView, ChildView) -> bool {
    |a: ChildView, b: ChildView| text_less(child_name(a), child_name(b))
}

/// The stack and the entered directories once `children` are taken from
/// the last to the first: each directory not entered before is entered and
/// pushed, so that the first child is read first.
pub open spec fn push_subdirectories(
    stack: Seq<Seq<char>>,
    entered: Seq<(u64, u64)>,
    children: Seq<ChildView>,
) -> (Seq<Seq<char>>, Seq<(u64, u64)>)
    decreases children.len(),
{
    if children.len() == 0 {
        (stack, entered)
    } else {
        let c = children.last();
        match c.directory {
            Some(key) => if entered.contains(key) {
                push_subdirectories(stack, entered, children.drop_last())
            } else {
                push_subdirectories(stack.push(c.path), entered.push(key), children.drop_last())
            },
            None => push_subdirectories(stack, entered, children.drop_last()),
        }
    }
}

/// The paths of the children whose extension is `desktop`, in order.
pub open spec fn desktop_paths(children: Seq<ChildView>) -> Seq<Seq<char>>
    decreases children.len(),
{
    if children.len() == 0 {
        seq![]
    } else if extension(children.last().path) == Some("desktop"@) {
        desktop_paths(children.drop_last()).push(children.last().path)
    } else {
        desktop_paths(children.drop_last())
    }
}

/// No directory is entered twice.
pub open spec fn entered_once(entered: Seq<(u64, u64)>) -> bool {
    forall|i: int, j: int| 0 <= i < j < entered.len() ==> #[trigger] entered[i] != #[trigger] entered[j]
}

/// Every path found has the extension `desktop`.
pub proof fn lemma_desktop_paths(children: Seq<ChildView>)
    ensures
        forall|i: int|
            0 <= i < desktop_paths(children).len() ==> extension(#[trigger] desktop_paths(children)[i])
                == Some("desktop"@),
    decreases children.len(),
{
    if children.len() > 0 {
        lemma_desktop_paths(children.drop_last());
    }
}

/// Taking in children never enters a directory twice.
pub proof fn lemma_push_subdirectories_once(
    stack: Seq<Seq<char>>,
    entered: Seq<(u64, u64)>,
    children: Seq<ChildView>,
)
    requires
        entered_once(entered),
    ensures
        entered_once(push_subdirectories(stack, entered, children).1),
    decreases children.len(),
{
    if children.len() > 0 {
        let c = children.last();
        match c.directory {
            Some(key) => if entered.contains(key) {
                lemma_push_subdirectories_once(stack, entered, children.drop_last());
            } else {
                assert(entered_once(entered.push(key))) by {
                    assert forall|i: int, j: int| 0 <= i < j < entered.push(key).len() implies #[trigger] entered.push(key)[i] != #[trigger] entered.push(key)[j] by {
                        if j == entered.len() {
                            assert(entered.push(key)[i] == entered[i]);
                        }
                    }
                }
                lemma_push_subdirectories_once(stack.push(c.path), entered.push(key), children.drop_last());
            },
            None => lemma_push_subdirectories_once(stack, entered, children.drop_last()),
        }
    }
}

/// The paths of `children`, last first.
pub open spec fn paths_last_first(children: Seq<ChildView>) -> Seq<Seq<char>>
    decreases children.len(),
{
    if children.len() == 0 {
        seq![]
    } else {
        seq![children.last().path] + paths_last_first(children.drop_last())
    }
}

/// New subdirectories go on the stack last child first, so that they are
/// read in the order of the children (the first child is taken next).
pub proof fn lemma_subdirectories_read_in_order(
    stack: Seq<Seq<char>>,
    entered: Seq<(u64, u64)>,
    children: Seq<ChildView>,
)
    requires
        forall|i: int| 0 <= i < children.len() ==> (#[trigger] children[i]).directory is Some,
        forall|i: int|
            0 <= i < children.len() ==> !entered.contains((#[trigger] children[i]).directory->0),
        forall|i: int, j: int|
            0 <= i < j < children.len() ==> (#[trigger] children[i]).directory->0 != (
            #[trigger] children[j]).directory->0,
    ensures
        push_subdirectories(stack, entered, children).0 == stack + paths_last_first(children),
    decreases children.len(),
{
    if children.len() > 0 {
        let c = children.last();
        let key = c.directory->0;
        let rest = children.drop_last();
        assert(children[children.len() - 1] == c);
        assert forall|i: int| 0 <= i < rest.len() implies !entered.push(key).contains(
            (#[trigger] rest[i]).directory->0,
        ) by {
            assert(rest[i] == children[i]);
            assert(children[i].directory->0 != children[children.len() - 1].directory->0);
            if entered.push(key).contains(rest[i].directory->0) {
                let k = choose|k: int| 0 <= k < entered.push(key).len() && entered.push(key)[k] == rest[i].directory->0;
                if k < entered.len() {
                    assert(entered[k] == rest[i].directory->0);
                }
            }
        }
        assert forall|i: int| 0 <= i < rest.len() implies (#[trigger] rest[i]).directory is Some by {
            assert(rest[i] == children[i]);
        }
        assert forall|i: int, j: int| 0 <= i < j < rest.len() implies (#[trigger] rest[i]).directory->0 != (
            #[trigger] rest[j]).directory->0 by {
            assert(rest[i] == children[i]);
            assert(rest[j] == children[j]);
        }
        lemma_subdirectories_read_in_order(stack.push(c.path), entered.push(key), rest);
        assert(stack.push(c.path) + paths_last_first(rest) == stack + (seq![c.path] + paths_last_first(rest)));
    } else {
        assert(stack + Seq::<Seq<char>>::empty() == stack);
    }
}

/// A walk in progress.
pub struct DesktopFileWalk {
    stack: Vec<String>,
    entered: Vec<(u64, u64)>,
    paths: Vec<String>,
}

impl DesktopFileWalk {
    /// The directories still to read, the last one next.
    pub closed spec fn spec_stack(&self) -> Seq<Seq<char>> {
        self.stack.deep_view()
    }

    /// The directories entered so far, by device and inode.
    pub closed spec fn spec_entered(&self) -> Seq<(u64, u64)> {
        self.entered@
    }

    /// The entry files found so far.
    pub closed spec fn spec_paths(&self) -> Seq<Seq<char>> {
        self.paths.deep_view()
    }

    /// A walk from the directory `root`, whose device and inode are `key`.
    pub fn start(root: String, key: (u64, u64)) -> (r: Self)
        ensures
            entered_once(r.spec_entered()),
            r.spec_stack() == seq![root@],
            r.spec_entered() == seq![key],
            r.spec_paths() == Seq::<Seq<char>>::empty(),
    {
        let mut stack: Vec<String> = Vec::new();
        stack.push(root);
        let mut entered: Vec<(u64, u64)> = Vec::new();
        entered.push(key);
        let r = DesktopFileWalk { stack, entered, paths: Vec::new() };
        assert(r.spec_stack() =~= seq![root@]);
        assert(r.spec_paths() =~= Seq::<Seq<char>>::empty());
        r
    }

    /// The next directory to read, taken off the stack; none when the walk
    /// is over.
    pub fn next_directory(&mut self) -> (r: Option<String>)
        ensures
            old(self).spec_stack().len() == 0 ==> r is None && final(self).spec_stack() == old(
                self,
            ).spec_stack(),
            old(self).spec_stack().len() > 0 ==> r.deep_view() == Some(old(self).spec_stack().last())
                && final(self).spec_stack() == old(self).spec_stack().drop_last(),
            final(self).spec_entered() == old(self).spec_entered(),
            final(self).spec_paths() == old(self).spec_paths(),
    {
        let r = self.stack.pop();
        proof {
            if old(self).stack@.len() > 0 {
                assert(self.stack.deep_view() =~= old(self).stack.deep_view().drop_last());
            }
        }
        r
    }

    /// The entry files found, in the order found.
    pub fn paths(&self) -> (r: &Vec<String>)
        ensures
            r.deep_view() == self.spec_paths(),
    {
        &self.paths
    }

    /// Whether `key` names a directory entered before.
    fn was_entered(&self, key: (u64, u64)) -> (r: bool)
        ensures
            r == self.spec_entered().contains(key),
    {
        let mut i: usize = 0;
        while i < self.entered.len()
            invariant
                i <= self.entered@.len(),
                forall|m: int| 0 <= m < i ==> self.entered@[m] != key,
            decreases self.entered.len() - i,
        {
            if self.entered[i].0 == key.0 && self.entered[i].1 == key.1 {
                assert(self.entered@[i as int] == key);
                return true;
            }
            i = i + 1;
        }
        false
    }

    /// Takes in the children of the directory just read: in order of their
    /// names, each subdirectory not entered before is entered and pushed so
    /// that it is read before those after it, and each child with the
    /// extension `desktop` is found.
    pub fn visit(&mut self, children: Vec<DirectoryChild>)
        ensures
            (final(self).spec_stack(), final(self).spec_entered()) == push_subdirectories(
                old(self).spec_stack(),
                old(self).spec_entered(),
                sort_by(children_view(children@), by_name()),
            ),
            final(self).spec_paths() == old(self).spec_paths() + desktop_paths(
                sort_by(children_view(children@), by_name()),
            ),
            entered_once(old(self).spec_entered()) ==> entered_once(final(self).spec_entered()),
    {
        let sorted = sort_children(children);
        let ghost cs = children_view(sorted@);
        let mut k = sorted.len();
        assert(cs.take(k as int) == cs);
        while k > 0
            invariant
                k <= sorted@.len(),
                cs == children_view(sorted@),
                push_subdirectories(old(self).spec_stack(), old(self).spec_entered(), cs)
                    == push_subdirectories(self.spec_stack(), self.spec_entered(), cs.take(k as int)),
                self.spec_paths() == old(self).spec_paths(),
            decreases k,
        {
            let child = &sorted[k - 1];
            proof {
                assert(cs.take(k as int).last() == child@);
                assert(cs.take(k as int).drop_last() == cs.take(k - 1));
            }
            match child.directory {
                Some(key) => {
                    if !self.was_entered(key) {
                        let ghost st = self.spec_stack();
                        self.entered.push(key);
                        self.stack.push(child.path.clone());
                        assert(self.spec_stack() =~= st.push(child.path@));
                    }
                },
                None => {},
            }
            k = k - 1;
        }
        assert(cs.take(0) =~= Seq::<ChildView>::empty());
        let ghost before = self.spec_paths();
        let ghost st = self.spec_stack();
        let ghost en = self.spec_entered();
        let mut i: usize = 0;
        assert(cs.take(0) =~= Seq::<ChildView>::empty());
        while i < sorted.len()
            invariant
                i <= sorted@.len(),
                cs == children_view(sorted@),
                self.spec_paths() == before + desktop_paths(cs.take(i as int)),
                before == old(self).spec_paths(),
                self.spec_stack() == st,
                self.spec_entered() == en,
            decreases sorted.len() - i,
        {
            let child = &sorted[i];
            proof {
                assert(cs.take(i + 1).last() == child@);
                assert(cs.take(i + 1).drop_last() == cs.take(i as int));
            }
            let is_entry = match extension_of(child.path.as_str()) {
                Some(e) => e == String::from_str("desktop"),
                None => false,
            };
            proof {
                reveal_strlit("desktop");
            }
            if is_entry {
                let ghost ps = self.spec_paths();
                self.paths.push(child.path.clone());
                assert(self.spec_paths() =~= ps.push(child.path@));
            }
            i = i + 1;
        }
        assert(cs.take(sorted@.len() as int) == cs);
        proof {
            if entered_once(old(self).spec_entered()) {
                lemma_push_subdirectories_once(old(self).spec_stack(), old(self).spec_entered(), cs);
            }
        }
    }
}

/// `children` in order of their names, children with equal names keeping
/// their order.
fn sort_children(children: Vec<DirectoryChild>) -> (r: Vec<DirectoryChild>)
    ensures
        children_view(r@) == sort_by(children_view(children@), by_name()),
{
    let ghost key = by_name();
    let ghost all = children_view(children@);
    let n = children.len();
    let mut r: Vec<DirectoryChild> = Vec::new();
    let mut rest = children;
    let mut taken: usize = 0;
    assert(all.skip(0) == all);
    while rest.len() > 0
        invariant
            all == children_view(children@),
            n == all.len(),
            taken + rest@.len() == n,
            children_view(rest@) == all.skip(taken as int),
            children_view(r@) == sort_by(all.take(taken as int), key),
            key == (by_name()),
        decreases rest.len(),
    {
        let ghost before = children_view(rest@);
        let ghost before_vec = rest@;
        let c = rest.remove(0);
        assert(before[0] == c@);
        assert(all.skip(taken as int)[0] == all[taken as int]);
        assert forall|m: int| 0 <= m < rest@.len() implies #[trigger] children_view(rest@)[m] == all.skip(taken + 1)[m] by {
            assert(rest@[m] == before_vec[m + 1]);
            assert(before[m + 1] == all.skip(taken as int)[m + 1]);
        }
        assert(children_view(rest@) =~= all.skip(taken + 1));
        assert(all.take(taken + 1).drop_last() == all.take(taken as int));
        assert(all.take(taken + 1).last() == c@);
        insert_child(&mut r, c);
        taken = taken + 1;
    }
    assert(all.take(taken as int) == all);
    r
}

/// Puts `x` into `v` after the last child whose name does not come after
/// its name.
fn insert_child(v: &mut Vec<DirectoryChild>, x: DirectoryChild)
    ensures
        children_view(final(v)@) == insert_by(children_view(old(v)@), x@, by_name()),
{
    let ghost key = by_name();
    let ghost s = children_view(v@);
    let mut p = v.len();
    assert(s.take(p as int) == s);
    assert(s.skip(p as int) =~= Seq::<ChildView>::empty());
    while p > 0 && is_text_less(x.name.as_str(), v[p - 1].name.as_str())
        invariant
            p <= v@.len(),
            children_view(v@) == s,
            key == (by_name()),
            insert_by(s, x@, key) == insert_by(s.take(p as int), x@, key) + s.skip(p as int),
        decreases p,
    {
        proof {
            let t = s.take(p as int);
            assert(t.drop_last() == s.take(p - 1));
            assert(t.last() == s[p - 1]);
            assert(s.skip(p - 1) == seq![s[p - 1]] + s.skip(p as int));
            assert(insert_by(t, x@, key) == insert_by(s.take(p - 1), x@, key).push(s[p - 1]));
            assert(insert_by(s.take(p - 1), x@, key).push(s[p - 1]) + s.skip(p as int)
                == insert_by(s.take(p - 1), x@, key) + s.skip(p - 1));
        }
        p = p - 1;
    }
    proof {
        let t = s.take(p as int);
        if p > 0 {
            assert(t.last() == s[p - 1]);
        }
        assert(insert_by(t, x@, key) == t.push(x@));
    }
    let ghost xv = x@;
    v.insert(p, x);
    assert(children_view(v@) =~= s.take(p as int).push(xv) + s.skip(p as int));
}

} // verus!
