//! The live surface, as the list of the mutations that were made on it.
//!
//! Nothing is drawn here. Views record what has to happen to the surface, in order, and the
//! host carries the mutations out. A handle is the number of the mutation that created it.

use vstd::prelude::*;

verus! {

/// The reference to a live node of the surface.
#[derive(Clone, Copy, Debug, PartialEq, Eq, Structural)]
pub struct Handle {
    pub id: usize,
}

impl Handle {
    /// The handle that the mutation with number `at` creates.
    pub open spec fn at(at: nat) -> Handle {
        Handle { id: at as usize }
    }
}

/// One change of the live surface.
#[derive(Debug, PartialEq, Eq)]
pub enum Mutation {
    /// Installs the hook that reports a failure of the program on the host's console.
    Hook,
    /// Creates a node of text.
    CreateText { handle: Handle, content: String },
    /// Creates an empty node under which others are mounted.
    CreateAnchor { handle: Handle },
    /// Rewrites the text of a node.
    SetText { handle: Handle, content: String },
    /// Attaches `child` as the last child of `parent`.
    Mount { parent: Handle, child: Handle },
    /// Detaches a node from its parent and releases it.
    Unmount { handle: Handle },
    /// Puts `next` at the place of `previous`.
    Replace { previous: Handle, next: Handle },
    /// Installs a node as the visible root.
    Start { root: Handle },
}

/// The mathematical value of a [`Mutation`].
pub enum MutationModel {
    Hook,
    CreateText { handle: Handle, content: Seq<char> },
    CreateAnchor { handle: Handle },
    SetText { handle: Handle, content: Seq<char> },
    Mount { parent: Handle, child: Handle },
    Unmount { handle: Handle },
    Replace { previous: Handle, next: Handle },
    Start { root: Handle },
}

impl MutationModel {
    /// Whether the mutation is about the node `handle`.
    pub open spec fn names(self, handle: Handle) -> bool {
        match self {
            MutationModel::Hook => false,
            MutationModel::CreateText { handle: named, .. } => named == handle,
            MutationModel::CreateAnchor { handle: named } => named == handle,
            MutationModel::SetText { handle: named, .. } => named == handle,
            MutationModel::Mount { parent, child } => parent == handle || child == handle,
            MutationModel::Unmount { handle: named } => named == handle,
            MutationModel::Replace { previous, next } => previous == handle || next == handle,
            MutationModel::Start { root } => root == handle,
        }
    }
}

impl MutationModel {
    /// Whether the mutation attaches or detaches the node `handle`.
    pub open spec fn moves(self, handle: Handle) -> bool {
        match self {
            MutationModel::Mount { child, .. } => child == handle,
            MutationModel::Unmount { handle: gone } => gone == handle,
            MutationModel::Replace { previous, next } => previous == handle || next == handle,
            MutationModel::Start { root } => root == handle,
            _ => false,
        }
    }

    /// Whether the mutation creates the node `handle`.
    pub open spec fn creates(self, handle: Handle) -> bool {
        match self {
            MutationModel::CreateText { handle: made, .. } => made == handle,
            MutationModel::CreateAnchor { handle: made } => made == handle,
            _ => false,
        }
    }

    /// Whether the mutation mounts a node under `parent`.
    pub open spec fn mounts_under(self, parent: Handle) -> bool {
        match self {
            MutationModel::Mount { parent: under, .. } => under == parent,
            _ => false,
        }
    }

    /// Whether the mutation leaves alone a node `handle` that a product owns: it does not
    /// create the node anew, mounts nothing under it, and moves it only where it is the
    /// product's own node, which belongs to whoever holds the product.
    pub open spec fn spares(self, handle: Handle, own: bool) -> bool {
        &&& !self.creates(handle)
        &&& !self.mounts_under(handle)
        &&& !own ==> !self.moves(handle)
    }

    /// Whether the mutation leaves `parent` its children, which are `kids`: it does not
    /// create `parent` anew, mounts nothing under it and moves none of `kids`.
    pub open spec fn keeps(self, parent: Handle, kids: Seq<Handle>) -> bool {
        &&& !self.creates(parent)
        &&& !self.mounts_under(parent)
        &&& forall|i: int| 0 <= i < kids.len() ==> !self.moves(#[trigger] kids[i])
    }
}

/// `kids` without the node `handle`, the others in their order.
pub open spec fn without(kids: Seq<Handle>, handle: Handle) -> Seq<Handle>
    decreases kids.len(),
{
    if kids.len() == 0 {
        Seq::empty()
    } else if kids.last() == handle {
        without(kids.drop_last(), handle)
    } else {
        without(kids.drop_last(), handle).push(kids.last())
    }
}

/// `kids` with `next` at every place of `previous`.
pub open spec fn replaced(kids: Seq<Handle>, previous: Handle, next: Handle) -> Seq<Handle> {
    Seq::new(
        kids.len(),
        |i: int|
            if kids[i] == previous {
                next
            } else {
                kids[i]
            },
    )
}

/// The children of the node `parent` after the mutations of `log`, in the order in which
/// they stand under it. A node that is created has none. A node that is mounted goes to the
/// end, and leaves the place where it stood before.
pub open spec fn children(log: Seq<MutationModel>, parent: Handle) -> Seq<Handle>
    decreases log.len(),
{
    if log.len() == 0 {
        Seq::empty()
    } else {
        let before = children(log.drop_last(), parent);
        match log.last() {
            MutationModel::Mount { parent: under, child } => if under == parent {
                without(before, child).push(child)
            } else {
                without(before, child)
            },
            MutationModel::Unmount { handle } => without(before, handle),
            MutationModel::Replace { previous, next } => replaced(
                without(before, next),
                previous,
                next,
            ),
            MutationModel::Start { root } => without(before, root),
            MutationModel::CreateText { handle, .. } => if handle == parent {
                Seq::empty()
            } else {
                before
            },
            MutationModel::CreateAnchor { handle } => if handle == parent {
                Seq::empty()
            } else {
                before
            },
            _ => before,
        }
    }
}

/// Whether `kids` are the children of `anchor` after `log`, in this order, each of them once,
/// and all of them nodes that `log` has created.
pub open spec fn placed(kids: Seq<Handle>, anchor: Handle, log: Seq<MutationModel>) -> bool {
    &&& children(log, anchor) == kids
    &&& kids.no_duplicates()
    &&& anchor.id < log.len()
    &&& forall|i: int| 0 <= i < kids.len() ==> (#[trigger] kids[i]).id < log.len()
}

/// Taking out a node that is not there changes nothing.
pub proof fn lemma_without_absent(kids: Seq<Handle>, handle: Handle)
    requires
        !kids.contains(handle),
    ensures
        without(kids, handle) == kids,
    decreases kids.len(),
{
    if kids.len() > 0 {
        assert(kids.last() == kids[kids.len() - 1]);
        assert forall|i: int| 0 <= i < kids.drop_last().len() implies kids.drop_last()[i]
            != handle by {
            assert(kids.drop_last()[i] == kids[i]);
        }
        lemma_without_absent(kids.drop_last(), handle);
        assert(kids.drop_last().push(kids.last()) =~= kids);
    } else {
        assert(kids =~= Seq::empty());
    }
}

/// Taking out a node that stands once leaves what stood before it and after it.
pub proof fn lemma_without_once(before: Seq<Handle>, handle: Handle, after: Seq<Handle>)
    requires
        !before.contains(handle),
        !after.contains(handle),
    ensures
        without(before + seq![handle] + after, handle) == before + after,
    decreases after.len(),
{
    let kids = before + seq![handle] + after;
    if after.len() == 0 {
        assert(kids.drop_last() =~= before);
        assert(kids.last() == handle);
        lemma_without_absent(before, handle);
        assert(before + after =~= before);
    } else {
        assert(kids.last() == after.last());
        assert(after.last() == after[after.len() - 1]);
        assert(kids.drop_last() =~= before + seq![handle] + after.drop_last());
        assert forall|i: int| 0 <= i < after.drop_last().len() implies after.drop_last()[i]
            != handle by {
            assert(after.drop_last()[i] == after[i]);
        }
        lemma_without_once(before, handle, after.drop_last());
        assert((before + after.drop_last()).push(after.last()) =~= before + after);
    }
}

/// Mutations that keep a node its children leave them as they were, in their order.
pub proof fn lemma_children_kept(log: Seq<MutationModel>, more: Seq<MutationModel>, parent: Handle)
    requires
        forall|i: int|
            0 <= i < more.len() ==> (#[trigger] more[i]).keeps(parent, children(log, parent)),
    ensures
        children(log + more, parent) == children(log, parent),
    decreases more.len(),
{
    if more.len() == 0 {
        assert(log + more =~= log);
    } else {
        let kids = children(log, parent);
        let last = more[more.len() - 1];
        assert((log + more).drop_last() =~= log + more.drop_last());
        assert((log + more).last() == last);
        lemma_children_kept(log, more.drop_last(), parent);
        assert(last.keeps(parent, kids));
        match last {
            MutationModel::Mount { parent: under, child } => {
                lemma_keeps_absent(last, parent, kids, child);
                lemma_without_absent(kids, child);
            },
            MutationModel::Unmount { handle } => {
                lemma_keeps_absent(last, parent, kids, handle);
                lemma_without_absent(kids, handle);
            },
            MutationModel::Replace { previous, next } => {
                lemma_keeps_absent(last, parent, kids, next);
                lemma_keeps_absent(last, parent, kids, previous);
                lemma_without_absent(kids, next);
                assert(replaced(kids, previous, next) =~= kids);
            },
            MutationModel::Start { root } => {
                lemma_keeps_absent(last, parent, kids, root);
                lemma_without_absent(kids, root);
            },
            _ => {},
        }
    }
}

/// A node that a mutation moves is none of the children that the mutation keeps.
pub proof fn lemma_keeps_absent(
    mutation: MutationModel,
    parent: Handle,
    kids: Seq<Handle>,
    handle: Handle,
)
    requires
        mutation.keeps(parent, kids),
        mutation.moves(handle),
    ensures
        !kids.contains(handle),
{
    if kids.contains(handle) {
        let i = choose|i: int| 0 <= i < kids.len() && kids[i] == handle;
        assert(!mutation.moves(kids[i]));
    }
}

/// Whether no mutation of `log` is about a node that was created before mutation number `at`.
pub open spec fn all_fresh(log: Seq<MutationModel>, at: nat) -> bool {
    forall|i: int, handle: Handle|
        0 <= i < log.len() && handle.id < at ==> !(#[trigger] log[i].names(handle))
}

/// Whether the node `handle` is attached after the mutations of `log`: the last mutation that
/// attaches or detaches it decides. Being the root counts as attached.
pub open spec fn mounted(log: Seq<MutationModel>, handle: Handle) -> bool
    decreases log.len(),
{
    if log.len() == 0 {
        false
    } else {
        match log.last() {
            MutationModel::Mount { child, .. } if child == handle => true,
            MutationModel::Start { root } if root == handle => true,
            MutationModel::Unmount { handle: gone } if gone == handle => false,
            MutationModel::Replace { previous, next } if next == handle => true,
            MutationModel::Replace { previous, next } if previous == handle => false,
            _ => mounted(log.drop_last(), handle),
        }
    }
}

/// Mutations that are not about a node leave it attached or detached as it was.
pub proof fn lemma_mounted_frame(log: Seq<MutationModel>, more: Seq<MutationModel>, handle: Handle)
    requires
        forall|i: int| 0 <= i < more.len() ==> !(#[trigger] more[i]).names(handle),
    ensures
        mounted(log + more, handle) == mounted(log, handle),
    decreases more.len(),
{
    if more.len() == 0 {
        assert(log + more =~= log);
    } else {
        assert((log + more).drop_last() =~= log + more.drop_last());
        assert((log + more).last() == more[more.len() - 1]);
        lemma_mounted_frame(log, more.drop_last(), handle);
    }
}

impl View for Mutation {
    type V = MutationModel;

    open spec fn view(&self) -> MutationModel {
        match self {
            Mutation::Hook => MutationModel::Hook,
            Mutation::CreateText { handle, content } => MutationModel::CreateText {
                handle: *handle,
                content: content@,
            },
            Mutation::CreateAnchor { handle } => MutationModel::CreateAnchor { handle: *handle },
            Mutation::SetText { handle, content } => MutationModel::SetText {
                handle: *handle,
                content: content@,
            },
            Mutation::Mount { parent, child } => MutationModel::Mount {
                parent: *parent,
                child: *child,
            },
            Mutation::Unmount { handle } => MutationModel::Unmount { handle: *handle },
            Mutation::Replace { previous, next } => MutationModel::Replace {
                previous: *previous,
                next: *next,
            },
            Mutation::Start { root } => MutationModel::Start { root: *root },
        }
    }
}

/// The live surface: every mutation that was made on it, the first one first.
pub struct Surface {
    log: Vec<Mutation>,
}

impl View for Surface {
    type V = Seq<MutationModel>;

    closed spec fn view(&self) -> Seq<MutationModel> {
        Seq::new(self.log@.len(), |i: int| self.log@[i]@)
    }
}

impl Surface {
    /// A surface on which nothing has happened.
    pub fn new() -> (surface: Surface)
        ensures
            surface@ == Seq::<MutationModel>::empty(),
    {
        let surface = Surface { log: Vec::new() };
        assert(surface@ =~= Seq::empty());
        surface
    }

    /// A surface holds no more mutations than the machine can count.
    pub proof fn lemma_countable(&self)
        ensures
            self@.len() <= usize::MAX,
    {
        assert(self.log.len() == self.log@.len());
    }

    /// The mutations that were made, the first one first.
    pub fn mutations(&self) -> (log: &Vec<Mutation>)
        ensures
            log@.len() == self@.len(),
            forall|i: int| 0 <= i < log@.len() ==> log@[i]@ == self@[i],
    {
        &self.log
    }

    /// How many mutations were made.
    pub fn len(&self) -> (len: usize)
        ensures
            len == self@.len(),
    {
        self.log.len()
    }

    /// Whether the hook for failures was installed on this surface.
    pub fn is_hooked(&self) -> (hooked: bool)
        ensures
            hooked == self@.contains(MutationModel::Hook),
    {
        let mut i: usize = 0;
        while i < self.log.len()
            invariant
                i <= self.log@.len(),
                forall|j: int| 0 <= j < i ==> self@[j] != MutationModel::Hook,
            decreases self.log@.len() - i,
        {
            match &self.log[i] {
                Mutation::Hook => {
                    assert(self@[i as int] == MutationModel::Hook);
                    return true;
                },
                _ => {},
            }
            i += 1;
        }
        false
    }

    fn record(&mut self, mutation: Mutation)
        ensures
            final(self)@ == old(self)@.push(mutation@),
    {
        self.log.push(mutation);
        assert(self@ =~= old(self)@.push(mutation@));
    }

    /// Installs the hook that reports failures.
    pub fn hook(&mut self)
        ensures
            final(self)@ == old(self)@.push(MutationModel::Hook),
    {
        self.record(Mutation::Hook);
    }

    /// Creates a node of text. Its handle is the number of this mutation.
    pub fn create_text(&mut self, content: String) -> (handle: Handle)
        ensures
            handle == Handle::at(old(self)@.len()),
            final(self)@ == old(self)@.push(MutationModel::CreateText { handle, content: content@ }),
    {
        let handle = Handle { id: self.log.len() };
        self.record(Mutation::CreateText { handle, content });
        handle
    }

    /// Creates an empty node to mount others under. Its handle is the number of this mutation.
    pub fn create_anchor(&mut self) -> (handle: Handle)
        ensures
            handle == Handle::at(old(self)@.len()),
            final(self)@ == old(self)@.push(MutationModel::CreateAnchor { handle }),
    {
        let handle = Handle { id: self.log.len() };
        self.record(Mutation::CreateAnchor { handle });
        handle
    }

    /// Rewrites the text of `handle`.
    pub fn set_text(&mut self, handle: Handle, content: String)
        ensures
            final(self)@ == old(self)@.push(MutationModel::SetText { handle, content: content@ }),
    {
        self.record(Mutation::SetText { handle, content });
    }

    /// Attaches `child` as the last child of `parent`.
    pub fn mount(&mut self, parent: Handle, child: Handle)
        ensures
            final(self)@ == old(self)@.push(MutationModel::Mount { parent, child }),
    {
        self.record(Mutation::Mount { parent, child });
    }

    /// Detaches `handle` from its parent and releases it.
    pub fn unmount(&mut self, handle: Handle)
        ensures
            final(self)@ == old(self)@.push(MutationModel::Unmount { handle }),
    {
        self.record(Mutation::Unmount { handle });
    }

    /// Puts `next` at the place of `previous`.
    pub fn replace(&mut self, previous: Handle, next: Handle)
        ensures
            final(self)@ == old(self)@.push(MutationModel::Replace { previous, next }),
    {
        self.record(Mutation::Replace { previous, next });
    }

    /// Installs `root` as the visible root.
    pub fn install(&mut self, root: Handle)
        ensures
            final(self)@ == old(self)@.push(MutationModel::Start { root }),
    {
        self.record(Mutation::Start { root });
    }
}

} // verus!
